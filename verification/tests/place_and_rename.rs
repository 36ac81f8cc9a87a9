use mistarr_server::jobs::import::support::{locate_plan, search_order, Locate};
use mistarr_server::jobs::import::place::{
    add_header, is_plain, library_path, rename_in_library, strip_header, SHORTER_THAN_HEADER, swap_order, ByteOrder, ByteSwapper, PlaceError, Roots,
};
use mistarr_server::jobs::import::rename::{
    check_subject, check_target, move_failure, rename_target, EntryFacts, PlanStep, RenameError,
    ALREADY_NAMED, IN_A_ZIP, MORE_THAN_A_RENAME, NO_NAME, ROM_RETIRED,
};
use mistarr_server::jobs::import::{
    disc_start, member_rel, route, ImportFacts, PlatformKind, Route, partly_placed, placed_state, steps_to_run, DiscStart, reaction, should_release, stale_members, staged_name,
    target_action, target_pieces, ImportJob, Reaction, TargetAction, BIOS_REFUSED, KIND,
};
use mistarr_server::jobs::scan::FileState;
use mistarr_server::jobs::Lane;

fn roots() -> Roots {
    Roots::from_resolved("/st", "/st/ab", "Set", "/games", "/st/ab/Set").expect("inside")
}

#[test]
fn paths_outside_staging_or_games_are_refused() {
    let r = roots();
    assert_eq!(r.staged(), "/st/ab/Set");
    assert_eq!(r.work(), "/st/ab");
    assert_eq!(r.library("NES/a.nes").expect("plain"), "/games/NES/a.nes");
    assert!(matches!(r.library("../x"), Err(PlaceError::Outside(p)) if p == "../x"));
    assert!(matches!(r.library("/etc/passwd"), Err(PlaceError::Outside(_))));
    assert!(matches!(r.stage("a/../../b"), Err(PlaceError::Outside(_))));
    assert!(r.stage("Set/a.nes").is_ok());
    assert!(Roots::from_resolved("/st", "/elsewhere", "Set", "/games", "/elsewhere/Set").is_err());
    assert!(Roots::from_resolved("/st", "/st/ab", "..", "/games", "/st/ab/..").is_err());
}

#[test]
fn plain_paths_have_only_names() {
    assert!(is_plain("NES/a.nes"));
    assert!(is_plain("a"));
    assert!(!is_plain(""));
    assert!(!is_plain("./a"));
    assert!(!is_plain("a/../b"));
    assert!(!is_plain("/a"));
    assert_eq!(library_path("/g", "x/y").expect("plain"), "/g/x/y");
}

#[test]
fn different_filesystems_are_refused() {
    let r = roots();
    assert!(r.check_same_filesystem(true).is_ok());
    assert!(matches!(
        r.check_same_filesystem(false),
        Err(PlaceError::CrossDevice { staging, games }) if staging == "/st" && games == "/games"
    ));
}

#[test]
fn library_renames_refuse_taken_and_outside_names() {
    let moved = rename_in_library("/g", "NES/old.nes", "NES/new.nes", |_| false, |_, _| Ok(()));
    assert_eq!(moved.expect("renamed"), "/g/NES/new.nes");
    let taken = rename_in_library("/g", "NES/new.nes", "NES/taken.nes", |p| p == "/g/NES/taken.nes", |_, _| Ok(()));
    assert!(matches!(taken, Err(PlaceError::Exists(p)) if p == "/g/NES/taken.nes"));
    assert!(matches!(
        rename_in_library("/g", "NES/new.nes", "../x", |_| false, |_, _| Ok(())),
        Err(PlaceError::Outside(p)) if p == "../x"
    ));
    let failed = rename_in_library("/g", "a", "b", |_| false, |_, _| {
        Err(PlaceError::Zip { path: "x".into(), message: "boom".into() })
    });
    assert!(matches!(failed, Err(PlaceError::Zip { .. })));
}

#[test]
fn place_errors_read_as_the_api_shows_them() {
    assert_eq!(
        PlaceError::Exists("/g/a".into()).message(),
        "`/g/a` already exists"
    );
    assert_eq!(
        PlaceError::Outside("../x".into()).message(),
        "`../x` is outside the staging and games directories"
    );
    assert_eq!(
        PlaceError::Zip { path: "a.zip".into(), message: "bad".into() }.message(),
        "`a.zip`: bad"
    );
}

#[test]
fn only_misnamed_loose_files_of_a_live_entry_are_renamed() {
    let live = Some(EntryFacts { bios: false, lists_rom: true });
    assert!(check_subject(FileState::Misnamed, "NES/a.nes", live).is_ok());
    assert!(matches!(
        check_subject(FileState::Verified, "NES/a.nes", live),
        Err(RenameError::Refused(m)) if m == "the file is verified, not misnamed"
    ));
    assert!(matches!(
        check_subject(FileState::Misnamed, "NES/a.zip#a.nes", live),
        Err(RenameError::Refused(m)) if m == IN_A_ZIP
    ));
    assert!(matches!(
        check_subject(FileState::Misnamed, "NES/a.nes", None),
        Err(RenameError::NotFound)
    ));
    assert!(matches!(
        check_subject(FileState::Misnamed, "a", Some(EntryFacts { bios: true, lists_rom: true })),
        Err(RenameError::Refused(m)) if m == BIOS_REFUSED
    ));
    assert!(matches!(
        check_subject(FileState::Misnamed, "a", Some(EntryFacts { bios: false, lists_rom: false })),
        Err(RenameError::Refused(m)) if m == ROM_RETIRED
    ));
}

#[test]
fn a_plan_renames_or_is_refused() {
    let plan = vec![PlanStep::CreateDir, PlanStep::Rename("NES/b.nes".into())];
    assert_eq!(rename_target(&plan).expect("a rename"), "NES/b.nes");
    assert!(matches!(
        rename_target(&vec![PlanStep::Rename("x".into()), PlanStep::Other]),
        Err(RenameError::Refused(m)) if m == MORE_THAN_A_RENAME
    ));
    assert!(matches!(
        rename_target(&vec![PlanStep::CreateDir]),
        Err(RenameError::Refused(m)) if m == NO_NAME
    ));
}

#[test]
fn targets_that_exist_or_are_unchanged_are_refused() {
    assert!(matches!(check_target("a", "a", false, false), Err(RenameError::Refused(m)) if m == ALREADY_NAMED));
    assert!(matches!(check_target("a", "b", true, true), Err(RenameError::Conflict(p)) if p == "b"));
    assert!(check_target("a", "b", true, false).is_ok());
    assert!(matches!(
        move_failure(&PlaceError::Exists("/g/b".into()), "b"),
        RenameError::Conflict(p) if p == "b"
    ));
    assert!(matches!(
        move_failure(&PlaceError::Outside("../b".into()), "../b"),
        RenameError::Refused(m) if m == "`../b` is outside the staging and games directories"
    ));
    assert_eq!(RenameError::Conflict("b".into()).message(), "`b` already exists");
    assert_eq!(RenameError::NotFound.message(), "no such file in this title");
}

#[test]
fn the_import_job_reacts_to_download_states() {
    let job = ImportJob { download_id: 3 };
    assert_eq!(job.kind(), KIND);
    assert_eq!(job.lane(), Lane::Heavy);
    assert_eq!(reaction(Some("importing")), Reaction::Enqueue);
    assert_eq!(reaction(Some("failed")), Reaction::WakeSiblings);
    assert_eq!(reaction(Some("cancelled")), Reaction::WakeSiblings);
    assert_eq!(reaction(Some("transferring")), Reaction::Ignore);
    assert_eq!(reaction(None), Reaction::Ignore);
}

#[test]
fn placed_payloads_take_the_scanner_state() {
    assert_eq!(placed_state(Some(FileState::Pending), None, "a.nes", "baddump", false), FileState::Pending);
    assert_eq!(placed_state(None, None, "a.nes", "baddump", false), FileState::Bad);
    assert_eq!(placed_state(None, Some("x/b.nes"), "a.nes", "", true), FileState::Misnamed);
    assert_eq!(placed_state(None, Some("x/a.nes"), "y/a.nes", "", true), FileState::Verified);
    assert_eq!(placed_state(None, Some("b.nes"), "a.nes", "", false), FileState::Verified);
    assert_eq!(placed_state(None, None, "a.nes", "good", true), FileState::Verified);
}

#[test]
fn targets_keep_verified_files_and_replace_the_rest() {
    let (v, m) = (FileState::Verified, FileState::Misnamed);
    assert_eq!(target_action(false, &vec![v]), TargetAction::Place);
    assert_eq!(target_action(true, &vec![v, v]), TargetAction::Skip);
    assert_eq!(target_action(true, &vec![v, m]), TargetAction::Replace);
    assert_eq!(target_action(true, &Vec::new()), TargetAction::Replace);
}

#[test]
fn a_target_writes_the_rows_of_the_pieces_it_owns() {
    let names = vec!["a.nes".to_owned(), "b.nes".to_owned()];
    assert_eq!(target_pieces(true, Some("set.zip"), &names), vec![0, 1]);
    assert_eq!(target_pieces(false, Some("b.nes"), &names), vec![1]);
    assert_eq!(target_pieces(false, Some("c.nes"), &names), Vec::<usize>::new());
    assert_eq!(target_pieces(false, None, &names), Vec::<usize>::new());
    assert_eq!(target_pieces(false, Some("c.nes"), &vec!["x.nes".to_owned()]), vec![0]);
    assert_eq!(staged_name(Some("dir/a.nes"), "set.zip"), "a.nes");
    assert_eq!(staged_name(None, "b.nes"), "b.nes");
    assert_eq!(member_rel("NES/set.zip", Some("a.nes")), "NES/set.zip#a.nes");
    assert_eq!(member_rel("NES/set.zip", None), "NES/set.zip#");
    let old = vec!["NES/set.zip#a.nes".to_owned(), "NES/set.zip#old.nes".to_owned()];
    assert_eq!(stale_members(&old, &vec!["NES/set.zip#a.nes".to_owned()]), vec![1]);
    assert_eq!(stale_members(&old, &old), Vec::<usize>::new());
}

#[test]
fn a_finished_source_leaves_the_client_under_seed_policy_none() {
    assert!(should_release(0, 1, true));
    assert!(!should_release(1, 1, true));
    assert!(!should_release(0, 0, true));
    assert!(!should_release(0, 1, false));
}

#[test]
fn a_disc_waits_for_every_track_or_fails_when_none_is_coming() {
    assert_eq!(disc_start(&vec![1, 2], &vec![2, 1], false), DiscStart::Place);
    assert_eq!(disc_start(&vec![1, 2], &vec![1], true), DiscStart::Wait);
    assert_eq!(
        disc_start(&vec![1, 2, 3], &vec![1, 1], false),
        DiscStart::Fail("only 1 of the 3 tracks of this entry are staged; they stay in staging".into())
    );
    assert_eq!(
        disc_start(&Vec::new(), &Vec::new(), false),
        DiscStart::Fail("only 0 of the 0 tracks of this entry are staged; they stay in staging".into())
    );
}

#[test]
fn a_partial_placement_names_what_landed() {
    assert_eq!(
        partly_placed(1, 3, "`/games/NES/b.nes` already exists"),
        "placement stopped after 1 of 3 files (`/games/NES/b.nes` already exists); retry to finish"
    );
    let renames = vec![Some("a.bin".to_owned()), None, Some("b.bin".to_owned())];
    assert_eq!(steps_to_run(&renames, &vec!["b.bin".to_owned()]), vec![0, 1]);
    assert_eq!(steps_to_run(&renames, &Vec::new()), vec![0, 1, 2]);
}

#[test]
fn an_import_takes_the_route_its_entry_calls_for() {
    let ok = ImportFacts {
        importing: true,
        has_source: true,
        source_found: true,
        entry_found: true,
        bios: false,
        platform: Some(PlatformKind::Cartridge),
        from_mra: false,
    };
    assert_eq!(route(&ok), Route::Single);
    assert_eq!(route(&ImportFacts { platform: Some(PlatformKind::Disc), ..ok }), Route::Disc);
    assert_eq!(route(&ImportFacts { platform: Some(PlatformKind::Arcade), ..ok }), Route::Romset);
    assert_eq!(route(&ImportFacts { platform: Some(PlatformKind::Romset), ..ok }), Route::Romset);
    assert_eq!(route(&ImportFacts { from_mra: true, platform: Some(PlatformKind::Arcade), ..ok }), Route::Mra);
    assert_eq!(route(&ImportFacts { importing: false, ..ok }), Route::Skip);
    assert_eq!(route(&ImportFacts { has_source: false, ..ok }), Route::Fail("the transfer has no source"));
    assert_eq!(route(&ImportFacts { source_found: false, ..ok }), Route::Fail("the source of this transfer is gone"));
    assert_eq!(route(&ImportFacts { entry_found: false, ..ok }), Route::Fail("the wanted entry is not in the catalog"));
    assert_eq!(route(&ImportFacts { bios: true, ..ok }), Route::Fail(BIOS_REFUSED));
    assert_eq!(route(&ImportFacts { platform: None, ..ok }), Route::Fail("the entry's platform has no adapter"));
}

#[test]
fn swap_byte_order_normalises_to_big_endian() {
    let data: Vec<u8> = vec![0x37, 0x80, 0x40, 0x12, 1, 2, 9];
    assert_eq!(swap_order(&data, ByteOrder::ByteSwapped), vec![0x80, 0x37, 0x12, 0x40, 2, 1, 9]);
    let out = swap_order(&[0x40, 0x12, 0x37, 0x80], ByteOrder::LittleEndian);
    assert_eq!(out, vec![0x80, 0x37, 0x12, 0x40]);
}

#[test]
fn swap_spans_buffer_boundaries() {
    let buf_size: usize = 256 * 1024;
    let data: Vec<u8> = (0..buf_size * 2 + 6)
        .map(|i| u8::try_from(i % 251).expect("below 256"))
        .collect();
    let mut swapper = ByteSwapper::new(ByteOrder::ByteSwapped);
    let mut out: Vec<u8> = Vec::new();
    // Chunks of odd length, so that words straddle the chunk boundaries.
    for chunk in data.chunks(buf_size - 1) {
        out.extend(swapper.feed(chunk));
    }
    out.extend(swapper.finish());
    assert_eq!(out.len(), data.len());
    assert!(out
        .chunks(2)
        .zip(data.chunks(2))
        .all(|(a, b)| a[0] == b[1] && a[1] == b[0]));
}

#[test]
fn big_endian_input_and_a_trailing_partial_word_pass_unchanged() {
    assert_eq!(swap_order(&[1, 2, 3], ByteOrder::BigEndian), vec![1, 2, 3]);
    assert_eq!(swap_order(&[1, 2, 3, 4, 5, 6], ByteOrder::LittleEndian), vec![4, 3, 2, 1, 5, 6]);
    let mut s = ByteSwapper::new(ByteOrder::LittleEndian);
    assert_eq!(s.feed(&[1, 2, 3]), Vec::<u8>::new());
    assert_eq!(s.feed(&[4, 5]), vec![4, 3, 2, 1]);
    assert_eq!(s.finish(), vec![5]);
}

#[test]
fn staged_paths_resolve_inside_staging_or_are_refused() {
    assert_eq!(
        locate_plan("/s", "abc", "Game/t.bin", None),
        Locate::Local("/s/abc/Game/t.bin".into())
    );
    assert_eq!(locate_plan("/s", "abc", "/s/abc/t.bin", None), Locate::Local("/s/abc/t.bin".into()));
    assert_eq!(locate_plan("/s", "abc", "/etc/passwd", None), Locate::Outside);
    assert_eq!(locate_plan("/s", "abc", "../x", None), Locate::Outside);
    assert_eq!(
        locate_plan("/s", "abc", "Game/t.bin", Some("Real/t.bin")),
        Locate::Search { local: "/s/abc/Game/t.bin".into(), root: "/s/abc".into(), inner: "Real/t.bin".into() }
    );
    assert_eq!(locate_plan("/s", "abc", "t.bin", Some("../t.bin")), Locate::Local("/s/abc/t.bin".into()));
    assert_eq!(locate_plan("/s", "abc", "t.bin", Some("/t.bin")), Locate::Local("/s/abc/t.bin".into()));
    let order = search_order("/s/abc", &vec!["/s/abc/b".into(), "/s/abc/a".into()], "t.bin");
    assert_eq!(order, vec!["/s/abc/t.bin".to_owned(), "/s/abc/a/t.bin".into(), "/s/abc/b/t.bin".into()]);
}

#[test]
fn headers_are_added_and_stripped_and_a_short_file_is_refused() {
    assert_eq!(add_header(b"HEAD", b"body"), b"HEADbody".to_vec());
    assert_eq!(strip_header(4, b"HEADbody"), Some(b"body".to_vec()));
    assert_eq!(strip_header(4, b"HEAD"), Some(Vec::new()));
    assert_eq!(strip_header(99, b"body"), None);
    assert_eq!(SHORTER_THAN_HEADER, "file is shorter than its header");
}
