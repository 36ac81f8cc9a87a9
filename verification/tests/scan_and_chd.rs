use mistarr_server::jobs::chd::{
    chd_rows, track_number,
    classify_tracks, is_cue, settle, track_of_member, track_order, try_title_roms, winner,
};
use mistarr_server::jobs::scan::disc::{classify_disc, disc_titles, DiscTrack};
use mistarr_server::jobs::scan::rows::{is_directory_entry, precheck_row, unhashed_member_row, unverified_row};
use mistarr_server::jobs::scan::stored::{
    candidate_lookups, known_step, lacks_whole, match_forms, stored_lookups, FormHashes, KnownStep, Lookup,
    StoredRow,
};
use mistarr_server::jobs::scan::{
    accepts_extension, basename, cartridge_state, extension, header_rule, in_done_unit,
    own_name, resume, unit_ids, DirEntry, FileState, HeaderRule, RomMatch, Throttle, TopDir,
};

#[test]
fn done_units_cover_their_files_and_zip_members() {
    let done: Vec<String> = vec!["GBA".to_owned(), "PSX/Example Disc (USA)".to_owned()];
    assert!(in_done_unit("GBA/a.gba", &done));
    assert!(in_done_unit("GBA/a.zip#a.gba", &done));
    assert!(in_done_unit("PSX/Example Disc (USA)/t.bin", &done));
    assert!(in_done_unit("GBA", &done));
    assert!(!in_done_unit("PSX/Other (USA)/t.bin", &done));
    assert!(!in_done_unit("GBAX/a.gba", &done));
}

#[test]
fn header_rule_names_map() {
    assert_eq!(header_rule("ines"), HeaderRule::Ines);
    assert_eq!(header_rule("smc"), HeaderRule::Smc);
    assert_eq!(header_rule("nope"), HeaderRule::NoRule);
    assert_eq!(header_rule("n64"), HeaderRule::N64);
}

#[test]
fn accepts_extension_allows_zip_only_for_cartridges() {
    let nes = vec!["nes".to_owned()];
    assert!(accepts_extension(&nes, true, "zip"));
    assert!(accepts_extension(&nes, true, "nes"));
    assert!(!accepts_extension(&nes, true, "txt"));
    let psx = vec!["cue".to_owned(), "chd".to_owned()];
    assert!(!accepts_extension(&psx, false, "zip"));
    assert!(accepts_extension(&psx, false, "cue"));
}

fn rom(rom_id: i64, title_id: i64, name: &str, status: &str) -> RomMatch {
    RomMatch {
        rom_id,
        title_id,
        name: name.into(),
        status: status.into(),
    }
}

#[test]
fn matched_files_are_verified_misnamed_or_bad() {
    let good = rom(4, 1, "sub/Game (USA).nes", "good");
    assert_eq!(cartridge_state(Some(&good), "Game (USA).nes"), (Some(4), FileState::Verified));
    assert_eq!(cartridge_state(Some(&good), "game.nes"), (Some(4), FileState::Misnamed));
    let bad = rom(5, 1, "Game (USA).nes", "baddump");
    assert_eq!(cartridge_state(Some(&bad), "Game (USA).nes"), (Some(5), FileState::Bad));
    assert_eq!(cartridge_state(None, "x"), (None, FileState::Unverified));
}

#[test]
fn own_names_take_the_zip_member() {
    assert_eq!(own_name("NES/a.zip#sub/b.nes"), "b.nes");
    assert_eq!(own_name("NES/b.nes"), "b.nes");
    assert_eq!(basename("a/b/c"), "c");
    assert_eq!(extension("NES/A.NES"), Some("nes".to_owned()));
    assert_eq!(extension("NES/a."), Some(String::new()));
    assert_eq!(extension("NES/readme"), None);
}

#[test]
fn the_scan_throttle_keeps_a_tenth_of_a_second() {
    let mut t = Throttle::new();
    assert!(t.allow(1_000));
    assert!(!t.allow(1_050));
    assert!(t.allow(1_100));
    assert!(!t.allow(900), "a clock that went back waits");
}

#[test]
fn settle_follows_the_setting() {
    assert_eq!(settle("off", true), "pending");
    assert_eq!(settle("no_layout", false), "off");
    assert_eq!(settle("no_layout", true), "no_layout");
    assert_eq!(settle("cooked", false), "cooked");
    assert_eq!(settle("pending", false), "off");
}

#[test]
fn cue_sheets_are_told_by_name() {
    assert!(is_cue("Game/Game (USA).CUE"));
    assert!(!is_cue("Game (USA) (Track 1).bin"));
    assert!(!is_cue("cue"));
}

#[test]
fn identical_tracks_take_distinct_roms() {
    let cands = vec![
        vec![rom(11, 7, "T1.bin", "good"), rom(12, 7, "T2.bin", "good")],
        vec![rom(11, 7, "T1.bin", "good"), rom(12, 7, "T2.bin", "good")],
    ];
    let title = vec![
        rom(10, 7, "Game.cue", "good"),
        rom(11, 7, "T1.bin", "good"),
        rom(12, 7, "T2.bin", "good"),
    ];
    let (assigned, cues) = try_title_roms(&cands, &title).expect("fits");
    assert_eq!(assigned.iter().map(|r| r.rom_id).collect::<Vec<_>>(), [11, 12]);
    assert_eq!(cues.iter().map(|r| r.rom_id).collect::<Vec<_>>(), [10]);
}

#[test]
fn the_title_that_takes_every_track_wins() {
    let cands = vec![
        vec![rom(21, 2, "A1.bin", "good"), rom(31, 3, "B1.bin", "good")],
        vec![rom(32, 3, "B2.bin", "good"), rom(22, 2, "A2.bin", "good")],
    ];
    let roms_of = |t: i64| -> Vec<RomMatch> {
        match t {
            2 => vec![rom(21, 2, "A1.bin", "good"), rom(23, 2, "A3.bin", "good"), rom(22, 2, "A2.bin", "good")],
            3 => vec![rom(30, 3, "B.cue", "good"), rom(31, 3, "B1.bin", "good"), rom(32, 3, "B2.bin", "good")],
            _ => Vec::new(),
        }
    };
    let (assigned, cues) = winner(&cands, roms_of).expect("a title fits");
    assert_eq!(assigned.iter().map(|r| r.rom_id).collect::<Vec<_>>(), [31, 32]);
    assert_eq!(cues.iter().map(|r| r.rom_id).collect::<Vec<_>>(), [30]);
    let (states, cue_roms) = classify_tracks(&cands, &Some((assigned, cues)));
    assert_eq!(states, [(Some(31), FileState::Verified), (Some(32), FileState::Verified)]);
    assert_eq!(cue_roms, [30]);
    assert!(winner(&cands, |_| Vec::new()).is_none());
}

#[test]
fn a_bad_dump_leaves_the_set_without_a_cue() {
    let cands = vec![vec![rom(1, 1, "T1.bin", "baddump")], vec![rom(2, 1, "T2.bin", "good")]];
    let won = Some((
        vec![rom(1, 1, "T1.bin", "baddump"), rom(2, 1, "T2.bin", "good")],
        vec![rom(3, 1, "G.cue", "good")],
    ));
    let (states, cues) = classify_tracks(&cands, &won);
    assert_eq!(states, [(Some(1), FileState::Bad), (Some(2), FileState::Unverified)]);
    assert!(cues.is_empty());
    let (states, cues) = classify_tracks(&cands, &None);
    assert_eq!(states, [(Some(1), FileState::Unverified), (Some(2), FileState::Unverified)]);
    assert!(cues.is_empty());
}

#[test]
fn chd_members_named_by_digits_are_tracks() {
    assert_eq!(track_of_member(Some("02")), Some(2));
    assert_eq!(track_of_member(Some("17")), Some(17));
    assert_eq!(track_of_member(Some("cue")), None);
    assert_eq!(track_of_member(Some("")), None);
    assert_eq!(track_of_member(Some("1a")), None);
    assert_eq!(track_of_member(None), None);
    assert_eq!(track_of_member(Some("99999999999999999999999")), None);
}

fn entry(name: &str, is_dir: bool) -> DirEntry {
    DirEntry { name: name.to_owned(), is_dir, is_file: !is_dir }
}

#[test]
fn discover_units_flat_for_cartridge_and_nested_for_disc() {
    let nes = vec![TopDir { name: "NES".to_owned(), entries: Vec::new() }];
    assert_eq!(unit_ids(false, &nes), ["NES"]);
    let psx = vec![TopDir {
        name: "PSX".to_owned(),
        entries: vec![entry("Example Quest (USA)", true)],
    }];
    assert_eq!(unit_ids(true, &psx), ["PSX/Example Quest (USA)"]);
}

#[test]
fn discover_units_includes_loose_disc_files_in_the_top_directory() {
    let psx = vec![TopDir {
        name: "PSX".to_owned(),
        entries: vec![entry("Loose Quest (USA).iso", false), entry("Example Quest (USA)", true)],
    }];
    assert_eq!(unit_ids(true, &psx), ["PSX", "PSX/Example Quest (USA)"]);
    let two = vec![
        TopDir { name: "SNES".to_owned(), entries: Vec::new() },
        TopDir { name: "SFC".to_owned(), entries: Vec::new() },
    ];
    assert_eq!(unit_ids(false, &two), ["SFC", "SNES"]);
    let odd = vec![TopDir {
        name: "PSX".to_owned(),
        entries: vec![DirEntry { name: "link".to_owned(), is_dir: false, is_file: false }],
    }];
    assert!(unit_ids(true, &odd).is_empty());
}

fn stored(
    rule: Option<&str>,
    sha1: Option<&str>,
    whole_sha1: Option<&str>,
) -> StoredRow {
    StoredRow {
        size: 20,
        mtime: 1,
        state: FileState::Unverified,
        rom_id: None,
        header_rule: rule.map(Into::into),
        hashes: FormHashes { crc32: Some("00000000".into()), md5: None, sha1: sha1.map(Into::into) },
        whole: FormHashes { crc32: None, md5: None, sha1: whole_sha1.map(Into::into) },
    }
}

#[test]
fn only_stripping_rule_rows_without_the_whole_form_lack_it() {
    assert!(lacks_whole(&stored(Some("ines"), Some("a"), None), true));
    assert!(lacks_whole(&stored(Some("lnx"), Some("a"), None), true));
    assert!(!lacks_whole(&stored(Some("ines"), Some("a"), Some("b")), true));
    assert!(!lacks_whole(&stored(Some("ines"), None, None), true), "a failed hash");
    assert!(!lacks_whole(&stored(Some("smc"), Some("a"), None), false));
    assert!(!lacks_whole(&stored(None, None, None), false), "a member known by CRC32");
}

#[test]
fn stored_hashes_try_the_whole_file_then_the_content() {
    let look = |sha1: &str, crc32: &str, size: i64| Lookup {
        sha1: sha1.to_owned(),
        md5: String::new(),
        crc32: crc32.to_owned(),
        size,
    };
    assert!(stored_lookups(&stored(Some("ines"), None, None), 16, false).is_empty());
    assert_eq!(
        stored_lookups(&stored(Some("ines"), Some("a"), Some("b")), 16, false),
        vec![look("b", "", 20), look("a", "00000000", 4)]
    );
    assert_eq!(
        stored_lookups(&stored(Some("ines"), Some("a"), Some("a")), 16, false),
        vec![look("a", "00000000", 20)]
    );
    assert_eq!(
        stored_lookups(&stored(Some("ines"), Some("a"), None), 16, false),
        vec![look("a", "00000000", 20), look("", "00000000", 4)]
    );
    assert_eq!(
        stored_lookups(&stored(None, Some("a"), None), 0, false),
        vec![look("a", "00000000", 20)]
    );
    let mut smc = stored(Some("smc"), Some("a"), None);
    assert_eq!(stored_lookups(&smc, 512, true), vec![look("a", "00000000", 20)]);
    smc.size = 1536;
    assert_eq!(
        stored_lookups(&smc, 512, true),
        vec![look("a", "00000000", 1536), look("", "00000000", 1024)]
    );
}

#[test]
fn a_found_file_is_hashed_skipped_or_matched_by_its_row() {
    assert_eq!(known_step(None, 20, 1, false, false), KnownStep::Hash);
    let row = stored(None, Some("a"), None);
    assert_eq!(known_step(Some(&row), 21, 1, false, false), KnownStep::Hash);
    assert_eq!(known_step(Some(&row), 20, 2, false, false), KnownStep::Hash);
    assert_eq!(known_step(Some(&row), 20, 1, true, false), KnownStep::Hash);
    assert_eq!(known_step(Some(&row), 20, 1, false, false), KnownStep::Stored);
    let mut matched = row.clone();
    matched.rom_id = Some(3);
    assert_eq!(known_step(Some(&matched), 20, 1, false, false), KnownStep::Skip);
    let mut pending = row.clone();
    pending.state = FileState::Pending;
    assert_eq!(known_step(Some(&pending), 20, 1, false, false), KnownStep::Hash);
    let member = stored(None, None, None);
    assert_eq!(known_step(Some(&member), 20, 1, false, false), KnownStep::Skip);
    assert_eq!(
        known_step(Some(&member), 20, 1, false, true),
        KnownStep::Candidate { whole: "00000000".into(), content: None }
    );
    let mut headed = member.clone();
    headed.whole.crc32 = Some("11111111".into());
    assert_eq!(
        known_step(Some(&headed), 20, 1, false, true),
        KnownStep::Candidate { whole: "11111111".into(), content: Some("00000000".into()) }
    );
    let mut failed = member.clone();
    failed.header_rule = Some("ines".into());
    assert_eq!(known_step(Some(&failed), 20, 1, false, true), KnownStep::Skip);
    assert_eq!(candidate_lookups("11111111", Some("00000000"), 20, 16), vec![
        ("11111111".to_owned(), 20),
        ("00000000".to_owned(), 4),
    ]);
    assert_eq!(candidate_lookups("11111111", None, 20, 16), vec![("11111111".to_owned(), 20)]);
}

fn track(name: &str, matched: Option<RomMatch>) -> DiscTrack {
    DiscTrack { name: name.to_owned(), matched }
}

#[test]
fn each_disc_title_is_verified_all_or_nothing_on_its_own() {
    let tracks = vec![
        track("Game (Track 1).bin", Some(rom(1, 10, "Game (Track 1).bin", ""))),
        track("Game.cue", Some(rom(2, 10, "Game.cue", ""))),
        track("readme.m3u", None),
        track("Other (Track 1).bin", Some(rom(5, 20, "Other (Track 1).bin", ""))),
    ];
    assert_eq!(disc_titles(&tracks), vec![10, 20]);
    let states = classify_disc(&tracks, &vec![(10, 2), (20, 2)]);
    assert_eq!(
        states,
        vec![
            (Some(1), FileState::Verified),
            (Some(2), FileState::Verified),
            (None, FileState::Unverified),
            (Some(5), FileState::Unverified),
        ]
    );
    let renamed = vec![
        track("a.bin", Some(rom(1, 10, "Game (Track 1).bin", ""))),
        track("Game.cue", Some(rom(2, 10, "Game.cue", ""))),
    ];
    assert_eq!(
        classify_disc(&renamed, &vec![(10, 2)]),
        vec![(Some(1), FileState::Misnamed), (Some(2), FileState::Verified)]
    );
    let bad = vec![
        track("Game (Track 1).bin", Some(rom(1, 10, "Game (Track 1).bin", "baddump"))),
        track("Game.cue", Some(rom(2, 10, "Game.cue", ""))),
    ];
    assert_eq!(
        classify_disc(&bad, &vec![(10, 2)]),
        vec![(Some(1), FileState::Bad), (Some(2), FileState::Unverified)]
    );
    assert_eq!(
        classify_disc(&renamed, &Vec::new()),
        vec![(Some(1), FileState::Unverified), (Some(2), FileState::Unverified)]
    );
}

/// Title `G` of tests below: its cue sheet and three tracks.
fn title_g(t: i64) -> Vec<RomMatch> {
    match t {
        1 => vec![
            rom(100, 1, "G.cue", "good"),
            rom(101, 1, "g1.bin", "good"),
            rom(102, 1, "g2.bin", "good"),
        ],
        _ => Vec::new(),
    }
}

#[test]
fn a_complete_set_verifies_every_track_and_its_cue() {
    let cands = vec![vec![rom(101, 1, "g1.bin", "good")], vec![rom(102, 1, "g2.bin", "good")]];
    let won = winner(&cands, title_g);
    let (states, cues) = classify_tracks(&cands, &won);
    assert_eq!(states, [(Some(101), FileState::Verified), (Some(102), FileState::Verified)]);
    assert_eq!(cues, [100]);
}

#[test]
fn an_incomplete_or_mismatched_set_stays_unverified() {
    let three = |t: i64| -> Vec<RomMatch> {
        let mut v = title_g(t);
        if t == 1 {
            v.push(rom(103, 1, "g3.bin", "good"));
        }
        v
    };
    let cands = vec![vec![rom(101, 1, "g1.bin", "good")], vec![rom(102, 1, "g2.bin", "good")]];
    let won = winner(&cands, three);
    assert!(won.is_none());
    let (states, cues) = classify_tracks(&cands, &won);
    assert_eq!(states, [(Some(101), FileState::Unverified), (Some(102), FileState::Unverified)]);
    assert!(cues.is_empty());
    let four = vec![
        vec![rom(101, 1, "g1.bin", "good")],
        vec![rom(102, 1, "g2.bin", "good")],
        vec![rom(103, 1, "g3.bin", "good")],
        Vec::new(),
    ];
    let won = winner(&four, three);
    let (states, cues) = classify_tracks(&four, &won);
    assert_eq!(states.len(), 4, "no cue for a count mismatch");
    assert!(cues.is_empty());
    assert!(states.iter().all(|s| s.1 == FileState::Unverified));
    assert_eq!(states[3].0, None);
}

/// Whether a lookup finds a live rom the DAT knows by its CRC32 `crc32` and `size` alone.
fn crc_rom_finds(l: &Lookup, crc32: &str, size: i64) -> bool {
    l.size == size && l.crc32 == crc32
}

#[test]
fn a_stored_crc_matches_a_headered_file_by_its_size_less_the_header() {
    let mut row = stored(Some("ines"), Some("9".repeat(40).as_str()), None);
    row.hashes.crc32 = Some("00000009".into());
    let lookups = stored_lookups(&row, 16, false);
    let found = lookups.iter().find(|l| crc_rom_finds(l, "00000009", 4));
    assert!(found.is_some(), "20 bytes on disk hash as the 4 after the iNES header");
    let m = rom(1, 1, "Crc Quest (USA).nes", "");
    assert_eq!(cartridge_state(Some(&m), "Crc Quest (USA).nes"), (Some(1), FileState::Verified));
}

#[test]
fn a_stored_crc_allows_for_a_copier_header_only_at_its_size() {
    let mut states = Vec::new();
    for size in [1536, 1040] {
        let mut row = stored(Some("smc"), Some("b".repeat(40).as_str()), None);
        row.hashes.crc32 = Some("0000000b".into());
        row.size = size;
        let lookups = stored_lookups(&row, 512, true);
        let matched = lookups.iter().any(|l| crc_rom_finds(l, "0000000b", 1024));
        let m = rom(2, 1, "Copier Quest (USA).sfc", "");
        states.push(cartridge_state(matched.then_some(&m), "Copier Quest (USA).sfc").1);
    }
    assert_eq!(states, [FileState::Verified, FileState::Unverified]);
}

#[test]
fn a_disc_track_is_matched_again_under_the_all_or_nothing_rule() {
    let name = |n: u8| format!("Example Disc (USA) (Track {n}).bin");
    let tracks: Vec<DiscTrack> = (1..=2)
        .map(|n| track(&name(n), Some(rom(20 + i64::from(n), 2, &name(n), "good"))))
        .collect();
    let states = classify_disc(&tracks, &vec![(2, 3)]);
    assert_eq!(
        states,
        vec![(Some(21), FileState::Unverified), (Some(22), FileState::Unverified)],
        "two of the live title's three tracks are not a complete game"
    );
}

#[test]
fn a_live_rom_of_the_content_beats_a_retired_rom_of_the_whole_file() {
    let retired = rom(1, 1, "Old (USA).nes", "good");
    let live = rom(2, 2, "New (USA).nes", "good");
    // The whole file finds only the retired rom; the content finds the live one.
    let found = match_forms(&vec![None, Some(live.clone())], &vec![Some(retired.clone()), Some(live.clone())]);
    assert_eq!(found.map(|m| m.rom_id), Some(2));
    assert_eq!(cartridge_state(Some(&live), "New (USA).nes"), (Some(2), FileState::Verified));
    // With the live rom retired too, the whole file's retired rom still matches.
    let found = match_forms(&vec![None, None], &vec![Some(retired.clone()), Some(live)]);
    assert_eq!(found.map(|m| m.rom_id), Some(1), "a retired rom still matches when nothing live does");
    assert!(match_forms(&vec![None], &vec![None]).is_none());
}

#[test]
fn a_container_rematches_only_tracks_numbered_from_one() {
    // Members `#cue`, `#02`, `#01`: tracks 1 and 2 in track order.
    assert_eq!(track_order(&vec![None, Some(2), Some(1)]), Some(vec![2, 1]));
    assert_eq!(track_order(&vec![Some(1), Some(3)]), None, "a gap");
    assert_eq!(track_order(&vec![Some(1), Some(1)]), None, "a repeat");
    assert_eq!(track_order(&vec![None]), None, "no track");
    assert_eq!(track_order(&Vec::new()), None);
}

#[test]
fn zip_directory_entries_are_skipped() {
    assert!(is_directory_entry("sub/"));
    assert!(!is_directory_entry("sub/a.bin"));
    assert!(!is_directory_entry(""));
}

#[test]
fn unhashed_files_and_members_are_recorded_unverified() {
    let row = unverified_row("NES/a.nes".into(), 0, 0, None);
    assert_eq!((row.size, row.state, row.rom_id), (0, FileState::Unverified, None));
    assert!(row.hashes.crc32.is_none() && row.header_rule.is_none());
    let member = unhashed_member_row("NES/s.zip#a.nes".into(), 4, 9, "0a0b0c0d".into(), "ines");
    assert_eq!(member.header_rule.as_deref(), Some("ines"));
    assert_eq!(member.hashes.crc32.as_deref(), Some("0a0b0c0d"));
    let plain = precheck_row("NES/s.zip#b.nes".into(), 4, 9, "11111111".into(), None, false);
    assert_eq!(plain.hashes.crc32.as_deref(), Some("11111111"));
    assert!(plain.whole.crc32.is_none());
    let headed = precheck_row("NES/s.zip#c.nes".into(), 20, 9, "11111111".into(), Some("22222222".into()), true);
    assert_eq!(headed.hashes.crc32.as_deref(), Some("22222222"));
    assert_eq!(headed.whole.crc32.as_deref(), Some("11111111"));
}

#[test]
fn a_resumed_scan_keeps_rows_of_done_units_and_walks_the_rest() {
    let units: Vec<String> = vec!["GBA/a".to_owned(), "GBA/b".to_owned(), "GBA/c".to_owned()];
    let saved: Vec<String> = vec!["GBA/b".to_owned(), "GBA/gone".to_owned()];
    let existing: Vec<String> = vec![
        "GBA/a/x.gba".to_owned(),
        "GBA/b/y.gba".to_owned(),
        "GBA/b/z.zip#z.gba".to_owned(),
        "GBA/gone/w.gba".to_owned(),
    ];
    let r = resume(&units, &saved, &existing);
    assert_eq!(r.done, vec!["GBA/b".to_owned()]);
    assert_eq!(r.keep, vec![1, 2]);
    assert_eq!(r.remaining, vec![0, 2]);
}

#[test]
fn chd_rows_name_each_track_and_the_cue_under_the_chd_rule() {
    let t = |size: u64, c: &str| mistarr_server::jobs::import::support::Hashes {
        size,
        crc32: c.into(),
        md5: format!("{c}-md5"),
        sha1: format!("{c}-sha1"),
    };
    let tracks = vec![t(300, "t1"), t(400, "t2")];
    let states = vec![(Some(11), FileState::Verified), (Some(12), FileState::Verified)];
    let rows = chd_rows("PSX/G/g.chd", 1000, 7, &tracks, &states, &vec![10]);
    let paths: Vec<&str> = rows.iter().map(|r| r.rel_path.as_str()).collect();
    assert_eq!(paths, ["PSX/G/g.chd#01", "PSX/G/g.chd#02", "PSX/G/g.chd#cue"]);
    assert_eq!(rows[0].size, 300);
    assert_eq!(rows[2].size, 1000);
    assert_eq!(rows[2].rom_id, Some(10));
    assert!(rows[2].hashes.sha1.is_none());
    assert_eq!(rows[1].hashes.crc32.as_deref(), Some("t2"));
    assert!(rows.iter().all(|r| r.mtime == 7 && r.header_rule.as_deref() == Some("chd")));
    let many: Vec<_> = (0..11).map(|i| t(1, &format!("x{i}"))).collect();
    let st = vec![(None, FileState::Unverified); 11];
    let rows = chd_rows("c.chd", 5, 1, &many, &st, &vec![1, 2]);
    assert_eq!(rows[10].rel_path, "c.chd#11");
    assert_eq!(rows[12].rel_path, "c.chd#cue2");
    assert_eq!(rows[0].state, FileState::Unverified);
}

#[test]
fn track_numbers_read_chd_member_rows() {
    assert_eq!(track_number("PSX/G/g.chd#02"), Some(2));
    assert_eq!(track_number("PSX/G/g.CHD#11"), Some(11));
    assert_eq!(track_number("PSX/G/g.chd#cue"), None);
    assert_eq!(track_number("PSX/G/g.chd#"), None);
    assert_eq!(track_number("PSX/G/g.bin"), None);
    assert_eq!(track_number("PSX/G/g.zip#01"), None);
    let st = vec![(None, FileState::Unverified); 3];
    let t = |c: &str| mistarr_server::jobs::import::support::Hashes {
        size: 1,
        crc32: c.into(),
        md5: c.into(),
        sha1: c.into(),
    };
    let rows = chd_rows("PSX/G/g.chd", 9, 1, &vec![t("a"), t("b"), t("c")], &st, &vec![4]);
    let numbers: Vec<Option<usize>> = rows.iter().map(|r| track_number(&r.rel_path)).collect();
    assert_eq!(numbers, [Some(1), Some(2), Some(3), None]);
}
