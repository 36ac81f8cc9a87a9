use std::time::Duration;

use mistarr_server::jobs::scan::FileState;
use mistarr_server::jobs::dat_import::{
    match_plan, needs_write, prefs, HiddenFlag, PrefsConfig,
    dat_file, extension, file_name, is_dat_name, rejected, stem, unique_path, zip_members,
    DatFile, DatWatcher, Listed, NOT_A_DAT, NO_DATS_IN_ZIP,
    game_step, stream_end, stream_start, GameStep, StreamEnd, StreamStart, STAGE_CHUNK,
};

fn file(name: &str, len: u64, age: Option<u128>, modified: i128) -> Listed {
    Listed {
        path: format!("/dats/{name}"),
        name: name.into(),
        is_file: true,
        len,
        age_nanos: age,
        modified: Some(modified),
    }
}

fn dir(name: &str) -> Listed {
    Listed {
        is_file: false,
        ..file(name, 0, Some(0), 0)
    }
}

#[test]
fn the_watcher_reports_a_file_at_its_second_poll_once() {
    let listing = vec![file("a.dat", 1, Some(0), 5)];
    let mut w = DatWatcher::new(Duration::ZERO.as_nanos());
    assert!(w.observe(&listing).is_empty());
    assert_eq!(w.observe(&listing), ["/dats/a.dat"]);
    assert!(w.observe(&listing).is_empty());
}

#[test]
fn the_watcher_waits_for_age_and_a_steady_size() {
    let young = vec![
        file("a.dat", 3, Some(10), 1),
        file(".upload.part", 1, Some(10), 1),
        dir("loaded"),
    ];
    let mut aged = DatWatcher::new(Duration::from_secs(3600).as_nanos());
    assert!(aged.observe(&young).is_empty());
    assert!(aged.observe(&young).is_empty(), "too young");

    let mut w = DatWatcher::new(Duration::ZERO.as_nanos());
    assert!(w.observe(&young).is_empty());
    let grown = vec![file("a.dat", 5, Some(10), 2), dir("loaded")];
    assert!(w.observe(&grown).is_empty(), "size changed");
    assert_eq!(w.observe(&grown), ["/dats/a.dat"]);
    assert!(w.observe(&grown).is_empty(), "reported once");
    let replaced = vec![file("a.dat", 8, Some(10), 3)];
    w.observe(&replaced);
    assert_eq!(
        w.observe(&replaced),
        ["/dats/a.dat"],
        "a new file under the same name"
    );
    assert!(w.observe(&Vec::new()).is_empty());
    let back = vec![file("a.dat", 4, Some(10), 4)];
    w.observe(&back);
    assert_eq!(w.observe(&back), ["/dats/a.dat"], "a returning file is new again");
}

#[test]
fn a_same_sized_rewrite_is_reported_again() {
    let mut w = DatWatcher::new(Duration::ZERO.as_nanos());
    let first = vec![file("a.dat", 3, Some(0), 1)];
    w.observe(&first);
    assert_eq!(w.observe(&first), ["/dats/a.dat"]);
    let touched = vec![file("a.dat", 3, Some(0), 2)];
    assert_eq!(w.observe(&touched), ["/dats/a.dat"]);
}

#[test]
fn an_unreadable_time_never_counts_as_old() {
    let mut w = DatWatcher::new(Duration::ZERO.as_nanos());
    let listing = vec![Listed {
        age_nanos: None,
        modified: None,
        ..file("a.dat", 3, None, 0)
    }];
    w.observe(&listing);
    assert!(w.observe(&listing).is_empty());
}

#[test]
fn a_forgotten_file_is_reported_again() {
    let listing = vec![file("a.dat", 1, Some(0), 5)];
    let mut w = DatWatcher::new(Duration::ZERO.as_nanos());
    w.observe(&listing);
    assert_eq!(w.observe(&listing), ["/dats/a.dat"]);
    assert!(w.observe(&listing).is_empty());
    w.forget("/dats/a.dat");
    assert_eq!(w.observe(&listing), ["/dats/a.dat"]);
}

#[test]
fn stable_files_come_out_sorted() {
    let listing = vec![
        file("c.dat", 1, Some(0), 1),
        file("a.dat", 1, Some(0), 1),
        file("b.zip", 1, Some(0), 1),
    ];
    let mut w = DatWatcher::new(Duration::ZERO.as_nanos());
    w.observe(&listing);
    assert_eq!(
        w.observe(&listing),
        ["/dats/a.dat", "/dats/b.zip", "/dats/c.dat"]
    );
}

#[test]
fn free_names_count_up_from_one() {
    let taken = ["/r/a.dat".to_owned(), "/r/a (1).dat".to_owned()];
    let p = unique_path("/r", "a.dat", |c| taken.iter().any(|t| t == c));
    assert_eq!(p, "/r/a (2).dat");
    assert_eq!(unique_path("/r", "b.dat", |_| false), "/r/b.dat");
    assert_eq!(
        unique_path("/r", "pack.tar.gz", |c| c == "/r/pack.tar.gz"),
        "/r/pack.tar (1).gz"
    );
    assert_eq!(unique_path("/r", ".hidden", |c| c == "/r/.hidden"), "/r/.hidden (1)");
    assert_eq!(unique_path("/r/", "x", |c| c == "/r/x"), "/r/x (1)");
}

#[test]
fn names_stems_and_extensions_follow_std_path() {
    assert_eq!(file_name("/d/a.dat"), "a.dat");
    assert_eq!(file_name("/d/a.dat/"), "a.dat");
    assert_eq!(file_name("/d/.."), "");
    assert_eq!(stem("/d/Pack.Name.ZIP"), "Pack.Name");
    assert_eq!(extension("/d/Pack.Name.ZIP"), "zip");
    assert_eq!(extension("/d/.bashrc"), "");
    assert_eq!(stem("/d/.bashrc"), ".bashrc");
    assert_eq!(extension("/d/noext"), "");
}

#[test]
fn members_are_listed_by_extension() {
    assert!(is_dat_name("a.dat"));
    assert!(is_dat_name("sub/b.XML"));
    assert!(!is_dat_name("c.txt"));
    assert!(!is_dat_name("d.dat/"));
    let names = vec![
        Some("a.dat".to_owned()),
        Some("b.XML".to_owned()),
        Some("c.txt".to_owned()),
        None,
    ];
    assert_eq!(zip_members(&names), Ok(vec![0, 1]));
    assert_eq!(
        zip_members(&vec![Some("c.txt".to_owned())]),
        Err(NO_DATS_IN_ZIP.to_owned())
    );
    assert_eq!(dat_file("/d/x.Dat"), Ok(DatFile::Plain));
    assert_eq!(dat_file("/d/x.zip"), Ok(DatFile::Zip));
    assert_eq!(dat_file("/d/x.txt"), Err(NOT_A_DAT.to_owned()));
}

#[test]
fn rejections_name_the_member() {
    assert_eq!(rejected("", "bad xml"), "bad xml");
    assert_eq!(rejected("a.dat", "bad xml"), "a.dat: bad xml");
}

#[test]
fn prefs_map_known_hide_flags() {
    let cfg = PrefsConfig {
        hide: vec!["bios".into(), "unl".into()],
        regions: vec!["Japan".into()],
        ..PrefsConfig::default()
    };
    let p = prefs(&cfg);
    assert_eq!(p.hide, [HiddenFlag::Bios]);
    assert_eq!(p.regions, ["Japan"]);
    let all = PrefsConfig {
        hide: ["bios", "beta", "proto", "demo", "sample", "program"].iter().map(|s| (*s).to_owned()).collect(),
        prefer_latest_revision: true,
        ..PrefsConfig::default()
    };
    let p = prefs(&all);
    assert_eq!(p.hide.len(), 6);
    assert!(p.prefer_latest_revision);
}

#[test]
fn a_recompute_that_changes_nothing_writes_nothing() {
    let unverified = FileState::Unverified;
    assert!(!needs_write(None, unverified, None, unverified));
    assert!(needs_write(None, unverified, Some(3), FileState::Verified));
    assert!(needs_write(Some(3), FileState::Verified, Some(3), FileState::Misnamed));
}

#[test]
fn disc_rows_are_classified_by_directory() {
    let rels = vec![
        "PSX/G/t1.bin".to_owned(),
        "PSX/G/t2.bin".to_owned(),
        "loose.bin".to_owned(),
        "PSX/H/t1.bin".to_owned(),
    ];
    let (own, dirs) = match_plan(true, &rels);
    assert_eq!(own, vec![2]);
    assert_eq!(dirs, ["PSX/G", "PSX/H"]);
    let (own, dirs) = match_plan(false, &rels);
    assert_eq!(own, vec![0, 1, 2, 3]);
    assert!(dirs.is_empty());
}

#[test]
fn a_dat_stream_skips_refuses_or_reads_by_its_bind() {
    let bind = Some(("Nintendo - NES", "2024"));
    assert_eq!(stream_start(bind, "", "Nintendo - SNES", "2024", true, true), StreamStart::Skip);
    assert_eq!(stream_start(bind, "", "Nintendo - NES", "2023", true, true), StreamStart::Skip);
    assert_eq!(
        stream_start(bind, "a.dat", "Nintendo - NES", "2024", true, false),
        StreamStart::Reject("a.dat: a newer version of Nintendo - NES is loaded; bind that version instead".into())
    );
    assert_eq!(stream_start(bind, "", "Nintendo - NES", "2024", true, true), StreamStart::Stream { staging: true });
    assert_eq!(stream_start(None, "", "Nintendo - NES", "2024", true, false), StreamStart::Stream { staging: false });
    assert_eq!(stream_start(None, "", "Nintendo - NES", "2024", false, true), StreamStart::Stream { staging: false });
}

#[test]
fn each_game_is_counted_staged_in_chunks_or_breaks_the_stream() {
    assert_eq!(game_step("", false, 0, Ok(true)), GameStep::Count);
    assert_eq!(game_step("", true, 0, Ok(true)), GameStep::Stage { clone_of: true, flush: false });
    assert_eq!(game_step("", true, STAGE_CHUNK - 1, Ok(false)), GameStep::Stage { clone_of: false, flush: true });
    assert_eq!(game_step("m.dat", true, 5, Err("bad xml".into())), GameStep::Reject("m.dat: bad xml".into()));
    assert_eq!(game_step("", true, 5, Err("bad xml".into())), GameStep::Reject("bad xml".into()));
    assert_eq!(stream_end(true, "", "N", false, true, true), StreamEnd::Reject("a newer version of N is loaded; bind that version instead".into()));
    assert_eq!(stream_end(false, "", "N", false, true, true), StreamEnd::Load { titles: false });
    assert_eq!(stream_end(false, "", "N", true, true, true), StreamEnd::Load { titles: true });
    assert_eq!(stream_end(true, "", "N", true, false, true), StreamEnd::Load { titles: false });
}

#[test]
fn an_unchanged_file_is_reported_once_over_many_polls() {
    let mut w = DatWatcher::new(Duration::ZERO.as_nanos());
    let a = file("a.dat", 1, Some(0), 5);
    assert!(w.observe(&vec![a.clone()]).is_empty());
    assert_eq!(w.observe(&vec![a.clone()]), ["/dats/a.dat"]);
    for k in 0..5 {
        let mut listing = vec![a.clone()];
        listing.push(file(&format!("b{k}.dat"), 2, Some(0), 6));
        assert!(!w.observe(&listing).contains(&"/dats/a.dat".to_owned()));
    }
    // Rewritten with the same length: steady already, and a new modification time.
    let changed = file("a.dat", 1, Some(0), 9);
    assert_eq!(w.observe(&vec![changed.clone()]), ["/dats/a.dat"]);
    assert!(w.observe(&vec![changed]).is_empty());
}
