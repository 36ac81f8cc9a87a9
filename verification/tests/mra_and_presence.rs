use mistarr_server::jobs::arcade::{
    check_stamp, descends, entry_name, is_mra_name, joined_stamp, mra_order, presence_flips, recheck_step,
    CheckStep, Claims, FoundMra, StoredZip, mra_step, MraStep,
};
use mistarr_server::jobs::arcade::presence::{
    decide as presence_decide, fate, reconcile, record, unlisted_rows, zip_names, Changes, Fate, Member,
    Recheck, Zip, ZipRow,
};
use mistarr_server::jobs::import::mra::{
    decide, examine, joined, read_by_matches, set_name, verdict, waiting_reason, Action, DatEntry, Note, Outcome,
    Piece, Verdict, WhyDetail,
};
use mistarr_server::jobs::import::support::{EntryRom, Hashed, Hashes};
use mistarr_server::jobs::import::BIOS_REFUSED;
use mistarr_server::jobs::scan::FileState;

#[test]
fn set_names_drop_the_zip_extension() {
    assert_eq!(set_name("exblast.zip"), "exblast");
    assert_eq!(set_name("ExBlast.ZIP"), "ExBlast");
    assert_eq!(set_name("exblast"), "exblast");
}

#[test]
fn short_and_unicode_names_keep_their_ends() {
    assert_eq!(set_name("zip"), "zip");
    assert_eq!(set_name(".zip"), "");
    assert_eq!(set_name("jeu\u{e9}.zip"), "jeu\u{e9}");
}

fn open(why: &str) -> Outcome {
    Outcome::Open(why.to_owned())
}

#[test]
fn an_index_keeps_its_best_outcome_and_the_worst_index_decides() {
    let read = vec![("/st/a.zip".to_owned(), "cpu.bin".to_owned())];
    let all_match = vec![(0, open("waits")), (0, Outcome::Match), (1, Outcome::Match)];
    assert_eq!(verdict(&all_match, read.clone()), Verdict::Match(read.clone()));
    let mixed = vec![
        (0, Outcome::Mismatch("rom 0".to_owned())),
        (1, open("b")),
        (1, open("a")),
    ];
    assert_eq!(verdict(&mixed, Vec::new()), Verdict::Mismatch("rom 0".to_owned()));
    let opens = vec![(0, open("b")), (1, open("a"))];
    assert_eq!(verdict(&opens, Vec::new()), Verdict::Open("b".to_owned()));
    assert_eq!(verdict(&Vec::new(), Vec::new()), Verdict::Match(Vec::new()));
}

#[test]
fn the_verdict_looks_at_missing_parts_and_md5s_first() {
    let outcomes = vec![(0, Outcome::Match)];
    assert_eq!(
        examine(vec!["gfx.bin".to_owned()], &vec![(0, true)], &outcomes, Vec::new()),
        Verdict::Missing(vec!["gfx.bin".to_owned()])
    );
    assert_eq!(examine(Vec::new(), &Vec::new(), &outcomes, Vec::new()), Verdict::NoMd5);
    assert_eq!(
        examine(Vec::new(), &vec![(0, true), (1, false)], &outcomes, Vec::new()),
        Verdict::NoMd5
    );
    assert_eq!(
        examine(Vec::new(), &vec![(0, true), (0, false)], &outcomes, Vec::new()),
        Verdict::Match(Vec::new())
    );
}

#[test]
fn an_open_check_names_the_zips_it_waits_for_once() {
    let waiting = vec!["mame/a.zip".to_owned(), "mame/b.zip".to_owned(), "mame/a.zip".to_owned()];
    assert_eq!(
        waiting_reason("rom 0: part", &waiting),
        "the md5 check waits for mame/a.zip, mame/b.zip"
    );
    assert_eq!(waiting_reason("rom 0: part", &Vec::new()), "rom 0: part");
    assert_eq!(joined(&vec!["x".to_owned()]), "x");
}

fn hashes(size: u64, crc32: &str) -> Hashes {
    Hashes {
        size,
        crc32: crc32.into(),
        md5: String::new(),
        sha1: String::new(),
    }
}

fn member(name: &str, h: Hashes) -> Hashed {
    Hashed::plain(Some(name.into()), h)
}

fn rom(id: i64, name: &str, h: &Hashes) -> EntryRom {
    EntryRom {
        id,
        name: name.into(),
        size: h.size,
        crc32: Some(h.crc32.clone()),
        md5: None,
        sha1: None,
        status: "good".into(),
        header: None,
    }
}

#[test]
fn a_matched_zip_verifies_the_members_read() {
    let members = vec![member("cpu.bin", hashes(4, "1")), member("gfx.bin", hashes(2, "2"))];
    let read = vec![
        ("/st/exblast.zip".to_owned(), "cpu.bin".to_owned()),
        ("/games/mame/parent.zip".to_owned(), "gfx.bin".to_owned()),
    ];
    let a = decide(Verdict::Match(read.clone()), None, &members, "/st/exblast.zip");
    assert_eq!(
        a,
        Action::Place {
            pieces: vec![
                Piece { member: 0, state: Some(FileState::Verified), rom: None },
                Piece { member: 1, state: Some(FileState::Unverified), rom: None },
            ],
            note: Note::MraMd5,
            read,
        }
    );
}

#[test]
fn refusals_and_mismatches_say_why() {
    let members = vec![member("cpu.bin", hashes(4, "1"))];
    assert_eq!(
        decide(Verdict::Refused("empty group".into()), None, &members, "/st/a.zip"),
        Action::Fail("cannot check this zip against the MRA: empty group".into())
    );
    match decide(Verdict::Missing(vec!["a.bin".into(), "b.bin".into()]), None, &members, "/st/a.zip") {
        Action::Quarantine(w) => {
            assert_eq!(w.reason, "the zip lacks members the MRA names (a.bin, b.bin); it was quarantined");
            assert_eq!(w.report, "This zip lacks members the MRA names and was not placed.\nMissing: a.bin, b.bin");
            assert_eq!(w.detail, WhyDetail::Missing(vec!["a.bin".into(), "b.bin".into()]));
        }
        other => panic!("{other:?}"),
    }
    match decide(Verdict::Mismatch("rom 0 does not match".into()), None, &members, "/st/a.zip") {
        Action::Quarantine(w) => {
            assert!(w.reason.starts_with("the zip does not match the MRA's md5 (rom 0"));
            assert!(w.report.ends_with("not placed.\nrom 0 does not match"));
        }
        other => panic!("{other:?}"),
    }
}

#[test]
fn without_an_md5_the_dat_entry_decides() {
    let (a, b) = (hashes(1, "aa"), hashes(2, "bb"));
    let members = vec![member("b.bin", b.clone()), member("a.bin", a.clone())];
    let entry = DatEntry {
        name: "exblast".into(),
        bios: false,
        roms: vec![rom(1, "a.bin", &a), rom(2, "b.bin", &b)],
    };
    assert_eq!(
        decide(Verdict::NoMd5, Some(&entry), &members, "/st/x.zip"),
        Action::Place {
            pieces: vec![
                Piece { member: 0, state: None, rom: Some(1) },
                Piece { member: 1, state: None, rom: Some(0) },
            ],
            note: Note::Dat("exblast".into()),
            read: Vec::new(),
        }
    );
    let odd = vec![member("a.bin", a.clone()), member("c.bin", hashes(3, "cc"))];
    match decide(Verdict::NoMd5, Some(&entry), &odd, "/st/x.zip") {
        Action::Quarantine(w) => {
            assert_eq!(w.reason, "the zip does not match the DAT entry exblast; it was quarantined");
            assert_eq!(
                w.report,
                "This zip does not match the DAT entry exblast and was not placed.\nMembers not in the entry: c.bin\nRoms not in the zip: b.bin"
            );
        }
        other => panic!("{other:?}"),
    }
    let bios = DatEntry { bios: true, ..entry };
    assert_eq!(
        decide(Verdict::NoMd5, Some(&bios), &members, "/st/x.zip"),
        Action::Fail(BIOS_REFUSED.into())
    );
    assert_eq!(
        decide(Verdict::NoMd5, None, &members, "/st/x.zip"),
        Action::Place {
            pieces: vec![
                Piece { member: 0, state: Some(FileState::Unverified), rom: None },
                Piece { member: 1, state: Some(FileState::Unverified), rom: None },
            ],
            note: Note::NoHashSource,
            read: Vec::new(),
        }
    );
}

#[test]
fn entry_names_are_trimmed_and_collapsed() {
    assert_eq!(
        entry_name(Some("\n  Example\t\tQuest  (World)\n"), "Example Quest.mra"),
        Some("Example Quest (World)".to_owned())
    );
    assert_eq!(entry_name(Some("  \n\t "), "Example Quest.mra"), Some("Example Quest".to_owned()));
    assert_eq!(entry_name(None, "sub/Example  Quest.mra"), Some("Example Quest".to_owned()));
    assert_eq!(entry_name(None, ""), None);
}

fn zip(mtime: i64) -> Zip {
    Zip { rel: "mame/exblast.zip".into(), size: 10, mtime }
}

fn row(id: i64, rel: &str, size: i64, mtime: i64, rom: Option<i64>, crc: Option<&str>) -> ZipRow {
    ZipRow {
        id,
        rel_path: rel.into(),
        size,
        mtime,
        rom_id: rom,
        crc32: crc.map(str::to_owned),
    }
}

#[test]
fn presence_rows_follow_the_live_mras() {
    let mut out = Changes::new();
    record(&zip(5), Some(7), None, &mut out);
    assert_eq!(out.record, [(zip(5), 7)]);
    let bare = row(1, "mame/exblast.zip", 10, 5, Some(7), None);
    let mut same = Changes::new();
    record(&zip(5), Some(7), Some(&bare), &mut same);
    assert!(same.record.is_empty() && same.drop.is_empty());
    let mut gone = Changes::new();
    record(&zip(5), None, Some(&bare), &mut gone);
    assert_eq!(gone.drop, ["mame/exblast.zip"]);
}

#[test]
fn member_rows_stand_for_their_zip() {
    let bare = row(1, "mame/exblast.zip", 10, 5, Some(7), None);
    let members = vec![row(2, "mame/exblast.zip#cpu.bin", 4, 5, Some(8), Some("ABCD"))];
    let mut out = Changes::new();
    assert!(presence_decide(&zip(5), Some(7), Some(bare.clone()), members.clone(), &mut out).is_none());
    assert_eq!(out.drop, ["mame/exblast.zip"]);
    let mut moved = Changes::new();
    let rc = presence_decide(&zip(6), Some(7), None, members, &mut moved).expect("recheck");
    assert_eq!(rc.zip, zip(6));
    let listed = vec![
        Member { name: "cpu.bin".into(), size: 4, crc32: "abcd".into() },
    ];
    let mut out = Changes::new();
    reconcile(rc, &listed, &mut out);
    assert_eq!(out.restamp, [(2, 6)]);
    assert!(out.drop.is_empty() && out.reverify.is_empty() && out.record.is_empty());
}

#[test]
fn changed_and_gone_members_are_told_apart() {
    let r = row(3, "mame/exblast.zip#gfx.bin", 2, 5, None, Some("0001"));
    let listed = vec![
        Member { name: "gfx.bin".into(), size: 3, crc32: "0002".into() },
        Member { name: "gfx.bin".into(), size: 2, crc32: "0001".into() },
    ];
    assert_eq!(fate(&r, &listed), Fate::Restamp, "the last of equal names counts");
    assert_eq!(fate(&r, &listed[..1].to_vec()), Fate::Reverify(3, "0002".into()));
    assert_eq!(fate(&r, &Vec::new()), Fate::Drop);
    let rc = Recheck { zip: zip(9), rom: Some(7), members: vec![r] };
    let mut out = Changes::new();
    reconcile(rc, &Vec::new(), &mut out);
    assert_eq!(out.drop, ["mame/exblast.zip#gfx.bin"]);
    assert_eq!(out.record, [(zip(9), 7)], "a zip with no member left gets its presence row");
}

#[test]
fn verdicts_follow_md5_members_and_siblings() {
    let staged = "/dl/staged.zip".to_owned();
    let fed = vec![(0, true)];
    let waits = waiting_reason("rom 0: part b.bin", &vec!["mame/exparent.zip".to_owned()]);
    assert_eq!(waits, "the md5 check waits for mame/exparent.zip");
    assert_eq!(
        examine(Vec::new(), &fed, &vec![(0, Outcome::Open(waits.clone()))], Vec::new()),
        Verdict::Open("the md5 check waits for mame/exparent.zip".into())
    );
    let both = vec![
        (staged.clone(), "a.bin".to_owned()),
        ("/games/mame/exparent.zip".to_owned(), "b.bin".to_owned()),
    ];
    let read = read_by_matches(&vec![(Outcome::Match, both.clone())]);
    let Verdict::Match(read) = examine(Vec::new(), &fed, &vec![(0, Outcome::Match)], read) else {
        panic!("no match");
    };
    assert!(read.contains(&(staged.clone(), "a.bin".into())));
    assert!(read.iter().any(|(p, n)| p.ends_with("mame/exparent.zip") && n == "b.bin"));
    assert!(matches!(
        examine(Vec::new(), &fed, &vec![(0, Outcome::Mismatch("rom 0: md5 differs".into()))], Vec::new()),
        Verdict::Mismatch(_)
    ));
    assert_eq!(
        examine(vec!["gone.bin".into()], &vec![(0, false)], &Vec::new(), Vec::new()),
        Verdict::Missing(vec!["gone.bin".into()])
    );
    assert_eq!(examine(Vec::new(), &vec![(0, false)], &Vec::new(), Vec::new()), Verdict::NoMd5);
    assert!(matches!(
        examine(Vec::new(), &fed, &vec![(0, Outcome::Refused("group is not supported".into()))], Vec::new()),
        Verdict::Refused(r) if r.contains("not supported")
    ));
}

#[test]
fn only_members_read_by_a_matching_alternative_count_as_read() {
    let staged = "/dl/staged.zip".to_owned();
    let checks = vec![
        (Outcome::Mismatch("rom 0".into()), vec![(staged.clone(), "x.bin".to_owned())]),
        (Outcome::Match, vec![(staged.clone(), "a.bin".to_owned())]),
    ];
    let read = read_by_matches(&checks);
    let outcomes = vec![(0, checks[0].0.clone()), (0, Outcome::Match)];
    let verdict = examine(Vec::new(), &vec![(0, true), (0, true)], &outcomes, read);
    assert_eq!(verdict, Verdict::Match(vec![(staged, "a.bin".into())]));
}

#[test]
fn entries_take_the_file_stem_when_the_mra_has_no_name() {
    assert_eq!(entry_name(None, "Example Quest.mra"), Some("Example Quest".to_owned()));
    assert_eq!(entry_name(Some(""), "Example Quest.mra"), Some("Example Quest".to_owned()));
}

#[test]
fn the_check_stamp_ignores_zip_order() {
    let place = |file: &str, stamp: Option<&str>| (format!("mame/{file}"), stamp.map(str::to_owned));
    let one = vec![place("a.zip", Some("1:10")), place("b.zip", Some("1:20"))];
    let other = vec![place("b.zip", Some("1:20")), place("a.zip", Some("1:10"))];
    assert_eq!(joined_stamp("s", &one), joined_stamp("s", &other));
    assert_eq!(joined_stamp("s", &one), Some("s;mame/a.zip:1:10;mame/b.zip:1:20".to_owned()));
    assert_eq!(joined_stamp("s", &vec![place("c.zip", None)]), None);
    assert_eq!(joined_stamp("s", &Vec::new()), None);
    assert_eq!(check_stamp("s", false, &one), None);
    assert_eq!(check_stamp("s", true, &one), joined_stamp("s", &one));
    let missing = vec![place("a.zip", Some("1:10")), place("exparent.zip", None)];
    assert_eq!(check_stamp("1:1", true, &missing), None);
    let stamp = check_stamp("1:1", true, &missing[..1].to_vec()).expect("stamp");
    assert!(stamp.starts_with("1:1;mame/a.zip:"), "{stamp}");
}

#[test]
fn the_shallowest_mra_keeps_a_name_in_any_case() {
    let mut claims = Claims::new();
    assert!(claims.claim("Example Blaster"));
    assert!(!claims.claim("EXAMPLE blaster"), "a deeper MRA with the same name is skipped");
    assert!(claims.claim("Other Game"));
    assert!(claims.claim("\u{c9}clair"));
    assert!(!claims.claim("\u{e9}CLAIR"), "case folds beyond ASCII");
}

#[test]
fn a_kept_title_runs_its_check_only_when_its_inputs_moved() {
    assert_eq!(recheck_step(Some("s;a"), Some("s;a".into())), CheckStep::Keep);
    assert_eq!(recheck_step(Some("s;a"), Some("s;b".into())), CheckStep::Run { stamp: "s;b".into() });
    assert_eq!(recheck_step(None, Some("s;b".into())), CheckStep::Run { stamp: "s;b".into() });
    assert_eq!(recheck_step(Some("s;a"), None), CheckStep::Clear);
    assert_eq!(recheck_step(None, None), CheckStep::Keep);
    let zips = vec![
        StoredZip { name: "a.zip".into(), dir: "mame".into(), present: true },
        StoredZip { name: "b.zip".into(), dir: "mame".into(), present: false },
        StoredZip { name: "c.zip".into(), dir: "hbmame".into(), present: true },
    ];
    assert_eq!(
        presence_flips(&zips, &vec![true, true, false]),
        vec![("b.zip".to_owned(), "mame".to_owned(), true), ("c.zip".to_owned(), "hbmame".to_owned(), false)]
    );
}

#[test]
fn only_zips_are_listed_in_bytewise_order() {
    let entries = vec!["b.zip".to_owned(), "A.ZIP".to_owned(), "notes.txt".to_owned(), ".zip".to_owned(), "c.Zip".to_owned()];
    assert_eq!(zip_names(&entries), ["A.ZIP", "b.zip", "c.Zip"]);
}

#[test]
fn rows_of_unlisted_zips_are_pruning_candidates() {
    let names = vec!["a.zip".to_owned(), "b.zip".to_owned()];
    let page = vec![
        "mame/a.zip".to_owned(),
        "mame/a.zip#cpu.bin".to_owned(),
        "mame/gone.zip".to_owned(),
        "mame/sub/b.zip".to_owned(),
        "mame/b.zip#x#y".to_owned(),
    ];
    assert_eq!(unlisted_rows("mame", &names, &page), vec![2, 3]);
    assert!(unlisted_rows("mame", &names, &Vec::new()).is_empty());
}

fn found(rel: &str, ino: u64) -> FoundMra {
    FoundMra { rel: rel.to_owned(), dev: 1, ino }
}

#[test]
fn mras_are_listed_shallowest_first_without_following_depth_limits() {
    let names = [
        "Example Blaster.mra",
        "Example Blaster (set 2).mra",
        "Abc.MRA",
        "excore_20240101.rbf",
        "notes.txt",
    ];
    let mras: Vec<&str> = names.iter().copied().filter(|n| is_mra_name(n)).collect();
    assert_eq!(mras, ["Example Blaster.mra", "Example Blaster (set 2).mra", "Abc.MRA"]);
    assert!(descends("_alternatives", 0));
    assert!(descends("d", 3));
    assert!(!descends("e", 4), "a/b/c/d/e is too deep");
    let walk = vec![
        found("Example Blaster.mra", 1),
        found("_alternatives/_Example Blaster/Example Blaster (set 2).mra", 2),
        found("Abc.MRA", 3),
    ];
    let listed: Vec<&str> = mra_order(&walk).into_iter().map(|i| walk[i].rel.as_str()).collect();
    assert_eq!(
        listed,
        ["Abc.MRA", "Example Blaster.mra", "_alternatives/_Example Blaster/Example Blaster (set 2).mra"]
    );
    assert!(mra_order(&Vec::new()).is_empty());
}

#[test]
fn linked_files_are_listed_once_and_the_organizer_tree_never() {
    assert!(!descends("_ORGANIZED", 0));
    assert!(!descends("_organized", 2));
    assert!(descends("_Links", 0));
    let walk = vec![
        found("Example Blaster.mra", 7),
        found("Example Blaster copy.mra", 7),
        found("_Links/eb.mra", 7),
        found("_Links/eq.mra", 8),
    ];
    let listed: Vec<&str> = mra_order(&walk).into_iter().map(|i| walk[i].rel.as_str()).collect();
    assert_eq!(listed, ["Example Blaster copy.mra", "_Links/eq.mra"]);
}

#[test]
fn a_missing_zip_gives_no_stamp_in_any_order() {
    let one = vec![("mame/a.zip".to_owned(), Some("1:10".to_owned())), ("mame/b.zip".to_owned(), None)];
    let other = vec![("mame/b.zip".to_owned(), None), ("mame/a.zip".to_owned(), Some("1:10".to_owned()))];
    assert_eq!(joined_stamp("s", &one), None);
    assert_eq!(joined_stamp("s", &other), None);
    assert_eq!(joined_stamp("s", &vec![]), None);
}

#[test]
fn a_second_run_over_unchanged_inputs_keeps_the_check() {
    let now = Some("s;mame/a.zip:1:10".to_owned());
    let first = recheck_step(Some("old"), now.clone());
    let stored = match first {
        CheckStep::Run { stamp } => Some(stamp),
        other => panic!("expected a run, got {other:?}"),
    };
    assert_eq!(recheck_step(stored.as_deref(), now), CheckStep::Keep);
    assert_eq!(recheck_step(None, None), CheckStep::Keep);
}

#[test]
fn an_unchanged_mra_is_kept_without_parsing() {
    assert_eq!(mra_step(None, "100:7"), MraStep::Parse);
    assert_eq!(mra_step(Some("99:7"), "100:7"), MraStep::Parse);
    assert_eq!(mra_step(Some("100:7"), "100:7"), MraStep::Keep);
}
