use mistarr_server::jobs::scan::{header_rule, HeaderRule};
use mistarr_server::jobs::import::{
    disc_end, disc_track, romset_step, DiscEnd, RomsetStep, TrackStep, ROMSET_NOT_A_ZIP, TRACKS_APART, TRACK_NOT_VERIFIED,
};
use mistarr_server::jobs::import::report::{decimal_text, explain, quarantine_reason, report};
use mistarr_server::jobs::import::support::{
    dat_rom, first_match, is_zip, leaf, track_match, match_members, parse_header, pick_rom, rom_matches, EntryRom, Hashed, Hashes,
};

fn hashes(size: u64, crc32: &str, md5: &str, sha1: &str) -> Hashes {
    Hashes {
        size,
        crc32: crc32.into(),
        md5: md5.into(),
        sha1: sha1.into(),
    }
}

/// The hashes of the bytes `abc`.
fn abc() -> Hashes {
    hashes(
        3,
        "352441c2",
        "900150983cd24fb0d6963f7d28e17f72",
        "a9993e364706816aba3e25717850c26c9cd0d89d",
    )
}

/// The hashes of the bytes `abd`.
fn abd() -> Hashes {
    hashes(
        3,
        "ab40d461",
        "4911e516e5aa21d327512e0c8b197616",
        "cb4cc28df0fdbe0ecf9d9662e294b118092a5735",
    )
}

/// The hashes of the bytes `xyz`.
fn xyz() -> Hashes {
    hashes(
        3,
        "eb8eba67",
        "d16fb36f0911f878998c136191af705e",
        "66b27417d37e024c46526c2f6d358a754fc552f3",
    )
}

fn rom(id: i64, name: &str, h: &Hashes) -> EntryRom {
    EntryRom {
        id,
        name: name.into(),
        size: h.size,
        crc32: Some(h.crc32.clone()),
        md5: Some(h.md5.clone()),
        sha1: Some(h.sha1.clone()),
        status: "good".into(),
        header: None,
    }
}

#[test]
fn headers_parse_from_spaced_hex() {
    assert_eq!(parse_header("4e45531a"), Some(b"NES\x1a".to_vec()));
    assert_eq!(parse_header("4e4"), None);
    assert_eq!(parse_header(""), None);
    assert_eq!(parse_header("zz"), None);
}

#[test]
fn spaced_and_uppercase_headers_parse() {
    assert_eq!(parse_header("4E 45 53 1a"), Some(b"NES\x1a".to_vec()));
    assert_eq!(parse_header(" 4 e "), Some(vec![0x4e]));
    assert_eq!(parse_header("no header"), None);
    assert_eq!(parse_header("+f"), None);
    assert_eq!(parse_header("+0f"), None);
    assert_eq!(parse_header("f+"), None);
}

#[test]
fn roms_match_in_order_and_identical_ones_are_told_apart() {
    let h = abc();
    let a = rom(1, "Disc (Track 1).bin", &h);
    let b = rom(2, "Disc (Track 2).bin", &h);
    let roms = [a.clone(), b.clone()];
    let p = Hashed::plain(None, h.clone());
    assert_eq!(pick_rom(&roms, &p, None, None, &[]).map(|r| r.id), Some(1));
    assert_eq!(
        pick_rom(&roms, &p, Some(2), None, &[]).map(|r| r.id),
        Some(2)
    );
    assert_eq!(
        pick_rom(&roms, &p, None, Some("x/disc (track 2).bin"), &[]).map(|r| r.id),
        Some(2)
    );
    assert_eq!(
        pick_rom(&roms, &p, Some(1), None, &[1]).map(|r| r.id),
        Some(2)
    );
    assert!(pick_rom(&roms, &p, None, None, &[1, 2]).is_none());
    let crc_only = EntryRom {
        sha1: None,
        md5: None,
        ..a.clone()
    };
    assert!(rom_matches(&crc_only, &h));
    let wrong_size = EntryRom {
        size: 4,
        ..crc_only
    };
    assert!(!rom_matches(&wrong_size, &h));
    let md5_only = EntryRom { sha1: None, ..b };
    assert!(rom_matches(&md5_only, &h));
    let other = abd();
    assert!(!rom_matches(&a, &other));
}

#[test]
fn members_pair_with_distinct_roms_and_leftovers_are_named() {
    let h = abc();
    let other = xyz();
    let roms = [rom(1, "a.bin", &h), rom(2, "b.bin", &h)];
    let member = |name: &str, hashes: &Hashes| Hashed::plain(Some(name.into()), hashes.clone());
    let both = [member("b.bin", &h), member("a.bin", &h)];
    let set = match_members(&roms, &both);
    assert!(set.is_exact());
    assert_eq!(
        set.pairs.iter().map(|(_, r)| r.id).collect::<Vec<_>>(),
        [2, 1]
    );
    let odd = [member("a.bin", &h), member("c.bin", &other)];
    let set = match_members(&roms, &odd);
    assert!(!set.is_exact());
    assert_eq!(set.extra, ["c.bin"]);
    assert_eq!(set.absent, ["b.bin"]);
    let text = explain("This zip lacks members.", &odd);
    assert!(text.starts_with("This zip lacks members.\n\nActual a.bin: 3 bytes\n"));
    assert!(text.contains(&other.sha1));
}

#[test]
fn leaves_are_the_last_component() {
    assert_eq!(leaf("a/b.bin"), "b.bin");
    assert_eq!(leaf("a\\b.bin"), "b.bin");
    assert_eq!(leaf("b.bin"), "b.bin");
    assert_eq!(leaf("dir/"), "");
}

#[test]
fn a_rehash_replaces_the_forms_or_marks_the_whole_unread() {
    let mut staged = Hashed::plain(None, abc());
    staged.take_rehash(None);
    assert!(staged.whole_unread);
    assert!(staged.whole.is_none());
    let again = Hashed {
        whole: Some(abd()),
        ..Hashed::plain(None, xyz())
    };
    staged.take_rehash(Some(again));
    assert!(!staged.whole_unread);
    assert_eq!(staged.hashes.sha1, xyz().sha1);
    assert_eq!(staged.whole.map(|w| w.sha1), Some(abd().sha1));
}

#[test]
fn report_names_expected_actual_and_other() {
    let h = abc();
    let expected = EntryRom {
        md5: None,
        sha1: None,
        crc32: Some("00000000".into()),
        ..rom(1, "Example Quest (USA).nes", &h)
    };
    let actual = [Hashed::plain(None, h.clone())];
    let text = report(Some(&expected), &actual, None, "ines");
    assert!(text.contains("Expected: Example Quest (USA).nes (3 bytes)"));
    assert!(text.contains(&h.sha1));
    assert!(text.contains("md5 -"));
    assert!(text.ends_with("Header rule: ines\n"));
    let member = [Hashed { member: Some("a.bin".into()), ..actual[0].clone() }];
    let other = report(None, &member, Some("Other Quest (USA)"), "none");
    assert!(other.contains("Actual a.bin: 3 bytes"));
    assert!(other.contains("Matches instead: Other Quest (USA)"));
    assert!(other.starts_with("This file is not the wanted entry"));
    assert!(report(None, &actual, None, "none").contains("Expected: unknown rom\nActual: 3 bytes\n"));
}

#[test]
fn a_report_lists_the_whole_payload_of_a_headered_file() {
    let mut headered = Hashed::plain(None, abc());
    headered.whole = Some(hashes(30, "11111111", "2".repeat(32).as_str(), "3".repeat(40).as_str()));
    let text = explain("Why.", std::slice::from_ref(&headered));
    assert!(text.contains("with its header, 30 bytes: crc32 11111111"));
    assert!(text.starts_with("Why.\n\nActual : 3 bytes\n"));
}

#[test]
fn quarantined_downloads_say_what_the_file_is() {
    assert_eq!(
        quarantine_reason(None, Some(("Other Quest (USA)", "o.nes"))),
        "the file is Other Quest (USA) (o.nes), not the wanted entry; it was quarantined"
    );
    assert_eq!(quarantine_reason(None, None), "the file matches no DAT entry and was quarantined");
    assert_eq!(quarantine_reason(Some("why"), None), "why");
    assert_eq!(decimal_text(0), "0");
    assert_eq!(decimal_text(18_446_744_073_709_551_615), "18446744073709551615");
}

#[test]
fn helpers_name_paths_and_rules() {
    assert!(is_zip("a.ZIP"));
    assert!(!is_zip("a.nes"));
    assert!(!is_zip(".zip"));
    assert_eq!(leaf("a/b.bin"), "b.bin");
    let dat = dat_rom(&EntryRom { header: Some("4E 45".into()), ..rom(1, "a.nes", &abc()) });
    assert_eq!(dat.header, Some(vec![0x4e, 0x45]));
    assert_eq!((dat.name.as_str(), dat.size), ("a.nes", 3));
    assert_eq!(dat_rom(&rom(1, "a.nes", &abc())).header, None);
    assert_eq!(header_rule("n64"), HeaderRule::N64);
    assert_eq!(header_rule("none"), HeaderRule::NoRule);
}

#[test]
fn a_cartridge_download_places_the_first_payload_that_is_a_rom() {
    let roms = [rom(1, "a.nes", &abc()), rom(2, "b.nes", &abd())];
    let readme = Hashed::plain(Some("readme.txt".into()), xyz());
    let b = Hashed::plain(Some("b.nes".into()), abd());
    assert_eq!(first_match(&roms, &[readme.clone(), b], 2), Some((1, 1)));
    assert_eq!(first_match(&roms, &[readme], 1), None);
    assert_eq!(first_match(&roms, &[Hashed::plain(None, abc())], 1), Some((0, 0)));
}

#[test]
fn identical_disc_tracks_take_distinct_roms_in_turn() {
    let roms = [rom(1, "Disc (Track 1).bin", &abc()), rom(2, "Disc (Track 2).bin", &abc())];
    let track = [Hashed::plain(None, abc())];
    assert_eq!(track_match(&roms, &track, 2, "Disc (Track 2).bin", &[]), Some(1));
    assert_eq!(track_match(&roms, &track, 1, "x.bin", &[1]), Some(1));
    assert_eq!(track_match(&roms, &track, 1, "x.bin", &[1, 2]), None);
    let zipped = [Hashed::plain(Some("t.bin".into()), abc())];
    assert_eq!(track_match(&roms, &zipped, 1, "t.zip", &[]), None, "a track is a plain file");
    assert_eq!(track_match(&roms, &[], 1, "t.bin", &[]), None);
}

#[test]
fn each_disc_track_is_placed_before_a_piece_or_quarantined() {
    let h = abc();
    let roms = vec![rom(1, "Disc (Track 1).bin", &h), rom(2, "Disc (Track 2).bin", &h), rom(3, "Disc (Track 3).bin", &xyz())];
    let plain = vec![Hashed::plain(None, h.clone())];
    assert_eq!(disc_track(&roms, &vec![], 2, "Disc (Track 2).bin", true, &plain), TrackStep::PlacedBefore);
    assert_eq!(disc_track(&roms, &vec![], 2, "t.bin", false, &plain), TrackStep::Piece(1));
    assert_eq!(disc_track(&roms, &vec![2], 2, "disc (track 1).bin", false, &plain), TrackStep::Piece(0));
    assert_eq!(disc_track(&roms, &vec![1, 2], 2, "t.bin", false, &plain), TrackStep::Quarantine);
    let other = vec![Hashed::plain(None, abd())];
    assert_eq!(disc_track(&roms, &vec![], 1, "t.bin", false, &other), TrackStep::Quarantine);
    let zipped = vec![Hashed::plain(Some("t.bin".into()), h.clone())];
    assert_eq!(disc_track(&roms, &vec![], 1, "t.bin", false, &zipped), TrackStep::Quarantine);
    assert_eq!(disc_track(&roms, &vec![], 1, "t.bin", false, &vec![]), TrackStep::Quarantine);
    assert!(TRACK_NOT_VERIFIED.starts_with("a track of this entry did not verify"));
}

#[test]
fn a_disc_ends_done_placed_or_failed_apart() {
    assert_eq!(disc_end(0, false), DiscEnd::Done);
    assert_eq!(disc_end(2, true), DiscEnd::Place);
    assert_eq!(disc_end(2, false), DiscEnd::Fail);
    assert_eq!(TRACKS_APART, "the tracks are in different staging directories");
}

#[test]
fn a_romset_is_placed_only_as_an_exact_zip() {
    let roms = vec![rom(1, "a.bin", &abc()), rom(2, "b.bin", &xyz())];
    let both = vec![Hashed::plain(Some("b.bin".into()), xyz()), Hashed::plain(Some("a.bin".into()), abc())];
    assert_eq!(romset_step(&roms, &both, true, "s/set.zip"), RomsetStep::Done);
    assert_eq!(romset_step(&roms, &both, false, "s/set.7z"), RomsetStep::NotAZip);
    assert_eq!(romset_step(&roms, &both, false, "s/set.zip"), RomsetStep::Place(vec![(0, 1), (1, 0)]));
    let short = vec![Hashed::plain(Some("a.bin".into()), abc())];
    assert_eq!(romset_step(&roms, &short, false, "s/set.zip"), RomsetStep::Quarantine);
    let extra = vec![Hashed::plain(Some("a.bin".into()), abc()), Hashed::plain(Some("b.bin".into()), xyz()), Hashed::plain(Some("c.bin".into()), abd())];
    assert_eq!(romset_step(&roms, &extra, false, "s/set.zip"), RomsetStep::Quarantine);
    assert_eq!(ROMSET_NOT_A_ZIP, "a romset is imported from a zip");
}
