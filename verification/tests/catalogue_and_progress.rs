use mistarr_server::assoc::Assoc;
use mistarr_server::jobs::arcade::{
    check_rom, collapse, same_zip, verify_roms, ArcadeCatalog, AssembleError, Check, KIND,
};
use mistarr_server::jobs::bind_source::{BindPayload, BindSource, Choice, IGNORED, KIND as BIND_KIND};
use mistarr_server::jobs::io_priority::{
    apply, fresh, thread_ids_of, IoClass, IoPriority, Ionice, PriorityError, SetClass,
};
use mistarr_server::jobs::progress::{CountingReader, LiveProgress, LiveRow, Throttle};
use mistarr_server::jobs::{plan_reconcile, revive, Lane, OpenRow, PayloadFacts, Revived, Takeover};
use mistarr_server::sort::sort_texts;

/// The MRA has three `<rom>`s carrying the md5 of `CPU0extra`: index 0 from `cpu.bin`,
/// index 0 again from `gone.bin`, and index 1 from `cpu.bin`, and `exblast.zip` holds
/// `cpu.bin` reading `CPU0extra`. Assembling each gives the outcomes below.
#[test]
fn one_matching_alternative_of_an_index_is_enough() {
    let good = "adc0bac1e6d8fa7882959ce92a2255ca";
    let checks = vec![
        check_rom(0, &Ok(good.to_owned()), good),
        check_rom(0, &Err(AssembleError::MissingPart("gone.bin is in no zip".to_owned())), good),
        check_rom(1, &Ok(good.to_owned()), good),
    ];
    assert_eq!(
        verify_roms(&checks).map(|(c, d)| (c.as_str(), d)),
        Some(("match", None))
    );
}

#[test]
fn md5_outcomes_become_checks_with_details() {
    let good = "f9cd40d48703d5c979b58a5ebe3461e7";
    assert_eq!(check_rom(0, &Ok(good.to_owned()), good), (0, Check::Match, None));
    let (_, c, d) = check_rom(0, &Ok("0".repeat(32)), good);
    assert_eq!(c, Check::Mismatch);
    assert_eq!(d.as_deref(), Some("rom 0 does not match the MRA's md5"));
    let (_, c, d) = check_rom(12, &Err(AssembleError::MissingPart("gfx.bin".to_owned())), good);
    assert_eq!(c, Check::MissingPart);
    assert_eq!(d.as_deref(), Some("rom 12: gfx.bin"));
    let (_, c, _) = check_rom(0, &Err(AssembleError::Refused("empty group".to_owned())), good);
    assert_eq!(c.as_str(), "refused");
}

#[test]
fn one_matching_alternative_decides_its_index() {
    let checks = vec![
        (0, Check::MissingPart, Some("rom 0: gone.bin".to_owned())),
        (0, Check::Match, None),
        (1, Check::Match, None),
    ];
    assert_eq!(verify_roms(&checks), Some((Check::Match, None)));
    assert_eq!(verify_roms(&Vec::new()), None);
}

#[test]
fn the_worst_index_decides_with_its_detail() {
    let checks = vec![
        (0, Check::Match, None),
        (1, Check::Mismatch, Some("rom 1 does not match the MRA's md5".to_owned())),
        (2, Check::Refused, Some("rom 2: bad".to_owned())),
        (1, Check::MissingPart, Some("rom 1: gone".to_owned())),
    ];
    assert_eq!(
        verify_roms(&checks),
        Some((Check::MissingPart, Some("rom 1: gone".to_owned())))
    );
    let tied = vec![
        (0, Check::Refused, Some("first".to_owned())),
        (1, Check::Refused, Some("second".to_owned())),
    ];
    assert_eq!(verify_roms(&tied), Some((Check::Refused, Some("second".to_owned()))));
}

#[test]
fn checks_have_stored_names() {
    assert_eq!(Check::Match.as_str(), "match");
    assert_eq!(Check::MissingPart.as_str(), "missing_part");
    assert_eq!(ArcadeCatalog.kind(), KIND);
    assert_eq!(ArcadeCatalog.lane(), Lane::Heavy);
}

#[test]
fn names_collapse_their_whitespace() {
    assert_eq!(collapse("  Example \t Blaster\n (set 2) "), "Example Blaster (set 2)");
    assert_eq!(collapse(""), "");
    assert_eq!(collapse(" \u{3000} "), "");
    assert_eq!(collapse("a\u{a0}b"), "a b");
}

#[test]
fn zips_are_the_same_in_any_case() {
    assert!(same_zip("HBMAME/sub", "EXHB.zip", "hbmame/SUB", "exhb.ZIP"));
    assert!(!same_zip("mame", "a.zip", "mame", "b.zip"));
}

#[test]
fn counting_reads_every_byte_through_a_buffer() {
    let data = vec![7u8; 20_000];
    let mut totals = Vec::new();
    {
        let mut r = CountingReader::new(&data[..], |n| totals.push(n));
        let mut buf = [0u8; 8192];
        while r.read(&mut buf).expect("read") > 0 {}
        assert_eq!(r.count(), 20_000);
    }
    assert_eq!(totals, [8192, 16_384, 20_000]);
}

#[test]
fn the_throttle_passes_one_report_per_gap_and_every_phase_change() {
    let mut t = Throttle::new(250);
    assert_eq!(t.every(), 250);
    let start = 1_000u64;
    let passed: Vec<bool> = (0..10u64).map(|i| t.due(start + i * 100, "reading")).collect();
    assert_eq!(
        passed,
        [true, false, false, true, false, false, true, false, false, true]
    );
    assert!(t.due(start + 901, "storing"));
    assert!(!t.due(start + 902, "storing"));
}

/// The setter closure that hands each call to `s`.
fn setter_of<S: SetClass>(s: &S) -> impl Fn(u32, IoClass) -> Result<(), PriorityError> + '_ {
    move |t, c| s.set(t, c)
}

struct Recorder {
    refuse: u32,
    missing: bool,
}

impl SetClass for Recorder {
    fn set(&self, tid: u32, _class: IoClass) -> Result<(), PriorityError> {
        if self.missing {
            Err(PriorityError::NoTool)
        } else if tid == self.refuse {
            Err(PriorityError::Failed("gone".into()))
        } else {
            Ok(())
        }
    }
}

#[test]
fn every_listed_thread_takes_the_class_once() {
    let setter = Recorder { refuse: 13, missing: false };
    let n = apply(&setter_of(&setter), || Ok(vec![3, 7, 13, 7]), IoClass::Idle).expect("applied");
    assert_eq!(n, 2);
    let none = Recorder { refuse: 0, missing: true };
    assert!(matches!(apply(&setter_of(&none), || Ok(vec![1]), IoClass::Idle), Err(PriorityError::NoTool)));
    assert!(matches!(
        apply(&setter_of(&setter), || Err(PriorityError::Failed("no list".into())), IoClass::Idle),
        Err(PriorityError::Failed(_))
    ));
}

#[test]
fn a_failed_switch_keeps_the_class() {
    let missing = Recorder { refuse: 0, missing: true };
    let mut p = IoPriority::new(move |t: u32, c: IoClass| missing.set(t, c));
    assert_eq!(p.current(), IoClass::Default);
    assert!(p.switch(|| Ok(vec![5]), IoClass::Idle).is_err());
    assert_eq!(p.current(), IoClass::Default);
    let present = Recorder { refuse: 0, missing: false };
    let mut q = IoPriority::new(move |t: u32, c: IoClass| present.set(t, c));
    assert_eq!(q.switch(|| Ok(vec![5]), IoClass::Idle).expect("switched"), 1);
    assert_eq!(q.current(), IoClass::Idle);
    assert_eq!(q.at_default(Some(5), || Ok(vec![5]), |l| (42, l)), 42);
    assert_eq!(Ionice::new("ionice").program(), "ionice");
}

#[test]
fn fresh_threads_come_once_in_listing_order() {
    let mut seen = vec![3];
    let f = fresh(&mut seen, &vec![3, 9, 4, 9]);
    assert_eq!(f, [9, 4]);
    assert_eq!(seen, [3, 9, 4]);
}

fn row(kind: &str, payload: &str, revivable: bool) -> OpenRow {
    OpenRow {
        kind: kind.into(),
        payload: payload.into(),
        revivable,
    }
}

#[test]
fn reconcile_requeues_fails_and_drops_repeats() {
    let rows = vec![
        row("scan", "{}", true),
        row("import", "{\"download_id\":1}", false),
        row("scan", "{}", true),
        row("import", "{\"download_id\":2}", false),
    ];
    let (fates, counts) = plan_reconcile(&rows);
    assert_eq!(fates, [Takeover::Requeue, Takeover::Fail, Takeover::Delete, Takeover::Fail]);
    assert_eq!((counts.requeued, counts.failed, counts.dropped), (1, 2, 1));
}

#[test]
fn assoc_maps_texts() {
    let mut m: Assoc<u64> = Assoc::new();
    m.insert("a".into(), 1);
    m.insert("b".into(), 2);
    m.insert("a".into(), 3);
    assert_eq!(m.get("a"), Some(3));
    m.remove("a");
    assert_eq!(m.get("a"), None);
    m.retain(&vec!["c".to_owned()]);
    assert_eq!(m.get("b"), None);
}

#[test]
fn texts_sort_by_characters() {
    let v = vec!["b".to_owned(), "a".to_owned(), "ab".to_owned(), "B".to_owned()];
    assert_eq!(sort_texts(&v), ["B", "a", "ab", "b"]);
}

/// Records each call; spawns thread 900 during the first one when asked, refuses thread
/// 13, or has no tool.
#[derive(Default)]
struct Fake {
    calls: std::sync::Mutex<Vec<(u32, IoClass)>>,
    spawns: bool,
    spawned: std::sync::atomic::AtomicBool,
    missing: bool,
}

impl SetClass for Fake {
    fn set(&self, tid: u32, class: IoClass) -> Result<(), PriorityError> {
        if self.missing {
            return Err(PriorityError::NoTool);
        }
        if self.spawns {
            self.spawned.store(true, std::sync::atomic::Ordering::SeqCst);
        }
        if tid == 13 {
            return Err(PriorityError::Failed("no such process".into()));
        }
        self.calls.lock().expect("lock").push((tid, class));
        Ok(())
    }
}

impl Fake {
    /// The task directory's listing: the given threads, sorted, and 900 once spawned.
    fn list(&self, ids: &[u32]) -> Result<Vec<u32>, PriorityError> {
        let mut v = ids.to_vec();
        if self.spawned.load(std::sync::atomic::Ordering::SeqCst) {
            v.push(900);
        }
        v.sort_unstable();
        Ok(v)
    }
}

#[test]
fn every_thread_takes_the_class_including_one_spawned_meanwhile() {
    let fake = Fake { spawns: true, ..Fake::default() };
    assert_eq!(apply(&setter_of(&fake), || fake.list(&[101, 102, 13]), IoClass::Idle).expect("apply"), 3);
    let calls = fake.calls.lock().expect("lock").clone();
    assert_eq!(calls, vec![(101, IoClass::Idle), (102, IoClass::Idle), (900, IoClass::Idle)]);
}

#[test]
fn a_missing_tool_or_thread_list_stops_the_switch() {
    let fake = Fake { missing: true, ..Fake::default() };
    assert!(matches!(apply(&setter_of(&fake), || fake.list(&[1]), IoClass::Idle), Err(PriorityError::NoTool)));
    let absent = || Err(PriorityError::Threads(std::io::Error::new(std::io::ErrorKind::NotFound, "absent")));
    assert!(matches!(apply(&setter_of(&Fake::default()), absent, IoClass::Idle), Err(PriorityError::Threads(_))));
}

/// A fake shared with the test that inspects it.
struct Shared(std::sync::Arc<Fake>);

impl SetClass for Shared {
    fn set(&self, tid: u32, class: IoClass) -> Result<(), PriorityError> {
        self.0.set(tid, class)
    }
}

#[test]
fn a_launch_while_idle_runs_at_default_then_restores_every_thread() {
    let fake = std::sync::Arc::new(Fake::default());
    let calls = || fake.calls.lock().expect("lock").clone();
    let shared = Shared(std::sync::Arc::clone(&fake));
    let mut priority = IoPriority::new(move |t: u32, c: IoClass| shared.set(t, c));
    let tid = 77;
    assert_eq!(priority.at_default(Some(tid), || Ok(vec![5, 6]), |l| (1, l)), 1);
    assert!(calls().is_empty());
    assert_eq!(priority.switch(|| Ok(vec![5, 6]), IoClass::Idle).expect("switch"), 2);
    fake.calls.lock().expect("lock").clear();
    let seen = priority.at_default(Some(tid), || Ok(vec![5, 6]), |l| (calls(), l));
    assert_eq!(seen, vec![(tid, IoClass::Default)]);
    assert_eq!(calls(), vec![(tid, IoClass::Default), (5, IoClass::Idle), (6, IoClass::Idle)]);
}

fn facts(path: Option<&str>, platform_id: Option<&str>, bind: bool, download_id: Option<i64>) -> PayloadFacts {
    PayloadFacts {
        path: path.map(Into::into),
        platform_id: platform_id.map(Into::into),
        names_dat_version: bind,
        download_id,
        platforms: None,
    }
}

#[test]
fn revive_covers_the_rerunnable_kinds() {
    let none = facts(None, None, false, None);
    assert_eq!(revive("scan", &none), Some(Revived::Scan { platform_id: None }));
    assert_eq!(
        revive("scan", &facts(None, Some("nes"), false, None)),
        Some(Revived::Scan { platform_id: Some("nes".into()) })
    );
    assert_eq!(
        revive("recompute_1g1r", &facts(None, Some("nes"), false, None)),
        Some(Revived::Recompute { platform: "nes".into() })
    );
    assert_eq!(
        revive("source_import", &facts(Some("/s/a.torrent"), None, false, None)),
        Some(Revived::SourceImport { path: "/s/a.torrent".into() })
    );
    assert_eq!(revive("import", &facts(None, None, false, Some(3))), Some(Revived::Import { download_id: 3 }));
    assert_eq!(revive("remap_sources", &none), Some(Revived::Remap { platforms: None }));
    let named = PayloadFacts { platforms: Some(vec!["nes".into()]), ..facts(None, None, false, None) };
    assert_eq!(
        revive("remap_sources", &named),
        Some(Revived::Remap { platforms: Some(vec!["nes".to_owned()]) })
    );
    assert_eq!(revive("arcade_catalog", &none), Some(Revived::Arcade));
    assert_eq!(revive("chd_tracks", &none), Some(Revived::Chd));
    assert_eq!(
        revive("dat_import", &facts(Some("/d/a.dat"), None, false, None)),
        Some(Revived::DatImport { path: "/d/a.dat".into() })
    );
    let bind = facts(Some("/d/a.dat"), Some("nes"), true, None);
    assert!(revive("dat_import", &bind).is_none());
    assert!(revive("import", &none).is_none());
    assert!(revive("detect_client", &none).is_none());
    assert_eq!(Lane::Heavy.as_str(), "heavy");
}

#[test]
fn thread_ids_are_the_numeric_entries_in_order() {
    let names: Vec<String> = ["812", "self", "+7", "0031", "4294967295", "4294967296", "", "+", "-3", "12a", "7"]
        .iter()
        .map(|n| n.to_string())
        .collect();
    assert_eq!(thread_ids_of(&names), vec![7, 7, 31, 812, 4294967295]);
    assert!(thread_ids_of(&Vec::new()).is_empty());
}

#[test]
fn payloads_round_trip() {
    for choice in [Choice::Platform("nes".into()), Choice::Ignore, Choice::Automatic] {
        let job = BindSource {
            source_id: 4,
            source_name: "Synthetic Set".into(),
            choice,
        };
        assert_eq!(BindSource::from_payload(&job.payload()), Some(job));
    }
    let only_id = BindPayload { source_id: Some(1), source_name: None, automatic: None, platform_id: None };
    assert_eq!(BindSource::from_payload(&only_id), None);
}

#[test]
fn a_bind_payload_needs_a_source_and_defaults_the_name() {
    let p = BindPayload { source_id: Some(3), source_name: None, automatic: Some(true), platform_id: None };
    assert_eq!(
        BindSource::from_payload(&p),
        Some(BindSource { source_id: 3, source_name: String::new(), choice: Choice::Automatic })
    );
    let not_automatic = BindPayload { automatic: Some(false), platform_id: Some(None), ..p.clone() };
    assert_eq!(BindSource::from_payload(&not_automatic).map(|j| j.choice), Some(Choice::Ignore));
    let no_source = BindPayload { source_id: None, ..p };
    assert_eq!(BindSource::from_payload(&no_source), None);
    assert_eq!(BIND_KIND, "bind_source");
    assert!(IGNORED.starts_with("Marked as not a game set"));
}

#[test]
fn live_progress_overlays_running_rows_only() {
    let mut live: LiveProgress<String> = LiveProgress::new();
    live.set(1, "reading".to_owned());
    live.set(2, "hashing".to_owned());
    let mut rows = vec![
        LiveRow { id: 1, running: true, progress: None },
        LiveRow { id: 2, running: false, progress: Some("stored".to_owned()) },
        LiveRow { id: 3, running: true, progress: Some("stored".to_owned()) },
    ];
    live.overlay(&mut rows);
    assert_eq!(rows[0].progress.as_deref(), Some("reading"));
    assert_eq!(rows[1].progress.as_deref(), Some("stored"));
    assert_eq!(rows[2].progress.as_deref(), Some("stored"));
}

#[test]
fn live_progress_reads_the_last_write_until_cleared() {
    let mut live: LiveProgress<String> = LiveProgress::new();
    assert_eq!(live.get(7), None);
    live.set(7, "a".to_owned());
    live.set(7, "b".to_owned());
    live.set(8, "c".to_owned());
    assert_eq!(live.get(7).as_deref(), Some("b"));
    live.clear(7);
    assert_eq!(live.get(7), None);
    assert_eq!(live.get(8).as_deref(), Some("c"));
}

#[test]
fn a_launch_enters_the_default_class_and_restores_it_in_steps() {
    let fake = std::sync::Arc::new(Fake::default());
    let calls = || fake.calls.lock().expect("lock").clone();
    let shared = Shared(std::sync::Arc::clone(&fake));
    let mut priority = IoPriority::new(move |t: u32, c: IoClass| shared.set(t, c));
    let launch = priority.enter_default(Some(9));
    assert!(calls().is_empty());
    assert!(priority.restore(launch, || Ok(vec![5])).is_none());
    assert!(calls().is_empty());
    assert_eq!(priority.switch(|| Ok(vec![5]), IoClass::Idle).expect("switch"), 1);
    fake.calls.lock().expect("lock").clear();
    let launch = priority.enter_default(Some(9));
    assert_eq!(calls(), vec![(9, IoClass::Default)]);
    let restored = priority.restore(launch, || Ok(vec![5, 6]));
    assert!(matches!(restored, Some(Ok(2))));
    assert_eq!(calls(), vec![(9, IoClass::Default), (5, IoClass::Idle), (6, IoClass::Idle)]);
}
