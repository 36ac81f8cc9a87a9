use std::time::Duration;

use mistarr_server::jobs::core_limits::{
    ClientEndpoint, ClientHold, ClientSlot,
    backoff, limits_for, Applied, LimitsConfig, Marker, Step, UploadLimit, RETRY_MAX,
};
use mistarr_server::jobs::detect_client::{store_probe, ClientKind, ClientStatus, DetectClient, Store, KIND};
use mistarr_server::jobs::poll::{
    self, observe_state, progress_parts, should_stop, staged_path, Cadence, FileFlags, PollOptions,
    PollRow, Poller, SeenState, Seeding, tick_outcome,
};

#[test]
fn the_retry_wait_doubles_up_to_a_minute() {
    let base = Duration::from_secs(2).as_millis() as u64;
    assert_eq!(backoff(base, 1), base);
    assert_eq!(backoff(base, 3), Duration::from_secs(8).as_millis() as u64);
    assert_eq!(backoff(base, 40), RETRY_MAX);
}

#[test]
fn a_long_base_is_capped_at_once() {
    assert_eq!(backoff(90_000, 1), RETRY_MAX);
    assert_eq!(backoff(1_000, 0), 1_000);
    assert_eq!(backoff(40_000, 2), RETRY_MAX);
    assert_eq!(backoff(1_000, u32::MAX), RETRY_MAX);
}

#[test]
fn limits_follow_the_gate() {
    let l = LimitsConfig::default();
    assert_eq!(limits_for(&l, true), (512, 64));
    assert_eq!(limits_for(&l, false), (0, 0));
    let l = LimitsConfig {
        down_kbps_menu: 9,
        ..LimitsConfig::default()
    };
    assert_eq!(poll::limits_for(&l, false), (9, 0));
}

#[test]
fn cadences_map_to_options() {
    let o = PollOptions {
        poll_active: Duration::from_secs(5),
        poll_idle: Duration::from_secs(60),
        poll_backoff: Duration::from_secs(300),
    };
    assert_eq!(Cadence::Idle.interval(&o), Duration::from_secs(60));
    assert_eq!(Cadence::Backoff.interval(&o), Duration::from_secs(300));
    assert_eq!(Cadence::Active.interval(&o).as_secs(), 5);
}

fn row(single: bool) -> PollRow {
    PollRow {
        path: "Sub/../x.nes".into(),
        infohash: "cd".into(),
        torrent_name: "Set".into(),
        single_file: single,
    }
}

#[test]
fn staged_paths_keep_plain_components_only() {
    assert_eq!(staged_path("/st", &row(false)), "/st/cd/Set/Sub/x.nes");
    assert_eq!(staged_path("/st", &row(true)), "/st/cd/Sub/x.nes");
    let escape = PollRow {
        path: "/etc/../../passwd".into(),
        torrent_name: "..".into(),
        ..row(false)
    };
    assert_eq!(staged_path("/s", &escape), "/s/cd/etc/passwd");
    let named = PollRow {
        path: "NES/a.nes".into(),
        infohash: "ab".into(),
        torrent_name: "Set".into(),
        single_file: false,
    };
    assert_eq!(staged_path("/s", &named), "/s/ab/Set/NES/a.nes");
}

#[test]
fn repeated_failures_back_off_and_flag_the_client() {
    let mut p = Poller::new();
    assert_eq!(p.cadence(0), Cadence::Idle);
    assert_eq!(p.cadence(2), Cadence::Active);
    assert_eq!(p.record(true, false), None);
    assert_eq!(p.record(true, false), None);
    assert_eq!(p.record(true, false), Some(false));
    assert_eq!(p.cadence(2), Cadence::Backoff);
    assert_eq!(p.record(true, false), None);
    assert_eq!(p.failures(), 4);
    assert_eq!(p.record(false, false), None);
    assert_eq!(p.failures(), 4);
    assert_eq!(p.record(false, true), Some(true));
    assert_eq!(p.failures(), 0);
    assert_eq!(p.record(false, true), None);
}

const OWN: UploadLimit = UploadLimit { enabled: true, kbps: 40 };

#[test]
fn holding_uploads_marks_sends_and_pauses() {
    let mut a = Applied::new(None);
    assert!(!a.settled(true, true));
    let mut steps = Vec::new();
    loop {
        let s = a.next(ClientKind::Rtorrent, true, true);
        steps.push(s);
        if s == Step::Settled {
            break;
        }
        a.took(s, ClientKind::Rtorrent, OWN, true);
    }
    assert_eq!(steps, [Step::Mark, Step::Send(true), Step::Pause, Step::Settled]);
    assert!(a.settled(true, true));
    assert_eq!(a.marker, Some(Marker { kind: ClientKind::Rtorrent, limit: OWN }));
}

#[test]
fn releasing_restores_the_limit_and_sends_again() {
    let held = Applied {
        core: true,
        held: true,
        marker: Some(Marker { kind: ClientKind::Rtorrent, limit: OWN }),
    };
    let mut a = held;
    let s = a.next(ClientKind::Rtorrent, true, false);
    assert_eq!(s, Step::Release { restore: Some(OWN) });
    assert!(a.took(s, ClientKind::Rtorrent, OWN, true));
    assert_eq!(a.next(ClientKind::Rtorrent, true, false), Step::Send(true));
    let mut other = held;
    assert_eq!(
        other.next(ClientKind::Transmission, false, false),
        Step::Release { restore: None }
    );
    other.took(Step::Release { restore: None }, ClientKind::Transmission, OWN, false);
    assert_eq!(other.next(ClientKind::Transmission, false, false), Step::Send(false));
    other.took(Step::Send(false), ClientKind::Transmission, OWN, false);
    assert_eq!(other.next(ClientKind::Transmission, false, false), Step::Settled);
    assert!(other.settled(false, false));
}

fn status(kind: Option<ClientKind>, at: i64) -> ClientStatus {
    ClientStatus {
        kind,
        checked_at: at,
        ..ClientStatus::none()
    }
}

#[test]
fn a_probe_older_than_the_stored_result_is_dropped() {
    let newer = status(Some(ClientKind::Transmission), 200);
    assert_eq!(store_probe(&Some(newer), 100, &status(None, 100)), Store::KeepNewer);
    let older = status(Some(ClientKind::Rtorrent), 50);
    assert_eq!(
        store_probe(&Some(older.clone()), 100, &status(Some(ClientKind::Rtorrent), 100)),
        Store::Write { changed: false }
    );
    assert_eq!(
        store_probe(&Some(older), 100, &status(Some(ClientKind::Transmission), 100)),
        Store::Write { changed: true }
    );
    assert_eq!(store_probe(&None, 0, &status(None, 0)), Store::Write { changed: true });
}

#[test]
fn detection_names_its_job_and_clients() {
    assert_eq!(DetectClient.kind(), KIND);
    assert_eq!(ClientKind::Rtorrent.as_str(), "rtorrent");
    assert!(!ClientStatus::none().usable());
    let st = ClientStatus {
        reachable: true,
        ..status(Some(ClientKind::Rtorrent), 1)
    };
    assert!(st.usable());
}

fn remote(url: &str) -> ClientEndpoint {
    ClientEndpoint {
        kind: ClientKind::Transmission,
        url: url.into(),
    }
}

fn nas() -> ClientEndpoint {
    remote("http://192.0.2.5:9091/transmission/rpc")
}

#[test]
fn the_client_entry_names_the_client_and_ignores_a_freeze() {
    let mut app: ClientSlot<&str> = ClientSlot::new();
    assert!(app.client_entry().is_none());
    app.set_client_at(nas(), "mock");
    assert_eq!(app.client_entry().map(|(e, _)| e.clone()), Some(nas()));
    assert!(app.client().is_some());
    assert!(app.set_client_hold(Some(ClientHold::Frozen)));
    assert!(!app.set_client_hold(Some(ClientHold::Frozen)));
    assert!(app.client_frozen());
    assert!(app.client().is_none(), "nothing talks to a frozen client");
    assert!(app.client_entry().is_some());
    assert!(app.set_client_hold(Some(ClientHold::Uploads)));
    assert_eq!(app.client_hold(), Some(ClientHold::Uploads));
    assert!(app.client().is_some());
}

#[test]
fn states_follow_the_client() {
    let r = row(false);
    assert_eq!(observe_state(None, Some((2, 8)), false, &r, "/st"), Some(SeenState::Transferring));
    assert_eq!(progress_parts(2, 8), (2, 8));
    assert_eq!(observe_state(None, Some((8, 8)), false, &r, "/st"), Some(SeenState::Checking));
    assert_eq!(
        observe_state(None, Some((8, 8)), true, &r, "/st"),
        Some(SeenState::Importing { staged_path: "/st/cd/Set/Sub/x.nes".to_string() })
    );
    match observe_state(Some("disk"), Some((2, 8)), false, &r, "/st") {
        Some(SeenState::Failed { error }) => {
            assert!(error.ends_with("disk"));
            assert_eq!(error, "The download client stopped the torrent: disk");
        }
        other => panic!("not failed: {other:?}"),
    }
    assert_eq!(observe_state(None, Some((0, 0)), false, &row(true), "/st"), Some(SeenState::Checking));
    assert_eq!(progress_parts(0, 0), (1, 1));
    assert_eq!(progress_parts(9, 8), (8, 8));
    assert_eq!(observe_state(None, None, false, &row(true), "/st"), None);
}

#[test]
fn only_a_settled_none_policy_torrent_is_stopped() {
    let done = vec![
        FileFlags { wanted: true, complete: true },
        FileFlags { wanted: false, complete: false },
    ];
    assert!(should_stop(false, &done, 0, true));
    assert!(!should_stop(false, &done, 1, true), "a download is open");
    assert!(!should_stop(false, &done, 0, false), "another seed policy");
    let partial = vec![FileFlags { wanted: true, complete: false }];
    assert!(!should_stop(false, &partial, 0, true), "a selected file is incomplete");
    assert!(!should_stop(true, &done, 0, true), "already stopped");
    assert!(should_stop(false, &Vec::new(), 0, true));
}

#[test]
fn sizes_the_client_leaves_out_come_from_the_metainfo() {
    let r = row(false);
    let metainfo_size = 8;
    assert_eq!(observe_state(None, Some((2, metainfo_size)), false, &r, "/st"), Some(SeenState::Transferring));
    assert_eq!(progress_parts(2, metainfo_size), (2, 8));
    assert!(matches!(
        observe_state(None, Some((8, metainfo_size)), true, &r, "/st"),
        Some(SeenState::Importing { .. })
    ));
    assert_eq!(observe_state(None, Some((8, metainfo_size)), false, &r, "/st"), Some(SeenState::Checking));
    let sizeless = vec![FileFlags { wanted: true, complete: false }];
    assert!(!should_stop(false, &sizeless, 0, true));
}

#[test]
fn a_new_client_handle_takes_every_seed_policy_again() {
    let mut s = Seeding::new();
    s.use_client(1);
    assert!(s.needs(7));
    s.sent_to_client(7);
    assert!(!s.needs(7));
    s.use_client(1);
    assert!(!s.needs(7), "the same handle keeps what it took");
    s.use_client(2);
    assert!(s.needs(7), "a restarted client forgot it");
}

#[test]
fn a_tick_stops_at_the_first_client_failure() {
    assert_eq!(tick_outcome(&vec![Some(false), Some(true)]), (false, true));
    assert_eq!(tick_outcome(&vec![Some(false), None, Some(true)]), (true, false));
    assert_eq!(tick_outcome(&vec![Some(true), None]), (true, true));
    assert_eq!(tick_outcome(&Vec::new()), (false, false));
}
