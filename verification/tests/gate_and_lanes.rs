use mistarr_server::jobs::gate::{Gate, Override, PauseReason, MENU};
use mistarr_server::jobs::io_priority::IoClass;
use mistarr_server::jobs::Lane;

#[test]
fn corename_drives_the_gate() {
    let mut gate = Gate::new();
    assert!(gate.set_corename(Some(MENU.into())));
    assert!(!gate.state().paused());
    gate.set_corename(Some("SNES".into()));
    assert_eq!(gate.state().pause_reason(), Some(PauseReason::Core));
    gate.set_corename(None);
    assert!(!gate.state().paused());
}

#[test]
fn override_wins_until_corename_changes() {
    let mut gate = Gate::new();
    gate.set_corename(Some("SNES".into()));
    gate.set_override(Some(Override::Running));
    assert!(!gate.state().paused());
    assert!(!gate.set_override(Some(Override::Running)));
    gate.set_corename(Some(MENU.into()));
    assert_eq!(gate.state().manual, None);
    gate.set_override(Some(Override::Paused));
    assert_eq!(gate.state().pause_reason(), Some(PauseReason::Manual));
    gate.set_override(None);
    assert!(!gate.state().paused());
}

#[test]
fn classes_map_to_ionice_numbers() {
    assert_eq!(IoClass::Default.arg(), "0");
    assert_eq!(IoClass::for_core(false), IoClass::Default);
}

#[test]
fn a_running_core_selects_the_idle_class() {
    assert_eq!(IoClass::for_core(true), IoClass::Idle);
    assert_eq!(IoClass::Idle.arg(), "3");
}

#[test]
fn holds_nest_by_lane() {
    let mut gate = Gate::new();
    gate.set_corename(Some("SNES".into()));
    let s = gate.state();
    assert_eq!(s.hold(Lane::Light), None);
    assert_eq!(s.hold(Lane::Heavy), Some(PauseReason::Core));
    gate.set_override(Some(Override::Paused));
    let s = gate.state();
    assert_eq!(s.hold(Lane::Background), Some(PauseReason::Manual));
    assert_eq!(s.hold(Lane::Light), None);
}

#[test]
fn running_now_ends_once() {
    let mut gate = Gate::new();
    gate.set_corename(Some("SNES".into()));
    gate.set_override(Some(Override::Running));
    assert!(gate.end_run_now());
    assert!(!gate.end_run_now());
    assert_eq!(gate.state().pause_reason(), Some(PauseReason::Core));
}

#[test]
fn lanes_have_names() {
    assert_eq!(Lane::Heavy.as_str(), "heavy");
    assert_eq!(Lane::Background.as_str(), "background");
    assert_eq!(Lane::Light.as_str(), "light");
}
