//! The scheduler gate: paused while a core runs, unless the user overrides it.

use vstd::prelude::*;

use super::Lane;
use crate::text::str_is;

verus! {

/// The value MiSTer writes to CORENAME while the menu is loaded.
pub const MENU: &'static str = "MENU";

/// A manual override set through `/system/pause` or `/system/resume`.
#[derive(Debug, Clone, Copy, PartialEq, Eq, Structural)]
pub enum Override {
    /// Paused whatever CORENAME says.
    Paused,
    /// Running whatever CORENAME says.
    Running,
}

/// Why the core gate is closed.
#[derive(Debug, Clone, Copy, PartialEq, Eq, Structural)]
pub enum PauseReason {
    /// A core other than the menu is running.
    Core,
    /// The user paused.
    Manual,
}

/// The inputs that decide whether gated jobs may run.
#[derive(Debug, Clone)]
pub struct GateState {
    /// Last CORENAME value; `None` when the file does not exist.
    pub corename: Option<String>,
    /// The manual override, cleared whenever CORENAME changes.
    pub manual: Option<Override>,
}

/// The CORENAME text of a state.
pub open spec fn corename_text(s: GateState) -> Option<Seq<char>> {
    match s.corename {
        Some(n) => Some(n@),
        None => None,
    }
}

/// True while a core other than the menu is loaded.
pub open spec fn spec_core_running(s: GateState) -> bool {
    s.corename matches Some(n) && n@ != MENU@
}

/// Why gated jobs are held, or `None` when they may run.
pub open spec fn spec_pause_reason(s: GateState) -> Option<PauseReason> {
    match s.manual {
        Some(Override::Paused) => Some(PauseReason::Manual),
        Some(Override::Running) => None,
        None => if spec_core_running(s) {
            Some(PauseReason::Core)
        } else {
            None
        },
    }
}

/// Why jobs on `lane` are held.
pub open spec fn spec_hold(s: GateState, lane: Lane) -> Option<PauseReason> {
    match lane {
        Lane::Heavy => spec_pause_reason(s),
        Lane::Background => if s.manual == Some(Override::Paused) {
            Some(PauseReason::Manual)
        } else {
            None
        },
        Lane::Light => None,
    }
}

impl GateState {
    /// An open gate with no CORENAME seen.
    pub fn default() -> (s: GateState)
        ensures
            s.corename is None,
            s.manual is None,
    {
        GateState { corename: None, manual: None }
    }

    /// True while a core other than the menu is loaded.
    pub fn core_running(&self) -> (r: bool)
        ensures
            r == spec_core_running(*self),
    {
        match &self.corename {
            Some(n) => !str_is(n.as_str(), MENU),
            None => false,
        }
    }

    /// Why gated jobs are held, or `None` when they may run.
    pub fn pause_reason(&self) -> (r: Option<PauseReason>)
        ensures
            r == spec_pause_reason(*self),
    {
        match self.manual {
            Some(Override::Paused) => Some(PauseReason::Manual),
            Some(Override::Running) => None,
            None => if self.core_running() {
                Some(PauseReason::Core)
            } else {
                None
            },
        }
    }

    /// True when gated jobs are held.
    pub fn paused(&self) -> (r: bool)
        ensures
            r == spec_pause_reason(*self) is Some,
    {
        self.pause_reason().is_some()
    }

    /// Why jobs on `lane` are held: the heavy lane follows the core gate, the
    /// background lane only a manual pause, the light lane never.
    pub fn hold(&self, lane: Lane) -> (r: Option<PauseReason>)
        ensures
            r == spec_hold(*self, lane),
    {
        match lane {
            Lane::Heavy => self.pause_reason(),
            Lane::Background => if self.manual == Some(Override::Paused) {
                Some(PauseReason::Manual)
            } else {
                None
            },
            Lane::Light => None,
        }
    }
}

/// Whether two optional CORENAME readings are the same.
fn same_corename(a: &Option<String>, b: &Option<String>) -> (r: bool)
    ensures
        r == (match (a, b) {
            (Some(x), Some(y)) => x@ == y@,
            (None, None) => true,
            _ => false,
        }),
{
    match (a, b) {
        (Some(x), Some(y)) => x.eq(y),
        (None, None) => true,
        _ => false,
    }
}

/// The core gate's state, changed only through its transitions.
pub struct Gate {
    state: GateState,
}

impl Gate {
    /// The current state.
    pub closed spec fn spec_state(&self) -> GateState {
        self.state
    }

    /// An open gate with no CORENAME seen.
    pub fn new() -> (g: Gate)
        ensures
            g.spec_state().corename is None,
            g.spec_state().manual is None,
    {
        Gate { state: GateState::default() }
    }

    /// A copy of the current state.
    pub fn state(&self) -> (s: GateState)
        ensures
            corename_text(s) == corename_text(self.spec_state()),
            s.manual == self.spec_state().manual,
    {
        let corename = match &self.state.corename {
            Some(n) => Some(n.clone()),
            None => None,
        };
        GateState { corename, manual: self.state.manual }
    }

    /// Records a CORENAME reading. A different value clears the manual
    /// override. Returns true if anything changed.
    pub fn set_corename(&mut self, corename: Option<String>) -> (changed: bool)
        ensures
            changed == (corename_text(old(self).spec_state()) != match corename {
                Some(n) => Some(n@),
                None => None::<Seq<char>>,
            }),
            changed ==> final(self).spec_state().corename == corename,
            changed ==> final(self).spec_state().manual is None,
            !changed ==> final(self).spec_state() == old(self).spec_state(),
    {
        if same_corename(&self.state.corename, &corename) {
            return false;
        }
        self.state = GateState { corename, manual: None };
        true
    }

    /// Sets or clears the manual override. Returns true if it changed.
    pub fn set_override(&mut self, manual: Option<Override>) -> (changed: bool)
        ensures
            changed == (old(self).spec_state().manual != manual),
            final(self).spec_state().manual == manual,
            final(self).spec_state().corename == old(self).spec_state().corename,
    {
        let changed = self.state.manual != manual;
        self.state.manual = manual;
        changed
    }

    /// Clears a `Running` override, for when the heavy queue it was set to
    /// release has drained. Returns true if it was set.
    pub fn end_run_now(&mut self) -> (changed: bool)
        ensures
            changed == (old(self).spec_state().manual == Some(Override::Running)),
            changed ==> final(self).spec_state().manual is None,
            !changed ==> final(self).spec_state().manual == old(self).spec_state().manual,
            final(self).spec_state().corename == old(self).spec_state().corename,
    {
        if self.state.manual != Some(Override::Running) {
            return false;
        }
        self.state.manual = None;
        true
    }
}

/// The lanes are held in nesting order: the light lane never, the background lane only
/// when the heavy lane is held too, and the heavy lane exactly when the core gate is paused.
pub proof fn lemma_holds_nest(s: GateState)
    ensures
        spec_hold(s, Lane::Light) is None,
        spec_hold(s, Lane::Background) is Some ==> spec_hold(s, Lane::Heavy) is Some,
        spec_hold(s, Lane::Heavy) == spec_pause_reason(s),
{
}

/// The background lane answers to the user alone: it is held exactly when the user paused,
/// then for the user, and a running core never holds it, whatever CORENAME says.
pub proof fn lemma_background_waits_only_for_the_user(s: GateState, corename: Option<String>)
    ensures
        spec_hold(s, Lane::Background) is Some <==> s.manual == Some(Override::Paused),
        spec_hold(s, Lane::Background) is Some ==> spec_hold(s, Lane::Background) == Some(PauseReason::Manual),
        spec_hold(s, Lane::Background) != Some(PauseReason::Core),
        spec_hold(GateState { corename, manual: s.manual }, Lane::Background) == spec_hold(s, Lane::Background),
{
}

/// A manual override decides the core gate whatever CORENAME says: paused holds the heavy
/// lane for the user, running frees it.
pub proof fn lemma_override_wins(s: GateState)
    ensures
        s.manual == Some(Override::Paused) ==> spec_pause_reason(s) == Some(PauseReason::Manual),
        s.manual == Some(Override::Running) ==> spec_pause_reason(s) is None,
        s.manual is None ==> (spec_pause_reason(s) is Some <==> spec_core_running(s)),
{
}

} // verus!
