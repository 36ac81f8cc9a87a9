//! Rate limits and held uploads that follow the core gate: which limits apply, how
//! long a refused call waits, and the order in which the client is moved towards
//! what the core gate asks.

use vstd::prelude::*;
use crate::jobs::detect_client::ClientKind;

verus! {

/// The rate limits in KiB/s for the menu and for a running core; 0 is unlimited.
#[derive(Debug, Clone, Copy, PartialEq, Eq, Structural)]
pub struct LimitsConfig {
    /// Download limit while the menu runs.
    pub down_kbps_menu: u32,
    /// Upload limit while the menu runs.
    pub up_kbps_menu: u32,
    /// Download limit while a core runs.
    pub down_kbps_core: u32,
    /// Upload limit while a core runs.
    pub up_kbps_core: u32,
}

impl LimitsConfig {
    /// The defaults: unlimited at the menu, 512 down and 64 up while a core runs.
    pub fn default() -> (l: LimitsConfig)
        ensures
            l == (LimitsConfig { down_kbps_menu: 0, up_kbps_menu: 0, down_kbps_core: 512, up_kbps_core: 64 }),
    {
        LimitsConfig { down_kbps_menu: 0, up_kbps_menu: 0, down_kbps_core: 512, up_kbps_core: 64 }
    }
}

/// The `(down, up)` limits in KiB/s for the menu or a running core; 0 is unlimited.
pub open spec fn limits_of(limits: LimitsConfig, core: bool) -> (u32, u32) {
    if core {
        (limits.down_kbps_core, limits.up_kbps_core)
    } else {
        (limits.down_kbps_menu, limits.up_kbps_menu)
    }
}

/// The `(down, up)` limits in KiB/s for the menu or a running core; 0 is unlimited.
pub fn limits_for(limits: &LimitsConfig, core: bool) -> (r: (u32, u32))
    ensures
        r == limits_of(*limits, core),
{
    if core {
        (limits.down_kbps_core, limits.up_kbps_core)
    } else {
        (limits.down_kbps_menu, limits.up_kbps_menu)
    }
}

/// The longest wait between retries, in milliseconds: a minute.
pub const RETRY_MAX: u64 = 60_000;

/// `2^n`.
pub open spec fn pow2(n: nat) -> nat
    decreases n,
{
    if n == 0 {
        1
    } else {
        2 * pow2((n - 1) as nat)
    }
}

/// The wait before retry number `attempt` in milliseconds: `base` at the first retry,
/// doubled at each one after, and never more than [`RETRY_MAX`].
pub open spec fn wait_of(base: nat, attempt: nat) -> nat {
    let w = base * pow2(if attempt == 0 { 0 } else { (attempt - 1) as nat });
    if w < RETRY_MAX {
        w
    } else {
        RETRY_MAX as nat
    }
}

/// `base * 2^k`, but never more than [`RETRY_MAX`].
pub open spec fn capped(base: nat, k: nat) -> nat {
    if base * pow2(k) < RETRY_MAX as nat {
        base * pow2(k)
    } else {
        RETRY_MAX as nat
    }
}

proof fn lemma_double_capped(base: nat, k: nat)
    ensures
        capped(base, k + 1) == if 2 * capped(base, k) < RETRY_MAX as nat {
            2 * capped(base, k)
        } else {
            RETRY_MAX as nat
        },
{
    assert(pow2(k + 1) == 2 * pow2(k));
    assert(base * pow2(k + 1) == 2 * (base * pow2(k))) by (nonlinear_arith)
        requires
            pow2(k + 1) == 2 * pow2(k),
    ;
}

/// The wait before retry number `attempt`, in milliseconds; see [`wait_of`].
pub fn backoff(base: u64, attempt: u32) -> (w: u64)
    ensures
        w == wait_of(base as nat, attempt as nat),
{
    let mut w: u64 = if base < RETRY_MAX {
        base
    } else {
        RETRY_MAX
    };
    let mut k: u32 = 1;
    proof {
        assert(pow2(0) == 1);
        assert(base * 1 == base);
    }
    while k < attempt && w < RETRY_MAX
        invariant
            1 <= k,
            k <= attempt || k == 1,
            w == capped(base as nat, (k - 1) as nat),
        decreases attempt - k,
    {
        proof {
            lemma_double_capped(base as nat, (k - 1) as nat);
        }
        w = if w < RETRY_MAX / 2 {
            2 * w
        } else {
            RETRY_MAX
        };
        k = k + 1;
    }
    proof {
        if attempt == 0 {
            assert(k == 1);
        } else if k < attempt {
            lemma_capped_stays(base as nat, (k - 1) as nat, (attempt - 1) as nat);
        }
    }
    w
}

proof fn lemma_capped_stays(base: nat, k: nat, j: nat)
    requires
        k <= j,
        capped(base, k) == RETRY_MAX as nat,
    ensures
        capped(base, j) == RETRY_MAX as nat,
    decreases j - k,
{
    if k < j {
        lemma_double_capped(base, k);
        lemma_capped_stays(base, k + 1, j);
    }
}

/// An upload limit as a client reports it.
#[derive(Debug, Clone, Copy, PartialEq, Eq, Structural)]
pub struct UploadLimit {
    /// Whether the limit is on.
    pub enabled: bool,
    /// The limit in KiB/s.
    pub kbps: u32,
}

/// The upload limit a client had before mistarr held its uploads, kept until it is put
/// back, so a restart can restore it.
#[derive(Debug, Clone, Copy, PartialEq, Eq, Structural)]
pub struct Marker {
    /// The client the limit belongs to.
    pub kind: ClientKind,
    /// Its upload limit before the hold.
    pub limit: UploadLimit,
}

/// What this process has had the client take.
#[derive(Debug, Clone, Copy, PartialEq, Eq, Structural)]
pub struct Applied {
    /// Whether the core limits, rather than the menu ones, were sent last.
    pub core: bool,
    /// Whether uploads are held.
    pub held: bool,
    /// The limit to put back, while one is recorded.
    pub marker: Option<Marker>,
}

/// Uploads are held only while a limit to put back is recorded, as every step keeps.
pub open spec fn consistent(a: Applied) -> bool {
    a.held ==> a.marker is Some
}

/// The next call that moves a client towards what the core gate asks.
#[derive(Debug, Clone, Copy, PartialEq, Eq, Structural)]
pub enum Step {
    /// Read the client's upload limit and record it as the marker.
    Mark,
    /// Send the core limits (`true`) or the menu ones.
    Send(bool),
    /// Hold the client's uploads.
    Pause,
    /// Put the recorded limit back where it is the same client's (`restore`), then
    /// forget it.
    Release { restore: Option<UploadLimit> },
    /// Nothing is left to do.
    Settled,
}

/// Whether `applied` already is what the core gate asks: `core` limits sent, uploads held
/// exactly when `hold`, and no limit left to put back once they are not.
pub open spec fn is_settled(applied: Applied, core: bool, hold: bool) -> bool {
    applied.core == core && applied.held == hold && (hold || applied.marker is None)
}

/// The next step for a client of `kind` towards `core` and `hold`.
pub open spec fn next_of(a: Applied, kind: ClientKind, core: bool, hold: bool) -> Step {
    if hold {
        match a.marker {
            Some(m) if m.kind == kind => if a.core != core {
                Step::Send(core)
            } else if !a.held {
                Step::Pause
            } else {
                Step::Settled
            },
            _ => Step::Mark,
        }
    } else {
        match a.marker {
            Some(m) => Step::Release {
                restore: if m.kind == kind { Some(m.limit) } else { None },
            },
            None => if a.core != core {
                Step::Send(core)
            } else {
                Step::Settled
            },
        }
    }
}

/// What the client has taken once `step` succeeded, for a client of `kind` whose upload
/// limit read `limit` (used by [`Step::Mark`] only) and a gate asking for `core`.
pub open spec fn after_of(a: Applied, step: Step, kind: ClientKind, limit: UploadLimit, core: bool) -> Applied {
    match step {
        Step::Mark => Applied { marker: Some(Marker { kind, limit }), ..a },
        Step::Send(c) => Applied { core: c, ..a },
        Step::Pause => Applied { held: true, ..a },
        Step::Release { .. } => Applied { core: a.core && !core, held: false, marker: None },
        Step::Settled => a,
    }
}

impl Applied {
    /// Nothing taken: menu limits, uploads free, and the marker found at start.
    pub fn new(marker: Option<Marker>) -> (a: Applied)
        ensures
            a == (Applied { core: false, held: false, marker }),
    {
        Applied { core: false, held: false, marker }
    }

    /// Whether the client already is what the core gate asks.
    pub fn settled(&self, core: bool, hold: bool) -> (r: bool)
        ensures
            r == is_settled(*self, core, hold),
    {
        self.core == core && self.held == hold && (hold || self.marker.is_none())
    }

    /// The next call for a client of `kind` towards `core` and `hold`.
    pub fn next(&self, kind: ClientKind, core: bool, hold: bool) -> (s: Step)
        ensures
            s == next_of(*self, kind, core, hold),
    {
        if hold {
            match self.marker {
                Some(m) if m.kind == kind => {
                    if self.core != core {
                        Step::Send(core)
                    } else if !self.held {
                        Step::Pause
                    } else {
                        Step::Settled
                    }
                },
                _ => Step::Mark,
            }
        } else {
            match self.marker {
                Some(m) => Step::Release {
                    restore: if m.kind == kind {
                        Some(m.limit)
                    } else {
                        None
                    },
                },
                None => {
                    if self.core != core {
                        Step::Send(core)
                    } else {
                        Step::Settled
                    }
                },
            }
        }
    }

    /// Records that `step` succeeded; see [`after_of`]. Returns whether uploads changed
    /// between held and free, so the status is published.
    pub fn took(&mut self, step: Step, kind: ClientKind, limit: UploadLimit, core: bool) -> (flipped: bool)
        ensures
            *final(self) == after_of(*old(self), step, kind, limit, core),
            flipped == (final(self).held != old(self).held),
            consistent(*old(self)) && step == next_of(*old(self), kind, core, true) ==> consistent(*final(self)),
            consistent(*old(self)) && step == next_of(*old(self), kind, core, false) ==> consistent(*final(self)),
    {
        let was = self.held;
        match step {
            Step::Mark => {
                self.marker = Some(Marker { kind, limit });
            },
            Step::Send(c) => {
                self.core = c;
            },
            Step::Pause => {
                self.held = true;
            },
            Step::Release { .. } => {
                self.core = self.core && !core;
                self.held = false;
                self.marker = None;
            },
            Step::Settled => {},
        }
        self.held != was
    }
}

/// Following the steps from any state, each one taken, settles the client within three
/// steps, and the state it stops in is the one the core gate asks.
pub proof fn lemma_steps_settle(a: Applied, kind: ClientKind, limit: UploadLimit, core: bool, hold: bool)
    requires
        consistent(a),
    ensures
        ({
            let a1 = after_of(a, next_of(a, kind, core, hold), kind, limit, core);
            let a2 = after_of(a1, next_of(a1, kind, core, hold), kind, limit, core);
            let a3 = after_of(a2, next_of(a2, kind, core, hold), kind, limit, core);
            &&& next_of(a3, kind, core, hold) == Step::Settled
            &&& is_settled(a3, core, hold)
        }),
{
    let a1 = after_of(a, next_of(a, kind, core, hold), kind, limit, core);
    let a2 = after_of(a1, next_of(a1, kind, core, hold), kind, limit, core);
    let a3 = after_of(a2, next_of(a2, kind, core, hold), kind, limit, core);
    if hold {
        assert(a1.marker == Some(Marker { kind, limit }) || (a.marker is Some && a.marker.unwrap().kind == kind));
    } else {
        assert(a1.marker is None);
        assert(!a1.held);
    }
}

/// A settled step leaves the client as the core gate asks.
pub proof fn lemma_settled_step(a: Applied, kind: ClientKind, core: bool, hold: bool)
    requires
        consistent(a),
        next_of(a, kind, core, hold) == Step::Settled,
    ensures
        is_settled(a, core, hold),
{
}

// ---------------------------------------------------------------------------
// The client in use

/// What mistarr holds a client to while a core runs.
#[derive(Debug, Clone, Copy, PartialEq, Eq, Structural)]
pub enum ClientHold {
    /// Its uploads are held.
    Uploads,
    /// The client process is stopped; nothing may talk to it.
    Frozen,
}

/// Where a client is reached.
#[derive(Debug, Clone, PartialEq, Eq)]
pub struct ClientEndpoint {
    /// Which client it is.
    pub kind: ClientKind,
    /// Its RPC URL or SCGI address.
    pub url: String,
}

/// The client in use, where it is reached, and what it is held to.
#[derive(Debug)]
pub struct ClientSlot<C> {
    entry: Option<(ClientEndpoint, C)>,
    hold: Option<ClientHold>,
}

impl<C> ClientSlot<C> {
    /// The client in use and where it is reached.
    pub closed spec fn entry_of(&self) -> Option<(ClientEndpoint, C)> {
        self.entry
    }

    /// What the client is held to.
    pub closed spec fn hold_of(&self) -> Option<ClientHold> {
        self.hold
    }

    /// No client, nothing held.
    pub fn new() -> (s: ClientSlot<C>)
        ensures
            s.entry_of() is None,
            s.hold_of() is None,
    {
        ClientSlot { entry: None, hold: None }
    }

    /// Uses `client`, reached at `endpoint`; the hold stays as it is.
    pub fn set_client_at(&mut self, endpoint: ClientEndpoint, client: C)
        ensures
            final(self).entry_of() == Some((endpoint, client)),
            final(self).hold_of() == old(self).hold_of(),
    {
        self.entry = Some((endpoint, client));
    }

    /// The client in use and where it is reached, frozen or not.
    pub fn client_entry(&self) -> (r: Option<(&ClientEndpoint, &C)>)
        ensures
            match self.entry_of() {
                Some((e, c)) => r matches Some((re, rc)) && *re == e && *rc == c,
                None => r is None,
            },
    {
        match &self.entry {
            Some((e, c)) => Some((e, c)),
            None => None,
        }
    }

    /// The client to talk to: none while it is frozen.
    pub fn client(&self) -> (r: Option<&C>)
        ensures
            match self.entry_of() {
                Some((_, c)) => if self.hold_of() == Some(ClientHold::Frozen) {
                    r is None
                } else {
                    r matches Some(rc) && *rc == c
                },
                None => r is None,
            },
    {
        if self.hold == Some(ClientHold::Frozen) {
            return None;
        }
        match &self.entry {
            Some((_, c)) => Some(c),
            None => None,
        }
    }

    /// Records what the client is held to; true when that changed.
    pub fn set_client_hold(&mut self, hold: Option<ClientHold>) -> (changed: bool)
        ensures
            changed == (old(self).hold_of() != hold),
            final(self).hold_of() == hold,
            final(self).entry_of() == old(self).entry_of(),
    {
        let changed = self.hold != hold;
        self.hold = hold;
        changed
    }

    /// Whether the client is frozen.
    pub fn client_frozen(&self) -> (r: bool)
        ensures
            r == (self.hold_of() == Some(ClientHold::Frozen)),
    {
        self.hold == Some(ClientHold::Frozen)
    }

    /// What the client is held to.
    pub fn client_hold(&self) -> (r: Option<ClientHold>)
        ensures
            r == self.hold_of(),
    {
        self.hold
    }
}

} // verus!
