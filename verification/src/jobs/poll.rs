//! The download poller's decisions: how soon the next poll is due, where a finished
//! file lies locally, and when the client is shown unreachable.

use vstd::prelude::*;
use crate::jobs::core_limits::{LimitsConfig, limits_of};
use crate::text::{push_path, push_normals, split};

verus! {

/// Consecutive failed polls after which the client is shown unreachable.
pub const FAILURES_BEFORE_UNREACHABLE: u32 = 3;

/// Error stored on downloads whose torrent the client no longer has.
pub const LOST_TORRENT: &'static str =
    "The torrent is no longer in the download client. Retry to add it again.";

/// The poll intervals.
#[derive(Debug, Clone, Copy)]
pub struct PollOptions {
    /// While something transfers or checks.
    pub poll_active: std::time::Duration,
    /// While nothing does.
    pub poll_idle: std::time::Duration,
    /// After the client failed repeatedly.
    pub poll_backoff: std::time::Duration,
}

/// How soon the next poll is due.
#[derive(Debug, Clone, Copy, PartialEq, Eq, Structural)]
pub enum Cadence {
    /// Something is transferring or checking.
    Active,
    /// Nothing is.
    Idle,
    /// The client failed repeatedly.
    Backoff,
}

impl Cadence {
    /// The wait before the next poll under `options`.
    pub fn interval(self, options: &PollOptions) -> (d: std::time::Duration)
        ensures
            d == match self {
                Cadence::Active => options.poll_active,
                Cadence::Idle => options.poll_idle,
                Cadence::Backoff => options.poll_backoff,
            },
    {
        match self {
            Cadence::Active => options.poll_active,
            Cadence::Idle => options.poll_idle,
            Cadence::Backoff => options.poll_backoff,
        }
    }
}

/// What the poller reads of one download's row to place its file.
#[derive(Debug, Clone)]
pub struct PollRow {
    /// The file's path inside the torrent.
    pub path: String,
    /// The torrent's infohash.
    pub infohash: String,
    /// The torrent's name.
    pub torrent_name: String,
    /// Whether the torrent is a single file, stored without a directory of its name.
    pub single_file: bool,
}

/// Where the client puts a download's file, seen locally: `staging/infohash/`, then
/// the plain components of the torrent's name unless it is a single file, then those
/// of the path in the torrent.
pub open spec fn staged_of(staging: Seq<char>, row: PollRow) -> Seq<char> {
    let base = push_path(staging, row.infohash@);
    let named = if row.single_file {
        base
    } else {
        push_normals(base, split(row.torrent_name@))
    };
    push_normals(named, split(row.path@))
}

/// Where the client puts a download's file, seen locally; a torrent cannot name a
/// path outside `staging/infohash/`.
pub fn staged_path(staging: &str, row: &PollRow) -> (p: String)
    ensures
        p@ == staged_of(staging@, *row),
{
    let base = crate::text::join(staging, row.infohash.as_str());
    let mut out = crate::text::chars_of(base.as_str());
    if !row.single_file {
        out = crate::text::push_relative(&out, row.torrent_name.as_str());
    }
    out = crate::text::push_relative(&out, row.path.as_str());
    crate::text::string_of(&out)
}

/// The start of the error stored on a download whose torrent the client stopped.
pub const STOPPED_BY_CLIENT: &'static str = "The download client stopped the torrent: ";

/// The state one poll finds a download in.
#[derive(Debug, Clone, PartialEq, Eq)]
pub enum SeenState {
    /// Bytes are still arriving.
    Transferring,
    /// All bytes are there and the client is still checking them.
    Checking,
    /// The file is complete and lies at `staged_path`, ready to import.
    Importing { staged_path: String },
    /// The client stopped the torrent with an error.
    Failed { error: String },
}

/// What one poll finds for a download whose torrent reports `error` (the client's error
/// message, if it stopped the torrent), and whose file, if the client lists it, has
/// `(bytes_done, size)`, where `size` is the client's or else the row's; `file_done` is
/// whether the client counts the file complete. `None` while the client does not list
/// the file.
pub fn observe_state(
    error: Option<&str>,
    file: Option<(u64, u64)>,
    file_done: bool,
    row: &PollRow,
    staging: &str,
) -> (r: Option<SeenState>)
    ensures
        match error {
            Some(m) => r matches Some(SeenState::Failed { error }) && error@ == STOPPED_BY_CLIENT@ + m@,
            None => match file {
                None => r is None,
                Some((done, size)) => if done != size {
                    r == Some(SeenState::Transferring)
                } else if file_done {
                    r matches Some(SeenState::Importing { staged_path }) && staged_path@ == staged_of(
                        staging@,
                        *row,
                    )
                } else {
                    r == Some(SeenState::Checking)
                },
            },
        },
{
    if let Some(m) = error {
        return Some(SeenState::Failed { error: crate::text::concat(STOPPED_BY_CLIENT, m) });
    }
    let (done, size) = match file {
        Some(f) => f,
        None => return None,
    };
    if done != size {
        Some(SeenState::Transferring)
    } else if file_done {
        Some(SeenState::Importing { staged_path: staged_path(staging, row) })
    } else {
        Some(SeenState::Checking)
    }
}

/// The share of a file done, as `(done, of)`: the bytes done, at most the size, of the
/// size; an empty file counts as all done.
pub fn progress_parts(done: u64, size: u64) -> (r: (u64, u64))
    ensures
        r == (if size == 0 {
            (1u64, 1u64)
        } else if done < size {
            (done, size)
        } else {
            (size, size)
        }),
{
    if size == 0 {
        (1, 1)
    } else if done < size {
        (done, size)
    } else {
        (size, size)
    }
}

/// What the poller weighs of one file of a torrent before stopping it.
#[derive(Debug, Clone, Copy, PartialEq, Eq, Structural)]
pub struct FileFlags {
    /// Selected for download in the client.
    pub wanted: bool,
    /// Every byte of it is there.
    pub complete: bool,
}

/// Whether the poller stops a torrent: only under seed policy `none` (`seed_none`), which
/// neither client acts on by itself, once no download of its source is open (`open`), the
/// torrent is not stopped already and every file selected in the client is complete.
pub fn should_stop(stopped: bool, files: &Vec<FileFlags>, open: usize, seed_none: bool) -> (r: bool)
    ensures
        r == (seed_none && open == 0 && !stopped && forall|i: int|
            0 <= i < files@.len() && (#[trigger] files@[i]).wanted ==> files@[i].complete),
{
    if !seed_none || open != 0 || stopped {
        return false;
    }
    let mut i: usize = 0;
    while i < files.len()
        invariant
            i <= files@.len(),
            forall|k: int| 0 <= k < i && (#[trigger] files@[k]).wanted ==> files@[k].complete,
        decreases files.len() - i,
    {
        if files[i].wanted && !files[i].complete {
            return false;
        }
        i = i + 1;
    }
    true
}

/// The `(down, up)` limits in KiB/s for the menu or a running core; 0 is unlimited.
pub fn limits_for(limits: &LimitsConfig, core: bool) -> (r: (u32, u32))
    ensures
        r == limits_of(*limits, core),
{
    crate::jobs::core_limits::limits_for(limits, core)
}

/// The poll loop's count of failures between polls.
#[derive(Debug, Clone, Copy, PartialEq, Eq, Structural)]
pub struct Poller {
    failures: u32,
    unreachable: bool,
}

/// The cadence for `failures` consecutive failures and `active` downloads transferring
/// or checking.
pub open spec fn cadence_of(failures: u32, active: u64) -> Cadence {
    if failures >= FAILURES_BEFORE_UNREACHABLE {
        Cadence::Backoff
    } else if active > 0 {
        Cadence::Active
    } else {
        Cadence::Idle
    }
}

impl Poller {
    /// Consecutive polls in which a client call failed.
    pub closed spec fn failure_count(&self) -> u32 {
        self.failures
    }

    /// Whether the client is shown unreachable.
    pub closed spec fn shown_unreachable(&self) -> bool {
        self.unreachable
    }

    /// A poller that has not polled yet.
    pub fn new() -> (p: Poller)
        ensures
            p.failure_count() == 0,
            !p.shown_unreachable(),
    {
        Poller { failures: 0, unreachable: false }
    }

    /// Consecutive polls in which a client call failed.
    pub fn failures(&self) -> (n: u32)
        ensures
            n == self.failure_count(),
    {
        self.failures
    }

    /// The cadence the current failures call for, with `active` downloads transferring
    /// or checking.
    pub fn cadence(&self, active: u64) -> (c: Cadence)
        ensures
            c == cadence_of(self.failure_count(), active),
    {
        if self.failures >= FAILURES_BEFORE_UNREACHABLE {
            Cadence::Backoff
        } else if active > 0 {
            Cadence::Active
        } else {
            Cadence::Idle
        }
    }

    /// Counts a failed poll, or clears the count after an answered one. Returns the
    /// reachability to show when it changes: unreachable once the failures reach
    /// [`FAILURES_BEFORE_UNREACHABLE`], reachable again at the next answer.
    pub fn record(&mut self, failed: bool, answered: bool) -> (show: Option<bool>)
        requires
            failed ==> old(self).failure_count() < u32::MAX,
        ensures
            failed ==> {
                &&& after_failure(*old(self), *final(self))
                &&& show == if !old(self).shown_unreachable() && final(self).failure_count()
                    >= FAILURES_BEFORE_UNREACHABLE {
                    Some(false)
                } else {
                    None
                }
            },
            !failed && answered ==> {
                &&& final(self).failure_count() == 0
                &&& !final(self).shown_unreachable()
                &&& show == if old(self).shown_unreachable() {
                    Some(true)
                } else {
                    None
                }
            },
            !failed && !answered ==> *final(self) == *old(self) && show is None,
    {
        if failed {
            self.failures = self.failures + 1;
            if self.failures >= FAILURES_BEFORE_UNREACHABLE && !self.unreachable {
                self.unreachable = true;
                return Some(false);
            }
        } else if answered {
            self.failures = 0;
            if self.unreachable {
                self.unreachable = false;
                return Some(true);
            }
        }
        None
    }
}

/// `b` is `a` after one more failed poll.
pub open spec fn after_failure(a: Poller, b: Poller) -> bool {
    &&& b.failure_count() == a.failure_count() + 1
    &&& b.shown_unreachable() == (a.shown_unreachable() || b.failure_count() >= FAILURES_BEFORE_UNREACHABLE)
}

/// After `n` failed polls in a row from a fresh poller (`polls[0]`, then one state per
/// poll) the count is `n`, and the client is shown unreachable, and polled at the
/// back-off cadence, exactly once `n` reaches [`FAILURES_BEFORE_UNREACHABLE`].
pub proof fn lemma_failures_back_off(polls: Seq<Poller>, n: int, active: u64)
    requires
        0 <= n < polls.len(),
        polls[0].failure_count() == 0,
        !polls[0].shown_unreachable(),
        forall|i: int| 0 <= i < n ==> after_failure(#[trigger] polls[i], polls[i + 1]),
    ensures
        polls[n].failure_count() == n,
        polls[n].shown_unreachable() == (n >= FAILURES_BEFORE_UNREACHABLE),
        (cadence_of(polls[n].failure_count(), active) == Cadence::Backoff) == (n >= FAILURES_BEFORE_UNREACHABLE),
    decreases n,
{
    if n > 0 {
        lemma_failures_back_off(polls, n - 1, active);
        assert(after_failure(polls[n - 1], polls[n]));
    }
}

} // verus!

verus! {

/// Which sources have had their seed policy sent to the current client: rtorrent forgets
/// it on restart, so a new client handle starts with none.
#[derive(Debug)]
pub struct Seeding {
    client: Option<u64>,
    seeded: Vec<i64>,
}

impl Seeding {
    /// The client handle the set belongs to.
    pub closed spec fn current(&self) -> Option<u64> {
        self.client
    }

    /// The sources whose policy the current client has.
    pub closed spec fn sent(&self) -> Set<i64> {
        self.seeded@.to_set()
    }

    /// No client yet, nothing sent.
    pub fn new() -> (s: Seeding)
        ensures
            s.current() is None,
            s.sent() == Set::<i64>::empty(),
    {
        let s = Seeding { client: None, seeded: Vec::new() };
        proof {
            assert(s.seeded@.to_set() =~= Set::<i64>::empty());
        }
        s
    }

    /// Polls through client handle `client`: a different handle than last time forgets
    /// every policy sent.
    pub fn use_client(&mut self, client: u64)
        ensures
            final(self).current() == Some(client),
            final(self).sent() == (if old(self).current() == Some(client) {
                old(self).sent()
            } else {
                Set::<i64>::empty()
            }),
    {
        match self.client {
            Some(c) if c == client => {},
            _ => {
                self.client = Some(client);
                self.seeded = Vec::new();
                proof {
                    assert(self.seeded@.to_set() =~= Set::<i64>::empty());
                }
            },
        }
    }

    /// Whether `source`'s policy still has to be sent to the current client.
    pub fn needs(&self, source: i64) -> (r: bool)
        ensures
            r == !self.sent().contains(source),
    {
        let mut i: usize = 0;
        while i < self.seeded.len()
            invariant
                i <= self.seeded@.len(),
                forall|k: int| 0 <= k < i ==> self.seeded@[k] != source,
            decreases self.seeded.len() - i,
        {
            if self.seeded[i] == source {
                proof {
                    assert(self.seeded@.to_set().contains(source));
                }
                return false;
            }
            i = i + 1;
        }
        proof {
            if self.seeded@.to_set().contains(source) {
                let k = choose|k: int| 0 <= k < self.seeded@.len() && self.seeded@[k] == source;
                assert(self.seeded@[k] != source);
            }
        }
        true
    }

    /// Records that the current client took `source`'s policy.
    pub fn sent_to_client(&mut self, source: i64)
        ensures
            final(self).current() == old(self).current(),
            final(self).sent() == old(self).sent().insert(source),
    {
        let ghost before = self.seeded@;
        self.seeded.push(source);
        proof {
            assert(self.seeded@.to_set() =~= before.to_set().insert(source)) by {
                assert forall|x: i64| self.seeded@.to_set().contains(x) implies before.to_set().insert(source).contains(x) by {
                    let k = choose|k: int| 0 <= k < self.seeded@.len() && self.seeded@[k] == x;
                    if k < before.len() {
                        assert(before[k] == x);
                    }
                }
                assert forall|x: i64| before.to_set().insert(source).contains(x) implies self.seeded@.to_set().contains(x) by {
                    if x == source {
                        assert(self.seeded@[before.len() as int] == source);
                    } else {
                        let k = choose|k: int| 0 <= k < before.len() && before[k] == x;
                        assert(self.seeded@[k] == x);
                    }
                }
            }
        }
    }
}

/// What one tick's source polls add up to, in order, stopping at the first client failure:
/// whether the client failed, and whether it answered for a torrent before that.
pub fn tick_outcome(polls: &Vec<Option<bool>>) -> (r: (bool, bool))
    ensures
        r.0 == exists|i: int| 0 <= i < polls@.len() && polls@[i] is None,
        r.1 == exists|i: int| 0 <= i < polls@.len() && polls@[i] == Some(true) && forall|j: int| 0 <= j < i ==> polls@[j] is Some,
{
    let mut answered = false;
    let mut i: usize = 0;
    while i < polls.len()
        invariant
            i <= polls@.len(),
            forall|j: int| 0 <= j < i ==> polls@[j] is Some,
            answered == exists|k: int| 0 <= k < i && polls@[k] == Some(true),
        decreases polls.len() - i,
    {
        match polls[i] {
            None => {
                proof {
                    assert forall|k: int| 0 <= k < polls@.len() && polls@[k] == Some(true) && (forall|j: int| 0 <= j < k ==> polls@[j] is Some) implies k < i by {
                        if k >= i {
                            if k > i {
                                assert(polls@[i as int] is Some);
                            }
                        }
                    }
                }
                return (true, answered);
            },
            Some(true) => {
                answered = true;
            },
            Some(false) => {},
        }
        i = i + 1;
    }
    (false, answered)
}

} // verus!
