//! Live job progress: counting the bytes a job reads, and throttling its reports.

use std::collections::HashMap;

use vstd::prelude::*;

verus! {

broadcast use vstd::function::group_function_axioms;

/// Shortest gap between two live reports of one job in the same phase, in milliseconds.
pub const REPORT_EVERY_MS: u64 = 250;

/// `Read::read` on `inner`. The standard library documents that a successful read
/// returns at most the buffer's length; that is all this states.
#[verifier::external_body]
fn read_into<R: std::io::Read>(inner: &mut R, buf: &mut [u8]) -> (r: std::io::Result<usize>)
    ensures
        final(buf)@.len() == old(buf)@.len(),
        r matches Ok(n) ==> n <= old(buf)@.len(),
{
    inner.read(buf)
}

/// A reader that counts the bytes it hands out and passes the running total to a
/// callback.
pub struct CountingReader<R, F> {
    inner: R,
    read: u64,
    on_read: F,
}

impl<R, F> CountingReader<R, F> {
    /// The bytes read so far.
    pub closed spec fn total(&self) -> u64 {
        self.read
    }

    /// Wraps `inner`; `on_read` gets the total after every read that returned bytes.
    pub fn new(inner: R, on_read: F) -> (r: Self)
        ensures
            r.total() == 0,
            r.callback() == on_read,
    {
        CountingReader { inner, read: 0, on_read }
    }

    /// The callback that gets each new total.
    pub closed spec fn callback(&self) -> F {
        self.on_read
    }

    /// Bytes read so far.
    pub fn count(&self) -> (n: u64)
        ensures
            n == self.total(),
    {
        self.read
    }
}

impl<R: std::io::Read, F: FnMut(u64)> CountingReader<R, F> {
    /// Reads into `buf` and counts what was read; the callback gets the new total when
    /// the read returned bytes.
    pub fn read(&mut self, buf: &mut [u8]) -> (r: std::io::Result<usize>)
        requires
            old(self).total() + old(buf)@.len() <= u64::MAX,
            forall|n: u64| #[trigger] old(self).callback().requires((n,)),
        ensures
            r matches Ok(n) && n > 0 ==> old(self).callback().ensures((final(self).total(),), ()),
            final(self).callback() == old(self).callback(),
            final(buf)@.len() == old(buf)@.len(),
            r matches Ok(n) ==> n <= old(buf)@.len(),
            match r {
                Ok(n) => final(self).total() == old(self).total() + n,
                Err(_) => final(self).total() == old(self).total(),
            },
    {
        let r = read_into(&mut self.inner, buf);
        if let Ok(n) = r {
            if n > 0 {
                self.read = self.read + n as u64;
                let total = self.read;
                proof {
                    assert(old(self).callback() == self.on_read);
                    assert(self.on_read.requires((total,)));
                }
                (self.on_read)(total);
            }
        }
        r
    }
}

/// The bytes of a series of reads, added up.
pub open spec fn sum_reads(ns: Seq<usize>) -> nat
    decreases ns.len(),
{
    if ns.len() == 0 {
        0
    } else {
        sum_reads(ns.drop_last()) + ns.last() as nat
    }
}

/// The count is the sum of the reads: a reader that starts at 0 (as `new` leaves it) and
/// goes through reads returning `Ok(ns[k])`, each adding its bytes as `read` states,
/// counts the sum of them all.
pub proof fn lemma_count_is_sum_of_reads<R, F>(readers: Seq<CountingReader<R, F>>, ns: Seq<usize>)
    requires
        readers.len() == ns.len() + 1,
        readers[0].total() == 0,
        forall|k: int| 0 <= k < ns.len() ==> #[trigger] readers[k + 1].total() == readers[k].total() + ns[k],
    ensures
        readers.last().total() == sum_reads(ns),
    decreases ns.len(),
{
    if ns.len() > 0 {
        let rs = readers.drop_last();
        let nn = ns.drop_last();
        assert forall|k: int| 0 <= k < nn.len() implies #[trigger] rs[k + 1].total() == rs[k].total() + nn[k] by {
            assert(rs[k + 1] == readers[k + 1]);
            assert(readers[k + 1].total() == readers[k].total() + ns[k]);
        }
        lemma_count_is_sum_of_reads(rs, nn);
        assert(readers[ns.len() as int].total() == readers[ns.len() - 1].total() + ns[ns.len() - 1]);
    }
}

/// Lets a report through when its phase changed or the gap has passed.
#[derive(Debug, Clone)]
pub struct Throttle {
    every: u64,
    last: Option<(u64, String)>,
}

/// Whether a report in `phase` at `now` passes after the last one that did.
pub open spec fn passes(every: u64, last: Option<(u64, String)>, now: u64, phase: Seq<char>) -> bool {
    match last {
        None => true,
        Some((at, p)) => p@ != phase || (if now >= at { now - at } else { 0 }) >= every,
    }
}

impl Throttle {
    /// The gap in milliseconds.
    pub closed spec fn gap(&self) -> u64 {
        self.every
    }

    /// The time and phase of the last report that passed.
    pub closed spec fn last_passed(&self) -> Option<(u64, String)> {
        self.last
    }

    /// A throttle passing at most one report per `every` milliseconds within a phase.
    pub fn new(every: u64) -> (t: Throttle)
        ensures
            t.gap() == every,
            t.last_passed() is None,
    {
        Throttle { every, last: None }
    }

    /// The gap this throttle keeps.
    pub fn every(&self) -> (e: u64)
        ensures
            e == self.gap(),
    {
        self.every
    }

    /// True, and remembered as the last report, when a report in `phase` at `now` (in
    /// milliseconds on a monotonic clock) may go out; a clock that went back counts as
    /// no time passed.
    pub fn due(&mut self, now: u64, phase: &str) -> (pass: bool)
        ensures
            pass == passes(old(self).gap(), old(self).last_passed(), now, phase@),
            final(self).gap() == old(self).gap(),
            pass ==> (final(self).last_passed() matches Some((at, p)) && at == now && p@ == phase@),
            !pass ==> final(self).last_passed() == old(self).last_passed(),
    {
        let pass = match &self.last {
            None => true,
            Some((at, last)) => !crate::text::str_is(last.as_str(), phase) || now.saturating_sub(*at) >= self.every,
        };
        if pass {
            self.last = Some((now, phase.to_string()));
        }
        pass
    }
}

/// Within one phase, reports pass at most once per gap: after a report at `at`, another
/// in the same phase passes only once `every` has gone by; a new phase passes at once.
pub proof fn lemma_one_report_per_gap(every: u64, at: u64, phase: String, now: u64, next: Seq<char>)
    requires
        every > 0,
    ensures
        next == phase@ && passes(every, Some((at, phase)), now, next) ==> now >= at + every,
        next != phase@ ==> passes(every, Some((at, phase)), now, next),
{
}

/// What [`LiveProgress::overlay`] reads and writes of a job row.
#[derive(Debug, Clone)]
pub struct LiveRow<V> {
    /// The job's id.
    pub id: i64,
    /// Whether the job is running.
    pub running: bool,
    /// Its progress.
    pub progress: Option<V>,
}

/// The latest live progress of each running job, by job id, never written to the
/// database.
#[derive(Debug)]
pub struct LiveProgress<V> {
    jobs: HashMap<i64, V>,
}

impl<V> View for LiveProgress<V> {
    type V = Map<i64, V>;

    closed spec fn view(&self) -> Map<i64, V> {
        self.jobs@
    }
}

/// Reads give back the last write of their own job: a set value until it is cleared,
/// and nothing after; other jobs' progress is untouched by either.
pub proof fn lemma_live_reads_last_write<V>(m: Map<i64, V>, id: i64, p: V, other: i64)
    requires
        other != id,
    ensures
        m.insert(id, p).contains_key(id) && m.insert(id, p)[id] == p,
        !m.insert(id, p).remove(id).contains_key(id),
        m.insert(id, p).contains_key(other) == m.contains_key(other),
        m.remove(id).contains_key(other) == m.contains_key(other),
        m.contains_key(other) ==> m.insert(id, p)[other] == m[other] && m.remove(id)[other] == m[other],
{
}

impl<V: Clone> LiveProgress<V> {
    /// No job has live progress.
    pub fn new() -> (l: Self)
        ensures
            l@ == Map::<i64, V>::empty(),
    {
        LiveProgress { jobs: HashMap::new() }
    }

    /// Records `progress` as job `id`'s latest.
    pub fn set(&mut self, id: i64, progress: V)
        ensures
            final(self)@ == old(self)@.insert(id, progress),
    {
        broadcast use vstd::std_specs::hash::group_hash_axioms;
        self.jobs.insert(id, progress);
    }

    /// Job `id`'s latest live progress, a clone of what was recorded.
    pub fn get(&self, id: i64) -> (r: Option<V>)
        ensures
            match r {
                Some(p) => self@.contains_key(id) && cloned::<V>(self@[id], p),
                None => !self@.contains_key(id),
            },
    {
        broadcast use vstd::std_specs::hash::group_hash_axioms;
        match self.jobs.get(&id) {
            Some(p) => Some(p.clone()),
            None => None,
        }
    }

    /// Forgets job `id`, once it has finished.
    pub fn clear(&mut self, id: i64)
        ensures
            final(self)@ == old(self)@.remove(id),
    {
        broadcast use vstd::std_specs::hash::group_hash_axioms;
        self.jobs.remove(&id);
    }

    /// Replaces the stored progress of each running row with its live progress, if any;
    /// every other row, and every other field, stays as it is.
    pub fn overlay(&self, rows: &mut Vec<LiveRow<V>>)
        ensures
            final(rows)@.len() == old(rows)@.len(),
            forall|i: int| #![trigger final(rows)@[i]] 0 <= i < old(rows)@.len() ==> {
                let (was, now) = (old(rows)@[i], final(rows)@[i]);
                &&& now.id == was.id
                &&& now.running == was.running
                &&& if was.running && self@.contains_key(was.id) {
                    now.progress matches Some(p) && cloned::<V>(self@[was.id], p)
                } else {
                    now.progress == was.progress
                }
            },
    {
        broadcast use vstd::std_specs::hash::group_hash_axioms;
        let ghost before = rows@;
        let mut i: usize = 0;
        while i < rows.len()
            invariant
                i <= rows@.len(),
                rows@.len() == before.len(),
                forall|k: int| #![trigger rows@[k]] i <= k < rows@.len() ==> rows@[k] == before[k],
                forall|k: int| #![trigger rows@[k]] 0 <= k < i ==> {
                    let (was, now) = (before[k], rows@[k]);
                    &&& now.id == was.id
                    &&& now.running == was.running
                    &&& if was.running && self@.contains_key(was.id) {
                        now.progress matches Some(p) && cloned::<V>(self@[was.id], p)
                    } else {
                        now.progress == was.progress
                    }
                },
            decreases rows.len() - i,
        {
            if rows[i].running {
                let id = rows[i].id;
                match self.jobs.get(&id) {
                    Some(p) => {
                        let row = LiveRow { id, running: true, progress: Some(p.clone()) };
                        rows.set(i, row);
                    },
                    None => {},
                }
            }
            i = i + 1;
        }
    }
}

} // verus!
