//! The I/O class of the daemon's threads: idle while a core runs, the default otherwise.

use vstd::prelude::*;

use crate::jobs::chd::{digits_value, is_digit};

verus! {

/// Where Linux lists this process's threads.
pub const TASK_DIR: &'static str = "/proc/self/task";

/// Listings of the task directory per switch; a pass that finds no new thread ends it.
pub const MAX_PASSES: usize = 4;

/// The I/O class a thread runs in, as `ionice -c` numbers it.
#[derive(Debug, Clone, Copy, PartialEq, Eq, Structural)]
pub enum IoClass {
    /// Class "none": the kernel derives a best-effort level from the thread's `nice`.
    Default,
    /// Class "idle": served only when no other process wants the disk.
    Idle,
}

/// The `ionice -c` argument of a class.
pub open spec fn class_arg(c: IoClass) -> Seq<char> {
    match c {
        IoClass::Default => "0"@,
        IoClass::Idle => "3"@,
    }
}

impl IoClass {
    /// The class for a board with or without a core loaded.
    pub fn for_core(core_running: bool) -> (c: IoClass)
        ensures
            c == (if core_running { IoClass::Idle } else { IoClass::Default }),
    {
        if core_running {
            IoClass::Idle
        } else {
            IoClass::Default
        }
    }

    /// The `ionice -c` argument, which `BusyBox` and util-linux both accept.
    pub fn arg(self) -> (s: &'static str)
        ensures
            s@ == class_arg(self),
    {
        match self {
            IoClass::Default => "0",
            IoClass::Idle => "3",
        }
    }
}

/// Why a thread's class could not be set.
#[derive(Debug)]
pub enum PriorityError {
    /// The tool is not installed; no later switch can succeed either.
    NoTool,
    /// The thread list could not be read.
    Threads(std::io::Error),
    /// The tool ran and refused, for example because the thread has exited.
    Failed(String),
}

/// Sets one thread's I/O class.
pub trait SetClass {
    /// Applies `class` to thread `tid`: [`PriorityError::NoTool`] when nothing can set
    /// it, [`PriorityError::Failed`] otherwise.
    fn set(&self, tid: u32, class: IoClass) -> Result<(), PriorityError>;
}

/// Runs `ionice -c CLASS -p TID`, a form `BusyBox` and util-linux both accept.
#[derive(Debug, Clone)]
pub struct Ionice {
    program: String,
}

impl Ionice {
    /// The program run.
    pub closed spec fn spec_program(&self) -> Seq<char> {
        self.program@
    }

    /// Uses `program`, looked up on `PATH` when it has no directory part.
    pub fn new(program: &str) -> (i: Ionice)
        ensures
            i.spec_program() == program@,
    {
        Ionice { program: program.to_string() }
    }

    /// The program run.
    pub fn program(&self) -> (p: &str)
        ensures
            p@ == self.spec_program(),
    {
        self.program.as_str()
    }
}

/// The tids of `listed` not in `seen`, each once, in listing order.
pub open spec fn fresh_of(seen: Seq<u32>, listed: Seq<u32>) -> Seq<u32>
    decreases listed.len(),
{
    if listed.len() == 0 {
        Seq::empty()
    } else {
        let before = fresh_of(seen, listed.drop_last());
        let t = listed.last();
        if seen.contains(t) || before.contains(t) {
            before
        } else {
            before.push(t)
        }
    }
}

/// Moves the tids of `listed` not seen yet into `seen`, returning them in listing order,
/// each once, as inserting each into a set and keeping those it did not hold.
pub fn fresh(seen: &mut Vec<u32>, listed: &Vec<u32>) -> (f: Vec<u32>)
    ensures
        f@ == fresh_of(old(seen)@, listed@),
        final(seen)@ == old(seen)@ + f@,
{
    let ghost start = seen@;
    let mut f: Vec<u32> = Vec::new();
    let mut i: usize = 0;
    while i < listed.len()
        invariant
            i <= listed@.len(),
            f@ == fresh_of(start, listed@.subrange(0, i as int)),
            seen@ == start + f@,
        decreases listed.len() - i,
    {
        let t = listed[i];
        proof {
            assert(listed@.subrange(0, i + 1).drop_last() == listed@.subrange(0, i as int));
        }
        let mut known = false;
        let mut k: usize = 0;
        while k < seen.len()
            invariant
                k <= seen@.len(),
                known == seen@.subrange(0, k as int).contains(t),
            decreases seen.len() - k,
        {
            if seen[k] == t {
                known = true;
            }
            proof {
                let a = seen@.subrange(0, k as int);
                assert(seen@.subrange(0, k + 1) == a.push(seen@[k as int]));
                assert(a.push(seen@[k as int])[k as int] == seen@[k as int]);
                if a.contains(t) {
                    let j = choose|j: int| 0 <= j < a.len() && a[j] == t;
                    assert(a.push(seen@[k as int])[j] == t);
                }
                if a.push(seen@[k as int]).contains(t) {
                    let j = choose|j: int| 0 <= j < a.len() + 1 && a.push(seen@[k as int])[j] == t;
                    if j < a.len() {
                        assert(a[j] == t);
                    }
                }
            }
            k = k + 1;
        }
        proof {
            assert(seen@.subrange(0, seen@.len() as int) == seen@);
            assert(seen@.contains(t) == (start.contains(t) || f@.contains(t))) by {
                if seen@.contains(t) {
                    let j = choose|j: int| 0 <= j < seen@.len() && seen@[j] == t;
                    if j < start.len() {
                        assert(start[j] == t);
                    } else {
                        assert(f@[j - start.len()] == t);
                    }
                }
                if start.contains(t) {
                    let j = choose|j: int| 0 <= j < start.len() && start[j] == t;
                    assert(seen@[j] == t);
                }
                if f@.contains(t) {
                    let j = choose|j: int| 0 <= j < f@.len() && f@[j] == t;
                    assert(seen@[start.len() + j] == t);
                }
            }
        }
        if !known {
            seen.push(t);
            f.push(t);
            proof {
                assert(seen@ == start + f@);
            }
        }
        i = i + 1;
    }
    proof {
        assert(listed@.subrange(0, listed@.len() as int) == listed@);
    }
    f
}

/// Every tid in `f` is in one of `lists`.
pub open spec fn all_listed(f: Seq<u32>, lists: Seq<Seq<u32>>) -> bool {
    forall|k: int| 0 <= k < f.len() ==> #[trigger] listed_in(f[k], lists)
}

/// Some listing holds `t`.
pub open spec fn listed_in(t: u32, lists: Seq<Seq<u32>>) -> bool {
    exists|p: int| 0 <= p < lists.len() && #[trigger] lists[p].contains(t)
}

proof fn lemma_fresh_from(seen: Seq<u32>, listed: Seq<u32>)
    ensures
        forall|k: int|
            0 <= k < fresh_of(seen, listed).len() ==> listed.contains(fresh_of(seen, listed)[k])
                && !seen.contains(fresh_of(seen, listed)[k]),
        fresh_of(seen, listed).no_duplicates(),
    decreases listed.len(),
{
    if listed.len() > 0 {
        lemma_fresh_from(seen, listed.drop_last());
        let before = fresh_of(seen, listed.drop_last());
        assert forall|k: int| 0 <= k < before.len() implies listed.contains(before[k]) by {
            let j = choose|j: int| 0 <= j < listed.drop_last().len() && listed.drop_last()[j] == before[k];
            assert(listed[j] == before[k]);
        }
        assert(listed[listed.len() - 1] == listed.last());
    }
}

/// The tids that successive listings `lists` hand out, each once, in the order first listed.
pub open spec fn seen_after(lists: Seq<Seq<u32>>) -> Seq<u32>
    decreases lists.len(),
{
    if lists.len() == 0 {
        Seq::empty()
    } else {
        let before = seen_after(lists.drop_last());
        before + fresh_of(before, lists.last())
    }
}

/// A switch may stop after `lists`: it listed [`MAX_PASSES`] times, or its last listing
/// found no new thread.
pub open spec fn passes_done(lists: Seq<Seq<u32>>) -> bool {
    ||| lists.len() == MAX_PASSES
    ||| lists.len() > 0 && fresh_of(seen_after(lists.drop_last()), lists.last()).len() == 0
}

/// `list` may return the tids `s`.
pub open spec fn lister_gave<L: Fn() -> Result<Vec<u32>, PriorityError>>(list: L, s: Seq<u32>) -> bool {
    exists|v: Vec<u32>| v@ == s && #[trigger] list.ensures((), Ok::<Vec<u32>, PriorityError>(v))
}

/// `list` may return a listing with at least one thread in it.
pub open spec fn lister_gave_some<L: Fn() -> Result<Vec<u32>, PriorityError>>(list: L) -> bool {
    exists|v: Vec<u32>| v@.len() > 0 && #[trigger] list.ensures((), Ok::<Vec<u32>, PriorityError>(v))
}

/// How many of `answers` are `Ok`.
pub open spec fn count_ok(answers: Seq<Result<(), PriorityError>>) -> nat
    decreases answers.len(),
{
    if answers.len() == 0 {
        0
    } else {
        count_ok(answers.drop_last()) + if answers.last() is Ok {
            1nat
        } else {
            0nat
        }
    }
}

proof fn lemma_count_ok_len(answers: Seq<Result<(), PriorityError>>)
    ensures
        count_ok(answers) <= answers.len(),
    decreases answers.len(),
{
    if answers.len() > 0 {
        lemma_count_ok_len(answers.drop_last());
    }
}

/// `set` was handed each of `tids` with `class`, in order, and answered `answers`.
pub open spec fn answered<S: Fn(u32, IoClass) -> Result<(), PriorityError>>(
    set: S,
    class: IoClass,
    tids: Seq<u32>,
    answers: Seq<Result<(), PriorityError>>,
) -> bool {
    &&& answers.len() == tids.len()
    &&& forall|k: int| 0 <= k < tids.len() ==> #[trigger] set.ensures((tids[k], class), answers[k])
}

/// What a switch of every listed thread to `class` comes to: on `Ok(n)`, the listings it
/// took end as [`passes_done`] says, each listed thread was handed to `set` once, with
/// `class`, none answered [`PriorityError::NoTool`], and `n` answered `Ok`; on an error,
/// it is a listing's own, or `NoTool` that `set` answered once a listing held a thread.
pub open spec fn applied<
    S: Fn(u32, IoClass) -> Result<(), PriorityError>,
    L: Fn() -> Result<Vec<u32>, PriorityError>,
>(set: S, list: L, class: IoClass, r: Result<usize, PriorityError>) -> bool {
    match r {
        Ok(n) => exists|lists: Seq<Seq<u32>>, answers: Seq<Result<(), PriorityError>>|
            #![trigger answered(set, class, seen_after(lists), answers)]
            {
                &&& lists.len() <= MAX_PASSES
                &&& forall|p: int| 0 <= p < lists.len() ==> #[trigger] lister_gave(list, lists[p])
                &&& passes_done(lists)
                &&& seen_after(lists).no_duplicates()
                &&& all_listed(seen_after(lists), lists)
                &&& answered(set, class, seen_after(lists), answers)
                &&& forall|k: int| 0 <= k < answers.len() ==> !(#[trigger] answers[k] matches Err(PriorityError::NoTool))
                &&& n == count_ok(answers)
            },
        Err(e) => {
            ||| e is NoTool && lister_gave_some(list) && exists|t: u32|
                #[trigger] set.ensures((t, class), Err::<(), PriorityError>(PriorityError::NoTool))
            ||| list.ensures((), Err::<Vec<u32>, PriorityError>(e))
        },
    }
}

/// Sets `class` on every thread the lister `list` returns, listing again until a pass finds
/// no new thread (at most [`MAX_PASSES`] passes), so one spawned by a thread not yet switched
/// is caught too. Each thread is handed to `set` once. Returns how many threads took the
/// class; a thread the tool refuses is skipped. [`PriorityError::NoTool`] from the setter,
/// or a listing error, ends the switch. See [`applied`].
pub fn apply<S: Fn(u32, IoClass) -> Result<(), PriorityError>, L: Fn() -> Result<Vec<u32>, PriorityError>>(
    set: &S,
    list: L,
    class: IoClass,
) -> (r: Result<usize, PriorityError>)
    requires
        list.requires(()),
        forall|t: u32, c: IoClass| #[trigger] (*set).requires((t, c)),
    ensures
        applied(*set, list, class, r),
{
    let mut seen: Vec<u32> = Vec::new();
    let mut done: usize = 0;
    let ghost mut lists: Seq<Seq<u32>> = Seq::empty();
    let ghost mut answers: Seq<Result<(), PriorityError>> = Seq::empty();
    let mut pass: usize = 0;
    while pass < MAX_PASSES
        invariant
            pass <= MAX_PASSES,
            lists.len() == pass,
            list.requires(()),
            forall|t: u32, c: IoClass| #[trigger] (*set).requires((t, c)),
            forall|p: int| 0 <= p < lists.len() ==> #[trigger] lister_gave(list, lists[p]),
            seen@.no_duplicates(),
            all_listed(seen@, lists),
            seen@ == seen_after(lists),
            answered(set, class, seen@, answers),
            forall|k: int| 0 <= k < answers.len() ==> !(#[trigger] answers[k] matches Err(PriorityError::NoTool)),
            done == count_ok(answers),
        decreases MAX_PASSES - pass,
    {
        let listed = match list() {
            Ok(v) => v,
            Err(e) => return Err(e),
        };
        let ghost before = seen@;
        let ghost lv = listed@;
        let fresh_tids = fresh(&mut seen, &listed);
        proof {
            lemma_fresh_from(before, lv);
            let nl = lists.push(lv);
            assert(nl[pass as int] == lv);
            assert(nl.drop_last() == lists);
            assert(nl.last() == lv);
            assert forall|k: int| 0 <= k < seen@.len() implies #[trigger] listed_in(seen@[k], nl) by {
                if k < before.len() {
                    assert(listed_in(before[k], lists));
                    let p = choose|p: int| 0 <= p < lists.len() && #[trigger] lists[p].contains(before[k]);
                    assert(nl[p] == lists[p]);
                    assert(nl[p].contains(seen@[k]));
                } else {
                    assert(seen@[k] == fresh_tids@[k - before.len()]);
                    assert(nl[pass as int].contains(seen@[k]));
                }
            }
            assert forall|a: int, b: int| 0 <= a < seen@.len() && 0 <= b < seen@.len() && a != b implies seen@[a] != seen@[b] by {
                if a < before.len() && b >= before.len() {
                    assert(!before.contains(fresh_tids@[b - before.len()]));
                    assert(before[a] == seen@[a]);
                } else if b < before.len() && a >= before.len() {
                    assert(!before.contains(fresh_tids@[a - before.len()]));
                    assert(before[b] == seen@[b]);
                } else if a >= before.len() && b >= before.len() {
                    assert(fresh_tids@[a - before.len()] != fresh_tids@[b - before.len()]);
                }
            }
            assert forall|p: int| 0 <= p < nl.len() implies #[trigger] lister_gave(list, nl[p]) by {
                if p < lists.len() {
                    assert(nl[p] == lists[p]);
                } else {
                    assert(list.ensures((), Ok::<Vec<u32>, PriorityError>(listed)));
                }
            }
            lists = nl;
        }
        if fresh_tids.len() == 0 {
            assert(passes_done(lists));
            proof {
                assert(seen@ == before);
                assert(answered(*set, class, seen_after(lists), answers));
            }
            return Ok(done);
        }
        proof {
            assert(lv.contains(fresh_tids@[0]));
            assert(list.ensures((), Ok::<Vec<u32>, PriorityError>(listed)));
        }
        let total = seen.len();
        let mut i: usize = 0;
        while i < fresh_tids.len()
            invariant
                i <= fresh_tids@.len(),
                total == seen@.len(),
                seen@ == before + fresh_tids@,
                total == before.len() + fresh_tids@.len(),
                forall|t: u32, c: IoClass| #[trigger] (*set).requires((t, c)),
                answers.len() == before.len() + i,
                forall|k: int| 0 <= k < answers.len() ==> #[trigger] set.ensures((seen@[k], class), answers[k]),
                forall|k: int| 0 <= k < answers.len() ==> !(#[trigger] answers[k] matches Err(PriorityError::NoTool)),
                done == count_ok(answers),
                lister_gave_some(list),
            decreases fresh_tids.len() - i,
        {
            let t = fresh_tids[i];
            let r = (*set)(t, class);
            proof {
                assert(seen@[before.len() + i] == t);
                let na = answers.push(r);
                assert(na.drop_last() == answers);
                assert(na.last() == r);
                answers = na;
            }
            match r {
                Ok(()) => {
                    proof {
                        lemma_count_ok_len(answers.drop_last());
                    }
                    done = done + 1;
                },
                Err(PriorityError::NoTool) => {
                    return Err(PriorityError::NoTool);
                },
                Err(_) => {},
            }
            i = i + 1;
        }
        pass = pass + 1;
    }
    assert(passes_done(lists));
    proof {
        assert(answered(*set, class, seen_after(lists), answers));
    }
    Ok(done)
}

/// The daemon's I/O class: the setter and the class last set.
pub struct IoPriority<S> {
    setter: S,
    current: IoClass,
}

impl<S: Fn(u32, IoClass) -> Result<(), PriorityError>> IoPriority<S> {
    /// The class last set.
    pub closed spec fn spec_current(&self) -> IoClass {
        self.current
    }

    /// The setter each thread's class goes through.
    pub closed spec fn setter(&self) -> S {
        self.setter
    }

    /// Starts at [`IoClass::Default`], the class the launcher leaves the daemon in.
    pub fn new(setter: S) -> (p: IoPriority<S>)
        ensures
            p.spec_current() == IoClass::Default,
            p.setter() == setter,
    {
        IoPriority { setter, current: IoClass::Default }
    }

    /// The class last set.
    pub fn current(&self) -> (c: IoClass)
        ensures
            c == self.spec_current(),
    {
        self.current
    }

    /// Sets `class` on every thread `list` returns through [`apply`] and records it; on
    /// failure the recorded class stays as it was. See [`applied`] for what the result says.
    pub fn switch<L: Fn() -> Result<Vec<u32>, PriorityError>>(&mut self, list: L, class: IoClass) -> (r: Result<usize, PriorityError>)
        requires
            list.requires(()),
            forall|t: u32, c: IoClass| #[trigger] old(self).setter().requires((t, c)),
        ensures
            final(self).setter() == old(self).setter(),
            final(self).spec_current() == if r is Ok {
                class
            } else {
                old(self).spec_current()
            },
            applied(old(self).setter(), list, class, r),
    {
        proof {
            assert(self.setter() == self.setter);
        }
        let set = match apply(&self.setter, list, class) {
            Ok(n) => n,
            Err(e) => return Err(e),
        };
        self.current = class;
        Ok(set)
    }

    /// Puts the calling thread `tid` in the default class before a launch, so a process it
    /// starts does not inherit the idle class. In the default class nothing needs doing.
    /// The launch records the class to restore and the setter's answer.
    pub fn enter_default(&self, tid: Option<u32>) -> (l: Launch)
        requires
            forall|t: u32, c: IoClass| #[trigger] self.setter().requires((t, c)),
        ensures
            l.class() == self.spec_current(),
            launched(self.setter(), self.spec_current(), tid, l),
    {
        if self.current == IoClass::Default {
            return Launch { class: IoClass::Default, answer: None };
        }
        match tid {
            Some(t) => {
                assert(self.setter() == self.setter);
                assert(self.setter.requires((t, IoClass::Default)));
                let a = (self.setter)(t, IoClass::Default);
                Launch { class: self.current, answer: Some(a) }
            },
            None => Launch { class: self.current, answer: None },
        }
    }

    /// Sets the class recorded at the launch `l` on every thread `list` returns again,
    /// covering any thread the launch left behind; nothing when it is the default class.
    pub fn restore<L: Fn() -> Result<Vec<u32>, PriorityError>>(&self, l: Launch, list: L) -> (r: Option<Result<usize, PriorityError>>)
        requires
            list.requires(()),
            forall|t: u32, c: IoClass| #[trigger] self.setter().requires((t, c)),
        ensures
            restored(self.setter(), list, l, r),
    {
        if l.class == IoClass::Default {
            return None;
        }
        proof {
            assert(self.setter() == self.setter);
        }
        let a = apply(&self.setter, list, l.class);
        Some(a)
    }

    /// Runs the work `f` at the default class: [`Self::enter_default`] first, whose launch
    /// `f` is handed, then [`Self::restore`] with the launch `f` hands back, so the class
    /// is restored only once the work is done. Returns what the work returns.
    pub fn at_default<T, F: FnOnce(Launch) -> (T, Launch), L: Fn() -> Result<Vec<u32>, PriorityError>>(
        &self,
        tid: Option<u32>,
        list: L,
        f: F,
    ) -> (out: T)
        requires
            forall|l: Launch| #[trigger] f.requires((l,)),
            list.requires(()),
            forall|t: u32, c: IoClass| #[trigger] self.setter().requires((t, c)),
        ensures
            exists|given: Launch, back: Launch|
                #![trigger f.ensures((given,), (out, back))]
                {
                    &&& launched(self.setter(), self.spec_current(), tid, given)
                    &&& f.ensures((given,), (out, back))
                    &&& exists|r: Option<Result<usize, PriorityError>>| #[trigger] restored(self.setter(), list, back, r)
                },
    {
        let given = self.enter_default(tid);
        let ghost g = given;
        let (out, back) = f(given);
        let ghost b = back;
        let r = self.restore(back, list);
        proof {
            assert(restored(self.setter(), list, b, r));
            assert(f.ensures((g,), (out, b)));
        }
        out
    }
}

/// A launch at the default class: the class to restore afterwards and what the setter
/// answered for the calling thread, if it was asked.
#[derive(Debug)]
pub struct Launch {
    class: IoClass,
    answer: Option<Result<(), PriorityError>>,
}

impl Launch {
    /// The class to restore after the launch.
    pub closed spec fn class(&self) -> IoClass {
        self.class
    }

    /// What the setter answered when the calling thread was put in the default class.
    pub closed spec fn answer(&self) -> Option<Result<(), PriorityError>> {
        self.answer
    }
}

/// `l` is the launch from class `current` for the calling thread `tid`: at the default
/// class, or without a thread id, the setter was not asked; otherwise it was handed `tid`
/// with the default class and `l` holds its answer.
pub open spec fn launched<S: Fn(u32, IoClass) -> Result<(), PriorityError>>(
    set: S,
    current: IoClass,
    tid: Option<u32>,
    l: Launch,
) -> bool {
    &&& l.class() == current
    &&& if current == IoClass::Default || tid is None {
        l.answer() is None
    } else {
        l.answer() matches Some(a) && set.ensures((tid->0, IoClass::Default), a)
    }
}

/// `r` is the restore after launch `l`: nothing at the default class, otherwise the switch
/// of every listed thread back to the launch's class, as [`applied`] says.
pub open spec fn restored<
    S: Fn(u32, IoClass) -> Result<(), PriorityError>,
    L: Fn() -> Result<Vec<u32>, PriorityError>,
>(set: S, list: L, l: Launch, r: Option<Result<usize, PriorityError>>) -> bool {
    if l.class() == IoClass::Default {
        r is None
    } else {
        r matches Some(a) && applied(set, list, l.class(), a)
    }
}

/// `s` without a leading `+`.
pub open spec fn unsigned_digits(s: Seq<char>) -> Seq<char> {
    if s.len() > 0 && s[0] == '+' {
        s.skip(1)
    } else {
        s
    }
}

/// `d` is one or more decimal digits.
pub open spec fn all_digits(d: Seq<char>) -> bool {
    d.len() > 0 && forall|i: int| 0 <= i < d.len() ==> #[trigger] is_digit(d[i])
}

/// What `u32::from_str` reads from `s`: an optional `+`, then one or more decimal digits
/// whose value fits in a `u32`; anything else is no number.
pub open spec fn parse_u32(s: Seq<char>) -> Option<u32> {
    let d = unsigned_digits(s);
    if all_digits(d) && digits_value(d) <= u32::MAX {
        Some(digits_value(d) as u32)
    } else {
        None
    }
}

/// The thread ids among directory entry `names`, in listing order: the names that are numbers.
pub open spec fn parsed_ids(names: Seq<String>) -> Seq<u32>
    decreases names.len(),
{
    if names.len() == 0 {
        Seq::empty()
    } else {
        let rest = parsed_ids(names.drop_last());
        match parse_u32(names.last()@) {
            Some(t) => rest.push(t),
            None => rest,
        }
    }
}

/// `s` in increasing order.
pub open spec fn ascending(s: Seq<u32>) -> bool {
    forall|i: int, j: int| 0 <= i < j < s.len() ==> s[i] <= s[j]
}

/// Reads `s` as `u32::from_str` does.
fn parse_tid(s: &str) -> (r: Option<u32>)
    ensures
        r == parse_u32(s@),
{
    let cs = crate::text::chars_of(s);
    let start: usize = if cs.len() > 0 && cs[0] == '+' {
        1
    } else {
        0
    };
    let ghost d = cs@.subrange(start as int, cs@.len() as int);
    proof {
        if start == 1 {
            assert(d =~= s@.skip(1));
        } else {
            assert(d =~= s@);
        }
    }
    if start == cs.len() {
        return None;
    }
    let mut cur: Option<u32> = Some(0);
    let mut i: usize = start;
    while i < cs.len()
        invariant
            start <= i <= cs@.len(),
            start < cs@.len(),
            cs@ == s@,
            d == cs@.subrange(start as int, cs@.len() as int),
            d == unsigned_digits(s@),
            forall|k: int| start <= k < i ==> #[trigger] is_digit(cs@[k]),
            match cur {
                Some(v) => v == digits_value(cs@.subrange(start as int, i as int)),
                None => digits_value(cs@.subrange(start as int, i as int)) > u32::MAX,
            },
        decreases cs.len() - i,
    {
        let c = cs[i];
        if !('0' <= c && c <= '9') {
            proof {
                assert(d[i - start] == c);
                assert(!is_digit(d[i - start]));
                assert(!all_digits(d));
            }
            return None;
        }
        let digit: u32 = (c as u32) - ('0' as u32);
        proof {
            assert(cs@.subrange(start as int, i + 1).drop_last() =~= cs@.subrange(start as int, i as int));
            assert(cs@.subrange(start as int, i + 1).last() == c);
        }
        cur = match cur {
            Some(v) => match v.checked_mul(10) {
                Some(w) => w.checked_add(digit),
                None => None,
            },
            None => None,
        };
        i = i + 1;
    }
    proof {
        assert(cs@.subrange(start as int, i as int) =~= d);
        assert forall|k: int| 0 <= k < d.len() implies #[trigger] is_digit(d[k]) by {
            assert(d[k] == cs@[start + k]);
        }
    }
    cur
}

/// The thread ids among the entry `names` of the task directory, in increasing order:
/// each name that is a number, as many times as it is listed.
pub fn thread_ids_of(names: &Vec<String>) -> (tids: Vec<u32>)
    ensures
        ascending(tids@),
        tids@.to_multiset() == parsed_ids(names@).to_multiset(),
{
    let mut v: Vec<u32> = Vec::new();
    let mut i: usize = 0;
    while i < names.len()
        invariant
            i <= names@.len(),
            ascending(v@),
            v@.to_multiset() == parsed_ids(names@.take(i as int)).to_multiset(),
        decreases names.len() - i,
    {
        proof {
            assert(names@.take(i + 1).drop_last() =~= names@.take(i as int));
            assert(names@.take(i + 1).last() == names@[i as int]);
        }
        match parse_tid(names[i].as_str()) {
            Some(x) => {
                let mut k: usize = 0;
                while k < v.len() && v[k] <= x
                    invariant
                        k <= v@.len(),
                        forall|j: int| 0 <= j < k ==> v@[j] <= x,
                    decreases v.len() - k,
                {
                    k = k + 1;
                }
                let ghost old_v = v@;
                v.insert(k, x);
                proof {
                    vstd::seq_lib::to_multiset_insert(old_v, k as int, x);
                    vstd::seq_lib::to_multiset_build(parsed_ids(names@.take(i as int)), x);
                    assert forall|a: int, b: int| 0 <= a < b < v@.len() implies v@[a] <= v@[b] by {
                        if b < k {
                            assert(v@[a] == old_v[a] && v@[b] == old_v[b]);
                        } else if b == k {
                            assert(v@[a] == old_v[a]);
                        } else if a < k {
                            assert(v@[a] == old_v[a] && v@[b] == old_v[b - 1]);
                            assert(old_v[k as int] > x);
                        } else if a == k {
                            assert(v@[b] == old_v[b - 1]);
                            assert(old_v[k as int] > x);
                        } else {
                            assert(v@[a] == old_v[a - 1] && v@[b] == old_v[b - 1]);
                        }
                    }
                }
            },
            None => {},
        }
        i = i + 1;
    }
    proof {
        assert(names@.take(names@.len() as int) =~= names@);
    }
    v
}

} // verus!
