//! Importing a zip an MRA names: how the md5 checks of the `<rom>`s it feeds combine
//! into a verdict, and what becomes of the zip: placed, quarantined or refused.

use vstd::prelude::*;
use crate::jobs::import::support::{EntryRom, Hashed, SetMatch, match_members, matches_pairing, pairing, absent_names};
use crate::jobs::scan::FileState;
use crate::assoc::copy_texts;
use crate::sort::lex_le;

verus! {

// ---------------------------------------------------------------------------
// Combining the checks

/// The outcome of one `<rom>` index the zip feeds, better first.
#[derive(Debug, Clone, PartialEq, Eq)]
pub enum Outcome {
    /// Its md5 matched.
    Match,
    /// The md5 applies but cannot decide this zip yet, and why.
    Open(String),
    /// Its md5 did not match, and how.
    Mismatch(String),
    /// The assembler does not implement what the MRA asks for, and what.
    Refused(String),
}

/// How bad an outcome is: the worse, the higher.
pub open spec fn rank(o: Outcome) -> int {
    match o {
        Outcome::Match => 0,
        Outcome::Open(_) => 1,
        Outcome::Mismatch(_) => 2,
        Outcome::Refused(_) => 3,
    }
}

/// The text an outcome carries.
pub open spec fn text_of(o: Outcome) -> Seq<char> {
    match o {
        Outcome::Match => Seq::empty(),
        Outcome::Open(t) => t@,
        Outcome::Mismatch(t) => t@,
        Outcome::Refused(t) => t@,
    }
}

/// `a` comes before `b`: by how bad it is, then by its text.
pub open spec fn before(a: Outcome, b: Outcome) -> bool {
    rank(a) < rank(b) || (rank(a) == rank(b) && text_of(a) != text_of(b) && lex_le(text_of(a), text_of(b)))
}

/// The outcome kept for each index, in the order the indexes first come: the first of
/// the best outcomes of that index, once a match no outcome replaces.
pub open spec fn kept(outcomes: Seq<(u32, Outcome)>) -> Seq<(u32, Outcome)>
    decreases outcomes.len(),
{
    if outcomes.len() == 0 {
        Seq::empty()
    } else {
        let s = kept(outcomes.drop_last());
        let c = outcomes.last();
        let k = slot_of(s, c.0);
        if k < 0 {
            s.push(c)
        } else if s[k].1 != Outcome::Match && before(c.1, s[k].1) {
            s.update(k, c)
        } else {
            s
        }
    }
}

/// The position in `s` of index `ix`, found from the end, or -1.
pub open spec fn slot_of(s: Seq<(u32, Outcome)>, ix: u32) -> int
    decreases s.len(),
{
    if s.len() == 0 {
        -1
    } else if s.last().0 == ix {
        s.len() - 1
    } else {
        slot_of(s.drop_last(), ix)
    }
}

/// The worst of `s`'s outcomes.
pub open spec fn worst(s: Seq<(u32, Outcome)>) -> Option<Outcome>
    decreases s.len(),
{
    if s.len() == 0 {
        None
    } else {
        match worst(s.drop_last()) {
            Some(w) => if before(s.last().1, w) {
                Some(w)
            } else {
                Some(s.last().1)
            },
            None => Some(s.last().1),
        }
    }
}

/// What the MRA says about a staged zip.
#[derive(Debug, Clone, PartialEq, Eq)]
pub enum Verdict {
    /// Every `<rom>` index the zip feeds matched its md5; the members the matching
    /// alternatives read, as `(zip path, member name)`.
    Match(Vec<(String, String)>),
    /// The md5 applies but cannot decide this zip yet, and why.
    Open(String),
    /// A `<rom>` the zip feeds does not match its md5.
    Mismatch(String),
    /// Parts naming this zip that are in none of their zips.
    Missing(Vec<String>),
    /// The assembler does not implement what the MRA asks for.
    Refused(String),
    /// Some `<rom>` index the zip feeds carries no md5.
    NoMd5,
}

/// The verdict of the outcomes of the `<rom>`s a zip feeds, in MRA order, with the
/// members the matching ones read: the worst kept outcome decides.
pub open spec fn verdict_of(outcomes: Seq<(u32, Outcome)>, read: Vec<(String, String)>) -> Verdict {
    match worst(kept(outcomes)) {
        None => Verdict::Match(read),
        Some(Outcome::Match) => Verdict::Match(read),
        Some(Outcome::Open(why)) => Verdict::Open(why),
        Some(Outcome::Mismatch(why)) => Verdict::Mismatch(why),
        Some(Outcome::Refused(why)) => Verdict::Refused(why),
    }
}

/// The rank of an outcome.
fn rank_of(o: &Outcome) -> (r: u8)
    ensures
        r == rank(*o),
{
    match o {
        Outcome::Match => 0,
        Outcome::Open(_) => 1,
        Outcome::Mismatch(_) => 2,
        Outcome::Refused(_) => 3,
    }
}

/// The text an outcome carries.
fn text(o: &Outcome) -> (t: String)
    ensures
        t@ == text_of(*o),
{
    match o {
        Outcome::Match => String::new(),
        Outcome::Open(t) => t.clone(),
        Outcome::Mismatch(t) => t.clone(),
        Outcome::Refused(t) => t.clone(),
    }
}

/// Whether `a` comes before `b`.
fn is_before(a: &Outcome, b: &Outcome) -> (r: bool)
    ensures
        r == before(*a, *b),
{
    let (ra, rb) = (rank_of(a), rank_of(b));
    if ra != rb {
        return ra < rb;
    }
    let (ta, tb) = (text(a), text(b));
    !crate::text::string_eq(&ta, &tb) && crate::sort::text_le(&ta, &tb)
}

/// A copy of an outcome.
fn copy_outcome(o: &Outcome) -> (r: Outcome)
    ensures
        r == *o,
{
    match o {
        Outcome::Match => Outcome::Match,
        Outcome::Open(t) => Outcome::Open(t.clone()),
        Outcome::Mismatch(t) => Outcome::Mismatch(t.clone()),
        Outcome::Refused(t) => Outcome::Refused(t.clone()),
    }
}

/// The members the checked `<rom>`s read, as `(zip path, member name)`, counting only
/// the `<rom>`s whose md5 matched: a member read only by a failed alternative is not read.
pub open spec fn matched_reads(checks: Seq<(Outcome, Vec<(String, String)>)>) -> Seq<(String, String)>
    decreases checks.len(),
{
    if checks.len() == 0 {
        Seq::empty()
    } else {
        let last = checks.last();
        matched_reads(checks.drop_last()) + if last.0 is Match {
            last.1@
        } else {
            Seq::empty()
        }
    }
}

/// The members the `<rom>`s checked read, each check given with the members it read:
/// those of matching checks only, in order. See [`matched_reads`].
pub fn read_by_matches(checks: &Vec<(Outcome, Vec<(String, String)>)>) -> (read: Vec<(String, String)>)
    ensures
        read@ == matched_reads(checks@),
{
    let mut read: Vec<(String, String)> = Vec::new();
    let mut i: usize = 0;
    while i < checks.len()
        invariant
            i <= checks@.len(),
            read@ == matched_reads(checks@.subrange(0, i as int)),
        decreases checks.len() - i,
    {
        proof {
            assert(checks@.subrange(0, i + 1).drop_last() == checks@.subrange(0, i as int));
            assert(checks@.subrange(0, i + 1).last() == checks@[i as int]);
        }
        let matched = match &checks[i].0 {
            Outcome::Match => true,
            _ => false,
        };
        if matched {
            let members = &checks[i].1;
            let ghost before = read@;
            let mut j: usize = 0;
            while j < members.len()
                invariant
                    j <= members@.len(),
                    read@ == before + members@.subrange(0, j as int),
                decreases members.len() - j,
            {
                let m = (members[j].0.clone(), members[j].1.clone());
                read.push(m);
                proof {
                    assert(members@.subrange(0, j + 1) == members@.subrange(0, j as int).push(members@[j as int]));
                }
                j = j + 1;
            }
            proof {
                assert(members@.subrange(0, members@.len() as int) == members@);
            }
        } else {
            proof {
                assert(read@ == read@ + Seq::<(String, String)>::empty());
            }
        }
        i = i + 1;
    }
    proof {
        assert(checks@.subrange(0, checks@.len() as int) == checks@);
    }
    read
}

/// The verdict of the outcomes of the `<rom>`s a zip feeds, in MRA order; `read` holds
/// the members the matching ones read. See [`verdict_of`].
pub fn verdict(outcomes: &Vec<(u32, Outcome)>, read: Vec<(String, String)>) -> (v: Verdict)
    ensures
        v == verdict_of(outcomes@, read),
{
    let mut slots: Vec<(u32, Outcome)> = Vec::new();
    let mut i: usize = 0;
    while i < outcomes.len()
        invariant
            i <= outcomes@.len(),
            slots@ == kept(outcomes@.subrange(0, i as int)),
        decreases outcomes.len() - i,
    {
        proof {
            assert(outcomes@.subrange(0, i + 1).drop_last() == outcomes@.subrange(0, i as int));
            assert(outcomes@.subrange(0, i + 1).last() == outcomes@[i as int]);
            lemma_slot_of_range(slots@, outcomes@[i as int].0);
        }
        let ix = outcomes[i].0;
        let c = copy_outcome(&outcomes[i].1);
        let found = find_slot(&slots, ix);
        match found {
            Some(k) => {
                let settled = match &slots[k].1 {
                    Outcome::Match => true,
                    _ => false,
                };
                if !settled && is_before(&c, &slots[k].1) {
                    slots.set(k, (ix, c));
                }
            },
            None => {
                slots.push((ix, c));
            },
        }
        i = i + 1;
    }
    proof {
        assert(outcomes@.subrange(0, outcomes@.len() as int) == outcomes@);
    }
    let mut w: Option<usize> = None;
    let mut j: usize = 0;
    while j < slots.len()
        invariant
            j <= slots@.len(),
            match worst(slots@.subrange(0, j as int)) {
                Some(o) => (w matches Some(b) && b < j && slots@[b as int].1 == o),
                None => w is None,
            },
        decreases slots.len() - j,
    {
        proof {
            assert(slots@.subrange(0, j + 1).drop_last() == slots@.subrange(0, j as int));
            assert(slots@.subrange(0, j + 1).last() == slots@[j as int]);
        }
        let take = match w {
            Some(b) => !is_before(&slots[j].1, &slots[b].1),
            None => true,
        };
        if take {
            w = Some(j);
        }
        j = j + 1;
    }
    proof {
        assert(slots@.subrange(0, slots@.len() as int) == slots@);
    }
    match w {
        None => Verdict::Match(read),
        Some(b) => match &slots[b].1 {
            Outcome::Match => Verdict::Match(read),
            Outcome::Open(why) => Verdict::Open(why.clone()),
            Outcome::Mismatch(why) => Verdict::Mismatch(why.clone()),
            Outcome::Refused(why) => Verdict::Refused(why.clone()),
        },
    }
}

/// Where index `ix` sits among `slots`, found from the end.
fn find_slot(slots: &Vec<(u32, Outcome)>, ix: u32) -> (r: Option<usize>)
    ensures
        match r {
            Some(k) => k as int == slot_of(slots@, ix) && k < slots@.len(),
            None => slot_of(slots@, ix) == -1,
        },
{
    let mut k = slots.len();
    proof {
        assert(slots@.subrange(0, k as int) == slots@);
        lemma_slot_of_range(slots@, ix);
    }
    while k > 0
        invariant
            k <= slots@.len(),
            slot_of(slots@, ix) == slot_of(slots@.subrange(0, k as int), ix),
        decreases k,
    {
        proof {
            assert(slots@.subrange(0, k as int).drop_last() == slots@.subrange(0, k - 1));
        }
        if slots[k - 1].0 == ix {
            return Some(k - 1);
        }
        k = k - 1;
    }
    None
}

proof fn lemma_slot_of_range(s: Seq<(u32, Outcome)>, ix: u32)
    ensures
        -1 <= slot_of(s, ix) < s.len(),
        slot_of(s, ix) >= 0 ==> s[slot_of(s, ix)].0 == ix,
    decreases s.len(),
{
    if s.len() > 0 && s.last().0 != ix {
        lemma_slot_of_range(s.drop_last(), ix);
    }
}

/// Whether some `<rom>` of `fed` with index `ix` carries an md5.
pub open spec fn covered(fed: Seq<(u32, bool)>, ix: u32) -> bool {
    exists|j: int| 0 <= j < fed.len() && (#[trigger] fed[j]).0 == ix && fed[j].1
}

/// The verdict on a staged zip: the parts it lacks first, then whether every `<rom>`
/// index it feeds carries an md5 (`fed` lists the index of each `<rom>` it feeds and
/// whether that one carries an md5), then the outcomes of the checks.
pub open spec fn examine_of(missing: Vec<String>, fed: Seq<(u32, bool)>, outcomes: Seq<(u32, Outcome)>, read: Vec<(String, String)>) -> Verdict {
    if missing@.len() > 0 {
        Verdict::Missing(missing)
    } else if fed.len() == 0 || !(forall|k: int| 0 <= k < fed.len() ==> #[trigger] covered(fed, fed[k].0)) {
        Verdict::NoMd5
    } else {
        verdict_of(outcomes, read)
    }
}

/// Whether some `<rom>` of `fed` with index `ix` carries an md5.
fn is_covered(fed: &Vec<(u32, bool)>, ix: u32) -> (r: bool)
    ensures
        r == covered(fed@, ix),
{
    let mut j: usize = 0;
    while j < fed.len()
        invariant
            j <= fed@.len(),
            forall|k: int| 0 <= k < j ==> !((#[trigger] fed@[k]).0 == ix && fed@[k].1),
        decreases fed.len() - j,
    {
        if fed[j].0 == ix && fed[j].1 {
            return true;
        }
        j = j + 1;
    }
    false
}

/// The verdict on a staged zip; see [`examine_of`].
pub fn examine(missing: Vec<String>, fed: &Vec<(u32, bool)>, outcomes: &Vec<(u32, Outcome)>, read: Vec<(String, String)>) -> (v: Verdict)
    ensures
        v == examine_of(missing, fed@, outcomes@, read),
{
    if missing.len() > 0 {
        return Verdict::Missing(missing);
    }
    if fed.len() == 0 {
        return Verdict::NoMd5;
    }
    let mut k: usize = 0;
    while k < fed.len()
        invariant
            k <= fed@.len(),
            missing@.len() == 0,
            fed@.len() > 0,
            forall|j: int| 0 <= j < k ==> #[trigger] covered(fed@, fed@[j].0),
        decreases fed.len() - k,
    {
        if !is_covered(fed, fed[k].0) {
            assert(!covered(fed@, fed@[k as int].0));
            return Verdict::NoMd5;
        }
        k = k + 1;
    }
    verdict(outcomes, read)
}

proof fn lemma_kept_push(rest: Seq<(u32, Outcome)>, c: (u32, Outcome), ix: u32)
    ensures
        ({
            let s = kept(rest);
            let s2 = kept(rest.push(c));
            &&& slot_of(s, ix) >= 0 ==> slot_of(s2, ix) == slot_of(s, ix)
            &&& slot_of(s, ix) >= 0 && s[slot_of(s, ix)].1 == Outcome::Match ==> s2[slot_of(s2, ix)].1 == Outcome::Match
            &&& c.0 == ix && c.1 == Outcome::Match ==> slot_of(s2, ix) >= 0 && s2[slot_of(s2, ix)].1 == Outcome::Match
        }),
{
    let s = kept(rest);
    let checks = rest.push(c);
    assert(checks.drop_last() == rest);
    assert(checks.last() == c);
    lemma_slot_of_range(s, ix);
    lemma_slot_of_range(s, c.0);
    let k = slot_of(s, c.0);
    if k < 0 {
        lemma_slot_of_push(s, c, ix);
    } else {
        lemma_slot_of_update(s, k, c, ix);
    }
}

proof fn lemma_slot_of_push(s: Seq<(u32, Outcome)>, c: (u32, Outcome), ix: u32)
    requires
        slot_of(s, c.0) < 0,
    ensures
        slot_of(s, ix) >= 0 ==> slot_of(s.push(c), ix) == slot_of(s, ix),
        c.0 == ix ==> slot_of(s.push(c), ix) == s.len(),
{
    let s2 = s.push(c);
    assert(s2.drop_last() == s);
    lemma_slot_of_range(s, ix);
    if slot_of(s, ix) >= 0 {
        assert(s[slot_of(s, ix)].0 == ix);
        lemma_slot_of_range(s, c.0);
        if c.0 == ix {
            assert(false);
        }
    }
}

proof fn lemma_slot_of_update(s: Seq<(u32, Outcome)>, k: int, c: (u32, Outcome), ix: u32)
    requires
        0 <= k < s.len(),
        s[k].0 == c.0,
    ensures
        slot_of(s.update(k, c), ix) == slot_of(s, ix),
    decreases s.len(),
{
    let s2 = s.update(k, c);
    if k == s.len() - 1 {
        assert(s2.drop_last() == s.drop_last());
    } else {
        assert(s2.drop_last() == s.drop_last().update(k, c));
        lemma_slot_of_update(s.drop_last(), k, c, ix);
    }
}

proof fn lemma_match_kept(outcomes: Seq<(u32, Outcome)>, ix: u32)
    requires
        exists|i: int| 0 <= i < outcomes.len() && (#[trigger] outcomes[i]).0 == ix && outcomes[i].1 == Outcome::Match,
    ensures
        slot_of(kept(outcomes), ix) >= 0,
        kept(outcomes)[slot_of(kept(outcomes), ix)].1 == Outcome::Match,
    decreases outcomes.len(),
{
    let rest = outcomes.drop_last();
    let c = outcomes.last();
    assert(outcomes == rest.push(c));
    let i = choose|i: int| 0 <= i < outcomes.len() && (#[trigger] outcomes[i]).0 == ix && outcomes[i].1 == Outcome::Match;
    if i < outcomes.len() - 1 {
        assert(rest[i] == outcomes[i]);
        lemma_match_kept(rest, ix);
    }
    lemma_kept_push(rest, c, ix);
}

proof fn lemma_kept_from(outcomes: Seq<(u32, Outcome)>, j: int)
    requires
        0 <= j < kept(outcomes).len(),
    ensures
        exists|i: int| 0 <= i < outcomes.len() && (#[trigger] outcomes[i]).0 == kept(outcomes)[j].0,
    decreases outcomes.len(),
{
    let rest = outcomes.drop_last();
    let c = outcomes.last();
    let s = kept(rest);
    lemma_slot_of_range(s, c.0);
    let k = slot_of(s, c.0);
    if k < 0 && j == s.len() {
        assert(outcomes[outcomes.len() - 1] == c);
    } else if k >= 0 && j == k {
        assert(outcomes[outcomes.len() - 1] == c);
        assert(kept(outcomes)[j].0 == c.0);
    } else {
        lemma_kept_from(rest, j);
        let i = choose|i: int| 0 <= i < rest.len() && (#[trigger] rest[i]).0 == s[j].0;
        assert(outcomes[i] == rest[i]);
    }
}

proof fn lemma_kept_distinct(outcomes: Seq<(u32, Outcome)>)
    ensures
        forall|a: int, b: int| 0 <= a < b < kept(outcomes).len() ==> (#[trigger] kept(outcomes)[a]).0 != (#[trigger] kept(outcomes)[b]).0,
    decreases outcomes.len(),
{
    if outcomes.len() > 0 {
        let rest = outcomes.drop_last();
        let c = outcomes.last();
        let s = kept(rest);
        lemma_kept_distinct(rest);
        lemma_slot_of_range(s, c.0);
        lemma_slot_of_absent(s, c.0);
        let s2 = kept(outcomes);
        assert forall|a: int, b: int| 0 <= a < b < s2.len() implies (#[trigger] s2[a]).0 != (#[trigger] s2[b]).0 by {
            if b == s.len() {
                assert(s2[a] == s[a]);
            } else {
                assert(s2[a].0 == s[a].0);
                assert(s2[b].0 == s[b].0);
            }
        }
    }
}

proof fn lemma_slot_of_absent(s: Seq<(u32, Outcome)>, ix: u32)
    ensures
        slot_of(s, ix) < 0 ==> forall|j: int| 0 <= j < s.len() ==> (#[trigger] s[j]).0 != ix,
    decreases s.len(),
{
    if s.len() > 0 && s.last().0 != ix {
        lemma_slot_of_absent(s.drop_last(), ix);
        assert forall|j: int| 0 <= j < s.len() && slot_of(s, ix) < 0 implies (#[trigger] s[j]).0 != ix by {
            if j < s.len() - 1 {
                assert(s[j] == s.drop_last()[j]);
            }
        }
    }
}

proof fn lemma_worst_of_matches(s: Seq<(u32, Outcome)>)
    requires
        forall|j: int| 0 <= j < s.len() ==> (#[trigger] s[j]).1 == Outcome::Match,
    ensures
        s.len() > 0 ==> worst(s) == Some(Outcome::Match),
        s.len() == 0 ==> worst(s) is None,
    decreases s.len(),
{
    if s.len() > 0 {
        assert forall|j: int| 0 <= j < s.len() - 1 implies (#[trigger] s.drop_last()[j]).1 == Outcome::Match by {
            assert(s.drop_last()[j] == s[j]);
        }
        lemma_worst_of_matches(s.drop_last());
        assert(s[s.len() - 1].1 == Outcome::Match);
    }
}

/// One matching alternative of each index is enough: when every index a zip's `<rom>`s
/// feed has a matching outcome, the verdict is a match, with the members read.
pub proof fn lemma_one_match_per_index_is_enough(outcomes: Seq<(u32, Outcome)>, read: Vec<(String, String)>)
    requires
        forall|i: int| 0 <= i < outcomes.len() ==> exists|m: int|
            0 <= m < outcomes.len() && (#[trigger] outcomes[m]).0 == (#[trigger] outcomes[i]).0 && outcomes[m].1 == Outcome::Match,
    ensures
        verdict_of(outcomes, read) == Verdict::Match(read),
{
    let s = kept(outcomes);
    assert forall|j: int| 0 <= j < s.len() implies (#[trigger] s[j]).1 == Outcome::Match by {
        lemma_kept_from(outcomes, j);
        let i = choose|i: int| 0 <= i < outcomes.len() && (#[trigger] outcomes[i]).0 == s[j].0;
        let m = choose|m: int| 0 <= m < outcomes.len() && (#[trigger] outcomes[m]).0 == (#[trigger] outcomes[i]).0 && outcomes[m].1 == Outcome::Match;
        lemma_match_kept(outcomes, s[j].0);
        lemma_slot_of_range(s, s[j].0);
        lemma_kept_distinct(outcomes);
    }
    lemma_worst_of_matches(s);
}

// ---------------------------------------------------------------------------
// Texts

/// `ws` joined by `, `.
pub open spec fn listed(ws: Seq<Seq<char>>) -> Seq<char>
    decreases ws.len(),
{
    if ws.len() == 0 {
        Seq::empty()
    } else if ws.len() == 1 {
        ws[0]
    } else {
        listed(ws.drop_last()) + ", "@ + ws.last()
    }
}

/// `names` joined by `, `.
pub fn joined(names: &Vec<String>) -> (r: String)
    ensures
        r@ == listed(crate::assoc::texts_seq(names@)),
{
    let mut out = String::new();
    let mut i: usize = 0;
    while i < names.len()
        invariant
            i <= names@.len(),
            out@ == listed(crate::assoc::texts_seq(names@.subrange(0, i as int))),
        decreases names.len() - i,
    {
        proof {
            let t = crate::assoc::texts_seq(names@.subrange(0, i + 1));
            assert(t.drop_last() == crate::assoc::texts_seq(names@.subrange(0, i as int)));
            assert(t.last() == names@[i as int]@);
        }
        if i == 0 {
            out = names[i].clone();
            proof {
                assert(crate::assoc::texts_seq(names@.subrange(0, 1)) == seq![names@[0]@]);
            }
        } else {
            let a = crate::text::concat(out.as_str(), ", ");
            out = crate::text::concat(a.as_str(), names[i].as_str());
        }
        i = i + 1;
    }
    proof {
        assert(names@.subrange(0, names@.len() as int) == names@);
    }
    out
}

/// The set name a MAME DAT gives the zip `file`: the file name without a final `.zip`
/// in any case.
pub open spec fn set_name_of(file: Seq<char>) -> Seq<char> {
    if file.len() >= 4 && crate::text::lower(file.subrange(file.len() - 4, file.len() as int)) == ".zip"@ {
        file.subrange(0, file.len() - 4)
    } else {
        file
    }
}

/// The set name a MAME DAT gives the zip `file`.
pub fn set_name(file: &str) -> (r: &str)
    ensures
        r@ == set_name_of(file@),
{
    let n = file.unicode_len();
    if n < 4 {
        return file;
    }
    let tail = crate::text::chars_of(file.substring_char(n - 4, n));
    let zip = crate::text::chars_of(".zip");
    let lowered = crate::text::lower_chars(&tail);
    if crate::text::same_chars(&lowered, &zip) {
        file.substring_char(0, n - 4)
    } else {
        file
    }
}

/// Why the md5 check of a `<rom>` with a missing part stays open: it waits for the zips
/// of `waiting`, each named once, or, with none missing from disk, the check's `detail`.
pub open spec fn waiting_text(detail: Seq<char>, waiting: Seq<Seq<char>>) -> Seq<char> {
    if waiting.len() == 0 {
        detail
    } else {
        "the md5 check waits for "@ + listed(once(waiting))
    }
}

/// `s` with each text kept at its first place only.
pub open spec fn once(s: Seq<Seq<char>>) -> Seq<Seq<char>>
    decreases s.len(),
{
    if s.len() == 0 {
        Seq::empty()
    } else if once(s.drop_last()).contains(s.last()) {
        once(s.drop_last())
    } else {
        once(s.drop_last()).push(s.last())
    }
}

/// Why the md5 check of a `<rom>` with a missing part stays open, given the places of the
/// zips it reads that are not on disk; see [`waiting_text`].
pub fn waiting_reason(detail: &str, waiting: &Vec<String>) -> (r: String)
    ensures
        r@ == waiting_text(detail@, crate::assoc::texts_seq(waiting@)),
{
    if waiting.len() == 0 {
        return detail.to_string();
    }
    let mut unique: Vec<String> = Vec::new();
    let mut i: usize = 0;
    while i < waiting.len()
        invariant
            i <= waiting@.len(),
            crate::assoc::texts_seq(unique@) == once(crate::assoc::texts_seq(waiting@.subrange(0, i as int))),
        decreases waiting.len() - i,
    {
        let ghost t = crate::assoc::texts_seq(waiting@.subrange(0, i + 1));
        proof {
            assert(t.drop_last() == crate::assoc::texts_seq(waiting@.subrange(0, i as int)));
            assert(t.last() == waiting@[i as int]@);
        }
        let mut seen = false;
        let mut k: usize = 0;
        while k < unique.len()
            invariant
                k <= unique@.len(),
                i < waiting@.len(),
                seen == exists|j: int| 0 <= j < k && (#[trigger] unique@[j])@ == waiting@[i as int]@,
            decreases unique.len() - k,
        {
            if crate::text::string_eq(&unique[k], &waiting[i]) {
                seen = true;
            }
            k = k + 1;
        }
        proof {
            let u = crate::assoc::texts_seq(unique@);
            if seen {
                let j = choose|j: int| 0 <= j < unique@.len() && (#[trigger] unique@[j])@ == waiting@[i as int]@;
                assert(u[j] == waiting@[i as int]@);
            } else {
                assert forall|j: int| 0 <= j < u.len() implies u[j] != waiting@[i as int]@ by {
                    assert(u[j] == unique@[j]@);
                }
            }
        }
        if !seen {
            let ghost before = unique@;
            unique.push(waiting[i].clone());
            proof {
                assert(crate::assoc::texts_seq(unique@) =~= crate::assoc::texts_seq(before).push(waiting@[i as int]@));
            }
        }
        i = i + 1;
    }
    proof {
        assert(waiting@.subrange(0, waiting@.len() as int) == waiting@);
    }
    let list = joined(&unique);
    crate::text::concat("the md5 check waits for ", list.as_str())
}

// ---------------------------------------------------------------------------
// What becomes of the zip

/// What a quarantine records besides its texts.
#[derive(Debug, Clone, PartialEq, Eq)]
pub enum WhyDetail {
    /// The members the MRA names that the zip lacks.
    Missing(Vec<String>),
    /// How the md5 check failed.
    Md5(String),
    /// The DAT entry the zip does not match, its members not in the entry and the
    /// entry's roms not in the zip.
    Dat { entry: String, extra: Vec<String>, absent: Vec<String> },
}

/// Why a zip is quarantined: the reason stored on the download, the report beside the
/// zip, and the detail logged.
#[derive(Debug, Clone, PartialEq, Eq)]
pub struct Why {
    /// The reason stored on the download.
    pub reason: String,
    /// The report written beside the quarantined zip.
    pub report: String,
    /// What the log records.
    pub detail: WhyDetail,
}

/// How a placed zip was verified, for the import log.
#[derive(Debug, Clone, PartialEq, Eq)]
pub enum Note {
    /// By the MRA's md5.
    MraMd5,
    /// The MRA's md5 applies but could not decide yet, and why.
    MraMd5Open(String),
    /// By the named DAT entry.
    Dat(String),
    /// Nothing could verify it.
    NoHashSource,
}

/// One member placed: its index among the members, the state it is recorded in (for
/// the DAT path, the state its rom gives it), and, for the DAT path, its rom's index.
#[derive(Debug, Clone, Copy, PartialEq, Eq, Structural)]
pub struct Piece {
    /// The member's index.
    pub member: usize,
    /// The state recorded, or `None` to take it from the rom.
    pub state: Option<FileState>,
    /// The index of the DAT entry's rom it is.
    pub rom: Option<usize>,
}

/// What becomes of a staged MRA zip once examined.
#[derive(Debug, Clone, PartialEq, Eq)]
pub enum Action {
    /// The download fails with this reason and the zip stays in staging.
    Fail(String),
    /// The zip is quarantined.
    Quarantine(Why),
    /// The zip is placed as these pieces, with this note; the md5 check read these members.
    Place { pieces: Vec<Piece>, note: Note, read: Vec<(String, String)> },
}

/// The DAT entry of a zip's set, when a DAT lists it.
#[derive(Debug, Clone)]
pub struct DatEntry {
    /// The entry's name.
    pub name: String,
    /// Whether the entry is a BIOS.
    pub bios: bool,
    /// The entry's roms.
    pub roms: Vec<EntryRom>,
}

/// What a quarantine records besides its texts, as texts.
pub enum DetailModel {
    /// Members missing.
    Missing(Seq<Seq<char>>),
    /// How the md5 check failed.
    Md5(Seq<char>),
    /// The entry, its extra members and its absent roms.
    Dat(Seq<char>, Seq<Seq<char>>, Seq<Seq<char>>),
}

/// A note, as text.
pub enum NoteModel {
    /// By the MRA's md5.
    MraMd5,
    /// Open, and why.
    MraMd5Open(Seq<char>),
    /// By the DAT entry.
    Dat(Seq<char>),
    /// Unverified.
    NoHashSource,
}

/// An action, as texts.
pub enum ActionModel {
    /// Fail with the reason.
    Fail(Seq<char>),
    /// Quarantine with reason, report and detail.
    Quarantine(Seq<char>, Seq<char>, DetailModel),
    /// Place these pieces with this note, recording these reads.
    Place(Seq<Piece>, NoteModel, Seq<(String, String)>),
}

/// An action as texts.
pub open spec fn action_model(a: Action) -> ActionModel {
    match a {
        Action::Fail(r) => ActionModel::Fail(r@),
        Action::Quarantine(w) => ActionModel::Quarantine(
            w.reason@,
            w.report@,
            match w.detail {
                WhyDetail::Missing(m) => DetailModel::Missing(crate::assoc::texts_seq(m@)),
                WhyDetail::Md5(d) => DetailModel::Md5(d@),
                WhyDetail::Dat { entry, extra, absent } => DetailModel::Dat(entry@, crate::assoc::texts_seq(extra@), crate::assoc::texts_seq(absent@)),
            },
        ),
        Action::Place { pieces, note, read } => ActionModel::Place(
            pieces@,
            match note {
                Note::MraMd5 => NoteModel::MraMd5,
                Note::MraMd5Open(w) => NoteModel::MraMd5Open(w@),
                Note::Dat(n) => NoteModel::Dat(n@),
                Note::NoHashSource => NoteModel::NoHashSource,
            },
            read@,
        ),
    }
}

/// Whether the md5 check read member `m` of the staged zip at `staged`.
pub open spec fn was_read(read: Seq<(String, String)>, staged: Seq<char>, m: Hashed) -> bool {
    exists|k: int| 0 <= k < read.len() && (#[trigger] read[k]).0@ == staged && match m.member {
        Some(n) => n@ == read[k].1@,
        None => false,
    }
}

/// Every member placed in `state`.
pub open spec fn all_in(n: nat, state: FileState) -> Seq<Piece> {
    Seq::new(n, |i: int| Piece { member: i as usize, state: Some(state), rom: None })
}

/// Turns a verdict into an action: the md5 path first, then the DAT entry `dat`, then
/// no hash source. A matched zip places each member verified when the md5 check read
/// it, unverified otherwise; an open check places every member unverified; a zip without
/// md5 is placed by its DAT entry when every member pairs with a distinct rom and every
/// rom with a member, quarantined when not, refused for a BIOS, and placed unverified
/// without an entry.
pub open spec fn decide_of(verdict: Verdict, dat: Option<DatEntry>, members: Seq<Hashed>, staged: Seq<char>) -> ActionModel {
    match verdict {
        Verdict::Refused(why) => ActionModel::Fail("cannot check this zip against the MRA: "@ + why@),
        Verdict::Missing(missing) => {
            let list = listed(crate::assoc::texts_seq(missing@));
            ActionModel::Quarantine(
                "the zip lacks members the MRA names ("@ + list + "); it was quarantined"@,
                "This zip lacks members the MRA names and was not placed.\nMissing: "@ + list,
                DetailModel::Missing(crate::assoc::texts_seq(missing@)),
            )
        },
        Verdict::Mismatch(d) => ActionModel::Quarantine(
            "the zip does not match the MRA's md5 ("@ + d@ + "); it was quarantined"@,
            "This zip does not match the MRA's md5 and was not placed.\n"@ + d@,
            DetailModel::Md5(d@),
        ),
        Verdict::Match(read) => ActionModel::Place(
            Seq::new(
                members.len(),
                |i: int|
                    Piece {
                        member: i as usize,
                        state: Some(
                            if was_read(read@, staged, members[i]) {
                                FileState::Verified
                            } else {
                                FileState::Unverified
                            },
                        ),
                        rom: None,
                    },
            ),
            NoteModel::MraMd5,
            read@,
        ),
        Verdict::Open(why) => ActionModel::Place(
            all_in(members.len(), FileState::Unverified),
            NoteModel::MraMd5Open(why@),
            Seq::empty(),
        ),
        Verdict::NoMd5 => match dat {
            None => ActionModel::Place(all_in(members.len(), FileState::Unverified), NoteModel::NoHashSource, Seq::empty()),
            Some(entry) => if entry.bios {
                ActionModel::Fail(crate::jobs::import::BIOS_REFUSED@)
            } else {
                let (p, u, e) = pairing(entry.roms@, members, members.len() as int);
                let absent = absent_names(entry.roms@, u, entry.roms@.len() as int);
                if e.len() == 0 && absent.len() == 0 {
                    ActionModel::Place(
                        Seq::new(p.len(), |k: int| Piece { member: p[k].0 as usize, state: None, rom: Some(p[k].1 as usize) }),
                        NoteModel::Dat(entry.name@),
                        Seq::empty(),
                    )
                } else {
                    ActionModel::Quarantine(
                        "the zip does not match the DAT entry "@ + entry.name@ + "; it was quarantined"@,
                        "This zip does not match the DAT entry "@ + entry.name@ + " and was not placed.\nMembers not in the entry: "@
                            + listed(e) + "\nRoms not in the zip: "@ + listed(absent),
                        DetailModel::Dat(entry.name@, e, absent),
                    )
                }
            },
        },
    }
}

/// Every member placed in `state`.
fn all_pieces(n: usize, state: FileState) -> (v: Vec<Piece>)
    ensures
        v@ == all_in(n as nat, state),
{
    let mut v: Vec<Piece> = Vec::new();
    let mut i: usize = 0;
    while i < n
        invariant
            i <= n,
            v@ == all_in(i as nat, state),
        decreases n - i,
    {
        v.push(Piece { member: i, state: Some(state), rom: None });
        i = i + 1;
        proof {
            assert(v@ =~= all_in(i as nat, state));
        }
    }
    v
}

/// Whether the md5 check read member `m` of the staged zip at `staged`.
fn read_member(read: &Vec<(String, String)>, staged: &str, m: &Hashed) -> (r: bool)
    ensures
        r == was_read(read@, staged@, *m),
{
    let mut k: usize = 0;
    while k < read.len()
        invariant
            k <= read@.len(),
            forall|j: int| 0 <= j < k ==> !((#[trigger] read@[j]).0@ == staged@ && match m.member {
                Some(n) => n@ == read@[j].1@,
                None => false,
            }),
        decreases read.len() - k,
    {
        let hit = crate::text::str_is(read[k].0.as_str(), staged) && match &m.member {
            Some(n) => crate::text::string_eq(n, &read[k].1),
            None => false,
        };
        if hit {
            return true;
        }
        k = k + 1;
    }
    false
}


/// Turns a verdict into an action; see [`decide_of`].
pub fn decide(verdict: Verdict, dat: Option<&DatEntry>, members: &Vec<Hashed>, staged: &str) -> (a: Action)
    ensures
        action_model(a) == decide_of(
            verdict,
            match dat {
                Some(d) => Some(*d),
                None => None,
            },
            members@,
            staged@,
        ),
{
    match verdict {
        Verdict::Refused(why) => Action::Fail(crate::text::concat("cannot check this zip against the MRA: ", why.as_str())),
        Verdict::Missing(missing) => {
            let list = joined(&missing);
            let a = crate::text::concat("the zip lacks members the MRA names (", list.as_str());
            let reason = crate::text::concat(a.as_str(), "); it was quarantined");
            let report = crate::text::concat(
                "This zip lacks members the MRA names and was not placed.\nMissing: ",
                list.as_str(),
            );
            Action::Quarantine(Why { reason, report, detail: WhyDetail::Missing(missing) })
        },
        Verdict::Mismatch(d) => {
            let a = crate::text::concat("the zip does not match the MRA's md5 (", d.as_str());
            let reason = crate::text::concat(a.as_str(), "); it was quarantined");
            let report = crate::text::concat("This zip does not match the MRA's md5 and was not placed.\n", d.as_str());
            Action::Quarantine(Why { reason, report, detail: WhyDetail::Md5(d) })
        },
        Verdict::Match(read) => {
            let mut pieces: Vec<Piece> = Vec::new();
            let mut i: usize = 0;
            while i < members.len()
                invariant
                    i <= members@.len(),
                    pieces@.len() == i,
                    forall|j: int| 0 <= j < i ==> #[trigger] pieces@[j] == (Piece {
                        member: j as usize,
                        state: Some(
                            if was_read(read@, staged@, members@[j]) {
                                FileState::Verified
                            } else {
                                FileState::Unverified
                            },
                        ),
                        rom: None,
                    }),
                decreases members.len() - i,
            {
                let state = if read_member(&read, staged, &members[i]) {
                    FileState::Verified
                } else {
                    FileState::Unverified
                };
                pieces.push(Piece { member: i, state: Some(state), rom: None });
                i = i + 1;
            }
            proof {
                let want = Seq::new(
                    members@.len(),
                    |i: int|
                        Piece {
                            member: i as usize,
                            state: Some(
                                if was_read(read@, staged@, members@[i]) {
                                    FileState::Verified
                                } else {
                                    FileState::Unverified
                                },
                            ),
                            rom: None,
                        },
                );
                assert(pieces@ =~= want);
            }
            Action::Place { pieces, note: Note::MraMd5, read }
        },
        Verdict::Open(why) => Action::Place {
            pieces: all_pieces(members.len(), FileState::Unverified),
            note: Note::MraMd5Open(why),
            read: Vec::new(),
        },
        Verdict::NoMd5 => match dat {
            None => Action::Place {
                pieces: all_pieces(members.len(), FileState::Unverified),
                note: Note::NoHashSource,
                read: Vec::new(),
            },
            Some(entry) => {
                if entry.bios {
                    return Action::Fail(crate::jobs::import::BIOS_REFUSED.to_string());
                }
                let set = match_members(entry.roms.as_slice(), members.as_slice());
                let ghost (p, u, e) = pairing(entry.roms@, members@, members@.len() as int);
                if !set.is_exact() {
                    let extra = copy_texts(&set.extra);
                    let absent = copy_texts(&set.absent);
                    let el = joined(&set.extra);
                    let al = joined(&set.absent);
                    let a = crate::text::concat("the zip does not match the DAT entry ", entry.name.as_str());
                    let reason = crate::text::concat(a.as_str(), "; it was quarantined");
                    let b = crate::text::concat("This zip does not match the DAT entry ", entry.name.as_str());
                    let c = crate::text::concat(b.as_str(), " and was not placed.\nMembers not in the entry: ");
                    let d = crate::text::concat(c.as_str(), el.as_str());
                    let f = crate::text::concat(d.as_str(), "\nRoms not in the zip: ");
                    let report = crate::text::concat(f.as_str(), al.as_str());
                    proof {
                        assert(crate::assoc::texts_seq(set.extra@) =~= e);
                        assert(crate::assoc::texts_seq(set.absent@) =~= absent_names(entry.roms@, u, entry.roms@.len() as int));
                    }
                    return Action::Quarantine(Why {
                        reason,
                        report,
                        detail: WhyDetail::Dat { entry: entry.name.clone(), extra, absent },
                    });
                }
                let mut pieces: Vec<Piece> = Vec::new();
                let mut k: usize = 0;
                while k < set.at.len()
                    invariant
                        k <= set.at@.len(),
                        set.at@.len() == p.len(),
                        forall|j: int| 0 <= j < p.len() ==> (#[trigger] set.at@[j]).0 == p[j].0 && set.at@[j].1 == p[j].1,
                        pieces@.len() == k,
                        forall|j: int| 0 <= j < k ==> #[trigger] pieces@[j] == (Piece { member: p[j].0 as usize, state: None, rom: Some(p[j].1 as usize) }),
                    decreases set.at.len() - k,
                {
                    let (m, r) = set.at[k];
                    pieces.push(Piece { member: m, state: None, rom: Some(r) });
                    k = k + 1;
                }
                proof {
                    assert(pieces@ =~= Seq::new(p.len(), |j: int| Piece { member: p[j].0 as usize, state: None, rom: Some(p[j].1 as usize) }));
                    assert(crate::assoc::texts_seq(set.extra@).len() == e.len());
                }
                Action::Place { pieces, note: Note::Dat(entry.name.clone()), read: Vec::new() }
            },
        },
    }
}

} // verus!
