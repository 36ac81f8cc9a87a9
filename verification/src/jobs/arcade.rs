//! The arcade catalogue: MRA titles, their names, and the verdict of their md5 checks.

pub mod presence;

use vstd::prelude::*;
use crate::jobs::Lane;

verus! {

/// `jobs.kind` of [`ArcadeCatalog`].
pub const KIND: &'static str = "arcade_catalog";

/// The platform MRA titles belong to.
pub const PLATFORM: &'static str = "arcade";

/// Directory under the SD root holding the MRA files.
pub const ARCADE_DIR: &'static str = "_Arcade";

/// Deepest subfolder of `_Arcade` searched for MRA files.
pub const MAX_DEPTH: usize = 4;

/// Reads every MRA under `_Arcade`, upserts one title per MRA, retires the titles whose
/// MRA is gone, and checks each complete set against the MRA's md5.
#[derive(Debug, Clone, Copy, Default)]
pub struct ArcadeCatalog;

impl ArcadeCatalog {
    /// The job's kind.
    pub fn kind(&self) -> (k: &'static str)
        ensures
            k@ == KIND@,
    {
        KIND
    }

    /// The lane the catalogue runs on.
    pub fn lane(&self) -> (l: Lane)
        ensures
            l == Lane::Heavy,
    {
        Lane::Heavy
    }
}

// ---------------------------------------------------------------------------
// Names

/// Whether `c` is whitespace, as `char::is_whitespace` reads the Unicode `White_Space`
/// property.
pub open spec fn is_space(c: char) -> bool {
    let u = c as u32;
    (0x09 <= u <= 0x0d) || u == 0x20 || u == 0x85 || u == 0xa0 || u == 0x1680 || (0x2000 <= u
        <= 0x200a) || u == 0x2028 || u == 0x2029 || u == 0x202f || u == 0x205f || u == 0x3000
}

/// Whether `c` is whitespace.
pub fn space(c: char) -> (r: bool)
    ensures
        r == is_space(c),
{
    let u = c as u32;
    (0x09 <= u && u <= 0x0d) || u == 0x20 || u == 0x85 || u == 0xa0 || u == 0x1680 || (0x2000
        <= u && u <= 0x200a) || u == 0x2028 || u == 0x2029 || u == 0x202f || u == 0x205f || u
        == 0x3000
}

/// The words of `s`, split at whitespace, and whether the last one is still open (`s`
/// ends inside it).
pub open spec fn words(s: Seq<char>) -> (Seq<Seq<char>>, bool)
    decreases s.len(),
{
    if s.len() == 0 {
        (Seq::empty(), false)
    } else {
        let (w, open) = words(s.drop_last());
        let c = s.last();
        if is_space(c) {
            (w, false)
        } else if open {
            (w.update(w.len() - 1, w.last().push(c)), true)
        } else {
            (w.push(seq![c]), true)
        }
    }
}

/// `ws` joined by single spaces.
pub open spec fn joined(ws: Seq<Seq<char>>) -> Seq<char>
    decreases ws.len(),
{
    if ws.len() == 0 {
        Seq::empty()
    } else if ws.len() == 1 {
        ws[0]
    } else {
        joined(ws.drop_last()) + seq![' '] + ws.last()
    }
}

proof fn lemma_words_open(s: Seq<char>)
    ensures
        words(s).1 ==> words(s).0.len() > 0,
        forall|k: int| 0 <= k < words(s).0.len() ==> (#[trigger] words(s).0[k]).len() > 0,
    decreases s.len(),
{
    if s.len() > 0 {
        lemma_words_open(s.drop_last());
        let (w, open) = words(s.drop_last());
        let c = s.last();
        if !is_space(c) && open {
            let w2 = w.update(w.len() - 1, w.last().push(c));
            assert forall|k: int| 0 <= k < w2.len() implies (#[trigger] w2[k]).len() > 0 by {
                if k < w.len() - 1 {
                    assert(w2[k] == w[k]);
                }
            }
        } else if !is_space(c) {
            let w2 = w.push(seq![c]);
            assert forall|k: int| 0 <= k < w2.len() implies (#[trigger] w2[k]).len() > 0 by {
                if k < w.len() {
                    assert(w2[k] == w[k]);
                }
            }
        }
    }
}

proof fn lemma_joined_nonempty(w: Seq<Seq<char>>)
    requires
        w.len() > 0,
        forall|k: int| 0 <= k < w.len() ==> (#[trigger] w[k]).len() > 0,
    ensures
        joined(w).len() > 0,
    decreases w.len(),
{
    if w.len() > 1 {
        assert(w.drop_last()[0] == w[0]);
    }
    assert(w[0].len() > 0);
}

/// `text` trimmed, with each run of whitespace inside it made one space.
pub fn collapse(text: &str) -> (r: String)
    ensures
        r@ == joined(words(text@).0),
{
    let s = crate::text::chars_of(text);
    let mut out: Vec<char> = Vec::new();
    let mut gap = false;
    let mut i: usize = 0;
    while i < s.len()
        invariant
            i <= s@.len(),
            ({
                let (w, open) = words(s@.subrange(0, i as int));
                &&& out@ == joined(w)
                &&& gap == (w.len() > 0 && !open)
            }),
        decreases s.len() - i,
    {
        let ghost prefix = s@.subrange(0, i as int);
        let ghost next = s@.subrange(0, i + 1);
        proof {
            assert(next.drop_last() == prefix);
            assert(next.last() == s@[i as int]);
            lemma_words_open(prefix);
        }
        let c = s[i];
        if space(c) {
            if out.len() > 0 {
                gap = true;
            }
            proof {
                let (w, open) = words(prefix);
                if w.len() > 0 {
                    lemma_joined_nonempty(w);
                }
            }
        } else {
            let ghost w = words(prefix).0;
            if gap {
                out.push(' ');
                out.push(c);
                gap = false;
                proof {
                    let w2 = w.push(seq![c]);
                    assert(w2.drop_last() == w);
                    assert(joined(w2) =~= joined(w) + seq![' '] + seq![c]);
                }
            } else {
                out.push(c);
                proof {
                    lemma_joined_extend(w, c, words(prefix).1);
                }
            }
        }
        i = i + 1;
    }
    proof {
        assert(s@.subrange(0, s@.len() as int) == s@);
    }
    crate::text::string_of(&out)
}

/// Extending the open last word, or starting the first one, adds `c` to the joined text.
proof fn lemma_joined_extend(w: Seq<Seq<char>>, c: char, open: bool)
    requires
        open ==> w.len() > 0,
        !open ==> w.len() == 0,
    ensures
        open ==> joined(w.update(w.len() - 1, w.last().push(c))) == joined(w).push(c),
        !open ==> joined(w.push(seq![c])) == joined(w).push(c),
{
    if open {
        let w2 = w.update(w.len() - 1, w.last().push(c));
        if w.len() == 1 {
            assert(joined(w2) == w2[0]);
        } else {
            assert(w2.drop_last() == w.drop_last());
            assert(joined(w2) =~= joined(w).push(c));
        }
    } else {
        assert(joined(w.push(seq![c])) == w.push(seq![c])[0]);
        assert(seq![c] =~= Seq::<char>::empty().push(c));
    }
}

/// The name of an MRA title: the MRA's `<name>` collapsed, else the stem of its path
/// `rel` collapsed; `None` when both are empty.
pub open spec fn entry_name_of(name: Option<Seq<char>>, rel: Seq<char>) -> Option<Seq<char>> {
    let stem = joined(words(crate::jobs::dat_import::path_stem(rel)).0);
    let named = match name {
        Some(n) => joined(words(n).0),
        None => Seq::empty(),
    };
    if named.len() > 0 {
        Some(named)
    } else if stem.len() > 0 {
        Some(stem)
    } else {
        None
    }
}

/// The name of an MRA title whose `<name>` is `name`, found at `rel`; see
/// [`entry_name_of`].
pub fn entry_name(name: Option<&str>, rel: &str) -> (r: Option<String>)
    ensures
        match r {
            Some(n) => entry_name_of(
                match name {
                    Some(x) => Some(x@),
                    None => None,
                },
                rel@,
            ) == Some(n@),
            None => entry_name_of(
                match name {
                    Some(x) => Some(x@),
                    None => None,
                },
                rel@,
            ) is None,
        },
{
    let named = match name {
        Some(n) => collapse(n),
        None => String::new(),
    };
    if named.unicode_len() > 0 {
        return Some(named);
    }
    let stem = crate::jobs::dat_import::stem(rel);
    let collapsed = collapse(stem.as_str());
    if collapsed.unicode_len() > 0 {
        Some(collapsed)
    } else {
        None
    }
}

/// Whether two zip places, directory and file, are the same on a case-insensitive
/// filesystem.
pub fn same_zip(a_dir: &str, a_file: &str, b_dir: &str, b_file: &str) -> (r: bool)
    ensures
        r == (crate::text::lower(a_dir@) == crate::text::lower(b_dir@) && crate::text::lower(a_file@)
            == crate::text::lower(b_file@)),
{
    let ad = crate::text::chars_of(a_dir);
    let bd = crate::text::chars_of(b_dir);
    let af = crate::text::chars_of(a_file);
    let bf = crate::text::chars_of(b_file);
    crate::text::same_ignoring_case(&ad, &bd) && crate::text::same_ignoring_case(&af, &bf)
}

// ---------------------------------------------------------------------------
// The md5 check

/// Outcome of the md5 check of one `<rom>`, better first.
#[derive(Debug, Clone, Copy, PartialEq, Eq, Structural)]
pub enum Check {
    /// The assembled rom has the MRA's md5.
    Match,
    /// The rom cannot be assembled as written.
    Refused,
    /// A part the rom needs is missing.
    MissingPart,
    /// The assembled rom has another md5.
    Mismatch,
}

/// How bad a check is: the worse, the higher.
pub open spec fn rank(c: Check) -> int {
    match c {
        Check::Match => 0,
        Check::Refused => 1,
        Check::MissingPart => 2,
        Check::Mismatch => 3,
    }
}

/// The rank of a check.
fn rank_of(c: Check) -> (r: u8)
    ensures
        r == rank(c),
{
    match c {
        Check::Match => 0,
        Check::Refused => 1,
        Check::MissingPart => 2,
        Check::Mismatch => 3,
    }
}

impl Check {
    /// The name the check is stored under.
    pub fn as_str(self) -> (s: &'static str)
        ensures
            s@ == match self {
                Check::Match => "match"@,
                Check::Refused => "refused"@,
                Check::MissingPart => "missing_part"@,
                Check::Mismatch => "mismatch"@,
            },
    {
        match self {
            Check::Match => "match",
            Check::Refused => "refused",
            Check::MissingPart => "missing_part",
            Check::Mismatch => "mismatch",
        }
    }
}

/// The check of one `<rom>` carrying an md5: its index, the outcome, and why it did not
/// match.
pub type RomCheck = (u32, Check, Option<String>);

/// Why a `<rom>` could not be assembled, with the assembler's own text.
#[derive(Debug, Clone)]
pub enum AssembleError {
    /// A part it names is in none of its zips.
    MissingPart(String),
    /// It cannot be assembled as written.
    Refused(String),
}

/// The detail of a check of `<rom>` number `index`: `rom N` and what followed.
pub open spec fn rom_detail(index: u32, rest: Seq<char>) -> Seq<char> {
    "rom "@ + crate::jobs::dat_import::decimal(index as nat) + rest
}

/// The md5 check of `<rom>` number `index` whose assembled bytes hashed to `assembled`,
/// or failed to assemble, against the MRA's `expected` md5.
pub open spec fn check_of(index: u32, assembled: Result<String, AssembleError>, expected: Seq<char>) -> (Check, Option<Seq<char>>) {
    match assembled {
        Ok(h) => if h@ == expected {
            (Check::Match, None)
        } else {
            (Check::Mismatch, Some(rom_detail(index, " does not match the MRA's md5"@)))
        },
        Err(AssembleError::MissingPart(e)) => (Check::MissingPart, Some(rom_detail(index, ": "@ + e@))),
        Err(AssembleError::Refused(e)) => (Check::Refused, Some(rom_detail(index, ": "@ + e@))),
    }
}

/// `rom N` followed by `rest`.
fn detail_of(index: u32, rest: &str) -> (r: String)
    ensures
        r@ == rom_detail(index, rest@),
{
    let d = crate::jobs::dat_import::decimal_chars(index);
    let n = crate::text::string_of(&d);
    let a = crate::text::concat("rom ", n.as_str());
    crate::text::concat(a.as_str(), rest)
}

/// The md5 check of `<rom>` number `index` against the MRA's `expected` md5, given what
/// assembling it gave: the md5 of its bytes, or why it could not be assembled.
pub fn check_rom(index: u32, assembled: &Result<String, AssembleError>, expected: &str) -> (r: RomCheck)
    ensures
        ({
            let (c, d) = check_of(index, *assembled, expected@);
            &&& r.0 == index
            &&& r.1 == c
            &&& match d {
                Some(t) => r.2 matches Some(x) && x@ == t,
                None => r.2 is None,
            }
        }),
{
    match assembled {
        Ok(h) => {
            if crate::text::str_is(h.as_str(), expected) {
                (index, Check::Match, None)
            } else {
                (index, Check::Mismatch, Some(detail_of(index, " does not match the MRA's md5")))
            }
        },
        Err(AssembleError::MissingPart(e)) => {
            let rest = crate::text::concat(": ", e.as_str());
            (index, Check::MissingPart, Some(detail_of(index, rest.as_str())))
        },
        Err(AssembleError::Refused(e)) => {
            let rest = crate::text::concat(": ", e.as_str());
            (index, Check::Refused, Some(detail_of(index, rest.as_str())))
        },
    }
}

/// The position in `slots` of the one with index `ix`, or -1.
pub open spec fn slot_of(slots: Seq<RomCheck>, ix: u32) -> int
    decreases slots.len(),
{
    if slots.len() == 0 {
        -1
    } else if slots.last().0 == ix {
        slots.len() - 1
    } else {
        slot_of(slots.drop_last(), ix)
    }
}

/// One outcome per index, in the order the indexes first come: the first of the best
/// outcomes of that index, since one matching alternative of an index is enough.
pub open spec fn slots(checks: Seq<RomCheck>) -> Seq<RomCheck>
    decreases checks.len(),
{
    if checks.len() == 0 {
        Seq::empty()
    } else {
        let s = slots(checks.drop_last());
        let c = checks.last();
        let k = slot_of(s, c.0);
        if k < 0 {
            s.push(c)
        } else if rank(c.1) < rank(s[k].1) {
            s.update(k, c)
        } else {
            s
        }
    }
}

/// The worst of `slots`, the last of equals.
pub open spec fn worst(slots: Seq<RomCheck>) -> Option<RomCheck>
    decreases slots.len(),
{
    if slots.len() == 0 {
        None
    } else {
        match worst(slots.drop_last()) {
            Some(w) => if rank(slots.last().1) >= rank(w.1) {
                Some(slots.last())
            } else {
                Some(w)
            },
            None => Some(slots.last()),
        }
    }
}

proof fn lemma_slot_of_range(s: Seq<RomCheck>, ix: u32)
    ensures
        -1 <= slot_of(s, ix) < s.len(),
        slot_of(s, ix) >= 0 ==> s[slot_of(s, ix)].0 == ix,
        slot_of(s, ix) < 0 ==> forall|j: int| 0 <= j < s.len() ==> (#[trigger] s[j]).0 != ix,
    decreases s.len(),
{
    if s.len() > 0 && s.last().0 != ix {
        lemma_slot_of_range(s.drop_last(), ix);
        assert forall|j: int| 0 <= j < s.len() && slot_of(s, ix) < 0 implies (#[trigger] s[j]).0 != ix by {
            if j < s.len() - 1 {
                assert(s[j] == s.drop_last()[j]);
            }
        }
    }
}

/// Where index `ix` sits among `slots`, found from the end.
fn find_slot(slots: &Vec<RomCheck>, ix: u32) -> (r: Option<usize>)
    ensures
        match r {
            Some(k) => k as int == slot_of(slots@, ix),
            None => slot_of(slots@, ix) == -1,
        },
{
    let mut k = slots.len();
    proof {
        assert(slots@.subrange(0, k as int) == slots@);
    }
    while k > 0
        invariant
            k <= slots@.len(),
            slot_of(slots@, ix) == slot_of(slots@.subrange(0, k as int), ix),
        decreases k,
    {
        proof {
            assert(slots@.subrange(0, k as int).drop_last() == slots@.subrange(0, k - 1));
        }
        if slots[k - 1].0 == ix {
            return Some(k - 1);
        }
        k = k - 1;
    }
    None
}

/// A copy of a rom check.
fn copy_check(c: &RomCheck) -> (r: RomCheck)
    ensures
        r == *c,
{
    let detail = match &c.2 {
        Some(d) => Some(d.clone()),
        None => None,
    };
    (c.0, c.1, detail)
}

/// The verdict of an MRA's md5 checks, given the check of each `<rom>` carrying an md5
/// in MRA order: each index keeps its best outcome, and the worst index decides, with
/// its detail. `None` when no `<rom>` carries an md5.
pub fn verify_roms(checks: &Vec<RomCheck>) -> (r: Option<(Check, Option<String>)>)
    ensures
        match worst(slots(checks@)) {
            Some(w) => r == Some((w.1, w.2)),
            None => r is None,
        },
{
    let mut by_index: Vec<RomCheck> = Vec::new();
    let mut i: usize = 0;
    while i < checks.len()
        invariant
            i <= checks@.len(),
            by_index@ == slots(checks@.subrange(0, i as int)),
        decreases checks.len() - i,
    {
        proof {
            assert(checks@.subrange(0, i + 1).drop_last() == checks@.subrange(0, i as int));
            assert(checks@.subrange(0, i + 1).last() == checks@[i as int]);
        }
        let c = copy_check(&checks[i]);
        proof {
            lemma_slot_of_range(by_index@, c.0);
        }
        match find_slot(&by_index, c.0) {
            Some(k) => {
                if rank_of(c.1) < rank_of(by_index[k].1) {
                    by_index.set(k, c);
                }
            },
            None => {
                by_index.push(c);
            },
        }
        i = i + 1;
    }
    proof {
        assert(checks@.subrange(0, checks@.len() as int) == checks@);
    }
    let mut best: Option<usize> = None;
    let mut j: usize = 0;
    while j < by_index.len()
        invariant
            j <= by_index@.len(),
            match worst(by_index@.subrange(0, j as int)) {
                Some(w) => (best matches Some(b) && b < j && by_index@[b as int] == w),
                None => best is None,
            },
        decreases by_index.len() - j,
    {
        proof {
            assert(by_index@.subrange(0, j + 1).drop_last() == by_index@.subrange(0, j as int));
            assert(by_index@.subrange(0, j + 1).last() == by_index@[j as int]);
        }
        let take = match best {
            Some(b) => rank_of(by_index[j].1) >= rank_of(by_index[b].1),
            None => true,
        };
        if take {
            best = Some(j);
        }
        j = j + 1;
    }
    proof {
        assert(by_index@.subrange(0, by_index@.len() as int) == by_index@);
    }
    match best {
        Some(b) => {
            let w = copy_check(&by_index[b]);
            Some((w.1, w.2))
        },
        None => None,
    }
}

/// Every slot of an index that has a matching outcome among `checks` is a match.
proof fn lemma_match_kept(checks: Seq<RomCheck>, ix: u32)
    requires
        exists|i: int| 0 <= i < checks.len() && (#[trigger] checks[i]).0 == ix && checks[i].1 == Check::Match,
    ensures
        slot_of(slots(checks), ix) >= 0,
        slots(checks)[slot_of(slots(checks), ix)].1 == Check::Match,
    decreases checks.len(),
{
    let rest = checks.drop_last();
    let c = checks.last();
    let s = slots(rest);
    assert(checks == rest.push(c));
    lemma_slot_of_range(s, c.0);
    lemma_slot_of_range(s, ix);
    let i = choose|i: int| 0 <= i < checks.len() && (#[trigger] checks[i]).0 == ix && checks[i].1 == Check::Match;
    if i < checks.len() - 1 {
        assert(rest[i] == checks[i]);
        lemma_match_kept(rest, ix);
    }
    lemma_slots_slot(rest, c, ix);
}

/// How one more outcome changes the slot of index `ix`.
proof fn lemma_slots_slot(rest: Seq<RomCheck>, c: RomCheck, ix: u32)
    ensures
        ({
            let s = slots(rest);
            let s2 = slots(rest.push(c));
            &&& slot_of(s, ix) >= 0 ==> slot_of(s2, ix) == slot_of(s, ix)
            &&& slot_of(s, ix) >= 0 && s[slot_of(s, ix)].1 == Check::Match ==> s2[slot_of(s2, ix)].1 == Check::Match
            &&& c.0 == ix && c.1 == Check::Match ==> slot_of(s2, ix) >= 0 && s2[slot_of(s2, ix)].1 == Check::Match
        }),
{
    let s = slots(rest);
    let checks = rest.push(c);
    assert(checks.drop_last() == rest);
    assert(checks.last() == c);
    let s2 = slots(checks);
    lemma_slot_of_range(s, ix);
    lemma_slot_of_range(s, c.0);
    let k = slot_of(s, c.0);
    if k < 0 {
        assert(s2 == s.push(c));
        lemma_slot_of_push(s, c, ix);
    } else {
        lemma_slot_of_update(s, k, c, ix);
    }
}

proof fn lemma_slot_of_push(s: Seq<RomCheck>, c: RomCheck, ix: u32)
    requires
        slot_of(s, c.0) < 0,
    ensures
        slot_of(s, ix) >= 0 ==> slot_of(s.push(c), ix) == slot_of(s, ix),
        c.0 == ix ==> slot_of(s.push(c), ix) == s.len(),
{
    let s2 = s.push(c);
    assert(s2.drop_last() == s);
    lemma_slot_of_range(s, c.0);
    lemma_slot_of_range(s, ix);
    if slot_of(s, ix) >= 0 {
        assert(s[slot_of(s, ix)].0 == ix);
        assert(c.0 != ix);
    }
}

proof fn lemma_slot_of_update(s: Seq<RomCheck>, k: int, c: RomCheck, ix: u32)
    requires
        0 <= k < s.len(),
        s[k].0 == c.0,
    ensures
        slot_of(s.update(k, c), ix) == slot_of(s, ix),
    decreases s.len(),
{
    let s2 = s.update(k, c);
    if s.len() > 0 {
        if k == s.len() - 1 {
            assert(s2.drop_last() == s.drop_last());
        } else {
            assert(s2.drop_last() == s.drop_last().update(k, c));
            lemma_slot_of_update(s.drop_last(), k, c, ix);
        }
    }
}

/// The worst of slots that are all matches is a match.
proof fn lemma_worst_of_matches(s: Seq<RomCheck>)
    requires
        forall|j: int| 0 <= j < s.len() ==> (#[trigger] s[j]).1 == Check::Match,
    ensures
        s.len() > 0 ==> (worst(s) matches Some(w) && w.1 == Check::Match),
        s.len() == 0 ==> worst(s) is None,
    decreases s.len(),
{
    if s.len() > 0 {
        assert forall|j: int| 0 <= j < s.len() - 1 implies (#[trigger] s.drop_last()[j]).1 == Check::Match by {
            assert(s.drop_last()[j] == s[j]);
        }
        lemma_worst_of_matches(s.drop_last());
        assert(s[s.len() - 1].1 == Check::Match);
    }
}

proof fn lemma_slots_from_checks(checks: Seq<RomCheck>, j: int)
    requires
        0 <= j < slots(checks).len(),
    ensures
        exists|i: int| 0 <= i < checks.len() && (#[trigger] checks[i]).0 == slots(checks)[j].0,
    decreases checks.len(),
{
    let rest = checks.drop_last();
    let c = checks.last();
    let s = slots(rest);
    lemma_slot_of_range(s, c.0);
    let k = slot_of(s, c.0);
    if k < 0 && j == s.len() {
        assert(checks[checks.len() - 1] == c);
    } else if k >= 0 && j == k && rank(c.1) < rank(s[k].1) {
        assert(checks[checks.len() - 1] == c);
    } else {
        lemma_slots_from_checks(rest, j);
        let i = choose|i: int| 0 <= i < rest.len() && (#[trigger] rest[i]).0 == s[j].0;
        assert(checks[i] == rest[i]);
    }
}

/// One matching alternative of each index is enough: when every index has a matching
/// outcome, the verdict is a match; without any outcome there is no verdict.
pub proof fn lemma_one_match_per_index_is_enough(checks: Seq<RomCheck>)
    requires
        forall|i: int| 0 <= i < checks.len() ==> exists|m: int|
            0 <= m < checks.len() && (#[trigger] checks[m]).0 == (#[trigger] checks[i]).0 && checks[m].1 == Check::Match,
    ensures
        checks.len() > 0 ==> (worst(slots(checks)) matches Some(w) && w.1 == Check::Match),
        checks.len() == 0 ==> worst(slots(checks)) is None,
{
    let s = slots(checks);
    assert forall|j: int| 0 <= j < s.len() implies (#[trigger] s[j]).1 == Check::Match by {
        lemma_slots_from_checks(checks, j);
        let i = choose|i: int| 0 <= i < checks.len() && (#[trigger] checks[i]).0 == s[j].0;
        let m = choose|m: int| 0 <= m < checks.len() && (#[trigger] checks[m]).0 == (#[trigger] checks[i]).0 && checks[m].1 == Check::Match;
        lemma_match_kept(checks, s[j].0);
        lemma_slot_of_range(s, s[j].0);
        lemma_slots_distinct(checks);
    }
    lemma_worst_of_matches(s);
    if checks.len() > 0 {
        lemma_slots_nonempty(checks);
    }
}

proof fn lemma_slots_nonempty(checks: Seq<RomCheck>)
    requires
        checks.len() > 0,
    ensures
        slots(checks).len() > 0,
    decreases checks.len(),
{
    if checks.len() > 1 {
        lemma_slots_nonempty(checks.drop_last());
    }
    lemma_slot_of_range(slots(checks.drop_last()), checks.last().0);
}

/// No two slots share an index.
proof fn lemma_slots_distinct(checks: Seq<RomCheck>)
    ensures
        forall|a: int, b: int| 0 <= a < b < slots(checks).len() ==> (#[trigger] slots(checks)[a]).0 != (#[trigger] slots(checks)[b]).0,
    decreases checks.len(),
{
    if checks.len() > 0 {
        let rest = checks.drop_last();
        let c = checks.last();
        let s = slots(rest);
        lemma_slots_distinct(rest);
        lemma_slot_of_range(s, c.0);
        let k = slot_of(s, c.0);
        let s2 = slots(checks);
        if k < 0 {
            assert forall|a: int, b: int| 0 <= a < b < s2.len() implies (#[trigger] s2[a]).0 != (#[trigger] s2[b]).0 by {
                if b == s.len() {
                    assert(s2[a] == s[a]);
                } else {
                    assert(s2[a] == s[a] && s2[b] == s[b]);
                }
            }
        } else {
            assert forall|a: int, b: int| 0 <= a < b < s2.len() implies (#[trigger] s2[a]).0 != (#[trigger] s2[b]).0 by {
                assert(s2[a].0 == s[a].0);
                assert(s2[b].0 == s[b].0);
            }
        }
    }
}

} // verus!

verus! {

/// `stamp` followed by `;place:file_stamp` for each pair of `placed`, in order.
pub open spec fn stamp_text(stamp: Seq<char>, placed: Seq<(Seq<char>, Seq<char>)>) -> Seq<char>
    decreases placed.len(),
{
    if placed.len() == 0 {
        stamp
    } else {
        stamp_text(stamp, placed.drop_last()) + seq![';'] + placed.last().0 + seq![':'] + placed.last().1
    }
}

/// Whether every zip of `zips` was found on disk.
pub open spec fn all_found(zips: Seq<(String, Option<String>)>) -> bool {
    forall|i: int| 0 <= i < zips.len() ==> (#[trigger] zips[i]).1 is Some
}

/// The place and file stamp of each zip of `zips`, all found on disk.
pub open spec fn found_pairs(zips: Seq<(String, Option<String>)>) -> Seq<(Seq<char>, Seq<char>)> {
    zips.map_values(|z: (String, Option<String>)| (z.0@, z.1->0@))
}

/// What the md5 check of an MRA stamped `mra_stamp` depends on: the MRA's stamp, then
/// each zip's place (`dir/file`) and file stamp in place order, so the order the MRA or
/// the database lists the zips in never counts; `None` without zips or with one not on
/// disk. `zips` gives each zip's place and, when it is on disk, its file stamp.
pub open spec fn joined_stamp_of(mra_stamp: Seq<char>, zips: Seq<(String, Option<String>)>) -> Option<Seq<char>> {
    if zips.len() == 0 || !all_found(zips) {
        None
    } else {
        Some(stamp_text(mra_stamp, found_pairs(zips).sort_by(crate::sort::pair_order())))
    }
}

/// See [`joined_stamp_of`].
pub fn joined_stamp(mra_stamp: &str, zips: &Vec<(String, Option<String>)>) -> (r: Option<String>)
    ensures
        match r {
            Some(s) => joined_stamp_of(mra_stamp@, zips@) == Some(s@),
            None => joined_stamp_of(mra_stamp@, zips@) is None,
        },
{
    if zips.len() == 0 {
        return None;
    }
    let mut placed: Vec<(String, String)> = Vec::new();
    let mut i: usize = 0;
    while i < zips.len()
        invariant
            i <= zips@.len(),
            crate::sort::pairs_view(placed@) == found_pairs(zips@.subrange(0, i as int)),
            all_found(zips@.subrange(0, i as int)),
        decreases zips.len() - i,
    {
        let stamp = match &zips[i].1 {
            Some(s) => s.clone(),
            None => {
                proof {
                    assert(!all_found(zips@)) by {
                        assert(zips@[i as int].1 is None);
                    }
                }
                return None;
            },
        };
        let ghost before = placed@;
        let place = zips[i].0.clone();
        proof {
            assert(place@ == zips@[i as int].0@);
            assert(stamp@ == zips@[i as int].1->0@);
        }
        placed.push((place, stamp));
        proof {
            let next = zips@.subrange(0, i + 1);
            assert(placed@ == before.push((place, stamp)));
            assert(crate::sort::pairs_view(placed@) =~= crate::sort::pairs_view(before).push(
                crate::sort::pair_view((place, stamp)),
            ));
            assert(next =~= zips@.subrange(0, i as int).push(zips@[i as int]));
            assert(crate::sort::pairs_view(placed@) =~= found_pairs(next));
            assert forall|k: int| 0 <= k < next.len() implies (#[trigger] next[k]).1 is Some by {
                if k < i {
                    assert(next[k] == zips@.subrange(0, i as int)[k]);
                }
            }
        }
        i = i + 1;
    }
    proof {
        assert(zips@.subrange(0, zips@.len() as int) == zips@);
    }
    let sorted = crate::sort::sort_pairs(&placed);
    let ghost want = found_pairs(zips@).sort_by(crate::sort::pair_order());
    let mut out = mra_stamp.to_string();
    let mut k: usize = 0;
    while k < sorted.len()
        invariant
            k <= sorted@.len(),
            crate::sort::pairs_view(sorted@) == want,
            out@ == stamp_text(mra_stamp@, want.subrange(0, k as int)),
        decreases sorted.len() - k,
    {
        proof {
            assert(want.subrange(0, k + 1).drop_last() == want.subrange(0, k as int));
            assert(want[k as int] == crate::sort::pair_view(sorted@[k as int]));
        }
        let head = crate::text::concat(out.as_str(), ";");
        let placed_at = crate::text::concat(head.as_str(), sorted[k].0.as_str());
        let sep = crate::text::concat(placed_at.as_str(), ":");
        out = crate::text::concat(sep.as_str(), sorted[k].1.as_str());
        proof {
            reveal_strlit(";");
            reveal_strlit(":");
            assert(";"@ == seq![';']);
            assert(":"@ == seq![':']);
        }
        k = k + 1;
    }
    proof {
        assert(want.subrange(0, want.len() as int) == want);
        assert(sorted@.len() == want.len());
    }
    Some(out)
}

/// What the md5 check of an MRA stamped `mra_stamp` depends on, or `None` when it cannot
/// run: no `<rom>` carries an md5 and names a zip (`any_md5`), or a zip is missing.
pub fn check_stamp(mra_stamp: &str, any_md5: bool, zips: &Vec<(String, Option<String>)>) -> (r: Option<String>)
    ensures
        match r {
            Some(s) => any_md5 && joined_stamp_of(mra_stamp@, zips@) == Some(s@),
            None => !any_md5 || joined_stamp_of(mra_stamp@, zips@) is None,
        },
{
    if !any_md5 {
        return None;
    }
    joined_stamp(mra_stamp, zips)
}

/// Mapping two lists that hold the same items, in any order, gives lists that hold the
/// same items.
proof fn lemma_map_same_items<A, B>(a: Seq<A>, b: Seq<A>, f: spec_fn(A) -> B)
    requires
        a.to_multiset() == b.to_multiset(),
    ensures
        a.map_values(f).to_multiset() == b.map_values(f).to_multiset(),
    decreases a.len(),
{
    broadcast use vstd::seq_lib::group_to_multiset_ensures;
    broadcast use vstd::multiset::group_multiset_axioms;
    a.to_multiset_ensures();
    b.to_multiset_ensures();
    if a.len() == 0 {
        assert(b.len() == 0);
        assert(a.map_values(f) =~= Seq::<B>::empty());
        assert(b.map_values(f) =~= Seq::<B>::empty());
    } else {
        let x = a.last();
        let a2 = a.drop_last();
        assert(a =~= a2.push(x));
        vstd::seq_lib::to_multiset_build(a2, x);
        assert(a.to_multiset().count(x) > 0);
        assert(b.to_multiset().count(x) > 0);
        assert(b.contains(x));
        let j = choose|j: int| 0 <= j < b.len() && b[j] == x;
        let b2 = b.remove(j);
        vstd::seq_lib::to_multiset_remove(b, j);
        assert(a2.to_multiset() =~= a.to_multiset().remove(x));
        lemma_map_same_items(a2, b2, f);
        let fa = a.map_values(f);
        let fb = b.map_values(f);
        assert(fa =~= a2.map_values(f).push(f(x)));
        vstd::seq_lib::to_multiset_build(a2.map_values(f), f(x));
        assert(fb.remove(j) =~= b2.map_values(f));
        vstd::seq_lib::to_multiset_remove(fb, j);
        assert(fb[j] == f(x));
        assert(fb.to_multiset() =~= fb.remove(j).to_multiset().insert(f(x)));
    }
}

/// Lists that hold the same items have a missing zip alike.
proof fn lemma_found_alike(a: Seq<(String, Option<String>)>, b: Seq<(String, Option<String>)>)
    requires
        a.to_multiset() == b.to_multiset(),
    ensures
        all_found(a) == all_found(b),
{
    a.to_multiset_ensures();
    b.to_multiset_ensures();
    if !all_found(a) {
        let i = choose|i: int| 0 <= i < a.len() && !((#[trigger] a[i]).1 is Some);
        assert(a.contains(a[i]));
        assert(a.to_multiset().count(a[i]) > 0);
        assert(b.to_multiset().count(a[i]) > 0);
        assert(b.contains(a[i]));
        let j = choose|j: int| 0 <= j < b.len() && b[j] == a[i];
        assert(!((b[j]).1 is Some));
    }
    if !all_found(b) {
        let i = choose|i: int| 0 <= i < b.len() && !((#[trigger] b[i]).1 is Some);
        assert(b.contains(b[i]));
        assert(b.to_multiset().count(b[i]) > 0);
        assert(a.to_multiset().count(b[i]) > 0);
        assert(a.contains(b[i]));
        let j = choose|j: int| 0 <= j < a.len() && a[j] == b[i];
        assert(!((a[j]).1 is Some));
    }
}

/// The check stamp ignores the order of the zips: the same zips, listed in any other order,
/// give the same stamp, and none when one of them is missing.
pub proof fn lemma_stamp_ignores_zip_order(
    mra_stamp: Seq<char>,
    a: Seq<(String, Option<String>)>,
    b: Seq<(String, Option<String>)>,
)
    requires
        a.to_multiset() == b.to_multiset(),
    ensures
        joined_stamp_of(mra_stamp, a) == joined_stamp_of(mra_stamp, b),
{
    broadcast use vstd::seq_lib::group_to_multiset_ensures;
    lemma_found_alike(a, b);
    assert(a.len() == a.to_multiset().len());
    assert(b.len() == b.to_multiset().len());
    if a.len() > 0 && all_found(a) {
        let f = |z: (String, Option<String>)| (z.0@, z.1->0@);
        assert(found_pairs(a) =~= a.map_values(f));
        assert(found_pairs(b) =~= b.map_values(f));
        lemma_map_same_items(a, b, f);
        let order = crate::sort::pair_order();
        crate::sort::lemma_pair_order_total();
        found_pairs(a).lemma_sort_by_ensures(order);
        found_pairs(b).lemma_sort_by_ensures(order);
        vstd::seq_lib::lemma_sorted_unique(found_pairs(a).sort_by(order), found_pairs(b).sort_by(order), order);
        assert(found_pairs(a).len() == found_pairs(a).to_multiset().len());
        assert(found_pairs(b).len() == found_pairs(b).to_multiset().len());
    }
}

} // verus!

verus! {

/// The Unicode lowercase of a text, as `str::to_lowercase` gives it.
pub uninterp spec fn lowercase(s: Seq<char>) -> Seq<char>;

/// `str::to_lowercase`: the full Unicode lowercase of `s`, a function of `s` alone; its
/// tables are not stated here.
#[verifier::external_body]
fn to_lowercase(s: &str) -> (r: String)
    ensures
        r@ == lowercase(s@),
{
    s.to_lowercase()
}

/// The title names a catalogue run has given out, compared in lowercase, so the
/// shallowest MRA keeps a name that deeper ones share.
#[derive(Debug)]
pub struct Claims {
    taken: Vec<String>,
}

impl Claims {
    /// The lowercase names taken.
    pub closed spec fn names(&self) -> Set<Seq<char>> {
        crate::assoc::texts(self.taken@)
    }

    /// No name taken yet.
    pub fn new() -> (c: Claims)
        ensures
            c.names() == Set::<Seq<char>>::empty(),
    {
        let c = Claims { taken: Vec::new() };
        proof {
            assert(c.names() =~= Set::<Seq<char>>::empty());
        }
        c
    }

    /// Takes `name` for this run: true, and taken, when no earlier MRA has it in any case;
    /// false, and nothing changes, when one has.
    pub fn claim(&mut self, name: &str) -> (fresh: bool)
        ensures
            fresh == !old(self).names().contains(lowercase(name@)),
            final(self).names() == old(self).names().insert(lowercase(name@)),
    {
        let key = to_lowercase(name);
        let mut k: usize = 0;
        while k < self.taken.len()
            invariant
                k <= self.taken@.len(),
                *self == *old(self),
                key@ == lowercase(name@),
                forall|m: int| 0 <= m < k ==> (#[trigger] self.taken@[m])@ != key@,
            decreases self.taken.len() - k,
        {
            if crate::text::string_eq(&self.taken[k], &key) {
                proof {
                    assert(crate::assoc::texts(self.taken@).contains(key@));
                    assert(self.names().insert(key@) =~= self.names());
                }
                return false;
            }
            k = k + 1;
        }
        let ghost before = self.taken@;
        self.taken.push(key);
        proof {
            assert(!crate::assoc::texts(before).contains(lowercase(name@)));
            assert(crate::assoc::texts(self.taken@) =~= crate::assoc::texts(before).insert(lowercase(name@))) by {
                assert forall|t: Seq<char>| crate::assoc::texts(self.taken@).contains(t) implies crate::assoc::texts(before).insert(
                    lowercase(name@),
                ).contains(t) by {
                    let m = choose|m: int| 0 <= m < self.taken@.len() && (#[trigger] self.taken@[m])@ == t;
                    if m < before.len() {
                        assert(before[m] == self.taken@[m]);
                    }
                }
                assert forall|t: Seq<char>| crate::assoc::texts(before).insert(lowercase(name@)).contains(t) implies crate::assoc::texts(self.taken@).contains(t) by {
                    if t == lowercase(name@) {
                        assert(self.taken@[before.len() as int]@ == t);
                    } else {
                        let m = choose|m: int| 0 <= m < before.len() && (#[trigger] before[m])@ == t;
                        assert(self.taken@[m] == before[m]);
                    }
                }
            }
        }
        true
    }
}

/// Names that differ only in case are one name: once one is claimed, every later claim
/// of it in any case fails and leaves the claims as they were.
pub proof fn lemma_a_name_is_claimed_once(before: Set<Seq<char>>, a: Seq<char>, b: Seq<char>)
    requires
        lowercase(a) == lowercase(b),
    ensures
        before.insert(lowercase(a)).contains(lowercase(b)),
        before.insert(lowercase(a)).insert(lowercase(b)) == before.insert(lowercase(a)),
{
    assert(before.insert(lowercase(a)).insert(lowercase(b)) =~= before.insert(lowercase(a)));
}

/// The md5 check an unchanged MRA's title still needs.
#[derive(Debug, Clone, PartialEq, Eq)]
pub enum CheckStep {
    /// The stored check still holds.
    Keep,
    /// Run the check against this stamp.
    Run { stamp: String },
    /// No check applies any more: clear the stored one.
    Clear,
}

/// What a catalogue run does with one listed MRA.
#[derive(Debug, Clone, Copy, PartialEq, Eq, Structural)]
pub enum MraStep {
    /// Its stored title has the same file stamp: keep the title without parsing the MRA.
    Keep,
    /// It is new or changed: parse it and store its title under the new file stamp.
    Parse,
}

/// The step for an MRA whose file now stamps `listed` and whose stored title, if any, was
/// stored under file stamp `stored`.
pub open spec fn mra_step_of(stored: Option<Seq<char>>, listed: Seq<char>) -> MraStep {
    if stored == Some(listed) {
        MraStep::Keep
    } else {
        MraStep::Parse
    }
}

/// The file stamp stored for an MRA once `step` is carried out: a parsed MRA is stored
/// under the stamp it was listed with.
pub open spec fn file_stamp_after(stored: Option<Seq<char>>, step: MraStep, listed: Seq<char>) -> Option<Seq<char>> {
    match step {
        MraStep::Keep => stored,
        MraStep::Parse => Some(listed),
    }
}

/// The step for a listed MRA; see [`mra_step_of`].
pub fn mra_step(stored: Option<&str>, listed: &str) -> (r: MraStep)
    ensures
        r == mra_step_of(
            match stored {
                Some(s) => Some(s@),
                None => None,
            },
            listed@,
        ),
{
    match stored {
        Some(s) => if crate::text::str_is(s, listed) {
            MraStep::Keep
        } else {
            MraStep::Parse
        },
        None => MraStep::Parse,
    }
}

/// A catalogue run stores each MRA under the stamp it was listed with, so a second run over
/// an unchanged MRA parses nothing: it keeps the title.
pub proof fn lemma_second_run_parses_nothing(stored: Option<Seq<char>>, listed: Seq<char>)
    ensures
        file_stamp_after(stored, mra_step_of(stored, listed), listed) == Some(listed),
        mra_step_of(file_stamp_after(stored, mra_step_of(stored, listed), listed), listed) == MraStep::Keep,
{
}

/// A check step, as texts.
pub enum CheckModel {
    /// See [`CheckStep::Keep`].
    Keep,
    /// See [`CheckStep::Run`].
    Run(Seq<char>),
    /// See [`CheckStep::Clear`].
    Clear,
}

/// A check step, as texts.
pub open spec fn check_model(c: CheckStep) -> CheckModel {
    match c {
        CheckStep::Keep => CheckModel::Keep,
        CheckStep::Run { stamp } => CheckModel::Run(stamp@),
        CheckStep::Clear => CheckModel::Clear,
    }
}

/// The step for a stored check stamp `stored` and the stamp `now` the inputs give.
pub open spec fn recheck_of(stored: Option<Seq<char>>, now: Option<Seq<char>>) -> CheckModel {
    match (stored, now) {
        (Some(s), Some(n)) => if s == n {
            CheckModel::Keep
        } else {
            CheckModel::Run(n)
        },
        (None, None) => CheckModel::Keep,
        (_, Some(n)) => CheckModel::Run(n),
        (_, None) => CheckModel::Clear,
    }
}

/// The check stamp stored once `step` is carried out over `stored`.
pub open spec fn stamp_after(stored: Option<Seq<char>>, step: CheckModel) -> Option<Seq<char>> {
    match step {
        CheckModel::Keep => stored,
        CheckModel::Run(n) => Some(n),
        CheckModel::Clear => None,
    }
}

/// A catalogue run leaves each title's check stamped with what its inputs give now, so a
/// second run over unchanged inputs keeps every check and runs none.
pub proof fn lemma_second_run_keeps_every_check(stored: Option<Seq<char>>, now: Option<Seq<char>>)
    ensures
        stamp_after(stored, recheck_of(stored, now)) == now,
        recheck_of(stamp_after(stored, recheck_of(stored, now)), now) == CheckModel::Keep,
{
}

/// The step for a title whose stored check stamp is `stored` and whose inputs now stamp
/// `now` (see [`check_stamp`]): keep the check while the two agree, run it against a new
/// stamp, and clear it when no check applies.
pub fn recheck_step(stored: Option<&str>, now: Option<String>) -> (r: CheckStep)
    ensures
        check_model(r) == recheck_of(
            match stored {
                Some(s) => Some(s@),
                None => None,
            },
            match now {
                Some(n) => Some(n@),
                None => None,
            },
        ),
        match (stored, now) {
            (Some(s), Some(n)) => if s@ == n@ {
                r == CheckStep::Keep
            } else {
                r == (CheckStep::Run { stamp: n })
            },
            (None, None) => r == CheckStep::Keep,
            (_, Some(n)) => r == (CheckStep::Run { stamp: n }),
            (_, None) => r == CheckStep::Clear,
        },
{
    match (stored, now) {
        (Some(s), Some(n)) => {
            if crate::text::str_is(n.as_str(), s) {
                CheckStep::Keep
            } else {
                CheckStep::Run { stamp: n }
            }
        },
        (None, None) => CheckStep::Keep,
        (_, Some(n)) => CheckStep::Run { stamp: n },
        (_, None) => CheckStep::Clear,
    }
}

/// A zip a stored title names: its name, its directory, and whether it was found last time.
#[derive(Debug, Clone)]
pub struct StoredZip {
    /// The zip's file name.
    pub name: String,
    /// Its directory under `games/`.
    pub dir: String,
    /// Whether it was on disk when last looked for.
    pub present: bool,
}

/// The zips of `zips` whose presence changed, given whether each is on disk now
/// (`on_disk`), in order, with their new presence.
pub open spec fn flips(zips: Seq<StoredZip>, on_disk: Seq<bool>) -> Seq<(Seq<char>, Seq<char>, bool)>
    decreases zips.len(),
{
    if zips.len() == 0 {
        Seq::empty()
    } else {
        let n = (zips.len() - 1) as int;
        let before = flips(zips.drop_last(), on_disk);
        if zips[n].present != on_disk[n] {
            before.push((zips[n].name@, zips[n].dir@, on_disk[n]))
        } else {
            before
        }
    }
}

/// The presence updates of an unchanged MRA's zips; see [`flips`].
pub fn presence_flips(zips: &Vec<StoredZip>, on_disk: &Vec<bool>) -> (r: Vec<(String, String, bool)>)
    requires
        zips@.len() == on_disk@.len(),
    ensures
        r@.map_values(|t: (String, String, bool)| (t.0@, t.1@, t.2)) == flips(zips@, on_disk@),
{
    let mut out: Vec<(String, String, bool)> = Vec::new();
    let mut i: usize = 0;
    while i < zips.len()
        invariant
            i <= zips@.len(),
            zips@.len() == on_disk@.len(),
            out@.map_values(|t: (String, String, bool)| (t.0@, t.1@, t.2)) == flips(
                zips@.subrange(0, i as int),
                on_disk@,
            ),
        decreases zips.len() - i,
    {
        proof {
            let next = zips@.subrange(0, i + 1);
            assert(next.drop_last() == zips@.subrange(0, i as int));
            assert(next[i as int] == zips@[i as int]);
        }
        if zips[i].present != on_disk[i] {
            let ghost before = out@;
            let z = &zips[i];
            let t = (z.name.clone(), z.dir.clone(), on_disk[i]);
            out.push(t);
            proof {
                assert(out@.map_values(|t: (String, String, bool)| (t.0@, t.1@, t.2)) =~= before.map_values(
                    |t: (String, String, bool)| (t.0@, t.1@, t.2),
                ).push((zips@[i as int].name@, zips@[i as int].dir@, on_disk@[i as int])));
            }
        }
        i = i + 1;
    }
    proof {
        assert(zips@.subrange(0, zips@.len() as int) == zips@);
    }
    out
}

} // verus!

verus! {

/// The folder under `_Arcade` never searched, lowercase: the Arcade Organizer's tree holds
/// only links to MRA files found elsewhere.
pub const SKIPPED_DIR: &'static str = "_organized";

/// Whether the MRA walk enters folder `name` found at depth `depth`: above
/// [`MAX_DEPTH`], and not the organizer's tree in any case.
pub fn descends(name: &str, depth: usize) -> (r: bool)
    ensures
        r == (depth < MAX_DEPTH && lowercase(name@) != SKIPPED_DIR@),
{
    if depth >= MAX_DEPTH {
        return false;
    }
    let lower = to_lowercase(name);
    !crate::text::str_is(lower.as_str(), SKIPPED_DIR)
}

/// Whether a file named `name` is an MRA: its extension is `mra` in any ASCII case.
pub fn is_mra_name(name: &str) -> (r: bool)
    ensures
        r == (crate::jobs::scan::extension_of(name@) == Some("mra"@)),
{
    match crate::jobs::scan::extension(name) {
        Some(e) => crate::text::str_is(e.as_str(), "mra"),
        None => false,
    }
}

/// An MRA file the walk found: its path under `_Arcade` and the file it is, as device
/// and inode, so two names of one file are told apart from two files.
#[derive(Debug, Clone)]
pub struct FoundMra {
    /// `/`-separated path under `_Arcade`.
    pub rel: String,
    /// The device holding the file.
    pub dev: u64,
    /// The file's inode on that device.
    pub ino: u64,
}

/// How many `/` a path holds: its depth under `_Arcade`.
pub open spec fn slashes(s: Seq<char>) -> nat
    decreases s.len(),
{
    if s.len() == 0 {
        0
    } else {
        slashes(s.drop_last()) + if s.last() == '/' { 1nat } else { 0nat }
    }
}

/// MRA `a` is listed no later than `b`: shallower first, then alphabetically.
pub open spec fn mra_le(a: FoundMra, b: FoundMra) -> bool {
    slashes(a.rel@) < slashes(b.rel@) || (slashes(a.rel@) == slashes(b.rel@) && crate::sort::lex_le(a.rel@, b.rel@))
}

/// Whether two found names are one file.
pub open spec fn same_file(a: FoundMra, b: FoundMra) -> bool {
    a.dev == b.dev && a.ino == b.ino
}

/// Whether `order` lists every index of `n` found MRAs once.
pub open spec fn lists_each(order: Seq<usize>, n: nat) -> bool {
    &&& order.len() == n
    &&& forall|k: int| 0 <= k < order.len() ==> (#[trigger] order[k]) < n
    &&& forall|a: int, b: int| 0 <= a < b < order.len() ==> #[trigger] order[a] != #[trigger] order[b]
}

/// Whether `order` lists `found` shallowest and then alphabetically first.
pub open spec fn in_mra_order(found: Seq<FoundMra>, order: Seq<usize>) -> bool {
    forall|a: int, b: int| 0 <= a < b < order.len() ==> mra_le(found[#[trigger] order[a] as int], found[#[trigger] order[b] as int])
}

/// The indices of `order` whose file no earlier index of `order` is: the first name of
/// each file.
pub open spec fn first_names(found: Seq<FoundMra>, order: Seq<usize>) -> Seq<usize>
    decreases order.len(),
{
    if order.len() == 0 {
        Seq::empty()
    } else {
        let n = (order.len() - 1) as int;
        let before = first_names(found, order.drop_last());
        if exists|m: int| 0 <= m < n && same_file(found[#[trigger] order[m] as int], found[order[n] as int]) {
            before
        } else {
            before.push(order[n])
        }
    }
}

/// How many `/` a path holds.
fn depth_of(rel: &str) -> (d: usize)
    ensures
        d == slashes(rel@),
{
    let n = rel.unicode_len();
    let mut d: usize = 0;
    let mut i: usize = 0;
    while i < n
        invariant
            i <= n,
            n == rel@.len(),
            d == slashes(rel@.subrange(0, i as int)),
            d <= i,
        decreases n - i,
    {
        proof {
            assert(rel@.subrange(0, i + 1).drop_last() == rel@.subrange(0, i as int));
        }
        if rel.get_char(i) == '/' {
            d = d + 1;
        }
        i = i + 1;
    }
    proof {
        assert(rel@.subrange(0, n as int) == rel@);
    }
    d
}

/// Whether MRA `a` is listed no later than `b`.
fn mra_before(a: &FoundMra, b: &FoundMra) -> (r: bool)
    ensures
        r == mra_le(*a, *b),
{
    let da = depth_of(a.rel.as_str());
    let db = depth_of(b.rel.as_str());
    da < db || (da == db && crate::sort::text_le(&a.rel, &b.rel))
}

proof fn lemma_mra_total(a: FoundMra, b: FoundMra)
    ensures
        mra_le(a, b) || mra_le(b, a),
{
    crate::sort::lemma_lex_total(a.rel@, b.rel@);
}

proof fn lemma_mra_trans(a: FoundMra, b: FoundMra, c: FoundMra)
    requires
        mra_le(a, b),
        mra_le(b, c),
    ensures
        mra_le(a, c),
{
    if slashes(a.rel@) == slashes(b.rel@) && slashes(b.rel@) == slashes(c.rel@) {
        crate::sort::lemma_lex_trans(a.rel@, b.rel@, c.rel@);
    }
}

/// The MRA files of a walk in the order the catalogue reads them, by index into `found`:
/// shallowest and then alphabetically first, each file once under the first of its names.
pub fn mra_order(found: &Vec<FoundMra>) -> (out: Vec<usize>)
    ensures
        exists|order: Seq<usize>| lists_each(order, found@.len()) && in_mra_order(found@, order) && out@ == first_names(found@, order),
{
    let mut order: Vec<usize> = Vec::new();
    let mut i: usize = 0;
    while i < found.len()
        invariant
            i <= found@.len(),
            order@.len() == i,
            forall|k: int| 0 <= k < order@.len() ==> (#[trigger] order@[k]) < i,
            forall|a: int, b: int| 0 <= a < b < order@.len() ==> #[trigger] order@[a] != #[trigger] order@[b],
            in_mra_order(found@, order@),
        decreases found.len() - i,
    {
        let mut p: usize = 0;
        while p < order.len() && mra_before(&found[order[p]], &found[i])
            invariant
                p <= order@.len(),
                i < found@.len(),
                forall|k: int| 0 <= k < order@.len() ==> (#[trigger] order@[k]) < i,
                forall|k: int| 0 <= k < p ==> mra_le(found@[#[trigger] order@[k] as int], found@[i as int]),
            decreases order.len() - p,
        {
            p = p + 1;
        }
        let ghost before = order@;
        proof {
            if p < before.len() {
                assert(!mra_le(found@[before[p as int] as int], found@[i as int]));
                lemma_mra_total(found@[before[p as int] as int], found@[i as int]);
                assert forall|k: int| p <= k < before.len() implies mra_le(found@[i as int], found@[#[trigger] before[k] as int]) by {
                    if k > p {
                        lemma_mra_trans(found@[i as int], found@[before[p as int] as int], found@[before[k] as int]);
                    }
                }
            }
        }
        order.insert(p, i);
        proof {
            let after = order@;
            assert(after =~= before.insert(p as int, i));
            assert forall|a: int, b: int| 0 <= a < b < after.len() implies mra_le(found@[#[trigger] after[a] as int], found@[#[trigger] after[b] as int]) by {
                if a < p && b < p {
                    assert(after[a] == before[a] && after[b] == before[b]);
                } else if a < p && b == p {
                    assert(after[a] == before[a]);
                } else if a < p && b > p {
                    assert(after[a] == before[a] && after[b] == before[b - 1]);
                } else if a == p {
                    assert(after[b] == before[b - 1]);
                } else {
                    assert(after[a] == before[a - 1] && after[b] == before[b - 1]);
                }
            }
            assert forall|k: int| 0 <= k < after.len() implies (#[trigger] after[k]) < i + 1 by {
                if k < p {
                    assert(after[k] == before[k]);
                } else if k > p {
                    assert(after[k] == before[k - 1]);
                }
            }
            assert forall|a: int, b: int| 0 <= a < b < after.len() implies #[trigger] after[a] != #[trigger] after[b] by {
                if a < p && b < p {
                    assert(after[a] == before[a] && after[b] == before[b]);
                } else if a < p && b == p {
                    assert(after[a] == before[a]);
                } else if a < p && b > p {
                    assert(after[a] == before[a] && after[b] == before[b - 1]);
                } else if a == p {
                    assert(after[b] == before[b - 1]);
                } else {
                    assert(after[a] == before[a - 1] && after[b] == before[b - 1]);
                }
            }
        }
        i = i + 1;
    }
    let mut out: Vec<usize> = Vec::new();
    let mut k: usize = 0;
    while k < order.len()
        invariant
            k <= order@.len(),
            order@.len() == found@.len(),
            forall|m: int| 0 <= m < order@.len() ==> (#[trigger] order@[m]) < found@.len(),
            out@ == first_names(found@, order@.subrange(0, k as int)),
        decreases order.len() - k,
    {
        let ghost pre = order@.subrange(0, k + 1);
        proof {
            assert(pre.drop_last() == order@.subrange(0, k as int));
            assert(pre[k as int] == order@[k as int]);
        }
        let mut repeat = false;
        let mut m: usize = 0;
        while m < k
            invariant
                m <= k,
                k < order@.len(),
                order@.len() == found@.len(),
                forall|x: int| 0 <= x < order@.len() ==> (#[trigger] order@[x]) < found@.len(),
                repeat == exists|j: int| 0 <= j < m && same_file(found@[#[trigger] order@[j] as int], found@[order@[k as int] as int]),
            decreases k - m,
        {
            let (a, b) = (&found[order[m]], &found[order[k]]);
            if a.dev == b.dev && a.ino == b.ino {
                repeat = true;
            }
            m = m + 1;
        }
        proof {
            assert(repeat == exists|j: int| 0 <= j < k && same_file(found@[#[trigger] pre[j] as int], found@[pre[k as int] as int])) by {
                if repeat {
                    let j = choose|j: int| 0 <= j < k && same_file(found@[#[trigger] order@[j] as int], found@[order@[k as int] as int]);
                    assert(pre[j] == order@[j]);
                }
                if exists|j: int| 0 <= j < k && same_file(found@[#[trigger] pre[j] as int], found@[pre[k as int] as int]) {
                    let j = choose|j: int| 0 <= j < k && same_file(found@[#[trigger] pre[j] as int], found@[pre[k as int] as int]);
                    assert(pre[j] == order@[j]);
                }
            }
        }
        if !repeat {
            out.push(order[k]);
        }
        k = k + 1;
    }
    proof {
        assert(order@.subrange(0, order@.len() as int) == order@);
    }
    out
}

#[verifier::spinoff_prover]
#[verifier::rlimit(30)]
proof fn lemma_first_names(found: Seq<FoundMra>, order: Seq<usize>)
    requires
        forall|k: int| 0 <= k < order.len() ==> (#[trigger] order[k]) < found.len(),
    ensures
        forall|k: int| 0 <= k < first_names(found, order).len() ==> exists|m: int|
            0 <= m < order.len() && #[trigger] first_names(found, order)[k] == order[m],
        forall|a: int, b: int|
            0 <= a < b < first_names(found, order).len() ==> !same_file(
                found[#[trigger] first_names(found, order)[a] as int],
                found[#[trigger] first_names(found, order)[b] as int],
            ),
        forall|m: int| #![trigger order[m]] 0 <= m < order.len() ==> exists|k: int|
            0 <= k < first_names(found, order).len() && same_file(
                found[#[trigger] first_names(found, order)[k] as int],
                found[order[m] as int],
            ),
    decreases order.len(),
{
    if order.len() > 0 {
        let n = (order.len() - 1) as int;
        let rest = order.drop_last();
        lemma_first_names(found, rest);
        let before = first_names(found, rest);
        let out = first_names(found, order);
        assert forall|k: int| 0 <= k < before.len() implies exists|m: int| 0 <= m < order.len() && #[trigger] before[k] == order[m] by {
            let m = choose|m: int| 0 <= m < rest.len() && before[k] == rest[m];
            assert(order[m] == rest[m]);
        }
        if exists|m: int| 0 <= m < n && same_file(found[#[trigger] order[m] as int], found[order[n] as int]) {
            assert(out == before);
            assert forall|m: int| #![trigger order[m]] 0 <= m < order.len() implies exists|k: int|
                0 <= k < out.len() && same_file(found[#[trigger] out[k] as int], found[order[m] as int]) by {
                if m < n {
                    assert(order[m] == rest[m]);
                } else {
                    let j = choose|j: int| 0 <= j < n && same_file(found[#[trigger] order[j] as int], found[order[n] as int]);
                    assert(order[j] == rest[j]);
                    let k = choose|k: int| 0 <= k < before.len() && same_file(found[#[trigger] before[k] as int], found[rest[j] as int]);
                    assert(same_file(found[out[k] as int], found[order[m] as int]));
                }
            }
        } else {
            assert(out == before.push(order[n]));
            assert forall|k: int| 0 <= k < out.len() implies exists|m: int| 0 <= m < order.len() && #[trigger] out[k] == order[m] by {
                if k < before.len() {
                    assert(out[k] == before[k]);
                } else {
                    assert(out[k] == order[n]);
                }
            }
            assert forall|a: int, b: int| 0 <= a < b < out.len() implies !same_file(found[#[trigger] out[a] as int], found[#[trigger] out[b] as int]) by {
                if b < before.len() {
                    assert(out[a] == before[a] && out[b] == before[b]);
                } else {
                    assert(out[a] == before[a]);
                    let m = choose|m: int| 0 <= m < rest.len() && before[a] == rest[m];
                    assert(order[m] == rest[m]);
                    assert(!same_file(found[order[m] as int], found[order[n] as int]));
                }
            }
            assert forall|m: int| #![trigger order[m]] 0 <= m < order.len() implies exists|k: int|
                0 <= k < out.len() && same_file(found[#[trigger] out[k] as int], found[order[m] as int]) by {
                if m < n {
                    assert(order[m] == rest[m]);
                    let k = choose|k: int| 0 <= k < before.len() && same_file(found[#[trigger] before[k] as int], found[rest[m] as int]);
                    assert(out[k] == before[k]);
                } else {
                    assert(out[before.len() as int] == order[n]);
                }
            }
        }
    }
}

/// Every file the walk found is listed once: no two listed names are one file, and each
/// name found is one of a listed file.
pub proof fn lemma_each_file_listed_once(found: Seq<FoundMra>, order: Seq<usize>)
    requires
        lists_each(order, found.len()),
    ensures
        forall|a: int, b: int|
            0 <= a < b < first_names(found, order).len() ==> !same_file(
                found[#[trigger] first_names(found, order)[a] as int],
                found[#[trigger] first_names(found, order)[b] as int],
            ),
        forall|m: int| #![trigger order[m]] 0 <= m < order.len() ==> exists|k: int|
            0 <= k < first_names(found, order).len() && same_file(
                found[#[trigger] first_names(found, order)[k] as int],
                found[order[m] as int],
            ),
{
    lemma_first_names(found, order);
}

} // verus!
