//! CHD disc images: the stored reason a container waits for, and the classification of
//! its tracks against the DAT titles whose roms they match.

use vstd::prelude::*;
use crate::jobs::scan::{RomMatch, FileState, after_last, baddump};
use crate::text::lower;

verus! {

/// `jobs.kind` of [`ChdTracks`].
pub const KIND: &'static str = "chd_tracks";

/// The reason of a container waiting to be decoded.
pub const PENDING: &'static str = "pending";

/// The reason of a container left alone while decoding is off.
pub const OFF: &'static str = "off";

/// The reason of a container whose track layout is unknown.
pub const NO_LAYOUT: &'static str = "no_layout";

/// The reason a container's row keeps once decoding is turned on or off: `pending`
/// and `off` follow the setting, `no_layout` turns `off` while it is off (nothing
/// waits then), and any other reason stays.
pub open spec fn settled_reason(reason: Seq<char>, on: bool) -> Seq<char> {
    if on && (reason == PENDING@ || reason == OFF@) {
        PENDING@
    } else if !on && (reason == PENDING@ || reason == OFF@ || reason == NO_LAYOUT@) {
        OFF@
    } else {
        reason
    }
}

/// The reason a container's row keeps once decoding is turned on or off.
pub fn settle<'a>(reason: &'a str, on: bool) -> (r: &'a str)
    ensures
        r@ == settled_reason(reason@, on),
{
    let pending = crate::text::str_is(reason, PENDING);
    let off = crate::text::str_is(reason, OFF);
    let no_layout = crate::text::str_is(reason, NO_LAYOUT);
    if on && (pending || off) {
        PENDING
    } else if !on && (pending || off || no_layout) {
        OFF
    } else {
        reason
    }
}

/// Decodes every `pending` CHD on the enabled disc platforms, one at a time, and records
/// its tracks.
#[derive(Debug, Clone, Copy, Default, PartialEq, Eq)]
pub struct ChdTracks;

impl ChdTracks {
    /// The job's kind.
    pub fn kind(&self) -> (k: &'static str)
        ensures
            k@ == KIND@,
    {
        KIND
    }
}

/// Whether `c` is an ASCII decimal digit.
pub open spec fn is_digit(c: char) -> bool {
    '0' <= c && c <= '9'
}

/// The number the decimal digits `s` spell.
pub open spec fn digits_value(s: Seq<char>) -> nat
    decreases s.len(),
{
    if s.len() == 0 {
        0
    } else {
        digits_value(s.drop_last()) * 10 + ((s.last() as int) - ('0' as int)) as nat
    }
}

/// The track a CHD member's name after `#` gives: its number when the name is all
/// decimal digits (a cue sheet or a missing name gives none).
pub open spec fn track_of(tail: Option<Seq<char>>) -> Option<nat> {
    match tail {
        Some(t) => if t.len() > 0 && forall|i: int| 0 <= i < t.len() ==> #[trigger] is_digit(t[i]) {
            Some(digits_value(t))
        } else {
            None
        },
        None => None,
    }
}

/// The track number of a CHD member named `tail` after the container's `#`: `None` for
/// a name that is not all digits, or one too large for a `usize`.
pub fn track_of_member(tail: Option<&str>) -> (r: Option<usize>)
    ensures
        r == (match track_of(
            match tail {
                Some(t) => Some(t@),
                None => None,
            },
        ) {
            Some(n) => if n <= usize::MAX { Some(n as usize) } else { None },
            None => None,
        }),
{
    let t = match tail {
        Some(t) => t,
        None => return None,
    };
    let cs = crate::text::chars_of(t);
    if cs.len() == 0 {
        return None;
    }
    let mut cur: Option<usize> = Some(0);
    let mut i: usize = 0;
    while i < cs.len()
        invariant
            i <= cs@.len(),
            cs@ == t@,
            tail == Some(t),
            forall|k: int| 0 <= k < i ==> #[trigger] is_digit(cs@[k]),
            match cur {
                Some(v) => v == digits_value(cs@.subrange(0, i as int)),
                None => digits_value(cs@.subrange(0, i as int)) > usize::MAX,
            },
        decreases cs.len() - i,
    {
        let c = cs[i];
        if !('0' <= c && c <= '9') {
            proof {
                assert(cs@[i as int] == c);
                assert(!is_digit(t@[i as int]));
                assert(!(forall|k: int| 0 <= k < t@.len() ==> #[trigger] is_digit(t@[k])));
            }
            return None;
        }
        let d: usize = ((c as u32) - ('0' as u32)) as usize;
        proof {
            assert(cs@.subrange(0, i + 1).drop_last() == cs@.subrange(0, i as int));
            assert(cs@.subrange(0, i + 1).last() == c);
        }
        cur = match cur {
            Some(v) => match v.checked_mul(10) {
                Some(w) => w.checked_add(d),
                None => None,
            },
            None => None,
        };
        i = i + 1;
    }
    proof {
        assert(cs@.subrange(0, cs@.len() as int) == cs@);
    }
    cur
}

// ---------------------------------------------------------------------------
// Classifying tracks

/// Whether a rom named `name` is a cue sheet: its last component ends in `.cue` in any
/// case.
pub open spec fn is_cue_name(name: Seq<char>) -> bool {
    let b = lower(after_last(name, '/'));
    b.len() >= 4 && b.subrange(b.len() - 4, b.len() as int) == seq!['.', 'c', 'u', 'e']
}

/// Whether `name` is a cue sheet rom.
pub fn is_cue(name: &str) -> (r: bool)
    ensures
        r == is_cue_name(name@),
{
    let base = crate::jobs::scan::basename(name);
    let chars = crate::text::chars_of(base);
    let b = crate::text::lower_chars(&chars);
    let n = b.len();
    if n < 4 {
        return false;
    }
    let r = b[n - 4] == '.' && b[n - 3] == 'c' && b[n - 2] == 'u' && b[n - 1] == 'e';
    proof {
        let t = b@.subrange(n - 4, n as int);
        if r {
            assert(t =~= seq!['.', 'c', 'u', 'e']);
        } else {
            if t == seq!['.', 'c', 'u', 'e'] {
                assert(t[0] == b@[n - 4]);
                assert(t[1] == b@[n - 3]);
                assert(t[2] == b@[n - 2]);
                assert(t[3] == b@[n - 1]);
            }
        }
    }
    r
}

/// The roms of `rs` that are cue sheets (`cue`) or tracks (not `cue`), in order.
pub open spec fn keep(rs: Seq<RomMatch>, cue: bool) -> Seq<RomMatch>
    decreases rs.len(),
{
    if rs.len() == 0 {
        Seq::empty()
    } else if is_cue_name(rs.last().name@) == cue {
        keep(rs.drop_last(), cue).push(rs.last())
    } else {
        keep(rs.drop_last(), cue)
    }
}

/// Whether one of `rs` is rom `id`.
pub open spec fn has_rom(rs: Seq<RomMatch>, id: i64) -> bool {
    exists|i: int| 0 <= i < rs.len() && (#[trigger] rs[i]).rom_id == id
}

/// A candidate `r` can take a track: it is one of the title's tracks and no earlier
/// track took it.
pub open spec fn eligible(r: RomMatch, tracks: Seq<RomMatch>, assigned: Seq<RomMatch>) -> bool {
    has_rom(tracks, r.rom_id) && !has_rom(assigned, r.rom_id)
}

/// The eligible candidate of `c` with the lowest rom id, the first of equals.
pub open spec fn best(c: Seq<RomMatch>, tracks: Seq<RomMatch>, assigned: Seq<RomMatch>) -> Option<RomMatch>
    decreases c.len(),
{
    if c.len() == 0 {
        None
    } else {
        let b = best(c.drop_last(), tracks, assigned);
        let r = c.last();
        if eligible(r, tracks, assigned) && (b is None || r.rom_id < b->0.rom_id) {
            Some(r)
        } else {
            b
        }
    }
}

/// The roms the first `k` tracks take, each the best of its candidates not taken by an
/// earlier track; `None` once a track finds none.
pub open spec fn assign_upto(cands: Seq<Seq<RomMatch>>, tracks: Seq<RomMatch>, k: nat) -> Option<Seq<RomMatch>>
    decreases k,
{
    if k == 0 {
        Some(Seq::empty())
    } else {
        match assign_upto(cands, tracks, (k - 1) as nat) {
            Some(a) => match best(cands[k - 1], tracks, a) {
                Some(r) => Some(a.push(r)),
                None => None,
            },
            None => None,
        }
    }
}

/// What a title whose roms are `rs` gives tracks whose candidates are `cands`: when its
/// track roms number the tracks and each track takes a distinct one, the roms taken in
/// track order and the title's cue roms.
pub open spec fn try_title(cands: Seq<Seq<RomMatch>>, rs: Seq<RomMatch>) -> Option<(Seq<RomMatch>, Seq<RomMatch>)> {
    let tracks = keep(rs, false);
    if tracks.len() != cands.len() {
        None
    } else {
        match assign_upto(cands, tracks, cands.len()) {
            Some(a) => Some((a, keep(rs, true))),
            None => None,
        }
    }
}

/// Whether one of `c` belongs to title `t`.
pub open spec fn lists_title(c: Seq<RomMatch>, t: i64) -> bool {
    exists|j: int| 0 <= j < c.len() && (#[trigger] c[j]).title_id == t
}

/// Title `t` has a candidate for every track, of which there is at least one.
pub open spec fn common_title(cands: Seq<Seq<RomMatch>>, t: i64) -> bool {
    cands.len() > 0 && forall|i: int| 0 <= i < cands.len() ==> #[trigger] lists_title(cands[i], t)
}

/// The candidates of each track, as sequences.
pub open spec fn cand_view(cands: Seq<Vec<RomMatch>>) -> Seq<Seq<RomMatch>> {
    cands.map_values(|c: Vec<RomMatch>| c@)
}

/// `disc_roms` answered title `t` with roms that do not fit the tracks.
pub open spec fn fails_for<F: Fn(i64) -> Vec<RomMatch>>(disc_roms: F, cands: Seq<Seq<RomMatch>>, t: i64) -> bool {
    exists|v: Vec<RomMatch>| #[trigger] disc_roms.ensures((t,), v) && try_title(cands, v@) is None
}

/// Whether one of `rs` is rom `id`.
fn holds_rom(rs: &Vec<RomMatch>, id: i64) -> (r: bool)
    ensures
        r == has_rom(rs@, id),
{
    let mut i: usize = 0;
    while i < rs.len()
        invariant
            i <= rs@.len(),
            forall|j: int| 0 <= j < i ==> (#[trigger] rs@[j]).rom_id != id,
        decreases rs.len() - i,
    {
        if rs[i].rom_id == id {
            return true;
        }
        i = i + 1;
    }
    false
}

/// The best candidate of `c`; see [`best`].
fn best_of(c: &Vec<RomMatch>, tracks: &Vec<RomMatch>, assigned: &Vec<RomMatch>) -> (r: Option<RomMatch>)
    ensures
        r == best(c@, tracks@, assigned@),
{
    let mut b: Option<RomMatch> = None;
    let mut j: usize = 0;
    while j < c.len()
        invariant
            j <= c@.len(),
            b == best(c@.subrange(0, j as int), tracks@, assigned@),
        decreases c.len() - j,
    {
        proof {
            assert(c@.subrange(0, j + 1).drop_last() == c@.subrange(0, j as int));
            assert(c@.subrange(0, j + 1).last() == c@[j as int]);
        }
        let r = &c[j];
        let ok = holds_rom(tracks, r.rom_id) && !holds_rom(assigned, r.rom_id);
        let better = match &b {
            None => true,
            Some(x) => r.rom_id < x.rom_id,
        };
        if ok && better {
            b = Some(r.duplicate());
        }
        j = j + 1;
    }
    proof {
        assert(c@.subrange(0, c@.len() as int) == c@);
    }
    b
}

proof fn lemma_assign_stays_failed(cands: Seq<Seq<RomMatch>>, tracks: Seq<RomMatch>, k: nat, n: nat)
    requires
        k <= n,
        assign_upto(cands, tracks, k) is None,
    ensures
        assign_upto(cands, tracks, n) is None,
    decreases n - k,
{
    if k < n {
        lemma_assign_stays_failed(cands, tracks, k + 1, n);
    }
}

/// What the title whose roms are `rs` gives the tracks; see [`try_title`].
pub fn try_title_roms(cands: &Vec<Vec<RomMatch>>, rs: &Vec<RomMatch>) -> (r: Option<(Vec<RomMatch>, Vec<RomMatch>)>)
    ensures
        match r {
            Some((a, c)) => try_title(cand_view(cands@), rs@) == Some((a@, c@)),
            None => try_title(cand_view(cands@), rs@) is None,
        },
{
    let ghost cv = cand_view(cands@);
    let mut cues: Vec<RomMatch> = Vec::new();
    let mut tracks: Vec<RomMatch> = Vec::new();
    let mut i: usize = 0;
    while i < rs.len()
        invariant
            i <= rs@.len(),
            cues@ == keep(rs@.subrange(0, i as int), true),
            tracks@ == keep(rs@.subrange(0, i as int), false),
        decreases rs.len() - i,
    {
        proof {
            assert(rs@.subrange(0, i + 1).drop_last() == rs@.subrange(0, i as int));
            assert(rs@.subrange(0, i + 1).last() == rs@[i as int]);
        }
        let r = rs[i].duplicate();
        if is_cue(r.name.as_str()) {
            cues.push(r);
        } else {
            tracks.push(r);
        }
        i = i + 1;
    }
    proof {
        assert(rs@.subrange(0, rs@.len() as int) == rs@);
    }
    if tracks.len() != cands.len() {
        return None;
    }
    let mut assigned: Vec<RomMatch> = Vec::new();
    let mut k: usize = 0;
    while k < cands.len()
        invariant
            k <= cands@.len(),
            cv == cand_view(cands@),
            cv.len() == cands@.len(),
            assign_upto(cv, tracks@, k as nat) == Some(assigned@),
            tracks@ == keep(rs@, false),
            cues@ == keep(rs@, true),
            tracks@.len() == cands@.len(),
        decreases cands.len() - k,
    {
        proof {
            assert(cv[k as int] == cands@[k as int]@);
        }
        match best_of(&cands[k], &tracks, &assigned) {
            Some(r) => {
                assigned.push(r);
            },
            None => {
                proof {
                    assert(best(cv[k as int], tracks@, assigned@) is None);
                    assert(assign_upto(cv, tracks@, (k + 1) as nat) is None);
                    lemma_assign_stays_failed(cv, tracks@, (k + 1) as nat, cv.len());
                    assert(tracks@ == keep(rs@, false));
                }
                return None;
            },
        }
        k = k + 1;
    }
    Some((assigned, cues))
}

/// Whether one of `c` belongs to title `t`.
fn has_title(c: &Vec<RomMatch>, t: i64) -> (r: bool)
    ensures
        r == lists_title(c@, t),
{
    let mut j: usize = 0;
    while j < c.len()
        invariant
            j <= c@.len(),
            forall|m: int| 0 <= m < j ==> (#[trigger] c@[m]).title_id != t,
        decreases c.len() - j,
    {
        if c[j].title_id == t {
            return true;
        }
        j = j + 1;
    }
    false
}

/// Whether title `t` has a candidate for every track.
fn is_common(cands: &Vec<Vec<RomMatch>>, t: i64) -> (r: bool)
    requires
        cands@.len() > 0,
    ensures
        r == common_title(cand_view(cands@), t),
{
    let ghost cv = cand_view(cands@);
    let mut i: usize = 0;
    while i < cands.len()
        invariant
            i <= cands@.len(),
            cv == cand_view(cands@),
            forall|m: int| 0 <= m < i ==> #[trigger] lists_title(cv[m], t),
        decreases cands.len() - i,
    {
        proof {
            assert(cv[i as int] == cands@[i as int]@);
        }
        if !has_title(&cands[i], t) {
            return false;
        }
        i = i + 1;
    }
    true
}

/// The titles with a candidate for every track, each once, in increasing order.
fn common_titles(cands: &Vec<Vec<RomMatch>>) -> (ts: Vec<i64>)
    ensures
        forall|a: int, b: int| 0 <= a < b < ts@.len() ==> #[trigger] ts@[a] < #[trigger] ts@[b],
        forall|k: int| 0 <= k < ts@.len() ==> common_title(cand_view(cands@), #[trigger] ts@[k]),
        forall|t: i64| #[trigger] common_title(cand_view(cands@), t) ==> ts@.contains(t),
{
    let mut ts: Vec<i64> = Vec::new();
    if cands.len() == 0 {
        return ts;
    }
    let ghost cv = cand_view(cands@);
    let first = &cands[0];
    proof {
        assert(cv[0] == first@);
    }
    let mut i: usize = 0;
    while i < first.len()
        invariant
            i <= first@.len(),
            cands@.len() > 0,
            cv == cand_view(cands@),
            cv[0] == first@,
            forall|a: int, b: int| 0 <= a < b < ts@.len() ==> #[trigger] ts@[a] < #[trigger] ts@[b],
            forall|k: int| 0 <= k < ts@.len() ==> common_title(cv, #[trigger] ts@[k]),
            forall|j: int| 0 <= j < i && common_title(cv, (#[trigger] first@[j]).title_id) ==> ts@.contains(first@[j].title_id),
        decreases first.len() - i,
    {
        let t = first[i].title_id;
        if is_common(cands, t) {
            let mut p: usize = 0;
            while p < ts.len() && ts[p] < t
                invariant
                    p <= ts@.len(),
                    forall|q: int| 0 <= q < p ==> #[trigger] ts@[q] < t,
                decreases ts.len() - p,
            {
                p = p + 1;
            }
            if p == ts.len() || ts[p] != t {
                let ghost before = ts@;
                ts.insert(p, t);
                proof {
                    assert forall|a: int, b: int| 0 <= a < b < ts@.len() implies #[trigger] ts@[a] < #[trigger] ts@[b] by {
                        if b < p {
                        } else if a < p && b == p {
                        } else if a < p {
                            assert(ts@[b] == before[b - 1]);
                            if p < before.len() {
                                assert(before[p as int] > t);
                            }
                        } else if a == p {
                            assert(ts@[b] == before[b - 1]);
                            assert(before[p as int] > t);
                            if b - 1 > p {
                                assert(before[p as int] < before[b - 1]);
                            }
                        } else {
                            assert(ts@[a] == before[a - 1]);
                            assert(ts@[b] == before[b - 1]);
                        }
                    }
                    assert forall|k: int| 0 <= k < ts@.len() implies common_title(cv, #[trigger] ts@[k]) by {
                        if k < p {
                            assert(ts@[k] == before[k]);
                        } else if k > p {
                            assert(ts@[k] == before[k - 1]);
                        }
                    }
                    assert forall|j: int| 0 <= j < i + 1 && common_title(cv, (#[trigger] first@[j]).title_id) implies ts@.contains(first@[j].title_id) by {
                        if j < i {
                            let k = choose|k: int| 0 <= k < before.len() && before[k] == first@[j].title_id;
                            if k < p {
                                assert(ts@[k] == before[k]);
                            } else {
                                assert(ts@[k + 1] == before[k]);
                            }
                        } else {
                            assert(ts@[p as int] == t);
                        }
                    }
                }
            } else {
                proof {
                    assert(ts@[p as int] == t);
                }
            }
        }
        i = i + 1;
    }
    proof {
        assert forall|t: i64| #[trigger] common_title(cv, t) implies ts@.contains(t) by {
            assert(lists_title(cv[0], t));
            let j = choose|j: int| 0 <= j < cv[0].len() && (#[trigger] cv[0][j]).title_id == t;
            assert(first@[j].title_id == t);
        }
    }
    ts
}

/// The first title, by id, whose track roms number the tracks and give each track a
/// distinct candidate, lowest rom id first: its roms in track order and its cue roms.
/// `cands` holds each track's candidates; `disc_roms` reads a title's roms.
pub fn winner<F: Fn(i64) -> Vec<RomMatch>>(cands: &Vec<Vec<RomMatch>>, disc_roms: F) -> (r: Option<(Vec<RomMatch>, Vec<RomMatch>)>)
    requires
        forall|t: i64| #[trigger] disc_roms.requires((t,)),
    ensures
        match r {
            Some((a, c)) => exists|t: i64, v: Vec<RomMatch>| {
                &&& common_title(cand_view(cands@), t)
                &&& #[trigger] disc_roms.ensures((t,), v)
                &&& try_title(cand_view(cands@), v@) == Some((a@, c@))
                &&& forall|u: i64| common_title(cand_view(cands@), u) && u < t ==> #[trigger] fails_for(disc_roms, cand_view(cands@), u)
            },
            None => forall|u: i64| #[trigger] common_title(cand_view(cands@), u) ==> fails_for(disc_roms, cand_view(cands@), u),
        },
{
    let ghost cv = cand_view(cands@);
    let titles = common_titles(cands);
    let mut k: usize = 0;
    while k < titles.len()
        invariant
            k <= titles@.len(),
            cv == cand_view(cands@),
            forall|a: int, b: int| 0 <= a < b < titles@.len() ==> #[trigger] titles@[a] < #[trigger] titles@[b],
            forall|m: int| 0 <= m < titles@.len() ==> common_title(cv, #[trigger] titles@[m]),
            forall|t: i64| #[trigger] common_title(cv, t) ==> titles@.contains(t),
            forall|m: int| 0 <= m < k ==> fails_for(disc_roms, cv, #[trigger] titles@[m]),
            forall|t: i64| #[trigger] disc_roms.requires((t,)),
        decreases titles.len() - k,
    {
        let t = titles[k];
        let rs = disc_roms(t);
        match try_title_roms(cands, &rs) {
            Some(found) => {
                proof {
                    assert forall|u: i64| common_title(cv, u) && u < t implies #[trigger] fails_for(disc_roms, cv, u) by {
                        let m = choose|m: int| 0 <= m < titles@.len() && titles@[m] == u;
                        if m >= k {
                            if m > k {
                                assert(titles@[k as int] < titles@[m]);
                            }
                        }
                    }
                }
                return Some(found);
            },
            None => {
                proof {
                    assert(fails_for(disc_roms, cv, t));
                }
            },
        }
        k = k + 1;
    }
    proof {
        assert forall|u: i64| #[trigger] common_title(cv, u) implies fails_for(disc_roms, cv, u) by {
            let m = choose|m: int| 0 <= m < titles@.len() && titles@[m] == u;
        }
    }
    None
}

/// `r` is one of the candidates `c`.
pub open spec fn candidate_of(c: Seq<RomMatch>, r: RomMatch) -> bool {
    exists|j: int| 0 <= j < c.len() && c[j] == r
}

proof fn lemma_best_is_eligible(c: Seq<RomMatch>, tracks: Seq<RomMatch>, assigned: Seq<RomMatch>)
    requires
        best(c, tracks, assigned) is Some,
    ensures
        ({
            let r = best(c, tracks, assigned)->0;
            &&& eligible(r, tracks, assigned)
            &&& candidate_of(c, r)
        }),
    decreases c.len(),
{
    let b = best(c.drop_last(), tracks, assigned);
    let r = best(c, tracks, assigned)->0;
    if r == c.last() && eligible(c.last(), tracks, assigned) && (b is None || c.last().rom_id < b->0.rom_id) {
        assert(c[c.len() - 1] == r);
    } else {
        lemma_best_is_eligible(c.drop_last(), tracks, assigned);
        let j = choose|j: int| 0 <= j < c.len() - 1 && c.drop_last()[j] == r;
        assert(c[j] == r);
    }
}

/// The roms a title gives the tracks are distinct, each one of the title's tracks and
/// a candidate of the track it is given to, so identical tracks take distinct roms.
pub proof fn lemma_assignment_distinct(cands: Seq<Seq<RomMatch>>, tracks: Seq<RomMatch>, k: nat)
    requires
        k <= cands.len(),
        assign_upto(cands, tracks, k) is Some,
    ensures
        ({
            let a = assign_upto(cands, tracks, k)->0;
            &&& a.len() == k
            &&& forall|i: int| 0 <= i < k ==> has_rom(tracks, (#[trigger] a[i]).rom_id)
            &&& forall|i: int| 0 <= i < k ==> candidate_of(cands[i], #[trigger] a[i])
            &&& forall|i: int, j: int| 0 <= i < j < k ==> (#[trigger] a[i]).rom_id != (#[trigger] a[j]).rom_id
        }),
    decreases k,
{
    if k > 0 {
        let prev = assign_upto(cands, tracks, (k - 1) as nat)->0;
        lemma_assign_distinct_prev(cands, tracks, k);
        lemma_assignment_distinct(cands, tracks, (k - 1) as nat);
        lemma_best_is_eligible(cands[k - 1], tracks, prev);
        let a = assign_upto(cands, tracks, k)->0;
        let r = best(cands[k - 1], tracks, prev)->0;
        assert(a == prev.push(r));
        assert forall|i: int, j: int| 0 <= i < j < k implies (#[trigger] a[i]).rom_id != (#[trigger] a[j]).rom_id by {
            if j == k - 1 {
                assert(a[i] == prev[i]);
                if a[i].rom_id == r.rom_id {
                    assert(has_rom(prev, r.rom_id));
                }
            } else {
                assert(a[i] == prev[i] && a[j] == prev[j]);
            }
        }
        assert forall|i: int| 0 <= i < k implies candidate_of(cands[i], #[trigger] a[i]) by {
            if i < k - 1 {
                assert(a[i] == prev[i]);
                let j = choose|j: int| 0 <= j < cands[i].len() && cands[i][j] == prev[i];
                assert(cands[i][j] == a[i]);
            } else {
                let c = cands[k - 1];
                let j = choose|j: int| 0 <= j < c.len() && #[trigger] c[j] == r;
                assert(cands[i][j] == a[i]);
            }
        }
        assert forall|i: int| 0 <= i < k implies has_rom(tracks, (#[trigger] a[i]).rom_id) by {
            if i < k - 1 {
                assert(a[i] == prev[i]);
            }
        }
    }
}

proof fn lemma_assign_distinct_prev(cands: Seq<Seq<RomMatch>>, tracks: Seq<RomMatch>, k: nat)
    requires
        k > 0,
        assign_upto(cands, tracks, k) is Some,
    ensures
        assign_upto(cands, tracks, (k - 1) as nat) is Some,
        best(cands[k - 1], tracks, assign_upto(cands, tracks, (k - 1) as nat)->0) is Some,
{
}

/// What the tracks of an identified CHD become: each track's rom and state, and the cue
/// roms added beside them.
pub open spec fn track_states(cands: Seq<Seq<RomMatch>>, won: Option<(Seq<RomMatch>, Seq<RomMatch>)>) -> (Seq<(Option<i64>, FileState)>, Seq<i64>) {
    match won {
        Some((assigned, cues)) => {
            let bad = exists|i: int| 0 <= i < assigned.len() && (#[trigger] assigned[i]).status@ == baddump();
            (
                Seq::new(
                    assigned.len(),
                    |i: int|
                        (
                            Some(assigned[i].rom_id),
                            if !bad {
                                FileState::Verified
                            } else if assigned[i].status@ == baddump() {
                                FileState::Bad
                            } else {
                                FileState::Unverified
                            },
                        ),
                ),
                if bad {
                    Seq::empty()
                } else {
                    cues.map_values(|c: RomMatch| c.rom_id)
                },
            )
        },
        None => (
            Seq::new(
                cands.len(),
                |i: int|
                    (
                        if cands[i].len() > 0 {
                            Some(cands[i][0].rom_id)
                        } else {
                            None
                        },
                        FileState::Unverified,
                    ),
            ),
            Seq::empty(),
        ),
    }
}

/// A winner as sequences.
pub open spec fn won_view(won: Option<(Vec<RomMatch>, Vec<RomMatch>)>) -> Option<(Seq<RomMatch>, Seq<RomMatch>)> {
    match won {
        Some((a, c)) => Some((a@, c@)),
        None => None,
    }
}

/// Whether a rom's status is `baddump`.
fn is_bad(r: &RomMatch) -> (b: bool)
    ensures
        b == (r.status@ == baddump()),
{
    let b = crate::text::str_is(r.status.as_str(), "baddump");
    proof {
        reveal_strlit("baddump");
        assert("baddump"@ == baddump());
    }
    b
}

/// The rom and state of each track of a CHD whose tracks have candidates `cands`, and
/// the cue roms to add, given the `winner` found for them: with a winner every track takes
/// its rom, verified, unless one of them is a bad dump, which makes those tracks bad, the
/// rest unverified and adds no cue; without one, every track is unverified with its first
/// candidate's rom.
pub fn classify_tracks(cands: &Vec<Vec<RomMatch>>, won: &Option<(Vec<RomMatch>, Vec<RomMatch>)>) -> (r: (Vec<(Option<i64>, FileState)>, Vec<i64>))
    ensures
        (r.0@, r.1@) == track_states(
            cand_view(cands@),
            won_view(*won),
        ),
{
    let mut states: Vec<(Option<i64>, FileState)> = Vec::new();
    let mut cue_roms: Vec<i64> = Vec::new();
    match won {
        Some((assigned, cues)) => {
            let mut bad = false;
            let mut i: usize = 0;
            while i < assigned.len()
                invariant
                    i <= assigned@.len(),
                    bad == exists|j: int| 0 <= j < i && (#[trigger] assigned@[j]).status@ == baddump(),
                decreases assigned.len() - i,
            {
                if is_bad(&assigned[i]) {
                    bad = true;
                }
                i = i + 1;
            }
            let mut i: usize = 0;
            while i < assigned.len()
                invariant
                    i <= assigned@.len(),
                    bad == exists|j: int| 0 <= j < assigned@.len() && (#[trigger] assigned@[j]).status@ == baddump(),
                    states@.len() == i,
                    forall|j: int| 0 <= j < i ==> #[trigger] states@[j] == (
                        Some(assigned@[j].rom_id),
                        if !bad {
                            FileState::Verified
                        } else if assigned@[j].status@ == baddump() {
                            FileState::Bad
                        } else {
                            FileState::Unverified
                        },
                    ),
                decreases assigned.len() - i,
            {
                let r = &assigned[i];
                let state = if !bad {
                    FileState::Verified
                } else if is_bad(r) {
                    FileState::Bad
                } else {
                    FileState::Unverified
                };
                states.push((Some(r.rom_id), state));
                i = i + 1;
            }
            if !bad {
                let mut n: usize = 0;
                while n < cues.len()
                    invariant
                        n <= cues@.len(),
                        cue_roms@ == cues@.subrange(0, n as int).map_values(|c: RomMatch| c.rom_id),
                    decreases cues.len() - n,
                {
                    cue_roms.push(cues[n].rom_id);
                    n = n + 1;
                    proof {
                        assert(cues@.subrange(0, n as int).map_values(|c: RomMatch| c.rom_id) =~= cues@.subrange(0, n - 1).map_values(|c: RomMatch| c.rom_id).push(cues@[n - 1].rom_id));
                    }
                }
                proof {
                    assert(cues@.subrange(0, cues@.len() as int) == cues@);
                }
            }
        },
        None => {
            let mut i: usize = 0;
            while i < cands.len()
                invariant
                    i <= cands@.len(),
                    states@.len() == i,
                    forall|j: int| 0 <= j < i ==> #[trigger] states@[j] == (
                        if cands@[j]@.len() > 0 {
                            Some(cands@[j]@[0].rom_id)
                        } else {
                            None
                        },
                        FileState::Unverified,
                    ),
                decreases cands.len() - i,
            {
                let rom = if cands[i].len() > 0 {
                    Some(cands[i][0].rom_id)
                } else {
                    None
                };
                states.push((rom, FileState::Unverified));
                i = i + 1;
            }
        },
    }
    proof {
        let want = track_states(
            cand_view(cands@),
            won_view(*won),
        );
        assert(states@ =~= want.0);
        assert(cue_roms@ =~= want.1);
    }
    (states, cue_roms)
}

} // verus!

verus! {

/// How many of `nums` are track numbers.
pub open spec fn track_count(nums: Seq<Option<usize>>) -> nat
    decreases nums.len(),
{
    if nums.len() == 0 {
        0
    } else {
        track_count(nums.drop_last()) + if nums.last() is Some { 1nat } else { 0nat }
    }
}

/// Whether some member is track `k`.
pub open spec fn has_track(nums: Seq<Option<usize>>, k: int) -> bool {
    exists|i: int| 0 <= i < nums.len() && nums[i] == Some(k as usize)
}

/// The members of a CHD that are tracks, by index, in track order, given each member's
/// track number (see [`track_of_member`]): `Some` exactly when there is a track and the
/// tracks are numbered from 1 up to their count, each number once.
pub fn track_order(nums: &Vec<Option<usize>>) -> (r: Option<Vec<usize>>)
    ensures
        r is Some <==> (track_count(nums@) > 0 && forall|k: int| 1 <= k <= track_count(nums@) ==> #[trigger] has_track(nums@, k)),
        r matches Some(v) ==> v@.len() == track_count(nums@) && forall|k: int|
            0 <= k < v@.len() ==> (#[trigger] v@[k]) < nums@.len() && nums@[v@[k] as int] == Some((k + 1) as usize),
{
    let mut count: usize = 0;
    let mut i: usize = 0;
    while i < nums.len()
        invariant
            i <= nums@.len(),
            count == track_count(nums@.subrange(0, i as int)),
            count <= i,
        decreases nums.len() - i,
    {
        proof {
            assert(nums@.subrange(0, i + 1).drop_last() == nums@.subrange(0, i as int));
        }
        if nums[i].is_some() {
            count = count + 1;
        }
        i = i + 1;
    }
    proof {
        assert(nums@.subrange(0, nums@.len() as int) == nums@);
    }
    if count == 0 {
        return None;
    }
    let mut order: Vec<usize> = Vec::new();
    let mut done: usize = 0;
    while done < count
        invariant
            done <= count,
            count == track_count(nums@),
            count <= nums@.len(),
            order@.len() == done,
            forall|m: int| 1 <= m <= done ==> #[trigger] has_track(nums@, m),
            forall|m: int| 0 <= m < order@.len() ==> (#[trigger] order@[m]) < nums@.len() && nums@[order@[m] as int] == Some((m + 1) as usize),
        decreases count - done,
    {
        let k = done + 1;
        let mut found: Option<usize> = None;
        let mut j: usize = 0;
        while j < nums.len()
            invariant
                j <= nums@.len(),
                found matches Some(x) ==> x < nums@.len() && nums@[x as int] == Some(k),
                found is None ==> forall|m: int| 0 <= m < j ==> nums@[m] != Some(k),
            decreases nums.len() - j,
        {
            if found.is_none() && nums[j] == Some(k) {
                found = Some(j);
            }
            j = j + 1;
        }
        match found {
            Some(x) => {
                order.push(x);
                proof {
                    assert(has_track(nums@, k as int));
                }
            },
            None => {
                proof {
                    assert(!has_track(nums@, k as int));
                }
                return None;
            },
        }
        done = k;
    }
    Some(order)
}

/// The header rule CHD member rows are stored under.
pub const HEADER_RULE: &'static str = "chd";

/// `n` in decimal, at least two digits.
pub open spec fn two_digits(n: nat) -> Seq<char> {
    if n < 10 {
        seq!['0'] + crate::jobs::dat_import::decimal(n)
    } else {
        crate::jobs::dat_import::decimal(n)
    }
}

/// The path of track `i` (from 0) of CHD `container`: `#01`, `#02`, ...
pub open spec fn track_rel(container: Seq<char>, i: nat) -> Seq<char> {
    container + seq!['#'] + two_digits(i + 1)
}

/// The path of cue row `n` (from 0) of CHD `container`: `#cue`, `#cue2`, ...
pub open spec fn cue_rel(container: Seq<char>, n: nat) -> Seq<char> {
    container + "#cue"@ + if n == 0 {
        Seq::empty()
    } else {
        crate::jobs::dat_import::decimal(n + 1)
    }
}

/// A size as a row stores it, the largest `i64` when it does not fit.
pub open spec fn row_size(size: u64) -> i64 {
    if size <= i64::MAX {
        size as i64
    } else {
        i64::MAX
    }
}

/// The member rows of an identified CHD `container` of `size` bytes, modified at `mtime`:
/// one per track with its hashes and the rom and state [`classify_tracks`] gave it, at
/// `#NN`, then one per cue rom at `#cue`, `#cue2`, ..., verified, of the container's size,
/// without hashes. Every row is stored under the `chd` header rule.
pub fn chd_rows(
    container: &str,
    size: i64,
    mtime: i64,
    tracks: &Vec<crate::jobs::import::support::Hashes>,
    states: &Vec<(Option<i64>, FileState)>,
    cue_roms: &Vec<i64>,
) -> (rows: Vec<crate::jobs::scan::rows::NewRow>)
    requires
        tracks@.len() == states@.len(),
    ensures
        rows@.len() == tracks@.len() + cue_roms@.len(),
        forall|i: int| #![trigger rows@[i]] 0 <= i < tracks@.len() ==> {
            let r = rows@[i];
            &&& r.rel_path@ == track_rel(container@, i as nat)
            &&& r.size == row_size(tracks@[i].size)
            &&& r.mtime == mtime
            &&& r.hashes.crc32 == Some(tracks@[i].crc32)
            &&& r.hashes.md5 == Some(tracks@[i].md5)
            &&& r.hashes.sha1 == Some(tracks@[i].sha1)
            &&& r.header_rule matches Some(h) && h@ == HEADER_RULE@
            &&& r.whole.crc32 is None && r.whole.md5 is None && r.whole.sha1 is None
            &&& r.rom_id == states@[i].0
            &&& r.state == states@[i].1
        },
        forall|n: int| #![trigger rows@[tracks@.len() + n]] 0 <= n < cue_roms@.len() ==> {
            let r = rows@[tracks@.len() + n];
            &&& r.rel_path@ == cue_rel(container@, n as nat)
            &&& r.size == size
            &&& r.mtime == mtime
            &&& r.hashes.crc32 is None && r.hashes.md5 is None && r.hashes.sha1 is None
            &&& r.header_rule matches Some(h) && h@ == HEADER_RULE@
            &&& r.whole.crc32 is None && r.whole.md5 is None && r.whole.sha1 is None
            &&& r.rom_id == Some(cue_roms@[n])
            &&& r.state == FileState::Verified
        },
{
    let mut rows: Vec<crate::jobs::scan::rows::NewRow> = Vec::new();
    let hashed = crate::text::concat(container, "#");
    let mut i: usize = 0;
    while i < tracks.len()
        invariant
            i <= tracks@.len(),
            tracks@.len() == states@.len(),
            hashed@ == container@ + "#"@,
            rows@.len() == i,
            forall|k: int| #![trigger rows@[k]] 0 <= k < i ==> {
                let r = rows@[k];
                &&& r.rel_path@ == track_rel(container@, k as nat)
                &&& r.size == row_size(tracks@[k].size)
                &&& r.mtime == mtime
                &&& r.hashes.crc32 == Some(tracks@[k].crc32)
                &&& r.hashes.md5 == Some(tracks@[k].md5)
                &&& r.hashes.sha1 == Some(tracks@[k].sha1)
                &&& r.header_rule matches Some(h) && h@ == HEADER_RULE@
                &&& r.whole.crc32 is None && r.whole.md5 is None && r.whole.sha1 is None
                &&& r.rom_id == states@[k].0
                &&& r.state == states@[k].1
            },
        decreases tracks.len() - i,
    {
        let t = &tracks[i];
        let num = crate::jobs::import::report::decimal_text((i + 1) as u64);
        let path = if i + 1 < 10 {
            let zero = crate::text::concat(hashed.as_str(), "0");
            crate::text::concat(zero.as_str(), num.as_str())
        } else {
            crate::text::concat(hashed.as_str(), num.as_str())
        };
        proof {
            reveal_strlit("#");
            reveal_strlit("0");
            assert(path@ =~= track_rel(container@, i as nat));
        }
        let row_sz: i64 = if t.size <= 9223372036854775807u64 {
            t.size as i64
        } else {
            9223372036854775807i64
        };
        let row = crate::jobs::scan::rows::NewRow {
            rel_path: path,
            size: row_sz,
            mtime,
            hashes: crate::jobs::scan::stored::FormHashes {
                crc32: Some(t.crc32.clone()),
                md5: Some(t.md5.clone()),
                sha1: Some(t.sha1.clone()),
            },
            header_rule: Some(HEADER_RULE.to_string()),
            whole: crate::jobs::scan::stored::FormHashes { crc32: None, md5: None, sha1: None },
            rom_id: states[i].0,
            state: states[i].1,
        };
        rows.push(row);
        i = i + 1;
    }
    let base = crate::text::concat(container, "#cue");
    let mut n: usize = 0;
    while n < cue_roms.len()
        invariant
            n <= cue_roms@.len(),
            base@ == container@ + "#cue"@,
            rows@.len() == tracks@.len() + n,
            forall|k: int| #![trigger rows@[k]] 0 <= k < tracks@.len() ==> {
                let r = rows@[k];
                &&& r.rel_path@ == track_rel(container@, k as nat)
                &&& r.size == row_size(tracks@[k].size)
                &&& r.mtime == mtime
                &&& r.hashes.crc32 == Some(tracks@[k].crc32)
                &&& r.hashes.md5 == Some(tracks@[k].md5)
                &&& r.hashes.sha1 == Some(tracks@[k].sha1)
                &&& r.header_rule matches Some(h) && h@ == HEADER_RULE@
                &&& r.whole.crc32 is None && r.whole.md5 is None && r.whole.sha1 is None
                &&& r.rom_id == states@[k].0
                &&& r.state == states@[k].1
            },
            forall|m: int| #![trigger rows@[tracks@.len() + m]] 0 <= m < n ==> {
                let r = rows@[tracks@.len() + m];
                &&& r.rel_path@ == cue_rel(container@, m as nat)
                &&& r.size == size
                &&& r.mtime == mtime
                &&& r.hashes.crc32 is None && r.hashes.md5 is None && r.hashes.sha1 is None
                &&& r.header_rule matches Some(h) && h@ == HEADER_RULE@
                &&& r.whole.crc32 is None && r.whole.md5 is None && r.whole.sha1 is None
                &&& r.rom_id == Some(cue_roms@[m])
                &&& r.state == FileState::Verified
            },
        decreases cue_roms.len() - n,
    {
        let path = if n == 0 {
            crate::text::concat(base.as_str(), "")
        } else {
            let num = crate::jobs::import::report::decimal_text((n + 1) as u64);
            crate::text::concat(base.as_str(), num.as_str())
        };
        proof {
            reveal_strlit("");
            assert(path@ =~= cue_rel(container@, n as nat));
        }
        let row = crate::jobs::scan::rows::NewRow {
            rel_path: path,
            size,
            mtime,
            hashes: crate::jobs::scan::stored::FormHashes { crc32: None, md5: None, sha1: None },
            header_rule: Some(HEADER_RULE.to_string()),
            whole: crate::jobs::scan::stored::FormHashes { crc32: None, md5: None, sha1: None },
            rom_id: Some(cue_roms[n]),
            state: FileState::Verified,
        };
        let ghost before = rows@;
        rows.push(row);
        proof {
            assert forall|k: int| 0 <= k < tracks@.len() implies #[trigger] rows@[k] == before[k] by {}
            assert(rows@[tracks@.len() + n] == row);
            assert forall|m: int| 0 <= m < n implies #[trigger] rows@[tracks@.len() + m] == before[tracks@.len() + m] by {}
        }
        n = n + 1;
    }
    rows
}

/// The index of the first `#` of `s`, if any.
pub open spec fn first_hash(s: Seq<char>) -> Option<int> {
    if exists|i: int| 0 <= i < s.len() && s[i] == '#' {
        Some(choose|i: int| 0 <= i < s.len() && s[i] == '#' && forall|j: int| 0 <= j < i ==> s[j] != '#')
    } else {
        None
    }
}

/// `c` names a CHD file: it ends in `.chd`, in any case.
pub open spec fn is_chd_name(c: Seq<char>) -> bool {
    c.len() >= 4 && lower(c.skip(c.len() - 4)) == ".chd"@
}

/// The member name of a CHD member row `container#member`: what follows the first `#` when
/// what comes before it names a CHD file; `None` for any other path.
pub open spec fn chd_member_tail(rel: Seq<char>) -> Option<Seq<char>> {
    match first_hash(rel) {
        Some(i) => if is_chd_name(rel.take(i)) {
            Some(rel.skip(i + 1))
        } else {
            None
        },
        None => None,
    }
}

/// The track number of a CHD member row: `#01` is track 1; `None` for a cue row, any
/// member name that is not all digits, and any path that is no CHD member.
pub fn track_number(rel_path: &str) -> (r: Option<usize>)
    ensures
        r == (match track_of(chd_member_tail(rel_path@)) {
            Some(n) => if n <= usize::MAX { Some(n as usize) } else { None },
            None => None,
        }),
{
    let n = rel_path.unicode_len();
    let mut i: usize = 0;
    while i < n
        invariant
            i <= n,
            n == rel_path@.len(),
            forall|j: int| 0 <= j < i ==> rel_path@[j] != '#',
        decreases n - i,
    {
        if rel_path.get_char(i) == '#' {
            proof {
                let k = choose|k: int| 0 <= k < rel_path@.len() && rel_path@[k] == '#' && forall|j: int| 0 <= j < k ==> rel_path@[j] != '#';
                assert(k == i) by {
                    if k < i {
                        assert(rel_path@[k] != '#');
                    }
                    if k > i {
                        assert(rel_path@[i as int] != '#');
                    }
                }
            }
            let container = crate::text::chars_of(rel_path.substring_char(0, i));
            if container.len() < 4 {
                return None;
            }
            let end = crate::text::slice_chars(&container, container.len() - 4, container.len());
            let low = crate::text::lower_chars(&end);
            let want = crate::text::chars_of(".chd");
            proof {
                assert(end@ =~= rel_path@.take(i as int).skip(i - 4));
            }
            if !crate::text::same_chars(&low, &want) {
                return None;
            }
            let tail = rel_path.substring_char(i + 1, n);
            proof {
                assert(tail@ =~= rel_path@.skip(i + 1));
            }
            return track_of_member(Some(tail));
        }
        i = i + 1;
    }
    None
}

proof fn lemma_decimal_reads_back(n: nat)
    ensures
        crate::jobs::dat_import::decimal(n).len() > 0,
        forall|k: int|
            0 <= k < crate::jobs::dat_import::decimal(n).len() ==> #[trigger] is_digit(
                crate::jobs::dat_import::decimal(n)[k],
            ),
        digits_value(crate::jobs::dat_import::decimal(n)) == n,
    decreases n,
{
    let d = crate::jobs::dat_import::decimal(n);
    let ch = crate::jobs::dat_import::digit(n % 10);
    assert((ch as int) == n % 10 + 48) by {
        assert(0 <= n % 10 < 10);
    }
    if n < 10 {
        assert(d =~= seq![ch]);
        assert(d.drop_last() =~= Seq::<char>::empty());
        assert(digits_value(d) == digits_value(d.drop_last()) * 10 + ((d.last() as int) - ('0' as int)) as nat);
    } else {
        lemma_decimal_reads_back(n / 10);
        let head = crate::jobs::dat_import::decimal(n / 10);
        assert(d == head.push(ch));
        assert(d.drop_last() =~= head);
        assert(digits_value(d) == digits_value(d.drop_last()) * 10 + ((d.last() as int) - ('0' as int)) as nat);
        assert forall|k: int| 0 <= k < d.len() implies #[trigger] is_digit(d[k]) by {
            if k < head.len() {
                assert(d[k] == head[k]);
            }
        }
    }
}

proof fn lemma_leading_zero(d: Seq<char>)
    ensures
        digits_value(seq!['0'] + d) == digits_value(d),
    decreases d.len(),
{
    let z = seq!['0'] + d;
    if d.len() == 0 {
        assert(z =~= seq!['0']);
        assert(z.drop_last() =~= Seq::<char>::empty());
        assert(digits_value(z) == digits_value(z.drop_last()) * 10 + ((z.last() as int) - ('0' as int)) as nat);
        assert(digits_value(Seq::<char>::empty()) == 0);
    } else {
        lemma_leading_zero(d.drop_last());
        assert(z.drop_last() =~= seq!['0'] + d.drop_last());
        assert(z.last() == d.last());
        assert(digits_value(z) == digits_value(z.drop_last()) * 10 + ((z.last() as int) - ('0' as int)) as nat);
        assert(digits_value(d) == digits_value(d.drop_last()) * 10 + ((d.last() as int) - ('0' as int)) as nat);
    }
}

/// Reading a track row's path back gives its track: `track_rel` names track `i` (from 0)
/// of a CHD file as `#NN`, which [`track_number`] reads as `i + 1`.
pub proof fn lemma_track_number_reads_track_rel(container: Seq<char>, i: nat)
    requires
        is_chd_name(container),
        forall|j: int| 0 <= j < container.len() ==> container[j] != '#',
    ensures
        chd_member_tail(track_rel(container, i)) == Some(two_digits(i + 1)),
        track_of(chd_member_tail(track_rel(container, i))) == Some((i + 1) as nat),
{
    let rel = track_rel(container, i);
    let c = container.len() as int;
    assert(rel[c] == '#');
    assert(first_hash(rel) == Some(c)) by {
        let k = choose|k: int| 0 <= k < rel.len() && rel[k] == '#' && forall|j: int| 0 <= j < k ==> rel[j] != '#';
        if k < c {
            assert(rel[k] == container[k]);
        }
        if k > c {
            assert(rel[c] == '#');
        }
    }
    assert(rel.take(c) =~= container);
    assert(rel.skip(c + 1) =~= two_digits(i + 1));
    let n = (i + 1) as nat;
    lemma_decimal_reads_back(n);
    let d = crate::jobs::dat_import::decimal(n);
    if n < 10 {
        lemma_leading_zero(d);
        assert forall|k: int| 0 <= k < (seq!['0'] + d).len() implies #[trigger] is_digit((seq!['0'] + d)[k]) by {
            if k > 0 {
                assert((seq!['0'] + d)[k] == d[k - 1]);
            }
        }
    }
}

} // verus!
