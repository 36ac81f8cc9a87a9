//! The library scan's decisions: which rows a finished unit covers, the state a matched
//! file takes, and which files a platform loads.

pub mod disc;
pub mod rows;
pub mod stored;

use vstd::prelude::*;
use crate::assoc::texts;
use crate::text::lower;
use crate::jobs::dat_import::{name_of, ext_of};

verus! {

/// The `jobs.kind` of a scan.
pub const KIND: &'static str = "scan";

/// Whether `rel` lies in one of the units `done`, whose ids are its leading components:
/// it is one of them, or what precedes one of its `/` is.
pub open spec fn in_done(rel: Seq<char>, done: Set<Seq<char>>) -> bool {
    done.contains(rel) || exists|a: int| 0 <= a < rel.len() && rel[a] == '/' && done.contains(#[trigger] rel.subrange(0, a))
}

/// One entry of a platform's top directory, as a listing shows it.
#[derive(Debug, Clone)]
pub struct DirEntry {
    /// The entry's name.
    pub name: String,
    /// It is a directory.
    pub is_dir: bool,
    /// It is a regular file.
    pub is_file: bool,
}

/// A platform's top directory that exists under the games root: its name and, for a
/// disc platform, its entries.
#[derive(Debug, Clone)]
pub struct TopDir {
    /// The directory's name under the games root.
    pub name: String,
    /// Its entries; read for disc platforms only.
    pub entries: Vec<DirEntry>,
}

/// The units the subdirectories among `entries` of top directory `top` make, in order:
/// `top/sub` for each.
pub open spec fn sub_units(top: Seq<char>, entries: Seq<DirEntry>) -> Seq<Seq<char>>
    decreases entries.len(),
{
    if entries.len() == 0 {
        Seq::empty()
    } else {
        let before = sub_units(top, entries.drop_last());
        let e = entries.last();
        if e.is_dir {
            before.push(top + seq!['/'] + e.name@)
        } else {
            before
        }
    }
}

/// Whether `entries` hold a file that is not a directory.
pub open spec fn has_loose_file(entries: Seq<DirEntry>) -> bool {
    exists|i: int| 0 <= i < entries.len() && !(#[trigger] entries[i]).is_dir && entries[i].is_file
}

/// The units of one top directory: itself on a cartridge platform; on a disc platform
/// each subdirectory, then the directory itself when files lie loose in it.
pub open spec fn top_units(disc: bool, top: TopDir) -> Seq<Seq<char>> {
    if !disc {
        seq![top.name@]
    } else if has_loose_file(top.entries@) {
        sub_units(top.name@, top.entries@).push(top.name@)
    } else {
        sub_units(top.name@, top.entries@)
    }
}

/// The units of the top directories `tops`, in listing order.
pub open spec fn units_of(disc: bool, tops: Seq<TopDir>) -> Seq<Seq<char>>
    decreases tops.len(),
{
    if tops.len() == 0 {
        Seq::empty()
    } else {
        units_of(disc, tops.drop_last()) + top_units(disc, tops.last())
    }
}

/// The ids of the units a platform's scan walks, sorted: each existing top directory
/// on a cartridge platform; on a disc platform each title directory inside one, and a
/// top directory itself where files lie loose in it. A unit's path is its id joined to
/// the games root.
pub fn unit_ids(disc: bool, tops: &Vec<TopDir>) -> (ids: Vec<String>)
    ensures
        crate::jobs::dat_import::sorted_from(ids@, units_of(disc, tops@)),
{
    let mut found: Vec<String> = Vec::new();
    let mut t: usize = 0;
    while t < tops.len()
        invariant
            t <= tops@.len(),
            found@.map_values(|x: String| x@) == units_of(disc, tops@.subrange(0, t as int)),
        decreases tops.len() - t,
    {
        let top = &tops[t];
        let ghost before = found@.map_values(|x: String| x@);
        proof {
            assert(tops@.subrange(0, t + 1).drop_last() == tops@.subrange(0, t as int));
            assert(tops@.subrange(0, t + 1).last() == *top);
        }
        if !disc {
            found.push(top.name.clone());
            proof {
                assert(found@.map_values(|x: String| x@) == before + seq![top.name@]);
            }
        } else {
            let mut loose = false;
            let mut k: usize = 0;
            while k < top.entries.len()
                invariant
                    k <= top.entries@.len(),
                    disc,
                    found@.map_values(|x: String| x@) == before + sub_units(top.name@, top.entries@.subrange(0, k as int)),
                    loose == exists|i: int|
                        0 <= i < k && !(#[trigger] top.entries@[i]).is_dir && top.entries@[i].is_file,
                decreases top.entries.len() - k,
            {
                let e = &top.entries[k];
                proof {
                    assert(top.entries@.subrange(0, k + 1).drop_last() == top.entries@.subrange(0, k as int));
                    assert(top.entries@.subrange(0, k + 1).last() == *e);
                }
                let ghost mid = found@.map_values(|x: String| x@);
                if e.is_dir {
                    let head = crate::text::concat(top.name.as_str(), "/");
                    let id = crate::text::concat(head.as_str(), e.name.as_str());
                    proof {
                        reveal_strlit("/");
                        assert("/"@ == seq!['/']);
                    }
                    found.push(id);
                    proof {
                        assert(found@.map_values(|x: String| x@) == mid.push(top.name@ + seq!['/'] + e.name@));
                    }
                } else if e.is_file {
                    loose = true;
                }
                k = k + 1;
            }
            proof {
                assert(top.entries@.subrange(0, top.entries@.len() as int) == top.entries@);
            }
            if loose {
                let ghost mid = found@.map_values(|x: String| x@);
                found.push(top.name.clone());
                proof {
                    assert(found@.map_values(|x: String| x@) == mid.push(top.name@));
                }
            }
        }
        t = t + 1;
    }
    proof {
        assert(tops@.subrange(0, tops@.len() as int) == tops@);
    }
    let out = crate::sort::sort_texts(&found);
    proof {
        let want = found@.map_values(|x: String| x@);
        let perm = choose|perm: Seq<int>|
            crate::sort::is_permutation(perm, found@.len() as int) && out@.len() == found@.len()
                && forall|k: int| 0 <= k < out@.len() ==> out@[k] == found@[#[trigger] perm[k]];
        assert forall|k: int| 0 <= k < out@.len() implies (#[trigger] out@[k])@ == want[perm[k]] by {
            assert(out@[k] == found@[perm[k]]);
        }
    }
    out
}

/// Whether the text `t` is among `done`.
fn listed(t: &str, done: &Vec<String>) -> (r: bool)
    ensures
        r == texts(done@).contains(t@),
{
    let mut k: usize = 0;
    while k < done.len()
        invariant
            k <= done@.len(),
            forall|m: int| 0 <= m < k ==> (#[trigger] done@[m])@ != t@,
        decreases done.len() - k,
    {
        if crate::text::str_is(done[k].as_str(), t) {
            return true;
        }
        k = k + 1;
    }
    false
}

/// Whether `rel_path` lies in one of the `done` units, whose ids are its leading
/// components.
pub fn in_done_unit(rel_path: &str, done: &Vec<String>) -> (r: bool)
    ensures
        r == in_done(rel_path@, texts(done@)),
{
    if listed(rel_path, done) {
        return true;
    }
    let n = rel_path.unicode_len();
    let mut a: usize = 0;
    while a < n
        invariant
            a <= n,
            n == rel_path@.len(),
            forall|b: int| 0 <= b < a && rel_path@[b] == '/' ==> !texts(done@).contains(
                #[trigger] rel_path@.subrange(0, b),
            ),
        decreases n - a,
    {
        if rel_path.get_char(a) == '/' {
            let head = rel_path.substring_char(0, a);
            if listed(head, done) {
                return true;
            }
        }
        a = a + 1;
    }
    false
}

/// The index of the last `c` in `s` before `end`, or -1.
pub open spec fn last_before(s: Seq<char>, c: char, end: int) -> int
    decreases end,
{
    if end <= 0 {
        -1
    } else if s[end - 1] == c {
        end - 1
    } else {
        last_before(s, c, end - 1)
    }
}

proof fn lemma_last_before_range(s: Seq<char>, c: char, end: int)
    requires
        0 <= end <= s.len(),
    ensures
        -1 <= last_before(s, c, end) < end,
    decreases end,
{
    if end > 0 && s[end - 1] != c {
        lemma_last_before_range(s, c, end - 1);
    }
}

/// What follows the last `c` in `s`, or all of `s`.
pub open spec fn after_last(s: Seq<char>, c: char) -> Seq<char> {
    s.subrange(last_before(s, c, s.len() as int) + 1, s.len() as int)
}

/// The directory of a stored path: what precedes its last `/`, when it has one.
pub open spec fn dir_of(rel: Seq<char>) -> Option<Seq<char>> {
    let i = last_before(rel, '/', rel.len() as int);
    if i >= 0 {
        Some(rel.subrange(0, i))
    } else {
        None
    }
}

/// The directory of a stored path, as `rsplit_once('/')` splits it off.
pub fn dir_part(rel: &str) -> (r: Option<&str>)
    ensures
        match r {
            Some(d) => dir_of(rel@) == Some(d@),
            None => dir_of(rel@) is None,
        },
{
    let n = rel.unicode_len();
    let mut end = n;
    proof {
        lemma_last_before_range(rel@, '/', n as int);
    }
    while end > 0
        invariant
            end <= n,
            n == rel@.len(),
            last_before(rel@, '/', end as int) == last_before(rel@, '/', n as int),
        decreases end,
    {
        if rel.get_char(end - 1) == '/' {
            return Some(rel.substring_char(0, end - 1));
        }
        end = end - 1;
    }
    None
}

/// What follows the last `c` in `s`, or all of it.
fn tail_after(s: &str, c: char) -> (r: &str)
    ensures
        r@ == after_last(s@, c),
{
    let n = s.unicode_len();
    let mut end = n;
    proof {
        lemma_last_before_range(s@, c, n as int);
    }
    while end > 0
        invariant
            end <= n,
            n == s@.len(),
            last_before(s@, c, end as int) == last_before(s@, c, n as int),
        decreases end,
    {
        if s.get_char(end - 1) == c {
            return s.substring_char(end, n);
        }
        end = end - 1;
    }
    s.substring_char(0, n)
}

/// The last `/`-separated component of a stored path.
pub fn basename(rel_path: &str) -> (r: &str)
    ensures
        r@ == after_last(rel_path@, '/'),
{
    tail_after(rel_path, '/')
}

/// The name a row's file or zip member has: the member after `#` where there is one,
/// then its last component.
pub open spec fn own_name_of(rel: Seq<char>) -> Seq<char> {
    after_last(after_last(rel, '#'), '/')
}

/// The name a row's file or zip member has, compared against the rom's name.
pub fn own_name(rel_path: &str) -> (r: &str)
    ensures
        r@ == own_name_of(rel_path@),
{
    let member = tail_after(rel_path, '#');
    basename(member)
}

/// The state of a file's row.
#[derive(Debug, Clone, Copy, PartialEq, Eq, Structural)]
pub enum FileState {
    /// Found and not yet hashed.
    Pending,
    /// Hashed and matching no rom.
    Unverified,
    /// Matching a rom under the rom's name.
    Verified,
    /// Matching a rom under another name.
    Misnamed,
    /// Matching a rom the DAT marks a bad dump.
    Bad,
}

/// The name a file state is stored under.
pub open spec fn state_name(s: FileState) -> Seq<char> {
    match s {
        FileState::Pending => "pending"@,
        FileState::Unverified => "unverified"@,
        FileState::Verified => "verified"@,
        FileState::Misnamed => "misnamed"@,
        FileState::Bad => "bad"@,
    }
}

/// The name a file state is stored under.
pub fn state_str(s: FileState) -> (r: &'static str)
    ensures
        r@ == state_name(s),
{
    match s {
        FileState::Pending => "pending",
        FileState::Unverified => "unverified",
        FileState::Verified => "verified",
        FileState::Misnamed => "misnamed",
        FileState::Bad => "bad",
    }
}

/// The rom a file matched.
#[derive(Debug, Clone)]
pub struct RomMatch {
    /// The rom's id.
    pub rom_id: i64,
    /// The id of the title the rom belongs to.
    pub title_id: i64,
    /// The rom's name in its DAT.
    pub name: String,
    /// The rom's status in its DAT, such as `baddump`.
    pub status: String,
}

impl RomMatch {
    /// A copy of this match.
    pub fn duplicate(&self) -> (r: RomMatch)
        ensures
            r == *self,
    {
        RomMatch {
            rom_id: self.rom_id,
            title_id: self.title_id,
            name: self.name.clone(),
            status: self.status.clone(),
        }
    }
}

/// The text `baddump`.
pub open spec fn baddump() -> Seq<char> {
    seq!['b', 'a', 'd', 'd', 'u', 'm', 'p']
}

/// The rom id and state a cartridge file or zip member named `own` takes from its match:
/// `Bad` for a bad dump, else `Verified` when the rom's last name component is `own`,
/// else `Misnamed`; `Unverified` without a match.
pub open spec fn cartridge_state_of(m: Option<RomMatch>, own: Seq<char>) -> (Option<i64>, FileState) {
    match m {
        None => (None, FileState::Unverified),
        Some(m) => (
            Some(m.rom_id),
            if m.status@ == baddump() {
                FileState::Bad
            } else if after_last(m.name@, '/') == own {
                FileState::Verified
            } else {
                FileState::Misnamed
            },
        ),
    }
}

/// The rom id and state a cartridge file or zip member named `own_name` takes from
/// its match.
pub fn cartridge_state(m: Option<&RomMatch>, own_name: &str) -> (r: (Option<i64>, FileState))
    ensures
        r == cartridge_state_of(
            match m {
                Some(x) => Some(*x),
                None => None,
            },
            own_name@,
        ),
{
    match m {
        None => (None, FileState::Unverified),
        Some(m) => {
            let bad = crate::text::str_is(m.status.as_str(), "baddump");
            proof {
                reveal_strlit("baddump");
                assert("baddump"@ == baddump());
            }
            let state = if bad {
                FileState::Bad
            } else if crate::text::str_is(basename(m.name.as_str()), own_name) {
                FileState::Verified
            } else {
                FileState::Misnamed
            };
            (Some(m.rom_id), state)
        },
    }
}

/// `path`'s extension in ASCII lowercase, if its file name has one.
pub open spec fn extension_of(path: Seq<char>) -> Option<Seq<char>> {
    match name_of(path) {
        Some(n) => match ext_of(n) {
            Some(e) => Some(lower(e)),
            None => None,
        },
        None => None,
    }
}

/// `path`'s extension, lowercased.
pub fn extension(path: &str) -> (r: Option<String>)
    ensures
        match r {
            Some(e) => extension_of(path@) == Some(e@),
            None => extension_of(path@) is None,
        },
{
    match crate::jobs::dat_import::name_chars(path) {
        Some(v) => {
            let (_, e) = crate::jobs::dat_import::split_name(&v);
            match e {
                Some(e) => {
                    let l = crate::text::lower_chars(&e);
                    Some(crate::text::string_of(&l))
                },
                None => None,
            }
        },
        None => None,
    }
}

/// Whether a platform loads files with extension `ext`: one of its `load_extensions`,
/// or `zip` on a cartridge platform.
pub fn accepts_extension(load_extensions: &Vec<String>, cartridge: bool, ext: &str) -> (r: bool)
    ensures
        r == (texts(load_extensions@).contains(ext@) || (cartridge && ext@ == seq!['z', 'i', 'p'])),
{
    let found = listed(ext, load_extensions);
    let zip = crate::text::str_is(ext, "zip");
    proof {
        reveal_strlit("zip");
        assert("zip"@ == seq!['z', 'i', 'p']);
    }
    found || (cartridge && zip)
}

/// A rule that strips a copier header before a rom is hashed.
#[derive(Debug, Clone, Copy, PartialEq, Eq, Structural)]
pub enum HeaderRule {
    /// No header.
    NoRule,
    /// The iNES header of NES roms.
    Ines,
    /// The copier header of SNES roms.
    Smc,
    /// The Atari 7800 header.
    A78,
    /// The Atari Lynx header.
    Lnx,
    /// N64 byte order.
    N64,
}

/// The header rule of a platform row, by the name it is stored under; any other name
/// is no rule.
pub fn header_rule(name: &str) -> (r: HeaderRule)
    ensures
        r == if name@ == "ines"@ {
            HeaderRule::Ines
        } else if name@ == "smc"@ {
            HeaderRule::Smc
        } else if name@ == "a78"@ {
            HeaderRule::A78
        } else if name@ == "lnx"@ {
            HeaderRule::Lnx
        } else if name@ == "n64"@ {
            HeaderRule::N64
        } else {
            HeaderRule::NoRule
        },
{
    if crate::text::str_is(name, "ines") {
        HeaderRule::Ines
    } else if crate::text::str_is(name, "smc") {
        HeaderRule::Smc
    } else if crate::text::str_is(name, "a78") {
        HeaderRule::A78
    } else if crate::text::str_is(name, "lnx") {
        HeaderRule::Lnx
    } else if crate::text::str_is(name, "n64") {
        HeaderRule::N64
    } else {
        HeaderRule::NoRule
    }
}

/// Least time between two `file.changed` events, in milliseconds.
pub const MIN_GAP_MS: u64 = 100;

/// Throttles `file.changed` to at most 10 per second by dropping the rest; every state
/// is already durable in `files` regardless.
#[derive(Debug, Clone, Copy, PartialEq, Eq, Structural)]
pub struct Throttle {
    last: Option<u64>,
}

impl Throttle {
    /// When the last event went out, in milliseconds on a monotonic clock.
    pub closed spec fn last_sent(&self) -> Option<u64> {
        self.last
    }

    /// A throttle that has let nothing through.
    pub fn new() -> (t: Throttle)
        ensures
            t.last_sent() is None,
    {
        Throttle { last: None }
    }

    /// Whether an event at `now` goes out: not within [`MIN_GAP_MS`] of the last one
    /// that did (a clock that went back counts as no time passed).
    pub fn allow(&mut self, now: u64) -> (ok: bool)
        ensures
            ok == match old(self).last_sent() {
                Some(last) => now >= last + MIN_GAP_MS,
                None => true,
            },
            final(self).last_sent() == if ok {
                Some(now)
            } else {
                old(self).last_sent()
            },
    {
        if let Some(last) = self.last {
            if now.saturating_sub(last) < MIN_GAP_MS {
                return false;
            }
        }
        self.last = Some(now);
        true
    }
}

/// Where a scan resumes, from the ids of the platform's units now (`units`), the units a
/// stopped scan saved as done (`saved`) and the paths the platform's rows have (`existing`).
#[derive(Debug, Clone)]
pub struct Resume {
    /// The saved units that still exist: they are not walked again.
    pub done: Vec<String>,
    /// The rows inside a done unit, by index into `existing`: kept, since no walk sees them.
    pub keep: Vec<usize>,
    /// The units still to walk, by index into `units`, in order.
    pub remaining: Vec<usize>,
}

/// Indices `v` are in increasing order and below `n`.
pub open spec fn ascending_below(v: Seq<usize>, n: int) -> bool {
    &&& forall|k: int| 0 <= k < v.len() ==> (#[trigger] v[k]) < n
    &&& forall|k: int, j: int| 0 <= k < j < v.len() ==> v[k] < v[j]
}

/// The indices below `n` whose flag is set, in order: one pass over them.
fn indices_where(n: usize, keep: &Vec<bool>) -> (v: Vec<usize>)
    requires
        keep@.len() == n,
    ensures
        ascending_below(v@, n as int),
        forall|i: int| 0 <= i < n ==> (v@.contains(i as usize) <==> #[trigger] keep@[i]),
{
    let mut v: Vec<usize> = Vec::new();
    let mut i: usize = 0;
    while i < n
        invariant
            i <= n,
            keep@.len() == n,
            forall|k: int| 0 <= k < v@.len() ==> (#[trigger] v@[k]) < i,
            forall|k: int, j: int| 0 <= k < j < v@.len() ==> v@[k] < v@[j],
            forall|a: int| 0 <= a < i ==> (v@.contains(a as usize) <==> #[trigger] keep@[a]),
        decreases n - i,
    {
        let ghost before = v@;
        if keep[i] {
            v.push(i);
        }
        proof {
            assert forall|a: int| 0 <= a < i + 1 implies (v@.contains(a as usize) <==> #[trigger] keep@[a]) by {
                if a < i {
                    if v@.contains(a as usize) {
                        let w = choose|w: int| 0 <= w < v@.len() && v@[w] == a as usize;
                        if w < before.len() {
                            assert(before[w] == a as usize);
                        }
                    }
                    if before.contains(a as usize) {
                        let w = choose|w: int| 0 <= w < before.len() && before[w] == a as usize;
                        assert(v@[w] == a as usize);
                    }
                } else {
                    if keep@[i as int] {
                        assert(v@[before.len() as int] == i);
                    } else if v@.contains(a as usize) {
                        let w = choose|w: int| 0 <= w < v@.len() && v@[w] == a as usize;
                        assert(before[w] < i);
                    }
                }
            }
        }
        i = i + 1;
    }
    v
}

/// Where a scan resumes; see [`Resume`]. A saved unit that no longer exists is dropped.
pub fn resume(units: &Vec<String>, saved: &Vec<String>, existing: &Vec<String>) -> (r: Resume)
    ensures
        texts(r.done@) == texts(saved@).intersect(texts(units@)),
        ascending_below(r.keep@, existing@.len() as int),
        forall|i: int| 0 <= i < existing@.len() ==> (r.keep@.contains(i as usize) <==> in_done(#[trigger] existing@[i]@, texts(r.done@))),
        ascending_below(r.remaining@, units@.len() as int),
        forall|i: int| 0 <= i < units@.len() ==> (r.remaining@.contains(i as usize) <==> !texts(r.done@).contains(#[trigger] units@[i]@)),
{
    let mut done: Vec<String> = Vec::new();
    let mut i: usize = 0;
    while i < saved.len()
        invariant
            i <= saved@.len(),
            texts(done@) == texts(saved@.subrange(0, i as int)).intersect(texts(units@)),
        decreases saved.len() - i,
    {
        let ghost before = done@;
        if listed(saved[i].as_str(), units) {
            done.push(saved[i].clone());
        }
        proof {
            let next = saved@.subrange(0, i + 1);
            assert(texts(done@) =~= texts(next).intersect(texts(units@))) by {
                assert forall|t: Seq<char>| texts(done@).contains(t) implies texts(next).intersect(texts(units@)).contains(t) by {
                    let m = choose|m: int| 0 <= m < done@.len() && (#[trigger] done@[m])@ == t;
                    if m < before.len() {
                        assert(before[m] == done@[m]);
                        assert(texts(before).contains(t));
                        let w = choose|w: int| 0 <= w < i && (#[trigger] saved@.subrange(0, i as int)[w])@ == t;
                        assert(next[w] == saved@.subrange(0, i as int)[w]);
                    } else {
                        assert(next[i as int] == saved@[i as int]);
                    }
                }
                assert forall|t: Seq<char>| texts(next).intersect(texts(units@)).contains(t) implies texts(done@).contains(t) by {
                    let w = choose|w: int| 0 <= w < next.len() && (#[trigger] next[w])@ == t;
                    if w < i {
                        assert(saved@.subrange(0, i as int)[w] == next[w]);
                        assert(texts(before).contains(t));
                        let m = choose|m: int| 0 <= m < before.len() && (#[trigger] before[m])@ == t;
                        assert(done@[m] == before[m]);
                    } else {
                        assert(done@[before.len() as int]@ == t);
                    }
                }
            }
        }
        i = i + 1;
    }
    proof {
        assert(saved@.subrange(0, saved@.len() as int) == saved@);
    }
    let mut in_done_flags: Vec<bool> = Vec::new();
    let mut k: usize = 0;
    while k < existing.len()
        invariant
            k <= existing@.len(),
            in_done_flags@.len() == k,
            forall|m: int| 0 <= m < k ==> #[trigger] in_done_flags@[m] == in_done(existing@[m]@, texts(done@)),
        decreases existing.len() - k,
    {
        in_done_flags.push(in_done_unit(existing[k].as_str(), &done));
        k = k + 1;
    }
    let keep = indices_where(existing.len(), &in_done_flags);
    let mut walk_flags: Vec<bool> = Vec::new();
    let mut u: usize = 0;
    while u < units.len()
        invariant
            u <= units@.len(),
            walk_flags@.len() == u,
            forall|m: int| 0 <= m < u ==> #[trigger] walk_flags@[m] == !texts(done@).contains(units@[m]@),
        decreases units.len() - u,
    {
        walk_flags.push(!listed(units[u].as_str(), &done));
        u = u + 1;
    }
    let remaining = indices_where(units.len(), &walk_flags);
    proof {
        assert forall|i: int| 0 <= i < existing@.len() implies keep@.contains(i as usize) == in_done(existing@[i]@, texts(done@)) by {
            assert(in_done_flags@[i] == in_done(existing@[i]@, texts(done@)));
        }
        assert forall|i: int| 0 <= i < units@.len() implies remaining@.contains(i as usize) == !texts(done@).contains(units@[i]@) by {
            assert(walk_flags@[i] == !texts(done@).contains(units@[i]@));
        }
    }
    Resume { done, keep, remaining }
}

} // verus!
