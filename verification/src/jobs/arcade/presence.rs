//! The arcade presence pass: which rows the zips under `games/mame` and `games/hbmame`
//! need, decided from one stat of each zip and, for a zip that changed, its listing.

use vstd::prelude::*;
use crate::text::lower;

verus! {

/// One zip on disk, from one stat.
#[derive(Debug, Clone, PartialEq, Eq)]
pub struct Zip {
    /// `{dir}/{name}`, as `files.rel_path` stores it.
    pub rel: String,
    /// Size in bytes.
    pub size: i64,
    /// Modification time, Unix seconds.
    pub mtime: i64,
}

/// A stored `files` row of a zip or of one of its members (`zip#member`).
#[derive(Debug, Clone)]
pub struct ZipRow {
    /// The row's id.
    pub id: i64,
    /// `files.rel_path`.
    pub rel_path: String,
    /// Size stored.
    pub size: i64,
    /// Modification time stored.
    pub mtime: i64,
    /// The rom it stands for.
    pub rom_id: Option<i64>,
    /// CRC32 stored, if any.
    pub crc32: Option<String>,
}

/// One member of a zip's central directory.
#[derive(Debug, Clone)]
pub struct Member {
    /// Its name in the archive.
    pub name: String,
    /// Its uncompressed size.
    pub size: u64,
    /// Its CRC32 in hex.
    pub crc32: String,
}

/// One batch's writes.
#[derive(Debug, Clone)]
pub struct Changes {
    /// Rows to delete, by path.
    pub drop: Vec<String>,
    /// Presence rows to write: the zip, and the MRA zip rom it stands for.
    pub record: Vec<(Zip, i64)>,
    /// Member rows whose hashes still apply: the new mtime.
    pub restamp: Vec<(i64, i64)>,
    /// Member rows whose content changed: new size, mtime and CRC32.
    pub reverify: Vec<(i64, i64, i64, String)>,
}

impl Changes {
    /// Nothing to write.
    pub fn new() -> (c: Changes)
        ensures
            c.drop@.len() == 0,
            c.record@.len() == 0,
            c.restamp@.len() == 0,
            c.reverify@.len() == 0,
    {
        Changes { drop: Vec::new(), record: Vec::new(), restamp: Vec::new(), reverify: Vec::new() }
    }
}

/// What [`record`] adds: the paths to drop and the presence rows to write.
pub open spec fn record_of(zip: Zip, rom: Option<i64>, bare: Option<ZipRow>) -> (Seq<Seq<char>>, Seq<(Zip, i64)>) {
    match (rom, bare) {
        (None, Some(b)) => (seq![b.rel_path@], Seq::empty()),
        (None, None) => (Seq::empty(), Seq::empty()),
        (Some(r), Some(b)) => if b.size == zip.size && b.mtime == zip.mtime && b.rom_id == Some(r) {
            (Seq::empty(), Seq::empty())
        } else {
            (Seq::empty(), seq![(zip, r)])
        },
        (Some(r), None) => (Seq::empty(), seq![(zip, r)]),
    }
}

/// A copy of a zip.
fn copy_zip(z: &Zip) -> (r: Zip)
    ensures
        r == *z,
{
    Zip { rel: z.rel.clone(), size: z.size, mtime: z.mtime }
}

/// The presence row `zip` needs when no member row stands for it: one against the MRA
/// zip rom `rom` that names it, written again only when the zip or its rom changed; the
/// bare row `bare` is dropped when no live MRA names the zip.
pub fn record(zip: &Zip, rom: Option<i64>, bare: Option<&ZipRow>, out: &mut Changes)
    ensures
        ({
            let (d, r) = record_of(
                *zip,
                rom,
                match bare {
                    Some(b) => Some(*b),
                    None => None,
                },
            );
            &&& crate::assoc::texts_seq(final(out).drop@) == crate::assoc::texts_seq(old(out).drop@) + d
            &&& final(out).record@ == old(out).record@ + r
            &&& final(out).restamp@ == old(out).restamp@
            &&& final(out).reverify@ == old(out).reverify@
        }),
{
    match (rom, bare) {
        (None, Some(b)) => {
            out.drop.push(b.rel_path.clone());
            proof {
                assert(crate::assoc::texts_seq(out.drop@) =~= crate::assoc::texts_seq(old(out).drop@) + seq![b.rel_path@]);
            }
        },
        (None, None) => {
            assert(out.record@ == old(out).record@ + Seq::<(Zip, i64)>::empty());
            assert(crate::assoc::texts_seq(out.drop@) == crate::assoc::texts_seq(old(out).drop@) + Seq::<Seq<char>>::empty());
        },
        (Some(r), Some(b)) => {
            if b.size == zip.size && b.mtime == zip.mtime && b.rom_id == Some(r) {
                assert(out.record@ == old(out).record@ + Seq::<(Zip, i64)>::empty());
            } else {
                out.record.push((copy_zip(zip), r));
                assert(out.record@ == old(out).record@ + seq![(*zip, r)]);
            }
            assert(crate::assoc::texts_seq(out.drop@) == crate::assoc::texts_seq(old(out).drop@) + Seq::<Seq<char>>::empty());
        },
        (Some(r), None) => {
            out.record.push((copy_zip(zip), r));
            assert(out.record@ == old(out).record@ + seq![(*zip, r)]);
            assert(crate::assoc::texts_seq(out.drop@) == crate::assoc::texts_seq(old(out).drop@) + Seq::<Seq<char>>::empty());
        },
    }
}

/// Member rows of a zip that changed on disk, reconciled once its central directory is
/// read.
#[derive(Debug)]
pub struct Recheck {
    /// The zip as stated this run.
    pub zip: Zip,
    /// The zip rom a live MRA gives it, if any.
    pub rom: Option<i64>,
    /// Its `zip#member` rows.
    pub members: Vec<ZipRow>,
}

/// The path of a bare presence row, as a list of at most one.
pub open spec fn bare_path(bare: Option<ZipRow>) -> Seq<Seq<char>> {
    match bare {
        Some(b) => seq![b.rel_path@],
        None => Seq::empty(),
    }
}

/// Decides `zip`'s rows without reading it. Without member rows the zip gets the
/// presence row [`record`] gives it. Member rows (the import path's) stand for the zip
/// and replace any presence row `bare`; they are left alone unless the zip's mtime moved,
/// and then the zip is read again.
pub fn decide(zip: &Zip, rom: Option<i64>, bare: Option<ZipRow>, members: Vec<ZipRow>, out: &mut Changes) -> (rc: Option<Recheck>)
    ensures
        members@.len() == 0 ==> {
            let (d, r) = record_of(*zip, rom, bare);
            &&& crate::assoc::texts_seq(final(out).drop@) == crate::assoc::texts_seq(old(out).drop@) + d
            &&& final(out).record@ == old(out).record@ + r
            &&& rc is None
        },
        members@.len() > 0 ==> {
            &&& crate::assoc::texts_seq(final(out).drop@) == crate::assoc::texts_seq(old(out).drop@) + bare_path(bare)
            &&& final(out).record@ == old(out).record@
            &&& (forall|k: int| 0 <= k < members@.len() ==> (#[trigger] members@[k]).mtime == zip.mtime) ==> rc is None
            &&& !(forall|k: int| 0 <= k < members@.len() ==> (#[trigger] members@[k]).mtime == zip.mtime) ==> (rc
                matches Some(c) && c.zip == *zip && c.rom == rom && c.members@ == members@)
        },
        final(out).restamp@ == old(out).restamp@,
        final(out).reverify@ == old(out).reverify@,
{
    if members.len() == 0 {
        match &bare {
            Some(b) => record(zip, rom, Some(b), out),
            None => record(zip, rom, None, out),
        }
        return None;
    }
    let ghost bare_drop: Seq<Seq<char>> = bare_path(bare);
    match bare {
        Some(b) => {
            out.drop.push(b.rel_path);
            proof {
                assert(crate::assoc::texts_seq(out.drop@) =~= crate::assoc::texts_seq(old(out).drop@) + seq![b.rel_path@]);
            }
        },
        None => {
            assert(crate::assoc::texts_seq(out.drop@) == crate::assoc::texts_seq(old(out).drop@) + Seq::<Seq<char>>::empty());
        },
    }
    let ghost settled = *out;
    let mut i: usize = 0;
    while i < members.len()
        invariant
            i <= members@.len(),
            forall|k: int| 0 <= k < i ==> (#[trigger] members@[k]).mtime == zip.mtime,
            *out == settled,
            crate::assoc::texts_seq(settled.drop@) == crate::assoc::texts_seq(old(out).drop@) + bare_drop,
            bare_drop == bare_path(bare),
            settled.record@ == old(out).record@,
            settled.restamp@ == old(out).restamp@,
            settled.reverify@ == old(out).reverify@,
        decreases members.len() - i,
    {
        if members[i].mtime != zip.mtime {
            return Some(Recheck { zip: copy_zip(zip), rom, members });
        }
        i = i + 1;
    }
    None
}

/// What follows the first `#` of `s`, empty without one.
pub open spec fn member_part(s: Seq<char>) -> Seq<char> {
    if exists|i: int| 0 <= i < s.len() && s[i] == '#' {
        let i = choose|i: int| 0 <= i < s.len() && s[i] == '#' && forall|j: int| 0 <= j < i ==> s[j] != '#';
        s.subrange(i + 1, s.len() as int)
    } else {
        Seq::empty()
    }
}

/// What follows the first `#` of `s`, empty without one.
fn member_of(s: &str) -> (r: &str)
    ensures
        r@ == member_part(s@),
{
    let n = s.unicode_len();
    let mut i: usize = 0;
    while i < n
        invariant
            i <= n,
            n == s@.len(),
            forall|j: int| 0 <= j < i ==> s@[j] != '#',
        decreases n - i,
    {
        if s.get_char(i) == '#' {
            proof {
                let k = choose|k: int| 0 <= k < s@.len() && s@[k] == '#' && forall|j: int| 0 <= j < k ==> s@[j] != '#';
                assert(k == i) by {
                    if k < i {
                        assert(s@[k] != '#');
                    }
                    if k > i {
                        assert(s@[i as int] != '#');
                    }
                }
            }
            return s.substring_char(i + 1, n);
        }
        i = i + 1;
    }
    proof {
        reveal_strlit("");
    }
    ""
}

/// The last member of `listed` named `name`: a listing keyed by name keeps the last.
pub open spec fn last_named(listed: Seq<Member>, name: Seq<char>) -> Option<Member>
    decreases listed.len(),
{
    if listed.len() == 0 {
        None
    } else if listed.last().name@ == name {
        Some(listed.last())
    } else {
        last_named(listed.drop_last(), name)
    }
}

/// `size` as a stored size: the largest one for a size that does not fit.
pub open spec fn stored_size(size: u64) -> i64 {
    if size <= i64::MAX as u64 {
        size as i64
    } else {
        i64::MAX
    }
}

/// Whether a row's stored CRC32 is `crc`, in any case.
pub open spec fn same_crc(row: Option<String>, crc: Seq<char>) -> bool {
    match row {
        Some(c) => lower(c@) == lower(crc),
        None => false,
    }
}

/// What reconciling one member row against the listing does.
#[derive(Debug, Clone, PartialEq, Eq)]
pub enum Fate {
    /// The member is gone: drop the row.
    Drop,
    /// Same size and CRC32: keep its hashes, with the new mtime.
    Restamp,
    /// The content changed: verify it again with this size and CRC32.
    Reverify(i64, String),
}

/// The fate of member row `row` of a zip listed as `listed`.
pub open spec fn fate_of(row: ZipRow, listed: Seq<Member>) -> Fate {
    match last_named(listed, member_part(row.rel_path@)) {
        None => Fate::Drop,
        Some(m) => if row.size == stored_size(m.size) && same_crc(row.crc32, m.crc32@) {
            Fate::Restamp
        } else {
            Fate::Reverify(stored_size(m.size), m.crc32)
        },
    }
}

/// The last member of `listed` named `name`.
fn find_member<'a>(listed: &'a Vec<Member>, name: &str) -> (r: Option<&'a Member>)
    ensures
        match last_named(listed@, name@) {
            Some(m) => r matches Some(x) && *x == m,
            None => r is None,
        },
{
    let mut k = listed.len();
    proof {
        assert(listed@.subrange(0, k as int) == listed@);
    }
    while k > 0
        invariant
            k <= listed@.len(),
            last_named(listed@, name@) == last_named(listed@.subrange(0, k as int), name@),
        decreases k,
    {
        proof {
            assert(listed@.subrange(0, k as int).drop_last() == listed@.subrange(0, k - 1));
            assert(listed@.subrange(0, k as int).last() == listed@[k - 1]);
        }
        if crate::text::str_is(listed[k - 1].name.as_str(), name) {
            return Some(&listed[k - 1]);
        }
        k = k - 1;
    }
    None
}

/// The fate of one member row; see [`fate_of`].
pub fn fate(row: &ZipRow, listed: &Vec<Member>) -> (f: Fate)
    ensures
        f == fate_of(*row, listed@),
{
    let name = member_of(row.rel_path.as_str());
    match find_member(listed, name) {
        None => Fate::Drop,
        Some(m) => {
            let size: i64 = if m.size <= 9223372036854775807u64 {
                m.size as i64
            } else {
                i64::MAX
            };
            let crc = match &row.crc32 {
                Some(c) => {
                    let a = crate::text::chars_of(c.as_str());
                    let b = crate::text::chars_of(m.crc32.as_str());
                    crate::text::same_ignoring_case(&a, &b)
                },
                None => false,
            };
            if row.size == size && crc {
                Fate::Restamp
            } else {
                Fate::Reverify(size, m.crc32.clone())
            }
        },
    }
}

/// The paths of the rows of `rows` whose member is gone from `listed`, in order.
pub open spec fn drops_of(rows: Seq<ZipRow>, listed: Seq<Member>) -> Seq<Seq<char>>
    decreases rows.len(),
{
    if rows.len() == 0 {
        Seq::empty()
    } else {
        let d = drops_of(rows.drop_last(), listed);
        if fate_of(rows.last(), listed) is Drop {
            d.push(rows.last().rel_path@)
        } else {
            d
        }
    }
}

/// The restamps of the rows of `rows` whose member is unchanged, with mtime `mtime`.
pub open spec fn restamps_of(rows: Seq<ZipRow>, listed: Seq<Member>, mtime: i64) -> Seq<(i64, i64)>
    decreases rows.len(),
{
    if rows.len() == 0 {
        Seq::empty()
    } else {
        let d = restamps_of(rows.drop_last(), listed, mtime);
        if fate_of(rows.last(), listed) is Restamp {
            d.push((rows.last().id, mtime))
        } else {
            d
        }
    }
}

/// The re-verifications of the rows of `rows` whose member changed, with mtime `mtime`.
pub open spec fn reverifies_of(rows: Seq<ZipRow>, listed: Seq<Member>, mtime: i64) -> Seq<(i64, i64, i64, String)>
    decreases rows.len(),
{
    if rows.len() == 0 {
        Seq::empty()
    } else {
        let d = reverifies_of(rows.drop_last(), listed, mtime);
        match fate_of(rows.last(), listed) {
            Fate::Reverify(size, crc) => d.push((rows.last().id, size, mtime, crc)),
            _ => d,
        }
    }
}

/// Reconciles the member rows of a changed zip against its listing `listed`: each row
/// takes its [`fate`], in order, and a zip none of whose rows is kept gets the presence
/// row [`record`] gives it.
pub fn reconcile(rc: Recheck, listed: &Vec<Member>, out: &mut Changes)
    ensures
        ({
            let rows = rc.members@;
            let kept = exists|k: int| 0 <= k < rows.len() && !(fate_of(#[trigger] rows[k], listed@) is Drop);
            &&& crate::assoc::texts_seq(final(out).drop@) == crate::assoc::texts_seq(old(out).drop@) + drops_of(rows, listed@)
            &&& final(out).restamp@ == old(out).restamp@ + restamps_of(rows, listed@, rc.zip.mtime)
            &&& final(out).reverify@ == old(out).reverify@ + reverifies_of(rows, listed@, rc.zip.mtime)
            &&& kept ==> final(out).record@ == old(out).record@
            &&& !kept ==> final(out).record@ == old(out).record@ + record_of(rc.zip, rc.rom, None).1
        }),
{
    let mut kept = false;
    let mut i: usize = 0;
    while i < rc.members.len()
        invariant
            i <= rc.members@.len(),
            kept == exists|k: int| 0 <= k < i && !(fate_of(#[trigger] rc.members@[k], listed@) is Drop),
            crate::assoc::texts_seq(out.drop@) == crate::assoc::texts_seq(old(out).drop@) + drops_of(rc.members@.subrange(0, i as int), listed@),
            out.restamp@ == old(out).restamp@ + restamps_of(rc.members@.subrange(0, i as int), listed@, rc.zip.mtime),
            out.reverify@ == old(out).reverify@ + reverifies_of(rc.members@.subrange(0, i as int), listed@, rc.zip.mtime),
            out.record@ == old(out).record@,
        decreases rc.members.len() - i,
    {
        let ghost prefix = rc.members@.subrange(0, i as int);
        let ghost next = rc.members@.subrange(0, i + 1);
        proof {
            assert(next.drop_last() == prefix);
            assert(next.last() == rc.members@[i as int]);
        }
        let row = &rc.members[i];
        match fate(row, listed) {
            Fate::Drop => {
                let ghost d0 = out.drop@;
                out.drop.push(row.rel_path.clone());
                proof {
                    assert(crate::assoc::texts_seq(out.drop@) =~= crate::assoc::texts_seq(d0).push(row.rel_path@));
                    assert(crate::assoc::texts_seq(out.drop@) =~= crate::assoc::texts_seq(old(out).drop@) + drops_of(next, listed@));
                }
            },
            Fate::Restamp => {
                kept = true;
                out.restamp.push((row.id, rc.zip.mtime));
                proof {
                    assert(out.restamp@ =~= old(out).restamp@ + restamps_of(next, listed@, rc.zip.mtime));
                }
            },
            Fate::Reverify(size, crc) => {
                kept = true;
                out.reverify.push((row.id, size, rc.zip.mtime, crc));
                proof {
                    assert(out.reverify@ =~= old(out).reverify@ + reverifies_of(next, listed@, rc.zip.mtime));
                }
            },
        }
        i = i + 1;
    }
    proof {
        assert(rc.members@.subrange(0, rc.members@.len() as int) == rc.members@);
    }
    if !kept {
        record(&rc.zip, rc.rom, None, out);
        proof {
            assert(record_of(rc.zip, rc.rom, None).0 == Seq::<Seq<char>>::empty());
        }
    }
}

/// What precedes the first `#` of `s`: the zip of a member row, or the whole path.
pub open spec fn container_part(s: Seq<char>) -> Seq<char> {
    if exists|i: int| 0 <= i < s.len() && s[i] == '#' {
        let i = choose|i: int| 0 <= i < s.len() && s[i] == '#' && forall|j: int| 0 <= j < i ==> s[j] != '#';
        s.subrange(0, i)
    } else {
        s
    }
}

/// What precedes the first `#` of `s`.
fn container_of(s: &str) -> (r: &str)
    ensures
        r@ == container_part(s@),
{
    let n = s.unicode_len();
    let mut i: usize = 0;
    while i < n
        invariant
            i <= n,
            n == s@.len(),
            forall|j: int| 0 <= j < i ==> s@[j] != '#',
        decreases n - i,
    {
        if s.get_char(i) == '#' {
            proof {
                let k = choose|k: int| 0 <= k < s@.len() && s@[k] == '#' && forall|j: int| 0 <= j < k ==> s@[j] != '#';
                assert(k == i) by {
                    if k < i {
                        assert(s@[k] != '#');
                    }
                    if k > i {
                        assert(s@[i as int] != '#');
                    }
                }
            }
            return s.substring_char(0, i);
        }
        i = i + 1;
    }
    s
}

/// Whether row `rel`'s zip is one of `names` directly under `dir`.
pub open spec fn listed_in(dir: Seq<char>, names: Seq<String>, rel: Seq<char>) -> bool {
    exists|k: int| 0 <= k < names.len() && container_part(rel) == dir + seq!['/'] + (#[trigger] names[k])@
}

/// The rows of `page` under `dir` whose zip is not among `names`, the zips listed under
/// `dir`, by index: a row outside the listing (a nested path, or a zip added since) is
/// pruned once its zip is not on disk either.
pub fn unlisted_rows(dir: &str, names: &Vec<String>, page: &Vec<String>) -> (v: Vec<usize>)
    ensures
        forall|k: int| 0 <= k < v@.len() ==> (#[trigger] v@[k]) < page@.len(),
        forall|k: int, j: int| 0 <= k < j < v@.len() ==> v@[k] < v@[j],
        forall|i: int| 0 <= i < page@.len() ==> (v@.contains(i as usize) <==> !listed_in(dir@, names@, (#[trigger] page@[i])@)),
{
    let head = crate::text::concat(dir, "/");
    proof {
        reveal_strlit("/");
        assert("/"@ == seq!['/']);
    }
    let mut v: Vec<usize> = Vec::new();
    let mut i: usize = 0;
    while i < page.len()
        invariant
            i <= page@.len(),
            head@ == dir@ + seq!['/'],
            forall|k: int| 0 <= k < v@.len() ==> (#[trigger] v@[k]) < i,
            forall|k: int, j: int| 0 <= k < j < v@.len() ==> v@[k] < v@[j],
            forall|a: int| 0 <= a < i ==> (v@.contains(a as usize) <==> !listed_in(dir@, names@, (#[trigger] page@[a])@)),
        decreases page.len() - i,
    {
        let c = container_of(page[i].as_str());
        let mut listed = false;
        let mut k: usize = 0;
        while k < names.len()
            invariant
                k <= names@.len(),
                i < page@.len(),
                head@ == dir@ + seq!['/'],
                c@ == container_part(page@[i as int]@),
                listed == exists|m: int| 0 <= m < k && container_part(page@[i as int]@) == dir@ + seq!['/'] + (#[trigger] names@[m])@,
            decreases names.len() - k,
        {
            let full = crate::text::concat(head.as_str(), names[k].as_str());
            if crate::text::str_is(c, full.as_str()) {
                listed = true;
            }
            k = k + 1;
        }
        let ghost before = v@;
        if !listed {
            v.push(i);
        }
        proof {
            assert forall|a: int| 0 <= a < i + 1 implies (v@.contains(a as usize) <==> !listed_in(dir@, names@, (#[trigger] page@[a])@)) by {
                if a < i {
                    if v@.contains(a as usize) {
                        let w = choose|w: int| 0 <= w < v@.len() && v@[w] == a as usize;
                        if w < before.len() {
                            assert(before[w] == a as usize);
                        }
                    }
                    if before.contains(a as usize) {
                        let w = choose|w: int| 0 <= w < before.len() && before[w] == a as usize;
                        assert(v@[w] == a as usize);
                    }
                } else {
                    if !listed {
                        assert(v@[before.len() as int] == i);
                    } else if v@.contains(a as usize) {
                        let w = choose|w: int| 0 <= w < v@.len() && v@[w] == a as usize;
                        assert(before[w] < i);
                    }
                }
            }
        }
        i = i + 1;
    }
    v
}

/// The zip names among `entries`, the names directly under a directory, in bytewise order
/// as `files.rel_path` sorts.
pub fn zip_names(entries: &Vec<String>) -> (out: Vec<String>)
    ensures
        crate::sort::sorted(out@),
        crate::sort::reorders(out@, zips_among(entries@)),
{
    let mut zips: Vec<String> = Vec::new();
    let mut i: usize = 0;
    while i < entries.len()
        invariant
            i <= entries@.len(),
            zips@ == zips_among(entries@.subrange(0, i as int)),
        decreases entries.len() - i,
    {
        proof {
            assert(entries@.subrange(0, i + 1).drop_last() == entries@.subrange(0, i as int));
            assert(entries@.subrange(0, i + 1).last() == entries@[i as int]);
        }
        let is_zip = match crate::jobs::scan::extension(entries[i].as_str()) {
            Some(e) => crate::text::str_is(e.as_str(), "zip"),
            None => false,
        };
        if is_zip {
            zips.push(entries[i].clone());
        }
        i = i + 1;
    }
    proof {
        assert(entries@.subrange(0, entries@.len() as int) == entries@);
    }
    crate::sort::sort_texts(&zips)
}

/// The names among `entries` whose extension, lowercased, is `zip`, in order.
pub open spec fn zips_among(entries: Seq<String>) -> Seq<String>
    decreases entries.len(),
{
    if entries.len() == 0 {
        Seq::empty()
    } else {
        let before = zips_among(entries.drop_last());
        if crate::jobs::scan::extension_of(entries.last()@) == Some("zip"@) {
            before.push(entries.last())
        } else {
            before
        }
    }
}

} // verus!
