//! A found file's stored row decides the scan's next step: hash the file again, skip it,
//! or match it from its stored hashes, with the live-rom lookups that match tries in order.

use vstd::prelude::*;
use crate::jobs::scan::{FileState, RomMatch};

verus! {

/// The hashes a `files` row stores of one form of its payload.
#[derive(Debug, Clone)]
pub struct FormHashes {
    /// CRC32 in hex.
    pub crc32: Option<String>,
    /// MD5 in hex.
    pub md5: Option<String>,
    /// SHA-1 in hex.
    pub sha1: Option<String>,
}

/// What a scan reads of the stored `files` row of a path.
#[derive(Debug, Clone)]
pub struct StoredRow {
    /// Size stored.
    pub size: i64,
    /// Modification time stored.
    pub mtime: i64,
    /// `files.state`.
    pub state: FileState,
    /// The rom it stands for.
    pub rom_id: Option<i64>,
    /// The header rule it was hashed under; `None` for a member never hashed.
    pub header_rule: Option<String>,
    /// The hashes of its payload after its header rule.
    pub hashes: FormHashes,
    /// The hashes of the whole file, where they differ or were kept.
    pub whole: FormHashes,
}

/// One live-rom lookup by hashes and size; an empty hash matches nothing.
#[derive(Debug, Clone, PartialEq, Eq)]
pub struct Lookup {
    /// SHA-1 in hex.
    pub sha1: String,
    /// MD5 in hex.
    pub md5: String,
    /// CRC32 in hex.
    pub crc32: String,
    /// The rom's size.
    pub size: i64,
}

/// The text an optional text holds.
pub open spec fn text_of(o: Option<String>) -> Option<Seq<char>> {
    match o {
        Some(s) => Some(s@),
        None => None,
    }
}

/// An optional text, empty when absent.
pub open spec fn or_empty(o: Option<String>) -> Seq<char> {
    match o {
        Some(s) => s@,
        None => Seq::empty(),
    }
}

/// A lookup as `(sha1, md5, crc32, size)`.
pub open spec fn lookup_view(l: Lookup) -> (Seq<char>, Seq<char>, Seq<char>, int) {
    (l.sha1@, l.md5@, l.crc32@, l.size as int)
}

/// The lookup of the form `h` at `size`.
pub open spec fn form_lookup(h: FormHashes, size: int) -> (Seq<char>, Seq<char>, Seq<char>, int) {
    (or_empty(h.sha1), or_empty(h.md5), or_empty(h.crc32), size)
}

/// Whether a form was fully hashed: it has a SHA-1 or an MD5.
pub open spec fn fully_hashed(h: FormHashes) -> bool {
    h.sha1 is Some || h.md5 is Some
}

/// Whether a fully hashed row was hashed under a rule that strips a header (`strips`)
/// but holds the stripped form alone, with no whole-file hashes to match a headered DAT by.
pub open spec fn lacks_whole_of(row: StoredRow, strips: bool) -> bool {
    strips && fully_hashed(row.hashes) && !fully_hashed(row.whole)
}

/// Whether the whole-file hashes of a row differ from its hashes.
pub open spec fn whole_differs(row: StoredRow) -> bool {
    text_of(row.whole.sha1) != text_of(row.hashes.sha1) || text_of(row.whole.md5) != text_of(
        row.hashes.md5,
    )
}

/// Whether a row without whole-file hashes may hold a stripped form: under the SMC rule
/// (`smc`) a size of 512 more than a multiple of 1024, under another a size larger
/// than its rule's `header`.
pub open spec fn maybe_stripped(size: i64, header: int, smc: bool) -> bool {
    if smc {
        size >= 0 && (size as int) % 1024 == 512
    } else {
        header > 0 && size > header
    }
}

/// The lookups that match a row from its stored hashes, in order, the first that finds
/// a live rom deciding; `header` is the length its rule strips. A row without a SHA-1 or
/// MD5 tries none. A row whose whole-file hashes differ from its hashes tries the whole
/// file at its size, then its content at the size less the header. Otherwise the row's
/// hashes try its size, and a row with no whole-file hashes that may be stripped tries
/// its CRC32 alone at the size less the header.
pub open spec fn lookups_of(row: StoredRow, header: int, smc: bool) -> Seq<
    (Seq<char>, Seq<char>, Seq<char>, int),
> {
    if !fully_hashed(row.hashes) {
        Seq::empty()
    } else if fully_hashed(row.whole) && whole_differs(row) {
        seq![form_lookup(row.whole, row.size as int), form_lookup(row.hashes, row.size - header)]
    } else if !fully_hashed(row.whole) && maybe_stripped(row.size, header, smc) && or_empty(
        row.hashes.crc32,
    ).len() > 0 {
        seq![
            form_lookup(row.hashes, row.size as int),
            (Seq::empty(), Seq::empty(), or_empty(row.hashes.crc32), row.size - header),
        ]
    } else {
        seq![form_lookup(row.hashes, row.size as int)]
    }
}

/// Whether two optional texts are the same.
fn same_text(a: &Option<String>, b: &Option<String>) -> (r: bool)
    ensures
        r == (text_of(*a) == text_of(*b)),
{
    match (a, b) {
        (Some(x), Some(y)) => x.eq(y),
        (None, None) => true,
        _ => false,
    }
}

/// An optional text, empty when absent.
fn text_or_empty(o: &Option<String>) -> (s: String)
    ensures
        s@ == or_empty(*o),
{
    match o {
        Some(s) => s.clone(),
        None => String::new(),
    }
}

/// The lookup of the form `h` at `size`.
fn lookup_of(h: &FormHashes, size: i64) -> (l: Lookup)
    ensures
        lookup_view(l) == form_lookup(*h, size as int),
{
    Lookup { sha1: text_or_empty(&h.sha1), md5: text_or_empty(&h.md5), crc32: text_or_empty(&h.crc32), size }
}

/// Whether a fully hashed row was hashed under a rule that strips a header (`strips`)
/// but holds the stripped form alone; such a row is hashed again.
pub fn lacks_whole(row: &StoredRow, strips: bool) -> (r: bool)
    ensures
        r == lacks_whole_of(*row, strips),
{
    strips && (row.hashes.sha1.is_some() || row.hashes.md5.is_some()) && row.whole.sha1.is_none()
        && row.whole.md5.is_none()
}

/// The live-rom lookups that match `row` from its stored hashes, in order; the first
/// that finds a live rom gives the match. `header` is the length the row's rule strips
/// and `smc` whether that rule is SMC.
pub fn stored_lookups(row: &StoredRow, header: i64, smc: bool) -> (v: Vec<Lookup>)
    requires
        0 <= header,
        row.size >= i64::MIN + header,
    ensures
        v@.map_values(|l: Lookup| lookup_view(l)) == lookups_of(*row, header as int, smc),
{
    let mut v: Vec<Lookup> = Vec::new();
    if row.hashes.md5.is_none() && row.hashes.sha1.is_none() {
        proof {
            assert(v@.map_values(|l: Lookup| lookup_view(l)) =~= Seq::empty());
        }
        return v;
    }
    let has_whole = row.whole.sha1.is_some() || row.whole.md5.is_some();
    let differs = !same_text(&row.whole.sha1, &row.hashes.sha1) || !same_text(&row.whole.md5, &row.hashes.md5);
    if has_whole && differs {
        v.push(lookup_of(&row.whole, row.size));
        v.push(lookup_of(&row.hashes, row.size - header));
        proof {
            assert(v@.map_values(|l: Lookup| lookup_view(l)) =~= lookups_of(*row, header as int, smc));
        }
        return v;
    }
    v.push(lookup_of(&row.hashes, row.size));
    if has_whole {
        proof {
            assert(v@.map_values(|l: Lookup| lookup_view(l)) =~= lookups_of(*row, header as int, smc));
        }
        return v;
    }
    let stripped = if smc {
        row.size >= 0 && (row.size as u64) % 1024 == 512
    } else {
        header > 0 && row.size > header
    };
    let crc = text_or_empty(&row.hashes.crc32);
    if stripped && crate::text::chars_of(crc.as_str()).len() > 0 {
        v.push(Lookup { sha1: String::new(), md5: String::new(), crc32: crc, size: row.size - header });
    }
    proof {
        assert(v@.map_values(|l: Lookup| lookup_view(l)) =~= lookups_of(*row, header as int, smc));
    }
    v
}

/// What a scan does next with a file it found, given the row stored for its path.
#[derive(Debug, Clone, PartialEq, Eq)]
pub enum KnownStep {
    /// New, changed, pending or lacking its whole-file hashes: hash it.
    Hash,
    /// Unchanged and nothing to update.
    Skip,
    /// A zip member never hashed, known by its central-directory CRC32 alone: hash it
    /// once a rom has the CRC32 `whole` at its size, or the CRC32 `content` at its size
    /// less the header (see [`candidate_lookups`]); skip it otherwise.
    Candidate { whole: String, content: Option<String> },
    /// Unchanged, unmatched and fully hashed: match it by [`stored_lookups`], skipping it
    /// when none finds a live rom.
    Stored,
}

/// The next step for a file of `size` and `mtime` whose path has the stored row `row`;
/// `strips` is whether the row's rule strips a header, and `precheck` whether the file
/// is a zip member whose platform has a header rule. An unchanged unmatched row is
/// matched from its stored hashes, and a row hashed under a stripping rule without its
/// whole-file hashes is hashed again.
pub fn known_step(row: Option<&StoredRow>, size: i64, mtime: i64, strips: bool, precheck: bool) -> (r: KnownStep)
    ensures
        match row {
            None => r is Hash,
            Some(w) => if w.size != size || w.mtime != mtime || w.state == FileState::Pending {
                r is Hash
            } else if lacks_whole_of(*w, strips) {
                r is Hash
            } else if w.rom_id is Some || w.state != FileState::Unverified {
                r is Skip
            } else if fully_hashed(w.hashes) {
                r is Stored
            } else if precheck && w.hashes.crc32 is Some && w.header_rule is None {
                &&& r matches KnownStep::Candidate { whole, content }
                &&& whole@ == (match w.whole.crc32 {
                    Some(c) => c@,
                    None => or_empty(w.hashes.crc32),
                })
                &&& whole@ == or_empty(w.hashes.crc32) ==> content is None
                &&& whole@ != or_empty(w.hashes.crc32) ==> (content matches Some(c) && c@ == or_empty(
                    w.hashes.crc32,
                ))
            } else {
                r is Skip
            },
        },
{
    let w = match row {
        Some(w) => w,
        None => return KnownStep::Hash,
    };
    if w.size != size || w.mtime != mtime || w.state == FileState::Pending {
        return KnownStep::Hash;
    }
    if lacks_whole(w, strips) {
        return KnownStep::Hash;
    }
    if w.rom_id.is_some() || w.state != FileState::Unverified {
        return KnownStep::Skip;
    }
    if w.hashes.sha1.is_some() || w.hashes.md5.is_some() {
        return KnownStep::Stored;
    }
    match (precheck, &w.hashes.crc32) {
        (true, Some(crc)) if w.header_rule.is_none() => {
            let whole = match &w.whole.crc32 {
                Some(c) => c.clone(),
                None => crc.clone(),
            };
            let content = if whole.eq(crc) {
                None
            } else {
                Some(crc.clone())
            };
            KnownStep::Candidate { whole, content }
        },
        _ => KnownStep::Skip,
    }
}

/// The CRC32 lookups that find a candidate rom for a zip member of `size` not yet
/// decompressed, in order: its central-directory CRC32 `whole` at its size, then, when
/// its header rule found a header of `header` bytes, its content CRC32 at the size less
/// that header. Any that finds one makes the member a candidate.
pub fn candidate_lookups(whole: &str, content: Option<&str>, size: i64, header: i64) -> (v: Vec<(String, i64)>)
    requires
        0 <= header,
        size >= i64::MIN + header,
    ensures
        v@.len() == (if content is Some { 2int } else { 1int }),
        v@[0].0@ == whole@,
        v@[0].1 == size,
        content matches Some(c) ==> v@[1].0@ == c@ && v@[1].1 == size - header,
{
    let mut v: Vec<(String, i64)> = Vec::new();
    v.push((whole.to_string(), size));
    if let Some(c) = content {
        v.push((c.to_string(), size - header));
    }
    v
}

/// The first rom `found` holds, in order.
pub open spec fn first_found(found: Seq<Option<RomMatch>>) -> Option<RomMatch>
    decreases found.len(),
{
    if found.len() == 0 {
        None
    } else if found[0] is Some {
        found[0]
    } else {
        first_found(found.drop_first())
    }
}

/// The first rom of `found`, in order.
fn first_of(found: &Vec<Option<RomMatch>>) -> (r: Option<RomMatch>)
    ensures
        r == first_found(found@),
{
    let mut i: usize = 0;
    proof {
        assert(found@.skip(0) == found@);
    }
    while i < found.len()
        invariant
            i <= found@.len(),
            first_found(found@) == first_found(found@.skip(i as int)),
        decreases found.len() - i,
    {
        proof {
            assert(found@.skip(i as int)[0] == found@[i as int]);
            assert(found@.skip(i as int).drop_first() == found@.skip(i + 1));
        }
        if let Some(m) = &found[i] {
            return Some(m.duplicate());
        }
        i = i + 1;
    }
    None
}

/// The rom the forms of a payload match, from what each form's hashes find, the whole
/// file's before its content's: `live` holds the live rom each form finds and `any` the
/// rom of any status it finds. The first form to find a live rom decides, else the first
/// to find a retired one, so a live rom of any form wins over a retired one.
pub fn match_forms(live: &Vec<Option<RomMatch>>, any: &Vec<Option<RomMatch>>) -> (r: Option<RomMatch>)
    ensures
        r == (if first_found(live@) is Some { first_found(live@) } else { first_found(any@) }),
{
    match first_of(live) {
        Some(m) => Some(m),
        None => first_of(any),
    }
}

} // verus!
