//! The rows a scan writes for files and zip members it could not, or need not, hash.

use vstd::prelude::*;
use crate::jobs::scan::FileState;
use crate::jobs::scan::stored::{FormHashes, text_of};

verus! {

/// A `files` row a scan writes.
#[derive(Debug, Clone)]
pub struct NewRow {
    /// `files.rel_path`.
    pub rel_path: String,
    /// Size on disk, or the member's uncompressed size.
    pub size: i64,
    /// Modification time, Unix seconds.
    pub mtime: i64,
    /// The hashes of the payload after its header rule.
    pub hashes: FormHashes,
    /// The header rule it was hashed under.
    pub header_rule: Option<String>,
    /// The whole payload's hashes, where they differ or were kept.
    pub whole: FormHashes,
    /// The rom it matched.
    pub rom_id: Option<i64>,
    /// `files.state`.
    pub state: FileState,
}

/// Whether a zip's central directory entry named `name` is a directory, which carries
/// no payload and is never a row.
pub fn is_directory_entry(name: &str) -> (r: bool)
    ensures
        r == (name@.len() > 0 && name@.last() == '/'),
{
    let n = name.unicode_len();
    n > 0 && name.get_char(n - 1) == '/'
}

/// No hashes.
fn no_hashes() -> (h: FormHashes)
    ensures
        h.crc32 is None,
        h.md5 is None,
        h.sha1 is None,
{
    FormHashes { crc32: None, md5: None, sha1: None }
}

/// The row of a file or member no hash was trusted enough to classify: `unverified`, with
/// at most the CRC32 it is known by, rather than failing the scan.
pub fn unverified_row(rel_path: String, size: i64, mtime: i64, crc32: Option<String>) -> (r: NewRow)
    ensures
        r.rel_path == rel_path,
        r.size == size,
        r.mtime == mtime,
        r.hashes.crc32 == crc32,
        r.hashes.md5 is None,
        r.hashes.sha1 is None,
        r.header_rule is None,
        r.whole.crc32 is None && r.whole.md5 is None && r.whole.sha1 is None,
        r.rom_id is None,
        r.state == FileState::Unverified,
{
    NewRow {
        rel_path,
        size,
        mtime,
        hashes: FormHashes { crc32, md5: None, sha1: None },
        header_rule: None,
        whole: no_hashes(),
        rom_id: None,
        state: FileState::Unverified,
    }
}

/// The row of a zip member that could not be hashed under the rule named `rule`: the
/// rule records the attempt, so an unchanged member is not decompressed again.
pub fn unhashed_member_row(member_rel: String, size: i64, mtime: i64, crc32: String, rule: &str) -> (r: NewRow)
    ensures
        r.rel_path == member_rel,
        r.size == size,
        r.mtime == mtime,
        r.hashes.crc32 == Some(crc32),
        r.hashes.md5 is None && r.hashes.sha1 is None,
        text_of(r.header_rule) == Some(rule@),
        r.whole.crc32 is None && r.whole.md5 is None && r.whole.sha1 is None,
        r.rom_id is None,
        r.state == FileState::Unverified,
{
    let mut row = unverified_row(member_rel, size, mtime, Some(crc32));
    row.header_rule = Some(rule.to_string());
    row
}

/// The CRC32-only row of a zip member no rom can be, by the central directory's CRC32
/// `member_crc` and, under a rule that strips a header (`strips`), the CRC32 of its content
/// after the header (`content_crc`): it is known by its content's CRC32 where there is
/// one, and under a stripping rule keeps the whole member's as its whole-file CRC32.
pub fn precheck_row(member_rel: String, size: i64, mtime: i64, member_crc: String, content_crc: Option<String>, strips: bool) -> (r: NewRow)
    ensures
        r.rel_path == member_rel,
        r.size == size,
        r.mtime == mtime,
        r.hashes.crc32 == Some(match content_crc {
            Some(c) => c,
            None => member_crc,
        }),
        r.hashes.md5 is None && r.hashes.sha1 is None,
        r.header_rule is None,
        r.whole.crc32 == (if strips { Some(member_crc) } else { None }),
        r.whole.md5 is None && r.whole.sha1 is None,
        r.rom_id is None,
        r.state == FileState::Unverified,
{
    let whole = if strips {
        Some(member_crc.clone())
    } else {
        None
    };
    let crc = match content_crc {
        Some(c) => c,
        None => member_crc,
    };
    let mut row = unverified_row(member_rel, size, mtime, Some(crc));
    row.whole.crc32 = whole;
    row
}

} // verus!
