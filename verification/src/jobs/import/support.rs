//! Pure helpers of the importer: header text, matching hashes to roms, and names.

use vstd::prelude::*;
use vstd::string::StringSliceAdditionalSpecFns;

verus! {

/// Whether `b` is ASCII whitespace, as `u8::is_ascii_whitespace` reads it.
pub open spec fn is_ws(b: u8) -> bool {
    b == 0x20 || b == 0x09 || b == 0x0a || b == 0x0c || b == 0x0d
}

/// The bytes of `s` that are not ASCII whitespace.
pub open spec fn strip_ws(s: Seq<u8>) -> Seq<u8>
    decreases s.len(),
{
    if s.len() == 0 {
        s
    } else if is_ws(s.last()) {
        strip_ws(s.drop_last())
    } else {
        strip_ws(s.drop_last()).push(s.last())
    }
}

/// The value of one hexadecimal digit.
pub open spec fn hex_val(b: u8) -> Option<u8> {
    if 0x30 <= b <= 0x39 {
        Some((b - 0x30) as u8)
    } else if 0x61 <= b <= 0x66 {
        Some((b - 0x61 + 10) as u8)
    } else if 0x41 <= b <= 0x46 {
        Some((b - 0x41 + 10) as u8)
    } else {
        None
    }
}

/// The byte two characters give when both are hexadecimal digits, high digit first.
pub open spec fn pair_val(a: u8, b: u8) -> Option<u8> {
    match (hex_val(a), hex_val(b)) {
        (Some(x), Some(y)) => Some((x * 16 + y) as u8),
        _ => None,
    }
}

/// The header bytes a DAT `header` attribute names: its non-whitespace characters taken
/// in pairs, each pair one hexadecimal byte; `None` when nothing is left, an odd number
/// is, or a pair is no byte.
pub open spec fn spec_parse_header(text: Seq<u8>) -> Option<Seq<u8>> {
    let h = strip_ws(text);
    if h.len() == 0 || h.len() % 2 != 0 {
        None
    } else if forall|k: int| 0 <= k < h.len() / 2 ==> (#[trigger] pair_val(h[2 * k], h[2 * k + 1])) is Some {
        Some(Seq::new((h.len() / 2) as nat, |k: int| pair_val(h[2 * k], h[2 * k + 1])->Some_0))
    } else {
        None
    }
}


/// The lowercase hexadecimal digit of `x`, below 16.
pub open spec fn hex_char(x: int) -> u8 {
    if x < 10 {
        (0x30 + x) as u8
    } else {
        (0x61 + x - 10) as u8
    }
}

/// The two digits of one byte.
pub open spec fn byte_digits(b: u8) -> Seq<u8> {
    seq![hex_char(b as int / 16), hex_char(b as int % 16)]
}

/// Bytes written as hex with no separators.
pub open spec fn hex_text(v: Seq<u8>) -> Seq<u8>
    decreases v.len(),
{
    if v.len() == 0 {
        Seq::empty()
    } else {
        hex_text(v.drop_last()) + byte_digits(v.last())
    }
}

/// Bytes written as hex with a space between two bytes, as DAT headers often are.
pub open spec fn spaced_hex(v: Seq<u8>) -> Seq<u8>
    decreases v.len(),
{
    if v.len() == 0 {
        Seq::empty()
    } else if v.len() == 1 {
        byte_digits(v[0])
    } else {
        spaced_hex(v.drop_last()) + seq![0x20u8] + byte_digits(v.last())
    }
}

proof fn lemma_strip_concat(a: Seq<u8>, b: Seq<u8>)
    ensures
        strip_ws(a + b) == strip_ws(a) + strip_ws(b),
    decreases b.len(),
{
    if b.len() == 0 {
        assert(a + b == a);
    } else {
        lemma_strip_concat(a, b.drop_last());
        assert((a + b).drop_last() == a + b.drop_last());
        assert((a + b).last() == b.last());
    }
}

proof fn lemma_digits(b: u8)
    ensures
        strip_ws(byte_digits(b)) == byte_digits(b),
        pair_val(byte_digits(b)[0], byte_digits(b)[1]) == Some(b),
{
    let d = byte_digits(b);
    reveal_with_fuel(strip_ws, 3);
    assert(d.drop_last() =~= seq![d[0]]);
    assert(seq![d[0]].drop_last() =~= Seq::<u8>::empty());
    assert(b as int / 16 * 16 + b as int % 16 == b as int);
}

proof fn lemma_hex_text(v: Seq<u8>)
    ensures
        hex_text(v).len() == 2 * v.len(),
        strip_ws(hex_text(v)) == hex_text(v),
        forall|k: int|
            0 <= k < v.len() ==> hex_text(v)[2 * k] == byte_digits(v[k])[0] && hex_text(v)[2 * k
                + 1] == byte_digits(v[k])[1],
    decreases v.len(),
{
    if v.len() > 0 {
        lemma_hex_text(v.drop_last());
        lemma_digits(v.last());
        lemma_strip_concat(hex_text(v.drop_last()), byte_digits(v.last()));
        assert forall|k: int| 0 <= k < v.len() implies hex_text(v)[2 * k] == byte_digits(v[k])[0]
            && hex_text(v)[2 * k + 1] == byte_digits(v[k])[1] by {
            if k < v.len() - 1 {
                assert(v.drop_last()[k] == v[k]);
            }
        }
    }
}

proof fn lemma_spaced(v: Seq<u8>)
    ensures
        strip_ws(spaced_hex(v)) == hex_text(v),
    decreases v.len(),
{
    if v.len() == 1 {
        lemma_digits(v[0]);
        assert(v.drop_last() =~= Seq::<u8>::empty());
        assert(hex_text(v.drop_last()) == Seq::<u8>::empty());
        assert(hex_text(v) =~= byte_digits(v[0]));
    } else if v.len() > 1 {
        lemma_spaced(v.drop_last());
        lemma_digits(v.last());
        let a = spaced_hex(v.drop_last());
        lemma_strip_concat(a + seq![0x20u8], byte_digits(v.last()));
        lemma_strip_concat(a, seq![0x20u8]);
        assert(seq![0x20u8].drop_last() =~= Seq::<u8>::empty());
        reveal_with_fuel(strip_ws, 2);
        assert(strip_ws(seq![0x20u8]) =~= Seq::<u8>::empty());
    }
}

/// Bytes written as hex, with or without a space between bytes, parse back to those bytes.
pub proof fn lemma_header_text_round_trip(v: Seq<u8>)
    requires
        v.len() > 0,
    ensures
        spec_parse_header(hex_text(v)) == Some(v),
        spec_parse_header(spaced_hex(v)) == Some(v),
{
    lemma_hex_text(v);
    lemma_spaced(v);
    let h = hex_text(v);
    assert(h.len() / 2 == v.len());
    assert forall|k: int| 0 <= k < h.len() / 2 implies (#[trigger] pair_val(h[2 * k], h[2 * k + 1])) == Some(v[k]) by {
        lemma_digits(v[k]);
    }
    assert(Seq::new((h.len() / 2) as nat, |k: int| pair_val(h[2 * k], h[2 * k + 1])->Some_0) =~= v);
}

fn hex_digit(b: u8) -> (r: Option<u8>)
    ensures
        r == hex_val(b),
{
    if 0x30 <= b && b <= 0x39 {
        Some(b - 0x30)
    } else if 0x61 <= b && b <= 0x66 {
        Some(b - 0x61 + 10)
    } else if 0x41 <= b && b <= 0x46 {
        Some(b - 0x41 + 10)
    } else {
        None
    }
}

fn pair_byte(a: u8, b: u8) -> (r: Option<u8>)
    ensures
        r == pair_val(a, b),
{
    match (hex_digit(a), hex_digit(b)) {
        (Some(x), Some(y)) => Some(x * 16 + y),
        _ => None,
    }
}

/// Header bytes from a DAT `header` attribute written as hex, spaces allowed.
pub fn parse_header(text: &str) -> (r: Option<Vec<u8>>)
    ensures
        match r {
            Some(v) => spec_parse_header(text.spec_bytes()) == Some(v@),
            None => spec_parse_header(text.spec_bytes()) is None,
        },
{
    let bytes = text.as_bytes();
    let mut hex: Vec<u8> = Vec::new();
    let mut i: usize = 0;
    while i < bytes.len()
        invariant
            i <= bytes@.len(),
            hex@ == strip_ws(bytes@.subrange(0, i as int)),
        decreases bytes.len() - i,
    {
        let b = bytes[i];
        proof {
            assert(bytes@.subrange(0, i + 1).drop_last() == bytes@.subrange(0, i as int));
        }
        if !(b == 0x20 || b == 0x09 || b == 0x0a || b == 0x0c || b == 0x0d) {
            hex.push(b);
        }
        i = i + 1;
    }
    proof {
        assert(bytes@.subrange(0, bytes@.len() as int) == bytes@);
    }
    let ghost h = hex@;
    assert(h == strip_ws(text.spec_bytes()));
    if hex.len() == 0 || hex.len() % 2 != 0 {
        return None;
    }
    let half = hex.len() / 2;
    let mut out: Vec<u8> = Vec::new();
    let mut k: usize = 0;
    while k < half
        invariant
            k <= half,
            half == h.len() / 2,
            hex@ == h,
            h.len() % 2 == 0,
            h == strip_ws(text.spec_bytes()),
            out@.len() == k,
            forall|j: int| 0 <= j < k ==> (#[trigger] pair_val(h[2 * j], h[2 * j + 1])) is Some,
            forall|j: int| 0 <= j < k ==> out@[j] == pair_val(h[2 * j], h[2 * j + 1])->Some_0,
        decreases half - k,
    {
        match pair_byte(hex[2 * k], hex[2 * k + 1]) {
            Some(v) => out.push(v),
            None => {
                proof {
                    assert(!(pair_val(h[2 * k as int], h[2 * k as int + 1]) is Some));
                }
                return None;
            }
        }
        k = k + 1;
    }
    proof {
        assert(out@ =~= Seq::new((h.len() / 2) as nat, |j: int| pair_val(h[2 * j], h[2 * j + 1])->Some_0));
    }
    Some(out)
}

} // verus!

verus! {

/// The hashes of one payload: its size and its CRC32, MD5 and SHA1 in lowercase hex.
#[derive(Debug, Clone)]
pub struct Hashes {
    /// Bytes hashed.
    pub size: u64,
    /// CRC32, 8 hex digits.
    pub crc32: String,
    /// MD5, 32 hex digits.
    pub md5: String,
    /// SHA1, 40 hex digits.
    pub sha1: String,
}

/// One rom of a DAT entry, as the importer reads it.
#[derive(Debug, Clone)]
pub struct EntryRom {
    /// The rom's id.
    pub id: i64,
    /// Its name in the DAT.
    pub name: String,
    /// Its size.
    pub size: u64,
    /// Its CRC32, when the DAT gives one.
    pub crc32: Option<String>,
    /// Its MD5, when the DAT gives one.
    pub md5: Option<String>,
    /// Its SHA1, when the DAT gives one.
    pub sha1: Option<String>,
    /// The DAT status, such as `good` or `baddump`.
    pub status: String,
    /// The DAT `header` attribute.
    pub header: Option<String>,
}

/// One hashed payload: a plain file, or one member of a zip.
#[derive(Debug, Clone)]
pub struct Hashed {
    /// The zip member name, `None` for a plain file.
    pub member: Option<String>,
    /// Uncompressed size on disk or in the archive.
    pub raw_size: u64,
    /// Hashes under the platform's header rule.
    pub hashes: Hashes,
    /// The whole payload's hashes when the rule stripped a header from it.
    pub whole: Option<Hashes>,
    /// The whole form of the file on disk is not known, so no whole hashes are stored.
    pub whole_unread: bool,
}

/// Whether `h` is rom `rom` under the matching order: SHA1 when the DAT has it, else MD5,
/// else CRC32 plus size.
pub open spec fn spec_rom_matches(rom: EntryRom, h: Hashes) -> bool {
    match rom.sha1 {
        Some(sha1) => sha1@ == h.sha1@,
        None => match rom.md5 {
            Some(md5) => md5@ == h.md5@,
            None => rom.crc32 matches Some(crc) && crc@ == h.crc32@ && rom.size == h.size,
        },
    }
}

/// The forms a payload matches a rom in, the whole payload first.
pub open spec fn spec_forms(h: Hashed) -> Seq<Hashes> {
    match h.whole {
        Some(w) => seq![w, h.hashes],
        None => seq![h.hashes],
    }
}

/// Whether the payload is `rom` in any of its forms.
pub open spec fn spec_is(h: Hashed, rom: EntryRom) -> bool {
    exists|i: int| 0 <= i < spec_forms(h).len() && spec_rom_matches(rom, #[trigger] spec_forms(h)[i])
}

/// Whether `h` is rom `rom`.
pub fn rom_matches(rom: &EntryRom, h: &Hashes) -> (r: bool)
    ensures
        r == spec_rom_matches(*rom, *h),
{
    if let Some(sha1) = &rom.sha1 {
        return sha1.eq(&h.sha1);
    }
    if let Some(md5) = &rom.md5 {
        return md5.eq(&h.md5);
    }
    match &rom.crc32 {
        Some(crc) => crc.eq(&h.crc32) && rom.size == h.size,
        None => false,
    }
}

impl Hashed {
    /// A payload whose hashes are its whole content.
    pub fn plain(member: Option<String>, hashes: Hashes) -> (h: Hashed)
        ensures
            h.member == member,
            h.raw_size == hashes.size,
            h.hashes == hashes,
            h.whole is None,
            !h.whole_unread,
    {
        let size = hashes.size;
        Hashed { member, raw_size: size, hashes, whole: None, whole_unread: false }
    }

    /// Whether the payload is `rom` in any of its forms.
    pub fn is(&self, rom: &EntryRom) -> (r: bool)
        ensures
            r == spec_is(*self, *rom),
    {
        let ghost forms = spec_forms(*self);
        if let Some(w) = &self.whole {
            if rom_matches(rom, w) {
                assert(spec_rom_matches(*rom, forms[0]));
                return true;
            }
        }
        let last = rom_matches(rom, &self.hashes);
        assert(forms.last() == self.hashes);
        if last {
            assert(spec_rom_matches(*rom, forms[forms.len() - 1]));
        }
        last
    }

    /// Takes the hashes of the placed file, `again`, after it gained a header; without them
    /// the whole form is unread.
    pub fn take_rehash(&mut self, again: Option<Hashed>)
        ensures
            final(self).member == old(self).member,
            final(self).raw_size == old(self).raw_size,
            match again {
                Some(h) => final(self).hashes == h.hashes && final(self).whole == h.whole
                    && !final(self).whole_unread,
                None => final(self).hashes == old(self).hashes && final(self).whole is None
                    && final(self).whole_unread,
            },
    {
        match again {
            Some(h) => {
                self.hashes = h.hashes;
                self.whole = h.whole;
                self.whole_unread = false;
            },
            None => {
                self.whole = None;
                self.whole_unread = true;
            },
        }
    }
}

// ---------------------------------------------------------------------------
// Leaves and rom picking

/// The index of the last `/` or `\` in `s` before `end`, or -1.
pub open spec fn last_sep_before(s: Seq<char>, end: int) -> int
    decreases end,
{
    if end <= 0 {
        -1
    } else if s[end - 1] == '/' || s[end - 1] == '\\' {
        end - 1
    } else {
        last_sep_before(s, end - 1)
    }
}

/// The last component of a `/`- or `\`-separated name.
pub open spec fn spec_leaf(s: Seq<char>) -> Seq<char> {
    s.subrange(last_sep_before(s, s.len() as int) + 1, s.len() as int)
}

proof fn lemma_last_sep_range(s: Seq<char>, end: int)
    requires
        0 <= end <= s.len(),
    ensures
        -1 <= last_sep_before(s, end) < end,
    decreases end,
{
    if end > 0 && !(s[end - 1] == '/' || s[end - 1] == '\\') {
        lemma_last_sep_range(s, end - 1);
    }
}

/// The last component of a `/`-separated name.
pub fn leaf(name: &str) -> (r: &str)
    ensures
        r@ == spec_leaf(name@),
{
    let n = name.unicode_len();
    let mut end = n;
    proof {
        lemma_last_sep_range(name@, n as int);
    }
    while end > 0
        invariant
            end <= n,
            n == name@.len(),
            last_sep_before(name@, end as int) == last_sep_before(name@, n as int),
        decreases end,
    {
        let c = name.get_char(end - 1);
        if c == '/' || c == '\\' {
            return name.substring_char(end, n);
        }
        end = end - 1;
    }
    name.substring_char(0, n)
}

/// Whether rom `r` of a member hashed as `h` is free to pick: not `used`, and `h` is it.
pub open spec fn spec_hit(r: EntryRom, h: Hashed, used: Seq<i64>) -> bool {
    !used.contains(r.id) && spec_is(h, r)
}

/// Whether a rom's name is the member's name, by leaf and ignoring ASCII case.
pub open spec fn same_leaf(r: EntryRom, name: Option<Seq<char>>) -> bool {
    name matches Some(n) && crate::text::lower(spec_leaf(r.name@)) == crate::text::lower(spec_leaf(n))
}

/// The text of an optional name.
pub open spec fn opt_text(o: Option<&str>) -> Option<Seq<char>> {
    match o {
        Some(s) => Some(s@),
        None => None,
    }
}

/// An optional index as an integer.
pub open spec fn opt_int(o: Option<usize>) -> Option<int> {
    match o {
        Some(i) => Some(i as int),
        None => None,
    }
}

/// Whether rom `i` of `roms` is a free hit of the kind asked for: `0` with id `prefer`,
/// `1` with the name `name`, any other kind any free hit.
pub open spec fn hit_kind(
    roms: Seq<EntryRom>,
    h: Hashed,
    prefer: Option<i64>,
    name: Option<Seq<char>>,
    used: Seq<i64>,
    kind: u8,
    i: int,
) -> bool {
    &&& spec_hit(roms[i], h, used)
    &&& kind == 0 ==> prefer == Some(roms[i].id)
    &&& kind == 1 ==> same_leaf(roms[i], name)
}

/// Some rom of the kind asked for is a free hit.
pub open spec fn any_hit(
    roms: Seq<EntryRom>,
    h: Hashed,
    prefer: Option<i64>,
    name: Option<Seq<char>>,
    used: Seq<i64>,
    kind: u8,
) -> bool {
    exists|i: int| 0 <= i < roms.len() && #[trigger] hit_kind(roms, h, prefer, name, used, kind, i)
}

/// `i` is the first free hit of the kind asked for.
pub open spec fn first_hit_at(
    roms: Seq<EntryRom>,
    h: Hashed,
    prefer: Option<i64>,
    name: Option<Seq<char>>,
    used: Seq<i64>,
    kind: u8,
    i: int,
) -> bool {
    &&& 0 <= i < roms.len()
    &&& hit_kind(roms, h, prefer, name, used, kind, i)
    &&& forall|k: int| 0 <= k < i ==> !#[trigger] hit_kind(roms, h, prefer, name, used, kind, k)
}

/// The index `pick_rom` chooses among `roms`: the first free hit whose id is `prefer`,
/// else the first whose name is `name`, else the first free hit; `None` without a hit.
pub open spec fn picks(
    roms: Seq<EntryRom>,
    h: Hashed,
    prefer: Option<i64>,
    name: Option<Seq<char>>,
    used: Seq<i64>,
    r: Option<int>,
) -> bool {
    if any_hit(roms, h, prefer, name, used, 0) {
        r matches Some(i) && first_hit_at(roms, h, prefer, name, used, 0, i)
    } else if any_hit(roms, h, prefer, name, used, 1) {
        r matches Some(i) && first_hit_at(roms, h, prefer, name, used, 1, i)
    } else if any_hit(roms, h, prefer, name, used, 2) {
        r matches Some(i) && first_hit_at(roms, h, prefer, name, used, 2, i)
    } else {
        r is None
    }
}

fn contains_id(used: &[i64], id: i64) -> (r: bool)
    ensures
        r == used@.contains(id),
{
    let mut i: usize = 0;
    while i < used.len()
        invariant
            i <= used@.len(),
            forall|k: int| 0 <= k < i ==> used@[k] != id,
        decreases used.len() - i,
    {
        if used[i] == id {
            assert(used@[i as int] == id);
            return true;
        }
        i = i + 1;
    }
    false
}

/// The first index of `roms` that is a free hit of `kind`.
fn first_hit(
    roms: &[EntryRom],
    h: &Hashed,
    prefer: Option<i64>,
    name: Option<&str>,
    used: &[i64],
    kind: u8,
) -> (r: Option<usize>)
    ensures
        match r {
            Some(i) => first_hit_at(roms@, *h, prefer, opt_text(name), used@, kind, i as int),
            None => !any_hit(roms@, *h, prefer, opt_text(name), used@, kind),
        },
{
    let mut i: usize = 0;
    while i < roms.len()
        invariant
            i <= roms@.len(),
            forall|k: int|
                0 <= k < i ==> !#[trigger] hit_kind(roms@, *h, prefer, opt_text(name), used@, kind, k),
        decreases roms.len() - i,
    {
        let r = &roms[i];
        let free = !contains_id(used, r.id) && h.is(r);
        let ok = if !free {
            false
        } else if kind == 0 {
            match prefer {
                Some(id) => id == r.id,
                None => false,
            }
        } else if kind == 1 {
            match name {
                Some(n) => {
                    let a = crate::text::chars_of(leaf(r.name.as_str()));
                    let b = crate::text::chars_of(leaf(n));
                    crate::text::same_ignoring_case(&a, &b)
                },
                None => false,
            }
        } else {
            true
        };
        if ok {
            assert(hit_kind(roms@, *h, prefer, opt_text(name), used@, kind, i as int));
            return Some(i);
        }
        assert(!hit_kind(roms@, *h, prefer, opt_text(name), used@, kind, i as int));
        i = i + 1;
    }
    None
}

/// The index of the rom of `roms` that `h` is in any form, skipping those in `used`.
/// Among identical roms it prefers `prefer`, then one whose name is `name`, then the first.
pub fn pick_index(
    roms: &[EntryRom],
    h: &Hashed,
    prefer: Option<i64>,
    name: Option<&str>,
    used: &[i64],
) -> (r: Option<usize>)
    ensures
        picks(roms@, *h, prefer, opt_text(name), used@, opt_int(r)),
        r matches Some(i) ==> i < roms@.len(),
{
    let a = first_hit(roms, h, prefer, name, used, 0);
    if a.is_some() {
        return a;
    }
    let b = first_hit(roms, h, prefer, name, used, 1);
    if b.is_some() {
        return b;
    }
    first_hit(roms, h, prefer, name, used, 2)
}

/// The rom of `roms` that `h` is in any form, skipping those in `used`. Among
/// identical roms it prefers `prefer`, then one whose name is `name`, then the first.
pub fn pick_rom<'a>(
    roms: &'a [EntryRom],
    h: &Hashed,
    prefer: Option<i64>,
    name: Option<&str>,
    used: &[i64],
) -> (r: Option<&'a EntryRom>)
    ensures
        exists|i: Option<int>|
            picks(roms@, *h, prefer, opt_text(name), used@, i) && match i {
                Some(i) => r matches Some(x) && *x == roms@[i],
                None => r is None,
            },
{
    match pick_index(roms, h, prefer, name, used) {
        Some(i) => {
            assert(picks(roms@, *h, prefer, opt_text(name), used@, Some(i as int)));
            Some(&roms[i])
        },
        None => {
            assert(picks(roms@, *h, prefer, opt_text(name), used@, None::<int>));
            None
        },
    }
}

} // verus!

verus! {

/// The name a member is matched by.
pub open spec fn member_text(m: Hashed) -> Option<Seq<char>> {
    match m.member {
        Some(s) => Some(s@),
        None => None,
    }
}

/// The label an unmatched member is listed by: its name, or nothing for a plain file.
pub open spec fn member_label(m: Hashed) -> Seq<char> {
    match m.member {
        Some(s) => s@,
        None => Seq::empty(),
    }
}

/// The rom index `pick_rom` gives, as a function.
pub open spec fn spec_pick(
    roms: Seq<EntryRom>,
    h: Hashed,
    prefer: Option<i64>,
    name: Option<Seq<char>>,
    used: Seq<i64>,
) -> Option<int> {
    if exists|i: int| picks(roms, h, prefer, name, used, Some(i)) {
        Some(choose|i: int| picks(roms, h, prefer, name, used, Some(i)))
    } else {
        None
    }
}

/// Only one index is ever picked.
pub proof fn lemma_picks_unique(
    roms: Seq<EntryRom>,
    h: Hashed,
    prefer: Option<i64>,
    name: Option<Seq<char>>,
    used: Seq<i64>,
    r: Option<int>,
)
    requires
        picks(roms, h, prefer, name, used, r),
    ensures
        spec_pick(roms, h, prefer, name, used) == r,
{
    if let Some(i) = r {
        let j = choose|j: int| picks(roms, h, prefer, name, used, Some(j));
        assert(picks(roms, h, prefer, name, used, Some(j)));
        let kind: u8 = if any_hit(roms, h, prefer, name, used, 0) {
            0
        } else if any_hit(roms, h, prefer, name, used, 1) {
            1
        } else {
            2
        };
        assert(first_hit_at(roms, h, prefer, name, used, kind, i));
        assert(first_hit_at(roms, h, prefer, name, used, kind, j));
        if i < j {
            assert(!hit_kind(roms, h, prefer, name, used, kind, i));
        } else if j < i {
            assert(!hit_kind(roms, h, prefer, name, used, kind, j));
        }
    }
}

/// What pairing the first `n` members leaves: the `(member, rom)` index pairs, the rom
/// ids taken in order, and the labels of members no free rom is.
pub open spec fn pairing(roms: Seq<EntryRom>, members: Seq<Hashed>, n: int) -> (
    Seq<(int, int)>,
    Seq<i64>,
    Seq<Seq<char>>,
)
    decreases n,
{
    if n <= 0 {
        (Seq::empty(), Seq::empty(), Seq::empty())
    } else {
        let (p, u, e) = pairing(roms, members, n - 1);
        let m = members[n - 1];
        match spec_pick(roms, m, None, member_text(m), u) {
            Some(i) => (p.push((n - 1, i)), u.push(roms[i].id), e),
            None => (p, u, e.push(member_label(m))),
        }
    }
}

/// The names of the roms whose id is not in `used`, in order.
pub open spec fn absent_names(roms: Seq<EntryRom>, used: Seq<i64>, n: int) -> Seq<Seq<char>>
    decreases n,
{
    if n <= 0 {
        Seq::empty()
    } else if used.contains(roms[n - 1].id) {
        absent_names(roms, used, n - 1)
    } else {
        absent_names(roms, used, n - 1).push(roms[n - 1].name@)
    }
}

/// How the members of a zip pair with the roms of a DAT entry.
#[derive(Debug)]
pub struct SetMatch<'a> {
    /// Each member that is a rom of the entry, with that rom.
    pub pairs: Vec<(&'a Hashed, &'a EntryRom)>,
    /// Where each pair's member and rom stand among the members and the roms.
    pub at: Vec<(usize, usize)>,
    /// Members that are no rom of the entry.
    pub extra: Vec<String>,
    /// Roms of the entry no member is.
    pub absent: Vec<String>,
}

impl SetMatch<'_> {
    /// Every member is a rom of the entry and every rom is a member.
    pub fn is_exact(&self) -> (r: bool)
        ensures
            r == (self.extra@.len() == 0 && self.absent@.len() == 0),
    {
        self.extra.len() == 0 && self.absent.len() == 0
    }
}

/// What `match_members` returns for `roms` and `members`.
pub open spec fn matches_pairing<'a>(
    roms: Seq<EntryRom>,
    members: Seq<Hashed>,
    out: SetMatch<'a>,
) -> bool {
    let (p, u, e) = pairing(roms, members, members.len() as int);
    &&& out.pairs@.len() == p.len()
    &&& forall|k: int|
        0 <= k < p.len() ==> *(#[trigger] out.pairs@[k]).0 == members[p[k].0] && *out.pairs@[k].1
            == roms[p[k].1]
    &&& out.at@.len() == p.len()
    &&& forall|k: int| 0 <= k < p.len() ==> (#[trigger] out.at@[k]).0 == p[k].0 && out.at@[k].1 == p[k].1
    &&& out.extra@.len() == e.len()
    &&& forall|k: int| 0 <= k < e.len() ==> (#[trigger] out.extra@[k])@ == e[k]
    &&& out.absent@.len() == absent_names(roms, u, roms.len() as int).len()
    &&& forall|k: int|
        0 <= k < out.absent@.len() ==> (#[trigger] out.absent@[k])@ == absent_names(
            roms,
            u,
            roms.len() as int,
        )[k]
}

/// Pairs each member with a distinct rom of `roms` by hash, preferring the same name.
pub fn match_members<'a>(roms: &'a [EntryRom], members: &'a [Hashed]) -> (out: SetMatch<'a>)
    ensures
        matches_pairing(roms@, members@, out),
{
    let mut used: Vec<i64> = Vec::new();
    let mut pairs: Vec<(&'a Hashed, &'a EntryRom)> = Vec::new();
    let mut at: Vec<(usize, usize)> = Vec::new();
    let mut extra: Vec<String> = Vec::new();
    let mut j: usize = 0;
    while j < members.len()
        invariant
            j <= members@.len(),
            ({
                let (p, u, e) = pairing(roms@, members@, j as int);
                &&& used@ == u
                &&& pairs@.len() == p.len()
                &&& forall|k: int|
                    0 <= k < p.len() ==> *(#[trigger] pairs@[k]).0 == members@[p[k].0]
                        && *pairs@[k].1 == roms@[p[k].1]
                &&& at@.len() == p.len()
                &&& forall|k: int| 0 <= k < p.len() ==> (#[trigger] at@[k]).0 == p[k].0 && at@[k].1 == p[k].1
                &&& extra@.len() == e.len()
                &&& forall|k: int| 0 <= k < e.len() ==> (#[trigger] extra@[k])@ == e[k]
            }),
        decreases members.len() - j,
    {
        let m = &members[j];
        let name: Option<&str> = match &m.member {
            Some(s) => Some(s.as_str()),
            None => None,
        };
        assert(opt_text(name) == member_text(*m));
        let picked = pick_index(roms, m, None, name, used.as_slice());
        proof {
            lemma_picks_unique(roms@, *m, None, member_text(*m), used@, opt_int(picked));
        }
        match picked {
            Some(i) => {
                used.push(roms[i].id);
                pairs.push((m, &roms[i]));
                at.push((j, i));
            },
            None => {
                let label = match &m.member {
                    Some(s) => s.clone(),
                    None => String::new(),
                };
                extra.push(label);
            },
        }
        j = j + 1;
    }
    let ghost u = used@;
    let mut absent: Vec<String> = Vec::new();
    let mut i: usize = 0;
    while i < roms.len()
        invariant
            i <= roms@.len(),
            used@ == u,
            absent@.len() == absent_names(roms@, u, i as int).len(),
            forall|k: int|
                0 <= k < absent@.len() ==> (#[trigger] absent@[k])@ == absent_names(
                    roms@,
                    u,
                    i as int,
                )[k],
        decreases roms.len() - i,
    {
        if !contains_id(used.as_slice(), roms[i].id) {
            absent.push(roms[i].name.clone());
        }
        i = i + 1;
    }
    SetMatch { pairs, at, extra, absent }
}

/// Pairing gives each paired member a rom it is, and no rom twice: the rom ids taken are
/// those of the pairs, in order and all distinct.
pub proof fn lemma_pairing_distinct(roms: Seq<EntryRom>, members: Seq<Hashed>, n: int)
    requires
        0 <= n <= members.len(),
    ensures
        ({
            let (p, u, e) = pairing(roms, members, n);
            &&& p.len() == u.len()
            &&& p.len() + e.len() == n
            &&& forall|k: int|
                0 <= k < p.len() ==> 0 <= (#[trigger] p[k]).1 < roms.len() && 0 <= p[k].0 < n && u[k]
                    == roms[p[k].1].id && spec_is(members[p[k].0], roms[p[k].1])
            &&& forall|a: int, b: int| 0 <= a < b < u.len() ==> u[a] != u[b]
            &&& forall|a: int, b: int| 0 <= a < b < p.len() ==> p[a].0 < p[b].0
        }),
    decreases n,
{
    if n > 0 {
        lemma_pairing_distinct(roms, members, n - 1);
        let (p, u, e) = pairing(roms, members, n - 1);
        let m = members[n - 1];
        let nm = member_text(m);
        if let Some(i) = spec_pick(roms, m, None, nm, u) {
            assert(picks(roms, m, None, nm, u, Some(i)));
            let kind: u8 = if any_hit(roms, m, None, nm, u, 0) {
                0
            } else if any_hit(roms, m, None, nm, u, 1) {
                1
            } else {
                2
            };
            assert(hit_kind(roms, m, None, nm, u, kind, i));
            assert(!u.contains(roms[i].id));
            let (p2, u2, e2) = pairing(roms, members, n);
            assert(u2 == u.push(roms[i].id));
            assert forall|a: int, b: int| 0 <= a < b < u2.len() implies u2[a] != u2[b] by {
                if b == u.len() {
                    assert(u2[a] == u[a]);
                }
            }
        }
    }
}

/// An exact match pairs every member, takes every rom, and no rom twice.
pub proof fn lemma_exact_match_covers_both<'a>(
    roms: Seq<EntryRom>,
    members: Seq<Hashed>,
    out: SetMatch<'a>,
)
    requires
        matches_pairing(roms, members, out),
        out.extra@.len() == 0,
        out.absent@.len() == 0,
    ensures
        out.pairs@.len() == members.len(),
        forall|a: int, b: int|
            0 <= a < b < out.pairs@.len() ==> (#[trigger] out.pairs@[a]).1.id != (
            #[trigger] out.pairs@[b]).1.id,
        forall|k: int| 0 <= k < out.pairs@.len() ==> spec_is(*(#[trigger] out.pairs@[k]).0, *out.pairs@[k].1),
        forall|r: int| 0 <= r < roms.len() ==> exists|k: int| 0 <= k < out.pairs@.len() && (#[trigger] out.pairs@[k]).1.id == (#[trigger] roms[r]).id,
{
    let n = members.len() as int;
    lemma_pairing_distinct(roms, members, n);
    let (p, u, e) = pairing(roms, members, n);
    assert forall|a: int, b: int|
        0 <= a < b < out.pairs@.len() implies (#[trigger] out.pairs@[a]).1.id != (
        #[trigger] out.pairs@[b]).1.id by {
        assert(u[a] == roms[p[a].1].id);
        assert(u[b] == roms[p[b].1].id);
    }
    assert forall|k: int| 0 <= k < out.pairs@.len() implies spec_is(*(#[trigger] out.pairs@[k]).0, *out.pairs@[k].1) by {
        assert(spec_is(members[p[k].0], roms[p[k].1]));
    }
    assert forall|r: int| 0 <= r < roms.len() implies exists|k: int| 0 <= k < out.pairs@.len() && (#[trigger] out.pairs@[k]).1.id == (#[trigger] roms[r]).id by {
        lemma_absent_empty(roms, u, roms.len() as int, r);
        let k = choose|k: int| 0 <= k < u.len() && u[k] == roms[r].id;
        assert(out.pairs@[k].1.id == roms[r].id);
    }
}

proof fn lemma_absent_empty(roms: Seq<EntryRom>, used: Seq<i64>, n: int, r: int)
    requires
        0 <= r < n <= roms.len(),
        absent_names(roms, used, n).len() == 0,
    ensures
        exists|k: int| 0 <= k < used.len() && used[k] == roms[r].id,
    decreases n,
{
    if used.contains(roms[n - 1].id) {
        if r < n - 1 {
            lemma_absent_empty(roms, used, n - 1, r);
        } else {
            let k = choose|k: int| 0 <= k < used.len() && used[k] == roms[r].id;
        }
    }
}

/// Whether `path` names a zip: its extension is `zip` in any case.
pub fn is_zip(path: &str) -> (r: bool)
    ensures
        r == (crate::jobs::dat_import::path_ext(path@) == "zip"@),
{
    let e = crate::jobs::dat_import::extension(path);
    crate::text::str_is(e.as_str(), "zip")
}

/// What placement reads of a rom: its name, its size and the header bytes its DAT gives.
#[derive(Debug, Clone, PartialEq, Eq)]
pub struct DatRom {
    /// The rom's name in the DAT.
    pub name: String,
    /// Its size.
    pub size: u64,
    /// The header bytes of its `header` attribute, when that parses.
    pub header: Option<Vec<u8>>,
}

/// The placement view of `rom`: its header attribute parsed as hex, or `None` when it
/// has none or it does not parse.
pub fn dat_rom(rom: &EntryRom) -> (d: DatRom)
    ensures
        d.name@ == rom.name@,
        d.size == rom.size,
        match rom.header {
            Some(h) => match d.header {
                Some(v) => spec_parse_header(vstd::utf8::encode_utf8(h@)) == Some(v@),
                None => spec_parse_header(vstd::utf8::encode_utf8(h@)) is None,
            },
            None => d.header is None,
        },
{
    let header = match &rom.header {
        Some(h) => parse_header(h.as_str()),
        None => None,
    };
    DatRom { name: rom.name.clone(), size: rom.size, header }
}

/// The first of `candidates`, the payloads of a cartridge download, that is a rom of the
/// entry (`roms`), with that rom, by index: the payloads are tried in order, each picking
/// its rom by [`pick_index`] with the rom the download was chosen for (`want`) preferred,
/// then one named as its member. `None` when none is a rom of the entry.
pub fn first_match(roms: &[EntryRom], candidates: &[Hashed], want: i64) -> (r: Option<(usize, usize)>)
    ensures
        match r {
            Some((c, i)) => {
                &&& c < candidates@.len()
                &&& i < roms@.len()
                &&& picks(roms@, candidates@[c as int], Some(want), member_text(candidates@[c as int]), Seq::empty(), Some(i as int))
                &&& forall|k: int| 0 <= k < c ==> picks(roms@, #[trigger] candidates@[k], Some(want), member_text(candidates@[k]), Seq::empty(), None)
            },
            None => forall|k: int| 0 <= k < candidates@.len() ==> picks(roms@, #[trigger] candidates@[k], Some(want), member_text(candidates@[k]), Seq::empty(), None),
        },
{
    let none: Vec<i64> = Vec::new();
    let mut c: usize = 0;
    while c < candidates.len()
        invariant
            c <= candidates@.len(),
            none@ == Seq::<i64>::empty(),
            forall|k: int| 0 <= k < c ==> picks(roms@, #[trigger] candidates@[k], Some(want), member_text(candidates@[k]), Seq::empty(), None),
        decreases candidates.len() - c,
    {
        let h = &candidates[c];
        let name = match &h.member {
            Some(m) => Some(m.as_str()),
            None => None,
        };
        assert(opt_text(name) == member_text(*h));
        match pick_index(roms, h, Some(want), name, none.as_slice()) {
            Some(i) => {
                return Some((c, i));
            },
            None => {},
        }
        c = c + 1;
    }
    None
}

/// The rom a staged disc track is, by index: the track's payload must be a plain file
/// (the first of `candidates`, with no member), whose rom is picked by [`pick_index`]
/// preferring the rom the download was chosen for (`want`), then one named as the file
/// (`name`), skipping the roms other tracks took (`used`).
pub fn track_match(roms: &[EntryRom], candidates: &[Hashed], want: i64, name: &str, used: &[i64]) -> (r: Option<usize>)
    ensures
        match r {
            Some(i) => candidates@.len() > 0 && candidates@[0].member is None && i < roms@.len() && picks(
                roms@,
                candidates@[0],
                Some(want),
                Some(name@),
                used@,
                Some(i as int),
            ),
            None => candidates@.len() == 0 || candidates@[0].member is Some || picks(
                roms@,
                candidates@[0],
                Some(want),
                Some(name@),
                used@,
                None,
            ),
        },
{
    if candidates.len() == 0 {
        return None;
    }
    let first = &candidates[0];
    if first.member.is_some() {
        return None;
    }
    pick_index(roms, first, Some(want), Some(name), used)
}

/// The local path a staged file was recorded under: `staged` itself when absolute, else
/// inside `staging/<infohash>/`, as `Path::join` builds it; `None` when it has a `..`
/// component or does not lie under `staging` (compared as [`starts_with_dir`] does).
///
/// [`starts_with_dir`]: crate::jobs::import::place::starts_with_dir
pub open spec fn staged_local_of(staging: Seq<char>, infohash: Seq<char>, staged: Seq<char>) -> Option<Seq<char>> {
    let local = crate::text::push_path(crate::text::push_path(staging, infohash), staged);
    if crate::text::no_parent_path(local) && crate::jobs::import::place::starts_with_dir(local, staging) {
        Some(local)
    } else {
        None
    }
}

/// Where to look for a staged file.
#[derive(Debug, Clone, PartialEq, Eq)]
pub enum Locate {
    /// The recorded path is not inside staging.
    Outside,
    /// Use `local` as it is.
    Local(String),
    /// Use `local` when it exists; otherwise look for `inner` in `root`, then in each
    /// directory of `root` (see [`search_order`]), and fall back to `local`.
    Search { local: String, root: String, inner: String },
}

/// Where to look for a staged file recorded as `staged` for torrent `infohash`, whose path
/// inside the torrent is `torrent_path`: outside staging it is refused; without a torrent
/// path that is relative and free of `..`, the recorded path is used as it is; with one,
/// the file may also be searched for under `staging/<infohash>/`, since a magnet's display
/// name may differ from the folder the client wrote.
pub fn locate_plan(staging: &str, infohash: &str, staged: &str, torrent_path: Option<&str>) -> (r: Locate)
    ensures
        match staged_local_of(staging@, infohash@, staged@) {
            None => r is Outside,
            Some(local) => match torrent_path {
                Some(t) if !crate::text::has_root(t@) && crate::text::no_parent_path(t@) => r matches Locate::Search {
                    local: l,
                    root,
                    inner,
                } && l@ == local && root@ == crate::text::push_path(staging@, infohash@) && inner@ == t@,
                _ => r matches Locate::Local(l) && l@ == local,
            },
        },
{
    let root = crate::text::join(staging, infohash);
    let local = crate::text::join(root.as_str(), staged);
    if !crate::text::no_parent(local.as_str()) || !crate::jobs::import::place::dir_starts_with(local.as_str(), staging) {
        return Locate::Outside;
    }
    match torrent_path {
        Some(t) => {
            let relative = !(t.unicode_len() > 0 && t.get_char(0) == '/');
            if relative && crate::text::no_parent(t) {
                Locate::Search { local, root, inner: t.to_string() }
            } else {
                Locate::Local(local)
            }
        },
        None => Locate::Local(local),
    }
}

/// The paths to try, in order, for a staged file `inner` under `root` whose directories
/// are `dirs`: `root` first, then each directory in sorted order, each joined with `inner`.
pub fn search_order(root: &str, dirs: &Vec<String>, inner: &str) -> (out: Vec<String>)
    ensures
        out@.len() == dirs@.len() + 1,
        out@[0]@ == crate::text::push_path(root@, inner@),
        exists|order: Seq<String>|
            #![trigger crate::sort::sorted(order)]
            crate::sort::sorted(order) && crate::sort::reorders(order, dirs@) && forall|k: int|
                0 <= k < dirs@.len() ==> (#[trigger] out@[k + 1])@ == crate::text::push_path(order[k]@, inner@),
{
    let sorted = crate::sort::sort_texts(dirs);
    let mut out: Vec<String> = Vec::new();
    out.push(crate::text::join(root, inner));
    let mut i: usize = 0;
    while i < sorted.len()
        invariant
            i <= sorted@.len(),
            sorted@.len() == dirs@.len(),
            out@.len() == i + 1,
            out@[0]@ == crate::text::push_path(root@, inner@),
            forall|k: int| 0 <= k < i ==> (#[trigger] out@[k + 1])@ == crate::text::push_path(sorted@[k]@, inner@),
        decreases sorted.len() - i,
    {
        out.push(crate::text::join(sorted[i].as_str(), inner));
        i = i + 1;
    }
    proof {
        assert(crate::sort::sorted(sorted@));
    }
    out
}

} // verus!
