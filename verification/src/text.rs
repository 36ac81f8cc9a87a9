//! Character-level helpers: strings as sequences of characters, and `/`-separated paths
//! read the way `std::path` reads them on Unix.

use vstd::prelude::*;

verus! {

/// The characters of a string slice.
pub fn chars_of(s: &str) -> (v: Vec<char>)
    ensures
        v@ == s@,
{
    let n = s.unicode_len();
    let mut v: Vec<char> = Vec::new();
    let mut i: usize = 0;
    while i < n
        invariant
            i <= n,
            n == s@.len(),
            v@ == s@.subrange(0, i as int),
        decreases n - i,
    {
        let c = s.get_char(i);
        v.push(c);
        i = i + 1;
    }
    v
}

/// `String::push`: appends one character.
#[verifier::external_body]
fn push_char(s: &mut String, c: char)
    ensures
        final(s)@ == old(s)@.push(c),
{
    s.push(c)
}

/// The string made of `v`'s characters.
pub fn string_of(v: &Vec<char>) -> (s: String)
    ensures
        s@ == v@,
{
    let mut s = String::new();
    let mut i: usize = 0;
    while i < v.len()
        invariant
            i <= v.len(),
            s@ == v@.subrange(0, i as int),
        decreases v.len() - i,
    {
        push_char(&mut s, v[i]);
        i = i + 1;
    }
    s
}

/// `a` followed by `b`.
pub fn concat(a: &str, b: &str) -> (s: String)
    ensures
        s@ == a@ + b@,
{
    let mut v = chars_of(a);
    let t = chars_of(b);
    let mut i: usize = 0;
    let ghost start = v@;
    while i < t.len()
        invariant
            i <= t@.len(),
            v@ == start + t@.subrange(0, i as int),
        decreases t.len() - i,
    {
        v.push(t[i]);
        i = i + 1;
    }
    assert(t@.subrange(0, t@.len() as int) == t@);
    string_of(&v)
}

/// Whether two character vectors hold the same characters.
pub fn same_chars(a: &Vec<char>, b: &Vec<char>) -> (r: bool)
    ensures
        r == (a@ == b@),
{
    if a.len() != b.len() {
        return false;
    }
    let mut i: usize = 0;
    while i < a.len()
        invariant
            i <= a.len(),
            a.len() == b.len(),
            a@.subrange(0, i as int) == b@.subrange(0, i as int),
        decreases a.len() - i,
    {
        if a[i] != b[i] {
            return false;
        }
        assert(a@.subrange(0, i + 1) == a@.subrange(0, i as int).push(a@[i as int]));
        assert(b@.subrange(0, i + 1) == b@.subrange(0, i as int).push(b@[i as int]));
        i = i + 1;
    }
    assert(a@ == a@.subrange(0, a.len() as int));
    assert(b@ == b@.subrange(0, b.len() as int));
    true
}

/// Whether `s` reads `lit`.
pub fn str_is(s: &str, lit: &str) -> (r: bool)
    ensures
        r == (s@ == lit@),
{
    let a = chars_of(s);
    let b = chars_of(lit);
    same_chars(&a, &b)
}

/// Whether two strings hold the same characters.
pub fn string_eq(a: &String, b: &String) -> (r: bool)
    ensures
        r == (a@ == b@),
{
    a.eq(b)
}

/// The characters of `s` from `from` up to `to`.
pub fn slice_chars(s: &Vec<char>, from: usize, to: usize) -> (v: Vec<char>)
    requires
        from <= to <= s.len(),
    ensures
        v@ == s@.subrange(from as int, to as int),
{
    let mut v: Vec<char> = Vec::new();
    let mut i = from;
    while i < to
        invariant
            from <= i <= to,
            to <= s.len(),
            v@ == s@.subrange(from as int, i as int),
        decreases to - i,
    {
        v.push(s[i]);
        i = i + 1;
    }
    v
}

/// The ASCII lowercase of one character; others are unchanged.
pub open spec fn lower_char(c: char) -> char {
    if 'A' <= c <= 'Z' {
        ((c as u32) + 32) as char
    } else {
        c
    }
}

/// The ASCII lowercase of a text.
pub open spec fn lower(s: Seq<char>) -> Seq<char> {
    s.map_values(|c: char| lower_char(c))
}

/// One character lowered, as `char::to_ascii_lowercase` does.
pub fn lower_one(c: char) -> (r: char)
    ensures
        r == lower_char(c),
{
    if 'A' <= c && c <= 'Z' {
        ((c as u8) + 32) as char
    } else {
        c
    }
}

/// `s` in ASCII lowercase.
pub fn lower_chars(s: &Vec<char>) -> (v: Vec<char>)
    ensures
        v@ == lower(s@),
{
    let mut v: Vec<char> = Vec::new();
    let mut i: usize = 0;
    while i < s.len()
        invariant
            i <= s.len(),
            v@ == lower(s@.subrange(0, i as int)),
        decreases s.len() - i,
    {
        let c = lower_one(s[i]);
        v.push(c);
        i = i + 1;
        assert(lower(s@.subrange(0, i as int)) == lower(s@.subrange(0, i - 1)).push(lower_char(s@[i - 1])));
    }
    assert(s@.subrange(0, s.len() as int) == s@);
    v
}

/// Whether two texts are equal ignoring ASCII case, as `str::eq_ignore_ascii_case`.
pub fn same_ignoring_case(a: &Vec<char>, b: &Vec<char>) -> (r: bool)
    ensures
        r == (lower(a@) == lower(b@)),
{
    let la = lower_chars(a);
    let lb = lower_chars(b);
    same_chars(&la, &lb)
}

// ---------------------------------------------------------------------------
// Paths

/// The parts of a text between `/` separators, as `str::split('/')` yields them.
pub open spec fn split(s: Seq<char>) -> Seq<Seq<char>>
    decreases s.len(),
{
    if s.len() == 0 {
        seq![Seq::<char>::empty()]
    } else {
        let p = split(s.drop_last());
        if s.last() == '/' {
            p.push(Seq::<char>::empty())
        } else {
            p.update(p.len() - 1, p.last().push(s.last()))
        }
    }
}

/// There is always at least one part.
pub proof fn lemma_split_len(s: Seq<char>)
    ensures
        split(s).len() >= 1,
    decreases s.len(),
{
    if s.len() > 0 {
        lemma_split_len(s.drop_last());
    }
}

/// The text `.`.
pub open spec fn dot() -> Seq<char> {
    seq!['.']
}

/// The text `..`.
pub open spec fn dot_dot() -> Seq<char> {
    seq!['.', '.']
}

/// A part that `std::path` reads as a normal component: neither empty, `.` nor `..`.
pub open spec fn is_normal(p: Seq<char>) -> bool {
    p.len() > 0 && p != dot() && p != dot_dot()
}

/// Whether a path text starts at the root.
pub open spec fn has_root(s: Seq<char>) -> bool {
    s.len() > 0 && s[0] == '/'
}

/// A relative path made only of normal components, at least one: no root, no leading
/// `.`, no `..` anywhere.
pub open spec fn plain_path(s: Seq<char>) -> bool {
    let parts = split(s);
    &&& !has_root(s)
    &&& parts[0] != dot()
    &&& forall|i: int| 0 <= i < parts.len() ==> parts[i] != dot_dot()
    &&& exists|i: int| 0 <= i < parts.len() && is_normal(parts[i])
}

/// A path without any `..` component.
pub open spec fn no_parent_path(s: Seq<char>) -> bool {
    forall|i: int| 0 <= i < split(s).len() ==> split(s)[i] != dot_dot()
}

/// `PathBuf::push` on Unix: an absolute `p` replaces `base`, else `p` follows a separator.
pub open spec fn push_path(base: Seq<char>, p: Seq<char>) -> Seq<char> {
    if has_root(p) {
        p
    } else if base.len() > 0 && base.last() != '/' {
        base + seq!['/'] + p
    } else {
        base + p
    }
}

/// `base` with each normal part of `parts` pushed in order.
pub open spec fn push_normals(base: Seq<char>, parts: Seq<Seq<char>>) -> Seq<char>
    decreases parts.len(),
{
    if parts.len() == 0 {
        base
    } else {
        let b = push_normals(base, parts.drop_last());
        if is_normal(parts.last()) {
            push_path(b, parts.last())
        } else {
            b
        }
    }
}

/// Splits `s` at every `/`.
pub fn split_parts(s: &Vec<char>) -> (parts: Vec<Vec<char>>)
    ensures
        parts@.len() == split(s@).len(),
        forall|i: int| 0 <= i < parts@.len() ==> #[trigger] parts@[i]@ == split(s@)[i],
{
    let mut parts: Vec<Vec<char>> = Vec::new();
    let mut cur: Vec<char> = Vec::new();
    let mut i: usize = 0;
    proof {
        assert(s@.subrange(0, 0) == Seq::<char>::empty());
    }
    while i < s.len()
        invariant
            i <= s.len(),
            parts@.len() + 1 == split(s@.subrange(0, i as int)).len(),
            forall|k: int|
                0 <= k < parts@.len() ==> #[trigger] parts@[k]@ == split(
                    s@.subrange(0, i as int),
                )[k],
            cur@ == split(s@.subrange(0, i as int)).last(),
        decreases s.len() - i,
    {
        let ghost before = s@.subrange(0, i as int);
        let c = s[i];
        proof {
            lemma_split_len(before);
            assert(s@.subrange(0, i + 1).drop_last() == before);
            assert(s@.subrange(0, i + 1).last() == c);
        }
        if c == '/' {
            parts.push(cur);
            cur = Vec::new();
        } else {
            cur.push(c);
        }
        i = i + 1;
    }
    proof {
        assert(s@.subrange(0, s.len() as int) == s@);
        lemma_split_len(s@);
    }
    parts.push(cur);
    parts
}

/// Whether a part reads `.`.
pub fn is_dot(p: &Vec<char>) -> (r: bool)
    ensures
        r == (p@ == dot()),
{
    if p.len() == 1 && p[0] == '.' {
        assert(p@ =~= dot());
        true
    } else {
        false
    }
}

/// Whether a part reads `..`.
pub fn is_dot_dot(p: &Vec<char>) -> (r: bool)
    ensures
        r == (p@ == dot_dot()),
{
    if p.len() == 2 && p[0] == '.' && p[1] == '.' {
        assert(p@ =~= dot_dot());
        true
    } else {
        false
    }
}

/// Whether a part is a normal component.
pub fn normal_part(p: &Vec<char>) -> (r: bool)
    ensures
        r == is_normal(p@),
{
    p.len() > 0 && !is_dot(p) && !is_dot_dot(p)
}

/// Whether `rel` is a relative path of plain names only, at least one.
pub fn is_plain(rel: &str) -> (r: bool)
    ensures
        r == plain_path(rel@),
{
    let s = chars_of(rel);
    if s.len() > 0 && s[0] == '/' {
        return false;
    }
    let parts = split_parts(&s);
    proof {
        lemma_split_len(s@);
    }
    if is_dot(&parts[0]) {
        return false;
    }
    let mut any_normal = false;
    let mut i: usize = 0;
    while i < parts.len()
        invariant
            i <= parts@.len(),
            parts@.len() == split(s@).len(),
            forall|k: int| 0 <= k < parts@.len() ==> #[trigger] parts@[k]@ == split(s@)[k],
            forall|k: int| 0 <= k < i ==> split(s@)[k] != dot_dot(),
            any_normal == exists|k: int| 0 <= k < i && is_normal(split(s@)[k]),
            s@ == rel@,
        decreases parts.len() - i,
    {
        if is_dot_dot(&parts[i]) {
            assert(split(s@)[i as int] == dot_dot());
            assert(!plain_path(s@));
            return false;
        }
        if normal_part(&parts[i]) {
            any_normal = true;
        }
        i = i + 1;
    }
    any_normal
}

/// Whether no component of `path` is `..`.
pub fn no_parent(path: &str) -> (r: bool)
    ensures
        r == no_parent_path(path@),
{
    let s = chars_of(path);
    let parts = split_parts(&s);
    let mut i: usize = 0;
    while i < parts.len()
        invariant
            i <= parts@.len(),
            parts@.len() == split(s@).len(),
            forall|k: int| 0 <= k < parts@.len() ==> #[trigger] parts@[k]@ == split(s@)[k],
            forall|k: int| 0 <= k < i ==> split(s@)[k] != dot_dot(),
            s@ == path@,
        decreases parts.len() - i,
    {
        if is_dot_dot(&parts[i]) {
            assert(split(s@)[i as int] == dot_dot());
            assert(!no_parent_path(s@));
            return false;
        }
        i = i + 1;
    }
    true
}

/// `base` with `p` pushed, as `PathBuf::push` does on Unix.
pub fn push_chars(base: &Vec<char>, p: &Vec<char>) -> (v: Vec<char>)
    ensures
        v@ == push_path(base@, p@),
{
    if p.len() > 0 && p[0] == '/' {
        return p.clone();
    }
    let mut v = base.clone();
    if base.len() > 0 && base[base.len() - 1] != '/' {
        v.push('/');
    }
    let mut i: usize = 0;
    let ghost start = v@;
    while i < p.len()
        invariant
            i <= p.len(),
            v@ == start + p@.subrange(0, i as int),
        decreases p.len() - i,
    {
        v.push(p[i]);
        i = i + 1;
    }
    proof {
        assert(p@.subrange(0, p.len() as int) == p@);
        assert(base@.len() > 0 ==> base@.last() == base@[base@.len() - 1]);
    }
    v
}

/// `base` joined with `rel`, as `Path::join` does on Unix.
pub fn join(base: &str, rel: &str) -> (out: String)
    ensures
        out@ == push_path(base@, rel@),
{
    let b = chars_of(base);
    let r = chars_of(rel);
    let v = push_chars(&b, &r);
    string_of(&v)
}

/// `out` with only the normal components of `rel` pushed, so nothing can leave `out`.
pub fn push_relative(out: &Vec<char>, rel: &str) -> (v: Vec<char>)
    ensures
        v@ == push_normals(out@, split(rel@)),
{
    let s = chars_of(rel);
    let parts = split_parts(&s);
    let mut v = out.clone();
    let mut i: usize = 0;
    while i < parts.len()
        invariant
            i <= parts@.len(),
            parts@.len() == split(s@).len(),
            forall|k: int| 0 <= k < parts@.len() ==> #[trigger] parts@[k]@ == split(s@)[k],
            v@ == push_normals(out@, split(s@).subrange(0, i as int)),
        decreases parts.len() - i,
    {
        let ghost before = split(s@).subrange(0, i as int);
        proof {
            assert(split(s@).subrange(0, i + 1).drop_last() == before);
            assert(split(s@).subrange(0, i + 1).last() == parts@[i as int]@);
        }
        if normal_part(&parts[i]) {
            v = push_chars(&v, &parts[i]);
        }
        i = i + 1;
    }
    proof {
        assert(split(s@).subrange(0, parts@.len() as int) == split(s@));
    }
    v
}

} // verus!
