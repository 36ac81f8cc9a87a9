//! The paths placement steps may touch: staging paths resolve inside the staged item's
//! directory, library paths inside `games/`, and nothing climbs out of either.

use vstd::prelude::*;

use crate::text::{join, no_parent, plain_path, push_path, string_of, chars_of};

verus! {

/// `std::io::Error`, carried unchanged inside [`PlaceError::Io`].
#[verifier::external_type_specification]
#[verifier::external_body]
pub struct ExIoError(std::io::Error);

/// Why a step was not applied.
#[derive(Debug)]
pub enum PlaceError {
    /// A step named a path that is absolute, climbs with `..`, or leaves its root.
    Outside(String),
    /// Staging and `games/` are on different filesystems, so a move would be a copy.
    CrossDevice {
        /// The staging side.
        staging: String,
        /// The games side.
        games: String,
    },
    /// A target the step would create already exists.
    Exists(String),
    /// Reading or writing a file failed.
    Io {
        /// The file.
        path: String,
        /// The failure.
        source: std::io::Error,
    },
    /// The staged archive could not be read or a zip could not be written.
    Zip {
        /// The archive.
        path: String,
        /// The failure.
        message: String,
    },
}

/// The text `std::io::Error` displays. The standard library does not fix the wording,
/// so nothing is stated of it.
#[verifier::external_body]
fn io_text(e: &std::io::Error) -> String {
    e.to_string()
}

/// The text of a [`PlaceError`] whose fixed wording is stated, with `detail` the
/// failure's own text for the two errors that carry one.
pub open spec fn place_text(e: PlaceError, detail: Seq<char>) -> Seq<char> {
    match e {
        PlaceError::Outside(p) => "`"@ + p@ + "` is outside the staging and games directories"@,
        PlaceError::CrossDevice { staging, games } => "staging `"@ + staging@ + "` and games `"@
            + games@ + "` are on different filesystems; files are moved, never copied"@,
        PlaceError::Exists(p) => "`"@ + p@ + "` already exists"@,
        PlaceError::Io { path, .. } => "`"@ + path@ + "`: "@ + detail,
        PlaceError::Zip { path, message } => "`"@ + path@ + "`: "@ + message@,
    }
}

impl PlaceError {
    /// What went wrong, as the API reports it. For a failed read or write the
    /// failure's own text follows the path; what that text says is not stated.
    pub fn message(&self) -> (m: String)
        ensures
            !(self is Io) ==> m@ == place_text(*self, Seq::empty()),
            self is Io ==> exists|d: Seq<char>| m@ == place_text(*self, d),
    {
        match self {
            PlaceError::Outside(p) => {
                let a = crate::text::concat("`", p.as_str());
                crate::text::concat(a.as_str(), "` is outside the staging and games directories")
            },
            PlaceError::CrossDevice { staging, games } => {
                let a = crate::text::concat("staging `", staging.as_str());
                let b = crate::text::concat(a.as_str(), "` and games `");
                let c = crate::text::concat(b.as_str(), games.as_str());
                crate::text::concat(
                    c.as_str(),
                    "` are on different filesystems; files are moved, never copied",
                )
            },
            PlaceError::Exists(p) => {
                let a = crate::text::concat("`", p.as_str());
                crate::text::concat(a.as_str(), "` already exists")
            },
            PlaceError::Io { path, source } => {
                let a = crate::text::concat("`", path.as_str());
                let b = crate::text::concat(a.as_str(), "`: ");
                let d = io_text(source);
                let m = crate::text::concat(b.as_str(), d.as_str());
                assert(m@ == place_text(*self, d@));
                m
            },
            PlaceError::Zip { path, message } => {
                let a = crate::text::concat("`", path.as_str());
                let b = crate::text::concat(a.as_str(), "`: ");
                crate::text::concat(b.as_str(), message.as_str())
            },
        }
    }
}

/// The error of a failed read or write of `path`.
pub fn io_err(path: &str, source: std::io::Error) -> (e: PlaceError)
    ensures
        e matches PlaceError::Io { path: p, .. } && p@ == path@,
{
    PlaceError::Io { path: path.to_string(), source }
}

/// True when `rel` is non-empty and made only of plain names.
pub fn is_plain(rel: &str) -> (r: bool)
    ensures
        r == plain_path(rel@),
{
    crate::text::is_plain(rel)
}

/// `games/rel` for a plain relative `rel`, else [`PlaceError::Outside`] naming `rel`.
pub open spec fn spec_library_path(games: Seq<char>, rel: Seq<char>) -> Result<Seq<char>, Seq<char>> {
    if plain_path(rel) {
        Ok(push_path(games, rel))
    } else {
        Err(rel)
    }
}

/// How a path resolution came out: the resolved path, or the rejected path.
pub open spec fn resolved(r: Result<String, PlaceError>) -> Result<Seq<char>, Seq<char>> {
    match r {
        Ok(p) => Ok(p@),
        Err(PlaceError::Outside(p)) => Err(p@),
        Err(_) => Err(Seq::empty()),
    }
}

/// Resolves a library path against `games`.
pub fn library_path(games: &str, rel: &str) -> (r: Result<String, PlaceError>)
    ensures
        r is Ok || r is Err && r->Err_0 is Outside,
        resolved(r) == spec_library_path(games@, rel@),
{
    if is_plain(rel) {
        Ok(join(games, rel))
    } else {
        Err(PlaceError::Outside(rel.to_string()))
    }
}

/// The directories a plan may touch: staging paths resolve against the
/// directory holding `staged`, library paths against `games`.
#[derive(Debug, Clone)]
pub struct Roots {
    staging: String,
    work: String,
    staged: String,
    games: String,
}

impl Roots {
    /// The staging directory.
    pub closed spec fn spec_staging(&self) -> Seq<char> {
        self.staging@
    }

    /// The directory staging paths resolve against.
    pub closed spec fn spec_work(&self) -> Seq<char> {
        self.work@
    }

    /// The staged item's absolute path.
    pub closed spec fn spec_staged(&self) -> Seq<char> {
        self.staged@
    }

    /// The `games` directory.
    pub closed spec fn spec_games(&self) -> Seq<char> {
        self.games@
    }

    /// Roots from directories already resolved on disk: `staging`, the directory `work`
    /// holding the staged item `name`, and `games`. [`PlaceError::Outside`] naming `staged`
    /// when `name` is not a plain name, `work` is not inside `staging`, or it is inside `games`.
    pub fn from_resolved(
        staging: &str,
        work: &str,
        name: &str,
        games: &str,
        staged: &str,
    ) -> (r: Result<Roots, PlaceError>)
        ensures
            r is Ok <==> (plain_path(name@) && starts_with_dir(work@, staging@) && !starts_with_dir(
                work@,
                games@,
            )),
            r matches Ok(roots) ==> {
                &&& roots.spec_staging() == staging@
                &&& roots.spec_work() == work@
                &&& roots.spec_games() == games@
                &&& roots.spec_staged() == push_path(work@, name@)
            },
            r matches Err(e) ==> e matches PlaceError::Outside(p) && p@ == staged@,
    {
        if !is_plain(name) || !dir_starts_with(work, staging) || dir_starts_with(work, games) {
            return Err(PlaceError::Outside(staged.to_string()));
        }
        Ok(Roots {
            staging: staging.to_string(),
            work: work.to_string(),
            staged: join(work, name),
            games: games.to_string(),
        })
    }

    /// The staged item's absolute path.
    pub fn staged(&self) -> (p: &str)
        ensures
            p@ == self.spec_staged(),
    {
        self.staged.as_str()
    }

    /// The directory staging paths resolve against.
    pub fn work(&self) -> (p: &str)
        ensures
            p@ == self.spec_work(),
    {
        self.work.as_str()
    }

    /// Resolves a staging path: `work/rel` for a plain relative `rel`.
    pub fn stage(&self, rel: &str) -> (r: Result<String, PlaceError>)
        ensures
            r is Ok || r is Err && r->Err_0 is Outside,
            resolved(r) == spec_library_path(self.spec_work(), rel@),
    {
        library_path(self.work.as_str(), rel)
    }

    /// Resolves a library path: `games/rel` for a plain relative `rel`.
    pub fn library(&self, rel: &str) -> (r: Result<String, PlaceError>)
        ensures
            r is Ok || r is Err && r->Err_0 is Outside,
            resolved(r) == spec_library_path(self.spec_games(), rel@),
    {
        library_path(self.games.as_str(), rel)
    }

    /// Fails unless staging and `games/` share a filesystem, so every rename is a move;
    /// `same` is whether the two directories are on one device.
    pub fn check_same_filesystem(&self, same: bool) -> (r: Result<(), PlaceError>)
        ensures
            r is Ok <==> same,
            r matches Err(e) ==> e matches PlaceError::CrossDevice { staging, games } && staging@
                == self.spec_staging() && games@ == self.spec_games(),
    {
        if same {
            Ok(())
        } else {
            Err(self.cross_device())
        }
    }

    /// The error naming both sides of a move across filesystems.
    pub fn cross_device(&self) -> (e: PlaceError)
        ensures
            e matches PlaceError::CrossDevice { staging, games } && staging@ == self.spec_staging()
                && games@ == self.spec_games(),
    {
        PlaceError::CrossDevice { staging: self.staging.clone(), games: self.games.clone() }
    }
}

/// Whether the directory `a` is `b` or lies under it, for absolute paths without `.`, `..`
/// or doubled separators, as `Path::starts_with` compares them.
pub open spec fn starts_with_dir(a: Seq<char>, b: Seq<char>) -> bool {
    if b == seq!['/'] {
        a.len() > 0 && a[0] == '/'
    } else {
        let base = if b.len() > 0 && b.last() == '/' { b.drop_last() } else { b };
        ||| a == base
        ||| (a.len() > base.len() && a.subrange(0, base.len() as int) == base && a[base.len() as int] == '/')
    }
}

/// Whether the resolved directory `a` is `b` or lies under it.
pub fn dir_starts_with(a: &str, b: &str) -> (r: bool)
    ensures
        r == starts_with_dir(a@, b@),
{
    let av = chars_of(a);
    let bv = chars_of(b);
    if bv.len() == 1 && bv[0] == '/' {
        proof {
            assert(bv@ =~= seq!['/']);
        }
        return av.len() > 0 && av[0] == '/';
    }
    proof {
        if bv@ == seq!['/'] {
            assert(bv@.len() == 1 && bv@[0] == '/');
        }
    }
    let n: usize = if bv.len() > 0 && bv[bv.len() - 1] == '/' { bv.len() - 1 } else { bv.len() };
    let ghost base = if bv@.len() > 0 && bv@.last() == '/' { bv@.drop_last() } else { bv@ };
    assert(base.len() == n);
    if av.len() < n {
        return false;
    }
    let mut i: usize = 0;
    while i < n
        invariant
            i <= n,
            n <= av.len(),
            base.len() == n,
            n <= bv.len(),
            forall|k: int| 0 <= k < base.len() ==> base[k] == bv@[k],
            av@.subrange(0, i as int) == base.subrange(0, i as int),
            bv@ != seq!['/'],
            base == (if bv@.len() > 0 && bv@.last() == '/' { bv@.drop_last() } else { bv@ }),
            av@ == a@,
            bv@ == b@,
        decreases n - i,
    {
        if av[i] != bv[i] {
            proof {
                assert(av@.subrange(0, n as int)[i as int] != base[i as int]);
                assert(av@ != base);
            }
            return false;
        }
        assert(av@.subrange(0, i + 1) == av@.subrange(0, i as int).push(av@[i as int]));
        assert(base.subrange(0, i + 1) == base.subrange(0, i as int).push(base[i as int]));
        i = i + 1;
    }
    assert(base.subrange(0, n as int) == base);
    if av.len() == n {
        assert(av@ == av@.subrange(0, n as int));
        return true;
    }
    av[n] == '/'
}

/// The target of renaming `from` to `to` within `games`: `to` resolved, when both are
/// plain library paths.
pub open spec fn spec_rename_target(games: Seq<char>, from: Seq<char>, to: Seq<char>) -> Result<
    (Seq<char>, Seq<char>),
    Seq<char>,
> {
    if !plain_path(from) {
        Err(from)
    } else if !plain_path(to) {
        Err(to)
    } else {
        Ok((push_path(games, from), push_path(games, to)))
    }
}

/// Renames a file already in `games/` from one library path to another, through `taken`,
/// which tells whether a path is taken, and `move_path`, which renames one path to another.
/// Returns the new path; [`PlaceError::Outside`] for a path outside `games`,
/// [`PlaceError::Exists`] when the target is taken, else the failure of the move.
pub fn rename_in_library<E, M>(
    games: &str,
    from: &str,
    to: &str,
    taken: E,
    move_path: M,
) -> (r: Result<String, PlaceError>)
    where
        E: Fn(&str) -> bool,
        M: FnOnce(&str, &str) -> Result<(), PlaceError>,
    requires
        forall|p: &str| taken.requires((p,)),
        forall|a: &str, b: &str| move_path.requires((a, b)),
    ensures
        spec_rename_target(games@, from@, to@) matches Err(bad) ==> r matches Err(e) && e matches PlaceError::Outside(p) && p@ == bad,
        spec_rename_target(games@, from@, to@) matches Ok((src, dst)) ==> {
            ||| (exists|d: &str| d@ == dst && #[trigger] taken.ensures((d,), true)) && (r matches Err(
                PlaceError::Exists(p),
            ) && p@ == dst)
            ||| (exists|d: &str| d@ == dst && #[trigger] taken.ensures((d,), false)) && exists|
                a: &str,
                b: &str,
                m: Result<(), PlaceError>,
            |
                a@ == src && b@ == dst && #[trigger] move_path.ensures((a, b), m) && match m {
                    Ok(()) => r matches Ok(p) && p@ == dst,
                    Err(e) => r == Err::<String, PlaceError>(e),
                }
        },
{
    let src = match library_path(games, from) {
        Ok(p) => p,
        Err(e) => return Err(e),
    };
    let dst = match library_path(games, to) {
        Ok(p) => p,
        Err(e) => return Err(e),
    };
    proof {
        assert(spec_rename_target(games@, from@, to@) == Ok::<(Seq<char>, Seq<char>), Seq<char>>((src@, dst@)));
    }
    let t = taken(dst.as_str());
    if t {
        return Err(PlaceError::Exists(dst));
    }
    let moved = move_path(src.as_str(), dst.as_str());
    match moved {
        Ok(()) => Ok(dst),
        Err(e) => Err(e),
    }
}

/// The message a header strip fails with when the file is shorter than its header.
pub const SHORTER_THAN_HEADER: &'static str = "file is shorter than its header";

/// `data` with the header `bytes` in front of it.
pub fn add_header(bytes: &[u8], data: &[u8]) -> (out: Vec<u8>)
    ensures
        out@ == bytes@ + data@,
{
    let mut out: Vec<u8> = Vec::new();
    let mut i: usize = 0;
    while i < bytes.len()
        invariant
            i <= bytes@.len(),
            out@ == bytes@.take(i as int),
        decreases bytes.len() - i,
    {
        out.push(bytes[i]);
        i = i + 1;
        proof {
            assert(out@ =~= bytes@.take(i as int));
        }
    }
    let mut j: usize = 0;
    while j < data.len()
        invariant
            j <= data@.len(),
            out@ == bytes@ + data@.take(j as int),
        decreases data.len() - j,
    {
        out.push(data[j]);
        j = j + 1;
        proof {
            assert(out@ =~= bytes@ + data@.take(j as int));
        }
    }
    proof {
        assert(bytes@.take(bytes@.len() as int) =~= bytes@);
        assert(data@.take(data@.len() as int) =~= data@);
    }
    out
}

/// `data` without its first `len` bytes, the header; `None` when `data` is shorter than
/// the header, and the file is then left as it was.
pub fn strip_header(len: u64, data: &[u8]) -> (out: Option<Vec<u8>>)
    ensures
        match out {
            Some(v) => data@.len() >= len && v@ == data@.skip(len as int),
            None => data@.len() < len,
        },
{
    if (data.len() as u64) < len {
        return None;
    }
    let start = len as usize;
    let mut out: Vec<u8> = Vec::new();
    let mut k: usize = start;
    while k < data.len()
        invariant
            start <= k <= data@.len(),
            start == len,
            out@ == data@.subrange(start as int, k as int),
        decreases data.len() - k,
    {
        out.push(data[k]);
        k = k + 1;
        proof {
            assert(out@ =~= data@.subrange(start as int, k as int));
        }
    }
    proof {
        assert(out@ =~= data@.skip(len as int));
    }
    Some(out)
}

/// The byte order a console's rom image was dumped in.
#[derive(Debug, Clone, Copy, PartialEq, Eq, Structural)]
pub enum ByteOrder {
    /// Already in the order the cores read.
    BigEndian,
    /// Each 16-bit word has its two bytes swapped.
    ByteSwapped,
    /// Each 32-bit word is stored least significant byte first.
    LittleEndian,
}

/// The length of the words that `from` reverses.
pub open spec fn word_len(from: ByteOrder) -> nat {
    match from {
        ByteOrder::BigEndian => 1,
        ByteOrder::ByteSwapped => 2,
        ByteOrder::LittleEndian => 4,
    }
}

/// `data` with each whole word of `g` bytes reversed, word after word; a trailing
/// partial word stays as it is.
pub open spec fn big_endian(data: Seq<u8>, g: nat) -> Seq<u8>
    decreases data.len(),
{
    if g == 0 || data.len() < g {
        data
    } else {
        data.take(g as int).reverse() + big_endian(data.skip(g as int), g)
    }
}

/// `n` is a whole number of words of `g` bytes.
pub open spec fn whole(n: nat, g: nat) -> bool
    decreases n,
{
    if n == 0 {
        true
    } else if g == 0 || n < g {
        false
    } else {
        whole((n - g) as nat, g)
    }
}

/// Words do not straddle a boundary after whole words: the conversion of `a + b` is
/// that of `a` followed by that of `b`.
pub proof fn lemma_big_endian_append(a: Seq<u8>, b: Seq<u8>, g: nat)
    requires
        g >= 1,
        whole(a.len(), g),
    ensures
        big_endian(a + b, g) == big_endian(a, g) + big_endian(b, g),
    decreases a.len(),
{
    if a.len() == 0 {
        assert(a + b =~= b);
        assert(big_endian(a, g) =~= Seq::<u8>::empty());
    } else {
        assert((a + b).take(g as int) =~= a.take(g as int));
        assert((a + b).skip(g as int) =~= a.skip(g as int) + b);
        lemma_big_endian_append(a.skip(g as int), b, g);
    }
}

proof fn lemma_whole_add(m: nat, n: nat, g: nat)
    requires
        whole(m, g),
        whole(n, g),
    ensures
        whole(m + n, g),
    decreases m,
{
    if m > 0 {
        lemma_whole_add((m - g) as nat, n, g);
    }
}

proof fn lemma_one_word(a: Seq<u8>, g: nat)
    requires
        g >= 1,
        a.len() == g,
    ensures
        big_endian(a, g) == a.reverse(),
        whole(g, g),
{
    assert(a.take(g as int) =~= a);
    assert(big_endian(a.skip(g as int), g) =~= Seq::<u8>::empty());
    assert(whole((g - g) as nat, g));
}

/// Turns a stream in any [`ByteOrder`] into big-endian order, fed in chunks of any size:
/// a word split between two chunks waits in `pending` for its other bytes.
pub struct ByteSwapper {
    group: usize,
    pending: Vec<u8>,
    consumed: Ghost<Seq<u8>>,
}

impl ByteSwapper {
    /// Every byte fed so far.
    pub closed spec fn fed(&self) -> Seq<u8> {
        self.consumed@ + self.pending@
    }

    /// Every byte handed out so far.
    pub closed spec fn emitted(&self) -> Seq<u8> {
        big_endian(self.consumed@, self.group as nat)
    }

    /// The word length being reversed.
    pub closed spec fn word(&self) -> nat {
        self.group as nat
    }

    /// What the handed-out bytes and the waiting ones always satisfy.
    pub closed spec fn wf(&self) -> bool {
        &&& 1 <= self.group <= 4
        &&& self.pending@.len() < self.group
        &&& whole(self.consumed@.len(), self.group as nat)
    }

    /// A converter from `from` that has seen nothing.
    pub fn new(from: ByteOrder) -> (s: Self)
        ensures
            s.wf(),
            s.word() == word_len(from),
            s.fed() == Seq::<u8>::empty(),
            s.emitted() == Seq::<u8>::empty(),
    {
        let group: usize = match from {
            ByteOrder::BigEndian => 1,
            ByteOrder::ByteSwapped => 2,
            ByteOrder::LittleEndian => 4,
        };
        let s = ByteSwapper { group, pending: Vec::new(), consumed: Ghost(Seq::empty()) };
        proof {
            assert(s.fed() =~= Seq::<u8>::empty());
        }
        s
    }

    /// Takes the next chunk and hands out the bytes that are now ready: the words that are
    /// complete, reversed.
    pub fn feed(&mut self, chunk: &[u8]) -> (out: Vec<u8>)
        requires
            old(self).wf(),
        ensures
            final(self).wf(),
            final(self).word() == old(self).word(),
            final(self).fed() == old(self).fed() + chunk@,
            final(self).emitted() == old(self).emitted() + out@,
    {
        let g = self.group;
        let ghost before = self.consumed@;
        let mut data: Vec<u8> = Vec::new();
        let mut i: usize = 0;
        while i < self.pending.len()
            invariant
                i <= self.pending@.len(),
                data@ == self.pending@.take(i as int),
            decreases self.pending.len() - i,
        {
            data.push(self.pending[i]);
            i = i + 1;
        }
        let mut c: usize = 0;
        while c < chunk.len()
            invariant
                c <= chunk@.len(),
                data@ == self.pending@ + chunk@.take(c as int),
            decreases chunk.len() - c,
        {
            data.push(chunk[c]);
            c = c + 1;
        }
        assert(self.pending@.take(i as int) =~= self.pending@);
        assert(chunk@.take(c as int) =~= chunk@);
        let mut out: Vec<u8> = Vec::new();
        let mut j: usize = 0;
        while g <= data.len() - j
            invariant
                1 <= g <= 4,
                j <= data@.len(),
                whole(j as nat, g as nat),
                out@ == big_endian(data@.take(j as int), g as nat),
            decreases data.len() - j,
        {
            let ghost head = out@;
            let mut t: usize = 0;
            while t < g
                invariant
                    1 <= g <= 4,
                    j + g <= data.len(),
                    t <= g,
                    out@ == head + data@.subrange(j as int, j + g).reverse().take(t as int),
                decreases g - t,
            {
                out.push(data[j + (g - 1 - t)]);
                t = t + 1;
                proof {
                    assert(out@ =~= head + data@.subrange(j as int, j + g).reverse().take(t as int));
                }
            }
            proof {
                let word = data@.subrange(j as int, j + g);
                assert(word.reverse().take(g as int) =~= word.reverse());
                lemma_one_word(word, g as nat);
                assert(data@.take(j + g) =~= data@.take(j as int) + word);
                lemma_big_endian_append(data@.take(j as int), word, g as nat);
                lemma_whole_add(j as nat, g as nat, g as nat);
            }
            j = j + g;
        }
        let mut rest: Vec<u8> = Vec::new();
        let mut k: usize = j;
        while k < data.len()
            invariant
                j <= k <= data@.len(),
                rest@ == data@.subrange(j as int, k as int),
            decreases data.len() - k,
        {
            rest.push(data[k]);
            k = k + 1;
        }
        proof {
            let took = data@.take(j as int);
            assert(data@ =~= took + rest@);
            assert(before + data@ =~= (before + took) + rest@);
            lemma_big_endian_append(before, took, g as nat);
            lemma_whole_add(before.len(), j as nat, g as nat);
            self.consumed = Ghost(before + took);
        }
        self.pending = rest;
        proof {
            assert(self.fed() =~= before + data@);
            assert(old(self).fed() + chunk@ =~= before + data@);
        }
        out
    }

    /// Ends the stream and hands out what waits: a partial word, as it is. Everything handed
    /// out, `emitted()` followed by the result, is `big_endian` of everything fed.
    pub fn finish(self) -> (out: Vec<u8>)
        requires
            self.wf(),
        ensures
            self.emitted() + out@ == big_endian(self.fed(), self.word()),
    {
        proof {
            lemma_big_endian_append(self.consumed@, self.pending@, self.group as nat);
        }
        self.pending
    }
}

/// `data` in big-endian order, read as `from`: each whole word reversed, a trailing partial
/// word as it is.
pub fn swap_order(data: &[u8], from: ByteOrder) -> (out: Vec<u8>)
    ensures
        out@ == big_endian(data@, word_len(from)),
{
    let mut s = ByteSwapper::new(from);
    let head = s.feed(data);
    let tail = s.finish();
    let mut out = head;
    let mut i: usize = 0;
    let ghost first = out@;
    while i < tail.len()
        invariant
            i <= tail@.len(),
            out@ == first + tail@.take(i as int),
        decreases tail.len() - i,
    {
        out.push(tail[i]);
        i = i + 1;
    }
    proof {
        assert(tail@.take(i as int) =~= tail@);
        assert(Seq::<u8>::empty() + data@ =~= data@);
        assert(Seq::<u8>::empty() + first =~= first);
    }
    out
}

} // verus!
