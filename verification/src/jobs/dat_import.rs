//! DAT files dropped into `dats/`: which files and zip members count as DATs, where a
//! rejected file goes, and which files have stopped changing.

use vstd::prelude::*;
use crate::text::{dot, dot_dot, split, lower, push_path};
use crate::jobs::scan::FileState;
use crate::assoc::copy_texts;

verus! {

// ---------------------------------------------------------------------------
// File names

/// The file name among `parts`, as `Path::file_name` finds it: the last part that is
/// neither empty nor `.`, unless that part is `..`.
pub open spec fn last_name(parts: Seq<Seq<char>>) -> Option<Seq<char>>
    decreases parts.len(),
{
    if parts.len() == 0 {
        None
    } else if parts.last().len() == 0 || parts.last() == dot() {
        last_name(parts.drop_last())
    } else if parts.last() == dot_dot() {
        None
    } else {
        Some(parts.last())
    }
}

/// The file name of a path, as `Path::file_name`.
pub open spec fn name_of(path: Seq<char>) -> Option<Seq<char>> {
    last_name(split(path))
}

/// The index of the last `.` in `s`, or -1.
pub open spec fn last_dot(s: Seq<char>) -> int
    decreases s.len(),
{
    if s.len() == 0 {
        -1
    } else if s.last() == '.' {
        s.len() - 1
    } else {
        last_dot(s.drop_last())
    }
}

/// The stem of a file name: all of it when its last `.` is missing or leads it, else
/// what precedes that `.`.
pub open spec fn stem_of(name: Seq<char>) -> Seq<char> {
    if last_dot(name) <= 0 {
        name
    } else {
        name.subrange(0, last_dot(name))
    }
}

/// The extension of a file name: what follows its last `.`, unless that `.` is missing
/// or leads the name.
pub open spec fn ext_of(name: Seq<char>) -> Option<Seq<char>> {
    if last_dot(name) <= 0 {
        None
    } else {
        Some(name.subrange(last_dot(name) + 1, name.len() as int))
    }
}

/// `Path::file_stem` of a path, empty where there is none.
pub open spec fn path_stem(path: Seq<char>) -> Seq<char> {
    match name_of(path) {
        Some(n) => stem_of(n),
        None => Seq::empty(),
    }
}

/// `Path::extension` of a path in ASCII lowercase, empty where there is none.
pub open spec fn path_ext(path: Seq<char>) -> Seq<char> {
    match name_of(path) {
        Some(n) => match ext_of(n) {
            Some(e) => lower(e),
            None => Seq::empty(),
        },
        None => Seq::empty(),
    }
}

proof fn lemma_last_dot_bounds(s: Seq<char>)
    ensures
        -1 <= last_dot(s) < s.len(),
        last_dot(s) >= 0 ==> s[last_dot(s)] == '.',
        forall|k: int| last_dot(s) < k < s.len() ==> s[k] != '.',
    decreases s.len(),
{
    if s.len() > 0 && s.last() != '.' {
        let t = s.drop_last();
        lemma_last_dot_bounds(t);
        assert forall|k: int| last_dot(s) < k < s.len() implies s[k] != '.' by {
            if k < s.len() - 1 {
                assert(s[k] == t[k]);
            }
        }
    }
}

/// The index of the last `.` in `s`, if any.
fn find_last_dot(s: &Vec<char>) -> (r: Option<usize>)
    ensures
        match r {
            Some(d) => d == last_dot(s@),
            None => last_dot(s@) == -1,
        },
{
    let mut i = s.len();
    proof {
        assert(s@.subrange(0, i as int) == s@);
    }
    while i > 0
        invariant
            i <= s@.len(),
            last_dot(s@) == last_dot(s@.subrange(0, i as int)),
        decreases i,
    {
        let ghost t = s@.subrange(0, i as int);
        proof {
            assert(t.drop_last() == s@.subrange(0, i - 1));
        }
        if s[i - 1] == '.' {
            return Some(i - 1);
        }
        i = i - 1;
    }
    None
}

/// The file name of `path`, if it has one.
pub(crate) fn name_chars(path: &str) -> (r: Option<Vec<char>>)
    ensures
        match r {
            Some(v) => name_of(path@) == Some(v@),
            None => name_of(path@) is None,
        },
{
    let s = crate::text::chars_of(path);
    let parts = crate::text::split_parts(&s);
    let mut i = parts.len();
    proof {
        assert(split(s@).subrange(0, i as int) == split(s@));
    }
    while i > 0
        invariant
            i <= parts@.len(),
            parts@.len() == split(s@).len(),
            forall|k: int| 0 <= k < parts@.len() ==> #[trigger] parts@[k]@ == split(s@)[k],
            last_name(split(s@)) == last_name(split(s@).subrange(0, i as int)),
            s@ == path@,
        decreases i,
    {
        let ghost t = split(s@).subrange(0, i as int);
        proof {
            assert(t.drop_last() == split(s@).subrange(0, i - 1));
            assert(t.last() == parts@[i - 1]@);
        }
        let p = &parts[i - 1];
        if p.len() == 0 || crate::text::is_dot(p) {
            i = i - 1;
        } else if crate::text::is_dot_dot(p) {
            return None;
        } else {
            return Some(p.clone());
        }
    }
    None
}

/// The file name of `path`, empty where there is none.
pub fn file_name(path: &str) -> (r: String)
    ensures
        r@ == match name_of(path@) {
            Some(n) => n,
            None => Seq::<char>::empty(),
        },
{
    match name_chars(path) {
        Some(v) => crate::text::string_of(&v),
        None => String::new(),
    }
}

/// The stem and the extension of a file name, both as they stand.
pub(crate) fn split_name(name: &Vec<char>) -> (r: (Vec<char>, Option<Vec<char>>))
    ensures
        r.0@ == stem_of(name@),
        match r.1 {
            Some(e) => ext_of(name@) == Some(e@),
            None => ext_of(name@) is None,
        },
{
    match find_last_dot(name) {
        Some(d) if d > 0 => {
            proof {
                lemma_last_dot_bounds(name@);
            }
            let stem = crate::text::slice_chars(name, 0, d);
            let ext = crate::text::slice_chars(name, d + 1, name.len());
            (stem, Some(ext))
        },
        _ => (name.clone(), None),
    }
}

/// `Path::file_stem` of `path`, empty where there is none.
pub fn stem(path: &str) -> (r: String)
    ensures
        r@ == path_stem(path@),
{
    match name_chars(path) {
        Some(v) => {
            let (s, _) = split_name(&v);
            crate::text::string_of(&s)
        },
        None => String::new(),
    }
}

/// `Path::extension` of `path` in ASCII lowercase, empty where there is none.
pub fn extension(path: &str) -> (r: String)
    ensures
        r@ == path_ext(path@),
{
    match name_chars(path) {
        Some(v) => {
            let (_, e) = split_name(&v);
            match e {
                Some(e) => {
                    let l = crate::text::lower_chars(&e);
                    crate::text::string_of(&l)
                },
                None => String::new(),
            }
        },
        None => String::new(),
    }
}

// ---------------------------------------------------------------------------
// What counts as a DAT

/// Why a dropped file is refused before it is read.
pub const NOT_A_DAT: &'static str = "not a DAT: expected a .dat, .xml or .zip file";

/// Why a zip archive without DATs is refused.
pub const NO_DATS_IN_ZIP: &'static str = "zip archive contains no .dat or .xml files";

/// The text `dat`.
pub open spec fn dat_ext() -> Seq<char> {
    seq!['d', 'a', 't']
}

/// The text `xml`.
pub open spec fn xml_ext() -> Seq<char> {
    seq!['x', 'm', 'l']
}

/// The text `zip`.
pub open spec fn zip_ext() -> Seq<char> {
    seq!['z', 'i', 'p']
}

/// A name that holds one DAT: not a directory, with a `.dat` or `.xml` extension in
/// any case.
pub open spec fn dat_name(name: Seq<char>) -> bool {
    &&& !(name.len() > 0 && name.last() == '/')
    &&& (path_ext(name) == dat_ext() || path_ext(name) == xml_ext())
}

/// Whether `v` reads exactly `lit`.
fn chars_are(v: &Vec<char>, lit: &str) -> (r: bool)
    ensures
        r == (v@ == lit@),
{
    let l = crate::text::chars_of(lit);
    crate::text::same_chars(v, &l)
}

/// Whether the lowercase extension `e` is `dat` or `xml`.
fn is_dat_ext(e: &String) -> (r: bool)
    ensures
        r == (e@ == dat_ext() || e@ == xml_ext()),
{
    let v = crate::text::chars_of(e.as_str());
    let d = chars_are(&v, "dat");
    let x = chars_are(&v, "xml");
    proof {
        reveal_strlit("dat");
        reveal_strlit("xml");
        assert("dat"@ == dat_ext());
        assert("xml"@ == xml_ext());
    }
    d || x
}

/// Whether a zip member `name` is a DAT.
pub fn is_dat_name(name: &str) -> (r: bool)
    ensures
        r == dat_name(name@),
{
    let n = name.unicode_len();
    if n > 0 && name.get_char(n - 1) == '/' {
        return false;
    }
    let e = extension(name);
    is_dat_ext(&e)
}

/// How a dropped file is read.
#[derive(Debug, Clone, Copy, PartialEq, Eq, Structural)]
pub enum DatFile {
    /// The file is one DAT.
    Plain,
    /// The file is a zip archive whose DAT members are read.
    Zip,
}

/// How a dropped file at `path` is read, by its extension in any case: `.dat` and
/// `.xml` are one DAT, `.zip` an archive of them; anything else is refused.
pub fn dat_file(path: &str) -> (r: Result<DatFile, String>)
    ensures
        match r {
            Ok(DatFile::Plain) => path_ext(path@) == dat_ext() || path_ext(path@) == xml_ext(),
            Ok(DatFile::Zip) => path_ext(path@) == zip_ext(),
            Err(m) => m@ == NOT_A_DAT@ && path_ext(path@) != dat_ext() && path_ext(path@)
                != xml_ext() && path_ext(path@) != zip_ext(),
        },
{
    let e = extension(path);
    if is_dat_ext(&e) {
        return Ok(DatFile::Plain);
    }
    let v = crate::text::chars_of(e.as_str());
    let z = chars_are(&v, "zip");
    proof {
        reveal_strlit("zip");
        assert("zip"@ == zip_ext());
    }
    if z {
        Ok(DatFile::Zip)
    } else {
        Err(NOT_A_DAT.to_string())
    }
}

/// Member `i` of a zip archive, named as `names` lists them, is a DAT.
pub open spec fn dat_member(names: Seq<Option<String>>, i: int) -> bool {
    0 <= i < names.len() && match names[i] {
        Some(n) => dat_name(n@),
        None => false,
    }
}

/// The indices of the DAT members of a zip archive, whose members are named `names`
/// (`None` where a name cannot be read), in order; an archive without any is refused.
pub fn zip_members(names: &Vec<Option<String>>) -> (r: Result<Vec<usize>, String>)
    ensures
        match r {
            Ok(v) => {
                &&& v@.len() > 0
                &&& forall|k: int| 0 <= k < v@.len() ==> dat_member(names@, #[trigger] v@[k] as int)
                &&& forall|a: int, b: int| 0 <= a < b < v@.len() ==> #[trigger] v@[a] < #[trigger] v@[b]
                &&& forall|i: int| #[trigger] dat_member(names@, i) ==> exists|k: int|
                    0 <= k < v@.len() && v@[k] == i
            },
            Err(m) => m@ == NO_DATS_IN_ZIP@ && forall|i: int| !#[trigger] dat_member(names@, i),
        },
{
    let mut v: Vec<usize> = Vec::new();
    let mut i: usize = 0;
    while i < names.len()
        invariant
            i <= names@.len(),
            forall|k: int| 0 <= k < v@.len() ==> dat_member(names@, #[trigger] v@[k] as int) && v@[k] < i,
            forall|a: int, b: int| 0 <= a < b < v@.len() ==> #[trigger] v@[a] < #[trigger] v@[b],
            forall|j: int| 0 <= j < i && #[trigger] dat_member(names@, j) ==> exists|k: int|
                0 <= k < v@.len() && v@[k] == j,
        decreases names.len() - i,
    {
        let keep = match &names[i] {
            Some(n) => is_dat_name(n.as_str()),
            None => false,
        };
        let ghost before = v@;
        if keep {
            v.push(i);
            proof {
                assert(v@[v@.len() - 1] == i);
            }
        }
        proof {
            assert forall|j: int| 0 <= j < i + 1 && #[trigger] dat_member(names@, j) implies exists|k: int|
                0 <= k < v@.len() && v@[k] == j by {
                if j == i {
                    assert(v@[v@.len() - 1] == i);
                } else {
                    let k = choose|k: int| 0 <= k < before.len() && before[k] == j;
                    assert(v@[k] == before[k]);
                }
            }
        }
        i = i + 1;
    }
    if v.len() == 0 {
        proof {
            assert forall|j: int| !#[trigger] dat_member(names@, j) by {
                if dat_member(names@, j) {
                    let k = choose|k: int| 0 <= k < v@.len() && v@[k] == j;
                }
            }
        }
        Err(NO_DATS_IN_ZIP.to_string())
    } else {
        Ok(v)
    }
}

/// Appends the characters of `t` to `v`.
fn append(v: &mut Vec<char>, t: &Vec<char>)
    ensures
        final(v)@ == old(v)@ + t@,
{
    let mut i: usize = 0;
    let ghost start = v@;
    while i < t.len()
        invariant
            i <= t@.len(),
            v@ == start + t@.subrange(0, i as int),
        decreases t.len() - i,
    {
        v.push(t[i]);
        i = i + 1;
    }
    assert(t@.subrange(0, t@.len() as int) == t@);
}

/// A rejection reason `message` for zip member `member`, prefixed by the member's name
/// unless the file was a plain DAT (`member` empty).
pub fn rejected(member: &str, message: &str) -> (r: String)
    ensures
        r@ == if member@.len() == 0 {
            message@
        } else {
            member@ + seq![':', ' '] + message@
        },
{
    if member.unicode_len() == 0 {
        return message.to_string();
    }
    let mut v = crate::text::chars_of(member);
    v.push(':');
    v.push(' ');
    let m = crate::text::chars_of(message);
    append(&mut v, &m);
    crate::text::string_of(&v)
}

/// [`rejected`]'s text: `message`, after `member` and `": "` when a member is named.
pub open spec fn rejected_text(member: Seq<char>, message: Seq<char>) -> Seq<char> {
    if member.len() == 0 {
        message
    } else {
        member + seq![':', ' '] + message
    }
}

/// Games staged per write while a DAT streams in.
pub const STAGE_CHUNK: usize = 2000;

/// The reason a bind of a version that is no longer the current one is refused.
pub open spec fn newer_text(dat_name: Seq<char>) -> Seq<char> {
    "a newer version of "@ + dat_name + " is loaded; bind that version instead"@
}

/// How a DAT stream goes on once its header is read.
#[derive(Debug, Clone, PartialEq, Eq)]
pub enum StreamStart {
    /// A bind asked for another DAT or version: this one is left alone.
    Skip,
    /// The bind asked for a version that is no longer the current one: refused with this
    /// reason.
    Reject(String),
    /// Read the games, staging them for the titles when `staging` (clearing the stage
    /// first).
    Stream { staging: bool },
}

/// A DAT stream's start, as texts.
pub enum StreamStartModel {
    /// See [`StreamStart::Skip`].
    Skip,
    /// See [`StreamStart::Reject`].
    Reject(Seq<char>),
    /// See [`StreamStart::Stream`].
    Stream(bool),
}

/// A DAT stream's start, as texts.
pub open spec fn stream_start_model(s: StreamStart) -> StreamStartModel {
    match s {
        StreamStart::Skip => StreamStartModel::Skip,
        StreamStart::Reject(r) => StreamStartModel::Reject(r@),
        StreamStart::Stream { staging } => StreamStartModel::Stream(staging),
    }
}

/// How a DAT named `name` at `version`, read as zip `member` (empty for a plain DAT),
/// goes on: a bind naming another DAT or version skips it; a bind of a version that is not
/// the current one (`current`) is refused; otherwise its games are read, and staged when
/// the version is `planned` for a platform and current.
pub open spec fn stream_start_of(
    bind: Option<(Seq<char>, Seq<char>)>,
    member: Seq<char>,
    name: Seq<char>,
    version: Seq<char>,
    planned: bool,
    current: bool,
) -> StreamStartModel {
    match bind {
        Some((bn, bv)) => if bn != name || bv != version {
            StreamStartModel::Skip
        } else if !current {
            StreamStartModel::Reject(rejected_text(member, newer_text(name)))
        } else {
            StreamStartModel::Stream(planned && current)
        },
        None => StreamStartModel::Stream(planned && current),
    }
}

/// The bind's DAT name and version as texts.
pub open spec fn bind_texts(bind: Option<(&str, &str)>) -> Option<(Seq<char>, Seq<char>)> {
    match bind {
        Some((n, v)) => Some((n@, v@)),
        None => None,
    }
}

/// How a DAT stream goes on once its header is read; see [`stream_start_of`].
pub fn stream_start(
    bind: Option<(&str, &str)>,
    member: &str,
    name: &str,
    version: &str,
    planned: bool,
    current: bool,
) -> (r: StreamStart)
    ensures
        stream_start_model(r) == stream_start_of(bind_texts(bind), member@, name@, version@, planned, current),
{
    if let Some((bn, bv)) = bind {
        if !crate::text::str_is(bn, name) || !crate::text::str_is(bv, version) {
            return StreamStart::Skip;
        }
        if !current {
            let a = crate::text::concat("a newer version of ", name);
            let why = crate::text::concat(a.as_str(), " is loaded; bind that version instead");
            let r = rejected(member, why.as_str());
            proof {
                assert(why@ =~= newer_text(name@));
            }
            return StreamStart::Reject(r);
        }
    }
    StreamStart::Stream { staging: planned && current }
}

/// What a DAT stream does with its next game.
#[derive(Debug, Clone, PartialEq, Eq)]
pub enum GameStep {
    /// The stream broke: clear the stage and refuse the DAT with this reason.
    Reject(String),
    /// Count the game; nothing is staged.
    Count,
    /// Count and stage the game; `clone_of` says it names a parent, and `flush` that the
    /// chunk is full and is written now.
    Stage { clone_of: bool, flush: bool },
}

/// A game step, as texts.
pub enum GameStepModel {
    /// See [`GameStep::Reject`].
    Reject(Seq<char>),
    /// See [`GameStep::Count`].
    Count,
    /// See [`GameStep::Stage`].
    Stage(bool, bool),
}

/// A game step, as texts.
pub open spec fn game_step_model(g: GameStep) -> GameStepModel {
    match g {
        GameStep::Reject(r) => GameStepModel::Reject(r@),
        GameStep::Count => GameStepModel::Count,
        GameStep::Stage { clone_of, flush } => GameStepModel::Stage(clone_of, flush),
    }
}

/// The step for the next `game` of zip `member`'s stream (empty for a plain DAT): an error
/// refuses the DAT with it; a game is only counted unless `staging`, and is staged otherwise,
/// the chunk of `chunk` games waiting being written once it reaches [`STAGE_CHUNK`]. A game
/// is given as whether it names a parent (`clone_of`).
pub open spec fn game_step_of(member: Seq<char>, staging: bool, chunk: nat, game: Result<bool, Seq<char>>) -> GameStepModel {
    match game {
        Err(e) => GameStepModel::Reject(rejected_text(member, e)),
        Ok(clone_of) => if staging {
            GameStepModel::Stage(clone_of, chunk + 1 >= STAGE_CHUNK)
        } else {
            GameStepModel::Count
        },
    }
}

/// The game, or the stream error, as texts.
pub open spec fn game_texts(game: Result<bool, String>) -> Result<bool, Seq<char>> {
    match game {
        Ok(b) => Ok(b),
        Err(e) => Err(e@),
    }
}

/// The step for a DAT stream's next game; see [`game_step_of`].
pub fn game_step(member: &str, staging: bool, chunk: usize, game: Result<bool, String>) -> (r: GameStep)
    ensures
        game_step_model(r) == game_step_of(member@, staging, chunk as nat, game_texts(game)),
{
    match game {
        Err(e) => GameStep::Reject(rejected(member, e.as_str())),
        Ok(clone_of) => if staging {
            GameStep::Stage { clone_of, flush: chunk >= STAGE_CHUNK - 1 }
        } else {
            GameStep::Count
        },
    }
}

/// How a streamed DAT is stored at the end.
#[derive(Debug, Clone, PartialEq, Eq)]
pub enum StreamEnd {
    /// A bind whose version stopped being the current one meanwhile: refused with this
    /// reason.
    Reject(String),
    /// Store the version and its game count; `titles` says the staged games become the
    /// platform's titles (and absent ones retire).
    Load { titles: bool },
}

/// How a streamed DAT named `name`, read as zip `member`, is stored once the version is
/// recorded: a bind (`bind`) of a version that is not `current` is refused; otherwise it
/// loads, and makes titles when the version has a platform, is current and was `staging`.
pub open spec fn stream_end_of(
    bind: bool,
    member: Seq<char>,
    name: Seq<char>,
    current: bool,
    has_platform: bool,
    staging: bool,
) -> Result<bool, Seq<char>> {
    if bind && !current {
        Err(rejected_text(member, newer_text(name)))
    } else {
        Ok(has_platform && current && staging)
    }
}

/// How a streamed DAT is stored at the end; see [`stream_end_of`], whose `Ok` is
/// [`StreamEnd::Load`]'s `titles` and whose `Err` is the rejection's reason.
pub fn stream_end(bind: bool, member: &str, name: &str, current: bool, has_platform: bool, staging: bool) -> (r: StreamEnd)
    ensures
        match r {
            StreamEnd::Reject(why) => stream_end_of(bind, member@, name@, current, has_platform, staging) == Err::<bool, Seq<char>>(why@),
            StreamEnd::Load { titles } => stream_end_of(bind, member@, name@, current, has_platform, staging) == Ok::<bool, Seq<char>>(titles),
        },
{
    if bind && !current {
        let a = crate::text::concat("a newer version of ", name);
        let why = crate::text::concat(a.as_str(), " is loaded; bind that version instead");
        proof {
            assert(why@ =~= newer_text(name@));
        }
        return StreamEnd::Reject(rejected(member, why.as_str()));
    }
    StreamEnd::Load { titles: has_platform && current && staging }
}

// ---------------------------------------------------------------------------
// Free names

/// The character of decimal digit `d`.
pub open spec fn digit(d: nat) -> char {
    (d + 48) as char
}

/// The decimal digits of `n`, without leading zeros.
pub open spec fn decimal(n: nat) -> Seq<char>
    decreases n,
{
    if n < 10 {
        seq![digit(n)]
    } else {
        decimal(n / 10).push(digit(n % 10))
    }
}

/// `n` in decimal.
pub fn decimal_chars(n: u32) -> (v: Vec<char>)
    ensures
        v@ == decimal(n as nat),
    decreases n,
{
    let d = ((n % 10) as u8 + 48) as char;
    let mut v = if n < 10 {
        Vec::new()
    } else {
        decimal_chars(n / 10)
    };
    v.push(d);
    proof {
        if n < 10 {
            assert(v@ =~= seq![digit(n as nat)]);
        }
    }
    v
}

/// The extension of the file name of `path` with its leading `.`, as it stands; empty
/// where there is none.
pub open spec fn dotted_ext(path: Seq<char>) -> Seq<char> {
    match name_of(path) {
        Some(n) => match ext_of(n) {
            Some(e) => seq!['.'] + e,
            None => Seq::empty(),
        },
        None => Seq::empty(),
    }
}

/// `name` numbered `n`: `stem (n).ext`.
pub open spec fn numbered_name(name: Seq<char>, n: nat) -> Seq<char> {
    path_stem(name) + seq![' ', '('] + decimal(n) + seq![')'] + dotted_ext(name)
}

/// The `n`th alternative to `dir/name`.
pub open spec fn numbered_path(dir: Seq<char>, name: Seq<char>, n: nat) -> Seq<char> {
    push_path(dir, numbered_name(name, n))
}

/// `taken` answered `b` when asked about the path `t`.
pub open spec fn answered<F: Fn(&str) -> bool>(taken: F, t: Seq<char>, b: bool) -> bool {
    exists|s: &str| s@ == t && #[trigger] taken.ensures((s,), b)
}

/// `taken` called every alternative below `n` taken.
pub open spec fn taken_below<F: Fn(&str) -> bool>(
    taken: F,
    dir: Seq<char>,
    name: Seq<char>,
    n: nat,
) -> bool {
    forall|m: nat| 1 <= m < n ==> #[trigger] answered(taken, numbered_path(dir, name, m), true)
}

/// `dotted_ext` of `name`, computed.
fn dotted_ext_chars(name: &str) -> (v: Vec<char>)
    ensures
        v@ == dotted_ext(name@),
{
    match name_chars(name) {
        Some(n) => {
            let (_, e) = split_name(&n);
            match e {
                Some(e) => {
                    let mut v: Vec<char> = Vec::new();
                    v.push('.');
                    append(&mut v, &e);
                    v
                },
                None => Vec::new(),
            }
        },
        None => Vec::new(),
    }
}

/// `numbered_path` computed from the parts of `name`.
fn numbered(dir: &Vec<char>, stem: &Vec<char>, ext: &Vec<char>, n: u32) -> (r: String)
    ensures
        r@ == push_path(dir@, stem@ + seq![' ', '('] + decimal(n as nat) + seq![')'] + ext@),
{
    let mut v = stem.clone();
    v.push(' ');
    v.push('(');
    let d = decimal_chars(n);
    append(&mut v, &d);
    v.push(')');
    append(&mut v, ext);
    let p = crate::text::push_chars(dir, &v);
    crate::text::string_of(&p)
}

/// `dir/name`, or `dir/stem (N).ext` for the first `N` from 1 up that `taken` does not
/// report; `dir/name` again where it reports all of them.
pub fn unique_path<F: Fn(&str) -> bool>(dir: &str, name: &str, taken: F) -> (r: String)
    requires
        forall|s: &str| #[trigger] taken.requires((s,)),
    ensures
        ({
            ||| r@ == push_path(dir@, name@) && answered(taken, r@, false)
            ||| answered(taken, push_path(dir@, name@), true) && exists|n: nat|
                1 <= n <= u32::MAX && r@ == numbered_path(dir@, name@, n) && answered(taken, r@, false)
                    && taken_below(taken, dir@, name@, n)
            ||| r@ == push_path(dir@, name@) && answered(taken, r@, true) && taken_below(
                taken,
                dir@,
                name@,
                u32::MAX as nat + 1,
            )
        }),
{
    let candidate = crate::text::join(dir, name);
    let first = taken(candidate.as_str());
    if !first {
        return candidate;
    }
    let d = crate::text::chars_of(dir);
    let stem_text = stem(name);
    let s = crate::text::chars_of(stem_text.as_str());
    let e = dotted_ext_chars(name);
    let mut n: u32 = 1;
    loop
        invariant
            1 <= n,
            candidate@ == push_path(dir@, name@),
            answered(taken, candidate@, true),
            taken_below(taken, dir@, name@, n as nat),
            d@ == dir@,
            s@ == path_stem(name@),
            e@ == dotted_ext(name@),
            forall|s: &str| #[trigger] taken.requires((s,)),
        decreases u32::MAX - n,
    {
        let c = numbered(&d, &s, &e, n);
        let t = taken(c.as_str());
        proof {
            assert(c@ == numbered_path(dir@, name@, n as nat));
        }
        if !t {
            return c;
        }
        proof {
            assert forall|m: nat| 1 <= m < n + 1 implies #[trigger] answered(
                taken,
                numbered_path(dir@, name@, m),
                true,
            ) by {
                if m < n {
                    assert(taken_below(taken, dir@, name@, n as nat));
                }
            }
        }
        if n == u32::MAX {
            return candidate;
        }
        n = n + 1;
    }
}

// ---------------------------------------------------------------------------
// Watching `dats/`

/// One entry of `dats/` as listed for a poll.
#[derive(Debug, Clone)]
pub struct Listed {
    /// The entry's path.
    pub path: String,
    /// The entry's file name.
    pub name: String,
    /// Whether it is a regular file.
    pub is_file: bool,
    /// Its length in bytes.
    pub len: u64,
    /// How long ago it was last modified, in nanoseconds; 0 for a time in the future,
    /// `None` where the time cannot be read.
    pub age_nanos: Option<u128>,
    /// When it was last modified, in nanoseconds from the Unix epoch, if known.
    pub modified: Option<i128>,
}

/// What a file is reported under: its length and modification time.
pub type Signature = (u64, Option<i128>);

/// Whether a listed entry is watched: a regular file whose name does not start with `.`.
pub open spec fn watched(e: Listed) -> bool {
    e.is_file && !(e.name@.len() > 0 && e.name@[0] == '.')
}

/// The signature of a listed entry.
pub open spec fn signature(e: Listed) -> Signature {
    (e.len, e.modified)
}

/// Whether an entry was last modified at least `min_age` nanoseconds ago.
pub open spec fn settled(e: Listed, min_age: u128) -> bool {
    match e.age_nanos {
        Some(a) => a >= min_age,
        None => false,
    }
}

/// A watcher's maps and the paths reported so far in a poll.
pub type Watch = (Map<Seq<char>, u64>, Map<Seq<char>, Signature>, Seq<Seq<char>>);

/// Whether entry `e` is reported against `st`: settled, the same length as at the last
/// poll, and not reported before under its signature.
pub open spec fn reports(st: Watch, e: Listed, min_age: u128) -> bool {
    let p = e.path@;
    &&& watched(e)
    &&& settled(e, min_age)
    &&& st.0.contains_key(p) && st.0[p] == e.len
    &&& !(st.1.contains_key(p) && st.1[p] == signature(e))
}

/// One entry of a poll: a watched file's length is recorded, and a reported one's
/// signature with it.
pub open spec fn step(st: Watch, e: Listed, min_age: u128) -> Watch {
    if !watched(e) {
        st
    } else if reports(st, e, min_age) {
        (st.0.insert(e.path@, e.len), st.1.insert(e.path@, signature(e)), st.2.push(e.path@))
    } else {
        (st.0.insert(e.path@, e.len), st.1, st.2)
    }
}

/// The entries of a poll taken in order from `st`.
pub open spec fn scan(entries: Seq<Listed>, min_age: u128, st: Watch) -> Watch
    decreases entries.len(),
{
    if entries.len() == 0 {
        st
    } else {
        step(scan(entries.drop_last(), min_age, st), entries.last(), min_age)
    }
}

/// The paths of the watched entries.
pub open spec fn present(entries: Seq<Listed>) -> Set<Seq<char>> {
    Set::new(|p: Seq<char>| exists|i: int| 0 <= i < entries.len() && watched(entries[i]) && (#[trigger] entries[i]).path@ == p)
}

/// A watcher after a poll of `entries` from `sizes` and `reported`: both maps keep only
/// the paths still present, and the reported paths in the order they were met.
pub open spec fn after_poll(
    entries: Seq<Listed>,
    min_age: u128,
    sizes: Map<Seq<char>, u64>,
    reported: Map<Seq<char>, Signature>,
) -> Watch {
    let st = scan(entries, min_age, (sizes, reported, Seq::empty()));
    (st.0.restrict(present(entries)), st.1.restrict(present(entries)), st.2)
}

/// `out` holds the texts of `want`, reordered, and in lexicographic order.
pub open spec fn sorted_from(out: Seq<String>, want: Seq<Seq<char>>) -> bool {
    &&& crate::sort::sorted(out)
    &&& out.len() == want.len()
    &&& exists|perm: Seq<int>|
        crate::sort::is_permutation(perm, want.len() as int) && forall|k: int|
            0 <= k < out.len() ==> (#[trigger] out[k])@ == want[perm[k]]
}

/// Finds files in `dats/` that have stopped changing: modified at least the minimum
/// age ago and of the same length across two polls. Each file is reported once per
/// length and modification time, so a new file under a reused name is reported again.
#[derive(Debug)]
pub struct DatWatcher {
    min_age: u128,
    sizes: crate::assoc::Assoc<u64>,
    reported: crate::assoc::Assoc<Signature>,
}

impl DatWatcher {
    /// The minimum age in nanoseconds.
    pub closed spec fn min_age(&self) -> u128 {
        self.min_age
    }

    /// The length of each file at the last poll.
    pub closed spec fn sizes(&self) -> Map<Seq<char>, u64> {
        self.sizes.view()
    }

    /// The signature each file was last reported under.
    pub closed spec fn reported(&self) -> Map<Seq<char>, Signature> {
        self.reported.view()
    }

    /// A watcher that has seen nothing yet and holds each file until it is
    /// `min_age_nanos` nanoseconds old.
    pub fn new(min_age_nanos: u128) -> (w: DatWatcher)
        ensures
            w.min_age() == min_age_nanos,
            w.sizes() == Map::<Seq<char>, u64>::empty(),
            w.reported() == Map::<Seq<char>, Signature>::empty(),
    {
        DatWatcher {
            min_age: min_age_nanos,
            sizes: crate::assoc::Assoc::new(),
            reported: crate::assoc::Assoc::new(),
        }
    }

    /// Reports `path` again once it is stable, for a file whose import failed.
    pub fn forget(&mut self, path: &str)
        ensures
            final(self).min_age() == old(self).min_age(),
            final(self).sizes() == old(self).sizes(),
            final(self).reported() == old(self).reported().remove(path@),
    {
        self.reported.remove(path);
    }

    /// Takes one poll of `dats/`, listed as `entries`, and returns the watched files that
    /// became stable since the last one, sorted.
    pub fn observe(&mut self, entries: &Vec<Listed>) -> (out: Vec<String>)
        ensures
            ({
                let a = after_poll(entries@, old(self).min_age(), old(self).sizes(), old(self).reported());
                &&& final(self).min_age() == old(self).min_age()
                &&& final(self).sizes() == a.0
                &&& final(self).reported() == a.1
                &&& sorted_from(out@, a.2)
            }),
    {
        let ghost start: Watch = (self.sizes.view(), self.reported.view(), Seq::empty());
        let ghost min_age = self.min_age;
        let mut present_paths: Vec<String> = Vec::new();
        let mut stable: Vec<String> = Vec::new();
        let mut i: usize = 0;
        while i < entries.len()
            invariant
                i <= entries@.len(),
                self.min_age == min_age,
                scan(entries@.subrange(0, i as int), min_age, start) == (
                    self.sizes.view(),
                    self.reported.view(),
                    stable@.map_values(|t: String| t@),
                ),
                crate::assoc::texts(present_paths@) == present(entries@.subrange(0, i as int)),
            decreases entries.len() - i,
        {
            let ghost prefix = entries@.subrange(0, i as int);
            let ghost st = scan(prefix, min_age, start);
            let ghost next = entries@.subrange(0, i + 1);
            let ghost paths_before = present_paths@;
            proof {
                assert(next.drop_last() == prefix);
                assert(next.last() == entries@[i as int]);
            }
            let e = &entries[i];
            let n = e.name.as_str().unicode_len();
            let dotted = n > 0 && e.name.as_str().get_char(0) == '.';
            if e.is_file && !dotted {
                present_paths.push(e.path.clone());
                let old_enough = match e.age_nanos {
                    Some(a) => a >= self.min_age,
                    None => false,
                };
                let same = match self.sizes.get(e.path.as_str()) {
                    Some(l) => l == e.len,
                    None => false,
                };
                let seen = match self.reported.get(e.path.as_str()) {
                    Some(sig) => sig.0 == e.len && match (sig.1, e.modified) {
                        (Some(a), Some(b)) => a == b,
                        (None, None) => true,
                        _ => false,
                    },
                    None => false,
                };
                self.sizes.insert(e.path.clone(), e.len);
                if old_enough && same && !seen {
                    self.reported.insert(e.path.clone(), (e.len, e.modified));
                    stable.push(e.path.clone());
                }
                proof {
                    assert(stable@.map_values(|t: String| t@) =~= scan(next, min_age, start).2);
                }
            }
            proof {
                let pn = present(next);
                let pp = present(prefix);
                let tv = crate::assoc::texts(present_paths@);
                let tb = crate::assoc::texts(paths_before);
                assert forall|p: Seq<char>| pn.contains(p) implies #[trigger] tv.contains(p) by {
                    let j = choose|j: int| 0 <= j < next.len() && watched(next[j]) && (#[trigger] next[j]).path@ == p;
                    if j < i {
                        assert(prefix[j] == next[j]);
                        assert(pp.contains(p));
                        assert(tb.contains(p));
                        let m = choose|m: int| 0 <= m < paths_before.len() && (#[trigger] paths_before[m])@ == p;
                        assert(present_paths@[m] == paths_before[m]);
                    } else {
                        assert(present_paths@[present_paths@.len() - 1]@ == p);
                    }
                }
                assert forall|p: Seq<char>| tv.contains(p) implies #[trigger] pn.contains(p) by {
                    let m = choose|m: int| 0 <= m < present_paths@.len() && (#[trigger] present_paths@[m])@ == p;
                    if m < paths_before.len() {
                        assert(present_paths@[m] == paths_before[m]);
                        assert(tb.contains(p));
                        let j = choose|j: int| 0 <= j < prefix.len() && watched(prefix[j]) && (#[trigger] prefix[j]).path@ == p;
                        assert(next[j] == prefix[j]);
                    } else {
                        assert(watched(next[i as int]) && next[i as int].path@ == p);
                    }
                }
                assert(pn =~= tv);
            }
            i = i + 1;
        }
        proof {
            assert(entries@.subrange(0, entries@.len() as int) == entries@);
        }
        self.sizes.retain(&present_paths);
        self.reported.retain(&present_paths);
        let out = crate::sort::sort_texts(&stable);
        proof {
            let want = stable@.map_values(|t: String| t@);
            let perm = choose|perm: Seq<int>|
                crate::sort::is_permutation(perm, stable@.len() as int) && out@.len() == stable@.len()
                    && forall|k: int| 0 <= k < out@.len() ==> out@[k] == stable@[#[trigger] perm[k]];
            assert forall|k: int| 0 <= k < out@.len() implies (#[trigger] out@[k])@ == want[perm[k]] by {
                assert(out@[k] == stable@[perm[k]]);
            }
        }
        out
    }
}

/// No two watched entries share a path, as in one listing of a directory.
pub open spec fn distinct_paths(entries: Seq<Listed>) -> bool {
    forall|i: int, j: int|
        0 <= i < j < entries.len() && watched(entries[i]) && watched(entries[j]) ==> (
        #[trigger] entries[i]).path@ != (#[trigger] entries[j]).path@
}

/// Whether no watched entry has path `p`.
pub open spec fn unlisted(entries: Seq<Listed>, p: Seq<char>) -> bool {
    forall|i: int| 0 <= i < entries.len() && watched(#[trigger] entries[i]) ==> entries[i].path@ != p
}

/// Two watches agree at `p`.
pub open spec fn same_at(a: Watch, b: Watch, p: Seq<char>) -> bool {
    &&& a.0.contains_key(p) == b.0.contains_key(p)
    &&& a.0.contains_key(p) ==> a.0[p] == b.0[p]
    &&& a.1.contains_key(p) == b.1.contains_key(p)
    &&& a.1.contains_key(p) ==> a.1[p] == b.1[p]
    &&& a.2.contains(p) == b.2.contains(p)
}

proof fn lemma_push_contains(s: Seq<Seq<char>>, x: Seq<char>, p: Seq<char>)
    ensures
        s.push(x).contains(p) == (s.contains(p) || x == p),
{
    if s.push(x).contains(p) && x != p {
        let k = choose|k: int| 0 <= k < s.len() + 1 && s.push(x)[k] == p;
        assert(s[k] == p);
    }
    if s.contains(p) {
        let k = choose|k: int| 0 <= k < s.len() && s[k] == p;
        assert(s.push(x)[k] == p);
    }
    if x == p {
        assert(s.push(x)[s.len() as int] == p);
    }
}

/// A poll leaves a path that no watched entry has as it found it.
proof fn lemma_scan_frame(entries: Seq<Listed>, min_age: u128, st: Watch, p: Seq<char>)
    requires
        unlisted(entries, p),
    ensures
        same_at(scan(entries, min_age, st), st, p),
    decreases entries.len(),
{
    if entries.len() > 0 {
        let rest = entries.drop_last();
        assert forall|i: int| 0 <= i < rest.len() && watched(#[trigger] rest[i]) implies rest[i].path@ != p by {
            assert(rest[i] == entries[i]);
        }
        lemma_scan_frame(rest, min_age, st, p);
        let e = entries.last();
        assert(watched(e) ==> e.path@ != p);
        lemma_push_contains(scan(rest, min_age, st).2, e.path@, p);
    }
}

/// A path is reported by a poll only if some watched entry has it or it was reported
/// already.
proof fn lemma_scan_reported_listed(entries: Seq<Listed>, min_age: u128, st: Watch, p: Seq<char>)
    requires
        scan(entries, min_age, st).2.contains(p),
        !st.2.contains(p),
    ensures
        !unlisted(entries, p),
{
    if unlisted(entries, p) {
        lemma_scan_frame(entries, min_age, st, p);
    }
}

/// With distinct paths, what a poll does at the path of watched entry `i` depends on the
/// starting state at that path alone.
proof fn lemma_scan_at(entries: Seq<Listed>, min_age: u128, st: Watch, i: int)
    requires
        distinct_paths(entries),
        0 <= i < entries.len(),
        watched(entries[i]),
    ensures
        ({
            let e = entries[i];
            let p = e.path@;
            let out = scan(entries, min_age, st);
            &&& out.0.contains_key(p) && out.0[p] == e.len
            &&& reports(st, e, min_age) ==> out.1.contains_key(p) && out.1[p] == signature(e)
            &&& !reports(st, e, min_age) ==> (out.1.contains_key(p) == st.1.contains_key(p)
                && (st.1.contains_key(p) ==> out.1[p] == st.1[p]))
            &&& out.2.contains(p) == (st.2.contains(p) || reports(st, e, min_age))
        }),
    decreases entries.len(),
{
    let rest = entries.drop_last();
    let e = entries[i];
    let p = e.path@;
    let last = entries.last();
    if i < entries.len() - 1 {
        assert(rest[i] == e);
        assert forall|a: int, b: int|
            0 <= a < b < rest.len() && watched(rest[a]) && watched(rest[b]) implies (
            #[trigger] rest[a]).path@ != (#[trigger] rest[b]).path@ by {
            assert(rest[a] == entries[a] && rest[b] == entries[b]);
        }
        lemma_scan_at(rest, min_age, st, i);
        assert(watched(last) ==> last.path@ != p);
        let before = scan(rest, min_age, st);
        lemma_push_contains(before.2, last.path@, p);
    } else {
        assert(last == e);
        assert forall|k: int| 0 <= k < rest.len() && watched(#[trigger] rest[k]) implies rest[k].path@ != p by {
            assert(rest[k] == entries[k]);
        }
        lemma_scan_frame(rest, min_age, st, p);
        let before = scan(rest, min_age, st);
        assert(reports(before, e, min_age) == reports(st, e, min_age));
        lemma_push_contains(before.2, p, p);
    }
}

/// A file that one poll reports is not reported by the next poll of the same listing:
/// each file is reported once per length and modification time.
pub proof fn lemma_reported_once(
    entries: Seq<Listed>,
    min_age: u128,
    sizes: Map<Seq<char>, u64>,
    reported: Map<Seq<char>, Signature>,
    p: Seq<char>,
)
    requires
        distinct_paths(entries),
        after_poll(entries, min_age, sizes, reported).2.contains(p),
    ensures
        ({
            let first = after_poll(entries, min_age, sizes, reported);
            !after_poll(entries, min_age, first.0, first.1).2.contains(p)
        }),
{
    let st: Watch = (sizes, reported, Seq::empty());
    let first = after_poll(entries, min_age, sizes, reported);
    lemma_scan_reported_listed(entries, min_age, st, p);
    let i = choose|i: int| 0 <= i < entries.len() && watched(#[trigger] entries[i]) && entries[i].path@ == p;
    lemma_scan_at(entries, min_age, st, i);
    assert(present(entries).contains(p));
    let st2: Watch = (first.0, first.1, Seq::empty());
    lemma_scan_at(entries, min_age, st2, i);
}

/// The watcher's maps after the first `n` polls of `listings`, from `sizes` and `reported`.
pub open spec fn state_after(
    listings: Seq<Seq<Listed>>,
    min_age: u128,
    sizes: Map<Seq<char>, u64>,
    reported: Map<Seq<char>, Signature>,
    n: nat,
) -> (Map<Seq<char>, u64>, Map<Seq<char>, Signature>)
    decreases n,
{
    if n == 0 || n > listings.len() {
        (sizes, reported)
    } else {
        let before = state_after(listings, min_age, sizes, reported, (n - 1) as nat);
        let a = after_poll(listings[n - 1], min_age, before.0, before.1);
        (a.0, a.1)
    }
}

/// The paths poll `k` of `listings` reports.
pub open spec fn reported_in(
    listings: Seq<Seq<Listed>>,
    min_age: u128,
    sizes: Map<Seq<char>, u64>,
    reported: Map<Seq<char>, Signature>,
    k: nat,
) -> Seq<Seq<char>> {
    let before = state_after(listings, min_age, sizes, reported, k);
    after_poll(listings[k as int], min_age, before.0, before.1).2
}

/// `entries` lists a watched file at `p` with signature `sig`.
pub open spec fn lists_unchanged(entries: Seq<Listed>, p: Seq<char>, sig: Signature) -> bool {
    exists|i: int| 0 <= i < entries.len() && watched(#[trigger] entries[i]) && entries[i].path@ == p && signature(entries[i]) == sig
}

proof fn lemma_report_records(
    entries: Seq<Listed>,
    min_age: u128,
    sizes: Map<Seq<char>, u64>,
    reported: Map<Seq<char>, Signature>,
    i: int,
)
    requires
        distinct_paths(entries),
        0 <= i < entries.len(),
        watched(entries[i]),
        after_poll(entries, min_age, sizes, reported).2.contains(entries[i].path@),
    ensures
        ({
            let a = after_poll(entries, min_age, sizes, reported);
            a.1.contains_key(entries[i].path@) && a.1[entries[i].path@] == signature(entries[i])
        }),
{
    let st: Watch = (sizes, reported, Seq::empty());
    lemma_scan_at(entries, min_age, st, i);
    assert(present(entries).contains(entries[i].path@));
}

proof fn lemma_report_holds(
    entries: Seq<Listed>,
    min_age: u128,
    sizes: Map<Seq<char>, u64>,
    reported: Map<Seq<char>, Signature>,
    i: int,
)
    requires
        distinct_paths(entries),
        0 <= i < entries.len(),
        watched(entries[i]),
        reported.contains_key(entries[i].path@),
        reported[entries[i].path@] == signature(entries[i]),
    ensures
        ({
            let a = after_poll(entries, min_age, sizes, reported);
            &&& !a.2.contains(entries[i].path@)
            &&& a.1.contains_key(entries[i].path@) && a.1[entries[i].path@] == signature(entries[i])
        }),
{
    let st: Watch = (sizes, reported, Seq::empty());
    lemma_scan_at(entries, min_age, st, i);
    assert(!reports(st, entries[i], min_age));
    assert(present(entries).contains(entries[i].path@));
}

/// Across a series of polls, a file is reported once while it stays present and unchanged:
/// once poll `k` reports `p`, no later poll up to `m` reports it, as long as every listing
/// from `k` to `m` holds `p` with the same length and modification time `sig`.
pub proof fn lemma_reported_once_while_unchanged(
    listings: Seq<Seq<Listed>>,
    min_age: u128,
    sizes: Map<Seq<char>, u64>,
    reported: Map<Seq<char>, Signature>,
    p: Seq<char>,
    sig: Signature,
    k: nat,
    m: nat,
)
    requires
        k <= m < listings.len(),
        forall|j: int| 0 <= j < listings.len() ==> distinct_paths(#[trigger] listings[j]),
        forall|j: int| k <= j <= m ==> lists_unchanged(#[trigger] listings[j], p, sig),
        reported_in(listings, min_age, sizes, reported, k).contains(p),
    ensures
        forall|j: nat| k < j <= m ==> !(#[trigger] reported_in(listings, min_age, sizes, reported, j)).contains(p),
        state_after(listings, min_age, sizes, reported, (m + 1) as nat).1.contains_key(p),
        state_after(listings, min_age, sizes, reported, (m + 1) as nat).1[p] == sig,
    decreases m,
{
    let before = state_after(listings, min_age, sizes, reported, m);
    assert(lists_unchanged(listings[m as int], p, sig));
    let es = listings[m as int];
    let i = choose|i: int| 0 <= i < es.len() && watched(#[trigger] es[i]) && es[i].path@ == p && signature(es[i]) == sig;
    assert(state_after(listings, min_age, sizes, reported, (m + 1) as nat) == {
        let a = after_poll(es, min_age, before.0, before.1);
        (a.0, a.1)
    });
    if m == k {
        lemma_report_records(es, min_age, before.0, before.1, i);
    } else {
        lemma_reported_once_while_unchanged(listings, min_age, sizes, reported, p, sig, k, (m - 1) as nat);
        lemma_report_holds(es, min_age, before.0, before.1, i);
        assert forall|j: nat| k < j <= m implies !(#[trigger] reported_in(listings, min_age, sizes, reported, j)).contains(p) by {
            if j < m {
            }
        }
    }
}

/// Over any series of polls, poll `k` reports `p` only when the listing holds a regular,
/// visible file at `p` that is old enough, had the same length at the poll before, and
/// was not already reported with the same length and modification time.
pub proof fn lemma_reported_only_when_settled(
    listings: Seq<Seq<Listed>>,
    min_age: u128,
    sizes: Map<Seq<char>, u64>,
    reported: Map<Seq<char>, Signature>,
    k: nat,
    p: Seq<char>,
)
    requires
        k < listings.len(),
        distinct_paths(listings[k as int]),
        reported_in(listings, min_age, sizes, reported, k).contains(p),
    ensures
        ({
            let before = state_after(listings, min_age, sizes, reported, k);
            exists|i: int|
                #![trigger listings[k as int][i]]
                {
                    let e = listings[k as int][i];
                    &&& 0 <= i < listings[k as int].len()
                    &&& e.path@ == p
                    &&& watched(e)
                    &&& settled(e, min_age)
                    &&& before.0.contains_key(p) && before.0[p] == e.len
                    &&& !(before.1.contains_key(p) && before.1[p] == signature(e))
                }
        }),
{
    let before = state_after(listings, min_age, sizes, reported, k);
    let es = listings[k as int];
    let st: Watch = (before.0, before.1, Seq::empty());
    lemma_scan_reported_listed(es, min_age, st, p);
    let i = choose|i: int| 0 <= i < es.len() && watched(#[trigger] es[i]) && es[i].path@ == p;
    lemma_scan_at(es, min_age, st, i);
    assert(reports(st, es[i], min_age));
}

/// A file reported and then forgotten, as after a failed import, is reported again by
/// the next poll of the same listing; not forgotten, it is not.
pub proof fn lemma_forgotten_is_reported_again(
    entries: Seq<Listed>,
    min_age: u128,
    sizes: Map<Seq<char>, u64>,
    reported: Map<Seq<char>, Signature>,
    i: int,
)
    requires
        distinct_paths(entries),
        0 <= i < entries.len(),
        watched(entries[i]),
        after_poll(entries, min_age, sizes, reported).2.contains(entries[i].path@),
    ensures
        ({
            let first = after_poll(entries, min_age, sizes, reported);
            &&& after_poll(entries, min_age, first.0, first.1.remove(entries[i].path@)).2.contains(entries[i].path@)
            &&& !after_poll(entries, min_age, first.0, first.1).2.contains(entries[i].path@)
        }),
{
    let p = entries[i].path@;
    let st: Watch = (sizes, reported, Seq::empty());
    let first = after_poll(entries, min_age, sizes, reported);
    lemma_scan_at(entries, min_age, st, i);
    assert(present(entries).contains(p));
    assert(reports(st, entries[i], min_age));
    let st2: Watch = (first.0, first.1.remove(p), Seq::empty());
    lemma_scan_at(entries, min_age, st2, i);
    let st3: Watch = (first.0, first.1, Seq::empty());
    lemma_scan_at(entries, min_age, st3, i);
    assert(first.1.contains_key(p) && first.1[p] == signature(entries[i]));
    assert(!reports(st3, entries[i], min_age));
    assert(!st3.2.contains(p));
}

/// A poll reports each path at most once.
proof fn lemma_scan_no_dups(entries: Seq<Listed>, min_age: u128, st: Watch)
    requires
        distinct_paths(entries),
        st.2.len() == 0,
    ensures
        scan(entries, min_age, st).2.no_duplicates(),
    decreases entries.len(),
{
    if entries.len() > 0 {
        let rest = entries.drop_last();
        assert forall|a: int, b: int|
            0 <= a < b < rest.len() && watched(rest[a]) && watched(rest[b]) implies (#[trigger] rest[a]).path@
            != (#[trigger] rest[b]).path@ by {
            assert(rest[a] == entries[a] && rest[b] == entries[b]);
        }
        lemma_scan_no_dups(rest, min_age, st);
        let e = entries.last();
        let before = scan(rest, min_age, st);
        if watched(e) && reports(before, e, min_age) {
            if before.2.contains(e.path@) {
                lemma_scan_reported_listed(rest, min_age, st, e.path@);
                let j = choose|j: int| 0 <= j < rest.len() && watched(#[trigger] rest[j]) && rest[j].path@ == e.path@;
                assert(rest[j] == entries[j]);
                assert(entries[entries.len() - 1] == e);
            }
        }
    }
}

/// After a poll that reported `entries[i]` alone from a steady directory (every file had
/// the same length at the poll before), forgetting it makes the next poll of the same
/// listing report exactly that file.
pub proof fn lemma_forgotten_alone_is_reported_again(
    entries: Seq<Listed>,
    min_age: u128,
    sizes: Map<Seq<char>, u64>,
    reported: Map<Seq<char>, Signature>,
    i: int,
)
    requires
        distinct_paths(entries),
        0 <= i < entries.len(),
        watched(entries[i]),
        after_poll(entries, min_age, sizes, reported).2 == seq![entries[i].path@],
        forall|j: int| #![trigger entries[j]] 0 <= j < entries.len() && watched(entries[j]) ==> sizes.contains_key(
            entries[j].path@,
        ) && sizes[entries[j].path@] == entries[j].len,
    ensures
        ({
            let first = after_poll(entries, min_age, sizes, reported);
            after_poll(entries, min_age, first.0, first.1.remove(entries[i].path@)).2 == seq![entries[i].path@]
        }),
{
    let p = entries[i].path@;
    let st: Watch = (sizes, reported, Seq::empty());
    let first = after_poll(entries, min_age, sizes, reported);
    assert(first.2.contains(p)) by {
        assert(first.2[0] == p);
    }
    lemma_forgotten_is_reported_again(entries, min_age, sizes, reported, i);
    let st2: Watch = (first.0, first.1.remove(p), Seq::empty());
    let out = after_poll(entries, min_age, first.0, first.1.remove(p)).2;
    assert forall|q: Seq<char>| out.contains(q) implies q == p by {
        if q != p {
            lemma_scan_reported_listed(entries, min_age, st2, q);
            let j = choose|j: int| 0 <= j < entries.len() && watched(#[trigger] entries[j]) && entries[j].path@ == q;
            lemma_scan_at(entries, min_age, st2, j);
            lemma_scan_at(entries, min_age, st, j);
            assert(present(entries).contains(q));
            if reports(st, entries[j], min_age) {
                assert(first.2.contains(q));
                assert(first.2[0] == p);
            }
        }
    }
    lemma_scan_no_dups(entries, min_age, st2);
    assert(out.contains(p));
    if out.len() > 1 {
        assert(out.contains(out[0]) && out.contains(out[1]));
        assert(out[0] == p && out[1] == p);
    }
    assert(out =~= seq![p]) by {
        let k = choose|k: int| 0 <= k < out.len() && out[k] == p;
        assert(out.len() == 1);
        assert(out[0] == p);
    }
}

/// A watcher that has seen nothing reports no file at its first poll, and at its
/// second poll of the same listing reports every watched file that is old enough.
pub proof fn lemma_stable_at_second_poll(entries: Seq<Listed>, min_age: u128, i: int)
    requires
        distinct_paths(entries),
        0 <= i < entries.len(),
        watched(entries[i]),
        settled(entries[i], min_age),
    ensures
        ({
            let first = after_poll(entries, min_age, Map::empty(), Map::empty());
            &&& first.2.len() == 0
            &&& after_poll(entries, min_age, first.0, first.1).2.contains(entries[i].path@)
        }),
{
    let st: Watch = (Map::empty(), Map::empty(), Seq::empty());
    let first = after_poll(entries, min_age, Map::empty(), Map::empty());
    if first.2.len() > 0 {
        let p = first.2[0];
        assert(first.2.contains(p));
        lemma_scan_reported_listed(entries, min_age, st, p);
        let j = choose|j: int| 0 <= j < entries.len() && watched(#[trigger] entries[j]) && entries[j].path@ == p;
        lemma_scan_at(entries, min_age, st, j);
    }
    let p = entries[i].path@;
    lemma_scan_at(entries, min_age, st, i);
    assert(present(entries).contains(p));
    let st2: Watch = (first.0, first.1, Seq::empty());
    lemma_scan_at(entries, min_age, st2, i);
}

} // verus!

verus! {

/// A flag that hides a title from the 1G1R pick.
#[derive(Debug, Clone, Copy, PartialEq, Eq, Structural)]
pub enum HiddenFlag {
    /// BIOS images.
    Bios,
    /// Betas.
    Beta,
    /// Prototypes.
    Proto,
    /// Demos.
    Demo,
    /// Samples.
    Sample,
    /// Programs that are not games.
    Program,
}

/// The `[prefs]` section of the configuration.
#[derive(Debug, Clone, Default)]
pub struct PrefsConfig {
    /// Regions in order of preference.
    pub regions: Vec<String>,
    /// Languages in order of preference.
    pub languages: Vec<String>,
    /// Whether the latest revision wins over an earlier one.
    pub prefer_latest_revision: bool,
    /// Names of the flags that hide a title.
    pub hide: Vec<String>,
}

/// The 1G1R preferences a recompute runs under.
#[derive(Debug, Clone, PartialEq, Eq)]
pub struct Prefs {
    /// Regions in order of preference.
    pub regions: Vec<String>,
    /// Languages in order of preference.
    pub languages: Vec<String>,
    /// Whether the latest revision wins over an earlier one.
    pub prefer_latest_revision: bool,
    /// The flags that hide a title.
    pub hide: Vec<HiddenFlag>,
}

/// The flag a hide name selects, if it names one.
pub open spec fn hidden_flag_of(name: Seq<char>) -> Option<HiddenFlag> {
    if name == "bios"@ {
        Some(HiddenFlag::Bios)
    } else if name == "beta"@ {
        Some(HiddenFlag::Beta)
    } else if name == "proto"@ {
        Some(HiddenFlag::Proto)
    } else if name == "demo"@ {
        Some(HiddenFlag::Demo)
    } else if name == "sample"@ {
        Some(HiddenFlag::Sample)
    } else if name == "program"@ {
        Some(HiddenFlag::Program)
    } else {
        None
    }
}

/// The name a flag is hidden by in `[prefs] hide`: the flag's own name, in lowercase.
pub open spec fn flag_name(f: HiddenFlag) -> Seq<char> {
    match f {
        HiddenFlag::Bios => "bios"@,
        HiddenFlag::Beta => "beta"@,
        HiddenFlag::Proto => "proto"@,
        HiddenFlag::Demo => "demo"@,
        HiddenFlag::Sample => "sample"@,
        HiddenFlag::Program => "program"@,
    }
}

/// Each hide name selects the flag of the same name and no other, and a name that is no
/// flag's selects none.
pub proof fn lemma_hide_names_select_their_flag(name: Seq<char>, f: HiddenFlag)
    ensures
        hidden_flag_of(name) == Some(f) <==> name == flag_name(f),
        hidden_flag_of(name) is None <==> (forall|g: HiddenFlag| name != #[trigger] flag_name(g)),
{
    reveal_strlit("bios");
    reveal_strlit("beta");
    reveal_strlit("proto");
    reveal_strlit("demo");
    reveal_strlit("sample");
    reveal_strlit("program");
    assert("bios"@[1] != "beta"@[1]);
    assert("bios"@[0] != "proto"@[0] && "bios"@[0] != "demo"@[0] && "bios"@[0] != "sample"@[0]
        && "bios"@[0] != "program"@[0]);
    assert("beta"@[0] != "proto"@[0] && "beta"@[0] != "demo"@[0] && "beta"@[0] != "sample"@[0]
        && "beta"@[0] != "program"@[0]);
    assert("proto"@.len() != "program"@.len());
    assert("proto"@[0] != "demo"@[0] && "proto"@[0] != "sample"@[0]);
    assert("demo"@[0] != "sample"@[0] && "demo"@[0] != "program"@[0]);
    assert("sample"@[0] != "program"@[0]);
    match f {
        HiddenFlag::Bios => {},
        HiddenFlag::Beta => {},
        HiddenFlag::Proto => {},
        HiddenFlag::Demo => {},
        HiddenFlag::Sample => {},
        HiddenFlag::Program => {},
    }
    if hidden_flag_of(name) is None {
        assert forall|g: HiddenFlag| name != #[trigger] flag_name(g) by {
            match g {
                HiddenFlag::Bios => {},
                HiddenFlag::Beta => {},
                HiddenFlag::Proto => {},
                HiddenFlag::Demo => {},
                HiddenFlag::Sample => {},
                HiddenFlag::Program => {},
            }
        }
    } else {
        let g = hidden_flag_of(name)->0;
        assert(name == flag_name(g));
    }
}

/// The preferences hide a flag exactly when the hide list names it.
pub proof fn lemma_hide_list_selects_named_flags(names: Seq<String>, f: HiddenFlag)
    ensures
        hidden_flags_of(names).contains(f) <==> exists|i: int| 0 <= i < names.len() && (#[trigger] names[i])@ == flag_name(f),
    decreases names.len(),
{
    if names.len() > 0 {
        let rest = names.drop_last();
        lemma_hide_list_selects_named_flags(rest, f);
        lemma_hide_names_select_their_flag(names.last()@, f);
        let before = hidden_flags_of(rest);
        if exists|i: int| 0 <= i < rest.len() && (#[trigger] rest[i])@ == flag_name(f) {
            let i = choose|i: int| 0 <= i < rest.len() && (#[trigger] rest[i])@ == flag_name(f);
            assert(names[i] == rest[i]);
        }
        if exists|i: int| 0 <= i < names.len() && (#[trigger] names[i])@ == flag_name(f) {
            let i = choose|i: int| 0 <= i < names.len() && (#[trigger] names[i])@ == flag_name(f);
            if i < rest.len() {
                assert(rest[i] == names[i]);
            }
        }
        match hidden_flag_of(names.last()@) {
            Some(g) => {
                assert(hidden_flags_of(names) == before.push(g));
                if g != f {
                    assert(hidden_flags_of(names).contains(f) ==> before.contains(f)) by {
                        if hidden_flags_of(names).contains(f) {
                            let k = choose|k: int| 0 <= k < before.push(g).len() && before.push(g)[k] == f;
                            assert(k < before.len());
                            assert(before[k] == f);
                        }
                    }
                    assert(before.contains(f) ==> hidden_flags_of(names).contains(f)) by {
                        if before.contains(f) {
                            let k = choose|k: int| 0 <= k < before.len() && before[k] == f;
                            assert(before.push(g)[k] == f);
                        }
                    }
                } else {
                    assert(before.push(g)[before.len() as int] == f);
                    lemma_hide_names_select_their_flag(names.last()@, f);
                    assert(names[names.len() - 1] == names.last());
                }
            },
            None => {
                assert(hidden_flags_of(names) == before);
            },
        }
    }
}

/// The flags the hide names `names` select, in order; other names are ignored.
pub open spec fn hidden_flags_of(names: Seq<String>) -> Seq<HiddenFlag>
    decreases names.len(),
{
    if names.len() == 0 {
        Seq::empty()
    } else {
        let before = hidden_flags_of(names.drop_last());
        match hidden_flag_of(names.last()@) {
            Some(f) => before.push(f),
            None => before,
        }
    }
}

/// The flag a hide name selects.
fn hidden_flag(name: &str) -> (r: Option<HiddenFlag>)
    ensures
        r == hidden_flag_of(name@),
{
    if crate::text::str_is(name, "bios") {
        Some(HiddenFlag::Bios)
    } else if crate::text::str_is(name, "beta") {
        Some(HiddenFlag::Beta)
    } else if crate::text::str_is(name, "proto") {
        Some(HiddenFlag::Proto)
    } else if crate::text::str_is(name, "demo") {
        Some(HiddenFlag::Demo)
    } else if crate::text::str_is(name, "sample") {
        Some(HiddenFlag::Sample)
    } else if crate::text::str_is(name, "program") {
        Some(HiddenFlag::Program)
    } else {
        None
    }
}

/// The 1G1R preferences of `[prefs]`; hide names that are not selection flags are ignored.
pub fn prefs(cfg: &PrefsConfig) -> (p: Prefs)
    ensures
        p.regions@ == cfg.regions@,
        p.languages@ == cfg.languages@,
        p.prefer_latest_revision == cfg.prefer_latest_revision,
        p.hide@ == hidden_flags_of(cfg.hide@),
{
    let mut flags: Vec<HiddenFlag> = Vec::new();
    let mut i: usize = 0;
    while i < cfg.hide.len()
        invariant
            i <= cfg.hide@.len(),
            flags@ == hidden_flags_of(cfg.hide@.subrange(0, i as int)),
        decreases cfg.hide.len() - i,
    {
        proof {
            assert(cfg.hide@.subrange(0, i + 1).drop_last() == cfg.hide@.subrange(0, i as int));
            assert(cfg.hide@.subrange(0, i + 1).last() == cfg.hide@[i as int]);
        }
        match hidden_flag(cfg.hide[i].as_str()) {
            Some(f) => flags.push(f),
            None => {},
        }
        i = i + 1;
    }
    proof {
        assert(cfg.hide@.subrange(0, cfg.hide@.len() as int) == cfg.hide@);
    }
    Prefs {
        regions: copy_texts(&cfg.regions),
        languages: copy_texts(&cfg.languages),
        prefer_latest_revision: cfg.prefer_latest_revision,
        hide: flags,
    }
}

} // verus!

verus! {

/// How a recompute matches the stored rows `rels` again: on a disc platform (`disc`) a
/// row in a directory is classified with the other tracks of that directory; every
/// other row is matched on its own, as a cartridge file.
pub open spec fn on_its_own(disc: bool, rel: Seq<char>) -> bool {
    !disc || crate::jobs::scan::dir_of(rel) is None
}

/// The directories of the disc rows among `rels`, each once, in the order first seen.
pub open spec fn disc_dirs(disc: bool, rels: Seq<String>) -> Seq<Seq<char>>
    decreases rels.len(),
{
    if rels.len() == 0 {
        Seq::empty()
    } else {
        let before = disc_dirs(disc, rels.drop_last());
        let rel = rels.last()@;
        if !on_its_own(disc, rel) && !before.contains(crate::jobs::scan::dir_of(rel)->0) {
            before.push(crate::jobs::scan::dir_of(rel)->0)
        } else {
            before
        }
    }
}

/// The plan of a recompute over the rows `rels`: the indices of the rows matched on their
/// own, in order, and the directories whose tracks are classified together.
pub fn match_plan(disc: bool, rels: &Vec<String>) -> (r: (Vec<usize>, Vec<String>))
    ensures
        forall|k: int| 0 <= k < r.0@.len() ==> (#[trigger] r.0@[k]) < rels@.len(),
        forall|k: int, j: int| 0 <= k < j < r.0@.len() ==> r.0@[k] < r.0@[j],
        forall|i: int| 0 <= i < rels@.len() ==> (r.0@.contains(i as usize) <==> on_its_own(disc, (#[trigger] rels@[i])@)),
        crate::assoc::texts_seq(r.1@) == disc_dirs(disc, rels@),
{
    let mut own: Vec<usize> = Vec::new();
    let mut dirs: Vec<String> = Vec::new();
    let mut i: usize = 0;
    while i < rels.len()
        invariant
            i <= rels@.len(),
            forall|k: int| 0 <= k < own@.len() ==> (#[trigger] own@[k]) < i,
            forall|k: int, j: int| 0 <= k < j < own@.len() ==> own@[k] < own@[j],
            forall|a: int| 0 <= a < i ==> (own@.contains(a as usize) <==> on_its_own(disc, (#[trigger] rels@[a])@)),
            crate::assoc::texts_seq(dirs@) == disc_dirs(disc, rels@.subrange(0, i as int)),
        decreases rels.len() - i,
    {
        proof {
            assert(rels@.subrange(0, i + 1).drop_last() == rels@.subrange(0, i as int));
            assert(rels@.subrange(0, i + 1).last() == rels@[i as int]);
        }
        let dir = if disc {
            crate::jobs::scan::dir_part(rels[i].as_str())
        } else {
            None
        };
        let ghost before = own@;
        match dir {
            Some(d) => {
                let mut known = false;
                let mut k: usize = 0;
                while k < dirs.len()
                    invariant
                        k <= dirs@.len(),
                        known == crate::assoc::texts_seq(dirs@).subrange(0, k as int).contains(d@),
                    decreases dirs.len() - k,
                {
                    proof {
                        let a = crate::assoc::texts_seq(dirs@).subrange(0, k as int);
                        let b = crate::assoc::texts_seq(dirs@).subrange(0, k + 1);
                        assert(b == a.push(dirs@[k as int]@));
                        if a.contains(d@) {
                            let w = choose|w: int| 0 <= w < a.len() && a[w] == d@;
                            assert(b[w] == d@);
                        }
                        if b.contains(d@) && dirs@[k as int]@ != d@ {
                            let w = choose|w: int| 0 <= w < b.len() && b[w] == d@;
                            assert(a[w] == d@);
                        }
                        if dirs@[k as int]@ == d@ {
                            assert(b[k as int] == d@);
                        }
                    }
                    if crate::text::str_is(dirs[k].as_str(), d) {
                        known = true;
                    }
                    k = k + 1;
                }
                proof {
                    assert(crate::assoc::texts_seq(dirs@).subrange(0, dirs@.len() as int) == crate::assoc::texts_seq(dirs@));
                }
                if !known {
                    let ghost prev = dirs@;
                    dirs.push(d.to_string());
                    proof {
                        assert(crate::assoc::texts_seq(dirs@) =~= crate::assoc::texts_seq(prev).push(d@));
                    }
                }
            },
            None => {
                own.push(i);
            },
        }
        proof {
            assert forall|a: int| 0 <= a < i + 1 implies (own@.contains(a as usize) <==> on_its_own(disc, (#[trigger] rels@[a])@)) by {
                if a < i {
                    if own@.contains(a as usize) {
                        let w = choose|w: int| 0 <= w < own@.len() && own@[w] == a as usize;
                        if w < before.len() {
                            assert(before[w] == a as usize);
                        }
                    }
                    if before.contains(a as usize) {
                        let w = choose|w: int| 0 <= w < before.len() && before[w] == a as usize;
                        assert(own@[w] == a as usize);
                    }
                } else {
                    if dir is None {
                        assert(own@[before.len() as int] == i);
                    } else if own@.contains(a as usize) {
                        let w = choose|w: int| 0 <= w < own@.len() && own@[w] == a as usize;
                        assert(before[w] < i);
                    }
                }
            }
        }
        i = i + 1;
    }
    proof {
        assert(rels@.subrange(0, rels@.len() as int) == rels@);
    }
    (own, dirs)
}

/// Whether a recompute writes a row that had rom `old_rom` and state `old_state` and now
/// has `rom` and `state`: only when either differs, so one that changes nothing writes
/// nothing.
pub fn needs_write(old_rom: Option<i64>, old_state: FileState, rom: Option<i64>, state: FileState) -> (r: bool)
    ensures
        r == !(old_rom == rom && old_state == state),
{
    !(old_rom == rom && old_state == state)
}

} // verus!
