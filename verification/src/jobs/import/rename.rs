//! Renaming a misnamed file in place: which files may be renamed, the name the
//! placement plan gives, and how a failed move is reported.

use vstd::prelude::*;
use crate::jobs::import::place::{PlaceError, place_text};
use crate::jobs::scan::{FileState, state_name};

verus! {

/// Why a rename request was not carried out, for the API to report.
#[derive(Debug)]
pub enum RenameError {
    /// No such file, or it is not in the title's clone group.
    NotFound,
    /// The file is not `misnamed`, lives in a zip, or needs more than a rename.
    Refused(String),
    /// Another file already has the canonical name.
    Conflict(String),
    /// Reading or moving the file failed.
    Io(String),
    /// A server failure, with its text.
    Server(String),
}

/// The text of a rename error.
pub open spec fn rename_text(e: RenameError) -> Seq<char> {
    match e {
        RenameError::NotFound => "no such file in this title"@,
        RenameError::Refused(m) => m@,
        RenameError::Conflict(p) => "`"@ + p@ + "` already exists"@,
        RenameError::Io(m) => m@,
        RenameError::Server(m) => m@,
    }
}

impl RenameError {
    /// What went wrong, as the API reports it.
    pub fn message(&self) -> (m: String)
        ensures
            m@ == rename_text(*self),
    {
        match self {
            RenameError::NotFound => "no such file in this title".to_string(),
            RenameError::Refused(m) => m.clone(),
            RenameError::Conflict(p) => {
                let a = crate::text::concat("`", p.as_str());
                crate::text::concat(a.as_str(), "` already exists")
            },
            RenameError::Io(m) => m.clone(),
            RenameError::Server(m) => m.clone(),
        }
    }
}

/// Why a zip member is not renamed.
pub const IN_A_ZIP: &'static str = "a file inside a zip cannot be renamed in place";

/// Why a file whose rom left its DAT is not renamed.
pub const ROM_RETIRED: &'static str = "the file's rom is retired from its DAT";

/// Why a plan that does more than rename is not carried out.
pub const MORE_THAN_A_RENAME: &'static str = "the file needs more than a new name to load; import it again instead";

/// Why a plan without a rename is not carried out.
pub const NO_NAME: &'static str = "the adapter gave no name";

/// Why a file that already has its name is not renamed.
pub const ALREADY_NAMED: &'static str = "the file already has its canonical name";

/// The DAT entry of a file's title as a rename needs it.
#[derive(Debug, Clone, Copy, PartialEq, Eq, Structural)]
pub struct EntryFacts {
    /// The entry is a BIOS.
    pub bios: bool,
    /// The entry still lists the file's rom.
    pub lists_rom: bool,
}

/// Whether a file in `state` at `rel_path` whose title entry is `entry` may be renamed:
/// only a `misnamed` file outside any zip, of a known entry that is no BIOS and still
/// lists its rom, in that order of checks. `Err(None)` where the entry is unknown,
/// `Err(Some(why))` for a refusal.
pub open spec fn subject_verdict(state: FileState, rel_path: Seq<char>, entry: Option<EntryFacts>) -> Result<(), Option<Seq<char>>> {
    if state != FileState::Misnamed {
        Err(Some("the file is "@ + state_name(state) + ", not misnamed"@))
    } else if rel_path.contains('#') {
        Err(Some(IN_A_ZIP@))
    } else {
        match entry {
            None => Err(None),
            Some(e) => if e.bios {
                Err(Some(crate::jobs::import::BIOS_REFUSED@))
            } else if !e.lists_rom {
                Err(Some(ROM_RETIRED@))
            } else {
                Ok(())
            },
        }
    }
}

/// Whether `s` holds `c`.
fn has_char(s: &str, c: char) -> (r: bool)
    ensures
        r == s@.contains(c),
{
    let n = s.unicode_len();
    let mut i: usize = 0;
    while i < n
        invariant
            i <= n,
            n == s@.len(),
            forall|j: int| 0 <= j < i ==> s@[j] != c,
        decreases n - i,
    {
        if s.get_char(i) == c {
            return true;
        }
        i = i + 1;
    }
    false
}

/// Checks that the file may be renamed; see [`subject_verdict`]. An unknown entry is
/// `NotFound`, every other refusal `Refused` with its reason.
pub fn check_subject(state: FileState, rel_path: &str, entry: Option<EntryFacts>) -> (r: Result<(), RenameError>)
    ensures
        match subject_verdict(state, rel_path@, entry) {
            Ok(()) => r is Ok,
            Err(None) => r matches Err(RenameError::NotFound),
            Err(Some(why)) => r matches Err(RenameError::Refused(m)) && m@ == why,
        },
{
    if state != FileState::Misnamed {
        let a = crate::text::concat("the file is ", crate::jobs::scan::state_str(state));
        return Err(RenameError::Refused(crate::text::concat(a.as_str(), ", not misnamed")));
    }
    if has_char(rel_path, '#') {
        return Err(RenameError::Refused(IN_A_ZIP.to_string()));
    }
    match entry {
        None => Err(RenameError::NotFound),
        Some(e) => {
            if e.bios {
                Err(RenameError::Refused(crate::jobs::import::BIOS_REFUSED.to_string()))
            } else if !e.lists_rom {
                Err(RenameError::Refused(ROM_RETIRED.to_string()))
            } else {
                Ok(())
            }
        },
    }
}

/// One step of a placement plan, as a rename reads it.
#[derive(Debug, Clone)]
pub enum PlanStep {
    /// Rename the file to this path under `games/`.
    Rename(String),
    /// Create a directory.
    CreateDir,
    /// Anything else: a header change, an extraction, a move from staging.
    Other,
}

/// The target a plan of `steps` renames the file to: the last rename among renames and
/// directory creations; a plan with another step, or without a rename, is refused.
pub open spec fn plan_target(steps: Seq<PlanStep>) -> Result<Seq<char>, Seq<char>> {
    if exists|i: int| 0 <= i < steps.len() && (#[trigger] steps[i]) is Other {
        Err(MORE_THAN_A_RENAME@)
    } else {
        match last_rename(steps) {
            Some(t) => Ok(t),
            None => Err(NO_NAME@),
        }
    }
}

/// The target of the last rename among `steps`.
pub open spec fn last_rename(steps: Seq<PlanStep>) -> Option<Seq<char>>
    decreases steps.len(),
{
    if steps.len() == 0 {
        None
    } else {
        match steps.last() {
            PlanStep::Rename(t) => Some(t@),
            _ => last_rename(steps.drop_last()),
        }
    }
}

/// The library path a plan renames the file to; see [`plan_target`].
pub fn rename_target(steps: &Vec<PlanStep>) -> (r: Result<String, RenameError>)
    ensures
        match plan_target(steps@) {
            Ok(t) => r matches Ok(p) && p@ == t,
            Err(why) => r matches Err(RenameError::Refused(m)) && m@ == why,
        },
{
    let mut target: Option<String> = None;
    let mut i: usize = 0;
    while i < steps.len()
        invariant
            i <= steps@.len(),
            forall|j: int| 0 <= j < i ==> !(#[trigger] steps@[j] is Other),
            match last_rename(steps@.subrange(0, i as int)) {
                Some(t) => target matches Some(p) && p@ == t,
                None => target is None,
            },
        decreases steps.len() - i,
    {
        proof {
            assert(steps@.subrange(0, i + 1).drop_last() == steps@.subrange(0, i as int));
            assert(steps@.subrange(0, i + 1).last() == steps@[i as int]);
        }
        match &steps[i] {
            PlanStep::Rename(to) => {
                target = Some(to.clone());
            },
            PlanStep::CreateDir => {},
            PlanStep::Other => {
                return Err(RenameError::Refused(MORE_THAN_A_RENAME.to_string()));
            },
        }
        i = i + 1;
    }
    proof {
        assert(steps@.subrange(0, steps@.len() as int) == steps@);
    }
    match target {
        Some(t) => Ok(t),
        None => Err(RenameError::Refused(NO_NAME.to_string())),
    }
}

/// Whether the rename from `from_rel` to `to_rel` may go ahead: a file that already has
/// its name is refused, and a name another file's row holds and a file on disk takes
/// is a conflict.
pub fn check_target(from_rel: &str, to_rel: &str, row_taken: bool, on_disk: bool) -> (r: Result<(), RenameError>)
    ensures
        from_rel@ == to_rel@ ==> (r matches Err(RenameError::Refused(m)) && m@ == ALREADY_NAMED@),
        from_rel@ != to_rel@ && row_taken && on_disk ==> (r matches Err(RenameError::Conflict(p)) && p@ == to_rel@),
        from_rel@ != to_rel@ && !(row_taken && on_disk) ==> r is Ok,
{
    if crate::text::str_is(from_rel, to_rel) {
        return Err(RenameError::Refused(ALREADY_NAMED.to_string()));
    }
    if row_taken && on_disk {
        return Err(RenameError::Conflict(to_rel.to_string()));
    }
    Ok(())
}

/// How a failed move to `to_rel` is reported: a taken name is a conflict, a path outside
/// the library a refusal, anything else a failed read or write, each with the move's
/// error text.
pub fn move_failure(e: &PlaceError, to_rel: &str) -> (r: RenameError)
    ensures
        match *e {
            PlaceError::Exists(_) => r matches RenameError::Conflict(p) && p@ == to_rel@,
            PlaceError::Outside(_) => r matches RenameError::Refused(m) && m@ == place_text(*e, Seq::empty()),
            PlaceError::Io { .. } => r matches RenameError::Io(m) && exists|d: Seq<char>| m@ == place_text(*e, d),
            _ => r matches RenameError::Io(m) && m@ == place_text(*e, Seq::empty()),
        },
{
    match e {
        PlaceError::Exists(_) => RenameError::Conflict(to_rel.to_string()),
        PlaceError::Outside(_) => RenameError::Refused(e.message()),
        _ => RenameError::Io(e.message()),
    }
}

} // verus!
