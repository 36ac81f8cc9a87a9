//! Importing downloaded files into `games/`: placement paths, matching, renames and
//! the import job.

pub mod mra;
pub mod place;
pub mod rename;
pub mod report;
pub mod support;

use vstd::prelude::*;
use crate::jobs::Lane;
use crate::jobs::scan::FileState;
use crate::jobs::import::support::spec_leaf;

verus! {

/// `jobs.kind` of [`ImportJob`].
pub const KIND: &'static str = "import";

/// Why a BIOS entry is never imported.
pub const BIOS_REFUSED: &'static str = "BIOS entries are never imported";

/// Why a staged file outside the staging directory is not imported.
pub const OUTSIDE_STAGING: &'static str = "the staged file is outside the staging directory";

/// Imports one download in `importing`; a disc entry's tracks are imported together.
#[derive(Debug, Clone, Copy, PartialEq, Eq, Structural)]
pub struct ImportJob {
    /// The download to import.
    pub download_id: i64,
}

impl ImportJob {
    /// The job's kind.
    pub fn kind(&self) -> (k: &'static str)
        ensures
            k@ == KIND@,
    {
        KIND
    }

    /// The lane imports run on.
    pub fn lane(&self) -> (l: Lane)
        ensures
            l == Lane::Heavy,
    {
        Lane::Heavy
    }
}

/// What the import watcher does when a download changes state.
#[derive(Debug, Clone, Copy, PartialEq, Eq, Structural)]
pub enum Reaction {
    /// The download entered `importing`: queue its import.
    Enqueue,
    /// The download failed or was cancelled: wake the tracks of its entry waiting on it.
    WakeSiblings,
    /// Nothing to do.
    Ignore,
}

/// What the watcher does with a `download.changed` event whose state is `state`.
pub fn reaction(state: Option<&str>) -> (r: Reaction)
    ensures
        r == match state {
            Some(s) => if s@ == "importing"@ {
                Reaction::Enqueue
            } else if s@ == "failed"@ || s@ == "cancelled"@ {
                Reaction::WakeSiblings
            } else {
                Reaction::Ignore
            },
            None => Reaction::Ignore,
        },
{
    match state {
        Some(s) => {
            if crate::text::str_is(s, "importing") {
                Reaction::Enqueue
            } else if crate::text::str_is(s, "failed") || crate::text::str_is(s, "cancelled") {
                Reaction::WakeSiblings
            } else {
                Reaction::Ignore
            }
        },
        None => Reaction::Ignore,
    }
}

/// The state the scanner would give a placed payload: the state its piece was given,
/// else `bad` for a bad dump, `misnamed` for a member of a whole zip whose last name
/// component is not its rom's, and `verified` otherwise.
pub open spec fn placed_state_of(
    given: Option<FileState>,
    member: Option<Seq<char>>,
    rom_name: Seq<char>,
    rom_status: Seq<char>,
    whole_zip: bool,
) -> FileState {
    match given {
        Some(s) => s,
        None => {
            let named = match member {
                Some(m) => spec_leaf(m) == spec_leaf(rom_name),
                None => true,
            };
            if rom_status == crate::jobs::scan::baddump() {
                FileState::Bad
            } else if whole_zip && !named {
                FileState::Misnamed
            } else {
                FileState::Verified
            }
        },
    }
}

/// The state the scanner would give a placed payload; see [`placed_state_of`].
pub fn placed_state(
    given: Option<FileState>,
    member: Option<&str>,
    rom_name: &str,
    rom_status: &str,
    whole_zip: bool,
) -> (s: FileState)
    ensures
        s == placed_state_of(
            given,
            match member {
                Some(m) => Some(m@),
                None => None,
            },
            rom_name@,
            rom_status@,
            whole_zip,
        ),
{
    if let Some(s) = given {
        return s;
    }
    let named = match member {
        Some(m) => crate::text::str_is(crate::jobs::import::support::leaf(m), crate::jobs::import::support::leaf(rom_name)),
        None => true,
    };
    let bad = crate::text::str_is(rom_status, "baddump");
    proof {
        reveal_strlit("baddump");
        assert("baddump"@ == crate::jobs::scan::baddump());
    }
    if bad {
        FileState::Bad
    } else if whole_zip && !named {
        FileState::Misnamed
    } else {
        FileState::Verified
    }
}

} // verus!

verus! {

/// What happens at one rename target of a placement.
#[derive(Debug, Clone, Copy, PartialEq, Eq, Structural)]
pub enum TargetAction {
    /// Nothing is there: place the payload.
    Place,
    /// Something is there that is not verified: replace it, noting the first stored row.
    Replace,
    /// Verified files are there already: keep them, noting the first stored row.
    Skip,
}

/// The action at a target where a file exists (`exists`) and whose stored rows have the
/// states `rows` (the zip's member rows for a whole zip): keep what is there when every
/// row is verified, replace it when it exists otherwise, else place.
pub open spec fn target_action_of(exists: bool, rows: Seq<FileState>) -> TargetAction {
    if exists && rows.len() > 0 && forall|i: int| 0 <= i < rows.len() ==> #[trigger] rows[i] == FileState::Verified {
        TargetAction::Skip
    } else if exists {
        TargetAction::Replace
    } else {
        TargetAction::Place
    }
}

/// The action at one rename target; see [`target_action_of`].
pub fn target_action(exists: bool, rows: &Vec<FileState>) -> (a: TargetAction)
    ensures
        a == target_action_of(exists, rows@),
{
    if !exists {
        return TargetAction::Place;
    }
    let mut verified = rows.len() > 0;
    let mut i: usize = 0;
    while i < rows.len()
        invariant
            i <= rows@.len(),
            verified == (rows@.len() > 0 && forall|k: int| 0 <= k < i ==> #[trigger] rows@[k] == FileState::Verified),
        decreases rows.len() - i,
    {
        if rows[i] != FileState::Verified {
            verified = false;
        }
        i = i + 1;
    }
    if verified {
        TargetAction::Skip
    } else {
        TargetAction::Replace
    }
}

/// The name a payload has in staging once any unzip ran: the last component of its zip
/// member, or else the name of the staged file it came from.
pub fn staged_name<'a>(member: Option<&'a str>, source_name: &'a str) -> (r: &'a str)
    ensures
        r@ == match member {
            Some(m) => spec_leaf(m@),
            None => source_name@,
        },
{
    match member {
        Some(m) => crate::jobs::import::support::leaf(m),
        None => source_name,
    }
}

/// Whether a target moved from a file named `from_name` owns a piece whose staged name is
/// `staged`: a whole zip owns every piece, a lone piece is owned, and otherwise the piece
/// staged under the target's own name.
pub open spec fn owns(whole_zip: bool, count: int, from_name: Option<Seq<char>>, staged: Seq<char>) -> bool {
    whole_zip || count == 1 || from_name == Some(staged)
}

/// The pieces whose rows a target writes, by index into `staged_names` (the staged name
/// of each piece): every piece for a whole zip, one row per member; otherwise the first
/// piece the target owns, if any.
pub fn target_pieces(whole_zip: bool, from_name: Option<&str>, staged_names: &Vec<String>) -> (v: Vec<usize>)
    ensures
        whole_zip ==> v@.len() == staged_names@.len() && forall|k: int| 0 <= k < v@.len() ==> v@[k] == k,
        !whole_zip && v@.len() == 0 ==> forall|k: int|
                0 <= k < staged_names@.len() ==> !owns(
                    false,
                    staged_names@.len() as int,
                    match from_name {
                        Some(f) => Some(f@),
                        None => None,
                    },
                    (#[trigger] staged_names@[k])@,
                ),
        !whole_zip ==> v@.len() <= 1,
        !whole_zip && v@.len() == 1 ==> {
                let j = v@[0] as int;
                &&& 0 <= j < staged_names@.len()
                &&& owns(
                    false,
                    staged_names@.len() as int,
                    match from_name {
                        Some(f) => Some(f@),
                        None => None,
                    },
                    staged_names@[j]@,
                )
                &&& forall|k: int|
                    0 <= k < j ==> !owns(
                        false,
                        staged_names@.len() as int,
                        match from_name {
                            Some(f) => Some(f@),
                            None => None,
                        },
                        (#[trigger] staged_names@[k])@,
                    )
            },
{
    let ghost from = match from_name {
        Some(f) => Some(f@),
        None => None,
    };
    let n = staged_names.len();
    let mut v: Vec<usize> = Vec::new();
    let mut i: usize = 0;
    if whole_zip {
        while i < n
            invariant
                i <= n,
                n == staged_names@.len(),
                v@.len() == i,
                forall|k: int| 0 <= k < i ==> v@[k] == k,
            decreases n - i,
        {
            v.push(i);
            i = i + 1;
        }
        return v;
    }
    while i < n
        invariant
            i <= n,
            n == staged_names@.len(),
            !whole_zip,
            from == match from_name {
                Some(f) => Some(f@),
                None => None,
            },
            forall|k: int| 0 <= k < i ==> !owns(false, n as int, from, (#[trigger] staged_names@[k])@),
            v@.len() == 0,
        decreases n - i,
    {
        let owned = n == 1 || match from_name {
            Some(f) => crate::text::str_is(staged_names[i].as_str(), f),
            None => false,
        };
        if owned {
            v.push(i);
            return v;
        }
        i = i + 1;
    }
    v
}

/// The stored path of member `member` of the zip placed at `rel`: `rel#member`.
pub fn member_rel(rel: &str, member: Option<&str>) -> (s: String)
    ensures
        s@ == rel@ + seq!['#'] + match member {
            Some(m) => m@,
            None => Seq::empty(),
        },
{
    let head = crate::text::concat(rel, "#");
    proof {
        reveal_strlit("#");
        reveal_strlit("");
    }
    match member {
        Some(m) => crate::text::concat(head.as_str(), m),
        None => crate::text::concat(head.as_str(), ""),
    }
}

/// The stored member rows of a whole zip that no placed piece keeps, by index into
/// `old`: they are deleted.
pub fn stale_members(old: &Vec<String>, keep: &Vec<String>) -> (v: Vec<usize>)
    ensures
        forall|k: int| 0 <= k < v@.len() ==> (#[trigger] v@[k]) < old@.len(),
        forall|k: int, j: int| 0 <= k < j < v@.len() ==> v@[k] < v@[j],
        forall|i: int|
            0 <= i < old@.len() ==> (v@.contains(i as usize) <==> !crate::assoc::texts(keep@).contains(
                (#[trigger] old@[i])@,
            )),
{
    let mut v: Vec<usize> = Vec::new();
    let mut i: usize = 0;
    while i < old.len()
        invariant
            i <= old@.len(),
            forall|k: int| 0 <= k < v@.len() ==> (#[trigger] v@[k]) < i,
            forall|k: int, j: int| 0 <= k < j < v@.len() ==> v@[k] < v@[j],
            forall|a: int|
                0 <= a < i ==> (v@.contains(a as usize) <==> !crate::assoc::texts(keep@).contains(
                    (#[trigger] old@[a])@,
                )),
        decreases old.len() - i,
    {
        let mut kept = false;
        let mut j: usize = 0;
        while j < keep.len()
            invariant
                j <= keep@.len(),
                i < old@.len(),
                kept == exists|m: int| 0 <= m < j && (#[trigger] keep@[m])@ == old@[i as int]@,
            decreases keep.len() - j,
        {
            if crate::text::string_eq(&keep[j], &old[i]) {
                kept = true;
            }
            j = j + 1;
        }
        proof {
            assert(kept == crate::assoc::texts(keep@).contains(old@[i as int]@));
        }
        let ghost before = v@;
        if !kept {
            v.push(i);
        }
        proof {
            assert forall|a: int|
                0 <= a < i + 1 implies (v@.contains(a as usize) <==> !crate::assoc::texts(keep@).contains(
                    (#[trigger] old@[a])@,
                )) by {
                if a < i {
                    if v@.contains(a as usize) {
                        let w = choose|w: int| 0 <= w < v@.len() && v@[w] == a as usize;
                        if w < before.len() {
                            assert(before[w] == a as usize);
                        }
                    }
                    if before.contains(a as usize) {
                        let w = choose|w: int| 0 <= w < before.len() && before[w] == a as usize;
                        assert(v@[w] == a as usize);
                    }
                } else {
                    if !kept {
                        assert(v@[before.len() as int] == i);
                    } else {
                        if v@.contains(a as usize) {
                            let w = choose|w: int| 0 <= w < v@.len() && v@[w] == a as usize;
                            assert(before[w] < i);
                        }
                    }
                }
            }
        }
        i = i + 1;
    }
    v
}

/// Whether a source's torrent leaves the client once an import is done: no download of it
/// is still open (`busy`), one is done (`done`), and its seed policy is `none`.
pub fn should_release(busy: usize, done: usize, seed_none: bool) -> (r: bool)
    ensures
        r == (busy == 0 && done > 0 && seed_none),
{
    busy == 0 && done > 0 && seed_none
}

} // verus!

verus! {

/// Whether some staged download is for rom `rom`.
pub open spec fn staged_for(staged: Seq<i64>, rom: i64) -> bool {
    exists|j: int| 0 <= j < staged.len() && staged[j] == rom
}

/// How many of the entry's roms `roms` have a staged download among `staged`.
pub open spec fn covered_count(roms: Seq<i64>, staged: Seq<i64>) -> nat
    decreases roms.len(),
{
    if roms.len() == 0 {
        0
    } else {
        covered_count(roms.drop_last(), staged) + if staged_for(staged, roms.last()) { 1nat } else { 0nat }
    }
}

/// What a disc import does before it reads a track.
#[derive(Debug, Clone, PartialEq, Eq)]
pub enum DiscStart {
    /// Every track is staged: place them together.
    Place,
    /// Some tracks are still on their way: wait for them.
    Wait,
    /// Tracks are missing and none is on its way: fail the staged ones with this reason.
    Fail(String),
}

/// The reason a disc entry's staged tracks fail when the others never arrive.
pub open spec fn missing_tracks_text(covered: nat, total: nat) -> Seq<char> {
    "only "@ + crate::jobs::dat_import::decimal(covered) + " of the "@ + crate::jobs::dat_import::decimal(total)
        + " tracks of this entry are staged; they stay in staging"@
}

/// How a disc import starts, given the ids of the entry's roms (`roms`), the roms of its
/// downloads now staged (`staged`), and whether any download of it is still wanted,
/// queued, transferring or checking (`in_flight`): every rom staged places; otherwise
/// it waits while one is in flight and fails the staged ones when none is.
pub fn disc_start(roms: &Vec<i64>, staged: &Vec<i64>, in_flight: bool) -> (r: DiscStart)
    ensures
        match r {
            DiscStart::Place => roms@.len() > 0 && covered_count(roms@, staged@) == roms@.len(),
            DiscStart::Wait => !(roms@.len() > 0 && covered_count(roms@, staged@) == roms@.len()) && in_flight,
            DiscStart::Fail(why) => !(roms@.len() > 0 && covered_count(roms@, staged@) == roms@.len()) && !in_flight
                && why@ == missing_tracks_text(covered_count(roms@, staged@), roms@.len()),
        },
{
    let mut covered: usize = 0;
    let mut i: usize = 0;
    while i < roms.len()
        invariant
            i <= roms@.len(),
            covered == covered_count(roms@.subrange(0, i as int), staged@),
            covered <= i,
        decreases roms.len() - i,
    {
        proof {
            assert(roms@.subrange(0, i + 1).drop_last() == roms@.subrange(0, i as int));
            assert(roms@.subrange(0, i + 1).last() == roms@[i as int]);
        }
        let mut found = false;
        let mut j: usize = 0;
        while j < staged.len()
            invariant
                j <= staged@.len(),
                i < roms@.len(),
                found == exists|k: int| 0 <= k < j && staged@[k] == roms@[i as int],
            decreases staged.len() - j,
        {
            if staged[j] == roms[i] {
                found = true;
            }
            j = j + 1;
        }
        if found {
            covered = covered + 1;
        }
        i = i + 1;
    }
    proof {
        assert(roms@.subrange(0, roms@.len() as int) == roms@);
    }
    if roms.len() > 0 && covered == roms.len() {
        return DiscStart::Place;
    }
    if in_flight {
        return DiscStart::Wait;
    }
    let a = crate::text::concat("only ", crate::jobs::import::report::decimal_text(covered as u64).as_str());
    let b = crate::text::concat(a.as_str(), " of the ");
    let c = crate::text::concat(b.as_str(), crate::jobs::import::report::decimal_text(roms.len() as u64).as_str());
    let why = crate::text::concat(c.as_str(), " tracks of this entry are staged; they stay in staging");
    DiscStart::Fail(why)
}

/// The reason a romset download that is not a zip fails.
pub const ROMSET_NOT_A_ZIP: &'static str = "a romset is imported from a zip";

/// The reason a romset download whose members do not match its entry fails.
pub const ROMSET_NOT_VERIFIED: &'static str = "the romset did not verify and was quarantined";

/// What a romset import (a zip placed whole, as Neo Geo sets are) does.
#[derive(Debug, Clone, PartialEq, Eq)]
pub enum RomsetStep {
    /// The zip is in the library already: the downloads are done.
    Done,
    /// The download is no zip: fail it with [`ROMSET_NOT_A_ZIP`].
    NotAZip,
    /// The members are not exactly the entry's roms: quarantine the zip and fail it with
    /// [`ROMSET_NOT_VERIFIED`].
    Quarantine,
    /// Place the zip; each `(member, rom)` index pair is one piece.
    Place(Vec<(usize, usize)>),
}

/// The zip's members pair with the entry's roms one for one: no member is left over and no
/// rom is missing.
pub open spec fn romset_exact(
    roms: Seq<crate::jobs::import::support::EntryRom>,
    members: Seq<crate::jobs::import::support::Hashed>,
) -> bool {
    let (p, u, e) = crate::jobs::import::support::pairing(roms, members, members.len() as int);
    &&& e.len() == 0
    &&& crate::jobs::import::support::absent_names(roms, u, roms.len() as int).len() == 0
}

/// What a romset import at `path`, hashed as `members`, does for the entry's `roms`: done
/// when placed before, refused when it is no zip, quarantined unless its members are exactly
/// the roms, and placed as the pairs that matching gives otherwise.
pub fn romset_step(
    roms: &Vec<crate::jobs::import::support::EntryRom>,
    members: &Vec<crate::jobs::import::support::Hashed>,
    placed_before: bool,
    path: &str,
) -> (r: RomsetStep)
    ensures
        (r is Done) == placed_before,
        (r is NotAZip) == (!placed_before && crate::jobs::dat_import::path_ext(path@) != "zip"@),
        (r is Quarantine) == (!placed_before && crate::jobs::dat_import::path_ext(path@) == "zip"@
            && !romset_exact(roms@, members@)),
        r matches RomsetStep::Place(at) ==> {
            let p = crate::jobs::import::support::pairing(roms@, members@, members@.len() as int).0;
            &&& at@.len() == p.len()
            &&& forall|k: int| 0 <= k < p.len() ==> (#[trigger] at@[k]).0 == p[k].0 && at@[k].1 == p[k].1
        },
{
    if placed_before {
        return RomsetStep::Done;
    }
    if !crate::jobs::import::support::is_zip(path) {
        return RomsetStep::NotAZip;
    }
    let set = crate::jobs::import::support::match_members(roms.as_slice(), members.as_slice());
    if !set.is_exact() {
        return RomsetStep::Quarantine;
    }
    let mut at: Vec<(usize, usize)> = Vec::new();
    let mut k: usize = 0;
    while k < set.at.len()
        invariant
            k <= set.at@.len(),
            at@.len() == k,
            forall|j: int| 0 <= j < k ==> #[trigger] at@[j] == set.at@[j],
        decreases set.at.len() - k,
    {
        at.push(set.at[k]);
        k = k + 1;
    }
    RomsetStep::Place(at)
}

/// The reason a disc import fails its staged tracks when one track does not verify.
pub const TRACK_NOT_VERIFIED: &'static str = "a track of this entry did not verify; the others stay in staging";

/// The reason a disc import fails when its tracks lie in more than one staging directory.
pub const TRACKS_APART: &'static str = "the tracks are in different staging directories";

/// What a disc import does with one staged track.
#[derive(Debug, Clone, PartialEq, Eq)]
pub enum TrackStep {
    /// The track is in the library already: its rom counts as used, and it joins the
    /// tracks placed before.
    PlacedBefore,
    /// The track verified as the entry's rom at this index, in the form of the first
    /// candidate: it becomes a piece to place, and that rom counts as used.
    Piece(usize),
    /// The track did not verify: quarantine it and fail the staged tracks with
    /// [`TRACK_NOT_VERIFIED`].
    Quarantine,
}

/// The step for one staged track: one placed before is counted as such; otherwise the first
/// of its hashed `candidates`, when it is a plain file, is matched against the entry's
/// `roms` not in `used`, preferring the download's own `rom_id`, then a rom named `name`;
/// no match quarantines it.
pub open spec fn disc_track_of(
    roms: Seq<crate::jobs::import::support::EntryRom>,
    used: Seq<i64>,
    rom_id: i64,
    name: Seq<char>,
    placed_before: bool,
    candidates: Seq<crate::jobs::import::support::Hashed>,
) -> TrackStep {
    if placed_before {
        TrackStep::PlacedBefore
    } else if candidates.len() > 0 && candidates[0].member is None {
        match crate::jobs::import::support::spec_pick(roms, candidates[0], Some(rom_id), Some(name), used) {
            Some(i) => TrackStep::Piece(i as usize),
            None => TrackStep::Quarantine,
        }
    } else {
        TrackStep::Quarantine
    }
}

/// The step for one staged track of a disc import; see [`disc_track_of`].
pub fn disc_track(
    roms: &Vec<crate::jobs::import::support::EntryRom>,
    used: &Vec<i64>,
    rom_id: i64,
    name: &str,
    placed_before: bool,
    candidates: &Vec<crate::jobs::import::support::Hashed>,
) -> (r: TrackStep)
    ensures
        r == disc_track_of(roms@, used@, rom_id, name@, placed_before, candidates@),
        r matches TrackStep::Piece(i) ==> i < roms@.len(),
{
    if placed_before {
        return TrackStep::PlacedBefore;
    }
    if candidates.len() == 0 {
        return TrackStep::Quarantine;
    }
    let c = &candidates[0];
    if c.member.is_some() {
        return TrackStep::Quarantine;
    }
    let picked = crate::jobs::import::support::pick_index(roms.as_slice(), c, Some(rom_id), Some(name), used.as_slice());
    proof {
        crate::jobs::import::support::lemma_picks_unique(
            roms@,
            *c,
            Some(rom_id),
            Some(name@),
            used@,
            crate::jobs::import::support::opt_int(picked),
        );
    }
    match picked {
        Some(i) => TrackStep::Piece(i),
        None => TrackStep::Quarantine,
    }
}

/// How a disc import ends once every track was stepped through.
#[derive(Debug, Clone, PartialEq, Eq)]
pub enum DiscEnd {
    /// Every track was in the library already: the downloads are done.
    Done,
    /// Place the pieces together, from their one staging directory.
    Place,
    /// The tracks lie in more than one staging directory: fail them with [`TRACKS_APART`].
    Fail,
}

/// The end of a disc import with `pieces` tracks to place, whose tracks all lie in one
/// staging directory when `same_dir`.
pub open spec fn disc_end_of(pieces: usize, same_dir: bool) -> DiscEnd {
    if pieces == 0 {
        DiscEnd::Done
    } else if same_dir {
        DiscEnd::Place
    } else {
        DiscEnd::Fail
    }
}

/// How a disc import ends; see [`disc_end_of`].
pub fn disc_end(pieces: usize, same_dir: bool) -> (r: DiscEnd)
    ensures
        r == disc_end_of(pieces, same_dir),
{
    if pieces == 0 {
        DiscEnd::Done
    } else if same_dir {
        DiscEnd::Place
    } else {
        DiscEnd::Fail
    }
}

/// The reason a placement that stopped partway gives: `landed` of `total` files placed,
/// and the error that stopped it.
pub open spec fn partly_placed_text(landed: nat, total: nat, error: Seq<char>) -> Seq<char> {
    "placement stopped after "@ + crate::jobs::dat_import::decimal(landed) + " of "@
        + crate::jobs::dat_import::decimal(total) + " files ("@ + error + "); retry to finish"@
}

/// The reason a placement that stopped partway gives; see [`partly_placed_text`].
pub fn partly_placed(landed: u64, total: u64, error: &str) -> (s: String)
    ensures
        s@ == partly_placed_text(landed as nat, total as nat, error@),
{
    let a = crate::text::concat("placement stopped after ", crate::jobs::import::report::decimal_text(landed).as_str());
    let b = crate::text::concat(a.as_str(), " of ");
    let c = crate::text::concat(b.as_str(), crate::jobs::import::report::decimal_text(total).as_str());
    let d = crate::text::concat(c.as_str(), " files (");
    let e = crate::text::concat(d.as_str(), error);
    crate::text::concat(e.as_str(), "); retry to finish")
}

/// The steps of a placement plan that run, by index, given for each step the staged file
/// it renames, if it is a rename (`renames`), and the staged files of the targets kept as
/// they are (`kept`): a rename to a kept target is left out, every other step runs.
pub fn steps_to_run(renames: &Vec<Option<String>>, kept: &Vec<String>) -> (v: Vec<usize>)
    ensures
        forall|k: int| 0 <= k < v@.len() ==> (#[trigger] v@[k]) < renames@.len(),
        forall|k: int, j: int| 0 <= k < j < v@.len() ==> v@[k] < v@[j],
        forall|i: int|
            0 <= i < renames@.len() ==> (v@.contains(i as usize) <==> match #[trigger] renames@[i] {
                Some(from) => !crate::assoc::texts(kept@).contains(from@),
                None => true,
            }),
{
    let mut v: Vec<usize> = Vec::new();
    let mut i: usize = 0;
    while i < renames.len()
        invariant
            i <= renames@.len(),
            forall|k: int| 0 <= k < v@.len() ==> (#[trigger] v@[k]) < i,
            forall|k: int, j: int| 0 <= k < j < v@.len() ==> v@[k] < v@[j],
            forall|a: int|
                0 <= a < i ==> (v@.contains(a as usize) <==> match #[trigger] renames@[a] {
                    Some(from) => !crate::assoc::texts(kept@).contains(from@),
                    None => true,
                }),
        decreases renames.len() - i,
    {
        let runs = match &renames[i] {
            Some(from) => {
                let mut hit = false;
                let mut k: usize = 0;
                while k < kept.len()
                    invariant
                        k <= kept@.len(),
                        hit == exists|m: int| 0 <= m < k && (#[trigger] kept@[m])@ == from@,
                    decreases kept.len() - k,
                {
                    if crate::text::string_eq(&kept[k], from) {
                        hit = true;
                    }
                    k = k + 1;
                }
                !hit
            },
            None => true,
        };
        let ghost before = v@;
        if runs {
            v.push(i);
        }
        proof {
            assert forall|a: int|
                0 <= a < i + 1 implies (v@.contains(a as usize) <==> match #[trigger] renames@[a] {
                    Some(from) => !crate::assoc::texts(kept@).contains(from@),
                    None => true,
                }) by {
                if a < i {
                    if v@.contains(a as usize) {
                        let w = choose|w: int| 0 <= w < v@.len() && v@[w] == a as usize;
                        if w < before.len() {
                            assert(before[w] == a as usize);
                        }
                    }
                    if before.contains(a as usize) {
                        let w = choose|w: int| 0 <= w < before.len() && before[w] == a as usize;
                        assert(v@[w] == a as usize);
                    }
                } else {
                    if runs {
                        assert(v@[before.len() as int] == i);
                    } else if v@.contains(a as usize) {
                        let w = choose|w: int| 0 <= w < v@.len() && v@[w] == a as usize;
                        assert(before[w] < i);
                    }
                }
            }
        }
        i = i + 1;
    }
    v
}

} // verus!

verus! {

/// Why a transfer without a source is not imported.
pub const NO_SOURCE: &'static str = "the transfer has no source";

/// Why a transfer whose source was deleted is not imported.
pub const SOURCE_GONE: &'static str = "the source of this transfer is gone";

/// Why a transfer for an entry no longer in the catalog is not imported.
pub const ENTRY_GONE: &'static str = "the wanted entry is not in the catalog";

/// Why a transfer for a platform nothing places files for is not imported.
pub const NO_ADAPTER: &'static str = "the entry's platform has no adapter";

/// How a platform stores its games.
#[derive(Debug, Clone, Copy, PartialEq, Eq, Structural)]
pub enum PlatformKind {
    /// One file or zip per game.
    Cartridge,
    /// A directory of tracks per game.
    Disc,
    /// A zip of roms per game.
    Romset,
    /// A MAME zip per game.
    Arcade,
}

/// What an import does with a download, from what the database holds for it.
#[derive(Debug, Clone, Copy, PartialEq, Eq)]
pub enum Route {
    /// The download is no longer waiting to be imported: nothing to do.
    Skip,
    /// Fail the download with this reason.
    Fail(&'static str),
    /// Place an MRA entry's zip.
    Mra,
    /// Place a disc entry's tracks together.
    Disc,
    /// Place a romset or arcade zip.
    Romset,
    /// Place one cartridge file.
    Single,
}

/// What the database holds for a download about to be imported.
#[derive(Debug, Clone, Copy, PartialEq, Eq, Structural)]
pub struct ImportFacts {
    /// The download still exists and is `importing`.
    pub importing: bool,
    /// It names a source.
    pub has_source: bool,
    /// That source still exists.
    pub source_found: bool,
    /// Its wanted entry is in the catalog.
    pub entry_found: bool,
    /// That entry is a BIOS.
    pub bios: bool,
    /// How the entry's platform stores games, when it has a placement adapter.
    pub platform: Option<PlatformKind>,
    /// The entry comes from an MRA.
    pub from_mra: bool,
}

/// The route of an import: nothing for a download no longer importing; a failure for a
/// missing source or entry, a BIOS, or a platform without an adapter, in that order;
/// otherwise by the entry: an MRA's zip, else by how its platform stores games.
pub open spec fn route_of(f: ImportFacts) -> Route {
    if !f.importing {
        Route::Skip
    } else if !f.has_source {
        Route::Fail(NO_SOURCE)
    } else if !f.source_found {
        Route::Fail(SOURCE_GONE)
    } else if !f.entry_found {
        Route::Fail(ENTRY_GONE)
    } else if f.bios {
        Route::Fail(BIOS_REFUSED)
    } else {
        match f.platform {
            None => Route::Fail(NO_ADAPTER),
            Some(k) => if f.from_mra {
                Route::Mra
            } else {
                match k {
                    PlatformKind::Disc => Route::Disc,
                    PlatformKind::Romset | PlatformKind::Arcade => Route::Romset,
                    PlatformKind::Cartridge => Route::Single,
                }
            },
        }
    }
}

/// The route of an import; see [`route_of`].
pub fn route(f: &ImportFacts) -> (r: Route)
    ensures
        r == route_of(*f),
{
    if !f.importing {
        Route::Skip
    } else if !f.has_source {
        Route::Fail(NO_SOURCE)
    } else if !f.source_found {
        Route::Fail(SOURCE_GONE)
    } else if !f.entry_found {
        Route::Fail(ENTRY_GONE)
    } else if f.bios {
        Route::Fail(BIOS_REFUSED)
    } else {
        match f.platform {
            None => Route::Fail(NO_ADAPTER),
            Some(k) => if f.from_mra {
                Route::Mra
            } else {
                match k {
                    PlatformKind::Disc => Route::Disc,
                    PlatformKind::Romset | PlatformKind::Arcade => Route::Romset,
                    PlatformKind::Cartridge => Route::Single,
                }
            },
        }
    }
}

} // verus!
