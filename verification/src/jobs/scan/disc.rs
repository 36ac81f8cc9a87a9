//! Disc titles are verified all or nothing, each title on its own: the tracks that
//! matched a title are verified only when they are all of its roms and none is a bad
//! dump, so a stray file or a second game in the directory never demotes a complete one.

use vstd::prelude::*;
use crate::jobs::scan::{RomMatch, FileState, after_last, baddump};

verus! {

/// A track file found in a disc directory: its name and the rom its hashes matched.
#[derive(Debug, Clone)]
pub struct DiscTrack {
    /// The file's name.
    pub name: String,
    /// The rom it matched, if any.
    pub matched: Option<RomMatch>,
}

/// Whether track `t` matched a rom of title `title`.
pub open spec fn of_title(t: DiscTrack, title: i64) -> bool {
    t.matched matches Some(m) && m.title_id == title
}

/// How many of `tracks` matched a rom of `title`.
pub open spec fn title_count(tracks: Seq<DiscTrack>, title: i64) -> nat
    decreases tracks.len(),
{
    if tracks.len() == 0 {
        0
    } else {
        title_count(tracks.drop_last(), title) + if of_title(tracks.last(), title) { 1nat } else { 0nat }
    }
}

/// Whether no track that matched `title` matched a bad dump.
pub open spec fn title_clean(tracks: Seq<DiscTrack>, title: i64) -> bool {
    forall|i: int| 0 <= i < tracks.len() && #[trigger] of_title(tracks[i], title) ==> tracks[i].matched->0.status@ != baddump()
}

/// The number of roms `wants` gives `title`: the first pair naming it.
pub open spec fn want_of(wants: Seq<(i64, i64)>, title: i64) -> Option<i64>
    decreases wants.len(),
{
    if wants.len() == 0 {
        None
    } else if wants[0].0 == title {
        Some(wants[0].1)
    } else {
        want_of(wants.drop_first(), title)
    }
}

/// Whether the tracks that matched `title` are all of its roms, by count, none a bad dump.
pub open spec fn title_complete(tracks: Seq<DiscTrack>, wants: Seq<(i64, i64)>, title: i64) -> bool {
    &&& want_of(wants, title) matches Some(w)
    &&& title_count(tracks, title) == w
    &&& title_clean(tracks, title)
}

/// The rom id and state of track `i`: unmatched it is `Unverified`; a bad dump is `Bad`;
/// a track of an incomplete title is `Unverified`; one of a complete title is `Verified`
/// under the rom's last name component and `Misnamed` under another.
pub open spec fn disc_state_of(tracks: Seq<DiscTrack>, wants: Seq<(i64, i64)>, i: int) -> (Option<i64>, FileState) {
    match tracks[i].matched {
        None => (None, FileState::Unverified),
        Some(m) => (
            Some(m.rom_id),
            if m.status@ == baddump() {
                FileState::Bad
            } else if !title_complete(tracks, wants, m.title_id) {
                FileState::Unverified
            } else if after_last(m.name@, '/') == tracks[i].name@ {
                FileState::Verified
            } else {
                FileState::Misnamed
            },
        ),
    }
}

/// Whether a rom's status is `baddump`.
fn is_bad(m: &RomMatch) -> (b: bool)
    ensures
        b == (m.status@ == baddump()),
{
    let b = crate::text::str_is(m.status.as_str(), "baddump");
    proof {
        reveal_strlit("baddump");
        assert("baddump"@ == baddump());
    }
    b
}

/// Whether track `t` matched a rom of `title`.
fn track_of_title(t: &DiscTrack, title: i64) -> (r: bool)
    ensures
        r == of_title(*t, title),
{
    match &t.matched {
        Some(m) => m.title_id == title,
        None => false,
    }
}

/// How many of `tracks` matched `title`, and whether none of those is a bad dump.
fn count_and_clean(tracks: &Vec<DiscTrack>, title: i64) -> (r: (usize, bool))
    ensures
        r.0 == title_count(tracks@, title),
        r.1 == title_clean(tracks@, title),
{
    let mut n: usize = 0;
    let mut clean = true;
    let mut i: usize = 0;
    while i < tracks.len()
        invariant
            i <= tracks@.len(),
            n == title_count(tracks@.subrange(0, i as int), title),
            n <= i,
            clean == forall|k: int|
                0 <= k < i && #[trigger] of_title(tracks@[k], title) ==> tracks@[k].matched->0.status@ != baddump(),
        decreases tracks.len() - i,
    {
        proof {
            assert(tracks@.subrange(0, i + 1).drop_last() == tracks@.subrange(0, i as int));
        }
        let t = &tracks[i];
        if track_of_title(t, title) {
            n = n + 1;
            match &t.matched {
                Some(m) => {
                    if is_bad(m) {
                        clean = false;
                    }
                },
                None => {},
            }
        }
        i = i + 1;
    }
    proof {
        assert(tracks@.subrange(0, tracks@.len() as int) == tracks@);
    }
    (n, clean)
}

/// The number of roms `wants` gives `title`.
fn want_for(wants: &Vec<(i64, i64)>, title: i64) -> (r: Option<i64>)
    ensures
        r == want_of(wants@, title),
{
    let mut i: usize = 0;
    proof {
        assert(wants@.skip(0) == wants@);
    }
    while i < wants.len()
        invariant
            i <= wants@.len(),
            want_of(wants@, title) == want_of(wants@.skip(i as int), title),
        decreases wants.len() - i,
    {
        proof {
            assert(wants@.skip(i as int).drop_first() == wants@.skip(i + 1));
            assert(wants@.skip(i as int)[0] == wants@[i as int]);
        }
        if wants[i].0 == title {
            return Some(wants[i].1);
        }
        i = i + 1;
    }
    None
}

/// The titles `tracks` matched, each once, in the order first matched: the titles whose
/// number of roms [`classify_disc`] needs.
pub fn disc_titles(tracks: &Vec<DiscTrack>) -> (titles: Vec<i64>)
    ensures
        titles@.no_duplicates(),
        forall|t: i64| titles@.contains(t) <==> exists|i: int| 0 <= i < tracks@.len() && #[trigger] of_title(tracks@[i], t),
{
    let mut titles: Vec<i64> = Vec::new();
    let mut i: usize = 0;
    while i < tracks.len()
        invariant
            i <= tracks@.len(),
            titles@.no_duplicates(),
            forall|t: i64| titles@.contains(t) <==> exists|k: int| 0 <= k < i && #[trigger] of_title(tracks@[k], t),
        decreases tracks.len() - i,
    {
        match &tracks[i].matched {
            Some(m) => {
                let t = m.title_id;
                let mut known = false;
                let mut j: usize = 0;
                while j < titles.len()
                    invariant
                        j <= titles@.len(),
                        known == titles@.subrange(0, j as int).contains(t),
                    decreases titles.len() - j,
                {
                    let ghost a = titles@.subrange(0, j as int);
                    let ghost b = titles@.subrange(0, j + 1);
                    proof {
                        assert(b == a.push(titles@[j as int]));
                        if a.contains(t) {
                            let w = choose|w: int| 0 <= w < a.len() && a[w] == t;
                            assert(b[w] == t);
                        }
                        if b.contains(t) && titles@[j as int] != t {
                            let w = choose|w: int| 0 <= w < b.len() && b[w] == t;
                            assert(a[w] == t);
                        }
                    }
                    if titles[j] == t {
                        known = true;
                        proof {
                            assert(b[j as int] == t);
                        }
                    }
                    j = j + 1;
                }
                proof {
                    assert(titles@.subrange(0, titles@.len() as int) == titles@);
                    assert(of_title(tracks@[i as int], t));
                }
                if !known {
                    let ghost before = titles@;
                    titles.push(t);
                    proof {
                        assert forall|a: int, b: int| 0 <= a < b < titles@.len() implies titles@[a] != titles@[b] by {
                            if b == before.len() {
                                assert(before[a] == titles@[a]);
                            }
                        }
                        assert forall|u: i64| titles@.contains(u) <==> exists|k: int| 0 <= k < i + 1 && #[trigger] of_title(tracks@[k], u) by {
                            if titles@.contains(u) && u != t {
                                let w = choose|w: int| 0 <= w < titles@.len() && titles@[w] == u;
                                assert(before[w] == u);
                            }
                            if before.contains(u) {
                                let w = choose|w: int| 0 <= w < before.len() && before[w] == u;
                                assert(titles@[w] == u);
                            }
                            assert(titles@[before.len() as int] == t);
                        }
                    }
                }
            },
            None => {
                proof {
                    assert(!of_title(tracks@[i as int], 0));
                }
            },
        }
        i = i + 1;
    }
    titles
}

/// The rom id and state of each track of a disc directory, given `wants`, the number of
/// roms of each title the tracks matched (see [`disc_titles`]); a title not in `wants`
/// counts as incomplete. Each title is decided on its own tracks alone.
pub fn classify_disc(tracks: &Vec<DiscTrack>, wants: &Vec<(i64, i64)>) -> (r: Vec<(Option<i64>, FileState)>)
    requires
        tracks@.len() <= i64::MAX,
    ensures
        r@.len() == tracks@.len(),
        forall|i: int| 0 <= i < tracks@.len() ==> #[trigger] r@[i] == disc_state_of(tracks@, wants@, i),
{
    let mut out: Vec<(Option<i64>, FileState)> = Vec::new();
    let mut i: usize = 0;
    while i < tracks.len()
        invariant
            i <= tracks@.len(),
            tracks@.len() <= i64::MAX,
            out@.len() == i,
            forall|k: int| 0 <= k < i ==> #[trigger] out@[k] == disc_state_of(tracks@, wants@, k),
        decreases tracks.len() - i,
    {
        let t = &tracks[i];
        let st = match &t.matched {
            None => (None, FileState::Unverified),
            Some(m) => {
                if is_bad(m) {
                    (Some(m.rom_id), FileState::Bad)
                } else {
                    let (n, clean) = count_and_clean(tracks, m.title_id);
                    proof {
                        lemma_count_at_most(tracks@, m.title_id);
                    }
                    let complete = match want_for(wants, m.title_id) {
                        Some(w) => clean && (n as i64) == w,
                        None => false,
                    };
                    assert(complete == title_complete(tracks@, wants@, m.title_id));
                    if !complete {
                        (Some(m.rom_id), FileState::Unverified)
                    } else if crate::text::str_is(crate::jobs::scan::basename(m.name.as_str()), t.name.as_str()) {
                        (Some(m.rom_id), FileState::Verified)
                    } else {
                        (Some(m.rom_id), FileState::Misnamed)
                    }
                }
            },
        };
        proof {
            assert(st == disc_state_of(tracks@, wants@, i as int));
        }
        out.push(st);
        i = i + 1;
    }
    out
}

proof fn lemma_count_at_most(tracks: Seq<DiscTrack>, title: i64)
    ensures
        title_count(tracks, title) <= tracks.len(),
    decreases tracks.len(),
{
    if tracks.len() > 0 {
        lemma_count_at_most(tracks.drop_last(), title);
    }
}

proof fn lemma_count_unmoved(tracks: Seq<DiscTrack>, extra: Seq<DiscTrack>, title: i64)
    requires
        forall|j: int| 0 <= j < extra.len() ==> !#[trigger] of_title(extra[j], title),
    ensures
        title_count(tracks + extra, title) == title_count(tracks, title),
    decreases extra.len(),
{
    if extra.len() == 0 {
        assert(tracks + extra == tracks);
    } else {
        let shorter = extra.drop_last();
        lemma_count_unmoved(tracks, shorter, title);
        assert((tracks + extra).drop_last() == tracks + shorter);
        assert((tracks + extra).last() == extra[extra.len() - 1]);
    }
}

/// Tracks of other titles, or of none, never change a title's outcome: a directory that
/// holds more of them gives each track it held before the same state.
pub proof fn lemma_other_tracks_never_demote(
    tracks: Seq<DiscTrack>,
    extra: Seq<DiscTrack>,
    wants: Seq<(i64, i64)>,
    i: int,
)
    requires
        0 <= i < tracks.len(),
        forall|j: int, k: int|
            0 <= j < extra.len() && 0 <= k < tracks.len() && tracks[k].matched is Some ==> !#[trigger] of_title(
                extra[j],
                #[trigger] tracks[k].matched->0.title_id,
            ),
    ensures
        disc_state_of(tracks + extra, wants, i) == disc_state_of(tracks, wants, i),
{
    let all = tracks + extra;
    assert(all[i] == tracks[i]);
    if let Some(m) = tracks[i].matched {
        let t = m.title_id;
        assert forall|j: int| 0 <= j < extra.len() implies !#[trigger] of_title(extra[j], t) by {
            assert(tracks[i].matched->0.title_id == t);
        }
        lemma_count_unmoved(tracks, extra, t);
        assert(title_clean(all, t) == title_clean(tracks, t)) by {
            if title_clean(tracks, t) {
                assert forall|k: int| 0 <= k < all.len() && #[trigger] of_title(all[k], t) implies all[k].matched->0.status@ != baddump() by {
                    if k >= tracks.len() {
                        assert(all[k] == extra[k - tracks.len()]);
                    } else {
                        assert(all[k] == tracks[k]);
                    }
                }
            }
            if title_clean(all, t) {
                assert forall|k: int| 0 <= k < tracks.len() && #[trigger] of_title(tracks[k], t) implies tracks[k].matched->0.status@ != baddump() by {
                    assert(all[k] == tracks[k]);
                }
            }
        }
    }
}

} // verus!
