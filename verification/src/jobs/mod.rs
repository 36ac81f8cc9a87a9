//! Background jobs: lanes, the core gate and the logic each job decides with.

pub mod arcade;
pub mod bind_source;
pub mod chd;
pub mod core_limits;
pub mod dat_import;
pub mod detect_client;
pub mod gate;
pub mod import;
pub mod io_priority;
pub mod poll;
pub mod progress;
pub mod scan;

use vstd::prelude::*;

verus! {

/// Which serial queue a job runs on.
#[derive(Debug, Clone, Copy, PartialEq, Eq, Structural)]
pub enum Lane {
    /// Hashing, scanning, placing files: one at a time, held by the core gate.
    Heavy,
    /// DAT and source parsing: one at a time, held only by a manual pause.
    Background,
    /// Client polling, detection and transfers: one at a time, never held.
    Light,
}

/// The `jobs.lane` text of a lane.
pub open spec fn lane_text(lane: Lane) -> Seq<char> {
    match lane {
        Lane::Heavy => "heavy"@,
        Lane::Background => "background"@,
        Lane::Light => "light"@,
    }
}

impl Lane {
    /// The `jobs.lane` value.
    pub fn as_str(self) -> (s: &'static str)
        ensures
            s@ == lane_text(self),
    {
        match self {
            Lane::Heavy => "heavy",
            Lane::Background => "background",
            Lane::Light => "light",
        }
    }
}

} // verus!

verus! {

/// What [`reconcile`](plan_reconcile) did with the jobs a previous process left open.
#[derive(Debug, Clone, Copy, PartialEq, Eq, Structural)]
pub struct Reconciled {
    /// Re-queued under their own ids.
    pub requeued: usize,
    /// Failed as interrupted, for kinds that are not re-run.
    pub failed: usize,
    /// Deleted as repeats of an earlier row with the same kind and payload.
    pub dropped: usize,
}

/// Error recorded on a job a previous process left unfinished and that is not re-run.
pub const INTERRUPTED: &'static str = "interrupted by a restart";

/// A job row a previous process left queued, running or paused: its kind, its payload
/// as JSON text, and whether its kind can be rebuilt and run again.
#[derive(Debug)]
pub struct OpenRow {
    /// `jobs.kind`.
    pub kind: String,
    /// `jobs.payload`, as JSON text.
    pub payload: String,
    /// Whether the kind is safe to run again after a restart.
    pub revivable: bool,
}

/// What becomes of one open row.
#[derive(Debug, Clone, Copy, PartialEq, Eq, Structural)]
pub enum Takeover {
    /// Back on its lane under its own id.
    Requeue,
    /// Failed as interrupted.
    Fail,
    /// Deleted as a repeat.
    Delete,
}

/// Whether row `i` repeats the kind and payload of an earlier row.
pub open spec fn repeats(rows: Seq<OpenRow>, i: int) -> bool {
    exists|j: int| 0 <= j < i && #[trigger] rows[j].kind@ == rows[i].kind@ && rows[j].payload@ == rows[i].payload@
}

/// What becomes of row `i`: a repeat is deleted, a first row goes back when its kind
/// can run again and fails otherwise.
pub open spec fn takeover_of(rows: Seq<OpenRow>, i: int) -> Takeover {
    if repeats(rows, i) {
        Takeover::Delete
    } else if rows[i].revivable {
        Takeover::Requeue
    } else {
        Takeover::Fail
    }
}

/// How many of the first `n` entries of `s` are `t`.
pub open spec fn count_of(s: Seq<Takeover>, t: Takeover, n: int) -> nat
    decreases n,
{
    if n <= 0 {
        0
    } else {
        count_of(s, t, n - 1) + if s[n - 1] == t { 1nat } else { 0nat }
    }
}

/// Decides the takeover of the rows a previous process left open: the first row of each
/// kind and payload goes back on its lane when its kind can run again, else fails as
/// [`INTERRUPTED`]; later repeats are deleted. Returns each row's fate and the counts.
pub fn plan_reconcile(rows: &Vec<OpenRow>) -> (r: (Vec<Takeover>, Reconciled))
    ensures
        r.0@.len() == rows@.len(),
        forall|i: int| 0 <= i < rows@.len() ==> r.0@[i] == takeover_of(rows@, i),
        r.1.requeued == count_of(r.0@, Takeover::Requeue, rows@.len() as int),
        r.1.failed == count_of(r.0@, Takeover::Fail, rows@.len() as int),
        r.1.dropped == count_of(r.0@, Takeover::Delete, rows@.len() as int),
{
    let mut out: Vec<Takeover> = Vec::new();
    let mut done = Reconciled { requeued: 0, failed: 0, dropped: 0 };
    let mut i: usize = 0;
    while i < rows.len()
        invariant
            i <= rows@.len(),
            out@.len() == i,
            forall|k: int| 0 <= k < i ==> out@[k] == takeover_of(rows@, k),
            done.requeued == count_of(out@, Takeover::Requeue, i as int),
            done.failed == count_of(out@, Takeover::Fail, i as int),
            done.dropped == count_of(out@, Takeover::Delete, i as int),
            done.requeued + done.failed + done.dropped == i,
        decreases rows.len() - i,
    {
        let mut seen = false;
        let mut j: usize = 0;
        while j < i
            invariant
                j <= i,
                i < rows@.len(),
                seen == exists|k: int|
                    0 <= k < j && #[trigger] rows@[k].kind@ == rows@[i as int].kind@ && rows@[k].payload@
                        == rows@[i as int].payload@,
            decreases i - j,
        {
            if rows[j].kind.eq(&rows[i].kind) && rows[j].payload.eq(&rows[i].payload) {
                seen = true;
            }
            j = j + 1;
        }
        let t = if seen {
            done.dropped = done.dropped + 1;
            Takeover::Delete
        } else if rows[i].revivable {
            done.requeued = done.requeued + 1;
            Takeover::Requeue
        } else {
            done.failed = done.failed + 1;
            Takeover::Fail
        };
        let ghost before = out@;
        out.push(t);
        proof {
            lemma_count_prefix(before, t, i as int);
            lemma_count_push(out@, i as int);
        }
        i = i + 1;
    }
    (out, done)
}

proof fn lemma_count_prefix(s: Seq<Takeover>, x: Takeover, n: int)
    requires
        0 <= n <= s.len(),
    ensures
        forall|t: Takeover| #[trigger] count_of(s.push(x), t, n) == count_of(s, t, n),
    decreases n,
{
    if n > 0 {
        lemma_count_prefix(s, x, n - 1);
        assert(s.push(x)[n - 1] == s[n - 1]);
        assert forall|t: Takeover| #[trigger] count_of(s.push(x), t, n) == count_of(s, t, n) by {
            assert(count_of(s.push(x), t, n - 1) == count_of(s, t, n - 1));
        }
    }
}

proof fn lemma_count_push(s: Seq<Takeover>, n: int)
    requires
        0 <= n < s.len(),
    ensures
        forall|t: Takeover|
            #[trigger] count_of(s, t, n + 1) == count_of(s, t, n) + if s[n] == t { 1nat } else { 0nat },
{
}

/// Every open row is accounted for exactly once: the three counts add up to the rows.
pub proof fn lemma_reconcile_accounts_for_every_row(s: Seq<Takeover>, n: int)
    requires
        0 <= n <= s.len(),
    ensures
        count_of(s, Takeover::Requeue, n) + count_of(s, Takeover::Fail, n) + count_of(
            s,
            Takeover::Delete,
            n,
        ) == n,
    decreases n,
{
    if n > 0 {
        lemma_reconcile_accounts_for_every_row(s, n - 1);
    }
}

/// Of rows sharing a kind and payload, only the first is kept: every later one is deleted,
/// and the first is never.
pub proof fn lemma_reconcile_keeps_first_of_each(rows: Seq<OpenRow>, i: int, j: int)
    requires
        0 <= i < j < rows.len(),
        rows[i].kind@ == rows[j].kind@,
        rows[i].payload@ == rows[j].payload@,
    ensures
        takeover_of(rows, j) == Takeover::Delete,
        !repeats(rows, i) ==> takeover_of(rows, i) != Takeover::Delete,
{
    assert(rows[i].kind@ == rows[j].kind@ && rows[i].payload@ == rows[j].payload@);
}

} // verus!

verus! {

/// `jobs.kind` of a DAT import.
pub const DAT_IMPORT_KIND: &'static str = "dat_import";

/// `jobs.kind` of a 1G1R recompute.
pub const RECOMPUTE_KIND: &'static str = "recompute_1g1r";

/// `jobs.kind` of a torrent source import.
pub const SOURCE_IMPORT_KIND: &'static str = "source_import";

/// `jobs.kind` of a source remap.
pub const REMAP_KIND: &'static str = "remap_sources";

/// What reviving a job row reads of its JSON payload: each field present as the type
/// the job takes it in.
#[derive(Debug, Clone)]
pub struct PayloadFacts {
    /// `path`, a text.
    pub path: Option<String>,
    /// `platform_id`, a text.
    pub platform_id: Option<String>,
    /// Whether the payload has a `dat_version_id` key, naming a version to bind.
    pub names_dat_version: bool,
    /// `download_id`, an integer.
    pub download_id: Option<i64>,
    /// `platforms`, when it is an array: the texts among its entries.
    pub platforms: Option<Vec<String>>,
}

/// A job rebuilt from its row to run again after a restart.
#[derive(Debug, Clone, PartialEq, Eq)]
pub enum Revived {
    /// The arcade catalogue.
    Arcade,
    /// The CHD track classification.
    Chd,
    /// A scan of one platform, or of every enabled one.
    Scan { platform_id: Option<String> },
    /// A DAT import of the file at `path`.
    DatImport { path: String },
    /// A 1G1R recompute of one platform.
    Recompute { platform: String },
    /// A torrent source import of the file at `path`.
    SourceImport { path: String },
    /// A remap of the sources of the platforms its payload names, or of every platform.
    Remap { platforms: Option<Vec<String>> },
    /// The import of one download.
    Import { download_id: i64 },
}

/// A revived job, as texts.
pub enum RevivedModel {
    /// See [`Revived::Arcade`].
    Arcade,
    /// See [`Revived::Chd`].
    Chd,
    /// See [`Revived::Scan`].
    Scan(Option<Seq<char>>),
    /// See [`Revived::DatImport`].
    DatImport(Seq<char>),
    /// See [`Revived::Recompute`].
    Recompute(Seq<char>),
    /// See [`Revived::SourceImport`].
    SourceImport(Seq<char>),
    /// See [`Revived::Remap`].
    Remap(Option<Seq<Seq<char>>>),
    /// See [`Revived::Import`].
    Import(i64),
}

/// A revived job as texts.
pub open spec fn revived_model(r: Revived) -> RevivedModel {
    match r {
        Revived::Arcade => RevivedModel::Arcade,
        Revived::Chd => RevivedModel::Chd,
        Revived::Scan { platform_id } => RevivedModel::Scan(
            match platform_id {
                Some(p) => Some(p@),
                None => None,
            },
        ),
        Revived::DatImport { path } => RevivedModel::DatImport(path@),
        Revived::Recompute { platform } => RevivedModel::Recompute(platform@),
        Revived::SourceImport { path } => RevivedModel::SourceImport(path@),
        Revived::Remap { platforms } => RevivedModel::Remap(
            match platforms {
                Some(v) => Some(crate::assoc::texts_seq(v@)),
                None => None,
            },
        ),
        Revived::Import { download_id } => RevivedModel::Import(download_id),
    }
}

/// The job a row of `kind` whose payload holds `p` becomes again after a restart: the
/// kinds that are safe to run twice, given the fields each needs; a DAT import that
/// binds a named version is not, since the user repeats that from the UI.
pub open spec fn revive_of(kind: Seq<char>, p: PayloadFacts) -> Option<RevivedModel> {
    if kind == arcade::KIND@ {
        Some(RevivedModel::Arcade)
    } else if kind == chd::KIND@ {
        Some(RevivedModel::Chd)
    } else if kind == scan::KIND@ {
        Some(
            RevivedModel::Scan(
                match p.platform_id {
                    Some(s) => Some(s@),
                    None => None,
                },
            ),
        )
    } else if kind == DAT_IMPORT_KIND@ && !p.names_dat_version {
        match p.path {
            Some(s) => Some(RevivedModel::DatImport(s@)),
            None => None,
        }
    } else if kind == RECOMPUTE_KIND@ {
        match p.platform_id {
            Some(s) => Some(RevivedModel::Recompute(s@)),
            None => None,
        }
    } else if kind == SOURCE_IMPORT_KIND@ {
        match p.path {
            Some(s) => Some(RevivedModel::SourceImport(s@)),
            None => None,
        }
    } else if kind == REMAP_KIND@ {
        Some(
            RevivedModel::Remap(
                match p.platforms {
                    Some(v) => Some(crate::assoc::texts_seq(v@)),
                    None => None,
                },
            ),
        )
    } else if kind == import::KIND@ {
        match p.download_id {
            Some(d) => Some(RevivedModel::Import(d)),
            None => None,
        }
    } else {
        None
    }
}

/// The `jobs.kind` of a revived job.
pub open spec fn revived_kind(m: RevivedModel) -> Seq<char> {
    match m {
        RevivedModel::Arcade => arcade::KIND@,
        RevivedModel::Chd => chd::KIND@,
        RevivedModel::Scan(_) => scan::KIND@,
        RevivedModel::DatImport(_) => DAT_IMPORT_KIND@,
        RevivedModel::Recompute(_) => RECOMPUTE_KIND@,
        RevivedModel::SourceImport(_) => SOURCE_IMPORT_KIND@,
        RevivedModel::Remap(_) => REMAP_KIND@,
        RevivedModel::Import(_) => import::KIND@,
    }
}

/// A revived job is of the kind its row named, and carries the payload fields that kind
/// reads, unchanged.
pub proof fn lemma_revive_keeps_kind_and_payload(kind: Seq<char>, p: PayloadFacts)
    requires
        revive_of(kind, p) is Some,
    ensures
        revived_kind(revive_of(kind, p)->0) == kind,
        match revive_of(kind, p)->0 {
            RevivedModel::Scan(id) => id == match p.platform_id {
                Some(s) => Some(s@),
                None => None,
            },
            RevivedModel::DatImport(path) => p.path matches Some(s) && path == s@ && !p.names_dat_version,
            RevivedModel::Recompute(platform) => p.platform_id matches Some(s) && platform == s@,
            RevivedModel::SourceImport(path) => p.path matches Some(s) && path == s@,
            RevivedModel::Remap(platforms) => platforms == match p.platforms {
                Some(v) => Some(crate::assoc::texts_seq(v@)),
                None => None,
            },
            RevivedModel::Import(id) => p.download_id == Some(id),
            _ => true,
        },
{
}

/// The job a row left open becomes again after a restart, or `None` for a kind that is
/// not run again or a payload that lacks what the job needs. See [`revive_of`].
pub fn revive(kind: &str, p: &PayloadFacts) -> (r: Option<Revived>)
    ensures
        match r {
            Some(j) => revive_of(kind@, *p) == Some(revived_model(j)),
            None => revive_of(kind@, *p) is None,
        },
{
    if crate::text::str_is(kind, arcade::KIND) {
        return Some(Revived::Arcade);
    }
    if crate::text::str_is(kind, chd::KIND) {
        return Some(Revived::Chd);
    }
    if crate::text::str_is(kind, scan::KIND) {
        let platform_id = match &p.platform_id {
            Some(s) => Some(s.clone()),
            None => None,
        };
        return Some(Revived::Scan { platform_id });
    }
    if crate::text::str_is(kind, DAT_IMPORT_KIND) && !p.names_dat_version {
        return match &p.path {
            Some(s) => Some(Revived::DatImport { path: s.clone() }),
            None => None,
        };
    }
    if crate::text::str_is(kind, RECOMPUTE_KIND) {
        return match &p.platform_id {
            Some(s) => Some(Revived::Recompute { platform: s.clone() }),
            None => None,
        };
    }
    if crate::text::str_is(kind, SOURCE_IMPORT_KIND) {
        return match &p.path {
            Some(s) => Some(Revived::SourceImport { path: s.clone() }),
            None => None,
        };
    }
    if crate::text::str_is(kind, REMAP_KIND) {
        let platforms = match &p.platforms {
            Some(v) => Some(crate::assoc::copy_texts(v)),
            None => None,
        };
        return Some(Revived::Remap { platforms });
    }
    if crate::text::str_is(kind, import::KIND) {
        return match p.download_id {
            Some(d) => Some(Revived::Import { download_id: d }),
            None => None,
        };
    }
    None
}

} // verus!
