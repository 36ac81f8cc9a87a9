//! Binding one source as the user chose, or handing it back to automatic binding: the job's
//! stored payload and the job it describes.

use vstd::prelude::*;

verus! {

/// The `jobs.kind` of [`BindSource`].
pub const KIND: &'static str = "bind_source";

/// The reason a source the user marked as not a game set shows.
pub const IGNORED: &'static str = "Marked as not a game set. It is not bound automatically.";

/// What the user chose for a source's binding.
#[derive(Debug, Clone, PartialEq, Eq)]
pub enum Choice {
    /// This platform, matching the files against it only.
    Platform(String),
    /// No platform: not a game set.
    Ignore,
    /// Whatever automatic binding decides, now and after later DAT loads.
    Automatic,
}

/// Applies a [`Choice`] to one source.
#[derive(Debug, Clone, PartialEq, Eq)]
pub struct BindSource {
    /// The source.
    pub source_id: i64,
    /// Its display name, for the activity list.
    pub source_name: String,
    /// The binding asked for.
    pub choice: Choice,
}

/// The fields of a stored payload that the job reads, each as its JSON value gives it.
#[derive(Debug, Clone)]
pub struct BindPayload {
    /// `source_id`, when it is an integer.
    pub source_id: Option<i64>,
    /// `source_name`, when it is a text.
    pub source_name: Option<String>,
    /// `automatic`, when it is a boolean.
    pub automatic: Option<bool>,
    /// `platform_id` when the key is present: its text, or `None` for any other value.
    pub platform_id: Option<Option<String>>,
}

/// A choice as texts.
pub enum ChoiceModel {
    /// See [`Choice::Platform`].
    Platform(Seq<char>),
    /// See [`Choice::Ignore`].
    Ignore,
    /// See [`Choice::Automatic`].
    Automatic,
}

/// A choice as texts.
pub open spec fn choice_model(c: Choice) -> ChoiceModel {
    match c {
        Choice::Platform(p) => ChoiceModel::Platform(p@),
        Choice::Ignore => ChoiceModel::Ignore,
        Choice::Automatic => ChoiceModel::Automatic,
    }
}

/// A job as its source, name text and choice.
pub open spec fn job_model(j: BindSource) -> (i64, Seq<char>, ChoiceModel) {
    (j.source_id, j.source_name@, choice_model(j.choice))
}

/// The job a payload describes: none without an integer `source_id`; `automatic: true`
/// asks for automatic binding; otherwise `platform_id` must be present, a text naming the
/// platform and any other value meaning no platform. A missing name is empty.
pub open spec fn bind_of(p: BindPayload) -> Option<(i64, Seq<char>, ChoiceModel)> {
    match p.source_id {
        None => None,
        Some(id) => {
            let name = match p.source_name {
                Some(s) => s@,
                None => Seq::empty(),
            };
            if p.automatic == Some(true) {
                Some((id, name, ChoiceModel::Automatic))
            } else {
                match p.platform_id {
                    None => None,
                    Some(Some(t)) => Some((id, name, ChoiceModel::Platform(t@))),
                    Some(None) => Some((id, name, ChoiceModel::Ignore)),
                }
            }
        },
    }
}

/// The payload stored for `j`: its source and name, then `platform_id` (a text, or null
/// for no platform) or `automatic: true`.
pub open spec fn payload_of(j: BindSource) -> BindPayload {
    BindPayload {
        source_id: Some(j.source_id),
        source_name: Some(j.source_name),
        automatic: match j.choice {
            Choice::Automatic => Some(true),
            _ => None,
        },
        platform_id: match j.choice {
            Choice::Platform(p) => Some(Some(p)),
            Choice::Ignore => Some(None),
            Choice::Automatic => None,
        },
    }
}

/// A stored payload gives back the job that stored it.
pub proof fn lemma_payload_round_trip(j: BindSource)
    ensures
        bind_of(payload_of(j)) == Some(job_model(j)),
{
}

impl BindSource {
    /// The job a stored payload describes, `None` when it names no source; see [`bind_of`].
    pub fn from_payload(p: &BindPayload) -> (r: Option<Self>)
        ensures
            match r {
                Some(j) => bind_of(*p) == Some(job_model(j)),
                None => bind_of(*p) is None,
            },
    {
        let source_id = match p.source_id {
            Some(id) => id,
            None => return None,
        };
        let source_name = match &p.source_name {
            Some(s) => s.clone(),
            None => String::new(),
        };
        let automatic = match p.automatic {
            Some(b) => b,
            None => false,
        };
        let choice = if automatic {
            Choice::Automatic
        } else {
            match &p.platform_id {
                None => return None,
                Some(Some(t)) => Choice::Platform(t.clone()),
                Some(None) => Choice::Ignore,
            }
        };
        proof {
            if p.source_name is None {
                assert(source_name@ =~= Seq::<char>::empty());
            }
        }
        Some(BindSource { source_id, source_name, choice })
    }

    /// The payload stored for this job; see [`payload_of`].
    pub fn payload(&self) -> (p: BindPayload)
        ensures
            p == payload_of(*self),
    {
        let (automatic, platform_id) = match &self.choice {
            Choice::Platform(t) => (None, Some(Some(t.clone()))),
            Choice::Ignore => (None, Some(None)),
            Choice::Automatic => (Some(true), None),
        };
        BindPayload {
            source_id: Some(self.source_id),
            source_name: Some(self.source_name.clone()),
            automatic,
            platform_id,
        }
    }
}

} // verus!
