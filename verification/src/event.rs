//! The event record that callers hand to the audit log.

use vstd::prelude::*;

verus! {

/// An event, suitable for logging in the audit log.
///
/// `id` names the event globally; `data` is an opaque blob; `subjects` lists
/// every subject string the event should be indexed under.
pub struct Event {
    pub id: String,
    pub data: String,
    pub subjects: Vec<String>,
}

impl Event {
    /// An event the log accepts: a non-empty id and at least one subject.
    pub open spec fn wf(&self) -> bool {
        &&& self.id@.len() > 0
        &&& self.subjects@.len() > 0
    }

    /// The subjects of the event, as a set of strings.
    pub open spec fn subject_set(&self) -> Set<Seq<char>> {
        self.subjects.deep_view().to_set()
    }

    /// Whether `s` is one of the event's subjects.
    pub open spec fn has_subject(&self, s: Seq<char>) -> bool {
        self.subjects.deep_view().contains(s)
    }

    /// Runtime check of [`Event::wf`], for callers outside verified code.
    pub fn check_wf(&self) -> (r: bool)
        ensures
            r == self.wf(),
    {
        !self.id.as_str().is_empty() && self.subjects.len() > 0
    }
}

} // verus!
