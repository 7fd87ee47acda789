//! The audit-index data model and the operations on it.
//!
//! An [`AuditLog`] value is the state one store instance holds: the event
//! blobs, one reference count per event, one ordered index of event ids per
//! subject, and the registry of all subjects ever logged against.  Each
//! public operation is one atomic step over this state — exactly the unit
//! the store-side transaction primitive must execute indivisibly, so any
//! interleaving of concurrent callers is some sequence of these steps.

use vstd::prelude::*;

use crate::errors::AuditError;
use crate::event::Event;

verus! {

/// One subject's ordered index: event ids, oldest first.
struct SubjectIndex {
    subject: String,
    ids: Vec<String>,
}

/// One stored event: its blob and its reference count.
struct StoredEvent {
    id: String,
    data: String,
    refs: usize,
}

/// The whole audit log: every stored event and every subject index.
///
/// The registry of subjects is the sequence of index entries in
/// registration order; an index entry exists for every registered subject,
/// even once its index has been emptied.
pub struct AuditLog {
    events: Vec<StoredEvent>,
    indices: Vec<SubjectIndex>,
}

/// `t` occurs among the first `k` entries of `ss`.
pub open spec fn prefix_has(ss: Seq<Seq<char>>, k: int, t: Seq<char>) -> bool {
    exists|i: int| 0 <= i < k && ss[i] == t
}

/// `log` must refuse the event: its id already names different content.
pub open spec fn log_rejected(pre: AuditLog, e: Event) -> bool {
    pre.stored(e.id@) && pre.data_of(e.id@) != Some(e.data@)
}

/// How one accepted `log` call moves the state forward: the event's id is
/// appended to the index of each of its subjects that does not already list
/// it, the registry absorbs the event's subjects, the blob is created only
/// if it was absent, and nothing else changes.
pub open spec fn log_advances(pre: AuditLog, post: AuditLog, e: Event) -> bool {
    &&& forall|t: Seq<char>|
        (#[trigger] post.index_of(t)) == (if e.has_subject(t) && !pre.index_of(t).contains(e.id@) {
            pre.index_of(t).push(e.id@)
        } else {
            pre.index_of(t)
        })
    &&& post.subjects_set() == pre.subjects_set().union(e.subject_set())
    &&& pre.subject_seq().is_prefix_of(post.subject_seq())
    &&& forall|x: Seq<char>|
        (#[trigger] post.data_of(x)) == (if x == e.id@ && !pre.stored(e.id@) {
            Some(e.data@)
        } else {
            pre.data_of(x)
        })
}

/// How many entries `truncate` removes from the head of an index of length
/// `len` when asked to keep the `keep` most recent ones.
pub open spec fn trunc_drop(len: int, keep: int) -> int {
    if keep >= len {
        0
    } else {
        len - keep
    }
}

/// How one pruning step moves the state forward: exactly `k` entries leave
/// the head of subject `s`'s index, every other index and the registry stay
/// as they were, and an event's blob survives exactly as long as some index
/// still lists it.
pub open spec fn prune_advances(pre: AuditLog, post: AuditLog, s: Seq<char>, k: int) -> bool {
    &&& post.index_of(s) == pre.index_of(s).skip(k)
    &&& forall|t: Seq<char>| t != s ==> (#[trigger] post.index_of(t)) == pre.index_of(t)
    &&& post.subject_seq() == pre.subject_seq()
    &&& forall|x: Seq<char>|
        (#[trigger] post.data_of(x)) == (if post.some_index_has(x) {
            pre.data_of(x)
        } else {
            None
        })
}

/// No string occurs twice in `s`.
pub open spec fn distinct_seq(s: Seq<Seq<char>>) -> bool {
    forall|i: int, j: int| 0 <= i < j < s.len() ==> s[i] != s[j]
}

/// The ids listed by the first index entry for subject `s`, empty if none.
spec fn index_in(ind: Seq<SubjectIndex>, s: Seq<char>) -> Seq<Seq<char>>
    decreases ind.len(),
{
    if ind.len() == 0 {
        Seq::empty()
    } else if ind[0].subject@ == s {
        ind[0].ids.deep_view()
    } else {
        index_in(ind.drop_first(), s)
    }
}

/// How many index entries list the id `x`.
spec fn refs_in(ind: Seq<SubjectIndex>, x: Seq<char>) -> nat
    decreases ind.len(),
{
    if ind.len() == 0 {
        0
    } else {
        refs_in(ind.drop_last(), x) + if ind.last().ids.deep_view().contains(x) {
            1nat
        } else {
            0nat
        }
    }
}

/// The blob stored for id `x`, if any (last entry wins; ids are unique).
spec fn data_in(evs: Seq<StoredEvent>, x: Seq<char>) -> Option<Seq<char>>
    decreases evs.len(),
{
    if evs.len() == 0 {
        None
    } else if evs.last().id@ == x {
        Some(evs.last().data@)
    } else {
        data_in(evs.drop_last(), x)
    }
}

/// The stored reference count for id `x`, zero if the event is absent.
spec fn ref_in(evs: Seq<StoredEvent>, x: Seq<char>) -> nat
    decreases evs.len(),
{
    if evs.len() == 0 {
        0
    } else if evs.last().id@ == x {
        evs.last().refs as nat
    } else {
        ref_in(evs.drop_last(), x)
    }
}

/// The subjects of the index entries, in order.
spec fn subjects_of(ind: Seq<SubjectIndex>) -> Seq<Seq<char>> {
    Seq::new(ind.len(), |i: int| ind[i].subject@)
}

/// Whether some index entry is for subject `t`.
spec fn has_subject_in(ind: Seq<SubjectIndex>, t: Seq<char>) -> bool {
    exists|j: int| 0 <= j < ind.len() && ind[j].subject@ == t
}

impl AuditLog {
    /// The subject registry, in registration order.
    pub closed spec fn subject_seq(self) -> Seq<Seq<char>> {
        subjects_of(self.indices@)
    }

    /// The subject registry as a set.
    pub open spec fn subjects_set(self) -> Set<Seq<char>> {
        self.subject_seq().to_set()
    }

    /// The ordered index of subject `s`: event ids, oldest first.
    pub closed spec fn index_of(self, s: Seq<char>) -> Seq<Seq<char>> {
        index_in(self.indices@, s)
    }

    /// The blob stored under id `x`, if the event still exists.
    pub closed spec fn data_of(self, x: Seq<char>) -> Option<Seq<char>> {
        data_in(self.events@, x)
    }

    /// The reference count kept for id `x`, zero once the event is gone.
    pub closed spec fn ref_of(self, x: Seq<char>) -> nat {
        ref_in(self.events@, x)
    }

    /// Whether an event blob for id `x` exists.
    pub open spec fn stored(self, x: Seq<char>) -> bool {
        self.data_of(x) is Some
    }

    /// How many of the first `n` registered subjects currently index `x`.
    pub open spec fn count_referencing(self, x: Seq<char>, n: int) -> nat
        decreases n,
    {
        if n <= 0 {
            0
        } else {
            self.count_referencing(x, n - 1) + if self.index_of(
                self.subject_seq()[n - 1],
            ).contains(x) {
                1nat
            } else {
                0nat
            }
        }
    }

    /// How many subject indices currently list the id `x`.
    pub open spec fn referencing_subjects(self, x: Seq<char>) -> nat {
        self.count_referencing(x, self.subject_seq().len() as int)
    }

    /// Whether any subject index currently lists the id `x`.
    pub open spec fn some_index_has(self, x: Seq<char>) -> bool {
        exists|j: int|
            0 <= j < self.subject_seq().len() && self.index_of(self.subject_seq()[j]).contains(x)
    }

    /// The state invariant every operation preserves: subjects are
    /// registered once, each index lists an id at most once, every listed
    /// id still has its blob, and every event's reference count equals the
    /// number of indices listing it — and is never zero, since an event's
    /// blob and count are dropped together when the last reference goes.
    pub closed spec fn wf(self) -> bool {
        &&& distinct_seq(self.subject_seq())
        &&& forall|j: int|
            0 <= j < self.indices@.len() ==> distinct_seq(#[trigger] self.indices@[j].ids.deep_view())
        &&& forall|i: int, j: int|
            0 <= i < j < self.events@.len() ==> self.events@[i].id@ != self.events@[j].id@
        &&& forall|i: int|
            0 <= i < self.events@.len() ==> (#[trigger] self.events@[i].refs) as nat == refs_in(
                self.indices@,
                self.events@[i].id@,
            ) && self.events@[i].refs >= 1
        &&& forall|j: int, x: Seq<char>|
            0 <= j < self.indices@.len() && (#[trigger] self.indices@[j].ids.deep_view().contains(
                x,
            )) ==> data_in(self.events@, x) is Some
    }

    /// An empty audit log: no events, no subjects.
    pub fn new() -> (r: AuditLog)
        ensures
            r.wf(),
            r.subject_seq() == Seq::<Seq<char>>::empty(),
            forall|x: Seq<char>| #[trigger] r.data_of(x) is None,
            forall|x: Seq<char>| #[trigger] r.ref_of(x) == 0,
            forall|t: Seq<char>| #[trigger] r.index_of(t) == Seq::<Seq<char>>::empty(),
    {
        let r = AuditLog { events: Vec::new(), indices: Vec::new() };
        proof {
            assert(r.subject_seq() =~= Seq::<Seq<char>>::empty());
            assert forall|x: Seq<char>| #[trigger] r.data_of(x) is None && r.ref_of(x) == 0 by {
                lemma_data_absent(r.events@, x);
            }
        }
        r
    }

    /// Every known subject, in registration order.
    pub fn subjects(&self) -> (r: Vec<String>)
        ensures
            r.deep_view() == self.subject_seq(),
    {
        let mut r: Vec<String> = Vec::new();
        let mut j: usize = 0;
        while j < self.indices.len()
            invariant
                j <= self.indices@.len(),
                r.deep_view() == self.subject_seq().take(j as int),
            decreases self.indices@.len() - j,
        {
            let ghost prefix = r.deep_view();
            r.push(self.indices[j].subject.clone());
            proof {
                assert(r.deep_view() =~= prefix.push(self.indices@[j as int].subject@));
                assert(r.deep_view() =~= self.subject_seq().take(j + 1));
            }
            j += 1;
        }
        proof {
            assert(self.subject_seq().take(self.indices@.len() as int) =~= self.subject_seq());
        }
        r
    }

    /// The full event history of a subject, oldest first.
    ///
    /// Unknown or emptied subjects yield an empty history, not an error.
    /// The `subjects` field of each returned event is left empty: the index
    /// records which events concern the subject, not the other way round.
    pub fn retrieve(&self, log: &str) -> (r: Vec<Event>)
        requires
            self.wf(),
        ensures
            r@.len() == self.index_of(log@).len(),
            forall|i: int|
                0 <= i < r@.len() ==> (#[trigger] r@[i]).id@ == self.index_of(log@)[i] && Some(
                    r@[i].data@,
                ) == self.data_of(self.index_of(log@)[i]) && r@[i].subjects@.len() == 0,
    {
        let key = log.to_owned();
        let mut out: Vec<Event> = Vec::new();
        let j_opt = find_subject(&self.indices, &key);
        match j_opt {
            None => {
                proof {
                    lemma_index_in_absent(self.indices@, log@);
                }
                out
            },
            Some(j) => {
                proof {
                    lemma_index_in_at(self.indices@, j as int);
                }
                let ghost ids = self.index_of(log@);
                let n = self.indices[j].ids.len();
                let mut m: usize = 0;
                while m < n
                    invariant
                        self.wf(),
                        m <= n,
                        j < self.indices@.len(),
                        n == self.indices@[j as int].ids@.len(),
                        ids == self.indices@[j as int].ids.deep_view(),
                        out@.len() == m,
                        forall|i: int|
                            0 <= i < m ==> (#[trigger] out@[i]).id@ == ids[i] && Some(
                                out@[i].data@,
                            ) == data_in(self.events@, ids[i]) && out@[i].subjects@.len() == 0,
                    decreases n - m,
                {
                    let id = &self.indices[j].ids[m];
                    proof {
                        assert(self.indices@[j as int].ids.deep_view().contains(id@)) by {
                            assert(self.indices@[j as int].ids.deep_view()[m as int] == id@);
                        }
                    }
                    let i_opt = find_event(&self.events, id);
                    match i_opt {
                        Some(i) => {
                            proof {
                                lemma_data_at(self.events@, i as int);
                            }
                            out.push(
                                Event {
                                    id: id.clone(),
                                    data: self.events[i].data.clone(),
                                    subjects: Vec::new(),
                                },
                            );
                        },
                        None => {
                            proof {
                                lemma_data_absent(self.events@, id@);
                            }
                            vstd::pervasive::unreached::<()>();
                        },
                    }
                    m += 1;
                }
                out
            },
        }
    }

    /// The reference count currently kept for an event id: how many
    /// subject indices list it, zero once the event is gone.
    pub fn reference_count(&self, id: &str) -> (r: usize)
        requires
            self.wf(),
        ensures
            r as nat == self.ref_of(id@),
    {
        let key = id.to_owned();
        match find_event(&self.events, &key) {
            Some(i) => {
                proof {
                    lemma_data_at(self.events@, i as int);
                }
                self.events[i].refs
            },
            None => {
                proof {
                    lemma_data_absent(self.events@, id@);
                }
                0
            },
        }
    }

    /// Record an event in the audit log.
    ///
    /// The blob is created only if its id is new; an id that already names
    /// different content is refused.  For each subject of the event, the
    /// subject is registered and the id is appended to its index — with its
    /// reference count raised — unless that (id, subject) pair is already
    /// indexed, so re-logging an identical event changes nothing.
    pub fn log(&mut self, e: &Event) -> (r: Result<(), AuditError>)
        requires
            old(self).wf(),
            e.wf(),
        ensures
            final(self).wf(),
            match r {
                Ok(()) => !log_rejected(*old(self), *e) && log_advances(
                    *old(self),
                    *final(self),
                    *e,
                ),
                Err(err) => err == AuditError::DuplicateEvent && log_rejected(*old(self), *e)
                    && *final(self) == *old(self),
            },
    {
        let ghost pre = *old(self);
        let ghost sv = e.subjects.deep_view();
        // conditional-create of the blob
        match find_event(&self.events, &e.id) {
            Some(i) => {
                proof {
                    lemma_data_at(self.events@, i as int);
                }
                if !(self.events[i].data == e.data) {
                    return Err(AuditError::DuplicateEvent);
                }
            },
            None => {
                proof {
                    lemma_data_absent(self.events@, e.id@);
                }
                let ghost evs0 = self.events@;
                self.events.push(StoredEvent { id: e.id.clone(), data: e.data.clone(), refs: 0 });
                proof {
                    let ghost newev = self.events@.last();
                    assert(self.events@ =~= evs0.push(newev));
                    assert(newev.id@ == e.id@ && newev.data@ == e.data@ && newev.refs == 0);
                    assert forall|x: Seq<char>| #[trigger] data_in(self.events@, x) == (if x
                        == e.id@ {
                        Some(e.data@)
                    } else {
                        data_in(evs0, x)
                    }) && ref_in(self.events@, x) == (if x == e.id@ {
                        0nat
                    } else {
                        ref_in(evs0, x)
                    }) by {
                        lemma_evs_push(evs0, newev, x);
                    }
                    // a blob that never existed is listed by no index
                    assert(refs_in(self.indices@, e.id@) == 0) by {
                        lemma_refs_in_pos(self.indices@, e.id@);
                        if exists|j: int|
                            0 <= j < self.indices@.len()
                                && self.indices@[j].ids.deep_view().contains(e.id@) {
                            assert(data_in(evs0, e.id@) is Some);
                        }
                    }
                }
            },
        }
        let ghost subjects0 = self.subject_seq();
        proof {
            assert(sv.take(0).to_set() =~= Set::<Seq<char>>::empty());
            assert(self.subjects_set() =~= pre.subjects_set().union(sv.take(0).to_set()));
            assert(pre.subject_seq().is_prefix_of(self.subject_seq())) by {
                assert(pre.subject_seq() =~= self.subject_seq().subrange(
                    0,
                    pre.subject_seq().len() as int,
                ));
            }
        }
        let mut k: usize = 0;
        while k < e.subjects.len()
            invariant
                pre.wf(),
                e.wf(),
                sv == e.subjects.deep_view(),
                k <= sv.len(),
                pre.stored(e.id@) ==> pre.data_of(e.id@) == Some(e.data@),
                distinct_seq(self.subject_seq()),
                forall|j: int|
                    0 <= j < self.indices@.len() ==> distinct_seq(
                        #[trigger] self.indices@[j].ids.deep_view(),
                    ),
                forall|a: int, b: int|
                    0 <= a < b < self.events@.len() ==> self.events@[a].id@ != self.events@[b].id@,
                forall|i: int|
                    0 <= i < self.events@.len() ==> (#[trigger] self.events@[i].refs) as nat
                        == refs_in(self.indices@, self.events@[i].id@) && (self.events@[i].refs >= 1
                        || self.events@[i].id@ == e.id@),
                (pre.stored(e.id@) || k > 0) ==> ref_in(self.events@, e.id@) >= 1,
                data_in(self.events@, e.id@) == Some(e.data@),
                forall|x: Seq<char>|
                    (#[trigger] data_in(self.events@, x)) == (if x == e.id@ && !pre.stored(e.id@) {
                        Some(e.data@)
                    } else {
                        data_in(pre.events@, x)
                    }),
                forall|j: int, x: Seq<char>|
                    0 <= j < self.indices@.len() && (
                    #[trigger] self.indices@[j].ids.deep_view().contains(x)) ==> data_in(
                        self.events@,
                        x,
                    ) is Some,
                forall|t: Seq<char>|
                    (#[trigger] index_in(self.indices@, t)) == (if prefix_has(sv, k as int, t)
                        && !index_in(pre.indices@, t).contains(e.id@) {
                        index_in(pre.indices@, t).push(e.id@)
                    } else {
                        index_in(pre.indices@, t)
                    }),
                pre.subject_seq().is_prefix_of(self.subject_seq()),
                self.subjects_set() == pre.subjects_set().union(sv.take(k as int).to_set()),
            decreases sv.len() - k,
        {
            let ghost ind_start = self.indices@;
            let ghost evs_start = self.events@;
            let s = &e.subjects[k];
            let ghost subj = s@;
            proof {
                assert(sv[k as int] == subj);
            }
            let j: usize;
            match find_subject(&self.indices, s) {
                Some(jj) => {
                    j = jj;
                },
                None => {
                    let ghost ind0 = self.indices@;
                    self.indices.push(SubjectIndex { subject: s.clone(), ids: Vec::new() });
                    j = self.indices.len() - 1;
                    proof {
                        let ghost ind1 = self.indices@;
                        let ghost entry = ind1.last();
                        assert(ind1 =~= ind0.push(entry));
                        assert(entry.subject@ == subj);
                        assert(entry.ids.deep_view() =~= Seq::<Seq<char>>::empty());
                        assert(subjects_of(ind1) =~= subjects_of(ind0).push(subj));
                        assert(distinct_seq(subjects_of(ind1))) by {
                            assert forall|a: int, b: int|
                                0 <= a < b < subjects_of(ind1).len() implies subjects_of(ind1)[a]
                                != subjects_of(ind1)[b] by {
                                if b == subjects_of(ind1).len() - 1 {
                                    assert(ind0[a].subject@ != subj);
                                }
                            }
                        }
                        assert forall|t: Seq<char>| #[trigger] index_in(ind1, t) == index_in(
                            ind0,
                            t,
                        ) by {
                            lemma_index_in_push(ind0, entry, t);
                            if !has_subject_in(ind0, t) {
                                lemma_index_in_absent(ind0, t);
                            }
                        }
                        assert forall|x: Seq<char>| #[trigger] refs_in(ind1, x) == refs_in(
                            ind0,
                            x,
                        ) by {
                            assert(!entry.ids.deep_view().contains(x));
                            lemma_refs_in_push(ind0, entry, x);
                        }
                        // the registry grows by exactly this subject
                        assert(subjects_of(ind1).to_set() =~= subjects_of(ind0).to_set().insert(
                            subj,
                        )) by {
                            assert forall|x: Seq<char>| #[trigger] subjects_of(ind1).contains(x)
                                <==> (subjects_of(ind0).contains(x) || x == subj) by {
                                lemma_contains_push(subjects_of(ind0), subj, x);
                            }
                        }
                        assert(pre.subject_seq().is_prefix_of(subjects_of(ind1))) by {
                            assert(pre.subject_seq() =~= subjects_of(ind1).subrange(
                                0,
                                pre.subject_seq().len() as int,
                            ));
                        }
                    }
                },
            }
            let ghost inda = self.indices@;
            proof {
                assert(inda[j as int].subject@ == subj);
                lemma_index_in_at(inda, j as int);
            }
            let present = vec_has_str(&self.indices[j].ids, &e.id);
            if !present {
                let ghost ind1 = self.indices@;
                let mut entry = self.indices.remove(j);
                entry.ids.push(e.id.clone());
                self.indices.insert(j, entry);
                let ghost ind2 = self.indices@;
                let ghost e2 = ind2[j as int];
                proof {
                    assert(ind2 =~= ind1.update(j as int, e2));
                    assert(e2.subject@ == subj);
                    assert(e2.ids.deep_view() =~= ind1[j as int].ids.deep_view().push(e.id@));
                    assert(subjects_of(ind2) =~= subjects_of(ind1));
                    assert(distinct_seq(subjects_of(ind2)));
                    assert(distinct_seq(e2.ids.deep_view())) by {
                        let ghost old_ids = ind1[j as int].ids.deep_view();
                        assert forall|a: int, b: int|
                            0 <= a < b < e2.ids.deep_view().len() implies e2.ids.deep_view()[a]
                            != e2.ids.deep_view()[b] by {
                            if b == e2.ids.deep_view().len() - 1 {
                                if old_ids[a] == e.id@ {
                                    assert(old_ids.contains(e.id@));
                                }
                            }
                        }
                    }
                    lemma_index_in_at(ind2, j as int);
                    assert(index_in(ind2, subj) == index_in(ind1, subj).push(e.id@));
                    assert forall|t: Seq<char>| t != subj implies #[trigger] index_in(ind2, t)
                        == index_in(ind1, t) by {
                        lemma_index_in_frame(ind1, ind2, j as int, t);
                    }
                    assert(refs_in(ind2, e.id@) == refs_in(ind1, e.id@) + 1 && forall|x: Seq<char>|
                        x != e.id@ ==> #[trigger] refs_in(ind2, x) == refs_in(ind1, x)) by {
                        assert forall|x: Seq<char>| #[trigger] refs_in(ind2, x) + (if ind1[j as int].ids.deep_view().contains(x) { 1nat } else { 0nat })
                            == refs_in(ind1, x) + (if e2.ids.deep_view().contains(x) { 1nat } else { 0nat }) by {
                            lemma_refs_in_update(ind1, ind2, j as int, x);
                        }
                        assert forall|x: Seq<char>| #[trigger] e2.ids.deep_view().contains(x) <==> (
                        ind1[j as int].ids.deep_view().contains(x) || x == e.id@) by {
                            lemma_contains_push(ind1[j as int].ids.deep_view(), e.id@, x);
                        }
                    }
                }
                proof {
                    assert forall|x: Seq<char>| #[trigger] e2.ids.deep_view().contains(x) <==> (
                    ind1[j as int].ids.deep_view().contains(x) || x == e.id@) by {
                        lemma_contains_push(ind1[j as int].ids.deep_view(), e.id@, x);
                    }
                    assert(forall|x: Seq<char>| #[trigger] refs_in(ind1, x) == refs_in(
                        ind_start,
                        x,
                    ));
                }
                // raise the reference count
                let i: usize;
                match find_event(&self.events, &e.id) {
                    Some(ii) => {
                        i = ii;
                    },
                    None => {
                        proof {
                            lemma_data_absent(self.events@, e.id@);
                        }
                        i = vstd::pervasive::unreached::<usize>();
                    },
                }
                let nlen = self.indices.len();
                proof {
                    lemma_data_at(self.events@, i as int);
                    lemma_refs_in_le(ind2, e.id@);
                    assert(self.events@[i as int].refs as nat == refs_in(ind_start, e.id@));
                    assert(refs_in(ind2, e.id@) == refs_in(ind_start, e.id@) + 1);
                    assert(self.events@[i as int].refs as nat + 1 <= nlen as nat);
                }
                let ghost evs1 = self.events@;
                let mut ev = self.events.remove(i);
                ev.refs = ev.refs + 1;
                self.events.insert(i, ev);
                let ghost evs2 = self.events@;
                let ghost ev2 = evs2[i as int];
                proof {
                    assert(evs2 =~= evs1.update(i as int, ev2));
                    assert(ev2.id@ == e.id@ && ev2.data@ == evs1[i as int].data@ && ev2.refs
                        == evs1[i as int].refs + 1);
                    assert forall|x: Seq<char>| x != e.id@ implies #[trigger] data_in(evs2, x)
                        == data_in(evs1, x) && ref_in(evs2, x) == ref_in(evs1, x) by {
                        lemma_evs_update(evs1, evs2, i as int, x);
                    }
                    lemma_data_at(evs2, i as int);
                    // the reference counts line up with the updated indices
                    assert forall|i2: int| 0 <= i2 < evs2.len() implies (#[trigger] evs2[i2].refs)
                        as nat == refs_in(ind2, evs2[i2].id@) && (evs2[i2].refs >= 1
                        || evs2[i2].id@ == e.id@) by {
                        if i2 != i as int {
                            assert(evs2[i2] == evs_start[i2]);
                            if i2 < i as int {
                                assert(evs_start[i2].id@ != evs_start[i as int].id@);
                            } else {
                                assert(evs_start[i as int].id@ != evs_start[i2].id@);
                            }
                            assert(evs2[i2].id@ != e.id@);
                            assert(refs_in(ind2, evs2[i2].id@) == refs_in(ind1, evs2[i2].id@));
                        }
                    }
                    // every listed id still has its blob
                    assert forall|j2: int, x: Seq<char>|
                        0 <= j2 < ind2.len() && (#[trigger] ind2[j2].ids.deep_view().contains(
                            x,
                        )) implies data_in(evs2, x) is Some by {
                        if x == e.id@ {
                        } else {
                            assert(data_in(evs2, x) == data_in(evs_start, x));
                            if j2 == j as int {
                                assert(ind1[j2].ids.deep_view().contains(x));
                            } else {
                                assert(ind2[j2] == ind1[j2]);
                            }
                            if j2 < ind_start.len() {
                                assert(ind1[j2] == ind_start[j2]);
                                assert(data_in(evs_start, x) is Some);
                            } else {
                                assert(ind1[j2].ids.deep_view().len() == 0);
                            }
                        }
                    }
                }
            } else {
                proof {
                    // the pair is already indexed, so the count is already positive
                    assert(refs_in(self.indices@, e.id@) > 0) by {
                        lemma_refs_in_pos(self.indices@, e.id@);
                        assert(self.indices@[j as int].ids.deep_view().contains(e.id@));
                    }
                    lemma_data_some_pos(self.events@, e.id@);
                    let ghost i0 = choose|i0: int|
                        0 <= i0 < self.events@.len() && self.events@[i0].id@ == e.id@;
                    lemma_data_at(self.events@, i0);
                }
            }
            proof {
                // the index relation advances by one subject
                assert forall|t: Seq<char>|
                    (#[trigger] index_in(self.indices@, t)) == (if prefix_has(sv, k + 1, t)
                        && !index_in(pre.indices@, t).contains(e.id@) {
                        index_in(pre.indices@, t).push(e.id@)
                    } else {
                        index_in(pre.indices@, t)
                    }) by {
                    lemma_contains_push(index_in(pre.indices@, t), e.id@, e.id@);
                    if t == subj {
                        assert(prefix_has(sv, k + 1, t)) by {
                            assert(sv[k as int] == t);
                        }
                        lemma_contains_push(index_in(inda, subj), e.id@, e.id@);
                    } else {
                        assert(prefix_has(sv, k + 1, t) == prefix_has(sv, k as int, t)) by {
                            if prefix_has(sv, k + 1, t) {
                                let ghost w = choose|w: int| 0 <= w < k + 1 && sv[w] == t;
                                assert(w != k);
                                assert(0 <= w < k && sv[w] == t);
                            }
                            if prefix_has(sv, k as int, t) {
                                let ghost w = choose|w: int| 0 <= w < k && sv[w] == t;
                                assert(0 <= w < k + 1 && sv[w] == t);
                            }
                        }
                    }
                }
                // the registry absorbs this subject
                assert(sv.take(k + 1).to_set() =~= sv.take(k as int).to_set().insert(subj)) by {
                    assert forall|x: Seq<char>| #[trigger] sv.take(k + 1).contains(x) <==> (sv.take(
                        k as int,
                    ).contains(x) || x == subj) by {
                        assert(sv.take(k + 1) =~= sv.take(k as int).push(subj));
                        lemma_contains_push(sv.take(k as int), subj, x);
                    }
                }
                assert(self.subjects_set() =~= pre.subjects_set().union(sv.take(k + 1).to_set()))
                    by {
                    assert(self.subject_seq().contains(subj)) by {
                        assert(self.subject_seq()[j as int] == subj);
                    }
                }
            }
            k += 1;
        }
        proof {
            assert(sv.take(sv.len() as int) =~= sv);
            assert forall|t: Seq<char>| #[trigger] prefix_has(sv, sv.len() as int, t)
                == e.has_subject(t) by {
                if prefix_has(sv, sv.len() as int, t) {
                    let ghost w = choose|w: int| 0 <= w < sv.len() && sv[w] == t;
                    assert(sv[w] == t);
                }
            }
            // every event is referenced at least once again
            assert forall|i: int| 0 <= i < self.events@.len() implies (#[trigger] self.events@[i].refs)
                >= 1 by {
                if self.events@[i].id@ == e.id@ {
                    lemma_data_at(self.events@, i);
                }
            }
        }
        Ok(())
    }

    /// Remove the oldest entry of index `j`, lower the event's reference
    /// count, and drop the blob and the count together when it reaches zero.
    fn pop_head(&mut self, j: usize)
        requires
            old(self).wf(),
            j < old(self).indices@.len(),
            old(self).indices@[j as int].ids@.len() > 0,
        ensures
            final(self).wf(),
            prune_advances(*old(self), *final(self), old(self).indices@[j as int].subject@, 1),
            final(self).indices@.len() == old(self).indices@.len(),
            forall|m: int|
                0 <= m < final(self).indices@.len() ==> (
                #[trigger] final(self).indices@[m].subject@) == old(self).indices@[m].subject@,
            final(self).indices@[j as int].ids@.len() == old(self).indices@[j as int].ids@.len()
                - 1,
    {
        let ghost pre = *old(self);
        let ghost ind1 = self.indices@;
        let ghost evs1 = self.events@;
        let ghost subj = ind1[j as int].subject@;
        proof {
            lemma_index_in_at(ind1, j as int);
        }
        let mut entry = self.indices.remove(j);
        let id0 = entry.ids.remove(0);
        self.indices.insert(j, entry);
        let ghost ind2 = self.indices@;
        let ghost e2 = ind2[j as int];
        let ghost old_ids = ind1[j as int].ids.deep_view();
        proof {
            assert(ind2 =~= ind1.update(j as int, e2));
            assert(e2.subject@ == subj);
            assert(e2.ids.deep_view() =~= old_ids.drop_first());
            assert(id0@ == old_ids[0]);
            assert(subjects_of(ind2) =~= subjects_of(ind1));
            assert(distinct_seq(subjects_of(ind2)));
            lemma_index_in_at(ind2, j as int);
            assert forall|t: Seq<char>| t != subj implies #[trigger] index_in(ind2, t) == index_in(
                ind1,
                t,
            ) by {
                lemma_index_in_frame(ind1, ind2, j as int, t);
            }
            assert(old_ids.contains(id0@)) by {
                assert(old_ids[0] == id0@);
            }
            assert(distinct_seq(old_ids));
            assert(distinct_seq(e2.ids.deep_view())) by {
                assert forall|a: int, b: int|
                    0 <= a < b < e2.ids.deep_view().len() implies e2.ids.deep_view()[a]
                    != e2.ids.deep_view()[b] by {
                    assert(old_ids[a + 1] != old_ids[b + 1]);
                }
            }
            assert(!e2.ids.deep_view().contains(id0@)) by {
                if e2.ids.deep_view().contains(id0@) {
                    let w = choose|w: int|
                        0 <= w < e2.ids.deep_view().len() && e2.ids.deep_view()[w] == id0@;
                    assert(old_ids[w + 1] == id0@);
                    assert(old_ids[0] == old_ids[w + 1]);
                }
            }
            assert forall|x: Seq<char>|
                x != id0@ implies ((#[trigger] e2.ids.deep_view().contains(x)) <==> old_ids.contains(
                    x,
                )) by {
                lemma_contains_drop_first(old_ids, x);
            }
            assert(refs_in(ind2, id0@) + 1 == refs_in(ind1, id0@) && forall|x: Seq<char>|
                x != id0@ ==> #[trigger] refs_in(ind2, x) == refs_in(ind1, x)) by {
                assert forall|x: Seq<char>| #[trigger] refs_in(ind2, x) + (if old_ids.contains(x) {
                    1nat
                } else {
                    0nat
                }) == refs_in(ind1, x) + (if e2.ids.deep_view().contains(x) {
                    1nat
                } else {
                    0nat
                }) by {
                    lemma_refs_in_update(ind1, ind2, j as int, x);
                }
            }
        }
        // the popped id always has a stored event while listed
        let i: usize;
        match find_event(&self.events, &id0) {
            Some(ii) => {
                i = ii;
            },
            None => {
                proof {
                    lemma_data_absent(self.events@, id0@);
                    assert(ind1[j as int].ids.deep_view().contains(id0@));
                }
                i = vstd::pervasive::unreached::<usize>();
            },
        }
        proof {
            lemma_data_at(evs1, i as int);
            assert(evs1[i as int].refs as nat == refs_in(ind1, id0@));
        }
        let mut ev = self.events.remove(i);
        if ev.refs > 1 {
            // other indices still reference the event: only lower the count
            ev.refs = ev.refs - 1;
            self.events.insert(i, ev);
            let ghost evs2 = self.events@;
            let ghost ev2 = evs2[i as int];
            proof {
                assert(evs2 =~= evs1.update(i as int, ev2));
                assert(ev2.id@ == id0@ && ev2.data@ == evs1[i as int].data@ && ev2.refs == evs1[i
                    as int].refs - 1);
                assert forall|x: Seq<char>| x != id0@ implies #[trigger] data_in(evs2, x)
                    == data_in(evs1, x) && ref_in(evs2, x) == ref_in(evs1, x) by {
                    lemma_evs_update(evs1, evs2, i as int, x);
                }
                lemma_data_at(evs2, i as int);
                assert forall|i2: int| 0 <= i2 < evs2.len() implies (#[trigger] evs2[i2].refs)
                    as nat == refs_in(ind2, evs2[i2].id@) && evs2[i2].refs >= 1 by {
                    if i2 != i as int {
                        assert(evs2[i2] == evs1[i2]);
                        if i2 < i as int {
                            assert(evs1[i2].id@ != evs1[i as int].id@);
                        } else {
                            assert(evs1[i as int].id@ != evs1[i2].id@);
                        }
                    }
                }
                assert forall|j2: int, x: Seq<char>|
                    0 <= j2 < ind2.len() && (#[trigger] ind2[j2].ids.deep_view().contains(
                        x,
                    )) implies data_in(evs2, x) is Some by {
                    if j2 == j as int {
                        assert(old_ids.contains(x));
                    } else {
                        assert(ind2[j2] == ind1[j2]);
                    }
                    assert(data_in(evs1, x) is Some);
                    if x != id0@ {
                        assert(data_in(evs2, x) == data_in(evs1, x));
                    }
                }
                // the data clause of the pruning step
                assert forall|x: Seq<char>| (#[trigger] data_in(evs2, x)) == (if refs_in(ind2, x)
                    > 0 {
                    data_in(evs1, x)
                } else {
                    None
                }) by {
                    if x == id0@ {
                        assert(refs_in(ind2, id0@) == ev2.refs as nat);
                    } else {
                        if refs_in(ind2, x) == 0 && data_in(evs1, x) is Some {
                            lemma_data_some_pos(evs1, x);
                            let i3 = choose|i3: int|
                                0 <= i3 < evs1.len() && evs1[i3].id@ == x;
                            assert(evs1[i3].refs >= 1);
                        }
                    }
                }
                assert forall|x: Seq<char>| #[trigger] self.some_index_has(x) <==> refs_in(
                    ind2,
                    x,
                ) > 0 by {
                    lemma_some_index_has(*self, x);
                }
            }
        } else {
            // last reference: the blob and its count are dropped together
            let ghost evs2 = self.events@;
            proof {
                assert(evs2 =~= evs1.remove(i as int));
                assert(ev == evs1[i as int]);
                assert(ev.refs == 1);
                assert(refs_in(ind2, id0@) == 0);
                lemma_refs_in_pos(ind2, id0@);
                assert forall|m: int| 0 <= m < evs2.len() implies #[trigger] evs2[m] == (if m < i
                    as int {
                    evs1[m]
                } else {
                    evs1[m + 1]
                }) by {}
                assert forall|x: Seq<char>| #[trigger] data_in(evs2, x) == (if x == id0@ {
                    None
                } else {
                    data_in(evs1, x)
                }) && ref_in(evs2, x) == (if x == id0@ {
                    0nat
                } else {
                    ref_in(evs1, x)
                }) by {
                    lemma_evs_remove(evs1, i as int, x);
                }
                assert forall|a: int, b: int| 0 <= a < b < evs2.len() implies evs2[a].id@
                    != evs2[b].id@ by {}
                assert forall|i2: int| 0 <= i2 < evs2.len() implies (#[trigger] evs2[i2].refs)
                    as nat == refs_in(ind2, evs2[i2].id@) && evs2[i2].refs >= 1 by {
                    let m: int = if i2 < i as int {
                        i2
                    } else {
                        i2 + 1
                    };
                    assert(evs2[i2] == evs1[m]);
                    if m < i as int {
                        assert(evs1[m].id@ != evs1[i as int].id@);
                    } else {
                        assert(evs1[i as int].id@ != evs1[m].id@);
                    }
                }
                assert forall|j2: int, x: Seq<char>|
                    0 <= j2 < ind2.len() && (#[trigger] ind2[j2].ids.deep_view().contains(
                        x,
                    )) implies data_in(evs2, x) is Some by {
                    assert(x != id0@);
                    if j2 == j as int {
                        assert(old_ids.contains(x));
                    } else {
                        assert(ind2[j2] == ind1[j2]);
                    }
                    assert(data_in(evs1, x) is Some);
                }
                assert forall|x: Seq<char>| (#[trigger] data_in(evs2, x)) == (if refs_in(ind2, x)
                    > 0 {
                    data_in(evs1, x)
                } else {
                    None
                }) by {
                    if x != id0@ && refs_in(ind2, x) == 0 && data_in(evs1, x) is Some {
                        lemma_data_some_pos(evs1, x);
                        let i3 = choose|i3: int| 0 <= i3 < evs1.len() && evs1[i3].id@ == x;
                        assert(evs1[i3].refs >= 1);
                    }
                }
                assert forall|x: Seq<char>| #[trigger] self.some_index_has(x) <==> refs_in(
                    ind2,
                    x,
                ) > 0 by {
                    lemma_some_index_has(*self, x);
                }
            }
        }
        proof {
            assert(index_in(ind2, subj) =~= index_in(ind1, subj).skip(1));
        }
    }

    /// Remove the `count` oldest entries of index `j`, collecting events
    /// whose last reference goes.
    fn pop_n(&mut self, j: usize, count: usize)
        requires
            old(self).wf(),
            j < old(self).indices@.len(),
            count <= old(self).indices@[j as int].ids@.len(),
        ensures
            final(self).wf(),
            prune_advances(
                *old(self),
                *final(self),
                old(self).indices@[j as int].subject@,
                count as int,
            ),
    {
        let ghost pre = *old(self);
        let ghost subj = pre.indices@[j as int].subject@;
        proof {
            lemma_index_in_at(pre.indices@, j as int);
            lemma_prune_refl(pre, subj);
        }
        let mut c: usize = 0;
        while c < count
            invariant
                pre.wf(),
                self.wf(),
                c <= count,
                j < self.indices@.len(),
                self.indices@.len() == pre.indices@.len(),
                forall|m: int|
                    0 <= m < self.indices@.len() ==> (#[trigger] self.indices@[m].subject@)
                        == pre.indices@[m].subject@,
                count <= pre.indices@[j as int].ids@.len(),
                pre.index_of(subj) == pre.indices@[j as int].ids.deep_view(),
                subj == pre.indices@[j as int].subject@,
                self.indices@[j as int].ids@.len() == pre.indices@[j as int].ids@.len() - c,
                prune_advances(pre, *self, subj, c as int),
            decreases count - c,
        {
            let ghost mid = *self;
            proof {
                lemma_index_in_at(self.indices@, j as int);
                assert(mid.index_of(subj) == pre.index_of(subj).skip(c as int));
            }
            self.pop_head(j);
            proof {
                lemma_prune_trans(pre, mid, *self, subj, c as int, 1);
            }
            c += 1;
        }
    }

    /// Keep only the `n` most recent events of a subject, removing the rest
    /// from the head of its index and collecting events no index lists any
    /// more.  Keeping at least as many as there are is a no-op, as is a
    /// subject without an index.
    pub fn truncate(&mut self, log: &str, n: u32) -> (r: Result<(), AuditError>)
        requires
            old(self).wf(),
        ensures
            final(self).wf(),
            r is Ok,
            prune_advances(
                *old(self),
                *final(self),
                log@,
                trunc_drop(old(self).index_of(log@).len() as int, n as int),
            ),
    {
        let key = log.to_owned();
        match find_subject(&self.indices, &key) {
            None => {
                proof {
                    lemma_index_in_absent(self.indices@, log@);
                    lemma_prune_refl(*self, log@);
                }
                Ok(())
            },
            Some(j) => {
                proof {
                    lemma_index_in_at(self.indices@, j as int);
                }
                let len = self.indices[j].ids.len();
                let keep = n as usize;
                let count = if keep >= len {
                    0
                } else {
                    len - keep
                };
                self.pop_n(j, count);
                Ok(())
            },
        }
    }

    /// Remove events from the head of a subject's index, up to and
    /// including the first occurrence of `last`, collecting events no index
    /// lists any more.  If `last` is not in the index, nothing changes and
    /// the missing boundary is reported.
    pub fn purge(&mut self, log: &str, last: &str) -> (r: Result<(), AuditError>)
        requires
            old(self).wf(),
        ensures
            final(self).wf(),
            r is Ok <==> old(self).index_of(log@).contains(last@),
            match r {
                Ok(()) => prune_advances(
                    *old(self),
                    *final(self),
                    log@,
                    old(self).index_of(log@).index_of(last@) + 1,
                ),
                Err(err) => err == AuditError::BoundaryNotFound && *final(self) == *old(self),
            },
    {
        let key = log.to_owned();
        let boundary = last.to_owned();
        match find_subject(&self.indices, &key) {
            None => {
                proof {
                    lemma_index_in_absent(self.indices@, log@);
                }
                Err(AuditError::BoundaryNotFound)
            },
            Some(j) => {
                proof {
                    lemma_index_in_at(self.indices@, j as int);
                }
                let ghost ids = self.index_of(log@);
                let n = self.indices[j].ids.len();
                let mut m: usize = 0;
                while m < n
                    invariant
                        self.wf(),
                        *self == *old(self),
                        m <= n,
                        j < self.indices@.len(),
                        n == self.indices@[j as int].ids@.len(),
                        ids == self.indices@[j as int].ids.deep_view(),
                        ids == self.index_of(log@),
                        self.indices@[j as int].subject@ == log@,
                        boundary@ == last@,
                        forall|q: int| 0 <= q < m ==> ids[q] != last@,
                    decreases n - m,
                {
                    if self.indices[j].ids[m] == boundary {
                        proof {
                            assert(ids[m as int] == last@);
                            assert(ids.contains(last@));
                            assert(distinct_seq(self.indices@[j as int].ids.deep_view()));
                            // the match is the one `index_of` names
                            let p = ids.index_of(last@);
                            assert(0 <= p < ids.len() && ids[p] == last@);
                            if p != m as int {
                                assert(ids[p] != ids[m as int]);
                            }
                            assert(ids.index_of(last@) == m as int);
                        }
                        let ghost before = *self;
                        self.pop_n(j, m + 1);
                        proof {
                            assert(before == *old(self));
                            assert(prune_advances(before, *self, log@, m as int + 1));
                            assert(old(self).index_of(log@).index_of(last@) == m as int);
                            assert(prune_advances(
                                *old(self),
                                *self,
                                log@,
                                old(self).index_of(log@).index_of(last@) + 1,
                            ));
                        }
                        return Ok(());
                    }
                    m += 1;
                }
                proof {
                    assert(!ids.contains(last@));
                }
                Err(AuditError::BoundaryNotFound)
            },
        }
    }
}

/// Position of the entry for subject `key`, if one exists.
fn find_subject(ind: &Vec<SubjectIndex>, key: &String) -> (r: Option<usize>)
    ensures
        match r {
            Some(j) => j < ind@.len() && ind@[j as int].subject@ == key@,
            None => !has_subject_in(ind@, key@),
        },
{
    let mut j: usize = 0;
    while j < ind.len()
        invariant
            j <= ind@.len(),
            forall|k: int| 0 <= k < j ==> ind@[k].subject@ != key@,
        decreases ind@.len() - j,
    {
        if ind[j].subject == *key {
            return Some(j);
        }
        j += 1;
    }
    None
}

/// Position of the stored event with id `key`, if one exists.
fn find_event(evs: &Vec<StoredEvent>, key: &String) -> (r: Option<usize>)
    ensures
        match r {
            Some(i) => i < evs@.len() && evs@[i as int].id@ == key@,
            None => forall|i: int| 0 <= i < evs@.len() ==> evs@[i].id@ != key@,
        },
{
    let mut i: usize = 0;
    while i < evs.len()
        invariant
            i <= evs@.len(),
            forall|k: int| 0 <= k < i ==> evs@[k].id@ != key@,
        decreases evs@.len() - i,
    {
        if evs[i].id == *key {
            return Some(i);
        }
        i += 1;
    }
    None
}

/// Whether `v` lists the string `x`.
pub(crate) fn vec_has_str(v: &Vec<String>, x: &String) -> (b: bool)
    ensures
        b == v.deep_view().contains(x@),
{
    let mut i: usize = 0;
    while i < v.len()
        invariant
            i <= v@.len(),
            forall|k: int| 0 <= k < i ==> v.deep_view()[k] != x@,
        decreases v@.len() - i,
    {
        if v[i] == *x {
            assert(v.deep_view()[i as int] == x@);
            return true;
        }
        i += 1;
    }
    assert(!v.deep_view().contains(x@));
    false
}

proof fn lemma_count_eq_refs(s: AuditLog, x: Seq<char>, n: int)
    requires
        distinct_seq(s.subject_seq()),
        0 <= n <= s.indices@.len(),
    ensures
        s.count_referencing(x, n) == refs_in(s.indices@.take(n), x),
    decreases n,
{
    if n > 0 {
        lemma_count_eq_refs(s, x, n - 1);
        assert(s.indices@.take(n).drop_last() =~= s.indices@.take(n - 1));
        assert(s.indices@.take(n).last() == s.indices@[n - 1]);
        lemma_index_in_at(s.indices@, n - 1);
        assert(s.subject_seq()[n - 1] == s.indices@[n - 1].subject@);
    }
}

/// The registry never lists a subject twice, so `subjects()` returns no
/// duplicates.
pub proof fn lemma_registry_distinct(s: AuditLog)
    requires
        s.wf(),
    ensures
        distinct_seq(s.subject_seq()),
{
}

/// A subject the registry does not know has an empty index.
pub proof fn lemma_unregistered_index_empty(s: AuditLog, t: Seq<char>)
    requires
        s.wf(),
        !s.subjects_set().contains(t),
    ensures
        s.index_of(t) == Seq::<Seq<char>>::empty(),
{
    assert(!has_subject_in(s.indices@, t)) by {
        if has_subject_in(s.indices@, t) {
            let j = choose|j: int| 0 <= j < s.indices@.len() && s.indices@[j].subject@ == t;
            assert(s.subject_seq()[j] == t);
            assert(s.subject_seq().contains(t));
        }
    }
    lemma_index_in_absent(s.indices@, t);
}

/// Any subject's index lists an id at most once.
pub proof fn lemma_index_distinct(s: AuditLog, t: Seq<char>)
    requires
        s.wf(),
    ensures
        distinct_seq(s.index_of(t)),
{
    if has_subject_in(s.indices@, t) {
        let j = choose|j: int| 0 <= j < s.indices@.len() && s.indices@[j].subject@ == t;
        lemma_index_in_at(s.indices@, j);
        assert(distinct_seq(s.indices@[j].ids.deep_view()));
    } else {
        lemma_index_in_absent(s.indices@, t);
    }
}

/// The reference-count invariant, as every operation leaves it: the count
/// kept for an id equals the number of subject indices currently listing
/// it, an event's blob exists exactly while some index lists it, and both
/// vanish together — so no listed event is ever gone, and no unlisted
/// event lingers.
pub proof fn lemma_refcount_consistent(s: AuditLog, x: Seq<char>)
    requires
        s.wf(),
    ensures
        s.ref_of(x) == s.referencing_subjects(x),
        s.stored(x) <==> s.some_index_has(x),
        s.stored(x) ==> s.ref_of(x) >= 1,
        !s.stored(x) ==> s.ref_of(x) == 0,
{
    lemma_count_eq_refs(s, x, s.indices@.len() as int);
    assert(s.indices@.take(s.indices@.len() as int) =~= s.indices@);
    lemma_some_index_has(s, x);
    if s.stored(x) {
        lemma_data_some_pos(s.events@, x);
        let i = choose|i: int| 0 <= i < s.events@.len() && s.events@[i].id@ == x;
        lemma_data_at(s.events@, i);
    } else {
        assert forall|i: int| 0 <= i < s.events@.len() implies (#[trigger] s.events@[i].id@)
            != x by {
            if s.events@[i].id@ == x {
                lemma_data_at(s.events@, i);
            }
        }
        lemma_data_absent(s.events@, x);
        if s.some_index_has(x) {
            lemma_refs_in_pos(s.indices@, x);
            let j = choose|j: int|
                0 <= j < s.indices@.len() && s.indices@[j].ids.deep_view().contains(x);
            assert(s.indices@[j].ids.deep_view().contains(x));
            assert(data_in(s.events@, x) is Some);
        }
    }
}

/// After an accepted `log`, every subject of the event lists it — exactly
/// once, by [`lemma_index_distinct`] — and the reference-count invariant
/// ties its count to those subjects.
pub proof fn lemma_log_indexes_event(pre: AuditLog, post: AuditLog, e: Event, s: Seq<char>)
    requires
        post.wf(),
        log_advances(pre, post, e),
        e.has_subject(s),
    ensures
        post.index_of(s).contains(e.id@),
        distinct_seq(post.index_of(s)),
        post.ref_of(e.id@) == post.referencing_subjects(e.id@),
{
    if !pre.index_of(s).contains(e.id@) {
        assert(post.index_of(s) == pre.index_of(s).push(e.id@));
        lemma_contains_push(pre.index_of(s), e.id@, e.id@);
    }
    lemma_index_distinct(post, s);
    lemma_refcount_consistent(post, e.id@);
}

/// Logging the identical event a second time changes nothing: every index,
/// every blob, and the registry stay as they were.
pub proof fn lemma_log_idempotent(s0: AuditLog, s1: AuditLog, s2: AuditLog, e: Event)
    requires
        log_advances(s0, s1, e),
        log_advances(s1, s2, e),
    ensures
        forall|t: Seq<char>| (#[trigger] s2.index_of(t)) == s1.index_of(t),
        forall|x: Seq<char>| (#[trigger] s2.data_of(x)) == s1.data_of(x),
        s2.subjects_set() == s1.subjects_set(),
{
    assert forall|t: Seq<char>| (#[trigger] s2.index_of(t)) == s1.index_of(t) by {
        if e.has_subject(t) {
            lemma_contains_push(s0.index_of(t), e.id@, e.id@);
            assert(s1.index_of(t).contains(e.id@));
        }
    }
    assert(s1.stored(e.id@));
    assert(s2.subjects_set() =~= s1.subjects_set()) by {
        assert(s2.subjects_set() == s1.subjects_set().union(e.subject_set()));
        assert(s1.subjects_set() == s0.subjects_set().union(e.subject_set()));
    }
}

/// Sequential accepted `log` calls with distinct fresh ids against one
/// subject land at the tail of its index in exactly call order.
pub proof fn lemma_log_order(
    s0: AuditLog,
    s1: AuditLog,
    s2: AuditLog,
    s3: AuditLog,
    a: Event,
    b: Event,
    c: Event,
    t: Seq<char>,
)
    requires
        log_advances(s0, s1, a),
        log_advances(s1, s2, b),
        log_advances(s2, s3, c),
        a.has_subject(t),
        b.has_subject(t),
        c.has_subject(t),
        a.id@ != b.id@,
        a.id@ != c.id@,
        b.id@ != c.id@,
        !s0.index_of(t).contains(a.id@),
        !s0.index_of(t).contains(b.id@),
        !s0.index_of(t).contains(c.id@),
    ensures
        s3.index_of(t) == s0.index_of(t).push(a.id@).push(b.id@).push(c.id@),
{
    assert(s1.index_of(t) == s0.index_of(t).push(a.id@));
    lemma_contains_push(s0.index_of(t), a.id@, b.id@);
    assert(s2.index_of(t) == s1.index_of(t).push(b.id@));
    lemma_contains_push(s0.index_of(t), a.id@, c.id@);
    lemma_contains_push(s1.index_of(t), b.id@, c.id@);
    assert(s3.index_of(t) == s2.index_of(t).push(c.id@));
}

/// After a pruning step, an event no index lists any more is gone
/// entirely: neither its blob nor its reference count survives.
pub proof fn lemma_pruned_event_collected(
    pre: AuditLog,
    post: AuditLog,
    s: Seq<char>,
    k: int,
    x: Seq<char>,
)
    requires
        post.wf(),
        prune_advances(pre, post, s, k),
        !post.some_index_has(x),
    ensures
        post.data_of(x) is None,
        post.ref_of(x) == 0,
{
    lemma_refcount_consistent(post, x);
}

/// One operation against the audit log, for reasoning about whole runs.
pub enum AuditOp {
    Log(Event),
    Truncate(String, u32),
    Purge(String, String),
}

/// The step relation of one operation: what each operation's contract
/// says about the states before and after it.  A `Log` step is an accepted
/// call; a `Purge` whose boundary is missing leaves the state unchanged.
pub open spec fn op_advances(pre: AuditLog, post: AuditLog, op: AuditOp) -> bool {
    match op {
        AuditOp::Log(e) => log_advances(pre, post, e),
        AuditOp::Truncate(s, n) => prune_advances(
            pre,
            post,
            s@,
            trunc_drop(pre.index_of(s@).len() as int, n as int),
        ),
        AuditOp::Purge(s, last) => (!pre.index_of(s@).contains(last@) && post == pre) || (
        pre.index_of(s@).contains(last@) && prune_advances(
            pre,
            post,
            s@,
            pre.index_of(s@).index_of(last@) + 1,
        )),
    }
}

/// The subjects an operation introduces: those of a logged event.
pub open spec fn op_subjects(op: AuditOp) -> Set<Seq<char>> {
    match op {
        AuditOp::Log(e) => e.subject_set(),
        AuditOp::Truncate(s, n) => Set::empty(),
        AuditOp::Purge(s, last) => Set::empty(),
    }
}

/// A whole run: the operations of `ops` step from `pre` to `post` in order.
pub open spec fn run_ops(pre: AuditLog, ops: Seq<AuditOp>, post: AuditLog) -> bool
    decreases ops.len(),
{
    if ops.len() == 0 {
        post == pre
    } else {
        exists|mid: AuditLog|
            (#[trigger] op_advances(pre, mid, ops[0])) && run_ops(mid, ops.drop_first(), post)
    }
}

/// Every subject any operation of the run introduces.
pub open spec fn ops_subjects(ops: Seq<AuditOp>) -> Set<Seq<char>>
    decreases ops.len(),
{
    if ops.len() == 0 {
        Set::empty()
    } else {
        op_subjects(ops[0]).union(ops_subjects(ops.drop_first()))
    }
}

/// After any run of operations, the registry holds exactly the subjects it
/// held before plus every subject of every event logged — truncating or
/// purging a subject's index never removes it from the registry.
pub proof fn lemma_registry_exact(pre: AuditLog, ops: Seq<AuditOp>, post: AuditLog)
    requires
        run_ops(pre, ops, post),
    ensures
        post.subjects_set() == pre.subjects_set().union(ops_subjects(ops)),
    decreases ops.len(),
{
    if ops.len() == 0 {
        assert(post.subjects_set() =~= pre.subjects_set().union(ops_subjects(ops)));
    } else {
        let mid = choose|mid: AuditLog|
            (#[trigger] op_advances(pre, mid, ops[0])) && run_ops(mid, ops.drop_first(), post);
        lemma_registry_exact(mid, ops.drop_first(), post);
        assert(mid.subjects_set() == pre.subjects_set().union(op_subjects(ops[0]))) by {
            match ops[0] {
                AuditOp::Log(e) => {
                },
                AuditOp::Truncate(s, n) => {
                    assert(mid.subjects_set() =~= pre.subjects_set().union(Set::empty()));
                },
                AuditOp::Purge(s, last) => {
                    assert(mid.subjects_set() =~= pre.subjects_set().union(Set::empty()));
                },
            }
        }
        assert(post.subjects_set() =~= pre.subjects_set().union(ops_subjects(ops)));
    }
}

proof fn lemma_contains_push<T>(s: Seq<T>, a: T, x: T)
    ensures
        s.push(a).contains(x) <==> (s.contains(x) || x == a),
{
    if s.contains(x) {
        let i = choose|i: int| 0 <= i < s.len() && s[i] == x;
        assert(s.push(a)[i] == x);
    }
    if x == a {
        assert(s.push(a)[s.len() as int] == x);
    }
    if s.push(a).contains(x) {
        let i = choose|i: int| 0 <= i < s.push(a).len() && s.push(a)[i] == x;
        if i < s.len() {
            assert(s[i] == x);
        }
    }
}

proof fn lemma_contains_drop_first<T>(s: Seq<T>, x: T)
    requires
        s.len() > 0,
    ensures
        x != s[0] ==> (s.drop_first().contains(x) <==> s.contains(x)),
        s.drop_first().contains(x) ==> s.contains(x),
{
    if s.drop_first().contains(x) {
        let i = choose|i: int| 0 <= i < s.drop_first().len() && s.drop_first()[i] == x;
        assert(s[i + 1] == x);
    }
    if x != s[0] && s.contains(x) {
        let i = choose|i: int| 0 <= i < s.len() && s[i] == x;
        assert(s.drop_first()[i - 1] == x);
    }
}

proof fn lemma_contains_skip<T>(s: Seq<T>, k: int, x: T)
    requires
        0 <= k <= s.len(),
        s.skip(k).contains(x),
    ensures
        s.contains(x),
{
    let i = choose|i: int| 0 <= i < s.skip(k).len() && s.skip(k)[i] == x;
    assert(s[i + k] == x);
}

/// The first entry for a subject is the only one when subjects are distinct.
proof fn lemma_index_in_at(ind: Seq<SubjectIndex>, j: int)
    requires
        distinct_seq(subjects_of(ind)),
        0 <= j < ind.len(),
    ensures
        index_in(ind, ind[j].subject@) == ind[j].ids.deep_view(),
    decreases ind.len(),
{
    if j == 0 {
    } else {
        assert(subjects_of(ind)[0] != subjects_of(ind)[j]);
        assert(subjects_of(ind.drop_first()) =~= subjects_of(ind).drop_first());
        assert(distinct_seq(subjects_of(ind.drop_first()))) by {
            assert forall|a: int, b: int|
                0 <= a < b < subjects_of(ind.drop_first()).len() implies subjects_of(
                ind.drop_first(),
            )[a] != subjects_of(ind.drop_first())[b] by {
                assert(subjects_of(ind)[a + 1] != subjects_of(ind)[b + 1]);
            }
        }
        lemma_index_in_at(ind.drop_first(), j - 1);
        assert(ind.drop_first()[j - 1] == ind[j]);
    }
}

proof fn lemma_index_in_absent(ind: Seq<SubjectIndex>, s: Seq<char>)
    requires
        !has_subject_in(ind, s),
    ensures
        index_in(ind, s) == Seq::<Seq<char>>::empty(),
    decreases ind.len(),
{
    if ind.len() > 0 {
        assert(ind[0].subject@ != s);
        assert(!has_subject_in(ind.drop_first(), s)) by {
            if has_subject_in(ind.drop_first(), s) {
                let j = choose|j: int|
                    0 <= j < ind.drop_first().len() && ind.drop_first()[j].subject@ == s;
                assert(ind[j + 1].subject@ == s);
            }
        }
        lemma_index_in_absent(ind.drop_first(), s);
    }
}

/// Entries other than `j` keep their index when entry `j` changes in place.
proof fn lemma_index_in_frame(ind: Seq<SubjectIndex>, ind2: Seq<SubjectIndex>, j: int, t: Seq<char>)
    requires
        ind2.len() == ind.len(),
        0 <= j < ind.len(),
        forall|k: int| 0 <= k < ind.len() && k != j ==> ind2[k] == ind[k],
        ind2[j].subject@ == ind[j].subject@,
        t != ind[j].subject@,
    ensures
        index_in(ind2, t) == index_in(ind, t),
    decreases ind.len(),
{
    assert(ind2[0].subject@ == ind[0].subject@);
    if ind[0].subject@ == t {
        assert(j != 0);
        assert(ind2[0] == ind[0]);
    } else {
        if j == 0 {
            assert(ind2.drop_first() =~= ind.drop_first());
        } else {
            assert(ind2.drop_first().len() == ind.drop_first().len());
            assert(forall|k: int|
                0 <= k < ind.drop_first().len() && k != j - 1 ==> ind2.drop_first()[k]
                    == ind.drop_first()[k]);
            assert(ind2.drop_first()[j - 1] == ind2[j]);
            assert(ind.drop_first()[j - 1] == ind[j]);
            lemma_index_in_frame(ind.drop_first(), ind2.drop_first(), j - 1, t);
        }
    }
}

/// Appending a fresh index entry leaves every other subject's index alone.
proof fn lemma_index_in_push(ind: Seq<SubjectIndex>, e: SubjectIndex, t: Seq<char>)
    ensures
        has_subject_in(ind, t) ==> index_in(ind.push(e), t) == index_in(ind, t),
        !has_subject_in(ind, t) && e.subject@ == t ==> index_in(ind.push(e), t)
            == e.ids.deep_view(),
        !has_subject_in(ind, t) && e.subject@ != t ==> index_in(ind.push(e), t) == Seq::<
            Seq<char>,
        >::empty(),
    decreases ind.len(),
{
    if ind.len() == 0 {
        assert(ind.push(e).len() == 1);
        assert(ind.push(e)[0] == e);
        if e.subject@ != t {
            assert(ind.push(e).drop_first() =~= Seq::<SubjectIndex>::empty());
            assert(index_in(ind.push(e).drop_first(), t) == Seq::<Seq<char>>::empty());
        }
    } else {
        assert(ind.push(e)[0] == ind[0]);
        if ind[0].subject@ == t {
            assert(has_subject_in(ind, t));
        } else {
            assert(ind.push(e).drop_first() =~= ind.drop_first().push(e));
            assert(has_subject_in(ind, t) ==> has_subject_in(ind.drop_first(), t)) by {
                if has_subject_in(ind, t) {
                    let j = choose|j: int| 0 <= j < ind.len() && ind[j].subject@ == t;
                    assert(j != 0);
                    assert(ind.drop_first()[j - 1].subject@ == t);
                }
            }
            assert(has_subject_in(ind.drop_first(), t) ==> has_subject_in(ind, t)) by {
                if has_subject_in(ind.drop_first(), t) {
                    let j = choose|j: int|
                        0 <= j < ind.drop_first().len() && ind.drop_first()[j].subject@ == t;
                    assert(ind[j + 1].subject@ == t);
                }
            }
            lemma_index_in_push(ind.drop_first(), e, t);
        }
    }
}

proof fn lemma_refs_in_le(ind: Seq<SubjectIndex>, x: Seq<char>)
    ensures
        refs_in(ind, x) <= ind.len(),
    decreases ind.len(),
{
    if ind.len() > 0 {
        lemma_refs_in_le(ind.drop_last(), x);
    }
}

proof fn lemma_refs_in_pos(ind: Seq<SubjectIndex>, x: Seq<char>)
    ensures
        refs_in(ind, x) > 0 <==> exists|j: int|
            0 <= j < ind.len() && ind[j].ids.deep_view().contains(x),
    decreases ind.len(),
{
    if ind.len() > 0 {
        lemma_refs_in_pos(ind.drop_last(), x);
        if refs_in(ind.drop_last(), x) > 0 {
            let j = choose|j: int|
                0 <= j < ind.drop_last().len() && ind.drop_last()[j].ids.deep_view().contains(x);
            assert(ind[j].ids.deep_view().contains(x));
        }
        if ind.last().ids.deep_view().contains(x) {
            assert(ind[ind.len() - 1].ids.deep_view().contains(x));
        }
        if exists|j: int| 0 <= j < ind.len() && ind[j].ids.deep_view().contains(x) {
            let j = choose|j: int| 0 <= j < ind.len() && ind[j].ids.deep_view().contains(x);
            if j < ind.len() - 1 {
                assert(ind.drop_last()[j].ids.deep_view().contains(x));
            }
        }
    }
}

/// How a point change of entry `j` shifts the reference total for `x`.
proof fn lemma_refs_in_update(ind: Seq<SubjectIndex>, ind2: Seq<SubjectIndex>, j: int, x: Seq<char>)
    requires
        ind2.len() == ind.len(),
        0 <= j < ind.len(),
        forall|k: int| 0 <= k < ind.len() && k != j ==> ind2[k] == ind[k],
    ensures
        refs_in(ind2, x) + (if ind[j].ids.deep_view().contains(x) {
            1nat
        } else {
            0nat
        }) == refs_in(ind, x) + (if ind2[j].ids.deep_view().contains(x) {
            1nat
        } else {
            0nat
        }),
    decreases ind.len(),
{
    if j == ind.len() - 1 {
        assert(ind2.drop_last() =~= ind.drop_last());
    } else {
        assert(ind2.last() == ind.last());
        assert(ind2.drop_last().len() == ind.drop_last().len());
        assert(forall|k: int|
            0 <= k < ind.drop_last().len() && k != j ==> ind2.drop_last()[k] == ind.drop_last()[k]);
        assert(ind2.drop_last()[j] == ind2[j]);
        assert(ind.drop_last()[j] == ind[j]);
        lemma_refs_in_update(ind.drop_last(), ind2.drop_last(), j, x);
    }
}

proof fn lemma_refs_in_push(ind: Seq<SubjectIndex>, e: SubjectIndex, x: Seq<char>)
    ensures
        refs_in(ind.push(e), x) == refs_in(ind, x) + (if e.ids.deep_view().contains(x) {
            1nat
        } else {
            0nat
        }),
{
    assert(ind.push(e).drop_last() =~= ind);
    assert(ind.push(e).last() == e);
}

proof fn lemma_data_at(evs: Seq<StoredEvent>, i: int)
    requires
        forall|a: int, b: int| 0 <= a < b < evs.len() ==> evs[a].id@ != evs[b].id@,
        0 <= i < evs.len(),
    ensures
        data_in(evs, evs[i].id@) == Some(evs[i].data@),
        ref_in(evs, evs[i].id@) == evs[i].refs as nat,
    decreases evs.len(),
{
    if i == evs.len() - 1 {
    } else {
        assert(evs.last().id@ != evs[i].id@);
        assert(evs.drop_last()[i] == evs[i]);
        lemma_data_at(evs.drop_last(), i);
    }
}

proof fn lemma_data_absent(evs: Seq<StoredEvent>, x: Seq<char>)
    requires
        forall|i: int| 0 <= i < evs.len() ==> evs[i].id@ != x,
    ensures
        data_in(evs, x) is None,
        ref_in(evs, x) == 0,
    decreases evs.len(),
{
    if evs.len() > 0 {
        lemma_data_absent(evs.drop_last(), x);
    }
}

/// Entries other than `i` keep their blob and count when entry `i` changes
/// without changing its id.
/// Some index lists `x` exactly when the entry-wise reference total is
/// positive.
proof fn lemma_some_index_has(s: AuditLog, x: Seq<char>)
    requires
        distinct_seq(s.subject_seq()),
    ensures
        s.some_index_has(x) <==> refs_in(s.indices@, x) > 0,
{
    lemma_refs_in_pos(s.indices@, x);
    if s.some_index_has(x) {
        let j = choose|j: int|
            0 <= j < s.subject_seq().len() && s.index_of(s.subject_seq()[j]).contains(x);
        lemma_index_in_at(s.indices@, j);
        assert(s.indices@[j].ids.deep_view().contains(x));
    }
    if refs_in(s.indices@, x) > 0 {
        let j = choose|j: int| 0 <= j < s.indices@.len() && s.indices@[j].ids.deep_view().contains(x);
        lemma_index_in_at(s.indices@, j);
        assert(s.index_of(s.subject_seq()[j]).contains(x));
    }
}

/// A state in the invariant prunes to itself by removing nothing.
proof fn lemma_prune_refl(s: AuditLog, subj: Seq<char>)
    requires
        s.wf(),
    ensures
        prune_advances(s, s, subj, 0),
{
    assert(s.index_of(subj).skip(0) =~= s.index_of(subj));
    assert forall|x: Seq<char>| (#[trigger] s.data_of(x)) == (if s.some_index_has(x) {
        s.data_of(x)
    } else {
        None
    }) by {
        lemma_some_index_has(s, x);
        if !s.some_index_has(x) && data_in(s.events@, x) is Some {
            lemma_data_some_pos(s.events@, x);
            let i = choose|i: int| 0 <= i < s.events@.len() && s.events@[i].id@ == x;
            assert(s.events@[i].refs >= 1);
        }
    }
}

/// Two consecutive pruning steps on the same subject compose.
proof fn lemma_prune_trans(a: AuditLog, b: AuditLog, c: AuditLog, subj: Seq<char>, k1: int, k2: int)
    requires
        prune_advances(a, b, subj, k1),
        prune_advances(b, c, subj, k2),
        0 <= k1 <= a.index_of(subj).len(),
        0 <= k2 <= b.index_of(subj).len(),
    ensures
        prune_advances(a, c, subj, k1 + k2),
{
    assert(c.index_of(subj) =~= a.index_of(subj).skip(k1 + k2));
    assert forall|x: Seq<char>| #[trigger] c.some_index_has(x) implies b.some_index_has(x) by {
        let j = choose|j: int|
            0 <= j < c.subject_seq().len() && c.index_of(c.subject_seq()[j]).contains(x);
        let t = c.subject_seq()[j];
        assert(b.subject_seq()[j] == t);
        if t == subj {
            lemma_contains_skip(b.index_of(subj), k2, x);
        }
        assert(b.index_of(t).contains(x));
    }
}

proof fn lemma_data_some_pos(evs: Seq<StoredEvent>, x: Seq<char>)
    requires
        data_in(evs, x) is Some,
    ensures
        exists|i: int| 0 <= i < evs.len() && evs[i].id@ == x,
    decreases evs.len(),
{
    if evs.len() > 0 {
        if evs.last().id@ == x {
            assert(evs[evs.len() - 1].id@ == x);
        } else {
            lemma_data_some_pos(evs.drop_last(), x);
            let i = choose|i: int| 0 <= i < evs.drop_last().len() && evs.drop_last()[i].id@ == x;
            assert(evs[i].id@ == x);
        }
    }
}

proof fn lemma_evs_update(evs: Seq<StoredEvent>, evs2: Seq<StoredEvent>, i: int, x: Seq<char>)
    requires
        evs2.len() == evs.len(),
        0 <= i < evs.len(),
        forall|k: int| 0 <= k < evs.len() && k != i ==> evs2[k] == evs[k],
        evs2[i].id@ == evs[i].id@,
        x != evs[i].id@,
    ensures
        data_in(evs2, x) == data_in(evs, x),
        ref_in(evs2, x) == ref_in(evs, x),
    decreases evs.len(),
{
    if i == evs.len() - 1 {
        assert(evs2.drop_last() =~= evs.drop_last());
    } else {
        assert(evs2.last() == evs.last());
        assert(evs2.drop_last().len() == evs.drop_last().len());
        assert(forall|k: int|
            0 <= k < evs.drop_last().len() && k != i ==> evs2.drop_last()[k]
                == evs.drop_last()[k]);
        assert(evs2.drop_last()[i] == evs2[i]);
        assert(evs.drop_last()[i] == evs[i]);
        lemma_evs_update(evs.drop_last(), evs2.drop_last(), i, x);
    }
}

proof fn lemma_evs_push(evs: Seq<StoredEvent>, e: StoredEvent, x: Seq<char>)
    ensures
        data_in(evs.push(e), x) == (if e.id@ == x {
            Some(e.data@)
        } else {
            data_in(evs, x)
        }),
        ref_in(evs.push(e), x) == (if e.id@ == x {
            e.refs as nat
        } else {
            ref_in(evs, x)
        }),
{
    assert(evs.push(e).drop_last() =~= evs);
    assert(evs.push(e).last() == e);
}

proof fn lemma_evs_remove(evs: Seq<StoredEvent>, i: int, x: Seq<char>)
    requires
        forall|a: int, b: int| 0 <= a < b < evs.len() ==> evs[a].id@ != evs[b].id@,
        0 <= i < evs.len(),
    ensures
        data_in(evs.remove(i), x) == (if x == evs[i].id@ {
            None
        } else {
            data_in(evs, x)
        }),
        ref_in(evs.remove(i), x) == (if x == evs[i].id@ {
            0nat
        } else {
            ref_in(evs, x)
        }),
    decreases evs.len(),
{
    if i == evs.len() - 1 {
        assert(evs.remove(i) =~= evs.drop_last());
        if x == evs[i].id@ {
            lemma_data_absent(evs.drop_last(), x);
        }
    } else {
        assert(evs.remove(i).drop_last() =~= evs.drop_last().remove(i));
        assert(evs.remove(i).last() == evs.last());
        assert(evs.drop_last()[i] == evs[i]);
        lemma_evs_remove(evs.drop_last(), i, x);
    }
}

} // verus!
