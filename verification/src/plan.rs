//! Planning of primitive store commands.
//!
//! The store-side transaction primitive executes a short sequence of
//! primitive key-value commands as one indivisible unit.  The functions
//! here compute those sequences from a snapshot of the watched keys — every
//! decision (duplicate detection, per-pair idempotence, how many entries to
//! drop, when a blob's last reference goes) is made in verified code, and
//! the I/O shell only executes what was planned.

use vstd::prelude::*;
use vstd::string::StringExecFns;

use crate::errors::AuditError;
use crate::event::Event;
use crate::index::{prefix_has, vec_has_str};

verus! {

/// One primitive command against the key-value store.
pub enum StoreCmd {
    /// Create `key` with `value` only if `key` does not exist.
    SetIfAbsent { key: String, value: String },
    /// Add `member` to the set stored at `key`.
    AddToSet { key: String, member: String },
    /// Append `value` at the tail of the list stored at `key`.
    PushBack { key: String, value: String },
    /// Drop the head of the list stored at `key`.
    PopFront { key: String },
    /// Raise the integer stored at `key` by one.
    Increment { key: String },
    /// Lower the integer stored at `key` by one.
    Decrement { key: String },
    /// Delete `key` outright.
    DeleteKey { key: String },
}

/// The mathematical shape of one command: its kind and the key strings.
pub enum CmdView {
    SetIfAbsent(Seq<char>, Seq<char>),
    AddToSet(Seq<char>, Seq<char>),
    PushBack(Seq<char>, Seq<char>),
    PopFront(Seq<char>),
    Increment(Seq<char>),
    Decrement(Seq<char>),
    DeleteKey(Seq<char>),
}

impl View for StoreCmd {
    type V = CmdView;

    open spec fn view(&self) -> CmdView {
        match self {
            StoreCmd::SetIfAbsent { key, value } => CmdView::SetIfAbsent(key@, value@),
            StoreCmd::AddToSet { key, member } => CmdView::AddToSet(key@, member@),
            StoreCmd::PushBack { key, value } => CmdView::PushBack(key@, value@),
            StoreCmd::PopFront { key } => CmdView::PopFront(key@),
            StoreCmd::Increment { key } => CmdView::Increment(key@),
            StoreCmd::Decrement { key } => CmdView::Decrement(key@),
            StoreCmd::DeleteKey { key } => CmdView::DeleteKey(key@),
        }
    }
}

/// The views of a command list, in order.
pub open spec fn cmds_view(s: Seq<StoreCmd>) -> Seq<CmdView> {
    Seq::new(s.len(), |i: int| s[i]@)
}

/// The key holding an event's blob: `audit:` followed by its id.
pub open spec fn event_key_spec(id: Seq<char>) -> Seq<char> {
    "audit:"@ + id
}

/// The key holding an event's reference count: the blob key plus `:ref`.
pub open spec fn ref_key_spec(id: Seq<char>) -> Seq<char> {
    "audit:"@ + id + ":ref"@
}

/// The fixed key of the subject registry.
pub open spec fn registry_key_spec() -> Seq<char> {
    "subjects"@
}

/// The store key of an event's blob.
pub fn event_key(id: &str) -> (r: String)
    ensures
        r@ == event_key_spec(id@),
{
    let mut r = String::from_str("audit:");
    r.append(id);
    r
}

/// The store key of an event's reference count.
pub fn ref_count_key(id: &str) -> (r: String)
    ensures
        r@ == ref_key_spec(id@),
{
    let mut r = String::from_str("audit:");
    r.append(id);
    r.append(":ref");
    r
}

/// The store key of the subject registry.
pub fn registry_key() -> (r: String)
    ensures
        r@ == registry_key_spec(),
{
    String::from_str("subjects")
}

/// The commands one subject of a logged event contributes: the subject
/// enters the registry, and the id is appended — with its count raised —
/// only if the subject's index does not already list it.
pub open spec fn log_subject_cmds(id: Seq<char>, subj: Seq<char>, present: bool) -> Seq<CmdView> {
    seq![CmdView::AddToSet(registry_key_spec(), subj)] + if present {
        Seq::empty()
    } else {
        seq![CmdView::PushBack(subj, id), CmdView::Increment(ref_key_spec(id))]
    }
}

/// Whether the plan appends the event's id for subject `k`: its snapshot
/// index does not list the id, and no earlier subject of the same event is
/// the same string — an earlier occurrence already planned the append, so
/// a repeated subject must not append or increment twice.
pub open spec fn plan_appends(e: Event, indices: Seq<Seq<Seq<char>>>, k: int) -> bool {
    &&& !indices[k].contains(e.id@)
    &&& !prefix_has(e.subjects.deep_view(), k, e.subjects.deep_view()[k])
}

/// The whole command sequence of an accepted `log` over the snapshot
/// `indices` of the subjects' index lists: conditional-create of the blob,
/// then each subject's contribution in order.
pub open spec fn log_cmds(e: Event, indices: Seq<Seq<Seq<char>>>, n: int) -> Seq<CmdView>
    decreases n,
{
    if n <= 0 {
        seq![CmdView::SetIfAbsent(event_key_spec(e.id@), e.data@)]
    } else {
        log_cmds(e, indices, n - 1) + log_subject_cmds(
            e.id@,
            e.subjects@[n - 1]@,
            !plan_appends(e, indices, n - 1),
        )
    }
}

/// Whether an earlier subject of the event is the same string as subject
/// `k`.
fn subject_seen(subjects: &Vec<String>, k: usize) -> (b: bool)
    requires
        k < subjects@.len(),
    ensures
        b == prefix_has(subjects.deep_view(), k as int, subjects.deep_view()[k as int]),
{
    let mut i: usize = 0;
    while i < k
        invariant
            i <= k,
            k < subjects@.len(),
            forall|q: int| 0 <= q < i ==> subjects.deep_view()[q] != subjects.deep_view()[k as int],
        decreases k - i,
    {
        if subjects[i] == subjects[k] {
            assert(subjects.deep_view()[i as int] == subjects.deep_view()[k as int]);
            return true;
        }
        i += 1;
    }
    false
}

/// Where the first occurrence of a listed string sits: at or before any
/// occurrence there is one with nothing equal in front of it.
proof fn lemma_first_occurrence(sv: Seq<Seq<char>>, t: Seq<char>, k: int)
    requires
        0 <= k < sv.len(),
        sv[k] == t,
    ensures
        exists|k0: int| 0 <= k0 <= k && sv[k0] == t && !prefix_has(sv, k0, t),
    decreases k,
{
    if prefix_has(sv, k, t) {
        let j = choose|j: int| 0 <= j < k && sv[j] == t;
        lemma_first_occurrence(sv, t, j);
        let k0 = choose|k0: int| 0 <= k0 <= j && sv[k0] == t && !prefix_has(sv, k0, t);
        assert(0 <= k0 <= k && sv[k0] == t && !prefix_has(sv, k0, t));
    } else {
        assert(0 <= k <= k && sv[k] == t && !prefix_has(sv, k, t));
    }
}

/// Over a faithful snapshot — `indices[k]` is the model's index of the
/// event's subject `k` — the plan appends the id for exactly the subjects
/// the model's `log` appends it for (the pair was not yet indexed), and
/// for each such subject at exactly one position: what the model states as
/// `log_advances` is what the planned commands do to the subject indices.
pub proof fn lemma_plan_appends_match_model(
    pre: crate::index::AuditLog,
    e: Event,
    indices: Seq<Seq<Seq<char>>>,
    t: Seq<char>,
)
    requires
        indices.len() == e.subjects@.len(),
        forall|k: int|
            0 <= k < indices.len() ==> indices[k] == pre.index_of(e.subjects.deep_view()[k]),
    ensures
        (exists|k: int|
            0 <= k < indices.len() && e.subjects.deep_view()[k] == t && #[trigger] plan_appends(
                e,
                indices,
                k,
            )) <==> (e.has_subject(t) && !pre.index_of(t).contains(e.id@)),
        forall|k1: int, k2: int|
            0 <= k1 < k2 < indices.len() && plan_appends(e, indices, k1) && plan_appends(
                e,
                indices,
                k2,
            ) ==> e.subjects.deep_view()[k1] != e.subjects.deep_view()[k2],
{
    let sv = e.subjects.deep_view();
    if exists|k: int|
        0 <= k < indices.len() && sv[k] == t && #[trigger] plan_appends(e, indices, k) {
        let k = choose|k: int|
            0 <= k < indices.len() && sv[k] == t && #[trigger] plan_appends(e, indices, k);
        assert(sv.contains(t)) by {
            assert(sv[k] == t);
        }
        assert(!pre.index_of(t).contains(e.id@));
    }
    if e.has_subject(t) && !pre.index_of(t).contains(e.id@) {
        let w = choose|w: int| 0 <= w < sv.len() && sv[w] == t;
        lemma_first_occurrence(sv, t, w);
        let k0 = choose|k0: int| 0 <= k0 <= w && sv[k0] == t && !prefix_has(sv, k0, t);
        assert(plan_appends(e, indices, k0));
    }
    assert forall|k1: int, k2: int|
        0 <= k1 < k2 < indices.len() && plan_appends(e, indices, k1) && plan_appends(
            e,
            indices,
            k2,
        ) implies sv[k1] != sv[k2] by {
        if sv[k1] == sv[k2] {
            assert(prefix_has(sv, k2, sv[k2])) by {
                assert(0 <= k1 < k2 && sv[k1] == sv[k2]);
            }
        }
    }
}

/// Plan an entire `log` call from the in-transaction snapshot: `existing`
/// is the blob currently under the event's key, `indices` the current
/// index list of each of the event's subjects, in the same order.
pub fn plan_log(e: &Event, existing: Option<&String>, indices: &Vec<Vec<String>>) -> (r: Result<
    Vec<StoreCmd>,
    AuditError,
>)
    requires
        indices@.len() == e.subjects@.len(),
    ensures
        match r {
            Ok(cmds) => (existing matches Some(d) ==> d@ == e.data@) && cmds_view(cmds@)
                == log_cmds(*e, indices.deep_view(), e.subjects@.len() as int),
            Err(err) => err == AuditError::DuplicateEvent && (existing matches Some(d) && d@
                != e.data@),
        },
{
    match existing {
        Some(d) => {
            if !(*d == e.data) {
                return Err(AuditError::DuplicateEvent);
            }
        },
        None => {},
    }
    let mut cmds: Vec<StoreCmd> = Vec::new();
    cmds.push(
        StoreCmd::SetIfAbsent { key: event_key(e.id.as_str()), value: e.data.clone() },
    );
    proof {
        assert(cmds_view(cmds@) =~= log_cmds(*e, indices.deep_view(), 0));
    }
    let mut k: usize = 0;
    while k < e.subjects.len()
        invariant
            indices@.len() == e.subjects@.len(),
            k <= e.subjects@.len(),
            cmds_view(cmds@) == log_cmds(*e, indices.deep_view(), k as int),
        decreases e.subjects@.len() - k,
    {
        let subj = &e.subjects[k];
        cmds.push(StoreCmd::AddToSet { key: registry_key(), member: subj.clone() });
        let present = vec_has_str(&indices[k], &e.id) || subject_seen(&e.subjects, k);
        proof {
            assert(indices.deep_view()[k as int] == indices@[k as int].deep_view());
            assert(present == !plan_appends(*e, indices.deep_view(), k as int));
        }
        if !present {
            cmds.push(StoreCmd::PushBack { key: subj.clone(), value: e.id.clone() });
            cmds.push(StoreCmd::Increment { key: ref_count_key(e.id.as_str()) });
        }
        proof {
            assert(indices.deep_view()[k as int] == indices@[k as int].deep_view());
            assert(cmds_view(cmds@) =~= log_cmds(*e, indices.deep_view(), k + 1));
        }
        k += 1;
    }
    Ok(cmds)
}

/// When the in-transaction snapshot under the event's key is faithful to
/// the model state, the planner refuses exactly the events the model's
/// `log` refuses: an id that already names different content.
pub proof fn lemma_plan_refusal_matches_model(
    pre: crate::index::AuditLog,
    e: Event,
    existing: Option<Seq<char>>,
)
    requires
        existing == pre.data_of(e.id@),
    ensures
        (existing matches Some(d) && d != e.data@) <==> crate::index::log_rejected(pre, e),
{
}

/// Over a faithful count — `refs` is the model's reference count of a
/// listed id — the plan deletes the blob and count keys exactly when this
/// removal drops the last reference: the model's invariant puts the count
/// at one precisely when one subject index still lists the id.
pub proof fn lemma_prune_delete_matches_model(pre: crate::index::AuditLog, id: Seq<char>, refs: u64)
    requires
        pre.wf(),
        refs as nat == pre.ref_of(id),
        pre.some_index_has(id),
    ensures
        (refs <= 1) <==> (pre.referencing_subjects(id) == 1),
{
    crate::index::lemma_refcount_consistent(pre, id);
}

/// The commands that remove one listed id from the head of a subject's
/// index, where `refs` is the reference count read in the same
/// transaction: the count is lowered, and when this was its last
/// reference, the blob and the count are deleted with it.
pub open spec fn removal_cmds(subj: Seq<char>, id: Seq<char>, refs: u64) -> Seq<CmdView> {
    seq![CmdView::PopFront(subj), CmdView::Decrement(ref_key_spec(id))] + if refs <= 1 {
        seq![
            CmdView::DeleteKey(event_key_spec(id)),
            CmdView::DeleteKey(ref_key_spec(id)),
        ]
    } else {
        Seq::empty()
    }
}

/// The command sequence pruning the `n` oldest entries of a subject's
/// index, given the ids at its head and their current reference counts.
pub open spec fn prune_cmds(subj: Seq<char>, ids: Seq<Seq<char>>, refs: Seq<u64>, n: int) -> Seq<
    CmdView,
>
    decreases n,
{
    if n <= 0 {
        Seq::empty()
    } else {
        prune_cmds(subj, ids, refs, n - 1) + removal_cmds(subj, ids[n - 1], refs[n - 1])
    }
}

/// Plan the removal of the `count` oldest entries of a subject's index.
/// `ids` are the entries at the head of the index, oldest first, and
/// `refs` their reference counts, both read in the same transaction.
pub fn plan_prune(subject: &str, ids: &Vec<String>, refs: &Vec<u64>, count: usize) -> (r: Vec<
    StoreCmd,
>)
    requires
        count <= ids@.len(),
        refs@.len() == ids@.len(),
    ensures
        cmds_view(r@) == prune_cmds(subject@, ids.deep_view(), refs@, count as int),
{
    let mut cmds: Vec<StoreCmd> = Vec::new();
    proof {
        assert(cmds_view(cmds@) =~= prune_cmds(subject@, ids.deep_view(), refs@, 0));
    }
    let mut k: usize = 0;
    while k < count
        invariant
            count <= ids@.len(),
            refs@.len() == ids@.len(),
            k <= count,
            cmds_view(cmds@) == prune_cmds(subject@, ids.deep_view(), refs@, k as int),
        decreases count - k,
    {
        let id = &ids[k];
        cmds.push(StoreCmd::PopFront { key: subject.to_owned() });
        cmds.push(StoreCmd::Decrement { key: ref_count_key(id.as_str()) });
        if refs[k] <= 1 {
            cmds.push(StoreCmd::DeleteKey { key: event_key(id.as_str()) });
            cmds.push(StoreCmd::DeleteKey { key: ref_count_key(id.as_str()) });
        }
        proof {
            assert(ids.deep_view()[k as int] == ids@[k as int]@);
            assert(cmds_view(cmds@) =~= prune_cmds(subject@, ids.deep_view(), refs@, k + 1));
        }
        k += 1;
    }
    cmds
}

/// The keys a `log` transaction must watch before reading anything: the
/// event's blob and count keys, the registry, and each subject's index.
pub open spec fn log_watch_spec(e: Event, n: int) -> Seq<Seq<char>>
    decreases n,
{
    if n <= 0 {
        seq![event_key_spec(e.id@), ref_key_spec(e.id@), registry_key_spec()]
    } else {
        log_watch_spec(e, n - 1) + seq![e.subjects@[n - 1]@]
    }
}

/// The watch set of a `log` transaction.
pub fn log_watch_keys(e: &Event) -> (r: Vec<String>)
    ensures
        r.deep_view() == log_watch_spec(*e, e.subjects@.len() as int),
{
    let mut r: Vec<String> = Vec::new();
    r.push(event_key(e.id.as_str()));
    r.push(ref_count_key(e.id.as_str()));
    r.push(registry_key());
    proof {
        assert(r.deep_view() =~= log_watch_spec(*e, 0));
    }
    let mut k: usize = 0;
    while k < e.subjects.len()
        invariant
            k <= e.subjects@.len(),
            r.deep_view() == log_watch_spec(*e, k as int),
        decreases e.subjects@.len() - k,
    {
        r.push(e.subjects[k].clone());
        proof {
            assert(r.deep_view() =~= log_watch_spec(*e, k + 1));
        }
        k += 1;
    }
    r
}

/// The keys a pruning transaction must watch before reading any of the
/// reference counts it plans from: the subject's index, the registry, and
/// each candidate's count and blob keys — without them under watch, a
/// concurrent writer could move a count between the read and the commit,
/// and a planned deletion would collect a still-referenced blob or strand
/// an unreferenced one.
pub open spec fn prune_watch_spec(subject: Seq<char>, ids: Seq<Seq<char>>, n: int) -> Seq<Seq<char>>
    decreases n,
{
    if n <= 0 {
        seq![subject, registry_key_spec()]
    } else {
        prune_watch_spec(subject, ids, n - 1) + seq![
            ref_key_spec(ids[n - 1]),
            event_key_spec(ids[n - 1]),
        ]
    }
}

/// The watch set of a `truncate` or `purge` transaction over the listed
/// candidate ids.
pub fn prune_watch_keys(subject: &str, ids: &Vec<String>) -> (r: Vec<String>)
    ensures
        r.deep_view() == prune_watch_spec(subject@, ids.deep_view(), ids@.len() as int),
{
    let mut r: Vec<String> = Vec::new();
    r.push(subject.to_owned());
    r.push(registry_key());
    proof {
        assert(r.deep_view() =~= prune_watch_spec(subject@, ids.deep_view(), 0));
    }
    let mut k: usize = 0;
    while k < ids.len()
        invariant
            k <= ids@.len(),
            r.deep_view() == prune_watch_spec(subject@, ids.deep_view(), k as int),
        decreases ids@.len() - k,
    {
        r.push(ref_count_key(ids[k].as_str()));
        r.push(event_key(ids[k].as_str()));
        proof {
            assert(ids.deep_view()[k as int] == ids@[k as int]@);
            assert(r.deep_view() =~= prune_watch_spec(subject@, ids.deep_view(), k + 1));
        }
        k += 1;
    }
    r
}

/// How many entries `truncate` removes from an index of length `len` when
/// keeping the `keep` most recent.
pub fn truncate_count(len: usize, keep: usize) -> (r: usize)
    ensures
        r as int == crate::index::trunc_drop(len as int, keep as int),
{
    if keep >= len {
        0
    } else {
        len - keep
    }
}

/// How many entries `purge` removes: the position of the first occurrence
/// of `last`, plus one — or nothing, when the boundary is missing.
pub fn purge_count(ids: &Vec<String>, last: &String) -> (r: Option<usize>)
    ensures
        match r {
            Some(c) => 1 <= c <= ids@.len() && ids.deep_view()[c - 1] == last@ && forall|q: int|
                0 <= q < c - 1 ==> ids.deep_view()[q] != last@,
            None => !ids.deep_view().contains(last@),
        },
{
    let mut m: usize = 0;
    while m < ids.len()
        invariant
            m <= ids@.len(),
            forall|q: int| 0 <= q < m ==> ids.deep_view()[q] != last@,
        decreases ids@.len() - m,
    {
        if ids[m] == *last {
            assert(ids.deep_view()[m as int] == last@);
            return Some(m + 1);
        }
        m += 1;
    }
    assert(!ids.deep_view().contains(last@));
    None
}

} // verus!
