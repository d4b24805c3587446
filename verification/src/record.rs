//! The compression state of one asset: which codings are stored and which are
//! being produced.

use vstd::prelude::*;

use crate::algorithm::Algorithm;

verus! {

/// The state of one asset as two sets of codings.
pub struct RecordView {
    /// Codings whose compressed copy is stored and may be served.
    pub completed: Set<Algorithm>,
    /// Codings whose compressed copy is being produced by a job.
    pub pending: Set<Algorithm>,
}

impl RecordView {
    /// The state of an asset that was never asked for.
    pub open spec fn empty() -> RecordView {
        RecordView { completed: Set::empty(), pending: Set::empty() }
    }

    /// No coding is both stored and being produced.
    pub open spec fn consistent(self) -> bool {
        self.completed.disjoint(self.pending)
    }

    /// Whether the stored copy for `algorithm` may be served.
    pub open spec fn is_ready(self, algorithm: Algorithm) -> bool {
        self.completed.contains(algorithm)
    }

    /// Whether a job for `algorithm` may start: none is running, and none is
    /// needed any more once the copy is stored.
    pub open spec fn may_begin(self, algorithm: Algorithm) -> bool {
        !self.pending.contains(algorithm) && !self.completed.contains(algorithm)
    }

    /// The state after an attempt to start a job for `algorithm`.
    pub open spec fn begin(self, algorithm: Algorithm) -> RecordView {
        if self.may_begin(algorithm) {
            RecordView { pending: self.pending.insert(algorithm), ..self }
        } else {
            self
        }
    }

    /// The state after a job for `algorithm` has ended.
    pub open spec fn finish(self, algorithm: Algorithm, success: bool) -> RecordView {
        RecordView {
            completed: if success {
                self.completed.insert(algorithm)
            } else {
                self.completed
            },
            pending: self.pending.remove(algorithm),
        }
    }
}

/// The compression state of one asset.
#[derive(Clone, Debug)]
pub struct CompressionRecord {
    completed: Vec<Algorithm>,
    pending: Vec<Algorithm>,
}

impl View for CompressionRecord {
    type V = RecordView;

    closed spec fn view(&self) -> RecordView {
        RecordView { completed: self.completed@.to_set(), pending: self.pending@.to_set() }
    }
}

/// Whether `algorithm` occurs in `list`.
fn holds(list: &Vec<Algorithm>, algorithm: Algorithm) -> (found: bool)
    ensures
        found == list@.to_set().contains(algorithm),
{
    let mut i: usize = 0;
    while i < list.len()
        invariant
            i <= list@.len(),
            forall|j: int| 0 <= j < i ==> list@[j] != algorithm,
        decreases list@.len() - i,
    {
        if list[i] == algorithm {
            assert(list@.contains(algorithm));
            return true;
        }
        i = i + 1;
    }
    assert(!list@.contains(algorithm));
    false
}

/// The list without any occurrence of `algorithm`.
fn without(list: &Vec<Algorithm>, algorithm: Algorithm) -> (rest: Vec<Algorithm>)
    ensures
        rest@.to_set() == list@.to_set().remove(algorithm),
{
    let mut rest: Vec<Algorithm> = Vec::new();
    let mut i: usize = 0;
    while i < list.len()
        invariant
            i <= list@.len(),
            forall|a: Algorithm|
                rest@.contains(a) <==> (a != algorithm && exists|j: int|
                    0 <= j < i && list@[j] == a),
        decreases list@.len() - i,
    {
        let item = list[i];
        let ghost before = rest@;
        if item != algorithm {
            rest.push(item);
            assert(rest@.last() == item);
            assert forall|a: Algorithm| rest@.contains(a) implies (a != algorithm && exists|j: int|
                0 <= j < i + 1 && list@[j] == a) by {
                let k = choose|k: int| 0 <= k < rest@.len() && rest@[k] == a;
                if k < before.len() {
                    assert(before[k] == a);
                    assert(before.contains(a));
                } else {
                    assert(list@[i as int] == a);
                }
            }
            assert forall|a: Algorithm|
                (a != algorithm && exists|j: int| 0 <= j < i + 1 && list@[j] == a) implies rest@.contains(
                a,
            ) by {
                let j = choose|j: int| 0 <= j < i + 1 && list@[j] == a;
                if j < i {
                    assert(before.contains(a));
                    let k = choose|k: int| 0 <= k < before.len() && before[k] == a;
                    assert(rest@[k] == a);
                } else {
                    assert(rest@[rest@.len() - 1] == a);
                }
            }
        } else {
            assert forall|a: Algorithm|
                (a != algorithm && exists|j: int| 0 <= j < i + 1 && list@[j] == a) implies rest@.contains(
                a,
            ) by {
                let j = choose|j: int| 0 <= j < i + 1 && list@[j] == a;
                assert(j < i);
            }
        }
        i = i + 1;
    }
    assert forall|a: Algorithm| rest@.to_set().contains(a) == list@.to_set().remove(
        algorithm,
    ).contains(a) by {
        if rest@.contains(a) {
            let j = choose|j: int| 0 <= j < i && list@[j] == a;
            assert(list@.contains(a));
        }
        if a != algorithm && list@.contains(a) {
            let j = choose|j: int| 0 <= j < list@.len() && list@[j] == a;
            assert(0 <= j < i && list@[j] == a);
        }
    }
    assert(rest@.to_set() =~= list@.to_set().remove(algorithm));
    rest
}

/// The list with `algorithm` in it.
fn with(list: &Vec<Algorithm>, algorithm: Algorithm) -> (more: Vec<Algorithm>)
    ensures
        more@.to_set() == list@.to_set().insert(algorithm),
{
    let mut more = without(list, algorithm);
    let ghost before = more@;
    more.push(algorithm);
    assert forall|a: Algorithm| more@.to_set().contains(a) == list@.to_set().insert(
        algorithm,
    ).contains(a) by {
        if more@.contains(a) {
            let k = choose|k: int| 0 <= k < more@.len() && more@[k] == a;
            if k < before.len() {
                assert(before[k] == a);
                assert(before.to_set().contains(a));
            }
        }
        if a == algorithm {
            assert(more@[more@.len() - 1] == a);
        } else if list@.to_set().contains(a) {
            assert(before.to_set().contains(a));
            let k = choose|k: int| 0 <= k < before.len() && before[k] == a;
            assert(more@[k] == a);
        }
    }
    assert(more@.to_set() =~= list@.to_set().insert(algorithm));
    more
}

impl CompressionRecord {
    /// The record of an asset that was never asked for.
    pub fn new() -> (record: Self)
        ensures
            record@ == RecordView::empty(),
    {
        let record = CompressionRecord { completed: Vec::new(), pending: Vec::new() };
        assert(record@.completed =~= Set::empty());
        assert(record@.pending =~= Set::empty());
        record
    }

    /// Whether the stored copy for `algorithm` may be served.
    pub fn is_ready(&self, algorithm: Algorithm) -> (ready: bool)
        ensures
            ready == self@.is_ready(algorithm),
    {
        holds(&self.completed, algorithm)
    }

    /// Whether a job for `algorithm` is running.
    pub fn is_pending(&self, algorithm: Algorithm) -> (pending: bool)
        ensures
            pending == self@.pending.contains(algorithm),
    {
        holds(&self.pending, algorithm)
    }

    /// Starts a job for `algorithm` if none is running and none is needed.
    /// The caller that gets `true` owns the job and owes the record one call
    /// of `finish`.
    pub fn try_begin(&mut self, algorithm: Algorithm) -> (begun: bool)
        ensures
            begun == old(self)@.may_begin(algorithm),
            final(self)@ == old(self)@.begin(algorithm),
    {
        if holds(&self.pending, algorithm) || holds(&self.completed, algorithm) {
            false
        } else {
            self.pending = with(&self.pending, algorithm);
            true
        }
    }

    /// Ends the job for `algorithm`: the coding is no longer pending, and it
    /// is completed if the job succeeded.
    pub fn finish(&mut self, algorithm: Algorithm, success: bool)
        ensures
            final(self)@ == old(self)@.finish(algorithm, success),
    {
        self.pending = without(&self.pending, algorithm);
        if success {
            self.completed = with(&self.completed, algorithm);
        }
    }
}

/// Every operation keeps a consistent record consistent.
pub proof fn lemma_operations_keep_consistency(record: RecordView, algorithm: Algorithm, success: bool)
    requires
        record.consistent(),
    ensures
        RecordView::empty().consistent(),
        record.begin(algorithm).consistent(),
        record.finish(algorithm, success).consistent(),
{
}

/// Of two attempts in a row to start a job for one coding, the second is
/// refused whatever the first did; so at most one caller owns the job, and
/// exactly one does where a job may begin at all.
pub proof fn lemma_begin_at_most_once(record: RecordView, algorithm: Algorithm)
    ensures
        !record.begin(algorithm).may_begin(algorithm),
        record.may_begin(algorithm) ==> record.begin(algorithm).pending.contains(algorithm),
        record.begin(algorithm).begin(algorithm) == record.begin(algorithm),
{
}

/// A stored copy stays ready: no operation, for whatever coding, takes a
/// coding out of the completed set, and a successful job puts its coding in.
pub proof fn lemma_ready_stays_ready(
    record: RecordView,
    algorithm: Algorithm,
    other: Algorithm,
    success: bool,
)
    ensures
        record.finish(algorithm, true).is_ready(algorithm),
        record.is_ready(algorithm) ==> record.begin(other).is_ready(algorithm),
        record.is_ready(algorithm) ==> record.finish(other, success).is_ready(algorithm),
{
}

/// After a failed job the coding is not ready, unless it was already stored
/// before, and the job may be started again.
pub proof fn lemma_failure_allows_retry(record: RecordView, algorithm: Algorithm)
    requires
        !record.is_ready(algorithm),
    ensures
        !record.finish(algorithm, false).is_ready(algorithm),
        record.finish(algorithm, false).may_begin(algorithm),
        record.finish(algorithm, false).begin(algorithm).pending.contains(algorithm),
{
}

} // verus!
