//! The compression cache: the record of every asset that was asked for, by
//! the asset's path.

use vstd::prelude::*;

use dashmap::DashMap;

use crate::algorithm::Algorithm;
use crate::record::{CompressionRecord, RecordView};

verus! {

#[verifier::external_type_specification]
#[verifier::external_body]
#[verifier::reject_recursive_types(K)]
#[verifier::reject_recursive_types(V)]
#[verifier::reject_recursive_types(S)]
pub struct ExDashMap<K, V, S>(DashMap<K, V, S>);

/// What a map of records holds: the state of each asset, by the characters of
/// its path.
pub uninterp spec fn stored(map: DashMap<String, CompressionRecord>) -> Map<Seq<char>, RecordView>;

/// The records of a cache in which no asset was asked for yet.
pub open spec fn no_records() -> Map<Seq<char>, RecordView> {
    Map::empty()
}

/// Trusted: `dashmap::DashMap::new`. The new map holds nothing.
#[verifier::external_body]
fn new_map() -> (map: DashMap<String, CompressionRecord>)
    ensures
        stored(map) == no_records(),
{
    DashMap::new()
}

/// A copy of the record stored under `path`, if there is one.
///
/// Trusted: `dashmap::DashMap::get`, the value behind the guard cloned.
#[verifier::external_body]
fn lookup(map: &DashMap<String, CompressionRecord>, path: &str) -> (found: Option<CompressionRecord>)
    ensures
        found is Some == stored(*map).dom().contains(path@),
        found matches Some(record) ==> record@ == stored(*map)[path@],
{
    map.get(path).map(|entry| entry.value().clone())
}

/// Stores `record` under `path`, in place of what was stored there.
///
/// Trusted: `dashmap::DashMap::insert`. The map is borrowed mutably, so no
/// guard into it is alive and nothing else changes it during the call.
#[verifier::external_body]
fn store(map: &mut DashMap<String, CompressionRecord>, path: String, record: CompressionRecord)
    ensures
        stored(*final(map)) == stored(*old(map)).insert(path@, record@),
{
    map.insert(path, record);
}

/// The state of the asset at `path` in `records`: that of an asset never
/// asked for where nothing is stored.
pub open spec fn record_at(records: Map<Seq<char>, RecordView>, path: Seq<char>) -> RecordView {
    if records.dom().contains(path) {
        records[path]
    } else {
        RecordView::empty()
    }
}

/// The records after an attempt to start a job for the asset at `path` and
/// `algorithm`: the asset has a record, and in it the job has begun if it
/// might.
pub open spec fn after_begin(
    records: Map<Seq<char>, RecordView>,
    path: Seq<char>,
    algorithm: Algorithm,
) -> Map<Seq<char>, RecordView> {
    records.insert(path, record_at(records, path).begin(algorithm))
}

/// The records after the job for the asset at `path` and `algorithm` has
/// ended.
pub open spec fn after_finish(
    records: Map<Seq<char>, RecordView>,
    path: Seq<char>,
    algorithm: Algorithm,
    success: bool,
) -> Map<Seq<char>, RecordView> {
    records.insert(path, record_at(records, path).finish(algorithm, success))
}

/// The compression cache.
///
/// Its operations take the cache by exclusive reference where they change it:
/// each is one indivisible step for whoever shares the cache behind a lock.
pub struct CompressionCache {
    map: DashMap<String, CompressionRecord>,
}

impl View for CompressionCache {
    type V = Map<Seq<char>, RecordView>;

    closed spec fn view(&self) -> Map<Seq<char>, RecordView> {
        stored(self.map)
    }
}

impl CompressionCache {
    /// The state of the asset at `path`.
    pub open spec fn record(&self, path: Seq<char>) -> RecordView {
        record_at(self@, path)
    }

    /// The cache's invariant: every record in it is consistent.
    pub open spec fn wf(&self) -> bool {
        forall|path: Seq<char>| #[trigger] self@.dom().contains(path) ==> self@[path].consistent()
    }

    /// An empty cache.
    pub fn new() -> (cache: Self)
        ensures
            cache.wf(),
            cache@ == no_records(),
    {
        CompressionCache { map: new_map() }
    }

    /// Whether the compressed copy of the asset at `path` for `algorithm` is
    /// stored and may be served.
    pub fn is_ready(&self, path: &str, algorithm: Algorithm) -> (ready: bool)
        ensures
            ready == self.record(path@).is_ready(algorithm),
    {
        match lookup(&self.map, path) {
            Some(record) => record.is_ready(algorithm),
            None => false,
        }
    }

    /// Starts a job for the asset at `path` and `algorithm` if none is
    /// running and none is needed, making the asset's record if there is
    /// none. The caller that gets `true` owns the job and owes the cache one
    /// call of `finish`.
    pub fn try_begin(&mut self, path: &str, algorithm: Algorithm) -> (begun: bool)
        requires
            old(self).wf(),
        ensures
            final(self).wf(),
            begun == old(self).record(path@).may_begin(algorithm),
            final(self)@ == after_begin(old(self)@, path@, algorithm),
    {
        let mut record = match lookup(&self.map, path) {
            Some(record) => record,
            None => CompressionRecord::new(),
        };
        assert(record@ == old(self).record(path@));
        assert(record@.consistent());
        let begun = record.try_begin(algorithm);
        store(&mut self.map, path.to_owned(), record);
        assert forall|other: Seq<char>| #[trigger]
            self@.dom().contains(other) implies self@[other].consistent() by {
            if other != path@ {
                assert(old(self)@.dom().contains(other));
            }
        }
        begun
    }

    /// Ends the job for the asset at `path` and `algorithm`: the coding is no
    /// longer pending, and it is completed if the job succeeded.
    pub fn finish(&mut self, path: &str, algorithm: Algorithm, success: bool)
        requires
            old(self).wf(),
        ensures
            final(self).wf(),
            final(self)@ == after_finish(old(self)@, path@, algorithm, success),
    {
        let mut record = match lookup(&self.map, path) {
            Some(record) => record,
            None => CompressionRecord::new(),
        };
        assert(record@ == old(self).record(path@));
        assert(record@.consistent());
        record.finish(algorithm, success);
        store(&mut self.map, path.to_owned(), record);
        assert forall|other: Seq<char>| #[trigger]
            self@.dom().contains(other) implies self@[other].consistent() by {
            if other != path@ {
                assert(old(self)@.dom().contains(other));
            }
        }
    }
}

/// An operation on one asset leaves the record of every other asset as it
/// was.
pub proof fn lemma_other_assets_untouched(
    records: Map<Seq<char>, RecordView>,
    path: Seq<char>,
    other: Seq<char>,
    record: RecordView,
)
    requires
        other != path,
    ensures
        record_at(records.insert(path, record), other) == record_at(records, other),
        record_at(records.insert(path, record), path) == record,
{
}

/// Of two attempts in a row to start the job for one asset and coding, the
/// second is refused, whatever the first did: at most one caller owns the
/// job. Exactly one does where the job may begin at all, that is where it is
/// neither running nor done.
pub proof fn lemma_one_owner(records: Map<Seq<char>, RecordView>, path: Seq<char>, algorithm: Algorithm)
    ensures
        !record_at(after_begin(records, path, algorithm), path).may_begin(algorithm),
        record_at(records, path).may_begin(algorithm) ==> record_at(
            after_begin(records, path, algorithm),
            path,
        ).pending.contains(algorithm),
{
}

/// After a job has ended in success its copy is ready, and a copy that is
/// ready stays ready through every operation on any asset and coding:
/// nothing is ever taken out of a completed set.
pub proof fn lemma_ready_for_good(
    records: Map<Seq<char>, RecordView>,
    path: Seq<char>,
    algorithm: Algorithm,
    other_path: Seq<char>,
    other_algorithm: Algorithm,
    success: bool,
)
    ensures
        record_at(after_finish(records, path, algorithm, true), path).is_ready(algorithm),
        record_at(records, path).is_ready(algorithm) ==> {
            &&& record_at(after_begin(records, other_path, other_algorithm), path).is_ready(algorithm)
            &&& record_at(
                after_finish(records, other_path, other_algorithm, success),
                path,
            ).is_ready(algorithm)
        },
{
}

/// After a job has ended in failure its copy is not ready and the job may
/// begin again. This is said of a copy that was not ready before the job
/// ended: a failure takes no stored copy away.
pub proof fn lemma_retry_after_failure(
    records: Map<Seq<char>, RecordView>,
    path: Seq<char>,
    algorithm: Algorithm,
)
    requires
        !record_at(records, path).is_ready(algorithm),
    ensures
        !record_at(after_finish(records, path, algorithm, false), path).is_ready(algorithm),
        record_at(after_finish(records, path, algorithm, false), path).may_begin(algorithm),
        record_at(
            after_begin(after_finish(records, path, algorithm, false), path, algorithm),
            path,
        ).pending.contains(algorithm),
{
}

/// The operations keep every record consistent.
pub proof fn lemma_cache_stays_consistent(
    records: Map<Seq<char>, RecordView>,
    path: Seq<char>,
    algorithm: Algorithm,
    success: bool,
    other: Seq<char>,
)
    requires
        forall|p: Seq<char>| record_at(records, p).consistent(),
    ensures
        record_at(after_begin(records, path, algorithm), other).consistent(),
        record_at(after_finish(records, path, algorithm, success), other).consistent(),
{
    assert(record_at(records, path).consistent());
    assert(record_at(records, other).consistent());
}

} // verus!
