use cached_compression::algorithm::Algorithm;
use cached_compression::cache::CompressionCache;
use cached_compression::compression::CachedCompression;
use cached_compression::record::CompressionRecord;

#[test]
fn fresh_record_is_neither_ready_nor_pending() {
    let record = CompressionRecord::new();
    assert!(!record.is_ready(Algorithm::Gzip));
    assert!(!record.is_pending(Algorithm::Gzip));
}

#[test]
fn record_begins_once() {
    let mut record = CompressionRecord::new();
    assert!(record.try_begin(Algorithm::Gzip));
    assert!(record.is_pending(Algorithm::Gzip));
    assert!(!record.is_ready(Algorithm::Gzip));
    assert!(!record.try_begin(Algorithm::Gzip));
    assert!(record.is_pending(Algorithm::Gzip));
}

#[test]
fn record_success_makes_ready_and_ends_pending() {
    let mut record = CompressionRecord::new();
    assert!(record.try_begin(Algorithm::Gzip));
    record.finish(Algorithm::Gzip, true);
    assert!(record.is_ready(Algorithm::Gzip));
    assert!(!record.is_pending(Algorithm::Gzip));
    assert!(!record.try_begin(Algorithm::Gzip));
    assert!(!record.is_pending(Algorithm::Gzip));
    assert!(record.is_ready(Algorithm::Gzip));
}

#[test]
fn record_failure_allows_retry() {
    let mut record = CompressionRecord::new();
    assert!(record.try_begin(Algorithm::Gzip));
    record.finish(Algorithm::Gzip, false);
    assert!(!record.is_ready(Algorithm::Gzip));
    assert!(!record.is_pending(Algorithm::Gzip));
    assert!(record.try_begin(Algorithm::Gzip));
    record.finish(Algorithm::Gzip, true);
    assert!(record.is_ready(Algorithm::Gzip));
}

#[test]
fn record_stays_ready_after_later_failure_report() {
    let mut record = CompressionRecord::new();
    assert!(record.try_begin(Algorithm::Gzip));
    record.finish(Algorithm::Gzip, true);
    record.finish(Algorithm::Gzip, false);
    assert!(record.is_ready(Algorithm::Gzip));
    record.finish(Algorithm::Gzip, true);
    assert!(record.is_ready(Algorithm::Gzip));
    assert!(!record.is_pending(Algorithm::Gzip));
}

#[test]
fn absent_record_is_not_ready() {
    let cache = CompressionCache::new();
    assert!(!cache.is_ready("static/index.txt", Algorithm::Gzip));
}

#[test]
fn try_begin_twice_gives_one_owner() {
    let mut cache = CompressionCache::new();
    let first = cache.try_begin("static/index.txt", Algorithm::Gzip);
    let second = cache.try_begin("static/index.txt", Algorithm::Gzip);
    assert!(first);
    assert!(!second);
}

#[test]
fn finish_with_success_makes_ready_for_good() {
    let mut cache = CompressionCache::new();
    assert!(cache.try_begin("a.txt", Algorithm::Gzip));
    assert!(!cache.is_ready("a.txt", Algorithm::Gzip));
    cache.finish("a.txt", Algorithm::Gzip, true);
    assert!(cache.is_ready("a.txt", Algorithm::Gzip));
    assert!(!cache.try_begin("a.txt", Algorithm::Gzip));
    assert!(cache.try_begin("b.txt", Algorithm::Gzip));
    cache.finish("b.txt", Algorithm::Gzip, false);
    assert!(cache.is_ready("a.txt", Algorithm::Gzip));
}

#[test]
fn finish_with_failure_allows_retry() {
    let mut cache = CompressionCache::new();
    assert!(cache.try_begin("a.txt", Algorithm::Gzip));
    cache.finish("a.txt", Algorithm::Gzip, false);
    assert!(!cache.is_ready("a.txt", Algorithm::Gzip));
    assert!(cache.try_begin("a.txt", Algorithm::Gzip));
}

#[test]
fn assets_do_not_share_records() {
    let mut cache = CompressionCache::new();
    assert!(cache.try_begin("a.txt", Algorithm::Gzip));
    assert!(cache.try_begin("b.txt", Algorithm::Gzip));
    cache.finish("a.txt", Algorithm::Gzip, true);
    assert!(cache.is_ready("a.txt", Algorithm::Gzip));
    assert!(!cache.is_ready("b.txt", Algorithm::Gzip));
    assert!(!cache.try_begin("b.txt", Algorithm::Gzip));
}

#[test]
fn finish_for_unknown_asset_makes_its_record() {
    let mut cache = CompressionCache::new();
    cache.finish("a.txt", Algorithm::Gzip, true);
    assert!(cache.is_ready("a.txt", Algorithm::Gzip));
    cache.finish("b.txt", Algorithm::Gzip, false);
    assert!(!cache.is_ready("b.txt", Algorithm::Gzip));
    assert!(cache.try_begin("b.txt", Algorithm::Gzip));
}

#[test]
fn dispatch_hands_out_one_job() {
    let mut compression = CachedCompression::new();
    let job = compression.dispatch(Algorithm::Gzip, "static/index.txt").unwrap();
    assert_eq!(job.source(), "static/index.txt");
    assert_eq!(job.destination(), "static/index.txt.gzip");
    assert_eq!(job.algorithm(), Algorithm::Gzip);
    assert!(compression.dispatch(Algorithm::Gzip, "static/index.txt").is_none());
    assert!(!compression.is_ready("static/index.txt", Algorithm::Gzip));
    compression.complete(job, true);
    assert!(compression.is_ready("static/index.txt", Algorithm::Gzip));
    assert!(compression.dispatch(Algorithm::Gzip, "static/index.txt").is_none());
}

#[test]
fn failed_job_is_dispatched_again() {
    let mut compression = CachedCompression::new();
    let job = compression.dispatch(Algorithm::Gzip, "a.txt").unwrap();
    compression.complete(job, false);
    assert!(!compression.is_ready("a.txt", Algorithm::Gzip));
    let again = compression.dispatch(Algorithm::Gzip, "a.txt");
    assert!(again.is_some());
}
