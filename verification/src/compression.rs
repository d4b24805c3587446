//! Cached compression for a file server: the hook that rewrites a response
//! to send a stored compressed copy, and the bookkeeping of the jobs that
//! produce the copies.

use vstd::prelude::*;

use crate::algorithm::Algorithm;
use crate::cache::{after_begin, after_finish, no_records, record_at, CompressionCache};
use crate::encoder::StreamingEncoder;
use crate::negotiation::{negotiate, negotiated, texts};
use crate::paths::{artifact_path, artifact_path_of};
use crate::record::RecordView;
use crate::response::{encoded, media_type_at, media_type_of, FileResponse, FileView};

verus! {

/// What the file server found for a request, before the hook sees it.
#[derive(Debug)]
pub enum Candidate {
    /// A regular file is to be sent.
    File(FileResponse),
    /// Anything else: a directory, a redirect, nothing at all.
    Other,
}

/// A candidate as plain text.
pub enum CandidateView {
    File(FileView),
    Other,
}

impl View for Candidate {
    type V = CandidateView;

    open spec fn view(&self) -> CandidateView {
        match self {
            Candidate::File(file) => CandidateView::File(file@),
            Candidate::Other => CandidateView::Other,
        }
    }
}

/// What the hook decided for a request.
#[derive(Debug)]
pub struct Rewritten {
    /// The response to send.
    pub response: Candidate,
    /// The coding in which a copy of the asset is wanted and not stored yet:
    /// a job for it is to be dispatched, off the path of the request.
    pub wanted: Option<Algorithm>,
}

/// The hook's decision. Only the response for a regular file is ever
/// changed, and only for a client that accepts a known coding. Where the
/// copy in that coding is stored, it is sent in place of the asset;
/// where it is not, the asset is sent as it is and the copy is wanted.
pub open spec fn decision(
    records: Map<Seq<char>, RecordView>,
    candidate: CandidateView,
    accept: Seq<Seq<char>>,
) -> (CandidateView, Option<Algorithm>) {
    match candidate {
        CandidateView::Other => (candidate, None),
        CandidateView::File(file) => match negotiated(accept) {
            None => (candidate, None),
            Some(algorithm) => if record_at(records, file.path).is_ready(algorithm) {
                (
                    CandidateView::File(encoded(file, algorithm, media_type_at(file.path))),
                    None,
                )
            } else {
                (candidate, Some(algorithm))
            },
        },
    }
}

/// A compression job that has begun: the right, and the duty, to produce one
/// compressed copy and to report how it ended. A job is made by `dispatch`
/// alone and used up by `complete`.
#[derive(Debug)]
pub struct Job {
    source: String,
    destination: String,
    algorithm: Algorithm,
}

/// A job as plain text.
pub struct JobView {
    /// The path of the asset.
    pub source: Seq<char>,
    /// The path of the compressed copy.
    pub destination: Seq<char>,
    /// The coding of the copy.
    pub algorithm: Algorithm,
}

impl View for Job {
    type V = JobView;

    closed spec fn view(&self) -> JobView {
        JobView { source: self.source@, destination: self.destination@, algorithm: self.algorithm }
    }
}

impl Job {
    /// The path of the asset to compress.
    pub fn source(&self) -> (path: &str)
        ensures
            path@ == self@.source,
    {
        self.source.as_str()
    }

    /// The path to write the compressed copy to.
    pub fn destination(&self) -> (path: &str)
        ensures
            path@ == self@.destination,
    {
        self.destination.as_str()
    }

    /// The coding of the copy.
    pub fn algorithm(&self) -> (algorithm: Algorithm)
        ensures
            algorithm == self@.algorithm,
    {
        self.algorithm
    }

    /// A fresh encoder for the job's coding.
    pub fn encoder(&self) -> (encoder: StreamingEncoder)
        ensures
            encoder.wf(),
            encoder@.is_fresh(),
    {
        StreamingEncoder::new(self.algorithm)
    }
}

/// Cached compression for a file server.
///
/// Operations that change the cache take it by exclusive reference: each is
/// one indivisible step for whoever shares the value behind a lock.
pub struct CachedCompression {
    cache: CompressionCache,
}

impl View for CachedCompression {
    type V = Map<Seq<char>, RecordView>;

    closed spec fn view(&self) -> Map<Seq<char>, RecordView> {
        self.cache@
    }
}

impl CachedCompression {
    /// The invariant: every record of the cache is consistent.
    pub closed spec fn wf(&self) -> bool {
        self.cache.wf()
    }

    /// The state of the asset at `path`.
    pub open spec fn record(&self, path: Seq<char>) -> RecordView {
        record_at(self@, path)
    }

    /// In a well-formed cache no coding of any asset is both stored and
    /// being produced.
    pub proof fn lemma_records_consistent(&self, path: Seq<char>)
        requires
            self.wf(),
        ensures
            self.record(path).consistent(),
    {
        if self@.dom().contains(path) {
            assert(self.cache@[path].consistent());
        }
    }

    /// Cached compression that has seen no request yet.
    pub fn new() -> (compression: Self)
        ensures
            compression.wf(),
            compression@ == no_records(),
    {
        CachedCompression { cache: CompressionCache::new() }
    }

    /// The coding to serve a client in, from the values of its
    /// accepted-encodings header.
    pub fn get_valid(&self, accept: &[&str]) -> (chosen: Option<Algorithm>)
        ensures
            chosen == negotiated(texts(accept@)),
    {
        negotiate(accept)
    }

    /// Whether the compressed copy of the asset at `path` for `algorithm` is
    /// stored and may be served.
    pub fn is_ready(&self, path: &str, algorithm: Algorithm) -> (ready: bool)
        ensures
            ready == self.record(path@).is_ready(algorithm),
    {
        self.cache.is_ready(path, algorithm)
    }

    /// The hook: decides what to send for a request, from what the file
    /// server found and from the values of the request's accepted-encodings
    /// header. The cache is read and not changed.
    pub fn rewrite(&self, candidate: Candidate, accept: &[&str]) -> (rewritten: Rewritten)
        ensures
            (rewritten.response@, rewritten.wanted) == decision(self@, candidate@, texts(accept@)),
    {
        match candidate {
            Candidate::Other => Rewritten { response: Candidate::Other, wanted: None },
            Candidate::File(file) => {
                match self.get_valid(accept) {
                    None => Rewritten { response: Candidate::File(file), wanted: None },
                    Some(algorithm) => {
                        if self.is_ready(file.path.as_str(), algorithm) {
                            let content_type = media_type_of(file.path.as_str());
                            let response = file.encode(algorithm, content_type);
                            Rewritten { response: Candidate::File(response), wanted: None }
                        } else {
                            Rewritten { response: Candidate::File(file), wanted: Some(algorithm) }
                        }
                    },
                }
            },
        }
    }

    /// Begins the job that produces the copy of the asset at `path` for
    /// `algorithm`, unless one is running or the copy is stored: then there
    /// is nothing to do and no job is handed out.
    pub fn dispatch(&mut self, algorithm: Algorithm, path: &str) -> (job: Option<Job>)
        requires
            old(self).wf(),
        ensures
            final(self).wf(),
            job is Some == old(self).record(path@).may_begin(algorithm),
            final(self)@ == after_begin(old(self)@, path@, algorithm),
            job matches Some(begun) ==> begun@ == (JobView {
                source: path@,
                destination: artifact_path(path@, algorithm),
                algorithm,
            }),
    {
        if self.cache.try_begin(path, algorithm) {
            Some(
                Job {
                    source: path.to_owned(),
                    destination: artifact_path_of(path, algorithm),
                    algorithm,
                },
            )
        } else {
            None
        }
    }

    /// Ends a job: its coding is no longer pending for its asset, and it is
    /// completed if the copy was written whole.
    pub fn complete(&mut self, job: Job, success: bool)
        requires
            old(self).wf(),
        ensures
            final(self).wf(),
            final(self)@ == after_finish(old(self)@, job@.source, job@.algorithm, success),
    {
        self.cache.finish(job.source.as_str(), job.algorithm, success);
    }
}

} // verus!
