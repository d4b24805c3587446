//! The streaming encoder: a compressor that is fed a source chunk by chunk and
//! hands back compressed bytes in pieces of bounded size.
//!
//! The encoder does no reading or writing of its own. It is a state machine:
//! each `step` says what its driver has to do next (read a chunk, write the
//! bytes that are ready, stop), and makes at most one call of the compressor.

use vstd::prelude::*;
use vstd::slice::{slice_subrange, slice_to_vec};

use flate2::{Compress, CompressError, Compression, FlushCompress, Status};

use crate::algorithm::Algorithm;

verus! {

/// Size in bytes of the encoder's output buffer: no step hands out more.
/// It is also the chunk size that drivers are advised to read with.
pub const CHUNK_SIZE: usize = 1024;

/// The compression level of every encoder: the highest.
pub const LEVEL: u32 = 9;

/// Base-2 logarithm of the compressor's window size: the largest.
pub const WINDOW_BITS: u8 = 15;

#[verifier::external_type_specification]
#[verifier::external_body]
pub struct ExCompress(Compress);

#[verifier::external_type_specification]
#[verifier::external_body]
pub struct ExCompressError(CompressError);

/// Number of input bytes that a compressor has consumed since it was made:
/// what `flate2::Compress::total_in` returns.
pub uninterp spec fn bytes_taken(compressor: Compress) -> nat;

/// Number of output bytes that a compressor has written since it was made:
/// what `flate2::Compress::total_out` returns.
pub uninterp spec fn bytes_given(compressor: Compress) -> nat;

/// What one call of a compressor reports: what `flate2::Compress::compress`
/// returns, an error counted as a report. It is a matter of the compressor as
/// it stands, of the input it is handed, of the size of the space it may write
/// to, and of whether it is asked to finish.
pub uninterp spec fn deflate_report(
    compressor: Compress,
    input: Seq<u8>,
    space: nat,
    finishing: bool,
) -> Report;

/// The bytes that the same call writes to the front of its output space.
pub uninterp spec fn deflate_bytes(
    compressor: Compress,
    input: Seq<u8>,
    space: nat,
    finishing: bool,
) -> Seq<u8>;

/// How a call of the compressor is asked to treat its input.
#[derive(Clone, Copy, Debug, PartialEq, Eq, Structural)]
enum Flush {
    /// More input may follow.
    Continue,
    /// The input has ended: drain what is held back and close the stream.
    Finish,
}

/// What a call of the compressor reported.
#[derive(Clone, Copy, Debug, PartialEq, Eq, Structural)]
pub enum Report {
    /// Input was consumed or output was written; there may be more to do.
    Progress,
    /// Nothing could be done with the buffers as they are.
    Stalled,
    /// The stream is closed: all input is consumed and all output written.
    End,
    /// The compressor failed.
    Error,
}

/// Why an encoding attempt was given up.
#[derive(Clone, Copy, Debug, PartialEq, Eq, Structural)]
pub enum EncodeError {
    /// The compressor could make no progress.
    Stalled,
    /// The compressor closed the stream while input was still being fed.
    UnexpectedEnd,
    /// The compressor reported an error of its own.
    Compressor,
}

/// Where an encoder stands.
#[derive(Clone, Copy, Debug, PartialEq, Eq, Structural)]
pub enum Phase {
    /// The last chunk is used up: the next one is wanted.
    NeedInput,
    /// A chunk is being fed to the compressor.
    Feeding,
    /// The input has ended and the compressor is being drained.
    Finishing,
    /// The stream is complete.
    Finished,
    /// The attempt was given up.
    Failed(EncodeError),
}

/// What the driver of an encoder has to do before the next step.
#[derive(Clone, Copy, Debug, PartialEq, Eq, Structural)]
pub enum Action {
    /// Read the next chunk of the source and hand it over with `supply`; an
    /// empty chunk stands for the end of the source.
    Read,
    /// Append the bytes of `output` to the destination.
    Write,
    /// Stop: the destination holds the complete stream.
    Done,
    /// Stop: the attempt failed and the destination is not to be used.
    Fail(EncodeError),
}

/// Makes a compressor that writes a gzip stream.
///
/// Trusted: `flate2::Compress::new_gzip`, handed a level made by
/// `flate2::Compression::new`. The new compressor has consumed and written
/// nothing. The call panics on a window size outside 9 to 15, and in a debug
/// build on a level above 9.
#[verifier::external_body]
fn new_gzip(level: u32, window_bits: u8) -> (compressor: Compress)
    requires
        level <= 9,
        9 <= window_bits <= 15,
    ensures
        bytes_taken(compressor) == 0,
        bytes_given(compressor) == 0,
{
    Compress::new_gzip(Compression::new(level), window_bits)
}

/// Trusted: `flate2::Compress::total_in`.
#[verifier::external_body]
fn total_in(compressor: &Compress) -> (total: u64)
    ensures
        total == bytes_taken(*compressor),
{
    compressor.total_in()
}

/// Trusted: `flate2::Compress::total_out`.
#[verifier::external_body]
fn total_out(compressor: &Compress) -> (total: u64)
    ensures
        total == bytes_given(*compressor),
{
    compressor.total_out()
}

/// One call of the compressor on `input`, with all of `output` as the space to
/// write to.
///
/// Trusted: `flate2::Compress::compress`. The call consumes a prefix of the
/// input and writes to the front of the output, and the two totals grow by
/// what was consumed and written. What it reports and what it writes are
/// given their names; nothing is claimed of what they are.
#[verifier::external_body]
fn deflate(compressor: &mut Compress, input: &[u8], output: &mut Vec<u8>, flush: Flush) -> (status:
    Result<Report, CompressError>)
    ensures
        final(output)@.len() == old(output)@.len(),
        bytes_taken(*old(compressor)) <= bytes_taken(*final(compressor)) <= bytes_taken(
            *old(compressor),
        ) + input@.len(),
        bytes_given(*old(compressor)) <= bytes_given(*final(compressor)) <= bytes_given(
            *old(compressor),
        ) + old(output)@.len(),
        deflate_report(*old(compressor), input@, old(output)@.len(), flush == Flush::Finish)
            == match status {
            Ok(r) => r,
            Err(_) => Report::Error,
        },
        final(output)@.take(bytes_given(*final(compressor)) - bytes_given(*old(compressor)))
            == deflate_bytes(
            *old(compressor),
            input@,
            old(output)@.len(),
            flush == Flush::Finish,
        ),
{
    let mode = match flush {
        Flush::Continue => FlushCompress::None,
        Flush::Finish => FlushCompress::Finish,
    };
    match compressor.compress(input, output.as_mut_slice(), mode) {
        Ok(Status::Ok) => Ok(Report::Progress),
        Ok(Status::BufError) => Ok(Report::Stalled),
        Ok(Status::StreamEnd) => Ok(Report::End),
        Err(e) => Err(e),
    }
}

/// The phase that follows, and the action that is due, when an encoder in
/// `phase` has made its call, the compressor has reported `report`, and
/// `left` bytes of the chunk are still to be fed.
///
/// No call is made while a chunk is wanted or after the end, so `report`
/// counts for nothing there. A closed stream during feeding is a defect of
/// the compressor and fails the attempt. The bytes that come with the closing
/// report are written like any others.
pub open spec fn decide(phase: Phase, report: Report, left: nat) -> (Phase, Action) {
    match phase {
        Phase::NeedInput => (Phase::NeedInput, Action::Read),
        Phase::Finished => (Phase::Finished, Action::Done),
        Phase::Failed(e) => (Phase::Failed(e), Action::Fail(e)),
        Phase::Feeding => match report {
            Report::Progress => (
                if left == 0 {
                    Phase::NeedInput
                } else {
                    Phase::Feeding
                },
                Action::Write,
            ),
            Report::Stalled => (Phase::Failed(EncodeError::Stalled), Action::Fail(EncodeError::Stalled)),
            Report::End => (
                Phase::Failed(EncodeError::UnexpectedEnd),
                Action::Fail(EncodeError::UnexpectedEnd),
            ),
            Report::Error => (
                Phase::Failed(EncodeError::Compressor),
                Action::Fail(EncodeError::Compressor),
            ),
        },
        Phase::Finishing => match report {
            Report::Progress => (Phase::Finishing, Action::Write),
            Report::End => (Phase::Finished, Action::Write),
            Report::Stalled => (Phase::Failed(EncodeError::Stalled), Action::Fail(EncodeError::Stalled)),
            Report::Error => (
                Phase::Failed(EncodeError::Compressor),
                Action::Fail(EncodeError::Compressor),
            ),
        },
    }
}

/// The decision of `decide`, computed.
pub fn next(phase: Phase, report: Report, left: usize) -> (decision: (Phase, Action))
    ensures
        decision == decide(phase, report, left as nat),
{
    match phase {
        Phase::NeedInput => (Phase::NeedInput, Action::Read),
        Phase::Finished => (Phase::Finished, Action::Done),
        Phase::Failed(e) => (Phase::Failed(e), Action::Fail(e)),
        Phase::Feeding => match report {
            Report::Progress => if left == 0 {
                (Phase::NeedInput, Action::Write)
            } else {
                (Phase::Feeding, Action::Write)
            },
            Report::Stalled => fail(EncodeError::Stalled),
            Report::End => fail(EncodeError::UnexpectedEnd),
            Report::Error => fail(EncodeError::Compressor),
        },
        Phase::Finishing => match report {
            Report::Progress => (Phase::Finishing, Action::Write),
            Report::End => (Phase::Finished, Action::Write),
            Report::Stalled => fail(EncodeError::Stalled),
            Report::Error => fail(EncodeError::Compressor),
        },
    }
}

fn fail(error: EncodeError) -> (decision: (Phase, Action))
    ensures
        decision == (Phase::Failed(error), Action::Fail(error)),
{
    (Phase::Failed(error), Action::Fail(error))
}

/// What a status of the compressor reports, an error of its own included.
fn report_of(status: Result<Report, CompressError>) -> (report: Report)
    ensures
        report == match status {
            Ok(r) => r,
            Err(_) => Report::Error,
        },
{
    match status {
        Ok(r) => r,
        Err(_) => Report::Error,
    }
}

/// An encoder as its driver sees it.
pub struct EncoderView {
    /// Where the encoder stands.
    pub phase: Phase,
    /// The compressor as it stands.
    pub compressor: Compress,
    /// The part of the current chunk that is still to be fed.
    pub remaining: Seq<u8>,
    /// The bytes that the last `Write` asks to be written.
    pub output: Seq<u8>,
    /// All source bytes handed over so far, in order.
    pub supplied: Seq<u8>,
    /// The source bytes that the compressor has consumed so far, in order.
    pub fed: Seq<u8>,
    /// All bytes that the encoder has asked to be written so far, in order.
    pub handed: Seq<u8>,
}

impl EncoderView {
    /// Number of source bytes that the compressor has consumed so far.
    pub open spec fn consumed(self) -> nat {
        bytes_taken(self.compressor)
    }

    /// Number of compressed bytes that the compressor has written so far.
    pub open spec fn produced(self) -> nat {
        bytes_given(self.compressor)
    }

    /// What holds of every encoder between two calls. The source bytes handed
    /// over are those that the compressor has consumed, followed by those
    /// that wait in the current chunk. Unless the attempt has failed, every
    /// byte that the compressor has written has been asked to be written. A
    /// chunk is being fed exactly while some of it waits, and no output is
    /// longer than the buffer.
    pub open spec fn consistent(self) -> bool {
        &&& self.supplied == self.fed + self.remaining
        &&& self.fed.len() == self.consumed()
        &&& !(self.phase is Failed) ==> self.handed.len() == self.produced()
        &&& self.phase == Phase::Feeding ==> self.remaining.len() > 0
        &&& (self.phase == Phase::NeedInput || self.phase == Phase::Finishing || self.phase
            == Phase::Finished) ==> self.remaining.len() == 0
        &&& self.output.len() <= CHUNK_SIZE
    }

    /// How a fresh encoder looks: it wants its first chunk, and nothing has
    /// gone in or come out.
    pub open spec fn is_fresh(self) -> bool {
        &&& self.phase == Phase::NeedInput
        &&& self.remaining == Seq::<u8>::empty()
        &&& self.output == Seq::<u8>::empty()
        &&& self.supplied == Seq::<u8>::empty()
        &&& self.fed == Seq::<u8>::empty()
        &&& self.handed == Seq::<u8>::empty()
        &&& self.consumed() == 0
        &&& self.produced() == 0
    }
}

/// Whether one step leads from `before` to `after` with `action`.
///
/// While a chunk is wanted, and after the end, no call is made and nothing
/// changes. Otherwise the compressor is called once: on all that waits of
/// the chunk, with the whole buffer to write to, and asked to finish exactly
/// when the input has ended. The phase and the action are those that
/// `decide` gives for what the call reports. What the call consumed leaves
/// the front of the waiting input. On a `Write` the output is what the call
/// wrote; on a failure it is dropped.
pub open spec fn steps_to(before: EncoderView, after: EncoderView, action: Action) -> bool {
    if before.phase == Phase::Feeding || before.phase == Phase::Finishing {
        let finishing = before.phase == Phase::Finishing;
        let report = deflate_report(
            before.compressor,
            before.remaining,
            CHUNK_SIZE as nat,
            finishing,
        );
        let bytes = deflate_bytes(before.compressor, before.remaining, CHUNK_SIZE as nat, finishing);
        let taken = after.consumed() - before.consumed();
        &&& 0 <= taken <= before.remaining.len()
        &&& after.remaining == before.remaining.skip(taken)
        &&& after.fed == before.fed + before.remaining.take(taken)
        &&& after.supplied == before.supplied
        &&& (after.phase, action) == decide(before.phase, report, after.remaining.len())
        &&& bytes.len() == after.produced() - before.produced()
        &&& bytes.len() <= CHUNK_SIZE
        &&& after.output.len() <= CHUNK_SIZE
        &&& if action == Action::Write {
            after.output == bytes && after.handed == before.handed + bytes
        } else {
            after.handed == before.handed
        }
    } else {
        &&& after == before
        &&& (after.phase, action) == decide(before.phase, Report::Progress, 0)
    }
}

/// A step keeps a consistent encoder consistent.
pub proof fn lemma_step_keeps_consistency(before: EncoderView, after: EncoderView, action: Action)
    requires
        before.consistent(),
        steps_to(before, after, action),
    ensures
        after.consistent(),
{
    if before.phase == Phase::Feeding || before.phase == Phase::Finishing {
        let taken = after.consumed() - before.consumed();
        assert(after.fed + after.remaining =~= before.fed + before.remaining);
    }
}

/// The stream is reported complete only from the finished phase. There the
/// compressor has consumed every source byte that was handed over, in the
/// order in which they came, and every byte that it has written has been
/// asked to be written.
pub proof fn lemma_done_means_all_consumed(before: EncoderView, after: EncoderView, action: Action)
    requires
        before.consistent(),
        steps_to(before, after, action),
        action == Action::Done,
    ensures
        before.phase == Phase::Finished,
        after == before,
        after.fed == after.supplied,
        after.handed.len() == after.produced(),
{
    assert(before.fed + before.remaining =~= before.fed);
}

/// The compressor is asked to finish only once the input has ended, and
/// then it is handed no input.
pub proof fn lemma_finish_after_end_of_input(before: EncoderView)
    requires
        before.consistent(),
        before.phase == Phase::Finishing,
    ensures
        before.remaining == Seq::<u8>::empty(),
        before.fed == before.supplied,
{
    assert(before.remaining =~= Seq::<u8>::empty());
    assert(before.fed + before.remaining =~= before.fed);
}

/// The finished phase is entered only while the compressor is being drained
/// after the end of the input, and the phases at the end are never left.
pub proof fn lemma_phases_in_order(before: EncoderView, after: EncoderView, action: Action)
    requires
        steps_to(before, after, action),
    ensures
        after.phase == Phase::Finished ==> before.phase == Phase::Finished || before.phase
            == Phase::Finishing,
        before.phase == Phase::Finished ==> after.phase == Phase::Finished,
        before.phase is Failed ==> after.phase == before.phase,
        before.phase == Phase::Finishing ==> after.phase != Phase::Feeding && after.phase
            != Phase::NeedInput,
        action is Fail <==> after.phase is Failed,
{
}

/// A streaming encoder for one source.
pub struct StreamingEncoder {
    compressor: Compress,
    phase: Phase,
    chunk: Vec<u8>,
    taken: usize,
    buffer: Vec<u8>,
    ready: usize,
    supplied: Ghost<Seq<u8>>,
    fed: Ghost<Seq<u8>>,
    handed: Ghost<Seq<u8>>,
}

impl View for StreamingEncoder {
    type V = EncoderView;

    closed spec fn view(&self) -> EncoderView {
        EncoderView {
            phase: self.phase,
            compressor: self.compressor,
            remaining: self.chunk@.skip(self.taken as int),
            output: self.buffer@.take(self.ready as int),
            supplied: self.supplied@,
            fed: self.fed@,
            handed: self.handed@,
        }
    }
}

impl StreamingEncoder {
    /// The encoder's invariant.
    pub closed spec fn wf(&self) -> bool {
        &&& self.taken <= self.chunk@.len()
        &&& self.buffer@.len() == CHUNK_SIZE
        &&& self.ready <= CHUNK_SIZE
        &&& self@.consistent()
    }

    /// A well-formed encoder is consistent.
    pub proof fn lemma_wf_consistent(&self)
        requires
            self.wf(),
        ensures
            self@.consistent(),
    {
    }

    /// A fresh encoder for `algorithm`, at the highest compression level.
    pub fn new(algorithm: Algorithm) -> (encoder: Self)
        ensures
            encoder.wf(),
            encoder@.is_fresh(),
    {
        let compressor = match algorithm {
            Algorithm::Gzip => new_gzip(LEVEL, WINDOW_BITS),
        };
        let mut buffer: Vec<u8> = Vec::new();
        while buffer.len() < CHUNK_SIZE
            invariant
                buffer@.len() <= CHUNK_SIZE,
            decreases CHUNK_SIZE - buffer@.len(),
        {
            buffer.push(0u8);
        }
        let encoder = StreamingEncoder {
            compressor,
            phase: Phase::NeedInput,
            chunk: Vec::new(),
            taken: 0,
            buffer,
            ready: 0,
            supplied: Ghost(Seq::empty()),
            fed: Ghost(Seq::empty()),
            handed: Ghost(Seq::empty()),
        };
        assert(encoder@.remaining =~= Seq::empty());
        assert(encoder@.output =~= Seq::empty());
        assert(encoder@.fed + encoder@.remaining =~= encoder@.supplied);
        encoder
    }

    /// Where the encoder stands.
    pub fn phase(&self) -> (phase: Phase)
        ensures
            phase == self@.phase,
    {
        self.phase
    }

    /// The bytes that the last `Write` asks to be written.
    pub fn output(&self) -> (bytes: &[u8])
        requires
            self.wf(),
        ensures
            bytes@ == self@.output,
    {
        slice_subrange(self.buffer.as_slice(), 0, self.ready)
    }

    /// Hands the encoder the next chunk of the source; an empty chunk says
    /// that the source has ended. The chunk is taken only while the encoder
    /// wants one: otherwise nothing changes and the result is `false`.
    pub fn supply(&mut self, chunk: &[u8]) -> (accepted: bool)
        requires
            old(self).wf(),
        ensures
            final(self).wf(),
            accepted == (old(self)@.phase == Phase::NeedInput),
            !accepted ==> final(self)@ == old(self)@,
            accepted ==> final(self)@ == (EncoderView {
                phase: if chunk@.len() == 0 {
                    Phase::Finishing
                } else {
                    Phase::Feeding
                },
                remaining: chunk@,
                supplied: old(self)@.supplied + chunk@,
                ..old(self)@
            }),
    {
        match self.phase {
            Phase::NeedInput => {},
            _ => {
                return false;
            },
        }
        assert(old(self)@.remaining =~= Seq::<u8>::empty());
        assert(old(self)@.fed + old(self)@.remaining =~= old(self)@.fed);
        self.chunk = slice_to_vec(chunk);
        self.taken = 0;
        self.supplied = Ghost(self.supplied@ + chunk@);
        if chunk.len() == 0 {
            self.phase = Phase::Finishing;
        } else {
            self.phase = Phase::Feeding;
        }
        assert(self@.remaining =~= chunk@);
        true
    }

    /// Advances the encoding by at most one call of the compressor and says
    /// what the driver has to do next.
    pub fn step(&mut self) -> (action: Action)
        requires
            old(self).wf(),
        ensures
            final(self).wf(),
            steps_to(old(self)@, final(self)@, action),
    {
        let flush = match self.phase {
            Phase::Feeding => Flush::Continue,
            Phase::Finishing => Flush::Finish,
            _ => {
                let (_, action) = next(self.phase, Report::Progress, 0);
                return action;
            },
        };
        let ghost waiting = self@.remaining;
        let before_in = total_in(&self.compressor);
        let before_out = total_out(&self.compressor);
        let status = {
            let input = slice_subrange(self.chunk.as_slice(), self.taken, self.chunk.len());
            assert(input@ == waiting);
            deflate(&mut self.compressor, input, &mut self.buffer, flush)
        };
        let report = report_of(status);
        let taken_now = (total_in(&self.compressor) - before_in) as usize;
        let given_now = (total_out(&self.compressor) - before_out) as usize;
        self.taken = self.taken + taken_now;
        self.fed = Ghost(self.fed@ + waiting.take(taken_now as int));
        let (phase, action) = next(self.phase, report, self.chunk.len() - self.taken);
        self.phase = phase;
        match action {
            Action::Write => {
                self.ready = given_now;
                self.handed = Ghost(self.handed@ + self.buffer@.take(given_now as int));
            },
            _ => {},
        }
        assert(self@.remaining =~= waiting.skip(taken_now as int));
        assert(self@.fed + self@.remaining =~= old(self)@.fed + waiting);
        action
    }
}

} // verus!
