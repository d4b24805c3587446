use std::io::Read;

use cached_compression::algorithm::Algorithm;
use cached_compression::encoder::{
    next, Action, EncodeError, Phase, Report, StreamingEncoder, CHUNK_SIZE,
};

fn encode(source: &[u8], chunk: usize) -> Result<Vec<u8>, EncodeError> {
    let mut encoder = StreamingEncoder::new(Algorithm::Gzip);
    let mut written = Vec::new();
    let mut offset = 0;
    loop {
        match encoder.step() {
            Action::Read => {
                let end = std::cmp::min(offset + chunk, source.len());
                assert!(encoder.supply(&source[offset..end]));
                offset = end;
            }
            Action::Write => {
                assert!(encoder.output().len() <= CHUNK_SIZE);
                written.extend_from_slice(encoder.output());
            }
            Action::Done => return Ok(written),
            Action::Fail(error) => return Err(error),
        }
    }
}

fn decode(bytes: &[u8]) -> Vec<u8> {
    let mut decoder = flate2::read::GzDecoder::new(bytes);
    let mut plain = Vec::new();
    decoder.read_to_end(&mut plain).unwrap();
    plain
}

fn noise(len: usize) -> Vec<u8> {
    let mut state: u32 = 0x2545_f491;
    let mut bytes = Vec::with_capacity(len);
    for _ in 0..len {
        state ^= state << 13;
        state ^= state >> 17;
        state ^= state << 5;
        bytes.push((state >> 11) as u8);
    }
    bytes
}

#[test]
fn round_trip_of_short_text() {
    let source = b"Hello, world! Hello, world! Hello, world!\n";
    let packed = encode(source, CHUNK_SIZE).unwrap();
    assert_eq!(&packed[..3], &[0x1f, 0x8b, 8]);
    assert_eq!(decode(&packed), source);
}

#[test]
fn round_trip_of_empty_source() {
    let packed = encode(b"", CHUNK_SIZE).unwrap();
    assert!(!packed.is_empty());
    assert_eq!(decode(&packed), b"");
}

#[test]
fn round_trip_of_noise_larger_than_the_buffers() {
    let source = noise(300_000);
    let packed = encode(&source, CHUNK_SIZE).unwrap();
    assert!(packed.len() > CHUNK_SIZE);
    assert_eq!(decode(&packed), source);
}

#[test]
fn round_trip_of_repetitive_source() {
    let mut source = Vec::new();
    for i in 0..200_000u32 {
        source.push(b'a' + (i % 7) as u8);
    }
    let packed = encode(&source, CHUNK_SIZE).unwrap();
    assert!(packed.len() < source.len());
    assert_eq!(decode(&packed), source);
}

#[test]
fn round_trip_does_not_depend_on_chunk_size() {
    let source = noise(5_000);
    let by_one = encode(&source, 1).unwrap();
    let by_many = encode(&source, 100_000).unwrap();
    let by_default = encode(&source, CHUNK_SIZE).unwrap();
    assert_eq!(decode(&by_one), source);
    assert_eq!(decode(&by_many), source);
    assert_eq!(decode(&by_default), source);
}

#[test]
fn fresh_encoder_wants_input() {
    let mut encoder = StreamingEncoder::new(Algorithm::Gzip);
    assert_eq!(encoder.phase(), Phase::NeedInput);
    assert_eq!(encoder.output().len(), 0);
    assert_eq!(encoder.step(), Action::Read);
    assert_eq!(encoder.step(), Action::Read);
    assert_eq!(encoder.phase(), Phase::NeedInput);
}

#[test]
fn supply_is_taken_only_when_input_is_wanted() {
    let mut encoder = StreamingEncoder::new(Algorithm::Gzip);
    assert!(encoder.supply(b"abc"));
    assert_eq!(encoder.phase(), Phase::Feeding);
    assert!(!encoder.supply(b"def"));
    assert_eq!(encoder.phase(), Phase::Feeding);
}

#[test]
fn empty_chunk_ends_the_input() {
    let mut encoder = StreamingEncoder::new(Algorithm::Gzip);
    assert!(encoder.supply(b""));
    assert_eq!(encoder.phase(), Phase::Finishing);
    assert!(!encoder.supply(b"late"));
}

#[test]
fn finished_encoder_stays_finished() {
    let mut encoder = StreamingEncoder::new(Algorithm::Gzip);
    assert!(encoder.supply(b"some bytes"));
    let mut steps = 0;
    loop {
        match encoder.step() {
            Action::Read => assert!(encoder.supply(b"")),
            Action::Write => {}
            Action::Done => break,
            Action::Fail(error) => panic!("{:?}", error),
        }
        steps += 1;
        assert!(steps < 1000);
    }
    assert_eq!(encoder.phase(), Phase::Finished);
    assert_eq!(encoder.step(), Action::Done);
    assert!(!encoder.supply(b"more"));
    assert_eq!(encoder.step(), Action::Done);
}

#[test]
fn last_bytes_come_with_the_end_of_the_stream() {
    let mut encoder = StreamingEncoder::new(Algorithm::Gzip);
    assert_eq!(encoder.step(), Action::Read);
    assert!(encoder.supply(b"tiny"));
    let mut written = Vec::new();
    let mut last_write_phase = None;
    loop {
        match encoder.step() {
            Action::Read => assert!(encoder.supply(b"")),
            Action::Write => {
                written.extend_from_slice(encoder.output());
                last_write_phase = Some(encoder.phase());
            }
            Action::Done => break,
            Action::Fail(error) => panic!("{:?}", error),
        }
    }
    assert_eq!(last_write_phase, Some(Phase::Finished));
    assert_eq!(decode(&written), b"tiny");
}

#[test]
fn decision_while_feeding() {
    assert_eq!(next(Phase::Feeding, Report::Progress, 5), (Phase::Feeding, Action::Write));
    assert_eq!(next(Phase::Feeding, Report::Progress, 0), (Phase::NeedInput, Action::Write));
    assert_eq!(
        next(Phase::Feeding, Report::Stalled, 5),
        (Phase::Failed(EncodeError::Stalled), Action::Fail(EncodeError::Stalled))
    );
    assert_eq!(
        next(Phase::Feeding, Report::End, 0),
        (Phase::Failed(EncodeError::UnexpectedEnd), Action::Fail(EncodeError::UnexpectedEnd))
    );
    assert_eq!(
        next(Phase::Feeding, Report::Error, 1),
        (Phase::Failed(EncodeError::Compressor), Action::Fail(EncodeError::Compressor))
    );
}

#[test]
fn decision_while_finishing() {
    assert_eq!(next(Phase::Finishing, Report::Progress, 0), (Phase::Finishing, Action::Write));
    assert_eq!(next(Phase::Finishing, Report::End, 0), (Phase::Finished, Action::Write));
    assert_eq!(
        next(Phase::Finishing, Report::Stalled, 0),
        (Phase::Failed(EncodeError::Stalled), Action::Fail(EncodeError::Stalled))
    );
    assert_eq!(
        next(Phase::Finishing, Report::Error, 0),
        (Phase::Failed(EncodeError::Compressor), Action::Fail(EncodeError::Compressor))
    );
}

#[test]
fn decision_without_a_call() {
    for report in [Report::Progress, Report::Stalled, Report::End, Report::Error] {
        assert_eq!(next(Phase::NeedInput, report, 0), (Phase::NeedInput, Action::Read));
        assert_eq!(next(Phase::Finished, report, 0), (Phase::Finished, Action::Done));
        assert_eq!(
            next(Phase::Failed(EncodeError::Stalled), report, 3),
            (Phase::Failed(EncodeError::Stalled), Action::Fail(EncodeError::Stalled))
        );
    }
}
