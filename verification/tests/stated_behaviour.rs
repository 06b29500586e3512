use flatstream::{
    ByteSink, ByteSource, CompositeValidator, CountingWriter, DefaultDeframer, DefaultFramer, Error, ErrorKind,
    Framer, IoError, IoErrorKind, SizeValidator, SliceSource, StreamReader, StreamWriter, StructuralValidator,
    Validator,
};

fn framed(payloads: &[&[u8]]) -> Vec<u8> {
    let mut out = CountingWriter::new(Vec::new());
    for p in payloads {
        DefaultFramer.frame_and_write(&mut out, p).unwrap();
    }
    out.into_inner()
}

/// Accepts at most one byte per offer, keeping what it accepted.
struct OneByteSink(Vec<u8>);

impl ByteSink for OneByteSink {
    fn write(&mut self, buf: &[u8]) -> Result<usize, IoError> {
        match buf.first() {
            Some(b) => {
                self.0.push(*b);
                Ok(1)
            }
            None => Ok(0),
        }
    }

    fn flush(&mut self) -> Result<(), IoError> {
        Ok(())
    }
}

/// Accepts nothing.
struct StuckSink;

impl ByteSink for StuckSink {
    fn write(&mut self, _buf: &[u8]) -> Result<usize, IoError> {
        Ok(0)
    }

    fn flush(&mut self) -> Result<(), IoError> {
        Ok(())
    }
}

/// Delivers one byte per read, then fails with `PermissionDenied` once
/// `budget` bytes were delivered.
struct TrickleThenFail {
    inner: SliceSource,
    budget: usize,
}

impl ByteSource for TrickleThenFail {
    fn read_into(&mut self, buf: &mut Vec<u8>, start: usize, end: usize) -> Result<usize, IoError> {
        if self.budget == 0 {
            return Err(IoError::new(IoErrorKind::PermissionDenied, "device gone"));
        }
        let stop = if end > start { start + 1 } else { start };
        let n = self.inner.read_into(buf, start, stop)?;
        self.budget -= n;
        Ok(n)
    }
}

#[test]
fn a_short_writing_sink_still_receives_the_whole_frame() {
    let mut writer = StreamWriter::new(OneByteSink(Vec::new()), DefaultFramer);
    let receipt = writer.write_finished_with_receipt(b"abc").unwrap();
    assert_eq!(receipt.frame_start, 0);
    assert_eq!(receipt.wire_len, 7);
    assert_eq!(writer.into_inner().0, framed(&[b"abc"]));
}

#[test]
fn a_sink_that_accepts_nothing_fails_with_write_zero() {
    let mut writer = StreamWriter::new(StuckSink, DefaultFramer);
    let err = writer.write_finished(b"abc").unwrap_err();
    match err.into_kind() {
        ErrorKind::Io(e) => assert_eq!(e.kind, IoErrorKind::WriteZero),
        other => panic!("wrong error: {other:?}"),
    }
    assert_eq!(writer.bytes_written(), 0);
    assert!(!writer.is_poisoned());
}

#[test]
fn a_device_fault_is_reported_as_the_sources_error() {
    let wire = framed(&[b"first", b"second"]);
    let source = TrickleThenFail { inner: SliceSource::new(wire), budget: 9 + 5 };
    let mut reader = StreamReader::new(source, DefaultDeframer::new());
    assert_eq!(reader.read_message().unwrap(), Some(&b"first"[..]));
    let err = reader.read_message().unwrap_err();
    match err.into_kind() {
        ErrorKind::Io(e) => assert_eq!(e.kind, IoErrorKind::PermissionDenied),
        other => panic!("wrong error: {other:?}"),
    }
    assert_eq!(reader.bytes_consumed(), 14);
    assert!(reader.is_poisoned());
}

#[test]
fn a_torn_tail_consumes_the_rest_of_the_input() {
    let mut wire = framed(&[b"whole", b"torn frame"]);
    wire.truncate(9 + 4 + 3);
    let mut reader = StreamReader::new(SliceSource::new(wire), DefaultDeframer::new());
    assert_eq!(reader.read_message().unwrap(), Some(&b"whole"[..]));
    let err = reader.read_message().unwrap_err();
    assert!(matches!(err.kind(), ErrorKind::UnexpectedEof));
    assert_eq!(reader.bytes_consumed(), 16);
    assert!(reader.is_poisoned());
}

#[test]
fn an_oversized_length_is_rejected_after_the_header() {
    let mut wire = Vec::new();
    wire.extend_from_slice(&u32::MAX.to_le_bytes());
    wire.extend_from_slice(b"payload bytes");
    let mut reader = StreamReader::new(SliceSource::new(wire), DefaultDeframer::new().with_max_frame_len(8));
    let err = reader.read_message().unwrap_err();
    assert!(matches!(err.kind(), ErrorKind::InvalidFrame { .. }));
    assert_eq!(reader.bytes_consumed(), 4);
    assert!(reader.is_poisoned());
}

#[test]
fn a_processor_error_is_returned_and_stops_the_reading() {
    let wire = framed(&[b"one", b"two", b"three"]);
    let mut reader = StreamReader::new(SliceSource::new(wire), DefaultDeframer::new());
    let mut seen: Vec<Vec<u8>> = Vec::new();
    let err = reader
        .process_all(|p| {
            seen.push(p.to_vec());
            if p == b"two" {
                Err(Error::invalid_frame("stop here"))
            } else {
                Ok(())
            }
        })
        .unwrap_err();
    assert!(matches!(err.kind(), ErrorKind::InvalidFrame { .. }));
    assert_eq!(seen, vec![b"one".to_vec(), b"two".to_vec()]);
    assert_eq!(reader.bytes_consumed(), 7 + 7);
    assert!(!reader.is_poisoned());
    assert_eq!(reader.read_message().unwrap(), Some(&b"three"[..]));
}

#[test]
fn processed_receipts_tile_the_stream() {
    let wire = framed(&[b"a", b"bb", b"ccc"]);
    let mut reader = StreamReader::new(SliceSource::new(wire), DefaultDeframer::new());
    let mut receipts = Vec::new();
    reader
        .process_all_with_receipt(|frame| {
            receipts.push((frame.receipt.frame_start, frame.receipt.wire_len, frame.payload.len()));
            Ok(())
        })
        .unwrap();
    assert_eq!(receipts, vec![(0, 5, 1), (5, 6, 2), (11, 7, 3)]);
}

#[test]
fn the_first_rejecting_member_answers_for_the_pipeline() {
    let composite = CompositeValidator::new().add(SizeValidator::new(2, 100)).add(StructuralValidator::new());
    let err = composite.validate(b"x").unwrap_err();
    match err.into_kind() {
        ErrorKind::ValidationFailed { validator, .. } => assert_eq!(validator, "SizeValidator"),
        other => panic!("wrong error: {other:?}"),
    }
    let err = composite.validate(b"xyz").unwrap_err();
    match err.into_kind() {
        ErrorKind::ValidationFailed { validator, reason } => {
            assert_eq!(validator, "StructuralValidator");
            assert_eq!(reason, "buffer too small for FlatBuffer");
        }
        other => panic!("wrong error: {other:?}"),
    }
}
