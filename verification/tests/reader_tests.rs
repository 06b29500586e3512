use flatbuffers::FlatBufferBuilder;
use flatstream::{
    ByteSource, ChecksumDeframer, ChecksumFramer, DefaultDeframer, DefaultFramer, Error, ErrorKind,
    Framer, IoError, IoErrorKind, MemoryPolicy, ReaderMemoryBackend, ReaderMemoryPolicy,
    ReclamationInfo, ReclamationReason, SliceSource, StreamReader, StreamWriter, XxHash64,
};
use flatstream::reader::PendingReclamation;
use std::sync::{Arc, Mutex};

#[derive(Clone)]
struct RecordingPolicy(Arc<Mutex<Vec<ReclamationInfo>>>);

impl MemoryPolicy for RecordingPolicy {
    fn should_reset(&mut self, _last_message_size: usize, _current_capacity: usize) -> Option<ReclamationReason> {
        None
    }

    fn on_reclaim(&mut self, info: &ReclamationInfo) {
        self.0.lock().unwrap().push(*info);
    }

    fn baseline_capacity(&self) -> usize {
        64
    }
}

/// Writes `messages` as string roots and returns the wire bytes and the
/// expected payload of each frame.
fn write_stream<F: Framer>(framer: F, messages: &[&str]) -> (Vec<u8>, Vec<Vec<u8>>) {
    let mut expected = Vec::new();
    let mut writer = StreamWriter::new(Vec::new(), framer);
    let mut builder = FlatBufferBuilder::new();
    for msg in messages {
        builder.reset();
        let data = builder.create_string(msg);
        builder.finish(data, None);
        expected.push(builder.finished_data().to_vec());
        writer.write_finished(builder.finished_data()).unwrap();
    }
    (writer.into_inner(), expected)
}

#[test]
fn read_message_returns_exact_payload() {
    let (wire, expected) = write_stream(DefaultFramer, &["test data"]);
    let mut reader = StreamReader::new(SliceSource::new(wire), DefaultDeframer::new());
    assert_eq!(reader.read_message().unwrap().unwrap(), &expected[0][..]);
    assert!(reader.read_message().unwrap().is_none());
}

#[test]
fn read_message_checksummed_returns_exact_payload() {
    let (wire, expected) = write_stream(ChecksumFramer::new(XxHash64::new()), &["test data"]);
    let mut reader = StreamReader::new(SliceSource::new(wire), ChecksumDeframer::new(XxHash64::new()));
    assert_eq!(reader.read_message().unwrap().unwrap(), &expected[0][..]);
    assert!(reader.read_message().unwrap().is_none());
}

#[test]
fn process_all_yields_every_payload_in_order() {
    let (wire, expected) = write_stream(DefaultFramer, &["one", "two", "three"]);
    let mut reader = StreamReader::new(SliceSource::new(wire), DefaultDeframer::new());
    let mut count = 0usize;
    reader
        .process_all(|payload| {
            assert_eq!(payload, &expected[count][..]);
            count += 1;
            Ok(())
        })
        .unwrap();
    assert_eq!(count, expected.len());
}

#[test]
fn messages_iterator_yields_every_payload_in_order() {
    let (wire, expected) = write_stream(DefaultFramer, &["one", "two", "three"]);
    let mut reader = StreamReader::new(SliceSource::new(wire), DefaultDeframer::new());
    let mut count = 0usize;
    let mut messages = reader.messages();
    while let Some(payload) = messages.next().unwrap() {
        assert_eq!(payload, &expected[count][..]);
        count += 1;
    }
    assert_eq!(count, expected.len());
}

#[test]
fn empty_stream_is_clean_eof_on_both_apis() {
    let mut reader = StreamReader::new(SliceSource::new(Vec::new()), DefaultDeframer::new());
    assert!(reader.read_message().unwrap().is_none());

    let mut reader = StreamReader::new(SliceSource::new(Vec::new()), DefaultDeframer::new());
    let mut count = 0usize;
    reader
        .process_all(|_| {
            count += 1;
            Ok(())
        })
        .unwrap();
    assert_eq!(count, 0);
}

#[test]
fn pending_reader_reclamation_shrinks_the_existing_buffer_once() {
    let mut buffer = Vec::with_capacity(4096);
    buffer.resize(1024, 0xA5);
    let initial_capacity = buffer.capacity();
    let events = Arc::new(Mutex::new(Vec::new()));
    let mut memory = ReaderMemoryPolicy {
        policy: RecordingPolicy(Arc::clone(&events)),
        baseline_capacity: 64,
        pending_reclaim: Some(PendingReclamation {
            reason: ReclamationReason::SizeThreshold,
            last_message_size: 16,
            capacity_before: initial_capacity,
        }),
    };
    assert!(events.lock().unwrap().is_empty(), "scheduling alone must not report a reclaim");

    memory.before_read(&mut buffer);

    assert!(buffer.is_empty(), "old payload bytes are no longer exposed");
    assert!(
        buffer.capacity() >= 64 && buffer.capacity() <= initial_capacity,
        "shrink_to keeps at least the baseline without growing capacity"
    );
    assert!(memory.pending_reclaim.is_none());
    let recorded = events.lock().unwrap();
    assert_eq!(recorded.len(), 1);
    assert_eq!(recorded[0].capacity_before, initial_capacity);
    assert_eq!(recorded[0].capacity_after, buffer.capacity());
    drop(recorded);

    let reclaimed_capacity = buffer.capacity();
    memory.before_read(&mut buffer);
    assert_eq!(buffer.capacity(), reclaimed_capacity, "a completed reclamation is not repeated");
}

/// A source whose first read fails before delivering any byte.
struct FailFirstRead<R> {
    inner: R,
    failed_once: bool,
}

impl<R: ByteSource> ByteSource for FailFirstRead<R> {
    fn read_into(&mut self, buf: &mut Vec<u8>, start: usize, end: usize) -> Result<usize, IoError> {
        if !self.failed_once {
            self.failed_once = true;
            return Err(IoError::new(IoErrorKind::Other, "transient device error"));
        }
        self.inner.read_into(buf, start, end)
    }
}

#[test]
fn zero_byte_failure_does_not_poison_and_the_read_retries() {
    let (wire, expected) = write_stream(DefaultFramer, &["retry me"]);
    let mut reader = StreamReader::new(
        FailFirstRead { inner: SliceSource::new(wire), failed_once: false },
        DefaultDeframer::new(),
    );
    assert!(!reader.is_poisoned());

    let error = reader.read_message().expect_err("first read must fail");
    assert!(matches!(error.kind(), ErrorKind::Io(_)));
    assert!(!reader.is_poisoned(), "zero consumed bytes must not poison");
    assert_eq!(reader.bytes_consumed(), 0);

    assert_eq!(reader.read_message().unwrap().unwrap(), &expected[0][..]);
    assert!(reader.read_message().unwrap().is_none());
}

#[test]
fn start_offset_cannot_rebase_an_active_reader() {
    let (wire, _) = write_stream(DefaultFramer, &["already read"]);
    let mut reader = StreamReader::new(SliceSource::new(wire), DefaultDeframer::new());
    reader.read_message().unwrap().unwrap();
    let error = match reader.with_start_offset(1_000) {
        Ok(_) => panic!("rebasing after consumed bytes must fail"),
        Err(error) => error,
    };
    assert!(matches!(error.kind(), ErrorKind::InvalidFrame { .. }));
}

#[test]
fn process_all_propagates_processor_error_and_stops() {
    let (wire, _) = write_stream(DefaultFramer, &["a", "b", "c", "d", "e"]);
    let mut reader = StreamReader::new(SliceSource::new(wire), DefaultDeframer::new());
    let mut count = 0usize;
    let result = reader.process_all(|_| {
        count += 1;
        if count == 3 {
            return Err(Error::io(IoError::new(IoErrorKind::Other, "Simulated processing error")));
        }
        Ok(())
    });
    assert_eq!(count, 3);
    match result.unwrap_err().into_kind() {
        ErrorKind::Io(e) => {
            assert_eq!(e.kind, IoErrorKind::Other);
            assert_eq!(e.message, "Simulated processing error");
        },
        _ => panic!("Expected Io error"),
    }
}

#[test]
fn receipts_tile_the_stream_and_a_torn_read_poisons() {
    let (mut wire, expected) = write_stream(DefaultFramer, &["one", "two"]);
    wire.extend_from_slice(&[9, 0, 0, 0, 1, 2]);
    let mut reader = StreamReader::new(SliceSource::new(wire), DefaultDeframer::new());
    let first = reader.read_message_with_receipt().unwrap().unwrap();
    assert_eq!(first.payload, &expected[0][..]);
    assert_eq!(first.receipt.frame_start, 0);
    assert_eq!(first.receipt.wire_len, 4 + expected[0].len() as u64);
    let first_end = first.receipt.end();
    let second = reader.read_message_with_receipt().unwrap().unwrap();
    assert_eq!(second.payload, &expected[1][..]);
    assert_eq!(second.receipt.frame_start, first_end);
    let second_end = second.receipt.end();
    assert_eq!(reader.bytes_consumed(), second_end);
    let err = reader.read_message().unwrap_err();
    assert!(matches!(err.kind(), ErrorKind::UnexpectedEof));
    assert!(reader.is_poisoned());
    assert!(matches!(reader.read_message().unwrap_err().kind(), ErrorKind::Poisoned));
}
