use flatbuffers::FlatBufferBuilder;
use flatstream::{
    ByteSink, Checksum, ChecksumFramer, DefaultFramer, Error, ErrorKind, Framer, FramerExt, FrameReceipt,
    IoError, IoErrorKind, NoOpPolicy, PostWriteObserver, StreamWriter, SyncPolicyBackend,
    WriterMemoryBackend, XxHash64,
};

/// Serializes `s` as a string root into `builder` and returns the exact
/// payload bytes the writer must put on the wire.
fn finished(builder: &mut FlatBufferBuilder, s: &str) -> Vec<u8> {
    builder.reset();
    let data = builder.create_string(s);
    builder.finish(data, None);
    builder.finished_data().to_vec()
}

/// Writes `s` through the writer's own-builder path: poison check,
/// serialization into `builder`, then the writer completes the write.
fn write_str<W, F, S, M, O>(
    writer: &mut StreamWriter<W, F, S, M, O>,
    builder: &mut FlatBufferBuilder<'static>,
    s: &str,
) -> Result<FrameReceipt, Error>
where
    W: ByteSink,
    F: Framer,
    S: SyncPolicyBackend<W>,
    M: WriterMemoryBackend,
    O: PostWriteObserver,
{
    let started = StreamWriter::<W, F, S, M, O>::observation_start();
    writer.reject_if_poisoned(started, None)?;
    builder.reset();
    let data = builder.create_string(s);
    builder.finish(data, None);
    let capacity = builder.mut_finished_buffer().0.len();
    let (result, rebuild) = writer.write_serialized_with_receipt(started, Ok(builder.finished_data()), capacity);
    if let Some(capacity) = rebuild {
        *builder = FlatBufferBuilder::with_capacity(capacity);
    }
    result
}

#[test]
fn write_finished_default_layout_is_byte_exact() {
    let mut writer = StreamWriter::new(Vec::new(), DefaultFramer);
    let mut builder = FlatBufferBuilder::new();
    let mut expected = Vec::new();
    for i in 0..3 {
        let payload = finished(&mut builder, &format!("message {i}"));
        writer.write_finished(builder.finished_data()).unwrap();
        expected.extend_from_slice(&(payload.len() as u32).to_le_bytes());
        expected.extend_from_slice(&payload);
    }
    writer.flush().unwrap();
    assert_eq!(writer.into_inner(), expected);
}

#[test]
fn write_finished_checksummed_layout_is_byte_exact() {
    let mut writer = StreamWriter::new(Vec::new(), ChecksumFramer::new(XxHash64::new()));
    let mut builder = FlatBufferBuilder::new();
    let payload = finished(&mut builder, "test data");
    writer.write_finished(builder.finished_data()).unwrap();
    writer.flush().unwrap();
    let wire = writer.into_inner();

    let mut expected = Vec::new();
    expected.extend_from_slice(&(payload.len() as u32).to_le_bytes());
    expected.extend_from_slice(&XxHash64::new().calculate(&payload).to_le_bytes());
    expected.extend_from_slice(&payload);
    assert_eq!(wire, expected);
}

#[test]
fn simple_mode_writes_readable_string_root() {
    let mut writer = StreamWriter::new(Vec::new(), DefaultFramer);
    let mut builder = FlatBufferBuilder::new();
    write_str(&mut writer, &mut builder, "test message").unwrap();
    writer.flush().unwrap();
    let wire = writer.into_inner();

    let len = u32::from_le_bytes(wire[..4].try_into().unwrap()) as usize;
    assert_eq!(wire.len(), 4 + len);
    let root = flatbuffers::root::<&str>(&wire[4..]).unwrap();
    assert_eq!(root, "test message");
}

#[test]
fn write_with_policy_installed_is_transparent() {
    let mut builder = FlatBufferBuilder::new();
    let mut without = StreamWriter::new(Vec::new(), DefaultFramer);
    write_str(&mut without, &mut builder, "policy message").unwrap();

    let mut with_policy = StreamWriter::new(Vec::new(), DefaultFramer).with_memory_policy(NoOpPolicy);
    write_str(&mut with_policy, &mut builder, "policy message").unwrap();

    assert_eq!(with_policy.into_inner(), without.into_inner());
}

#[test]
fn writer_with_policy_is_send() {
    fn assert_send<T: Send>(_: &T) {}
    let writer = StreamWriter::new(Vec::new(), DefaultFramer).with_memory_policy(NoOpPolicy);
    assert_send(&writer);
}

#[test]
fn receipts_match_default_wire_layout() {
    let mut writer = StreamWriter::new(Vec::new(), DefaultFramer);
    let mut builder = FlatBufferBuilder::new();
    let mut expected_start = 0u64;
    for i in 0..3 {
        let payload = finished(&mut builder, &format!("message {i}"));
        let receipt = writer.write_finished_with_receipt(builder.finished_data()).unwrap();
        assert_eq!(receipt.frame_start, expected_start);
        assert_eq!(receipt.wire_len, (4 + payload.len()) as u64);
        assert_eq!(writer.bytes_written(), receipt.frame_start + receipt.wire_len);
        expected_start += receipt.wire_len;
    }
    assert_eq!(writer.bytes_written(), expected_start);
}

#[test]
fn receipt_names_the_exact_bytes_written() {
    let mut writer = StreamWriter::new(Vec::new(), DefaultFramer);
    let mut builder = FlatBufferBuilder::new();
    let r0 = write_str(&mut writer, &mut builder, "first").unwrap();
    let r1 = write_str(&mut writer, &mut builder, "second").unwrap();
    writer.flush().unwrap();
    let wire = writer.into_inner();

    assert_eq!(r0.frame_start, 0);
    assert_eq!(r1.frame_start, r0.wire_len);
    assert_eq!((r0.wire_len + r1.wire_len) as usize, wire.len());
    let l0 = u32::from_le_bytes(wire[..4].try_into().unwrap()) as u64;
    assert_eq!(r0.wire_len, 4 + l0);
}

#[test]
fn with_start_offset_shifts_receipts_and_position() {
    let mut writer = StreamWriter::new(Vec::new(), DefaultFramer).with_start_offset(1000).unwrap();
    assert_eq!(writer.bytes_written(), 1000);
    let mut builder = FlatBufferBuilder::new();
    let r = write_str(&mut writer, &mut builder, "shifted").unwrap();
    assert_eq!(r.frame_start, 1000);
    assert_eq!(writer.bytes_written(), 1000 + r.wire_len);
}

#[test]
fn invalid_external_receipt_coordinates_saturate_instead_of_wrapping() {
    let receipt = FrameReceipt { frame_start: u64::MAX, wire_len: 1 };
    assert_eq!(receipt.checked_end(), None);
    assert_eq!(receipt.end(), u64::MAX);
    assert_eq!(receipt.range(), u64::MAX..u64::MAX);
}

/// A sink whose first write fails outright and then behaves normally.
struct FailFirstWrite {
    written: Vec<u8>,
    failed_once: bool,
}

impl ByteSink for FailFirstWrite {
    fn write(&mut self, buf: &[u8]) -> Result<usize, IoError> {
        if !self.failed_once {
            self.failed_once = true;
            return Err(IoError::new(IoErrorKind::Other, "transient device error"));
        }
        self.written.extend_from_slice(buf);
        Ok(buf.len())
    }
    fn flush(&mut self) -> Result<(), IoError> {
        Ok(())
    }
}

#[test]
fn zero_byte_failure_does_not_poison_and_the_write_retries() {
    let mut writer = StreamWriter::new(FailFirstWrite { written: Vec::new(), failed_once: false }, DefaultFramer);
    assert!(!writer.is_poisoned());
    let mut builder = FlatBufferBuilder::new();

    let error = write_str(&mut writer, &mut builder, "retry me").expect_err("first write must fail");
    assert!(matches!(error.kind(), ErrorKind::Io(_)));
    assert!(!writer.is_poisoned(), "zero accepted bytes must not poison");
    assert_eq!(writer.bytes_written(), 0);

    let receipt = write_str(&mut writer, &mut builder, "retry me").unwrap();
    assert_eq!(receipt.frame_start, 0);
    assert_eq!(writer.bytes_written(), receipt.wire_len);
    assert_eq!(writer.into_inner().written.len() as u64, receipt.wire_len);
}

#[test]
fn start_offset_cannot_rebase_an_active_writer() {
    let mut writer = StreamWriter::new(Vec::new(), DefaultFramer);
    let mut builder = FlatBufferBuilder::new();
    write_str(&mut writer, &mut builder, "already written").unwrap();
    let error = match writer.with_start_offset(1_000) {
        Ok(_) => panic!("rebasing after accepted bytes must fail"),
        Err(error) => error,
    };
    assert!(matches!(error.kind(), ErrorKind::InvalidFrame { .. }));
}

#[test]
fn checksummed_receipt_wire_len_includes_checksum() {
    let mut writer = StreamWriter::new(Vec::new(), ChecksumFramer::new(XxHash64::new()));
    let mut builder = FlatBufferBuilder::new();
    let payload = finished(&mut builder, "checked");
    let r = writer.write_finished_with_receipt(builder.finished_data()).unwrap();
    assert_eq!(r.wire_len, (4 + XxHash64::SIZE + payload.len()) as u64);
}

/// A sink with two-part output that records which path each call took.
struct VectoringSink {
    written: Vec<u8>,
    vectored_calls: usize,
    scalar_calls: usize,
}

impl ByteSink for VectoringSink {
    fn write(&mut self, buf: &[u8]) -> Result<usize, IoError> {
        self.scalar_calls += 1;
        self.written.extend_from_slice(buf);
        Ok(buf.len())
    }
    fn write_parts(&mut self, first: &[u8], second: &[u8]) -> Result<usize, IoError> {
        self.vectored_calls += 1;
        self.written.extend_from_slice(first);
        self.written.extend_from_slice(second);
        Ok(first.len() + second.len())
    }
    fn flush(&mut self) -> Result<(), IoError> {
        Ok(())
    }
}

#[test]
fn receipts_are_correct_for_a_vectoring_sink() {
    let sink = VectoringSink { written: Vec::new(), vectored_calls: 0, scalar_calls: 0 };
    let mut writer = StreamWriter::new(sink, DefaultFramer);
    let mut builder = FlatBufferBuilder::new();
    let mut expected_start = 0u64;
    for i in 0..3 {
        let payload = finished(&mut builder, &format!("frame {i}"));
        let receipt = writer.write_finished_with_receipt(builder.finished_data()).unwrap();
        assert_eq!(receipt.frame_start, expected_start);
        assert_eq!(receipt.wire_len, (4 + payload.len()) as u64);
        expected_start += receipt.wire_len;
    }
    assert_eq!(writer.bytes_written(), expected_start);
    let sink = writer.into_inner();
    assert_eq!(sink.written.len() as u64, expected_start);
    assert_eq!(sink.vectored_calls, 3, "one vectored call per frame");
    assert_eq!(sink.scalar_calls, 0, "no scalar writes on a vectoring sink");
}

#[test]
fn owned_stream_writer_alias_hides_lifetime() {
    fn make<W: ByteSink>(w: W) -> StreamWriter<W, DefaultFramer> {
        StreamWriter::new(w, DefaultFramer)
    }
    let mut writer = make(Vec::new());
    let mut builder = FlatBufferBuilder::new();
    let _ = finished(&mut builder, "aliased");
    writer.write_finished(builder.finished_data()).unwrap();
    writer.flush().unwrap();
    assert!(!writer.into_inner().is_empty());
}

/// A sink that accepts a few bytes and then fails: a torn frame.
struct TearsAfter {
    written: Vec<u8>,
    budget: usize,
}

impl ByteSink for TearsAfter {
    fn write(&mut self, buf: &[u8]) -> Result<usize, IoError> {
        if self.budget == 0 {
            return Err(IoError::new(IoErrorKind::BrokenPipe, "gone"));
        }
        let n = buf.len().min(self.budget);
        self.written.extend_from_slice(&buf[..n]);
        self.budget -= n;
        Ok(n)
    }
    fn flush(&mut self) -> Result<(), IoError> {
        Ok(())
    }
}

#[test]
fn a_torn_frame_poisons_the_writer_and_counts_the_accepted_bytes() {
    let mut writer = StreamWriter::new(TearsAfter { written: Vec::new(), budget: 6 }, DefaultFramer);
    let err = writer.write_finished_with_receipt(b"0123456789").unwrap_err();
    assert!(matches!(err.kind(), ErrorKind::Io(e) if e.kind == IoErrorKind::BrokenPipe));
    assert!(writer.is_poisoned());
    assert_eq!(writer.bytes_written(), 6);
    assert!(matches!(writer.write_finished(b"x").unwrap_err().kind(), ErrorKind::Poisoned));
    assert!(matches!(writer.with_start_offset(0).err().unwrap().kind(), ErrorKind::Poisoned));
}

#[test]
fn an_oversized_payload_is_rejected_before_any_byte_is_written() {
    // A bounded framer refuses the payload; nothing reaches the sink and the
    // writer stays usable.
    let mut writer = StreamWriter::new(Vec::new(), DefaultFramer.bounded(3));
    let err = writer.write_finished(b"four").unwrap_err();
    assert!(matches!(err.kind(), ErrorKind::InvalidFrame { .. }));
    assert!(!writer.is_poisoned());
    assert_eq!(writer.bytes_written(), 0);
    writer.write_finished(b"abc").unwrap();
    assert_eq!(writer.into_inner(), vec![3, 0, 0, 0, b'a', b'b', b'c']);
}

#[test]
fn consecutive_receipts_tile_the_stream() {
    let mut writer = StreamWriter::new(Vec::new(), ChecksumFramer::new(XxHash64::new()));
    let mut builder = FlatBufferBuilder::new();
    let mut receipts = Vec::new();
    for s in ["a", "bb", "ccc", "dddd"] {
        let payload = finished(&mut builder, s);
        receipts.push(writer.write_finished_with_receipt(&payload).unwrap());
    }
    assert_eq!(receipts[0].frame_start, 0);
    for pair in receipts.windows(2) {
        assert_eq!(pair[1].frame_start, pair[0].end());
    }
    let total: u64 = receipts.iter().map(|r| r.wire_len).sum();
    assert_eq!(total, writer.bytes_written());
    assert_eq!(writer.into_inner().len() as u64, total);
}
