use flatbuffers::FlatBufferBuilder;
use flatstream::{
    read_frame_at, ByteSource, CountingReader, DefaultDeframer, DefaultFramer, Deframer, Error,
    ErrorKind, FrameReceipt, IoError, IoErrorKind, RetrySafeDeframer, SizeThresholdPolicy,
    SliceSource, StreamReader, StreamWriter,
};

/// Serializes each value as a string root; returns the wire image, the
/// payloads, and the receipts the writer recorded.
fn default_stream(values: &[&str]) -> (Vec<u8>, Vec<Vec<u8>>, Vec<FrameReceipt>) {
    let mut payloads = Vec::new();
    let mut receipts = Vec::new();
    let mut writer = StreamWriter::new(Vec::new(), DefaultFramer);
    let mut builder = FlatBufferBuilder::new();
    for value in values {
        builder.reset();
        let off = builder.create_string(value);
        builder.finish(off, None);
        payloads.push(builder.finished_data().to_vec());
        receipts.push(writer.write_finished_with_receipt(builder.finished_data()).unwrap());
    }
    (writer.into_inner(), payloads, receipts)
}

/// A `[4-byte length | payload]` deframer with its own payload loop, which
/// reads each outstanding tail in two separate requests (the head half, then
/// the rest). The header is parsed by the trait's provided `read_and_deframe`.
struct VectoredDeframer;

impl Deframer for VectoredDeframer {
    fn read_after_length<R: ByteSource>(
        &self,
        reader: &mut CountingReader<R>,
        buffer: &mut Vec<u8>,
        payload_len: usize,
    ) -> Result<Option<usize>, Error> {
        if payload_len > buffer.len() {
            buffer.resize(payload_len, 0);
        }
        let mut filled = 0;
        while filled < payload_len {
            let mid = filled + (payload_len - filled) / 2;
            let (start, end) = if mid > filled { (filled, mid) } else { (filled, payload_len) };
            match reader.read_into(buffer, start, end) {
                Ok(0) => return Err(Error::unexpected_eof()),
                Ok(n) => filled += n,
                Err(e) if e.kind == IoErrorKind::Interrupted => {}
                Err(e) if e.kind == IoErrorKind::UnexpectedEof => return Err(Error::unexpected_eof()),
                Err(e) => return Err(Error::io(e)),
            }
        }
        Ok(Some(payload_len))
    }
}

impl RetrySafeDeframer for VectoredDeframer {}

#[test]
fn vectored_custom_deframer_produces_exact_receipt_bounds() {
    let (wire, expected, receipts) = default_stream(&["alpha", "second frame", "three"]);

    let mut reader = StreamReader::new(SliceSource::new(wire.clone()), VectoredDeframer);
    let mut seen = 0usize;
    reader
        .process_all_with_receipt(|frame| {
            assert_eq!(frame.payload, &expected[seen][..], "payload {seen}");
            assert_eq!(frame.receipt, receipts[seen], "receipt {seen}");
            seen += 1;
            Ok(())
        })
        .unwrap();
    assert_eq!(seen, expected.len());
    assert_eq!(reader.bytes_consumed(), wire.len() as u64);

    let mut source = SliceSource::new(wire);
    let mut scratch = Vec::new();
    for i in 0..expected.len() {
        let frame = read_frame_at(&mut source, &VectoredDeframer, receipts[i].frame_start, &mut scratch)
            .unwrap()
            .unwrap();
        assert_eq!(frame.payload, &expected[i][..]);
        assert_eq!(frame.receipt, receipts[i]);
    }
}

#[test]
fn bytes_consumed_before_a_torn_tail_are_retained() {
    let (wire, _expected, receipts) = default_stream(&["first", "second frame torn here"]);
    let boundary = receipts[0].end();

    let trunc_len = (boundary as usize) + 4 + 2;
    assert!((trunc_len as u64) < receipts[1].end(), "truncation must fall inside the second frame");

    let mut reader = StreamReader::new(SliceSource::new(wire[..trunc_len].to_vec()), DefaultDeframer::new());

    let first = reader.read_message_with_receipt().unwrap().unwrap();
    assert_eq!(first.receipt, receipts[0]);
    assert_eq!(reader.bytes_consumed(), boundary);
    assert!(!reader.is_poisoned());

    let err = reader.read_message().expect_err("a mid-frame truncation must surface as an error");
    assert!(matches!(err.kind(), ErrorKind::UnexpectedEof));
    assert!(reader.is_poisoned(), "a failed read that consumed frame bytes must fail-stop the reader");

    assert!(reader.bytes_consumed() > boundary, "consumed bytes before the tear must be retained");
    assert_eq!(
        reader.bytes_consumed(),
        trunc_len as u64,
        "every available byte of the torn frame was consumed and counted"
    );

    let poisoned = reader
        .read_message()
        .expect_err("a sequential reader must not continue from the middle of a frame");
    assert!(matches!(poisoned.kind(), ErrorKind::Poisoned));
    assert_eq!(reader.bytes_consumed(), trunc_len as u64);
}

/// Hands out bytes normally until `budget` bytes are gone, then fails every
/// read with a device fault that delivers nothing.
struct DeviceErrorAfter<R> {
    inner: R,
    budget: usize,
}

impl<R: ByteSource> ByteSource for DeviceErrorAfter<R> {
    fn read_into(&mut self, buf: &mut Vec<u8>, start: usize, end: usize) -> Result<usize, IoError> {
        if self.budget == 0 {
            return Err(IoError::new(IoErrorKind::PermissionDenied, "device gone"));
        }
        let cap = (end - start).min(self.budget);
        let n = self.inner.read_into(buf, start, start + cap)?;
        self.budget -= n;
        Ok(n)
    }
}

#[test]
fn a_device_error_counts_only_bytes_actually_returned() {
    let (wire, _expected, receipts) = default_stream(&["first", "second frame interrupted"]);
    let boundary = receipts[0].end();

    let budget = (boundary as usize) + 5;
    assert!((budget as u64) < receipts[1].end(), "the error must strike inside the second frame");

    let source = DeviceErrorAfter { inner: SliceSource::new(wire), budget };
    let mut reader = StreamReader::new(source, DefaultDeframer::new());

    let first = reader.read_message_with_receipt().unwrap().unwrap();
    assert_eq!(first.receipt, receipts[0]);
    assert_eq!(reader.bytes_consumed(), boundary);

    let err = reader.read_message().expect_err("the injected device error must surface");
    assert!(
        matches!(err.kind(), ErrorKind::Io(e) if e.kind == IoErrorKind::PermissionDenied),
        "a device error must propagate intact, not become UnexpectedEof: {:?}",
        err.kind()
    );

    assert_eq!(reader.bytes_consumed(), budget as u64, "the counter equals bytes actually returned before the error");
    assert!(reader.is_poisoned(), "a device error after partial-frame consumption must fail-stop the reader");
}

#[test]
fn start_offset_composes_with_a_reclaiming_memory_policy() {
    let big = "b".repeat(2000);
    let values = [big.as_str(), "s1", "s2", "s3", "s4"];
    let (wire, expected, recorded) = default_stream(&values);
    let len = wire.len();

    let base = 4096u64;
    let policy = SizeThresholdPolicy::new(100, 100, 2).with_baseline(64);
    let mut reader = StreamReader::new(SliceSource::new(wire), DefaultDeframer::new())
        .with_memory_policy(policy)
        .with_start_offset(base)
        .unwrap();

    let mut caps = Vec::new();
    let mut idx = 0usize;
    loop {
        let (payload, receipt) = match reader.read_message_with_receipt().unwrap() {
            Some(frame) => (frame.payload.to_vec(), frame.receipt),
            None => break,
        };
        assert_eq!(payload, expected[idx], "payload {idx}");
        assert_eq!(receipt.frame_start, base + recorded[idx].frame_start, "start {idx}");
        assert_eq!(receipt.wire_len, recorded[idx].wire_len, "wire_len {idx}");
        caps.push(reader.buffer_capacity());
        idx += 1;
    }
    assert_eq!(idx, expected.len());
    assert_eq!(reader.bytes_consumed(), base + len as u64);

    assert!(caps[0] >= 1024, "the large frame grew the buffer: {}", caps[0]);
    assert!(caps[3] < caps[0], "the buffer was reclaimed before the fourth read (caps: {caps:?})");
    assert!(caps[3] >= 64, "Vec::shrink_to keeps at least the requested baseline (caps: {caps:?})");
}
