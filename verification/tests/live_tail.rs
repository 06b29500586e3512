use flatbuffers::FlatBufferBuilder;
use flatstream::{
    read_frame_at, ByteSource, ChecksumDeframer, ChecksumFramer, Crc32, DefaultDeframer, DefaultFramer,
    ErrorKind, Framer, IoError, IoErrorKind, RetrySafeDeframer, SeekSource, StreamWriter,
};
use std::cell::RefCell;
use std::rc::Rc;

/// A journal that an appender grows while a follower reads it through its
/// own handle with its own position.
#[derive(Clone, Default)]
struct Journal(Rc<RefCell<Vec<u8>>>);

impl Journal {
    fn append(&self, bytes: &[u8]) {
        self.0.borrow_mut().extend_from_slice(bytes);
    }

    fn follower(&self) -> Follower {
        Follower { journal: self.clone(), pos: 0 }
    }
}

/// A reading handle on a [`Journal`].
struct Follower {
    journal: Journal,
    pos: usize,
}

impl ByteSource for Follower {
    fn read_into(&mut self, buf: &mut Vec<u8>, start: usize, end: usize) -> Result<usize, IoError> {
        let data = self.journal.0.borrow();
        let available = data.len().saturating_sub(self.pos);
        let n = (end - start).min(available);
        buf[start..start + n].copy_from_slice(&data[self.pos..self.pos + n]);
        self.pos += n;
        Ok(n)
    }
}

impl SeekSource for Follower {
    fn seek_to(&mut self, offset: u64) -> Result<(), IoError> {
        self.pos = offset as usize;
        Ok(())
    }
}

/// Frames `values` with `framer` into one wire image; returns the bytes and
/// the payload of each frame.
fn wire_image<F: Framer>(framer: F, values: &[&str]) -> (Vec<u8>, Vec<Vec<u8>>) {
    let mut writer = StreamWriter::new(Vec::new(), framer);
    let mut payloads = Vec::new();
    let mut builder = FlatBufferBuilder::new();
    for value in values {
        builder.reset();
        let off = builder.create_string(value);
        builder.finish(off, None);
        payloads.push(builder.finished_data().to_vec());
        writer.write_finished(builder.finished_data()).unwrap();
    }
    (writer.into_inner(), payloads)
}

/// With a prefix of one frame in the journal, a point read at offset 0 is
/// `UnexpectedEof`; once the rest is appended, the same read returns the
/// exact payload and a receipt naming the whole frame.
fn assert_partial_frame_retry<D: RetrySafeDeframer>(wire: &[u8], expected: &[u8], deframer: &D) {
    let cut_points = [2usize, 4, wire.len() / 2, wire.len() - 1];
    for &split in &cut_points {
        assert!(split < wire.len(), "a partial prefix must omit real bytes");

        let journal = Journal::default();
        let mut reader = journal.follower();
        journal.append(&wire[..split]);

        let mut scratch = Vec::new();
        let err = read_frame_at(&mut reader, deframer, 0, &mut scratch)
            .expect_err("a frame cut at an interior byte must not read as complete");
        assert!(
            matches!(err.kind(), ErrorKind::UnexpectedEof),
            "interior EOF must be UnexpectedEof, got {:?} at split {split}",
            err.kind()
        );

        journal.append(&wire[split..]);

        let frame = read_frame_at(&mut reader, deframer, 0, &mut scratch)
            .unwrap()
            .expect("the completed frame must now read");
        assert_eq!(frame.payload, expected, "payload at split {split}");
        assert_eq!(frame.receipt.frame_start, 0);
        assert_eq!(frame.receipt.wire_len, wire.len() as u64, "receipt must name the whole frame at split {split}");
    }
}

#[test]
fn default_partial_frame_retries_byte_exact_after_append() {
    let (wire, payloads) = wire_image(DefaultFramer, &["eventually complete default frame"]);
    assert_partial_frame_retry(&wire, &payloads[0], &DefaultDeframer::new());
}

#[test]
fn crc32_partial_frame_retries_byte_exact_after_append() {
    let (wire, payloads) = wire_image(ChecksumFramer::new(Crc32::new()), &["eventually complete crc32 frame"]);
    assert_partial_frame_retry(&wire, &payloads[0], &ChecksumDeframer::new(Crc32::new()));
}

#[test]
fn clean_eof_at_a_frame_boundary_is_none_not_an_error() {
    let (wire, _) = wire_image(DefaultFramer, &["first", "second"]);
    let journal = Journal::default();
    journal.append(&wire);
    let mut reader = journal.follower();
    let mut scratch = Vec::new();

    let boundary = read_frame_at(&mut reader, &DefaultDeframer::new(), 0, &mut scratch)
        .unwrap()
        .unwrap()
        .receipt
        .end();
    let end = read_frame_at(&mut reader, &DefaultDeframer::new(), boundary, &mut scratch)
        .unwrap()
        .unwrap()
        .receipt
        .end();
    assert_eq!(end, wire.len() as u64);

    assert!(
        read_frame_at(&mut reader, &DefaultDeframer::new(), end, &mut scratch).unwrap().is_none(),
        "clean EOF at a frame boundary must be Ok(None)"
    );
}

/// Seeks like the journal beneath it but fails every read with a chosen
/// fault other than the end of the input.
struct FailingReads {
    inner: Follower,
    kind: IoErrorKind,
}

impl ByteSource for FailingReads {
    fn read_into(&mut self, _buf: &mut Vec<u8>, _start: usize, _end: usize) -> Result<usize, IoError> {
        Err(IoError::new(self.kind, "injected device error"))
    }
}

impl SeekSource for FailingReads {
    fn seek_to(&mut self, offset: u64) -> Result<(), IoError> {
        self.inner.seek_to(offset)
    }
}

#[test]
fn a_non_eof_device_error_propagates_and_is_not_a_torn_tail() {
    let (wire, _) = wire_image(DefaultFramer, &["intact on disk"]);
    let journal = Journal::default();
    journal.append(&wire);

    let mut source = FailingReads { inner: journal.follower(), kind: IoErrorKind::PermissionDenied };
    let mut scratch = Vec::new();
    let err = read_frame_at(&mut source, &DefaultDeframer::new(), 0, &mut scratch)
        .expect_err("a device error must not be swallowed");
    match err.into_kind() {
        ErrorKind::Io(e) => assert_eq!(e.kind, IoErrorKind::PermissionDenied),
        other => panic!("expected Io(PermissionDenied), got {other:?}"),
    }
}
