use flatstream::{
    ByteSource, Checksum, ChecksumDeframer, ChecksumFramer, CountingReader, CountingWriter, Crc16,
    Crc32, DefaultDeframer, DefaultFramer, Deframer, ErrorKind, Framer, IoError, IoErrorKind,
    SliceSource, StreamReader, XxHash64, DEFAULT_MAX_FRAME_LEN,
};

/// Frames each payload with `framer` into one in-memory stream.
fn frame_all<F: Framer>(framer: &F, payloads: &[&[u8]]) -> Vec<u8> {
    let mut out = CountingWriter::new(Vec::new());
    for p in payloads {
        framer.frame_and_write(&mut out, p).unwrap();
    }
    out.into_inner()
}

#[test]
fn oversized_length_returns_invalid_frame_or_eof() {
    let mut out = frame_all(&DefaultFramer, &[b"hello"]);
    let mut len = u32::from_le_bytes([out[0], out[1], out[2], out[3]]) as usize;
    len += 10;
    let len_bytes = (len as u32).to_le_bytes();
    out[0..4].copy_from_slice(&len_bytes);

    let mut reader = StreamReader::new(SliceSource::new(out), DefaultDeframer::new());
    let err = reader.read_message().unwrap_err();
    assert!(matches!(err.kind(), ErrorKind::UnexpectedEof));
}

/// Truncates a valid multi-frame stream at every byte offset: complete frames
/// come back intact and in order, then the cut is a clean end exactly on a
/// frame boundary and `UnexpectedEof` anywhere else.
fn truncation_sweep<F: Framer, D: Deframer>(framer: &F, make_deframer: impl Fn() -> D) {
    let payloads: [&[u8]; 3] = [b"a", b"bb-bb", b"ccc-ccc-ccc"];
    let mut wire = CountingWriter::new(Vec::new());
    let mut boundaries = vec![0usize];
    for p in payloads {
        framer.frame_and_write(&mut wire, p).unwrap();
        boundaries.push(wire.count() as usize);
    }
    let wire = wire.into_inner();

    for cut in 0..=wire.len() {
        let mut reader = StreamReader::new(SliceSource::new(wire[..cut].to_vec()), make_deframer());
        let complete = boundaries.iter().filter(|&&b| b > 0 && b <= cut).count();
        for expected in payloads.iter().take(complete) {
            let payload = reader.read_message().unwrap().expect("complete frame");
            assert_eq!(payload, *expected, "cut at {cut}");
        }
        if boundaries.contains(&cut) {
            assert!(
                reader.read_message().unwrap().is_none(),
                "cut at frame boundary {cut} must be clean EOF"
            );
        } else {
            let err = reader.read_message().unwrap_err();
            assert!(
                matches!(err.kind(), ErrorKind::UnexpectedEof),
                "cut inside a frame at {cut} must be UnexpectedEof, got {err:?}"
            );
        }
    }
}

#[test]
fn truncation_sweep_default() {
    truncation_sweep(&DefaultFramer, DefaultDeframer::new);
}

#[test]
fn truncation_sweep_checksummed() {
    truncation_sweep(&ChecksumFramer::new(XxHash64::new()), || {
        ChecksumDeframer::new(XxHash64::new())
    });
}

#[test]
fn default_bound_rejects_hostile_length_before_allocation() {
    let mut data = u32::MAX.to_le_bytes().to_vec();
    data.extend_from_slice(b"short");

    let mut reader = StreamReader::new(SliceSource::new(data), DefaultDeframer::new());
    let err = reader.read_message().unwrap_err();
    match err.into_kind() {
        ErrorKind::InvalidFrame { declared_len, limit, .. } => {
            assert_eq!(declared_len, Some(u32::MAX as usize));
            assert_eq!(limit, Some(DEFAULT_MAX_FRAME_LEN));
        }
        other => panic!("expected InvalidFrame, got {other:?}"),
    }
}

#[test]
fn checksum_default_bound_rejects_hostile_length_before_allocation() {
    fn check<C: Checksum>(checksum: C) {
        let mut data = vec![0u8; 4 + C::SIZE];
        data[..4].copy_from_slice(&u32::MAX.to_le_bytes());

        let mut reader = StreamReader::new(SliceSource::new(data), ChecksumDeframer::new(checksum));
        let err = reader.read_message().unwrap_err();
        match err.into_kind() {
            ErrorKind::InvalidFrame { declared_len, limit, .. } => {
                assert_eq!(declared_len, Some(u32::MAX as usize));
                assert_eq!(limit, Some(DEFAULT_MAX_FRAME_LEN));
            }
            other => panic!("expected InvalidFrame, got {other:?}"),
        }
    }

    check(XxHash64::new());
    check(Crc32::new());
    check(Crc16::new());
}

#[test]
fn default_bound_is_the_flatbuffers_maximum() {
    assert_eq!(DEFAULT_MAX_FRAME_LEN, flatbuffers::FLATBUFFERS_MAX_BUFFER_SIZE);
}

#[test]
fn high_water_mark_buffer_yields_exact_payloads() {
    let large = vec![0xABu8; 4096];
    let small = vec![0xCDu8; 16];
    let out = frame_all(&DefaultFramer, &[&large, &small]);

    let mut reader = StreamReader::new(SliceSource::new(out), DefaultDeframer::new());
    assert_eq!(reader.read_message().unwrap().unwrap(), &large[..]);
    assert_eq!(reader.read_message().unwrap().unwrap(), &small[..]);
    assert!(reader.read_message().unwrap().is_none());
}

/// Yields `good` bytes, then fails every read with a non-end-of-input fault.
struct FailAfter {
    good: Vec<u8>,
    pos: usize,
}

impl ByteSource for FailAfter {
    fn read_into(&mut self, buf: &mut Vec<u8>, start: usize, end: usize) -> Result<usize, IoError> {
        if self.pos < self.good.len() {
            let n = (end - start).min(self.good.len() - self.pos);
            buf[start..start + n].copy_from_slice(&self.good[self.pos..self.pos + n]);
            self.pos += n;
            Ok(n)
        } else {
            Err(IoError::new(IoErrorKind::PermissionDenied, "injected device fault"))
        }
    }
}

#[test]
fn checksum_field_io_error_propagates_intact() {
    let frame = frame_all(&ChecksumFramer::new(XxHash64::new()), &[b"payload"]);
    let deframer = ChecksumDeframer::new(XxHash64::new());

    // The fault lands inside the merged [len | checksum] header.
    let mut reader = CountingReader::new(FailAfter { good: frame[..5].to_vec(), pos: 0 });
    let mut buf = Vec::new();
    match deframer.read_and_deframe(&mut reader, &mut buf).unwrap_err().into_kind() {
        ErrorKind::Io(e) => assert_eq!(e.kind, IoErrorKind::PermissionDenied),
        other => panic!("expected ErrorKind::Io, got {other:?}"),
    }

    // The length was already consumed; the fault lands in the checksum field.
    let mut reader = CountingReader::new(FailAfter { good: frame[4..6].to_vec(), pos: 0 });
    let mut buf = Vec::new();
    match deframer
        .read_after_length(&mut reader, &mut buf, b"payload".len())
        .unwrap_err()
        .into_kind()
    {
        ErrorKind::Io(e) => assert_eq!(e.kind, IoErrorKind::PermissionDenied),
        other => panic!("expected ErrorKind::Io, got {other:?}"),
    }
}

#[test]
fn corrupted_checksum_region_returns_mismatch() {
    let mut out = frame_all(&ChecksumFramer::new(XxHash64::new()), &[b"payload"]);
    if out.len() >= 12 {
        out[8] ^= 0xFF;
    }

    let mut reader = StreamReader::new(SliceSource::new(out), ChecksumDeframer::new(XxHash64::new()));
    let err = reader.read_message().unwrap_err();
    assert!(matches!(err.kind(), ErrorKind::ChecksumMismatch { .. }));
}
