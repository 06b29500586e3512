use flatstream::{
    read_frame_at, recover, recover_file, ByteSource, ChecksumDeframer, ChecksumFramer, CountingWriter,
    Crc16, Crc32, DefaultDeframer, DefaultFramer, Deframer, DeframerExt, ErrorKind, Framer,
    IoError, IoErrorKind, RecoveryEnd, RecoveryReport, SeekSource, SizeValidator, SliceSource,
    StreamReader, XxHash64,
};

/// Frames `payload` onto the end of `wire`.
fn frame_into<F: Framer>(framer: &F, wire: &mut Vec<u8>, payload: &[u8]) {
    let mut writer = CountingWriter::new(std::mem::take(wire));
    framer.frame_and_write(&mut writer, payload).unwrap();
    *wire = writer.into_inner();
}

fn source(bytes: &[u8]) -> SliceSource {
    SliceSource::new(bytes.to_vec())
}

fn recovery_sweep<F: Framer, D: Deframer>(framer: &F, make_deframer: impl Fn() -> D) {
    let payloads: [&[u8]; 3] = [b"a", b"bb-bb", b"ccc-ccc-ccc"];
    let mut wire = Vec::new();
    let mut boundaries = vec![0u64];
    for p in payloads {
        frame_into(framer, &mut wire, p);
        boundaries.push(wire.len() as u64);
    }

    for cut in 0..=wire.len() {
        let report = recover(source(&wire[..cut]), make_deframer()).unwrap();
        let cut = cut as u64;
        let complete = boundaries.iter().filter(|&&b| b > 0 && b <= cut).count() as u64;
        let last_boundary = boundaries.iter().copied().filter(|&b| b <= cut).max().unwrap();
        let expected_end = if boundaries.contains(&cut) {
            RecoveryEnd::CleanEof
        } else {
            RecoveryEnd::TornTail
        };
        assert_eq!(report.frames, complete, "cut at {cut}");
        assert_eq!(report.last_good_offset, last_boundary, "cut at {cut}");
        assert_eq!(report.end, expected_end, "cut at {cut}");
    }
}

#[test]
fn recovery_truncation_sweep_default() {
    recovery_sweep(&DefaultFramer, DefaultDeframer::new);
}

#[test]
fn recovery_truncation_sweep_checksummed() {
    recovery_sweep(&ChecksumFramer::new(XxHash64::new()), || ChecksumDeframer::new(XxHash64::new()));
    recovery_sweep(&ChecksumFramer::new(Crc32::new()), || ChecksumDeframer::new(Crc32::new()));
    recovery_sweep(&ChecksumFramer::new(Crc16::new()), || ChecksumDeframer::new(Crc16::new()));
}

#[test]
fn recovery_of_empty_stream_is_clean() {
    let report = recover(source(b""), DefaultDeframer::new()).unwrap();
    assert_eq!(report, RecoveryReport { frames: 0, last_good_offset: 0, end: RecoveryEnd::CleanEof });
}

#[test]
fn recovery_errors_on_corrupted_payload() {
    let framer = ChecksumFramer::new(XxHash64::new());
    let mut wire = Vec::new();
    frame_into(&framer, &mut wire, b"good frame");
    let boundary = wire.len();
    frame_into(&framer, &mut wire, b"doomed frame");
    frame_into(&framer, &mut wire, b"valid suffix");
    let flip_at = boundary + 4 + 8 + 2;
    wire[flip_at] ^= 0x01;

    let err = recover(source(&wire), ChecksumDeframer::new(XxHash64::new())).unwrap_err();
    assert!(matches!(err.kind(), ErrorKind::ChecksumMismatch { .. }));
}

#[test]
fn recovery_errors_on_validation_failure() {
    let mut wire = Vec::new();
    frame_into(&DefaultFramer, &mut wire, b"ok");
    frame_into(&DefaultFramer, &mut wire, b"this payload is too large");
    let deframer = DefaultDeframer::new().with_validator(SizeValidator::new(0, 8));
    let err = recover(source(&wire), deframer).unwrap_err();
    assert!(matches!(err.kind(), ErrorKind::ValidationFailed { .. }));
}

#[test]
fn recovery_errors_on_configured_bound_mismatch() {
    let mut wire = Vec::new();
    frame_into(&DefaultFramer, &mut wire, b"ok");
    frame_into(&DefaultFramer, &mut wire, b"sixteen byte body");
    let deframer = DefaultDeframer::new().with_max_frame_len(8);
    let err = recover(source(&wire), deframer).unwrap_err();
    assert!(matches!(err.kind(), ErrorKind::InvalidFrame { .. }));
}

#[test]
fn recovery_errors_on_complete_oversize_header_at_eof() {
    let mut wire = Vec::new();
    frame_into(&DefaultFramer, &mut wire, b"intact prefix");
    wire.extend_from_slice(&u32::MAX.to_le_bytes());
    let err = recover(source(&wire), DefaultDeframer::new()).unwrap_err();
    assert!(matches!(err.kind(), ErrorKind::InvalidFrame { .. }));
}

#[test]
fn recovery_errors_on_wrong_checksum_configuration() {
    let mut wire = Vec::new();
    frame_into(&DefaultFramer, &mut wire, b"frame one");
    frame_into(&DefaultFramer, &mut wire, b"frame two");
    let err = recover(source(&wire), ChecksumDeframer::new(XxHash64::new())).unwrap_err();
    assert!(matches!(err.kind(), ErrorKind::ChecksumMismatch { .. }));
}

/// Delivers at most one byte per read.
struct OneByteChunks(SliceSource);

impl ByteSource for OneByteChunks {
    fn read_into(&mut self, buf: &mut Vec<u8>, start: usize, end: usize) -> Result<usize, IoError> {
        let end = if end > start { start + 1 } else { end };
        self.0.read_into(buf, start, end)
    }
}

#[test]
fn recovery_is_exact_under_one_byte_reads() {
    let mut wire = Vec::new();
    frame_into(&DefaultFramer, &mut wire, b"frame one");
    frame_into(&DefaultFramer, &mut wire, b"frame two");
    let intact = wire.len() as u64;
    wire.extend_from_slice(&[9, 0, 0, 0, b'x', b'y']);

    let direct = recover(source(&wire), DefaultDeframer::new()).unwrap();
    let chunked = recover(OneByteChunks(source(&wire)), DefaultDeframer::new()).unwrap();
    assert_eq!(direct, chunked);
    assert_eq!(direct.frames, 2);
    assert_eq!(direct.last_good_offset, intact);
    assert_eq!(direct.end, RecoveryEnd::TornTail);
}

#[test]
fn recover_scans_from_current_position_with_relative_offsets() {
    let mut wire = Vec::new();
    frame_into(&DefaultFramer, &mut wire, b"first");
    let skip = wire.len() as u64;
    frame_into(&DefaultFramer, &mut wire, b"second");
    let second_len = wire.len() as u64 - skip;

    let mut cursor = source(&wire);
    cursor.seek_to(skip).unwrap();
    let report = recover(&mut cursor, DefaultDeframer::new()).unwrap();
    assert_eq!(report.frames, 1);
    assert_eq!(report.last_good_offset, second_len);
    assert_eq!(report.end, RecoveryEnd::CleanEof);
}

#[test]
fn recover_file_is_absolute_regardless_of_initial_cursor() {
    let mut wire = Vec::new();
    frame_into(&DefaultFramer, &mut wire, b"first");
    frame_into(&DefaultFramer, &mut wire, b"second");
    let intact = wire.len() as u64;
    wire.extend_from_slice(&[42, 0, 0, 0]);

    let len = wire.len();
    let mut cursor = SliceSource::new(wire);
    cursor.set_position(len - 1);
    let report = recover_file(&mut cursor, DefaultDeframer::new()).unwrap();
    assert_eq!(report.frames, 2);
    assert_eq!(report.last_good_offset, intact);
    assert_eq!(report.end, RecoveryEnd::TornTail);
    assert_eq!(cursor.position() as u64, intact);
}

/// Yields the prefix of an intact stream, then fails with a device fault.
struct FaultingReader<'a> {
    data: &'a [u8],
    pos: usize,
    fail_at: usize,
}

impl ByteSource for FaultingReader<'_> {
    fn read_into(&mut self, buf: &mut Vec<u8>, start: usize, end: usize) -> Result<usize, IoError> {
        if self.pos >= self.fail_at {
            return Err(IoError::new(IoErrorKind::PermissionDenied, "permission denied"));
        }
        let n = (end - start).min(self.fail_at - self.pos).min(self.data.len() - self.pos);
        buf[start..start + n].copy_from_slice(&self.data[self.pos..self.pos + n]);
        self.pos += n;
        Ok(n)
    }
}

#[test]
fn recovery_propagates_device_faults() {
    let mut wire = Vec::new();
    frame_into(&DefaultFramer, &mut wire, b"frame one");
    frame_into(&DefaultFramer, &mut wire, b"frame two");
    let reader = FaultingReader { data: &wire, pos: 0, fail_at: wire.len() - 3 };
    let err = recover(reader, DefaultDeframer::new()).unwrap_err();
    match err.kind() {
        ErrorKind::Io(io) => assert_eq!(io.kind, IoErrorKind::PermissionDenied),
        other => panic!("expected Io(PermissionDenied), got {other:?}"),
    }
}

#[test]
fn recovery_then_resume_append_roundtrips_byte_exact() {
    let mut journal = Vec::new();
    frame_into(&DefaultFramer, &mut journal, b"before-1");
    frame_into(&DefaultFramer, &mut journal, b"before-2");
    journal.extend_from_slice(&[200, 0, 0, 0, 0xAB, 0xCD]);

    let mut file = SliceSource::new(journal);
    let report = recover_file(&mut file, DefaultDeframer::new()).unwrap();
    assert_eq!(report.frames, 2);
    assert_eq!(report.end, RecoveryEnd::TornTail);
    assert_eq!(file.position() as u64, report.last_good_offset);

    let mut journal = file.into_inner();
    if report.end == RecoveryEnd::TornTail {
        journal.truncate(report.last_good_offset as usize);
    }
    frame_into(&DefaultFramer, &mut journal, b"after-1");

    let mut reader = StreamReader::new(SliceSource::new(journal), DefaultDeframer::new());
    let mut got = Vec::new();
    reader
        .process_all(|payload| {
            got.push(payload.to_vec());
            Ok(())
        })
        .unwrap();
    assert_eq!(got, vec![b"before-1".to_vec(), b"before-2".to_vec(), b"after-1".to_vec()]);

    let journal = reader.into_inner().into_inner();
    let mut file = SliceSource::new(journal);
    let report = recover_file(&mut file, DefaultDeframer::new()).unwrap();
    assert_eq!(report.frames, 3);
    assert_eq!(report.end, RecoveryEnd::CleanEof);
}

#[test]
fn recovery_stops_on_a_torn_checksum_field() {
    // Header complete, checksum field cut short: still the crash signature.
    let framer = ChecksumFramer::new(Crc32::new());
    let mut wire = Vec::new();
    frame_into(&framer, &mut wire, b"kept");
    let intact = wire.len() as u64;
    wire.extend_from_slice(&[3, 0, 0, 0, 0xAA, 0xBB]);
    let report = recover(source(&wire), ChecksumDeframer::new(Crc32::new())).unwrap();
    assert_eq!(report, RecoveryReport { frames: 1, last_good_offset: intact, end: RecoveryEnd::TornTail });
}

#[test]
fn truncating_to_the_report_recovers_clean_with_the_same_counts() {
    let mut wire = Vec::new();
    for p in [&b"one"[..], b"two-two", b"three-three-three"] {
        frame_into(&DefaultFramer, &mut wire, p);
    }
    for cut in 0..=wire.len() {
        let torn = &wire[..cut];
        let report = recover(source(torn), DefaultDeframer::new()).unwrap();
        let again = recover(source(torn), DefaultDeframer::new()).unwrap();
        assert_eq!(report, again, "recovery of the same bytes is one report (cut {cut})");
        let repaired = recover(source(&torn[..report.last_good_offset as usize]), DefaultDeframer::new()).unwrap();
        assert_eq!(
            repaired,
            RecoveryReport { end: RecoveryEnd::CleanEof, ..report },
            "truncated journal recovers clean (cut {cut})"
        );
    }
}

#[test]
fn index_entries_below_the_recovery_point_resolve_after_a_crash() {
    let payloads: [&[u8]; 3] = [b"first", b"second-frame", b"third"];
    let mut wire = Vec::new();
    let mut index = Vec::new();
    for p in payloads {
        let start = wire.len() as u64;
        frame_into(&DefaultFramer, &mut wire, p);
        index.push((start, wire.len() as u64 - start));
    }
    // Crash in the middle of the third frame.
    let torn = wire[..wire.len() - 2].to_vec();
    let report = recover(source(&torn), DefaultDeframer::new()).unwrap();
    assert_eq!(report.end, RecoveryEnd::TornTail);
    assert_eq!(report.frames, 2);
    let mut repaired = SliceSource::new(torn[..report.last_good_offset as usize].to_vec());
    let mut scratch = Vec::new();
    for (i, &(start, wire_len)) in index.iter().enumerate() {
        if start + wire_len <= report.last_good_offset {
            let frame = read_frame_at(&mut repaired, &DefaultDeframer::new(), start, &mut scratch)
                .unwrap()
                .unwrap();
            assert_eq!(frame.payload, payloads[i]);
            assert_eq!(frame.receipt.wire_len, wire_len);
        } else {
            assert_eq!(i, 2, "only the torn frame lies beyond the recovery point");
        }
    }
}
