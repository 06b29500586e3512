use flatbuffers::FlatBufferBuilder;
use flatstream::{
    read_frame_at, ByteSource, ChecksumDeframer, ChecksumFramer, Crc32, DefaultDeframer, DefaultFramer,
    ErrorKind, FrameReceipt, IoError, SeekSource, SliceSource, StreamReader, StreamWriter,
};

fn finish(builder: &mut FlatBufferBuilder, value: &str) -> Vec<u8> {
    builder.reset();
    let value = builder.create_string(value);
    builder.finish(value, None);
    builder.finished_data().to_vec()
}

fn default_stream(values: &[&str]) -> (Vec<u8>, Vec<Vec<u8>>, Vec<FrameReceipt>) {
    let mut payloads = Vec::new();
    let mut receipts = Vec::new();
    let mut writer = StreamWriter::new(Vec::new(), DefaultFramer);
    let mut builder = FlatBufferBuilder::new();
    for value in values {
        let payload = finish(&mut builder, value);
        receipts.push(writer.write_finished_with_receipt(&payload).unwrap());
        payloads.push(payload);
    }
    (writer.into_inner(), payloads, receipts)
}

#[test]
fn forward_receipts_tile_the_stream_from_a_start_offset() {
    let (wire, expected, recorded) = default_stream(&["first", "second", "third"]);
    let base = 10_000;
    let mut reader = StreamReader::new(SliceSource::new(wire.clone()), DefaultDeframer::new())
        .with_start_offset(base)
        .unwrap();

    let mut seen = Vec::new();
    reader
        .process_all_with_receipt(|frame| {
            seen.push((frame.payload.to_vec(), frame.receipt));
            Ok(())
        })
        .unwrap();

    assert_eq!(seen.len(), expected.len());
    for i in 0..seen.len() {
        assert_eq!(seen[i].0, expected[i]);
        assert_eq!(seen[i].1.frame_start, base + recorded[i].frame_start);
        assert_eq!(seen[i].1.wire_len, recorded[i].wire_len);
        if i > 0 {
            assert_eq!(seen[i - 1].1.end(), seen[i].1.frame_start);
        }
    }
    assert_eq!(reader.bytes_consumed(), base + wire.len() as u64);
}

#[test]
fn read_frame_at_reuses_scratch_and_returns_exact_bounds() {
    let (wire, expected, receipts) = default_stream(&["zero", "one", "two", "three"]);
    let len = wire.len();
    let mut source = SliceSource::new(wire);
    let mut scratch = Vec::new();

    let last = read_frame_at(&mut source, &DefaultDeframer::new(), receipts[3].frame_start, &mut scratch)
        .unwrap()
        .unwrap();
    assert_eq!(last.payload, expected[3]);
    assert_eq!(last.receipt, receipts[3]);
    let capacity = scratch.capacity();

    for i in [1usize, 0, 2] {
        let frame = read_frame_at(&mut source, &DefaultDeframer::new(), receipts[i].frame_start, &mut scratch)
            .unwrap()
            .unwrap();
        assert_eq!(frame.payload, expected[i]);
        assert_eq!(frame.receipt, receipts[i]);
        assert_eq!(source.position() as u64, receipts[i].end());
        assert_eq!(scratch.capacity(), capacity);
    }

    assert!(read_frame_at(&mut source, &DefaultDeframer::new(), len as u64, &mut scratch)
        .unwrap()
        .is_none());
}

/// Counts the repositionings of the source beneath it.
struct SeekCountingCursor {
    inner: SliceSource,
    seeks: usize,
}

impl ByteSource for SeekCountingCursor {
    fn read_into(&mut self, buf: &mut Vec<u8>, start: usize, end: usize) -> Result<usize, IoError> {
        self.inner.read_into(buf, start, end)
    }
}

impl SeekSource for SeekCountingCursor {
    fn seek_to(&mut self, offset: u64) -> Result<(), IoError> {
        self.seeks += 1;
        self.inner.seek_to(offset)
    }
}

#[test]
fn read_frame_at_seeks_once_and_counts_frame_reads() {
    let (wire, expected, receipts) = default_stream(&["zero", "target", "two"]);
    let mut source = SeekCountingCursor { inner: SliceSource::new(wire), seeks: 0 };
    let mut scratch = Vec::new();

    let frame = read_frame_at(&mut source, &DefaultDeframer::new(), receipts[1].frame_start, &mut scratch)
        .unwrap()
        .unwrap();

    assert_eq!(frame.payload, expected[1]);
    assert_eq!(frame.receipt, receipts[1]);
    assert_eq!(source.seeks, 1, "point lookup seeks to the frame once; receipt length comes from read accounting");
    assert_eq!(source.inner.position() as u64, receipts[1].end());
}

#[test]
fn an_incomplete_live_file_can_be_retried_from_the_same_offset() {
    let (complete, expected, receipts) = default_stream(&["eventually complete"]);
    let split = complete.len() - 3;
    let mut source = SliceSource::new(complete[..split].to_vec());
    let mut scratch = Vec::new();

    let error = read_frame_at(&mut source, &DefaultDeframer::new(), receipts[0].frame_start, &mut scratch)
        .unwrap_err();
    assert!(matches!(error.kind(), ErrorKind::UnexpectedEof));

    let mut grown = source.into_inner();
    grown.extend_from_slice(&complete[split..]);
    let mut source = SliceSource::new(grown);
    let frame = read_frame_at(&mut source, &DefaultDeframer::new(), receipts[0].frame_start, &mut scratch)
        .unwrap()
        .unwrap();
    assert_eq!(frame.payload, expected[0]);
    assert_eq!(frame.receipt, receipts[0]);
}

#[test]
fn checksum_point_lookup_includes_the_checksum_width() {
    let mut builder = FlatBufferBuilder::new();
    let expected = finish(&mut builder, "checked");
    let mut writer = StreamWriter::new(Vec::new(), ChecksumFramer::new(Crc32::new()));
    let receipt = writer.write_finished_with_receipt(&expected).unwrap();
    let wire = writer.into_inner();
    assert_eq!(receipt.wire_len, 4 + 4 + expected.len() as u64);

    let mut source = SliceSource::new(wire);
    let mut scratch = Vec::new();
    let frame = read_frame_at(&mut source, &ChecksumDeframer::new(Crc32::new()), receipt.frame_start, &mut scratch)
        .unwrap()
        .unwrap();
    assert_eq!(frame.payload, expected);
    assert_eq!(frame.receipt, receipt);
}

/// Delivers at most one byte per read.
struct OneByte<R>(R);

impl<R: ByteSource> ByteSource for OneByte<R> {
    fn read_into(&mut self, buf: &mut Vec<u8>, start: usize, end: usize) -> Result<usize, IoError> {
        let stop = if end > start { start + 1 } else { start };
        self.0.read_into(buf, start, stop)
    }
}

impl<R: SeekSource> SeekSource for OneByte<R> {
    fn seek_to(&mut self, offset: u64) -> Result<(), IoError> {
        self.0.seek_to(offset)
    }
}

#[test]
fn forward_position_is_exact_under_one_byte_reads() {
    let (wire, expected, receipts) = default_stream(&["short reads"]);
    let len = wire.len();
    let mut reader = StreamReader::new(OneByte(SliceSource::new(wire)), DefaultDeframer::new());
    let frame = reader.read_message_with_receipt().unwrap().unwrap();
    assert_eq!(frame.payload, expected[0]);
    assert_eq!(frame.receipt, receipts[0]);
    assert_eq!(reader.bytes_consumed(), len as u64);
}

#[test]
fn point_read_receipt_is_exact_under_one_byte_reads() {
    let (wire, expected, receipts) = default_stream(&["zero", "one-byte target", "two"]);
    let mut source = OneByte(SliceSource::new(wire));
    let mut scratch = Vec::new();

    let frame = read_frame_at(&mut source, &DefaultDeframer::new(), receipts[1].frame_start, &mut scratch)
        .unwrap()
        .unwrap();

    assert_eq!(frame.payload, expected[1]);
    assert_eq!(frame.receipt, receipts[1]);
}
