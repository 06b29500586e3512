use flatstream::{
    Checksum, ChecksumDeframer, ChecksumFramer, CountingReader, CountingWriter, Crc16, Crc32,
    DefaultDeframer, DefaultFramer, Deframer, ErrorKind, Framer, SliceSource, StreamReader, XxHash64,
};

fn frame_to_vec<F: Framer>(framer: &F, payload: &[u8]) -> Vec<u8> {
    let mut writer = CountingWriter::new(Vec::new());
    framer.frame_and_write(&mut writer, payload).unwrap();
    writer.into_inner()
}

#[test]
fn defaultframer_layout() {
    let payload = b"abc";
    let out = frame_to_vec(&DefaultFramer, payload);
    assert_eq!(out.len(), 4 + payload.len());
    let len = u32::from_le_bytes([out[0], out[1], out[2], out[3]]) as usize;
    assert_eq!(len, payload.len());
    assert_eq!(&out[4..], payload);
}

#[test]
fn checksumframer_layout_xxhash64() {
    let payload = b"abc";
    let out = frame_to_vec(&ChecksumFramer::new(XxHash64::new()), payload);
    assert_eq!(out.len(), 4 + 8 + payload.len());
    let len = u32::from_le_bytes([out[0], out[1], out[2], out[3]]) as usize;
    assert_eq!(len, payload.len());
    let cksum = u64::from_le_bytes(out[4..12].try_into().unwrap());
    assert_eq!(cksum, XxHash64::new().calculate(payload));
    assert_eq!(&out[12..], payload);
}

#[test]
fn checksumframer_layout_crc32() {
    let payload = b"abc";
    let out = frame_to_vec(&ChecksumFramer::new(Crc32::new()), payload);
    assert_eq!(out.len(), 4 + 4 + payload.len());
    let len = u32::from_le_bytes([out[0], out[1], out[2], out[3]]) as usize;
    assert_eq!(len, payload.len());
    let cksum = u32::from_le_bytes(out[4..8].try_into().unwrap());
    assert_eq!(cksum as u64, Crc32::new().calculate(payload));
    assert_eq!(&out[8..], payload);
}

#[test]
fn checksumframer_layout_crc16() {
    let payload = b"abc";
    let out = frame_to_vec(&ChecksumFramer::new(Crc16::new()), payload);
    assert_eq!(out.len(), 4 + 2 + payload.len());
    let len = u32::from_le_bytes([out[0], out[1], out[2], out[3]]) as usize;
    assert_eq!(len, payload.len());
    let cksum = u16::from_le_bytes(out[4..6].try_into().unwrap());
    assert_eq!(cksum as u64, Crc16::new().calculate(payload));
    assert_eq!(&out[6..], payload);
}

/// A 3-byte checksum: a byte sum, deliberately wider than 3 bytes before
/// truncation to exercise the width-masked verification.
#[derive(Clone, Copy, Default)]
struct Sum24;

impl Checksum for Sum24 {
    const SIZE: usize = 3;
    fn calculate(&self, payload: &[u8]) -> u64 {
        payload.iter().map(|&b| b as u64).sum::<u64>() | 0xFF00_0000_0000_0000
    }
}

#[test]
fn nonstandard_checksum_width_is_byte_exact() {
    let payload = b"nonstandard width";
    let out = frame_to_vec(&ChecksumFramer::new(Sum24), payload);

    assert_eq!(out.len(), 4 + 3 + payload.len());
    let len = u32::from_le_bytes(out[..4].try_into().unwrap()) as usize;
    assert_eq!(len, payload.len());
    let wire_sum = u32::from_le_bytes([out[4], out[5], out[6], 0]) as u64;
    assert_eq!(wire_sum, payload.iter().map(|&b| b as u64).sum::<u64>() & 0x00FF_FFFF);
    assert_eq!(&out[7..], payload);

    let deframer = ChecksumDeframer::new(Sum24);
    let mut buf = Vec::new();
    let n = deframer
        .read_and_deframe(&mut CountingReader::new(SliceSource::new(out.clone())), &mut buf)
        .unwrap()
        .unwrap();
    assert_eq!(&buf[..n], payload);

    let mut corrupt = out.clone();
    corrupt[7] ^= 0x01;
    let mut buf = Vec::new();
    let err = deframer
        .read_and_deframe(&mut CountingReader::new(SliceSource::new(corrupt)), &mut buf)
        .unwrap_err();
    assert!(matches!(err.kind(), ErrorKind::ChecksumMismatch { .. }));
}

/// The canonical corpus payloads: empty, small, and a FlatBuffer vector of
/// 1024 zero bytes.
fn payloads() -> Vec<(&'static str, Vec<u8>)> {
    let mut builder = flatbuffers::FlatBufferBuilder::with_capacity(1024);
    builder.reset();
    let data = builder.create_vector(&vec![0u8; 1024]);
    builder.finish(data, None);
    vec![("empty", Vec::new()), ("small", b"abc".to_vec()), ("medium", builder.finished_data().to_vec())]
}

fn assert_roundtrip<F: Framer, D: Deframer>(framer: &F, make_deframer: impl Fn() -> D, width: usize) {
    for (label, payload) in payloads() {
        let bytes = frame_to_vec(framer, &payload);
        assert_eq!(bytes.len(), 4 + width + payload.len(), "layout for {label}");
        assert_eq!(&bytes[..4], &(payload.len() as u32).to_le_bytes(), "length for {label}");
        assert_eq!(&bytes[4 + width..], &payload[..], "payload for {label}");
        let mut reader = StreamReader::new(SliceSource::new(bytes), make_deframer());
        let got = reader.read_message().unwrap().expect("one frame");
        assert_eq!(got, &payload[..], "payload drift for {label}");
        assert!(reader.read_message().unwrap().is_none());
    }
}

#[test]
fn corpus_default_golden() {
    assert_roundtrip(&DefaultFramer, DefaultDeframer::new, 0);
    // The empty payload is exactly four zero bytes on the wire.
    assert_eq!(frame_to_vec(&DefaultFramer, b""), vec![0, 0, 0, 0]);
    assert_eq!(frame_to_vec(&DefaultFramer, b"abc"), vec![3, 0, 0, 0, b'a', b'b', b'c']);
}

/// Reading a checksummed stream with the plain deframer yields a frame of the
/// declared length whose bytes are wrong: silent mis-framing, not an error.
fn assert_cross_strategy_misframe<F: Framer>(framer: &F) {
    let (_, payload) = payloads().pop().expect("medium is last");
    let bytes = frame_to_vec(framer, &payload);
    let mut r = StreamReader::new(SliceSource::new(bytes), DefaultDeframer::new());
    let got = r.read_message().unwrap().expect("mis-framed but parseable");
    assert_eq!(got.len(), payload.len(), "length field is honored");
    assert_ne!(got, &payload[..], "bytes are silently wrong");
}

#[test]
fn corpus_xxhash64_golden() {
    assert_roundtrip(&ChecksumFramer::new(XxHash64::new()), || ChecksumDeframer::new(XxHash64::new()), 8);
    assert_eq!(
        frame_to_vec(&ChecksumFramer::new(XxHash64::new()), b""),
        vec![0, 0, 0, 0, 0xC2, 0x94, 0xD3, 0x38, 0x05, 0x80, 0x06, 0x2D]
    );
    assert_cross_strategy_misframe(&ChecksumFramer::new(XxHash64::new()));
}

#[test]
fn corpus_crc32_golden() {
    assert_roundtrip(&ChecksumFramer::new(Crc32::new()), || ChecksumDeframer::new(Crc32::new()), 4);
    assert_eq!(
        frame_to_vec(&ChecksumFramer::new(Crc32::new()), b"123456789"),
        vec![9, 0, 0, 0, 0x26, 0x39, 0xF4, 0xCB, b'1', b'2', b'3', b'4', b'5', b'6', b'7', b'8', b'9']
    );
    assert_cross_strategy_misframe(&ChecksumFramer::new(Crc32::new()));
}

#[test]
fn corpus_crc16_golden() {
    assert_roundtrip(&ChecksumFramer::new(Crc16::new()), || ChecksumDeframer::new(Crc16::new()), 2);
    assert_eq!(
        frame_to_vec(&ChecksumFramer::new(Crc16::new()), b"123456789"),
        vec![9, 0, 0, 0, 0xC3, 0x31, b'1', b'2', b'3', b'4', b'5', b'6', b'7', b'8', b'9']
    );
    assert_cross_strategy_misframe(&ChecksumFramer::new(Crc16::new()));
}
