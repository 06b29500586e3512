use flatbuffers::FlatBufferBuilder;
use flatstream::{
    ByteSink, ChecksumDeframer, ChecksumFramer, DefaultDeframer, DefaultFramer, Error, ErrorKind,
    FrameReceipt, Framer, IoError, IoErrorKind, PostWriteObserver, SliceSource, StreamReader,
    StreamWriter, SyncPolicyBackend, WriterMemoryBackend, XxHash64,
};

/// Writes `s` as a string root through the writer's own-builder path.
fn write_str<W, F, S, M, O>(
    writer: &mut StreamWriter<W, F, S, M, O>,
    builder: &mut FlatBufferBuilder<'static>,
    s: &str,
) -> Result<FrameReceipt, Error>
where
    W: ByteSink,
    F: Framer,
    S: SyncPolicyBackend<W>,
    M: WriterMemoryBackend,
    O: PostWriteObserver,
{
    let started = StreamWriter::<W, F, S, M, O>::observation_start();
    writer.reject_if_poisoned(started, None)?;
    builder.reset();
    let data = builder.create_string(s);
    builder.finish(data, None);
    let capacity = builder.mut_finished_buffer().0.len();
    let (result, rebuild) = writer.write_serialized_with_receipt(started, Ok(builder.finished_data()), capacity);
    if let Some(capacity) = rebuild {
        *builder = FlatBufferBuilder::with_capacity(capacity);
    }
    result
}

/// Accepts `fail_after` bytes, then fails every write with a broken pipe.
struct FailingWriter {
    written: usize,
    fail_after: usize,
}

impl ByteSink for FailingWriter {
    fn write(&mut self, buf: &[u8]) -> Result<usize, IoError> {
        if self.written >= self.fail_after {
            return Err(IoError::new(IoErrorKind::BrokenPipe, "Simulated I/O error"));
        }
        let remaining = self.fail_after - self.written;
        let n = remaining.min(buf.len());
        self.written += n;
        Ok(n)
    }

    fn flush(&mut self) -> Result<(), IoError> {
        Ok(())
    }
}

#[test]
fn io_error_propagates() {
    let failing_writer = FailingWriter { written: 0, fail_after: 10 };
    let mut writer = StreamWriter::new(failing_writer, DefaultFramer);
    let mut builder = FlatBufferBuilder::new();
    match write_str(&mut writer, &mut builder, "This message will fail to write completely") {
        Ok(_) => panic!("expected I/O error"),
        Err(e) => match e.into_kind() {
            ErrorKind::Io(e) => assert_eq!(e.kind, IoErrorKind::BrokenPipe),
            other => panic!("wrong error type: {other:?}"),
        },
    }
}

#[test]
fn invalid_frame_detected_or_eof() {
    let mut buffer = Vec::new();
    let huge_length: u32 = 100_000_000;
    buffer.extend_from_slice(&huge_length.to_le_bytes());
    buffer.extend_from_slice(b"some data");
    let mut reader = StreamReader::new(SliceSource::new(buffer), DefaultDeframer::new());
    match reader.read_message() {
        Ok(_) => panic!("expected error"),
        Err(e) => match e.kind() {
            ErrorKind::InvalidFrame { .. } | ErrorKind::UnexpectedEof => {}
            other => panic!("wrong error type: {other:?}"),
        },
    }
}

#[test]
fn unexpected_eof_detected() {
    let mut buffer = Vec::new();
    let length: u32 = 100;
    buffer.extend_from_slice(&length.to_le_bytes());
    let mut reader = StreamReader::new(SliceSource::new(buffer), DefaultDeframer::new());
    match reader.read_message() {
        Ok(_) => panic!("expected UnexpectedEof"),
        Err(e) => assert!(matches!(e.kind(), ErrorKind::UnexpectedEof), "wrong error type: {e:?}"),
    }
}

#[test]
fn clean_eof_ok() {
    let buffer = {
        let mut writer = StreamWriter::new(Vec::new(), DefaultFramer);
        let mut builder = FlatBufferBuilder::new();
        write_str(&mut writer, &mut builder, "m1").unwrap();
        write_str(&mut writer, &mut builder, "m2").unwrap();
        writer.into_inner()
    };
    let mut reader = StreamReader::new(SliceSource::new(buffer.clone()), DefaultDeframer::new());
    let mut count = 0;
    loop {
        match reader.read_message() {
            Ok(Some(_)) => count += 1,
            Ok(None) => break,
            Err(e) => panic!("unexpected error: {e:?}"),
        }
    }
    assert_eq!(count, 2);

    let mut reader2 = StreamReader::new(SliceSource::new(buffer), DefaultDeframer::new());
    let mut count2 = 0;
    reader2
        .process_all(|_| {
            count2 += 1;
            Ok(())
        })
        .unwrap();
    assert_eq!(count2, 2);
}

#[test]
fn checksum_mismatch_detected() {
    let mut buffer = {
        let mut writer = StreamWriter::new(Vec::new(), ChecksumFramer::new(XxHash64::new()));
        let mut builder = FlatBufferBuilder::new();
        write_str(&mut writer, &mut builder, "valid").unwrap();
        writer.into_inner()
    };
    if buffer.len() >= 6 {
        buffer[5] ^= 0xFF;
    }
    let deframer = ChecksumDeframer::new(XxHash64::new());
    let mut reader = StreamReader::new(SliceSource::new(buffer), deframer);
    match reader.read_message() {
        Ok(_) => panic!("expected checksum mismatch"),
        Err(e) => assert!(matches!(e.kind(), ErrorKind::ChecksumMismatch { .. }), "wrong error type: {e:?}"),
    }
}

#[test]
fn error_is_pointer_sized() {
    assert_eq!(std::mem::size_of::<Error>(), std::mem::size_of::<usize>());
    assert_eq!(std::mem::size_of::<Result<(), Error>>(), std::mem::size_of::<usize>());
}
