use flatbuffers::FlatBufferBuilder;
use flatstream::{
    ByteSink, ByteSource, CountingWriter, DefaultDeframer, DefaultFramer, ErrorKind, Framer, IoError,
    IoErrorKind, SliceSource, StreamReader, StreamWriter,
};

/// Accepts `fail_after` bytes, then fails every write with a broken pipe.
struct FailingWriter {
    written: usize,
    fail_after: usize,
}

impl ByteSink for FailingWriter {
    fn write(&mut self, buf: &[u8]) -> Result<usize, IoError> {
        if self.written >= self.fail_after {
            return Err(IoError::new(IoErrorKind::BrokenPipe, "Simulated I/O error"));
        }
        let remaining = self.fail_after - self.written;
        let n = remaining.min(buf.len());
        self.written += n;
        Ok(n)
    }

    fn flush(&mut self) -> Result<(), IoError> {
        Ok(())
    }
}

/// How a [`FaultyReader`] misbehaves.
enum FaultMode {
    OneByteChunks,
    PrematureEofAt(usize),
}

/// Wraps a source and delivers its bytes one at a time, or reports the end
/// of the input from the `n`-th read call on.
struct FaultyReader<R: ByteSource> {
    inner: R,
    mode: FaultMode,
    counter: usize,
}

impl<R: ByteSource> FaultyReader<R> {
    fn new(inner: R, mode: FaultMode) -> Self {
        FaultyReader { inner, mode, counter: 0 }
    }
}

impl<R: ByteSource> ByteSource for FaultyReader<R> {
    fn read_into(&mut self, buf: &mut Vec<u8>, start: usize, end: usize) -> Result<usize, IoError> {
        self.counter += 1;
        match self.mode {
            FaultMode::OneByteChunks => {
                let stop = if end > start { start + 1 } else { start };
                self.inner.read_into(buf, start, stop)
            }
            FaultMode::PrematureEofAt(n) if self.counter >= n => Ok(0),
            _ => self.inner.read_into(buf, start, end),
        }
    }
}

fn framed(payload: &[u8]) -> Vec<u8> {
    let mut out = CountingWriter::new(Vec::new());
    DefaultFramer.frame_and_write(&mut out, payload).unwrap();
    out.into_inner()
}

#[test]
fn write_io_error_propagates_with_kind() {
    let failing_writer = FailingWriter { written: 0, fail_after: 10 };
    let mut writer = StreamWriter::new(failing_writer, DefaultFramer);
    let mut b = FlatBufferBuilder::new();
    let s = b.create_string("This message will fail to write completely");
    b.finish(s, None);
    match writer.write_finished(b.finished_data()).unwrap_err().into_kind() {
        ErrorKind::Io(e) => assert_eq!(e.kind, IoErrorKind::BrokenPipe),
        other => panic!("wrong error type: {other:?}"),
    }
}

#[test]
fn short_reads_are_handled() {
    let faulty = FaultyReader::new(SliceSource::new(framed(b"hello")), FaultMode::OneByteChunks);
    let mut reader = StreamReader::new(faulty, DefaultDeframer::new());

    let mut count = 0usize;
    reader
        .process_all(|p| {
            assert_eq!(p, b"hello");
            count += 1;
            Ok(())
        })
        .unwrap();
    assert_eq!(count, 1);
}

#[test]
fn premature_eof_yields_unexpected_eof() {
    let faulty = FaultyReader::new(SliceSource::new(framed(b"abcdef")), FaultMode::PrematureEofAt(2));
    let mut reader = StreamReader::new(faulty, DefaultDeframer::new());

    let err = reader.read_message().unwrap_err();
    assert!(matches!(err.kind(), ErrorKind::UnexpectedEof));
}
