//! Framing of FlatBuffers payloads into byte streams: a 4-byte little-endian
//! length prefix, an optional checksum field, then the payload. Writers and
//! readers with exact byte receipts, validation, memory reclamation and
//! durability policies, and crash recovery of append-only journals.
pub mod checksum;
pub mod durability;
pub mod error;
pub mod framing;
pub mod io;
pub mod policy;
pub mod reader;
pub mod render;
pub mod recover;
pub mod validation;
pub mod wire;
pub mod writer;

pub use checksum::{Checksum, Crc16, Crc32, NoChecksum, XxHash64};
pub use durability::{
    combine_requests, AnySync, NoSync, SyncEveryBytes, SyncEveryFrame, SyncEveryInterval,
    SyncEveryNFrames, SyncInfo, SyncMode, SyncPolicy, SyncPolicyBackend, SyncPolicyExt, Syncing,
};
pub use error::{Error, ErrorKind, IoError, IoErrorKind};
pub use framing::{
    BoundedFramer, ChecksumDeframer, ChecksumFramer, DefaultDeframer, DefaultFramer, Deframer,
    DeframerExt, Framer, FramerExt, ObserverDeframer, ObserverFramer, RetrySafeDeframer,
    ValidatingDeframer, ValidatingFramer, DEFAULT_MAX_FRAME_LEN,
};
pub use io::{ByteSink, ByteSource, CountingReader, CountingWriter, Durable, SeekSource, SliceSource};
pub use policy::{
    AdaptiveWatermarkPolicy, Clock, MemoryPolicy, MonotonicClock, NoMemoryPolicy, NoOpPolicy,
    ReclamationInfo, ReclamationReason, SizeThresholdPolicy,
};
pub use reader::{read_frame_at, Messages, ReadFrame, ReaderMemoryBackend, ReaderMemoryPolicy, StreamReader};
pub use recover::{recover, recover_file, RecoveryEnd, RecoveryReport};
pub use validation::{CompositeValidator, NoValidator, SizeValidator, StructuralValidator, Validator};
pub use writer::{
    DefaultBuilderFactory, FrameReceipt, NoPostWriteObserver, PostWriteEvent, PostWriteObserver,
    PostWriteOutcome, StreamWriter, WriterMemoryBackend, WriterMemoryPolicy,
};
