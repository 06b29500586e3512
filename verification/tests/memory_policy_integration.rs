use flatbuffers::FlatBufferBuilder;
use flatstream::{
    AdaptiveWatermarkPolicy, ByteSink, DefaultDeframer, DefaultFramer, Error, FrameReceipt, Framer,
    MemoryPolicy, NoOpPolicy, PostWriteObserver, ReclamationInfo, ReclamationReason, SliceSource,
    StreamReader, StreamWriter, SyncPolicyBackend, WriterMemoryBackend,
};
use std::sync::atomic::{AtomicUsize, Ordering};
use std::sync::Arc;

/// Delegates decisions to `inner` and reports each reclamation to `callback`.
struct ObservingPolicy<P> {
    inner: P,
    callback: Box<dyn Fn(&ReclamationInfo) + Send + Sync>,
}

impl<P: MemoryPolicy> MemoryPolicy for ObservingPolicy<P> {
    fn should_reset(&mut self, last_message_size: usize, current_capacity: usize) -> Option<ReclamationReason> {
        self.inner.should_reset(last_message_size, current_capacity)
    }

    fn on_reclaim(&mut self, info: &ReclamationInfo) {
        (self.callback)(info);
        self.inner.on_reclaim(info);
    }

    fn baseline_capacity(&self) -> usize {
        self.inner.baseline_capacity()
    }
}

/// Serializes `data` as a byte-vector root into `builder`.
fn serialize(builder: &mut FlatBufferBuilder<'static>, data: &[u8]) {
    builder.reset();
    let off = builder.create_vector(data);
    builder.finish(off, None);
}

/// The exact payload of `data` serialized standalone.
fn payload_of(data: &[u8]) -> Vec<u8> {
    let mut b = FlatBufferBuilder::new();
    serialize(&mut b, data);
    b.finished_data().to_vec()
}

/// Writes `data` through the writer's own builder; a rebuild the memory
/// policy asks for goes through `factory`.
fn write_owned<W, F, S, M, O>(
    writer: &mut StreamWriter<W, F, S, M, O>,
    builder: &mut FlatBufferBuilder<'static>,
    data: &[u8],
    factory: &mut dyn FnMut(usize) -> FlatBufferBuilder<'static>,
) -> Result<FrameReceipt, Error>
where
    W: ByteSink,
    F: Framer,
    S: SyncPolicyBackend<W>,
    M: WriterMemoryBackend,
    O: PostWriteObserver,
{
    let started = StreamWriter::<W, F, S, M, O>::observation_start();
    writer.reject_if_poisoned(started, None)?;
    serialize(builder, data);
    let capacity = builder.mut_finished_buffer().0.len();
    let (result, rebuild) = writer.write_serialized_with_receipt(started, Ok(builder.finished_data()), capacity);
    if let Some(capacity) = rebuild {
        *builder = factory(capacity);
    }
    result
}

fn default_factory(capacity: usize) -> FlatBufferBuilder<'static> {
    FlatBufferBuilder::with_capacity(capacity)
}

#[test]
fn test_adaptive_policy_resets_builder() {
    let reset_count = Arc::new(AtomicUsize::new(0));
    let last_capacity = Arc::new(AtomicUsize::new(0));
    let r_count = reset_count.clone();
    let r_cap = last_capacity.clone();

    let policy = ObservingPolicy {
        inner: AdaptiveWatermarkPolicy::new(2, 3).with_baseline(1024),
        callback: Box::new(move |info| {
            r_count.fetch_add(1, Ordering::Relaxed);
            r_cap.store(info.capacity_before, Ordering::Relaxed);
        }),
    };

    let mut writer = StreamWriter::new(Vec::new(), DefaultFramer).with_memory_policy(policy);
    let mut builder = FlatBufferBuilder::new();
    let mut factory = default_factory;

    write_owned(&mut writer, &mut builder, &vec![1u8; 10 * 1024], &mut factory).unwrap();
    assert_eq!(reset_count.load(Ordering::Relaxed), 0);

    let small_data = vec![2u8; 100];
    write_owned(&mut writer, &mut builder, &small_data, &mut factory).unwrap();
    assert_eq!(reset_count.load(Ordering::Relaxed), 0);
    write_owned(&mut writer, &mut builder, &small_data, &mut factory).unwrap();
    assert_eq!(reset_count.load(Ordering::Relaxed), 0);
    write_owned(&mut writer, &mut builder, &small_data, &mut factory).unwrap();
    assert_eq!(reset_count.load(Ordering::Relaxed), 1);

    let cap_before = last_capacity.load(Ordering::Relaxed);
    assert!(cap_before >= 10 * 1024);

    let mut reader = StreamReader::new(SliceSource::new(writer.into_inner()), DefaultDeframer::new());
    let mut messages = reader.messages();
    let m1 = messages.next().unwrap().unwrap();
    assert!(m1.len() >= 10 * 1024);
    for _ in 0..3 {
        let m = messages.next().unwrap().unwrap();
        assert!(m.len() >= 100);
    }
}

#[test]
fn test_reader_policy_reclaims_buffer_without_corrupting_stream() {
    let items: Vec<Vec<u8>> = std::iter::once(vec![1u8; 10 * 1024])
        .chain((0..6).map(|i| vec![10 + i as u8; 100]))
        .collect();
    let expected: Vec<Vec<u8>> = items.iter().map(|d| payload_of(d)).collect();

    let mut writer = StreamWriter::new(Vec::new(), DefaultFramer);
    let mut builder = FlatBufferBuilder::new();
    let mut factory = default_factory;
    for item in &items {
        write_owned(&mut writer, &mut builder, item, &mut factory).unwrap();
    }
    let buffer = writer.into_inner();

    let reset_count = Arc::new(AtomicUsize::new(0));
    let last_info = Arc::new(AtomicUsize::new(0));
    let r_count = reset_count.clone();
    let r_before = last_info.clone();
    let policy = ObservingPolicy {
        inner: AdaptiveWatermarkPolicy::new(2, 3).with_baseline(1024),
        callback: Box::new(move |info| {
            r_count.fetch_add(1, Ordering::Relaxed);
            r_before.store(info.capacity_before, Ordering::Relaxed);
        }),
    };

    let mut reader = StreamReader::new(SliceSource::new(buffer), DefaultDeframer::new()).with_memory_policy(policy);

    let mut seen = Vec::new();
    let mut messages = reader.messages();
    while let Some(payload) = messages.next().unwrap() {
        seen.push(payload.to_vec());
    }

    assert_eq!(seen, expected);
    assert_eq!(reset_count.load(Ordering::Relaxed), 1);
    assert!(last_info.load(Ordering::Relaxed) >= 10 * 1024);
    assert!(reader.buffer_capacity() < 10 * 1024);
    assert!(reader.buffer_capacity() >= 100);
}

#[test]
fn test_writer_policy_with_custom_builder_factory() {
    let factory_calls = Arc::new(AtomicUsize::new(0));
    let f_calls = factory_calls.clone();
    let mut factory = move |cap: usize| {
        f_calls.fetch_add(1, Ordering::Relaxed);
        FlatBufferBuilder::with_capacity(cap)
    };

    let mut writer = StreamWriter::new(Vec::new(), DefaultFramer)
        .with_memory_policy(AdaptiveWatermarkPolicy::new(2, 3).with_baseline(1024));
    let mut builder = FlatBufferBuilder::new();
    write_owned(&mut writer, &mut builder, &vec![1u8; 10 * 1024], &mut factory).unwrap();
    for _ in 0..3 {
        write_owned(&mut writer, &mut builder, &vec![2u8; 100], &mut factory).unwrap();
    }

    assert_eq!(factory_calls.load(Ordering::Relaxed), 1);

    let mut reader = StreamReader::new(SliceSource::new(writer.into_inner()), DefaultDeframer::new());
    let mut count = 0;
    reader
        .process_all(|payload| {
            assert!(!payload.is_empty());
            count += 1;
            Ok(())
        })
        .unwrap();
    assert_eq!(count, 4);
}

#[test]
fn test_reader_with_policy_is_send() {
    fn assert_send<T: Send>(_: &T) {}
    let reader = StreamReader::new(SliceSource::new(Vec::new()), DefaultDeframer::new())
        .with_memory_policy(AdaptiveWatermarkPolicy::default());
    assert_send(&reader);
}

#[test]
fn test_write_finished_ignores_installed_policy() {
    struct EagerCountingPolicy {
        consults: Arc<AtomicUsize>,
        reclaims: Arc<AtomicUsize>,
    }
    impl MemoryPolicy for EagerCountingPolicy {
        fn should_reset(&mut self, _: usize, _: usize) -> Option<ReclamationReason> {
            self.consults.fetch_add(1, Ordering::Relaxed);
            Some(ReclamationReason::MessageCount)
        }

        fn on_reclaim(&mut self, _: &ReclamationInfo) {
            self.reclaims.fetch_add(1, Ordering::Relaxed);
        }

        fn baseline_capacity(&self) -> usize {
            1
        }
    }

    let consults = Arc::new(AtomicUsize::new(0));
    let reclaims = Arc::new(AtomicUsize::new(0));
    let policy = EagerCountingPolicy { consults: consults.clone(), reclaims: reclaims.clone() };

    let mut writer = StreamWriter::new(Vec::new(), DefaultFramer).with_memory_policy(policy);
    let mut b = FlatBufferBuilder::new();
    for i in 0..5 {
        serialize(&mut b, &vec![i as u8; 10 * 1024]);
        writer.write_finished(b.finished_data()).unwrap();
    }

    assert_eq!(consults.load(Ordering::Relaxed), 0, "write_finished must never consult the policy");
    assert_eq!(reclaims.load(Ordering::Relaxed), 0);

    let mut reader = StreamReader::new(SliceSource::new(writer.into_inner()), DefaultDeframer::new());
    let mut count = 0;
    reader
        .process_all(|p| {
            assert!(p.len() >= 10 * 1024);
            count += 1;
            Ok(())
        })
        .unwrap();
    assert_eq!(count, 5);
}

#[test]
fn test_noop_policy_never_resets() {
    let reset_count = Arc::new(AtomicUsize::new(0));
    let r_count = reset_count.clone();
    let policy = ObservingPolicy {
        inner: NoOpPolicy,
        callback: Box::new(move |_| {
            r_count.fetch_add(1, Ordering::Relaxed);
        }),
    };

    let mut writer = StreamWriter::new(Vec::new(), DefaultFramer).with_memory_policy(policy);
    let mut builder = FlatBufferBuilder::new();
    let mut factory = default_factory;
    write_owned(&mut writer, &mut builder, &vec![0u8; 1024], &mut factory).unwrap();
    for _ in 0..10 {
        write_owned(&mut writer, &mut builder, &vec![0u8; 10], &mut factory).unwrap();
    }

    assert_eq!(reset_count.load(Ordering::Relaxed), 0);
}
