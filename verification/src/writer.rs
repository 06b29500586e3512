//! The stream writer and the receipts it hands out.
//!
//! A [`StreamWriter`] frames finished payloads onto a byte sink through a
//! [`Framer`], counting the bytes the sink accepts so that every frame comes
//! with an exact [`FrameReceipt`]. A frame that fails after the sink accepted
//! part of it leaves a torn tail: the writer then becomes poisoned
//! (fail-stop) and rejects every later write and checkpoint. An optional
//! [`SyncPolicy`](crate::durability::SyncPolicy) runs durability checkpoints
//! after accepted frames; an optional post-write observer sees one event per
//! operation; an optional memory policy decides when the caller's reusable
//! message builder should be rebuilt at its baseline capacity.
use vstd::prelude::*;

use std::time::{Duration, Instant};

use crate::durability::{spec_durability_error, spec_syncs_step, NoSync, SyncMode, SyncPolicy, SyncPolicyBackend, Syncing};
use crate::error::Error;
use crate::checksum::Checksum;
use crate::framing::{spec_checksum_frames, spec_default_stream, spec_frame, ChecksumFramer, DefaultFramer, Framer};
use crate::io::{ByteSink, CountingWriter, Durable};
use crate::policy::{instant_elapsed, instant_now, MemoryPolicy, NoMemoryPolicy, ReclamationInfo, ReclamationReason};

verus! {

/// The byte position and on-wire size of one frame: `frame_start` is the
/// offset of its first byte, `wire_len` the bytes it occupies (length prefix,
/// optional checksum and payload). The next frame begins at
/// `frame_start + wire_len`.
#[derive(Debug, Clone, Copy, PartialEq, Eq, Hash, PartialOrd, Ord, Structural)]
pub struct FrameReceipt {
    /// Offset of the frame's first byte.
    pub frame_start: u64,
    /// Total bytes the frame occupies on the wire.
    pub wire_len: u64,
}

impl FrameReceipt {
    /// The exact end offset, when representable.
    pub fn checked_end(&self) -> (r: Option<u64>)
        ensures
            r == self.checked_end_spec(),
    {
        self.frame_start.checked_add(self.wire_len)
    }

    /// The exact end offset, when representable.
    pub open spec fn checked_end_spec(&self) -> Option<u64> {
        if self.frame_start + self.wire_len <= u64::MAX {
            Some((self.frame_start + self.wire_len) as u64)
        } else {
            None
        }
    }

    /// Offset one past the frame's final byte, saturating at `u64::MAX`.
    pub open spec fn spec_end(&self) -> u64 {
        if self.frame_start + self.wire_len <= u64::MAX {
            (self.frame_start + self.wire_len) as u64
        } else {
            u64::MAX
        }
    }

    /// Offset one past the frame's final byte, saturating at `u64::MAX`.
    pub fn end(&self) -> (r: u64)
        ensures
            r == self.spec_end(),
    {
        self.frame_start.saturating_add(self.wire_len)
    }

    /// The frame's byte range on the wire.
    pub fn range(&self) -> (r: std::ops::Range<u64>)
        ensures
            r.start == self.frame_start,
            r.end == self.spec_end(),
    {
        self.frame_start..self.end()
    }
}

/// The zero-sized factory for builders with the default allocator.
#[derive(Debug, Clone, Copy, Default)]
pub struct DefaultBuilderFactory;

/// Installed writer memory-policy state: the policy and the baseline
/// capacity cached when it was installed.
#[derive(Debug, Clone)]
pub struct WriterMemoryPolicy<P> {
    policy: P,
    baseline_capacity: usize,
}

impl<P> WriterMemoryPolicy<P> {
    /// The installed policy.
    pub closed spec fn policy(&self) -> P {
        self.policy
    }

    /// The capacity a rebuilt builder gets.
    pub closed spec fn baseline(&self) -> usize {
        self.baseline_capacity
    }
}

impl<P: MemoryPolicy> WriterMemoryPolicy<P> {
    fn new(policy: P) -> (r: Self)
        ensures
            r.policy() == policy,
    {
        let baseline_capacity = policy.baseline_capacity();
        WriterMemoryPolicy { policy, baseline_capacity }
    }
}

/// The writer's hook into the memory state of its message builder, run after
/// each successfully framed message of the writer's own builder. It returns
/// the capacity at which the builder is to be rebuilt, if at all.
pub trait WriterMemoryBackend: Send {
    fn after_write(&mut self, current_capacity: usize, last_message_size: usize) -> Option<usize>;
}

impl WriterMemoryBackend for NoMemoryPolicy {
    fn after_write(&mut self, _current_capacity: usize, _last_message_size: usize) -> (r: Option<usize>)
        ensures
            r is None,
    {
        None
    }
}

impl<P: MemoryPolicy> WriterMemoryBackend for WriterMemoryPolicy<P> {
    /// Consults the policy only while the builder's capacity exceeds the
    /// baseline; a reset it requests rebuilds the builder at the baseline.
    fn after_write(&mut self, current_capacity: usize, last_message_size: usize) -> (r: Option<usize>)
        ensures
            final(self).baseline() == old(self).baseline(),
            current_capacity <= old(self).baseline() ==> r is None && *final(self) == *old(self),
            r matches Some(c) ==> c == old(self).baseline(),
            current_capacity > old(self).baseline() && old(self).policy().obeys_memory_policy_spec()
                ==> exists|next: P, decision: Option<ReclamationReason>|
                #[trigger] old(self).policy().spec_decides(
                    &next,
                    last_message_size,
                    current_capacity,
                    decision,
                ) && match decision {
                    Some(reason) => r is Some && next.spec_reclaimed(
                        &final(self).policy(),
                        ReclamationInfo {
                            reason,
                            last_message_size,
                            capacity_before: current_capacity,
                            capacity_after: old(self).baseline(),
                        },
                    ),
                    None => r is None && final(self).policy() == next,
                },
    {
        if current_capacity <= self.baseline_capacity {
            return None;
        }
        match self.policy.should_reset(last_message_size, current_capacity) {
            Some(reason) => {
                self.policy.on_reclaim(
                    &ReclamationInfo {
                        reason,
                        last_message_size,
                        capacity_before: current_capacity,
                        capacity_after: self.baseline_capacity,
                    },
                );
                Some(self.baseline_capacity)
            },
            None => None,
        }
    }
}

/// Zero-sized default state for writers without post-operation observation.
#[derive(Debug, Clone, Copy, Default)]
pub struct NoPostWriteObserver;

/// The completed outcome of one write operation.
#[derive(Debug)]
pub enum PostWriteOutcome<'a> {
    /// Serialization, framing and any automatic durability checkpoint completed.
    Succeeded(FrameReceipt),
    /// The caller's serialization failed before framing.
    SerializationFailed(&'a Error),
    /// Framing or sink I/O failed. A nonzero `bytes_accepted` poisons the writer.
    WriteFailed {
        /// Position at which the attempted frame began.
        frame_start: u64,
        /// Bytes accepted before the failure.
        bytes_accepted: u64,
        /// The error returned to the caller.
        error: &'a Error,
    },
    /// The frame was accepted, but its automatic durability checkpoint failed;
    /// the receipt identifies the accepted frame, which must not be re-emitted.
    DurabilityFailed { receipt: FrameReceipt, error: &'a Error },
}

/// Information delivered to a [`PostWriteObserver`] after an operation resolved.
#[derive(Debug)]
pub struct PostWriteEvent<'a> {
    /// The payload length; `None` when serialization failed or a poisoned
    /// writer rejected the operation before serialization.
    pub payload_len: Option<usize>,
    /// Elapsed time through completion of the operation.
    pub elapsed: Duration,
    /// The final outcome.
    pub outcome: PostWriteOutcome<'a>,
}

/// An observer invoked once after each write operation reached its final
/// state. The zero-sized default disables timing and callbacks.
pub trait PostWriteObserver: Send {
    /// Whether this observer requires event collection.
    const ENABLED: bool = true;

    /// Whether `on_write` may be called with any event, in any state.
    open spec fn accepts_all_events() -> bool {
        true
    }

    /// Whether `on_write` is specified by
    /// [`spec_on_write`](PostWriteObserver::spec_on_write). The observers of
    /// this library are (a closure by its own contract); one written outside
    /// verified code is not (`false`), and nothing over `spec_on_write` is
    /// claimed for it.
    open spec fn obeys_observer_spec(&self) -> bool {
        false
    }

    /// `on_write(event)` may take this observer to `next`, for an observer
    /// that obeys the specification.
    open spec fn spec_on_write(&self, next: &Self, event: PostWriteEvent<'_>) -> bool {
        arbitrary()
    }

    /// Receives the event of one completed operation.
    fn on_write(&mut self, event: PostWriteEvent<'_>)
        requires
            Self::accepts_all_events(),
        ensures
            old(self).obeys_observer_spec() ==> old(self).spec_on_write(&*final(self), event),
    ;
}

impl PostWriteObserver for NoPostWriteObserver {
    const ENABLED: bool = false;

    open spec fn obeys_observer_spec(&self) -> bool {
        true
    }

    /// Nothing happens.
    open spec fn spec_on_write(&self, next: &Self, event: PostWriteEvent<'_>) -> bool {
        true
    }

    fn on_write(&mut self, _event: PostWriteEvent<'_>) {
    }
}

impl<F> PostWriteObserver for F where F: for <'event>FnMut(PostWriteEvent<'event>) + Send {
    open spec fn accepts_all_events() -> bool {
        forall|f: F, e: PostWriteEvent| #[trigger] call_requires(f, (e,))
    }

    open spec fn obeys_observer_spec(&self) -> bool {
        true
    }

    /// The closure was called with the event, as its own contract states.
    open spec fn spec_on_write(&self, next: &Self, event: PostWriteEvent<'_>) -> bool {
        call_ensures(*self, (event,), ())
    }

    fn on_write(&mut self, event: PostWriteEvent<'_>)
        ensures
            call_ensures(*old(self), (event,), ()),
    {
        self(event)
    }
}

/// What one write did, seen from the stream: `frame_of` is the frame the
/// framer writes for the payload (`None`: it rejects the payload), `start`
/// the position before the write, `written` the bytes the sink accepted and
/// `poisoned` the writer's state afterwards.
///
/// Success means exactly the frame was written and the receipt names it. A
/// failure either wrote nothing of a rejected payload, or wrote the whole
/// frame and failed afterwards (a durability checkpoint), or failed with an
/// I/O error after a proper prefix of the frame, in which case the writer is
/// poisoned exactly when that prefix is not empty.
pub open spec fn spec_write_outcome(
    frame_of: Option<Seq<u8>>,
    start: u64,
    written: Seq<u8>,
    poisoned: bool,
    r: Result<FrameReceipt, Error>,
) -> bool {
    match r {
        Ok(receipt) => {
            &&& frame_of == Some(written)
            &&& receipt.frame_start == start
            &&& receipt.wire_len == written.len()
            &&& !poisoned
        },
        Err(e) => match frame_of {
            None => written.len() == 0 && !poisoned,
            Some(f) => (written == f && !poisoned) || (e.is_io() && written.is_prefix_of(f)
                && written.len() < f.len() && poisoned == (written.len() > 0)),
        },
    }
}

/// What one write did to the durable watermark (`prev` before, `next`
/// after): it moves only on success, and then only to the end of the frame
/// just written. When the whole frame was written and the write still
/// failed, its checkpoint failed: the error carries the attempted watermark
/// (the frame's end), the previous watermark and the frame.
pub open spec fn spec_checkpoint_outcome(
    prev: Option<u64>,
    next: Option<u64>,
    frame_of: Option<Seq<u8>>,
    start: u64,
    written: Seq<u8>,
    r: Result<FrameReceipt, Error>,
) -> bool {
    match r {
        Ok(receipt) => next == prev || next == Some(receipt.spec_end()),
        Err(e) => {
            &&& next == prev
            &&& frame_of == Some(written) ==> {
                let frame = FrameReceipt { frame_start: start, wire_len: written.len() as u64 };
                exists|mode: SyncMode| #[trigger]
                    spec_durability_error(e, mode, frame.spec_end(), prev, Some(frame))
            }
        },
    }
}

/// What one write did, whatever the framer: success names exactly the bytes
/// written and leaves the writer usable. A failure before the sync backend
/// ran (`checkpointed` false) came from the framer, and poisons the writer
/// exactly when the sink accepted part of the frame; a failure of the
/// checkpoint run after the whole frame leaves the writer usable.
pub open spec fn spec_write_result(
    start: u64,
    written: Seq<u8>,
    poisoned: bool,
    checkpointed: bool,
    r: Result<FrameReceipt, Error>,
) -> bool {
    match r {
        Ok(receipt) => {
            &&& receipt.frame_start == start
            &&& receipt.wire_len == written.len()
            &&& !poisoned
        },
        Err(e) => if checkpointed {
            !poisoned
        } else {
            poisoned == (written.len() > 0)
        },
    }
}

/// The outcome an observer is told of a write that began at `start`, after
/// which the sink had accepted `written` and the result was `r`: the receipt
/// on success; a failure before the sync backend ran (`checkpointed` false)
/// as a write failure with the bytes accepted, a failed checkpoint with the
/// accepted frame.
pub open spec fn spec_reported(
    outcome: PostWriteOutcome<'_>,
    start: u64,
    written: Seq<u8>,
    checkpointed: bool,
    r: Result<FrameReceipt, Error>,
) -> bool {
    match r {
        Ok(receipt) => outcome == PostWriteOutcome::Succeeded(receipt),
        Err(e) => if checkpointed {
            outcome matches PostWriteOutcome::DurabilityFailed { receipt, error } && receipt == (FrameReceipt {
                frame_start: start,
                wire_len: written.len() as u64,
            }) && *error == e
        } else {
            outcome matches PostWriteOutcome::WriteFailed { frame_start, bytes_accepted, error }
                && frame_start == start && bytes_accepted == written.len() && *error == e
        },
    }
}

/// How one write moved the durable watermark (`prev` before, `next` after):
/// only on success, and then only to the end of the frame just written.
pub open spec fn spec_watermark_step(prev: Option<u64>, next: Option<u64>, r: Result<FrameReceipt, Error>) -> bool {
    match r {
        Ok(receipt) => next == prev || next == Some(receipt.spec_end()),
        Err(_) => next == prev,
    }
}

/// A write of `payload` at `position` owes success: the framer obeys its
/// specification and frames the payload, the sink never fails and accepts at
/// least one byte of each offer (short writes are retried), the position has
/// room for the whole frame, and no checkpoint can fail.
pub open spec fn spec_write_owed<W: ByteSink, F: Framer, S: SyncPolicyBackend<W>>(
    framer: F,
    sink: W,
    sync: S,
    position: u64,
    payload: Seq<u8>,
) -> bool {
    &&& framer.obeys_framer_spec()
    &&& sink.spec_progresses()
    &&& sync.spec_never_fails()
    &&& (framer.spec_frame_of(payload) matches Some(f) && position + f.len() <= u64::MAX)
}

/// A writer of framed messages to a byte sink.
///
/// The generic parameters select the sync state (`NoSync` or `Syncing<P>`),
/// the memory state of the caller's message builder and the post-write
/// observer; the defaults are zero-sized and do nothing.
pub struct StreamWriter<W: ByteSink, F: Framer, S = NoSync, M = NoMemoryPolicy, O = NoPostWriteObserver> {
    writer: CountingWriter<W>,
    framer: F,
    memory: M,
    sync: S,
    observer: O,
    poisoned: bool,
}

impl<W: ByteSink, F: Framer, S, M, O> StreamWriter<W, F, S, M, O> {
    /// Every byte the sink accepted through this writer, in order.
    pub closed spec fn accepted(&self) -> Seq<u8> {
        self.writer.accepted()
    }

    /// The stream position: the start offset plus the bytes accepted.
    pub closed spec fn position(&self) -> u64 {
        self.writer.position()
    }

    /// Whether a torn frame poisoned the writer.
    pub closed spec fn spec_poisoned(&self) -> bool {
        self.poisoned
    }

    /// The framing strategy.
    pub closed spec fn spec_framer(&self) -> F {
        self.framer
    }

    /// The sync state.
    pub closed spec fn sync_state(&self) -> S {
        self.sync
    }

    /// The memory state.
    pub closed spec fn memory_state(&self) -> M {
        self.memory
    }

    /// The post-write observer.
    pub closed spec fn observer(&self) -> O {
        self.observer
    }

    /// The wrapped sink.
    pub closed spec fn sink(&self) -> W {
        self.writer.sink()
    }

    /// The position accounts for exactly the bytes accepted.
    pub closed spec fn inv(&self) -> bool {
        self.writer.inv()
    }

    /// `self` is `prev` after further operations: what was accepted stays
    /// accepted and the position advanced by exactly what was accepted since.
    pub closed spec fn continues(&self, prev: &Self) -> bool {
        self.writer.extends(&prev.writer)
    }

    /// Whether the sync backend ran between `prev` and this state.
    pub open spec fn spec_checkpointed(&self, prev: &Self) -> bool {
        self.sync_state() != prev.sync_state()
    }

    /// The bytes accepted since `prev`.
    pub open spec fn written_since(&self, prev: &Self) -> Seq<u8> {
        self.accepted().skip(prev.accepted().len() as int)
    }

    /// Every byte the sink holds, for a sink that keeps them.
    pub open spec fn sink_bytes(&self) -> Option<Seq<u8>> {
        self.sink().spec_bytes()
    }

    /// Since `prev`, a sink that keeps its bytes gained exactly the bytes
    /// written since.
    pub open spec fn records_since(&self, prev: &Self) -> bool {
        prev.sink_bytes() matches Some(b) ==> self.sink_bytes() == Some(b + self.written_since(prev))
    }

    /// The position accounts for exactly the bytes written: after any
    /// sequence of operations it moved by the number of bytes the sink
    /// accepted since.
    pub proof fn lemma_position_counts_written(&self, prev: &Self)
        requires
            prev.inv(),
            self.continues(prev),
        ensures
            self.position() == prev.position() + self.written_since(prev).len(),
    {
        self.writer.lemma_extends_position(&prev.writer);
    }
}

impl<W: ByteSink, F: Framer> StreamWriter<W, F, NoSync, NoMemoryPolicy, NoPostWriteObserver> {
    /// A writer framing onto `writer` with `framer`, at stream position zero.
    pub fn new(writer: W, framer: F) -> (r: Self)
        ensures
            r.inv(),
            r.accepted() == Seq::<u8>::empty(),
            r.position() == 0,
            !r.spec_poisoned(),
            r.spec_framer() == framer,
            r.sink() == writer,
    {
        StreamWriter {
            writer: CountingWriter::new(writer),
            framer,
            memory: NoMemoryPolicy,
            sync: NoSync,
            observer: NoPostWriteObserver,
            poisoned: false,
        }
    }
}

impl<W: ByteSink, F: Framer, S, M, O> StreamWriter<W, F, S, M, O> {
    /// Installs a memory reclamation policy for the writer's own builder; the
    /// writer is otherwise unchanged.
    #[must_use]
    pub fn with_memory_policy<P: MemoryPolicy>(self, policy: P) -> (r: StreamWriter<
        W,
        F,
        S,
        WriterMemoryPolicy<P>,
        O,
    >)
        requires
            self.inv(),
        ensures
            r.inv(),
            r.accepted() == self.accepted(),
            r.position() == self.position(),
            r.spec_poisoned() == self.spec_poisoned(),
            r.spec_framer() == self.spec_framer(),
            r.sync_state() == self.sync_state(),
            r.sink() == self.sink(),
            r.memory_state().policy() == policy,
    {
        StreamWriter {
            writer: self.writer,
            framer: self.framer,
            memory: WriterMemoryPolicy::new(policy),
            sync: self.sync,
            observer: self.observer,
            poisoned: self.poisoned,
        }
    }

    /// Installs a post-write observer; the writer is otherwise unchanged.
    #[must_use]
    pub fn with_post_write_observer<O2: PostWriteObserver>(self, observer: O2) -> (r: StreamWriter<
        W,
        F,
        S,
        M,
        O2,
    >)
        requires
            self.inv(),
        ensures
            r.inv(),
            r.accepted() == self.accepted(),
            r.position() == self.position(),
            r.spec_poisoned() == self.spec_poisoned(),
            r.spec_framer() == self.spec_framer(),
            r.sync_state() == self.sync_state(),
            r.memory_state() == self.memory_state(),
            r.sink() == self.sink(),
            r.observer() == observer,
    {
        StreamWriter {
            writer: self.writer,
            framer: self.framer,
            memory: self.memory,
            sync: self.sync,
            observer,
            poisoned: self.poisoned,
        }
    }

    /// Sets the offset receipts and [`bytes_written`](Self::bytes_written)
    /// are measured from; refused once any byte was written, or when poisoned.
    pub fn with_start_offset(self, offset: u64) -> (r: Result<Self, Error>)
        requires
            self.inv(),
        ensures
            r is Ok <==> !self.spec_poisoned() && self.position() == 0,
            r matches Ok(w) ==> w.inv() && w.position() == offset && w.accepted() == self.accepted()
                && w.spec_framer() == self.spec_framer() && !w.spec_poisoned() && w.sink() == self.sink()
                && w.sync_state() == self.sync_state(),
            r matches Err(e) ==> if self.spec_poisoned() {
                e.is_poisoned()
            } else {
                e.is_invalid_frame()
            },
    {
        let mut this = self;
        if this.poisoned {
            return Err(Error::poisoned());
        }
        match this.writer.set_start_offset(offset) {
            Ok(()) => Ok(this),
            Err(e) => Err(e),
        }
    }

    /// Consumes the writer, returning the sink.
    pub fn into_inner(self) -> (r: W)
        ensures
            r == self.sink(),
    {
        self.writer.into_inner()
    }

    /// The framing strategy.
    pub fn framer(&self) -> (r: &F)
        ensures
            *r == self.spec_framer(),
    {
        &self.framer
    }

    /// The stream position: the `frame_start` of the next frame. After a torn
    /// frame it includes every byte the sink accepted before the failure.
    pub fn bytes_written(&self) -> (r: u64)
        ensures
            r == self.position(),
    {
        self.writer.count()
    }

    /// Whether an earlier torn frame poisoned this writer.
    pub fn is_poisoned(&self) -> (r: bool)
        ensures
            r == self.spec_poisoned(),
    {
        self.poisoned
    }

    /// Flushes the sink.
    pub fn flush(&mut self) -> (r: Result<(), Error>)
        requires
            old(self).inv(),
        ensures
            final(self).inv(),
            final(self).continues(&*old(self)),
            final(self).records_since(&*old(self)),
            final(self).accepted() == old(self).accepted(),
            final(self).position() == old(self).position(),
            final(self).spec_poisoned() == old(self).spec_poisoned(),
            final(self).spec_framer() == old(self).spec_framer(),
            r matches Err(e) ==> e.is_io(),
    {
        match self.writer.flush() {
            Ok(()) => Ok(()),
            Err(e) => Err(Error::io(e)),
        }
    }
}

impl<W: ByteSink, F: Framer, S: SyncPolicyBackend<W>, M: WriterMemoryBackend, O: PostWriteObserver> StreamWriter<
    W,
    F,
    S,
    M,
    O,
> {
    /// The sync backend's step in a write from `prev` to `self` that ended in
    /// `r`: a write that framed its payload ran the backend for that frame,
    /// with the checkpoint the backend decided on (which a sink that records
    /// its synchronizations shows), and a failed checkpoint
    /// reports its own mode, the frame, the frame's end as the attempted
    /// watermark and the previous watermark; a write that failed before
    /// leaves the sync state as it was.
    pub open spec fn spec_sync_step(&self, prev: &Self, r: Result<FrameReceipt, Error>) -> bool {
        let frame = FrameReceipt { frame_start: prev.position(), wire_len: self.written_since(prev).len() as u64 };
        match r {
            Ok(receipt) => exists|m: Option<SyncMode>| #[trigger]
                prev.sync_state().spec_ran(&self.sync_state(), receipt, m) && spec_syncs_step(
                    prev.sink().spec_syncs(),
                    self.sink().spec_syncs(),
                    m,
                ),
            Err(e) => (self.sync_state() == prev.sync_state() && spec_syncs_step(
                prev.sink().spec_syncs(),
                self.sink().spec_syncs(),
                None,
            )) || exists|m: SyncMode|
                #[trigger] prev.sync_state().spec_ran(&self.sync_state(), frame, Some(m)) && spec_durability_error(
                    e,
                    m,
                    frame.spec_end(),
                    prev.sync_state().spec_durable_watermark(),
                    Some(frame),
                ) && spec_syncs_step(prev.sink().spec_syncs(), self.sink().spec_syncs(), Some(m)),
        }
    }

    /// The start of an observed operation: a clock reading when an observer
    /// that collects events is installed, `None` otherwise.
    pub fn observation_start() -> (r: Option<Instant>)
        ensures
            r is Some <==> O::ENABLED,
    {
        if O::ENABLED {
            Some(instant_now())
        } else {
            None
        }
    }

    /// Hands the event of a completed operation to the observer.
    fn observe_write(&mut self, started: Option<Instant>, payload_len: Option<usize>, outcome: PostWriteOutcome<'_>)
        requires
            O::accepts_all_events(),
        ensures
            final(self).writer == old(self).writer,
            final(self).framer == old(self).framer,
            final(self).memory == old(self).memory,
            final(self).sync == old(self).sync,
            final(self).poisoned == old(self).poisoned,
            started is None ==> final(self).observer == old(self).observer,
            started is Some && old(self).observer.obeys_observer_spec() ==> exists|elapsed: Duration|
                #[trigger] old(self).observer.spec_on_write(
                    &final(self).observer,
                    PostWriteEvent { payload_len, elapsed, outcome },
                ),
    {
        match started {
            Some(t) => {
                let elapsed = instant_elapsed(&t);
                let event = PostWriteEvent { payload_len, elapsed, outcome };
                let ghost delivered = event;
                self.observer.on_write(event);
                proof {
                    assert(old(self).observer.obeys_observer_spec() ==> old(self).observer.spec_on_write(
                        &self.observer,
                        delivered,
                    ));
                }
            },
            None => {},
        }
    }

    /// Rejects the operation when the writer is poisoned, reporting the
    /// rejection to the observer; otherwise does nothing.
    pub fn reject_if_poisoned(&mut self, started: Option<Instant>, payload_len: Option<usize>) -> (r: Result<
        (),
        Error,
    >)
        requires
            old(self).inv(),
            O::accepts_all_events(),
        ensures
            final(self).inv(),
            final(self).continues(&*old(self)),
            final(self).records_since(&*old(self)),
            final(self).accepted() == old(self).accepted(),
            final(self).position() == old(self).position(),
            final(self).spec_poisoned() == old(self).spec_poisoned(),
            final(self).spec_framer() == old(self).spec_framer(),
            final(self).sink() == old(self).sink(),
            final(self).sync_state() == old(self).sync_state(),
            final(self).memory_state() == old(self).memory_state(),
            r is Ok <==> !old(self).spec_poisoned(),
            r matches Err(e) ==> e.is_poisoned(),
            r is Ok || started is None ==> final(self).observer() == old(self).observer(),
            r matches Err(e) ==> (started is Some && old(self).observer().obeys_observer_spec() ==> exists|
                elapsed: Duration,
            |
                #[trigger] old(self).observer().spec_on_write(
                    &final(self).observer(),
                    PostWriteEvent {
                        payload_len,
                        elapsed,
                        outcome: PostWriteOutcome::WriteFailed {
                            frame_start: old(self).position(),
                            bytes_accepted: 0,
                            error: &e,
                        },
                    },
                )),
    {
        proof {
            self.writer.lemma_extends_refl();
            self.writer.lemma_records_refl();
        }
        if !self.poisoned {
            return Ok(());
        }
        let error = Error::poisoned();
        let frame_start = self.writer.count();
        let ghost before = *self;
        self.observe_write(
            started,
            payload_len,
            PostWriteOutcome::WriteFailed { frame_start, bytes_accepted: 0, error: &error },
        );
        proof {
            if started is Some && before.observer.obeys_observer_spec() {
                let outcome = PostWriteOutcome::WriteFailed { frame_start, bytes_accepted: 0, error: &error };
                let elapsed = choose|elapsed: Duration|
                    #[trigger] before.observer.spec_on_write(
                        &self.observer,
                        PostWriteEvent { payload_len, elapsed, outcome },
                    );
                assert(old(self).observer().spec_on_write(
                    &self.observer(),
                    PostWriteEvent {
                        payload_len,
                        elapsed,
                        outcome: PostWriteOutcome::WriteFailed {
                            frame_start: old(self).position(),
                            bytes_accepted: 0,
                            error: &error,
                        },
                    },
                ));
            }
        }
        Err(error)
    }

    /// Frames `payload`, then (for the writer's own builder, whose capacity is
    /// `builder_capacity`) consults the memory policy, then runs the sync
    /// policy, and reports the outcome to the observer. Returns the result and
    /// the capacity at which the builder is to be rebuilt, if at all.
    fn write_frame(
        &mut self,
        started: Option<Instant>,
        payload: &[u8],
        builder_capacity: Option<usize>,
    ) -> (r: (Result<FrameReceipt, Error>, Option<usize>))
        requires
            old(self).inv(),
            !old(self).spec_poisoned(),
            O::accepts_all_events(),
        ensures
            final(self).inv(),
            final(self).continues(&*old(self)),
            final(self).records_since(&*old(self)),
            final(self).spec_framer() == old(self).spec_framer(),
            spec_write_result(
                old(self).position(),
                final(self).written_since(&*old(self)),
                final(self).spec_poisoned(),
                final(self).spec_checkpointed(&*old(self)),
                r.0,
            ),
            spec_watermark_step(
                old(self).sync_state().spec_durable_watermark(),
                final(self).sync_state().spec_durable_watermark(),
                r.0,
            ),
            final(self).spec_sync_step(&*old(self), r.0),
            old(self).spec_framer().obeys_framer_spec() ==> spec_write_outcome(
                old(self).spec_framer().spec_frame_of(payload@),
                old(self).position(),
                final(self).written_since(&*old(self)),
                final(self).spec_poisoned(),
                r.0,
            ),
            builder_capacity is None ==> final(self).memory_state() == old(self).memory_state()
                && r.1 is None,
            r.1 is Some ==> r.0 is Ok || (r.0 matches Err(_) && !final(self).spec_poisoned()),
            old(self).spec_framer().obeys_framer_spec() ==> spec_checkpoint_outcome(
                old(self).sync_state().spec_durable_watermark(),
                final(self).sync_state().spec_durable_watermark(),
                old(self).spec_framer().spec_frame_of(payload@),
                old(self).position(),
                final(self).written_since(&*old(self)),
                r.0,
            ),
            spec_write_owed(
                old(self).spec_framer(),
                old(self).sink(),
                old(self).sync_state(),
                old(self).position(),
                payload@,
            ) ==> r.0 is Ok,
            started is None ==> final(self).observer() == old(self).observer(),
            started is Some && old(self).observer().obeys_observer_spec() ==> exists|
                elapsed: Duration,
                outcome: PostWriteOutcome,
            |
                #[trigger] old(self).observer().spec_on_write(
                    &final(self).observer(),
                    PostWriteEvent { payload_len: Some(payload@.len() as usize), elapsed, outcome },
                ) && spec_reported(
                    outcome,
                    old(self).position(),
                    final(self).written_since(&*old(self)),
                    final(self).spec_checkpointed(&*old(self)),
                    r.0),
    {
        let payload_len = payload.len();
        let frame_start = self.writer.count();
        let ghost w0 = self.writer;
        let framed = self.framer.frame_and_write(&mut self.writer, payload);
        proof {
            self.writer.lemma_extends_position(&w0);
        }
        match framed {
            Ok(()) => {},
            Err(error) => {
                let bytes_accepted = self.writer.count() - frame_start;
                if bytes_accepted != 0 {
                    self.poisoned = true;
                }
                self.observe_write(
                    started,
                    Some(payload_len),
                    PostWriteOutcome::WriteFailed { frame_start, bytes_accepted, error: &error },
                );
                proof {
                    if started is Some && old(self).observer.obeys_observer_spec() {
                        let outcome = PostWriteOutcome::WriteFailed { frame_start, bytes_accepted, error: &error };
                        let elapsed = choose|elapsed: Duration|
                            #[trigger] old(self).observer.spec_on_write(
                                &self.observer,
                                PostWriteEvent { payload_len: Some(payload_len), elapsed, outcome },
                            );
                        let r: Result<FrameReceipt, Error> = Err(error);
                        assert(spec_reported(
                            outcome,
                            old(self).position(),
                            self.written_since(&*old(self)),
                            self.spec_checkpointed(&*old(self)),
                            r,
                        ));
                        assert(old(self).observer().spec_on_write(
                            &self.observer(),
                            PostWriteEvent { payload_len: Some(payload@.len() as usize), elapsed, outcome },
                        ));
                    }
                }
                return (Err(error), None);
            },
        }
        let wire_len = self.writer.count() - frame_start;
        let rebuild = match builder_capacity {
            Some(capacity) => self.memory.after_write(capacity, payload_len),
            None => None,
        };
        let receipt = FrameReceipt { frame_start, wire_len };
        let ghost w1 = self.writer;
        let synced = self.sync.after_frame(&mut self.writer, receipt);
        proof {
            self.writer.lemma_records_trans(&w1, &w0);
            self.writer.lemma_extends_trans(&w1, &w0);
            assert(self.writer.accepted_since(&w0) =~= w1.accepted_since(&w0));
        }
        match synced {
            Ok(()) => {
                self.observe_write(started, Some(payload_len), PostWriteOutcome::Succeeded(receipt));
                proof {
                    if started is Some && old(self).observer.obeys_observer_spec() {
                        let outcome = PostWriteOutcome::Succeeded(receipt);
                        let elapsed = choose|elapsed: Duration|
                            #[trigger] old(self).observer.spec_on_write(
                                &self.observer,
                                PostWriteEvent { payload_len: Some(payload_len), elapsed, outcome },
                            );
                        let r: Result<FrameReceipt, Error> = Ok(receipt);
                        assert(spec_reported(
                            outcome,
                            old(self).position(),
                            self.written_since(&*old(self)),
                            self.spec_checkpointed(&*old(self)),
                            r,
                        ));
                        assert(old(self).observer().spec_on_write(
                            &self.observer(),
                            PostWriteEvent { payload_len: Some(payload@.len() as usize), elapsed, outcome },
                        ));
                    }
                }
                (Ok(receipt), rebuild)
            },
            Err(error) => {
                self.observe_write(
                    started,
                    Some(payload_len),
                    PostWriteOutcome::DurabilityFailed { receipt, error: &error },
                );
                proof {
                    if started is Some && old(self).observer.obeys_observer_spec() {
                        let outcome = PostWriteOutcome::DurabilityFailed { receipt, error: &error };
                        let elapsed = choose|elapsed: Duration|
                            #[trigger] old(self).observer.spec_on_write(
                                &self.observer,
                                PostWriteEvent { payload_len: Some(payload_len), elapsed, outcome },
                            );
                        let r: Result<FrameReceipt, Error> = Err(error);
                        assert(spec_reported(
                            outcome,
                            old(self).position(),
                            self.written_since(&*old(self)),
                            self.spec_checkpointed(&*old(self)),
                            r,
                        ));
                        assert(old(self).observer().spec_on_write(
                            &self.observer(),
                            PostWriteEvent { payload_len: Some(payload@.len() as usize), elapsed, outcome },
                        ));
                    }
                }
                (Err(error), rebuild)
            },
        }
    }

    /// Writes a finished payload as one frame and returns its receipt: the
    /// position before the write and the bytes the sink accepted for it.
    ///
    /// A poisoned writer rejects the write without touching the sink. A
    /// failure after the sink accepted part of the frame poisons the writer;
    /// a failure that wrote nothing does not, and the write may be retried.
    /// With a sync policy installed, a checkpoint it requests runs after the
    /// frame was accepted; its failure is returned, and the frame stays
    /// written. The writer's memory policy does not apply here: the builder
    /// that produced `payload` belongs to the caller.
    pub fn write_finished_with_receipt(&mut self, payload: &[u8]) -> (r: Result<FrameReceipt, Error>)
        requires
            old(self).inv(),
            O::accepts_all_events(),
        ensures
            final(self).inv(),
            final(self).continues(&*old(self)),
            final(self).records_since(&*old(self)),
            final(self).spec_framer() == old(self).spec_framer(),
            final(self).memory_state() == old(self).memory_state(),
            old(self).spec_poisoned() ==> (r matches Err(e) && e.is_poisoned()
                && final(self).written_since(&*old(self)) == Seq::<u8>::empty()
                && final(self).spec_poisoned() && final(self).sync_state() == old(self).sync_state()),
            !old(self).spec_poisoned() ==> spec_write_result(
                old(self).position(),
                final(self).written_since(&*old(self)),
                final(self).spec_poisoned(),
                final(self).spec_checkpointed(&*old(self)),
                r,
            ),
            !old(self).spec_poisoned() ==> spec_watermark_step(
                old(self).sync_state().spec_durable_watermark(),
                final(self).sync_state().spec_durable_watermark(),
                r,
            ),
            final(self).spec_sync_step(&*old(self), r),
            !old(self).spec_poisoned() && old(self).spec_framer().obeys_framer_spec() ==> spec_write_outcome(
                old(self).spec_framer().spec_frame_of(payload@),
                old(self).position(),
                final(self).written_since(&*old(self)),
                final(self).spec_poisoned(),
                r,
            ),
            !old(self).spec_poisoned() && old(self).spec_framer().obeys_framer_spec()
                ==> spec_checkpoint_outcome(
                old(self).sync_state().spec_durable_watermark(),
                final(self).sync_state().spec_durable_watermark(),
                old(self).spec_framer().spec_frame_of(payload@),
                old(self).position(),
                final(self).written_since(&*old(self)),
                r,
            ),
            !old(self).spec_poisoned() && spec_write_owed(
                old(self).spec_framer(),
                old(self).sink(),
                old(self).sync_state(),
                old(self).position(),
                payload@,
            ) ==> r is Ok,
            O::ENABLED && old(self).observer().obeys_observer_spec() ==> exists|
                elapsed: Duration,
                outcome: PostWriteOutcome,
            |
                #[trigger] old(self).observer().spec_on_write(
                    &final(self).observer(),
                    PostWriteEvent { payload_len: Some(payload@.len() as usize), elapsed, outcome },
                ) && spec_reported(
                    outcome,
                    old(self).position(),
                    final(self).written_since(&*old(self)),
                    final(self).spec_checkpointed(&*old(self)),
                    r),
            !O::ENABLED ==> final(self).observer() == old(self).observer(),
    {
        let started = Self::observation_start();
        let payload_len = payload.len();
        if self.poisoned {
            let rejected = self.reject_if_poisoned(started, Some(payload_len));
            proof {
                assert(self.written_since(&*old(self)) =~= Seq::<u8>::empty());
            }
            return match rejected {
                Ok(()) => Err(Error::poisoned()),
                Err(e) => Err(e),
            };
        }
        let (result, _) = self.write_frame(started, payload, None);
        result
    }

    /// Writes a finished payload as one frame; see
    /// [`write_finished_with_receipt`](Self::write_finished_with_receipt).
    pub fn write_finished(&mut self, payload: &[u8]) -> (r: Result<(), Error>)
        requires
            old(self).inv(),
            O::accepts_all_events(),
        ensures
            final(self).inv(),
            final(self).continues(&*old(self)),
            final(self).records_since(&*old(self)),
            final(self).spec_framer() == old(self).spec_framer(),
            final(self).memory_state() == old(self).memory_state(),
            old(self).spec_poisoned() ==> (r matches Err(e) && e.is_poisoned()
                && final(self).written_since(&*old(self)) == Seq::<u8>::empty()
                && final(self).spec_poisoned() && final(self).sync_state() == old(self).sync_state()),
            !old(self).spec_poisoned() ==> exists|res: Result<FrameReceipt, Error>|
                #[trigger] spec_write_result(
                    old(self).position(),
                    final(self).written_since(&*old(self)),
                    final(self).spec_poisoned(),
                    final(self).spec_checkpointed(&*old(self)),
                    res,
                ) && spec_watermark_step(
                    old(self).sync_state().spec_durable_watermark(),
                    final(self).sync_state().spec_durable_watermark(),
                    res,
                ) && final(self).spec_sync_step(&*old(self), res) && (old(self).spec_framer().obeys_framer_spec() ==> spec_write_outcome(
                    old(self).spec_framer().spec_frame_of(payload@),
                    old(self).position(),
                    final(self).written_since(&*old(self)),
                    final(self).spec_poisoned(),
                    res,
                ) && spec_checkpoint_outcome(
                    old(self).sync_state().spec_durable_watermark(),
                    final(self).sync_state().spec_durable_watermark(),
                    old(self).spec_framer().spec_frame_of(payload@),
                    old(self).position(),
                    final(self).written_since(&*old(self)),
                    res,
                )) && (r is Ok <==> res is Ok) && (r matches Err(e) ==> res == Err::<FrameReceipt, Error>(e)),
            !old(self).spec_poisoned() && spec_write_owed(
                old(self).spec_framer(),
                old(self).sink(),
                old(self).sync_state(),
                old(self).position(),
                payload@,
            ) ==> r is Ok,
            O::ENABLED && old(self).observer().obeys_observer_spec() ==> exists|
                elapsed: Duration,
                outcome: PostWriteOutcome,
                res: Result<FrameReceipt, Error>,
            |
                #[trigger] old(self).observer().spec_on_write(
                    &final(self).observer(),
                    PostWriteEvent { payload_len: Some(payload@.len() as usize), elapsed, outcome },
                ) && #[trigger] spec_reported(
                    outcome,
                    old(self).position(),
                    final(self).written_since(&*old(self)),
                    final(self).spec_checkpointed(&*old(self)),
                    res)
                    && (r is Ok <==> res is Ok) && (r matches Err(e) ==> res == Err::<FrameReceipt, Error>(e)),
            !O::ENABLED ==> final(self).observer() == old(self).observer(),
    {
        match self.write_finished_with_receipt(payload) {
            Ok(_) => Ok(()),
            Err(e) => Err(e),
        }
    }

    /// Completes a write of the writer's own builder: `serialized` is the
    /// outcome of serializing the item into the builder (its finished bytes,
    /// or the serialization error) and `builder_capacity` the builder's
    /// current capacity. Call [`reject_if_poisoned`](Self::reject_if_poisoned)
    /// first, with the same `started`.
    ///
    /// A serialization error is reported and returned without touching the
    /// sink. Otherwise the payload is written as in
    /// [`write_finished_with_receipt`](Self::write_finished_with_receipt), and
    /// after a framed message the memory policy may ask for the builder to be
    /// rebuilt: the second result is then the capacity to rebuild it at.
    pub fn write_serialized_with_receipt(
        &mut self,
        started: Option<Instant>,
        serialized: Result<&[u8], Error>,
        builder_capacity: usize,
    ) -> (r: (Result<FrameReceipt, Error>, Option<usize>))
        requires
            old(self).inv(),
            !old(self).spec_poisoned(),
            O::accepts_all_events(),
        ensures
            final(self).inv(),
            final(self).continues(&*old(self)),
            final(self).records_since(&*old(self)),
            final(self).spec_framer() == old(self).spec_framer(),
            final(self).spec_sync_step(&*old(self), r.0),
            match serialized {
                Err(e) => {
                    &&& r.0 == Err::<FrameReceipt, Error>(e)
                    &&& r.1 is None
                    &&& final(self).written_since(&*old(self)) == Seq::<u8>::empty()
                    &&& !final(self).spec_poisoned()
                    &&& final(self).memory_state() == old(self).memory_state()
                    &&& final(self).sync_state() == old(self).sync_state()
                },
                Ok(payload) => {
                    &&& spec_write_result(
                        old(self).position(),
                        final(self).written_since(&*old(self)),
                        final(self).spec_poisoned(),
                        final(self).spec_checkpointed(&*old(self)),
                        r.0,
                    )
                    &&& spec_watermark_step(
                        old(self).sync_state().spec_durable_watermark(),
                        final(self).sync_state().spec_durable_watermark(),
                        r.0,
                    )
                    &&& old(self).spec_framer().obeys_framer_spec() ==> spec_write_outcome(
                        old(self).spec_framer().spec_frame_of(payload@),
                        old(self).position(),
                        final(self).written_since(&*old(self)),
                        final(self).spec_poisoned(),
                        r.0,
                    ) && spec_checkpoint_outcome(
                        old(self).sync_state().spec_durable_watermark(),
                        final(self).sync_state().spec_durable_watermark(),
                        old(self).spec_framer().spec_frame_of(payload@),
                        old(self).position(),
                        final(self).written_since(&*old(self)),
                        r.0,
                    )
                    &&& spec_write_owed(
                        old(self).spec_framer(),
                        old(self).sink(),
                        old(self).sync_state(),
                        old(self).position(),
                        payload@,
                    ) ==> r.0 is Ok
                },
            },
            started is None ==> final(self).observer() == old(self).observer(),
            started is Some && old(self).observer().obeys_observer_spec() ==> match serialized {
                Err(e) => exists|elapsed: Duration|
                    #[trigger] old(self).observer().spec_on_write(
                        &final(self).observer(),
                        PostWriteEvent {
                            payload_len: None,
                            elapsed,
                            outcome: PostWriteOutcome::SerializationFailed(&e),
                        },
                    ),
                Ok(payload) => exists|elapsed: Duration, outcome: PostWriteOutcome|
                    #[trigger] old(self).observer().spec_on_write(
                        &final(self).observer(),
                        PostWriteEvent { payload_len: Some(payload@.len() as usize), elapsed, outcome },
                    ) && spec_reported(
                    outcome,
                    old(self).position(),
                    final(self).written_since(&*old(self)),
                    final(self).spec_checkpointed(&*old(self)),
                    r.0),
            },
    {
        match serialized {
            Err(error) => {
                self.observe_write(started, None, PostWriteOutcome::SerializationFailed(&error));
                proof {
                    self.writer.lemma_extends_refl();
                    self.writer.lemma_records_refl();
                    if started is Some && old(self).observer.obeys_observer_spec() {
                        let outcome = PostWriteOutcome::SerializationFailed(&error);
                        let elapsed = choose|elapsed: Duration|
                            #[trigger] old(self).observer.spec_on_write(
                                &self.observer,
                                PostWriteEvent { payload_len: None, elapsed, outcome },
                            );
                        assert(old(self).observer().spec_on_write(
                            &self.observer(),
                            PostWriteEvent { payload_len: None, elapsed, outcome },
                        ));
                    }
                }
                (Err(error), None)
            },
            Ok(payload) => self.write_frame(started, payload, Some(builder_capacity)),
        }
    }
}

impl<W: Durable, F: Framer, M, O> StreamWriter<W, F, NoSync, M, O> {
    /// Installs a durability policy. Only a writer without one can get one,
    /// so a live policy or an established watermark is never replaced.
    #[must_use]
    pub fn with_sync_policy<P: SyncPolicy>(self, policy: P) -> (r: StreamWriter<W, F, Syncing<P>, M, O>)
        requires
            self.inv(),
        ensures
            r.inv(),
            r.accepted() == self.accepted(),
            r.position() == self.position(),
            r.spec_poisoned() == self.spec_poisoned(),
            r.spec_framer() == self.spec_framer(),
            r.memory_state() == self.memory_state(),
            r.sink() == self.sink(),
            r.sync_state().policy == policy,
            r.sync_state().durable_watermark is None,
    {
        StreamWriter {
            writer: self.writer,
            framer: self.framer,
            memory: self.memory,
            sync: Syncing::new(policy),
            observer: self.observer,
            poisoned: self.poisoned,
        }
    }

    fn manual_sync_without_policy(&mut self, mode: SyncMode) -> (r: Result<u64, Error>)
        requires
            old(self).inv(),
        ensures
            final(self).inv(),
            final(self).continues(&*old(self)),
            final(self).records_since(&*old(self)),
            final(self).accepted() == old(self).accepted(),
            final(self).position() == old(self).position(),
            final(self).spec_poisoned() == old(self).spec_poisoned(),
            final(self).spec_framer() == old(self).spec_framer(),
            old(self).spec_poisoned() ==> (r matches Err(e) && e.is_poisoned()),
            !old(self).spec_poisoned() ==> match r {
                Ok(w) => w == old(self).position(),
                Err(e) => spec_durability_error(e, mode, old(self).position(), None, None),
            },
            old(self).sink().spec_syncs() matches Some(sy) ==> final(self).sink().spec_syncs() == Some(
                if old(self).spec_poisoned() {
                    sy
                } else {
                    sy.push(mode)
                },
            ),
    {
        if self.poisoned {
            proof {
                self.writer.lemma_extends_refl();
                self.writer.lemma_records_refl();
            }
            return Err(Error::poisoned());
        }
        let attempted_watermark = self.writer.count();
        let result = match mode {
            SyncMode::Data => self.writer.sync_data(),
            SyncMode::All => self.writer.sync_all(),
        };
        match result {
            Ok(()) => Ok(attempted_watermark),
            Err(source) => Err(Error::durability_failed(mode, attempted_watermark, None, None, None, source)),
        }
    }

    /// Flushes buffered bytes and synchronizes the sink's contents; returns
    /// the durable watermark, the current position. A poisoned writer
    /// refuses.
    pub fn sync_data(&mut self) -> (r: Result<u64, Error>)
        requires
            old(self).inv(),
        ensures
            final(self).inv(),
            final(self).continues(&*old(self)),
            final(self).records_since(&*old(self)),
            final(self).accepted() == old(self).accepted(),
            final(self).position() == old(self).position(),
            final(self).spec_poisoned() == old(self).spec_poisoned(),
            final(self).spec_framer() == old(self).spec_framer(),
            old(self).spec_poisoned() ==> (r matches Err(e) && e.is_poisoned()),
            !old(self).spec_poisoned() ==> match r {
                Ok(w) => w == old(self).position(),
                Err(e) => spec_durability_error(e, SyncMode::Data, old(self).position(), None, None),
            },
            old(self).sink().spec_syncs() matches Some(sy) ==> final(self).sink().spec_syncs() == Some(
                if old(self).spec_poisoned() {
                    sy
                } else {
                    sy.push(SyncMode::Data)
                },
            ),
    {
        self.manual_sync_without_policy(SyncMode::Data)
    }

    /// Flushes buffered bytes and synchronizes the sink's contents and
    /// metadata; returns the durable watermark, the current position.
    pub fn sync_all(&mut self) -> (r: Result<u64, Error>)
        requires
            old(self).inv(),
        ensures
            final(self).inv(),
            final(self).continues(&*old(self)),
            final(self).records_since(&*old(self)),
            final(self).accepted() == old(self).accepted(),
            final(self).position() == old(self).position(),
            final(self).spec_poisoned() == old(self).spec_poisoned(),
            final(self).spec_framer() == old(self).spec_framer(),
            old(self).spec_poisoned() ==> (r matches Err(e) && e.is_poisoned()),
            !old(self).spec_poisoned() ==> match r {
                Ok(w) => w == old(self).position(),
                Err(e) => spec_durability_error(e, SyncMode::All, old(self).position(), None, None),
            },
            old(self).sink().spec_syncs() matches Some(sy) ==> final(self).sink().spec_syncs() == Some(
                if old(self).spec_poisoned() {
                    sy
                } else {
                    sy.push(SyncMode::All)
                },
            ),
    {
        self.manual_sync_without_policy(SyncMode::All)
    }
}

impl<W: Durable, F: Framer, P: SyncPolicy, M, O> StreamWriter<W, F, Syncing<P>, M, O> {
    /// The last successfully synchronized position, or `None` before the
    /// first successful checkpoint.
    pub fn durable_watermark(&self) -> (r: Option<u64>)
        ensures
            r == self.sync_state().durable_watermark,
    {
        self.sync.durable_watermark
    }

    fn manual_sync(&mut self, mode: SyncMode) -> (r: Result<u64, Error>)
        requires
            old(self).inv(),
        ensures
            final(self).inv(),
            final(self).continues(&*old(self)),
            final(self).records_since(&*old(self)),
            final(self).accepted() == old(self).accepted(),
            final(self).position() == old(self).position(),
            final(self).spec_poisoned() == old(self).spec_poisoned(),
            final(self).spec_framer() == old(self).spec_framer(),
            old(self).spec_poisoned() ==> (r matches Err(e) && e.is_poisoned()
                && final(self).sync_state() == old(self).sync_state()),
            !old(self).spec_poisoned() ==> match r {
                Ok(w) => w == old(self).position() && final(self).sync_state().durable_watermark == Some(
                    w,
                ),
                Err(e) => final(self).sync_state() == old(self).sync_state() && spec_durability_error(
                    e,
                    mode,
                    old(self).position(),
                    old(self).sync_state().durable_watermark,
                    None,
                ),
            },
            old(self).sink().spec_syncs() matches Some(sy) ==> final(self).sink().spec_syncs() == Some(
                if old(self).spec_poisoned() {
                    sy
                } else {
                    sy.push(mode)
                },
            ),
            r is Ok && old(self).sync_state().policy.obeys_sync_policy_spec() ==> old(
                self,
            ).sync_state().policy.spec_synced(&final(self).sync_state().policy, mode, r->Ok_0),
    {
        if self.poisoned {
            proof {
                self.writer.lemma_extends_refl();
                self.writer.lemma_records_refl();
            }
            return Err(Error::poisoned());
        }
        let attempted_watermark = self.writer.count();
        self.sync.checkpoint(&mut self.writer, mode, attempted_watermark, None)
    }

    /// Forces a content checkpoint up to the current position and resets the
    /// policy's window; returns the new durable watermark.
    pub fn sync_data(&mut self) -> (r: Result<u64, Error>)
        requires
            old(self).inv(),
        ensures
            final(self).inv(),
            final(self).continues(&*old(self)),
            final(self).records_since(&*old(self)),
            final(self).accepted() == old(self).accepted(),
            final(self).position() == old(self).position(),
            final(self).spec_poisoned() == old(self).spec_poisoned(),
            final(self).spec_framer() == old(self).spec_framer(),
            old(self).spec_poisoned() ==> (r matches Err(e) && e.is_poisoned()
                && final(self).sync_state() == old(self).sync_state()),
            !old(self).spec_poisoned() ==> match r {
                Ok(w) => w == old(self).position() && final(self).sync_state().durable_watermark == Some(
                    w,
                ),
                Err(e) => final(self).sync_state() == old(self).sync_state() && spec_durability_error(
                    e,
                    SyncMode::Data,
                    old(self).position(),
                    old(self).sync_state().durable_watermark,
                    None,
                ),
            },
            old(self).sink().spec_syncs() matches Some(sy) ==> final(self).sink().spec_syncs() == Some(
                if old(self).spec_poisoned() {
                    sy
                } else {
                    sy.push(SyncMode::Data)
                },
            ),
            r is Ok && old(self).sync_state().policy.obeys_sync_policy_spec() ==> old(
                self,
            ).sync_state().policy.spec_synced(&final(self).sync_state().policy, SyncMode::Data, r->Ok_0),
    {
        self.manual_sync(SyncMode::Data)
    }

    /// Forces a content-and-metadata checkpoint up to the current position
    /// and resets the policy's window; returns the new durable watermark.
    pub fn sync_all(&mut self) -> (r: Result<u64, Error>)
        requires
            old(self).inv(),
        ensures
            final(self).inv(),
            final(self).continues(&*old(self)),
            final(self).records_since(&*old(self)),
            final(self).accepted() == old(self).accepted(),
            final(self).position() == old(self).position(),
            final(self).spec_poisoned() == old(self).spec_poisoned(),
            final(self).spec_framer() == old(self).spec_framer(),
            old(self).spec_poisoned() ==> (r matches Err(e) && e.is_poisoned()
                && final(self).sync_state() == old(self).sync_state()),
            !old(self).spec_poisoned() ==> match r {
                Ok(w) => w == old(self).position() && final(self).sync_state().durable_watermark == Some(
                    w,
                ),
                Err(e) => final(self).sync_state() == old(self).sync_state() && spec_durability_error(
                    e,
                    SyncMode::All,
                    old(self).position(),
                    old(self).sync_state().durable_watermark,
                    None,
                ),
            },
            old(self).sink().spec_syncs() matches Some(sy) ==> final(self).sink().spec_syncs() == Some(
                if old(self).spec_poisoned() {
                    sy
                } else {
                    sy.push(SyncMode::All)
                },
            ),
            r is Ok && old(self).sync_state().policy.obeys_sync_policy_spec() ==> old(
                self,
            ).sync_state().policy.spec_synced(&final(self).sync_state().policy, SyncMode::All, r->Ok_0),
    {
        self.manual_sync(SyncMode::All)
    }
}

/// A receipt names the written bytes: it starts where the write began and
/// ends where the next frame begins.
pub proof fn lemma_receipt_spans_written(
    frame_of: Option<Seq<u8>>,
    start: u64,
    written: Seq<u8>,
    poisoned: bool,
    receipt: FrameReceipt,
)
    requires
        spec_write_outcome(frame_of, start, written, poisoned, Ok(receipt)),
        start + written.len() <= u64::MAX,
    ensures
        receipt.frame_start == start,
        receipt.spec_end() == start + written.len(),
        receipt.checked_end_spec() == Some((start + written.len()) as u64),
{
}

/// Consecutive receipts tile the stream: after two successful writes the
/// second frame starts exactly where the first ends, and the two wire
/// lengths together account for every byte written since the first began.
pub proof fn lemma_receipts_tile<W: ByteSink, F: Framer, S, M, O>(
    w0: StreamWriter<W, F, S, M, O>,
    w1: StreamWriter<W, F, S, M, O>,
    w2: StreamWriter<W, F, S, M, O>,
    first_frame: Option<Seq<u8>>,
    second_frame: Option<Seq<u8>>,
    first: FrameReceipt,
    second: FrameReceipt,
)
    requires
        w0.inv(),
        w1.inv(),
        w1.continues(&w0),
        w2.continues(&w1),
        spec_write_outcome(first_frame, w0.position(), w1.written_since(&w0), w1.spec_poisoned(), Ok(first)),
        spec_write_outcome(second_frame, w1.position(), w2.written_since(&w1), w2.spec_poisoned(), Ok(second)),
    ensures
        second.frame_start == first.spec_end(),
        first.frame_start + first.wire_len + second.wire_len == w2.position(),
        w2.written_since(&w0) == w1.written_since(&w0) + w2.written_since(&w1),
{
    w1.writer.lemma_extends_position(&w0.writer);
    w2.writer.lemma_extends_position(&w1.writer);
    w2.writer.lemma_extends_trans(&w1.writer, &w0.writer);
}

/// The durable watermark never passes the bytes written: if it was within
/// the stream before a write, it is within the stream after it, whether the
/// write succeeded, failed while framing, or failed at its checkpoint.
pub proof fn lemma_watermark_within_written<W: ByteSink, F: Framer, S: SyncPolicyBackend<W>, M, O>(
    w0: StreamWriter<W, F, S, M, O>,
    w1: StreamWriter<W, F, S, M, O>,
    frame_of: Option<Seq<u8>>,
    r: Result<FrameReceipt, Error>,
)
    requires
        w0.inv(),
        w1.continues(&w0),
        w0.sync_state().spec_durable_watermark() matches Some(m) ==> m <= w0.position(),
        spec_write_outcome(frame_of, w0.position(), w1.written_since(&w0), w1.spec_poisoned(), r),
        spec_checkpoint_outcome(
            w0.sync_state().spec_durable_watermark(),
            w1.sync_state().spec_durable_watermark(),
            frame_of,
            w0.position(),
            w1.written_since(&w0),
            r,
        ),
    ensures
        w1.sync_state().spec_durable_watermark() matches Some(m) ==> m <= w1.position(),
{
    w1.writer.lemma_extends_position(&w0.writer);
}

/// Successful default-framed writes lay down the default stream of their
/// payloads: after a sink held the stream of `payloads`, a successful write
/// of `payload` leaves it holding the stream of `payloads` followed by
/// `payload`, and its receipt covers the 4-byte header and the payload.
pub proof fn lemma_default_write_extends_stream(
    payloads: Seq<Seq<u8>>,
    payload: Seq<u8>,
    start: u64,
    written: Seq<u8>,
    poisoned: bool,
    receipt: FrameReceipt,
)
    requires
        spec_write_outcome(DefaultFramer.spec_frame_of(payload), start, written, poisoned, Ok(receipt)),
    ensures
        spec_default_stream(payloads) + written == spec_default_stream(payloads.push(payload)),
        receipt.wire_len == 4 + payload.len(),
{
    assert(payloads.push(payload).drop_last() =~= payloads);
    assert(written == spec_frame(Seq::<u8>::empty(), payload));
}

/// Successful checksum-framed writes lay down the frames of their payloads:
/// after a sink held the frames the framer writes for `payloads`, a
/// successful write of `payload` appends exactly the frame of `payload`, and
/// its receipt covers the length header, the checksum field and the payload.
pub proof fn lemma_checksum_write_extends_stream<C: Checksum>(
    framer: ChecksumFramer<C>,
    payloads: Seq<Seq<u8>>,
    payload: Seq<u8>,
    start: u64,
    written: Seq<u8>,
    poisoned: bool,
    receipt: FrameReceipt,
)
    requires
        spec_write_outcome(framer.spec_frame_of(payload), start, written, poisoned, Ok(receipt)),
    ensures
        spec_checksum_frames(framer, payloads).flatten_alt() + written == spec_checksum_frames(
            framer,
            payloads.push(payload),
        ).flatten_alt(),
        receipt.wire_len == 4 + C::SIZE + payload.len(),
{
    let before = spec_checksum_frames(framer, payloads);
    let after = spec_checksum_frames(framer, payloads.push(payload));
    assert(after.drop_last() =~= before);
    assert(after.last() == written);
}

} // verus!
