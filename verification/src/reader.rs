//! The stream reader: reads frames through a deframer into a reusable buffer
//! and hands out borrowed payloads with their exact wire receipts.
use vstd::prelude::*;

use crate::error::{Error, IoError};
use crate::framing::{
    lemma_flatten_take_next, lemma_flatten_take_prefix, lemma_prefix_split, spec_accepted_frames,
    spec_frame_run, spec_reports_fault, Deframer, RetrySafeDeframer,
};
use crate::io::{ByteSource, CountingReader, SeekSource};
use crate::policy::{MemoryPolicy, NoMemoryPolicy, ReclamationInfo, ReclamationReason};
use crate::wire::le_value;
use crate::writer::FrameReceipt;

verus! {

/// Calls `Vec::capacity`; the capacity is whatever the allocator gave, at
/// least the length.
#[verifier::external_body]
fn vec_capacity(v: &Vec<u8>) -> (r: usize)
    ensures
        r >= v@.len(),
{
    v.capacity()
}

/// Calls `Vec::shrink_to`, which changes capacity and never contents.
#[verifier::external_body]
fn vec_shrink_to(v: &mut Vec<u8>, min_capacity: usize)
    ensures
        final(v)@ == old(v)@,
{
    v.shrink_to(min_capacity)
}

/// `payload` was handed to a processor of type `F`, which answered `out`.
pub open spec fn spec_handed<F: FnMut(&[u8]) -> Result<(), Error>>(payload: Seq<u8>, out: Result<(), Error>) -> bool {
    exists|f: F, p: &[u8]| p@ == payload && #[trigger] call_ensures(f, (p,), out)
}

/// A frame with `payload` and `receipt` was handed to a processor of type
/// `F`, which answered `out`.
pub open spec fn spec_handed_frame<F: for <'p>FnMut(ReadFrame<'p>) -> Result<(), Error>>(
    payload: Seq<u8>,
    receipt: FrameReceipt,
    out: Result<(), Error>,
) -> bool {
    exists|f: F, frame: ReadFrame| frame.payload@ == payload && frame.receipt == receipt && #[trigger] call_ensures(
        f,
        (frame,),
        out,
    )
}

/// The receipt of frame `i` of the run `frames` read from position `start`.
pub open spec fn spec_run_receipt(start: u64, frames: Seq<Seq<u8>>, i: int) -> FrameReceipt {
    FrameReceipt { frame_start: (start + frames.take(i).flatten_alt().len()) as u64, wire_len: frames[i].len() as u64 }
}

/// One successfully decoded frame and its exact wire bounds.
#[derive(Debug, Clone, Copy, PartialEq, Eq)]
pub struct ReadFrame<'a> {
    /// The payload, borrowed from the reader's or the caller's buffer.
    pub payload: &'a [u8],
    /// The frame's position and wire length.
    pub receipt: FrameReceipt,
}

/// A reclamation scheduled for the start of the next read.
#[derive(Debug, Clone, Copy)]
pub struct PendingReclamation {
    pub reason: ReclamationReason,
    pub last_message_size: usize,
    pub capacity_before: usize,
}

/// Installed reader memory-policy state.
#[derive(Debug, Clone)]
pub struct ReaderMemoryPolicy<P> {
    /// The installed policy.
    pub policy: P,
    /// The capacity the buffer is shrunk toward.
    pub baseline_capacity: usize,
    /// A reclamation scheduled for the start of the next read.
    pub pending_reclaim: Option<PendingReclamation>,
}

impl<P> ReaderMemoryPolicy<P> {
    /// The installed policy.
    pub closed spec fn policy(&self) -> P {
        self.policy
    }

    /// The baseline capacity cached at installation.
    pub closed spec fn baseline(&self) -> usize {
        self.baseline_capacity
    }

    /// The reclamation scheduled for the next read, if any.
    pub closed spec fn pending(&self) -> Option<PendingReclamation> {
        self.pending_reclaim
    }
}

impl<P: MemoryPolicy> ReaderMemoryPolicy<P> {
    /// Installs `policy`, caching its baseline capacity.
    pub fn new(policy: P) -> (r: Self)
        ensures
            r.pending() is None,
    {
        let baseline_capacity = policy.baseline_capacity();
        ReaderMemoryPolicy { policy, baseline_capacity, pending_reclaim: None }
    }
}

/// The reader's hooks into its memory state, around each read.
pub trait ReaderMemoryBackend: Send {
    /// Runs before a read, when no payload of the reader is borrowed.
    fn before_read(&mut self, buffer: &mut Vec<u8>);

    /// Observes a successful read of a `last_message_size`-byte payload.
    fn after_read(&mut self, buffer_capacity: usize, last_message_size: usize);
}

impl ReaderMemoryBackend for NoMemoryPolicy {
    fn before_read(&mut self, _buffer: &mut Vec<u8>)
        ensures
            final(_buffer)@ == old(_buffer)@,
    {
    }

    fn after_read(&mut self, _buffer_capacity: usize, _last_message_size: usize) {
    }
}

impl<P: MemoryPolicy> ReaderMemoryBackend for ReaderMemoryPolicy<P> {
    /// Applies a scheduled reclamation: clears the buffer and shrinks it
    /// toward the baseline, then reports the event to the policy.
    fn before_read(&mut self, buffer: &mut Vec<u8>)
        ensures
            final(self).pending() is None,
            final(self).baseline() == old(self).baseline(),
            old(self).pending() is None ==> final(buffer)@ == old(buffer)@ && *final(self) == *old(self),
            old(self).pending() is Some ==> final(buffer)@ == Seq::<u8>::empty(),
            old(self).pending() matches Some(p) ==> (old(self).policy().obeys_memory_policy_spec() ==> exists|
                capacity_after: usize,
            |
                #[trigger] old(self).policy().spec_reclaimed(
                    &final(self).policy(),
                    ReclamationInfo {
                        reason: p.reason,
                        last_message_size: p.last_message_size,
                        capacity_before: p.capacity_before,
                        capacity_after,
                    },
                )),
    {
        match self.pending_reclaim {
            Some(pending) => {
                self.pending_reclaim = None;
                buffer.clear();
                vec_shrink_to(buffer, self.baseline_capacity);
                let capacity_after = vec_capacity(buffer);
                let info = ReclamationInfo {
                    reason: pending.reason,
                    last_message_size: pending.last_message_size,
                    capacity_before: pending.capacity_before,
                    capacity_after,
                };
                self.policy.on_reclaim(&info);
                proof {
                    let p = old(self).pending()->0;
                    assert(old(self).policy().obeys_memory_policy_spec() ==> old(self).policy().spec_reclaimed(
                        &self.policy(),
                        ReclamationInfo {
                            reason: p.reason,
                            last_message_size: p.last_message_size,
                            capacity_before: p.capacity_before,
                            capacity_after,
                        },
                    ));
                }
            },
            None => {},
        }
    }

    /// Consults the policy only while the capacity exceeds the baseline; a
    /// reset it requests is scheduled for the next read.
    fn after_read(&mut self, buffer_capacity: usize, last_message_size: usize)
        ensures
            final(self).baseline() == old(self).baseline(),
            buffer_capacity <= old(self).baseline() ==> *final(self) == *old(self),
            final(self).pending() != old(self).pending() ==> (final(self).pending() matches Some(p)
                && p.last_message_size == last_message_size && p.capacity_before == buffer_capacity),
            buffer_capacity > old(self).baseline() && old(self).policy().obeys_memory_policy_spec()
                ==> exists|next: P, decision: Option<ReclamationReason>|
                #[trigger] old(self).policy().spec_decides(
                    &next,
                    last_message_size,
                    buffer_capacity,
                    decision,
                ) && final(self).policy() == next && match decision {
                    Some(reason) => final(self).pending() matches Some(p) && p.reason == reason
                        && p.last_message_size == last_message_size && p.capacity_before == buffer_capacity,
                    None => final(self).pending() == old(self).pending(),
                },
    {
        if buffer_capacity <= self.baseline_capacity {
            return ;
        }
        match self.policy.should_reset(last_message_size, buffer_capacity) {
            Some(reason) => {
                self.pending_reclaim = Some(
                    PendingReclamation {
                        reason,
                        last_message_size,
                        capacity_before: buffer_capacity,
                    },
                );
            },
            None => {},
        }
    }
}

/// Reads the one frame that starts at the absolute offset `offset` of a
/// repositionable source, into caller-owned scratch.
///
/// Seeks to `offset`, then deframes exactly one frame. `Ok(None)` is a clean
/// end of the input at `offset`; the end of the input after part of a frame is
/// `UnexpectedEof`, and the same call may simply be repeated later (a live
/// file follower), since it seeks back first. The receipt starts at `offset`
/// and spans exactly the bytes the deframer consumed.
pub fn read_frame_at<'a, R: SeekSource, D: RetrySafeDeframer>(
    src: &mut R,
    deframer: &D,
    offset: u64,
    scratch: &'a mut Vec<u8>,
) -> (r: Result<Option<ReadFrame<'a>>, Error>)
    ensures
        r matches Ok(Some(frame)) ==> frame.receipt.frame_start == offset && offset + frame.receipt.wire_len
            <= u64::MAX,
        deframer.obeys_deframer_spec() ==> {
            &&& (r matches Ok(Some(frame)) ==> frame.receipt.wire_len > 0 && exists|consumed: Seq<u8>|
                #![trigger deframer.spec_accepts(consumed)]
                deframer.spec_accepts(consumed) == Some(frame.payload@) && consumed.len()
                    == frame.receipt.wire_len)
            &&& (old(src).spec_data() matches Some(d) ==> match r {
                Ok(Some(frame)) => offset + frame.receipt.wire_len <= d.len() && deframer.spec_accepts(
                    d.subrange(offset as int, offset + frame.receipt.wire_len),
                ) == Some(frame.payload@),
                Ok(None) => offset >= d.len() || offset == u64::MAX,
                Err(_) => true,
            })
            &&& (old(src).spec_data() matches Some(d) ==> (offset >= d.len() && offset < u64::MAX ==> r matches Ok(
                None,
            )))
            &&& (old(src).spec_data() matches Some(d) ==> forall|f: Seq<u8>|
                #![trigger deframer.spec_accepts(f)]
                offset <= d.len() && f.len() >= 4 && f.is_prefix_of(d.skip(offset as int))
                    && deframer.spec_accepts(f) is Some && offset + f.len() <= u64::MAX ==> (r matches Ok(
                    Some(frame),
                ) && frame.receipt.wire_len == f.len() && deframer.spec_accepts(f) == Some(frame.payload@)))
            &&& (old(src).spec_data() matches Some(d) ==> (offset < d.len() && d.len() < u64::MAX && (d.len()
                - offset < 4 || (deframer.spec_torn(d.skip(offset as int)) && deframer.spec_length_ok(
                le_value(d.skip(offset as int).take(4)) as int,
            ))) ==> (r matches Err(e) && e.is_unexpected_eof())))
            &&& (old(src).spec_data() matches Some(d) ==> (offset < d.len() && d.len() < u64::MAX && d.len() - offset
                >= 4 && d.len() - offset >= deframer.spec_header_len() && !deframer.spec_length_ok(
                le_value(d.skip(offset as int).take(4)) as int,
            ) ==> (r matches Err(e) && e.is_invalid_frame())))
        },
{
    let ghost data = src.spec_data();
    match src.seek_to(offset) {
        Ok(()) => {},
        Err(e) => {
            return Err(Error::io(e));
        },
    }
    let mut reader = CountingReader::with_position(src, offset);
    let ghost r0 = reader;
    proof {
        reader.lemma_follows_refl();
    }
    let result = deframer.read_and_deframe(&mut reader, scratch);
    proof {
        reader.lemma_extends_position(&r0);
        if let Some(d) = data {
            let c = if offset <= d.len() {
                d.skip(offset as int)
            } else {
                Seq::<u8>::empty()
            };
            assert(r0.content() == Some(c));
            if offset >= d.len() {
                assert(c =~= Seq::<u8>::empty());
            }
            let consumed = reader.delivered_since(&r0);
            if offset <= d.len() {
                assert(d.subrange(offset as int, offset + consumed.len()) =~= c.take(consumed.len() as int));
            }
        }
    }
    match result {
        Ok(Some(n)) => {
            if n > scratch.len() {
                return Err(
                    Error::invalid_frame("deframer returned a payload length beyond its scratch buffer"),
                );
            }
            let wire_len = reader.count() - offset;
            let payload = vstd::slice::slice_subrange(scratch.as_slice(), 0, n);
            proof {
                assert(payload@ =~= scratch@.take(n as int));
                let consumed = reader.delivered_since(&r0);
                if deframer.obeys_deframer_spec() {
                    assert(deframer.spec_accepts(consumed) == Some(payload@));
                }
            }
            Ok(Some(ReadFrame { payload, receipt: FrameReceipt { frame_start: offset, wire_len } }))
        },
        Ok(None) => {
            if reader.count() != offset {
                return Err(Error::unexpected_eof());
            }
            Ok(None)
        },
        Err(e) => Err(e),
    }
}

/// A reader of framed messages from a byte source.
///
/// Payloads are borrowed from the reader's buffer and valid until the next
/// read. A read that fails after consuming part of a frame poisons the reader:
/// its position is no longer a frame boundary, and later reads are rejected.
pub struct StreamReader<R: ByteSource, D: Deframer, M = NoMemoryPolicy> {
    reader: CountingReader<R>,
    deframer: D,
    buffer: Vec<u8>,
    memory: M,
    poisoned: bool,
}

impl<R: ByteSource, D: Deframer, M> StreamReader<R, D, M> {
    /// Every byte consumed from the source, in order.
    pub closed spec fn consumed(&self) -> Seq<u8> {
        self.reader.history()
    }

    /// The stream position: the start offset plus the bytes consumed.
    pub closed spec fn position(&self) -> u64 {
        self.reader.position()
    }

    /// Whether a failed read poisoned the reader.
    pub closed spec fn spec_poisoned(&self) -> bool {
        self.poisoned
    }

    /// The deframing strategy.
    pub closed spec fn spec_deframer(&self) -> D {
        self.deframer
    }

    /// The installed memory state.
    pub closed spec fn memory(&self) -> M {
        self.memory
    }

    /// The wrapped source.
    pub closed spec fn source(&self) -> R {
        self.reader.source()
    }

    /// The position accounts for exactly the bytes consumed.
    pub closed spec fn inv(&self) -> bool {
        self.reader.inv()
    }

    /// The position is the start offset plus the bytes consumed since `prev`,
    /// and what was consumed before stays consumed.
    pub closed spec fn continues(&self, prev: &Self) -> bool {
        self.reader.extends(&prev.reader)
    }

    /// The bytes consumed since `prev`.
    pub open spec fn consumed_since(&self, prev: &Self) -> Seq<u8> {
        self.consumed().skip(prev.consumed().len() as int)
    }

    /// What the source will still deliver, when it says.
    pub closed spec fn content(&self) -> Option<Seq<u8>> {
        self.reader.content()
    }

    /// Since `prev`, the reader consumed a prefix of what the source promised
    /// then, and the source promises the rest.
    pub closed spec fn follows_source(&self, prev: &Self) -> bool {
        self.reader.follows_content(&prev.reader)
    }

    /// The source has nothing more to deliver, or the position cannot advance.
    pub closed spec fn at_end(&self) -> bool {
        self.reader.drained()
    }

    /// Whether the source answered the latest read with its end of input
    /// (zero bytes for a non-empty range), rather than data or a fault.
    pub closed spec fn source_ended(&self) -> bool {
        self.reader.ended()
    }

    /// The error the source's latest read failed with, if it failed.
    pub closed spec fn source_fault(&self) -> Option<IoError> {
        self.reader.last_fault()
    }

    /// The position accounts for exactly the bytes consumed: after any
    /// sequence of reads it moved by the number of bytes consumed since.
    pub proof fn lemma_position_counts_consumed(&self, prev: &Self)
        requires
            prev.inv(),
            self.continues(prev),
        ensures
            self.position() == prev.position() + self.consumed_since(prev).len(),
    {
        self.reader.lemma_extends_position(&prev.reader);
    }

    /// A reader that reached the end after following its source from `prev`
    /// consumed all the source promised then (unless that would have run the
    /// position past `u64::MAX`).
    pub proof fn lemma_at_end_consumed_all(&self, prev: &Self)
        requires
            self.continues(prev),
            self.follows_source(prev),
            prev.inv(),
            prev.content() is Some ==> self.at_end(),
        ensures
            prev.content() matches Some(c) ==> (prev.position() + c.len() < u64::MAX
                ==> self.consumed_since(prev) == c),
    {
        self.reader.lemma_drained_delivered_all(&prev.reader);
    }
}

/// Consecutive read receipts tile the stream: when two successive reads each
/// returned a frame, the second starts exactly where the first ends, and the
/// two wire lengths together account for every byte consumed since the
/// first began.
pub proof fn lemma_read_receipts_tile<R: ByteSource, D: Deframer, M>(
    r0: StreamReader<R, D, M>,
    r1: StreamReader<R, D, M>,
    r2: StreamReader<R, D, M>,
    first: FrameReceipt,
    second: FrameReceipt,
)
    requires
        r0.inv(),
        r1.inv(),
        r1.continues(&r0),
        r2.continues(&r1),
        first.frame_start == r0.position(),
        first.wire_len == r1.consumed_since(&r0).len(),
        second.frame_start == r1.position(),
        second.wire_len == r2.consumed_since(&r1).len(),
    ensures
        second.frame_start == first.spec_end(),
        first.frame_start + first.wire_len + second.wire_len == r2.position(),
        r2.consumed_since(&r0) == r1.consumed_since(&r0) + r2.consumed_since(&r1),
{
    r1.reader.lemma_extends_position(&r0.reader);
    r2.reader.lemma_extends_position(&r1.reader);
    r2.reader.lemma_extends_trans(&r1.reader, &r0.reader);
}

impl<R: ByteSource, D: Deframer> StreamReader<R, D, NoMemoryPolicy> {
    /// A reader over `reader` using `deframer`, at stream position zero.
    pub fn new(reader: R, deframer: D) -> (r: Self)
        ensures
            r.inv(),
            r.consumed() == Seq::<u8>::empty(),
            r.position() == 0,
            !r.spec_poisoned(),
            r.spec_deframer() == deframer,
            r.source() == reader,
            r.content() == reader.spec_content(),
    {
        StreamReader {
            reader: CountingReader::new(reader),
            deframer,
            buffer: Vec::new(),
            memory: NoMemoryPolicy,
            poisoned: false,
        }
    }

    /// Like [`new`](Self::new), with a pre-allocated buffer capacity.
    pub fn with_capacity(reader: R, deframer: D, capacity: usize) -> (r: Self)
        ensures
            r.inv(),
            r.consumed() == Seq::<u8>::empty(),
            r.position() == 0,
            !r.spec_poisoned(),
            r.spec_deframer() == deframer,
            r.source() == reader,
            r.content() == reader.spec_content(),
    {
        StreamReader {
            reader: CountingReader::new(reader),
            deframer,
            buffer: Vec::with_capacity(capacity),
            memory: NoMemoryPolicy,
            poisoned: false,
        }
    }
}

impl<R: ByteSource, D: Deframer, M: ReaderMemoryBackend> StreamReader<R, D, M> {
    /// Installs a memory reclamation policy; the reader is otherwise unchanged.
    #[must_use]
    pub fn with_memory_policy<P: MemoryPolicy>(self, policy: P) -> (r: StreamReader<
        R,
        D,
        ReaderMemoryPolicy<P>,
    >)
        requires
            self.inv(),
        ensures
            r.inv(),
            r.consumed() == self.consumed(),
            r.position() == self.position(),
            r.spec_poisoned() == self.spec_poisoned(),
            r.spec_deframer() == self.spec_deframer(),
            r.source() == self.source(),
            r.content() == self.content(),
            r.memory().pending() is None,
    {
        StreamReader {
            reader: self.reader,
            deframer: self.deframer,
            buffer: self.buffer,
            memory: ReaderMemoryPolicy::new(policy),
            poisoned: self.poisoned,
        }
    }

    /// Reads one frame and returns its payload with its exact wire bounds.
    ///
    /// The receipt starts at the position before the read and spans exactly
    /// the bytes consumed. `Ok(None)` is a clean end of the input at a frame
    /// boundary. A failure that consumed any byte poisons the reader; a
    /// poisoned reader rejects the read without touching the source.
    pub fn read_message_with_receipt(&mut self) -> (r: Result<Option<ReadFrame<'_>>, Error>)
        requires
            old(self).inv(),
        ensures
            final(self).inv(),
            final(self).continues(&*old(self)),
            final(self).spec_deframer() == old(self).spec_deframer(),
            old(self).spec_poisoned() ==> (r matches Err(e) && e.is_poisoned()
                && final(self).consumed_since(&*old(self)) == Seq::<u8>::empty()
                && final(self).spec_poisoned()),
            !old(self).spec_poisoned() ==> match r {
                Ok(Some(frame)) => {
                    &&& frame.receipt.frame_start == old(self).position()
                    &&& frame.receipt.wire_len == final(self).consumed_since(&*old(self)).len()
                    &&& frame.receipt.wire_len > 0
                    &&& !final(self).spec_poisoned()
                },
                Ok(None) => {
                    &&& final(self).consumed_since(&*old(self)) == Seq::<u8>::empty()
                    &&& !final(self).spec_poisoned()
                },
                Err(_) => final(self).spec_poisoned() == (final(self).consumed_since(
                    &*old(self),
                ).len() > 0),
            },
            final(self).follows_source(&*old(self)),
            !old(self).spec_poisoned() && old(self).spec_deframer().obeys_deframer_spec() ==> {
                &&& (old(self).content() is Some ==> (r matches Ok(None) ==> final(self).at_end()))
                &&& (r matches Ok(None) ==> final(self).source_ended())
                &&& (r matches Err(e) ==> (e.is_unexpected_eof() ==> final(self).source_ended()))
                &&& (r matches Err(e) ==> spec_reports_fault(e, final(self).source_fault()))
                &&& (r matches Ok(Some(frame)) ==> old(self).spec_deframer().spec_accepts(final(self).consumed_since(&*old(self)))
                    == Some(frame.payload@))
                &&& (old(self).content() == Some(Seq::<u8>::empty()) && old(self).position() < u64::MAX
                    ==> r matches Ok(None))
                &&& (old(self).content() matches Some(c) ==> forall|f: Seq<u8>|
                    #![trigger old(self).spec_deframer().spec_accepts(f)]
                    f.len() >= 4 && f.is_prefix_of(c) && old(self).spec_deframer().spec_accepts(f) is Some
                        && old(self).position() + f.len() <= u64::MAX ==> (r matches Ok(Some(frame))
                        && final(self).consumed_since(&*old(self)) == f
                        && old(self).spec_deframer().spec_accepts(f) == Some(frame.payload@)))
                &&& (old(self).content() matches Some(c) ==> (c.len() > 0 && (c.len() < 4 || (
                old(self).spec_deframer().spec_torn(c) && old(self).spec_deframer().spec_length_ok(
                    le_value(c.take(4)) as int,
                ))) && old(self).position() + c.len() < u64::MAX ==> (r matches Err(e)
                    && e.is_unexpected_eof() && final(self).spec_poisoned()
                    && final(self).consumed_since(&*old(self)) == c)))
                &&& (old(self).content() matches Some(c) ==> (c.len() >= 4 && c.len() >= old(self).spec_deframer().spec_header_len()
                    && !old(self).spec_deframer().spec_length_ok(le_value(c.take(4)) as int) && old(self).position() + c.len()
                    < u64::MAX ==> (r matches Err(e) && e.is_invalid_frame())))
            },
    {
        if self.poisoned {
            proof {
                self.reader.lemma_extends_refl();
                self.reader.lemma_follows_refl();
            }
            return Err(Error::poisoned());
        }
        self.memory.before_read(&mut self.buffer);
        let frame_start = self.reader.count();
        let ghost r0 = self.reader;
        let result = self.deframer.read_and_deframe(&mut self.reader, &mut self.buffer);
        proof {
            self.reader.lemma_extends_position(&r0);
        }
        match result {
            Ok(Some(n)) => {
                if n > self.buffer.len() {
                    self.poisoned = true;
                    return Err(
                        Error::invalid_frame("deframer returned a payload length beyond its buffer"),
                    );
                }
                let capacity = vec_capacity(&self.buffer);
                self.memory.after_read(capacity, n);
                let wire_len = self.reader.count() - frame_start;
                let payload = vstd::slice::slice_subrange(self.buffer.as_slice(), 0, n);
                proof {
                    assert(payload@ =~= self.buffer@.take(n as int));
                }
                Ok(Some(ReadFrame { payload, receipt: FrameReceipt { frame_start, wire_len } }))
            },
            Ok(None) => {
                if self.reader.count() != frame_start {
                    self.poisoned = true;
                    return Err(Error::unexpected_eof());
                }
                Ok(None)
            },
            Err(error) => {
                if self.reader.count() != frame_start {
                    self.poisoned = true;
                }
                proof {
                    if self.deframer.obeys_deframer_spec() && error.is_unexpected_eof() {
                        self.reader.lemma_drained_delivered_all(&r0);
                    }
                }
                Err(error)
            },
        }
    }

    /// Reads the next message: `Ok(Some(payload))`, or `Ok(None)` on a clean
    /// end of the input. The same contract as
    /// [`read_message_with_receipt`](Self::read_message_with_receipt).
    pub fn read_message(&mut self) -> (r: Result<Option<&[u8]>, Error>)
        requires
            old(self).inv(),
        ensures
            final(self).inv(),
            final(self).continues(&*old(self)),
            final(self).spec_deframer() == old(self).spec_deframer(),
            old(self).spec_poisoned() ==> (r matches Err(e) && e.is_poisoned()
                && final(self).consumed_since(&*old(self)) == Seq::<u8>::empty()
                && final(self).spec_poisoned()),
            !old(self).spec_poisoned() ==> match r {
                Ok(Some(payload)) => final(self).consumed_since(&*old(self)).len() > 0
                    && !final(self).spec_poisoned(),
                Ok(None) => {
                    &&& final(self).consumed_since(&*old(self)) == Seq::<u8>::empty()
                    &&& !final(self).spec_poisoned()
                },
                Err(_) => final(self).spec_poisoned() == (final(self).consumed_since(
                    &*old(self),
                ).len() > 0),
            },
            final(self).follows_source(&*old(self)),
            !old(self).spec_poisoned() && old(self).spec_deframer().obeys_deframer_spec() ==> {
                &&& (old(self).content() is Some ==> (r matches Ok(None) ==> final(self).at_end()))
                &&& (r matches Ok(None) ==> final(self).source_ended())
                &&& (r matches Err(e) ==> (e.is_unexpected_eof() ==> final(self).source_ended()))
                &&& (r matches Err(e) ==> spec_reports_fault(e, final(self).source_fault()))
                &&& (r matches Ok(Some(payload)) ==> old(self).spec_deframer().spec_accepts(final(self).consumed_since(&*old(self)))
                    == Some(payload@))
                &&& (old(self).content() == Some(Seq::<u8>::empty()) && old(self).position() < u64::MAX
                    ==> r matches Ok(None))
                &&& (old(self).content() matches Some(c) ==> forall|f: Seq<u8>|
                    #![trigger old(self).spec_deframer().spec_accepts(f)]
                    f.len() >= 4 && f.is_prefix_of(c) && old(self).spec_deframer().spec_accepts(f) is Some
                        && old(self).position() + f.len() <= u64::MAX ==> (r matches Ok(Some(payload))
                        && final(self).consumed_since(&*old(self)) == f
                        && old(self).spec_deframer().spec_accepts(f) == Some(payload@)))
                &&& (old(self).content() matches Some(c) ==> (c.len() > 0 && (c.len() < 4 || (
                old(self).spec_deframer().spec_torn(c) && old(self).spec_deframer().spec_length_ok(
                    le_value(c.take(4)) as int,
                ))) && old(self).position() + c.len() < u64::MAX ==> (r matches Err(e)
                    && e.is_unexpected_eof() && final(self).spec_poisoned()
                    && final(self).consumed_since(&*old(self)) == c)))
                &&& (old(self).content() matches Some(c) ==> (c.len() >= 4 && c.len() >= old(self).spec_deframer().spec_header_len()
                    && !old(self).spec_deframer().spec_length_ok(le_value(c.take(4)) as int) && old(self).position() + c.len()
                    < u64::MAX ==> (r matches Err(e) && e.is_invalid_frame())))
            },
    {
        match self.read_message_with_receipt() {
            Ok(Some(frame)) => Ok(Some(frame.payload)),
            Ok(None) => Ok(None),
            Err(e) => Err(e),
        }
    }

    /// Reads every remaining message and hands each payload to `processor`,
    /// stopping at the first error (from reading or from the processor) or at
    /// a clean end of the input.
    pub fn process_all<F>(&mut self, processor: F) -> (r: Result<(), Error>)
        where
            F: FnMut(&[u8]) -> Result<(), Error>,
        requires
            old(self).inv(),
            forall|f: F, p: &[u8]| #[trigger] call_requires(f, (p,)),
        ensures
            final(self).inv(),
            final(self).continues(&*old(self)),
            final(self).spec_deframer() == old(self).spec_deframer(),
            r is Ok ==> !final(self).spec_poisoned(),
            old(self).spec_deframer().obeys_deframer_spec() ==> {
                &&& (r is Ok ==> exists|frames: Seq<Seq<u8>>, payloads: Seq<Seq<u8>>|
                    #[trigger] spec_accepted_frames(old(self).spec_deframer(), frames, payloads)
                        && frames.flatten_alt() == final(self).consumed_since(&*old(self))
                        && forall|i: int| 0 <= i < payloads.len() ==> #[trigger] spec_handed::<F>(payloads[i], Ok(())))
                &&& (r is Ok ==> (old(self).content() matches Some(c) ==> (old(self).position() + c.len()
                    < u64::MAX ==> final(self).consumed_since(&*old(self)) == c)))
                &&& (r matches Err(e) ==> exists|frames: Seq<Seq<u8>>, payloads: Seq<Seq<u8>>|
                    #[trigger] spec_accepted_frames(old(self).spec_deframer(), frames, payloads) && ((
                    (forall|i: int| 0 <= i < payloads.len() ==> #[trigger] spec_handed::<F>(payloads[i], Ok(())))
                        && frames.flatten_alt().is_prefix_of(final(self).consumed_since(&*old(self))) && (
                    old(self).spec_poisoned() || final(self).spec_poisoned() == (final(self).consumed_since(
                        &*old(self),
                    ).len() > frames.flatten_alt().len()))) || (payloads.len() > 0 && (forall|i: int|
                        0 <= i < payloads.len() - 1 ==> #[trigger] spec_handed::<F>(payloads[i], Ok(())))
                        && spec_handed::<F>(payloads.last(), Err(e)) && frames.flatten_alt()
                        == final(self).consumed_since(&*old(self)) && !final(self).spec_poisoned())))
            },
            old(self).spec_deframer().obeys_deframer_spec() && !old(self).spec_poisoned() && (forall|f: F, p: &[u8], out: Result<(), Error>| #[trigger] call_ensures(f, (p,), out) ==> out is Ok)
                && old(self).content() is Some && old(self).position() + old(self).content()->0.len()
                < u64::MAX && (exists|frames: Seq<Seq<u8>>, payloads: Seq<Seq<u8>>|
                #[trigger] spec_frame_run(old(self).spec_deframer(), old(self).content()->0, frames, payloads))
                ==> r is Ok && final(self).consumed_since(&*old(self)) == old(self).content()->0,
    {
        let mut processor = processor;
        let ghost mut frames: Seq<Seq<u8>> = Seq::empty();
        let ghost mut payloads: Seq<Seq<u8>> = Seq::empty();
        let ghost owed: bool = old(self).spec_deframer().obeys_deframer_spec() && !old(self).spec_poisoned() && (
        forall|f: F, p: &[u8], out: Result<(), Error>| #[trigger] call_ensures(f, (p,), out) ==> out is Ok) && old(self).content() is Some && old(self).position()
            + old(self).content()->0.len() < u64::MAX && (exists|frames: Seq<Seq<u8>>, payloads: Seq<Seq<u8>>|
            #[trigger] spec_frame_run(old(self).spec_deframer(), old(self).content()->0, frames, payloads));
        let ghost run: (Seq<Seq<u8>>, Seq<Seq<u8>>) = if owed {
            choose|frames: Seq<Seq<u8>>, payloads: Seq<Seq<u8>>|
                #[trigger] spec_frame_run(old(self).spec_deframer(), old(self).content()->0, frames, payloads)
        } else {
            (Seq::empty(), Seq::empty())
        };
        proof {
            self.reader.lemma_extends_refl();
            self.reader.lemma_follows_refl();
        }
        loop
            invariant
                self.inv(),
                self.continues(&*old(self)),
                self.spec_deframer() == old(self).spec_deframer(),
                self.spec_deframer().obeys_deframer_spec() ==> spec_accepted_frames(
                    self.spec_deframer(),
                    frames,
                    payloads,
                ),
                frames.flatten_alt() == self.consumed_since(&*old(self)),
                forall|i: int| 0 <= i < payloads.len() ==> #[trigger] spec_handed::<F>(payloads[i], Ok(())),
                !self.spec_poisoned() || old(self).spec_poisoned(),
                self.follows_source(&*old(self)),
                old(self).inv(),
                forall|f: F, p: &[u8]| #[trigger] call_requires(f, (p,)),
                owed == (old(self).spec_deframer().obeys_deframer_spec() && !old(self).spec_poisoned() && (
                forall|f: F, p: &[u8], out: Result<(), Error>| #[trigger] call_ensures(f, (p,), out) ==> out is Ok) && old(self).content() is Some && old(self).position()
                    + old(self).content()->0.len() < u64::MAX && (exists|
                    frames: Seq<Seq<u8>>,
                    payloads: Seq<Seq<u8>>,
                | #[trigger] spec_frame_run(old(self).spec_deframer(), old(self).content()->0, frames, payloads))),
                owed ==> {
                    &&& spec_frame_run(old(self).spec_deframer(), old(self).content()->0, run.0, run.1)
                    &&& frames.len() <= run.0.len()
                    &&& frames == run.0.take(frames.len() as int)
                    &&& !self.spec_poisoned()
                },
            decreases u64::MAX - self.position(),
        {
            let ghost before = *self;
            let ghost mut got: Seq<u8> = Seq::empty();
            let ghost mut refused = false;
            proof {
                if owed {
                    let c = old(self).content()->0;
                    let k = frames.len() as int;
                    self.lemma_position_counts_consumed(&*old(self));
                    assert(self.content() == Some(c.skip(frames.flatten_alt().len() as int)));
                    lemma_flatten_take_prefix(run.0, k);
                    if k < run.0.len() {
                        let f = run.0[k];
                        lemma_flatten_take_next(run.0, k);
                        lemma_flatten_take_prefix(run.0, k + 1);
                        lemma_prefix_split(run.0.take(k).flatten_alt(), f, c);
                        assert(f.is_prefix_of(c.skip(frames.flatten_alt().len() as int))) by {
                            assert(c.skip(frames.flatten_alt().len() as int).subrange(0, f.len() as int) =~= f);
                        }
                        assert(self.spec_deframer().spec_accepts(f) == Some(run.1[k]));
                        assert(f.len() >= 4);
                    } else {
                        assert(run.0.take(k) =~= run.0);
                        assert(c.skip(c.len() as int) =~= Seq::<u8>::empty());
                    }
                }
            }
            let next = self.read_message();
            let outcome: Option<Result<(), Error>> = match next {
                Ok(Some(payload)) => {
                    proof {
                        got = payload@;
                    }
                    let ghost handler = processor;
                    let answer = processor(payload);
                    proof {
                        assert(spec_handed::<F>(got, answer)) by {
                            assert(call_ensures(handler, (payload,), answer));
                        }
                    }
                    match answer {
                        Ok(unit) => {
                            proof {
                                assert(answer == Ok::<(), Error>(unit));
                                assert(spec_handed::<F>(got, Ok(())));
                            }
                            None
                        },
                        Err(e) => {
                            proof {
                                refused = true;
                            }
                            Some(Err(e))
                        },
                    }
                },
                Ok(None) => Some(Ok(())),
                Err(e) => Some(Err(e)),
            };
            proof {
                if owed {
                    let k = frames.len() as int;
                    if k < run.0.len() {
                        assert(outcome is None && self.consumed_since(&before) == run.0[k]);
                        assert(run.0.take(k + 1) =~= run.0.take(k).push(run.0[k]));
                    } else {
                        assert(outcome matches Some(Ok(())));
                    }
                }
                self.reader.lemma_follows_trans(&before.reader, &old(self).reader);
                self.reader.lemma_extends_trans(&before.reader, &old(self).reader);
                self.reader.lemma_extends_position(&before.reader);
                if outcome matches Some(Ok(())) && self.spec_deframer().obeys_deframer_spec() {
                    self.lemma_at_end_consumed_all(&*old(self));
                }
                if outcome matches Some(Err(_)) {
                    let all = self.consumed_since(&*old(self));
                    assert(all == before.consumed_since(&*old(self)) + self.consumed_since(&before));
                    assert(all.subrange(0, frames.flatten_alt().len() as int) =~= frames.flatten_alt());
                    if refused {
                        let delta = self.consumed_since(&before);
                        let frames2 = frames.push(delta);
                        let payloads2 = payloads.push(got);
                        assert(frames2.drop_last() =~= frames);
                        assert(frames2.flatten_alt() == all);
                        assert(payloads2.last() == got);
                        assert(forall|i: int| 0 <= i < payloads2.len() - 1 ==> payloads2[i] == payloads[i]);
                        if self.spec_deframer().obeys_deframer_spec() {
                            assert(spec_accepted_frames(self.spec_deframer(), frames2, payloads2));
                        }
                    }
                }
                if outcome is None {
                    let delta = self.consumed_since(&before);
                    assert(frames.push(delta).drop_last() =~= frames);
                    let ghost handed = payloads;
                    frames = frames.push(delta);
                    payloads = payloads.push(got);
                    assert forall|i: int| 0 <= i < payloads.len() implies #[trigger] spec_handed::<F>(payloads[i], Ok(())) by {
                        if i < handed.len() {
                            assert(payloads[i] == handed[i]);
                        }
                    }
                }
            }
            match outcome {
                Some(r) => {
                    return r;
                },
                None => {},
            }
        }
    }

    /// Like [`process_all`](Self::process_all), handing each frame with its receipt.
    pub fn process_all_with_receipt<F>(&mut self, processor: F) -> (r: Result<(), Error>)
        where
            F: for <'p>FnMut(ReadFrame<'p>) -> Result<(), Error>,
        requires
            old(self).inv(),
            forall|f: F, frame: ReadFrame| #[trigger] call_requires(f, (frame,)),
        ensures
            final(self).inv(),
            final(self).continues(&*old(self)),
            final(self).spec_deframer() == old(self).spec_deframer(),
            r is Ok ==> !final(self).spec_poisoned(),
            old(self).spec_deframer().obeys_deframer_spec() ==> {
                &&& (r is Ok ==> exists|frames: Seq<Seq<u8>>, payloads: Seq<Seq<u8>>|
                    #[trigger] spec_accepted_frames(old(self).spec_deframer(), frames, payloads)
                        && frames.flatten_alt() == final(self).consumed_since(&*old(self))
                        && forall|i: int| 0 <= i < payloads.len() ==> #[trigger] spec_handed_frame::<F>(payloads[i], spec_run_receipt(old(self).position(), frames, i), Ok(())))
                &&& (r is Ok ==> (old(self).content() matches Some(c) ==> (old(self).position() + c.len()
                    < u64::MAX ==> final(self).consumed_since(&*old(self)) == c)))
                &&& (r matches Err(e) ==> exists|frames: Seq<Seq<u8>>, payloads: Seq<Seq<u8>>|
                    #[trigger] spec_accepted_frames(old(self).spec_deframer(), frames, payloads) && ((
                    (forall|i: int| 0 <= i < payloads.len() ==> #[trigger] spec_handed_frame::<F>(payloads[i], spec_run_receipt(old(self).position(), frames, i), Ok(())))
                        && frames.flatten_alt().is_prefix_of(final(self).consumed_since(&*old(self))) && (
                    old(self).spec_poisoned() || final(self).spec_poisoned() == (final(self).consumed_since(
                        &*old(self),
                    ).len() > frames.flatten_alt().len()))) || (payloads.len() > 0 && (forall|i: int|
                        0 <= i < payloads.len() - 1 ==> #[trigger] spec_handed_frame::<F>(payloads[i], spec_run_receipt(old(self).position(), frames, i), Ok(())))
                        && spec_handed_frame::<F>(
                        payloads.last(),
                        spec_run_receipt(old(self).position(), frames, payloads.len() - 1),
                        Err(e),
                    ) && frames.flatten_alt() == final(self).consumed_since(&*old(self))
                        && !final(self).spec_poisoned())))
            },
            old(self).spec_deframer().obeys_deframer_spec() && !old(self).spec_poisoned() && (forall|f: F, frame: ReadFrame, out: Result<(), Error>| #[trigger] call_ensures(f, (frame,), out) ==> out is Ok)
                && old(self).content() is Some && old(self).position() + old(self).content()->0.len()
                < u64::MAX && (exists|frames: Seq<Seq<u8>>, payloads: Seq<Seq<u8>>|
                #[trigger] spec_frame_run(old(self).spec_deframer(), old(self).content()->0, frames, payloads))
                ==> r is Ok && final(self).consumed_since(&*old(self)) == old(self).content()->0,
    {
        let mut processor = processor;
        let ghost mut frames: Seq<Seq<u8>> = Seq::empty();
        let ghost mut payloads: Seq<Seq<u8>> = Seq::empty();
        let ghost owed: bool = old(self).spec_deframer().obeys_deframer_spec() && !old(self).spec_poisoned() && (
        forall|f: F, frame: ReadFrame, out: Result<(), Error>| #[trigger] call_ensures(f, (frame,), out) ==> out is Ok) && old(self).content() is Some && old(self).position()
            + old(self).content()->0.len() < u64::MAX && (exists|frames: Seq<Seq<u8>>, payloads: Seq<Seq<u8>>|
            #[trigger] spec_frame_run(old(self).spec_deframer(), old(self).content()->0, frames, payloads));
        let ghost run: (Seq<Seq<u8>>, Seq<Seq<u8>>) = if owed {
            choose|frames: Seq<Seq<u8>>, payloads: Seq<Seq<u8>>|
                #[trigger] spec_frame_run(old(self).spec_deframer(), old(self).content()->0, frames, payloads)
        } else {
            (Seq::empty(), Seq::empty())
        };
        proof {
            self.reader.lemma_extends_refl();
            self.reader.lemma_follows_refl();
        }
        loop
            invariant
                self.inv(),
                self.continues(&*old(self)),
                self.spec_deframer() == old(self).spec_deframer(),
                self.spec_deframer().obeys_deframer_spec() ==> spec_accepted_frames(
                    self.spec_deframer(),
                    frames,
                    payloads,
                ),
                frames.flatten_alt() == self.consumed_since(&*old(self)),
                frames.len() == payloads.len(),
                forall|i: int| 0 <= i < payloads.len() ==> #[trigger] spec_handed_frame::<F>(payloads[i], spec_run_receipt(old(self).position(), frames, i), Ok(())),
                !self.spec_poisoned() || old(self).spec_poisoned(),
                self.follows_source(&*old(self)),
                old(self).inv(),
                forall|f: F, frame: ReadFrame| #[trigger] call_requires(f, (frame,)),
                owed == (old(self).spec_deframer().obeys_deframer_spec() && !old(self).spec_poisoned() && (
                forall|f: F, frame: ReadFrame, out: Result<(), Error>| #[trigger] call_ensures(f, (frame,), out) ==> out is Ok) && old(self).content() is Some && old(self).position()
                    + old(self).content()->0.len() < u64::MAX && (exists|
                    frames: Seq<Seq<u8>>,
                    payloads: Seq<Seq<u8>>,
                | #[trigger] spec_frame_run(old(self).spec_deframer(), old(self).content()->0, frames, payloads))),
                owed ==> {
                    &&& spec_frame_run(old(self).spec_deframer(), old(self).content()->0, run.0, run.1)
                    &&& frames.len() <= run.0.len()
                    &&& frames == run.0.take(frames.len() as int)
                    &&& !self.spec_poisoned()
                },
            decreases u64::MAX - self.position(),
        {
            let ghost before = *self;
            let ghost mut got: Seq<u8> = Seq::empty();
            let ghost mut got_receipt = FrameReceipt { frame_start: 0, wire_len: 0 };
            let ghost mut refused = false;
            proof {
                if owed {
                    let c = old(self).content()->0;
                    let k = frames.len() as int;
                    self.lemma_position_counts_consumed(&*old(self));
                    assert(self.content() == Some(c.skip(frames.flatten_alt().len() as int)));
                    lemma_flatten_take_prefix(run.0, k);
                    if k < run.0.len() {
                        let f = run.0[k];
                        lemma_flatten_take_next(run.0, k);
                        lemma_flatten_take_prefix(run.0, k + 1);
                        lemma_prefix_split(run.0.take(k).flatten_alt(), f, c);
                        assert(f.is_prefix_of(c.skip(frames.flatten_alt().len() as int))) by {
                            assert(c.skip(frames.flatten_alt().len() as int).subrange(0, f.len() as int) =~= f);
                        }
                        assert(self.spec_deframer().spec_accepts(f) == Some(run.1[k]));
                        assert(f.len() >= 4);
                    } else {
                        assert(run.0.take(k) =~= run.0);
                        assert(c.skip(c.len() as int) =~= Seq::<u8>::empty());
                    }
                }
            }
            let next = self.read_message_with_receipt();
            let outcome: Option<Result<(), Error>> = match next {
                Ok(Some(frame)) => {
                    proof {
                        got = frame.payload@;
                        got_receipt = frame.receipt;
                    }
                    let ghost handler = processor;
                    let ghost handed_frame = frame;
                    let answer = processor(frame);
                    proof {
                        assert(spec_handed_frame::<F>(got, got_receipt, answer)) by {
                            assert(call_ensures(handler, (handed_frame,), answer));
                        }
                    }
                    match answer {
                        Ok(unit) => {
                            proof {
                                assert(answer == Ok::<(), Error>(unit));
                                assert(spec_handed_frame::<F>(got, got_receipt, Ok(())));
                            }
                            None
                        },
                        Err(e) => {
                            proof {
                                refused = true;
                            }
                            Some(Err(e))
                        },
                    }
                },
                Ok(None) => Some(Ok(())),
                Err(e) => Some(Err(e)),
            };
            proof {
                if owed {
                    let k = frames.len() as int;
                    if k < run.0.len() {
                        assert(outcome is None && self.consumed_since(&before) == run.0[k]);
                        assert(run.0.take(k + 1) =~= run.0.take(k).push(run.0[k]));
                    } else {
                        assert(outcome matches Some(Ok(())));
                    }
                }
                self.reader.lemma_follows_trans(&before.reader, &old(self).reader);
                self.reader.lemma_extends_trans(&before.reader, &old(self).reader);
                self.reader.lemma_extends_position(&before.reader);
                if outcome matches Some(Ok(())) && self.spec_deframer().obeys_deframer_spec() {
                    self.lemma_at_end_consumed_all(&*old(self));
                }
                if outcome is None || refused {
                    let k = frames.len() as int;
                    let delta = self.consumed_since(&before);
                    before.lemma_position_counts_consumed(&*old(self));
                    assert(frames.push(delta).take(k) =~= frames);
                    assert(got_receipt == spec_run_receipt(old(self).position(), frames.push(delta), k));
                }
                if outcome matches Some(Err(_)) {
                    let all = self.consumed_since(&*old(self));
                    assert(all == before.consumed_since(&*old(self)) + self.consumed_since(&before));
                    assert(all.subrange(0, frames.flatten_alt().len() as int) =~= frames.flatten_alt());
                    if refused {
                        let delta = self.consumed_since(&before);
                        let frames2 = frames.push(delta);
                        let payloads2 = payloads.push(got);
                        assert(frames2.drop_last() =~= frames);
                        assert(frames2.flatten_alt() == all);
                        assert(payloads2.last() == got);
                        assert(forall|i: int| 0 <= i < payloads2.len() - 1 ==> payloads2[i] == payloads[i]);
                        assert forall|i: int| 0 <= i < payloads2.len() - 1 implies #[trigger] spec_handed_frame::<F>(payloads2[i], spec_run_receipt(old(self).position(), frames2, i), Ok(())) by {
                            assert(payloads2[i] == payloads[i]);
                            assert(frames2.take(i) =~= frames.take(i));
                            assert(spec_run_receipt(old(self).position(), frames2, i) == spec_run_receipt(old(self).position(), frames, i));
                        }
                        if self.spec_deframer().obeys_deframer_spec() {
                            assert(spec_accepted_frames(self.spec_deframer(), frames2, payloads2));
                        }
                    }
                }
                if outcome is None {
                    let delta = self.consumed_since(&before);
                    assert(frames.push(delta).drop_last() =~= frames);
                    let ghost handed = payloads;
                    let ghost frames_before = frames;
                    frames = frames.push(delta);
                    payloads = payloads.push(got);
                    assert forall|i: int| 0 <= i < payloads.len() implies #[trigger] spec_handed_frame::<F>(payloads[i], spec_run_receipt(old(self).position(), frames, i), Ok(())) by {
                        if i < handed.len() {
                            assert(payloads[i] == handed[i]);
                            assert(frames.take(i) =~= frames_before.take(i));
                            assert(spec_run_receipt(old(self).position(), frames, i) == spec_run_receipt(old(self).position(), frames_before, i));
                        }
                    }
                }
            }
            match outcome {
                Some(r) => {
                    return r;
                },
                None => {},
            }
        }
    }

    /// The stream position: where the next frame begins after a successful read.
    pub fn bytes_consumed(&self) -> (r: u64)
        ensures
            r == self.position(),
    {
        self.reader.count()
    }

    /// Whether an earlier failed read poisoned this reader.
    pub fn is_poisoned(&self) -> (r: bool)
        ensures
            r == self.spec_poisoned(),
    {
        self.poisoned
    }

    /// Sets the base of the stream position; refused once a byte was consumed
    /// or when poisoned.
    pub fn with_start_offset(self, offset: u64) -> (r: Result<Self, Error>)
        requires
            self.inv(),
        ensures
            r is Ok <==> !self.spec_poisoned() && self.position() == 0,
            r matches Ok(s) ==> s.inv() && s.position() == offset && s.consumed() == self.consumed()
                && s.spec_deframer() == self.spec_deframer() && !s.spec_poisoned() && s.content()
                == self.content(),
            r matches Err(e) ==> if self.spec_poisoned() {
                e.is_poisoned()
            } else {
                e.is_invalid_frame()
            },
    {
        let mut this = self;
        if this.poisoned {
            return Err(Error::poisoned());
        }
        match this.reader.set_start_offset(offset) {
            Ok(()) => Ok(this),
            Err(e) => Err(e),
        }
    }

    /// The deframing strategy.
    pub fn deframer(&self) -> (r: &D)
        ensures
            *r == self.spec_deframer(),
    {
        &self.deframer
    }

    /// The current capacity of the internal buffer.
    pub fn buffer_capacity(&self) -> usize {
        vec_capacity(&self.buffer)
    }

    /// Ensures the buffer can hold `additional` more bytes without reallocation.
    pub fn reserve(&mut self, additional: usize)
        requires
            old(self).inv(),
        ensures
            final(self).inv(),
            final(self).consumed() == old(self).consumed(),
            final(self).position() == old(self).position(),
            final(self).spec_poisoned() == old(self).spec_poisoned(),
            final(self).spec_deframer() == old(self).spec_deframer(),
    {
        self.buffer.reserve(additional)
    }

    /// Consumes the reader, returning the source.
    pub fn into_inner(self) -> (r: R)
        ensures
            r == self.source(),
    {
        self.reader.into_inner()
    }
}


impl<R: ByteSource, D: Deframer, M: ReaderMemoryBackend> StreamReader<R, D, M> {
    /// Manual, iterator-like access to the messages of this reader.
    pub fn messages(&mut self) -> (r: Messages<'_, R, D, M>)
        ensures
            *r.reader() == *old(self),
            *final(self) == *final(r.reader()),
    {
        Messages { reader: self }
    }
}

/// Manual message iteration over a borrowed reader. Each payload is valid
/// until the next call.
pub struct Messages<'a, R: ByteSource, D: Deframer, M = NoMemoryPolicy> {
    reader: &'a mut StreamReader<R, D, M>,
}

impl<'a, R: ByteSource, D: Deframer, M> Messages<'a, R, D, M> {
    /// The borrowed reader.
    pub closed spec fn reader(&self) -> &'a mut StreamReader<R, D, M> {
        self.reader
    }
}

impl<'a, R: ByteSource, D: Deframer, M: ReaderMemoryBackend> Messages<'a, R, D, M> {
    /// The next message: `Ok(Some(payload))`, `Ok(None)` at a clean end of
    /// the input, or the read's error; see [`StreamReader::read_message`].
    pub fn next_message(&mut self) -> (r: Result<Option<&[u8]>, Error>)
        requires
            old(self).reader().inv(),
        ensures
            final(self).reader().inv(),
            final(self).reader().continues(&*old(self).reader()),
            final(self).reader().spec_deframer() == old(self).reader().spec_deframer(),
            old(self).reader().spec_poisoned() ==> (r matches Err(e) && e.is_poisoned()
                && final(self).reader().consumed_since(&*old(self).reader()) == Seq::<u8>::empty()
                && final(self).reader().spec_poisoned()),
            !old(self).reader().spec_poisoned() ==> match r {
                Ok(Some(payload)) => final(self).reader().consumed_since(&*old(self).reader()).len() > 0
                    && !final(self).reader().spec_poisoned(),
                Ok(None) => {
                    &&& final(self).reader().consumed_since(&*old(self).reader()) == Seq::<u8>::empty()
                    &&& !final(self).reader().spec_poisoned()
                },
                Err(_) => final(self).reader().spec_poisoned() == (final(self).reader().consumed_since(
                    &*old(self).reader(),
                ).len() > 0),
            },
            final(self).reader().follows_source(&*old(self).reader()),
            !old(self).reader().spec_poisoned() && old(self).reader().spec_deframer().obeys_deframer_spec() ==> {
                &&& (old(self).reader().content() is Some ==> (r matches Ok(None) ==> final(self).reader().at_end()))
                &&& (r matches Ok(None) ==> final(self).reader().source_ended())
                &&& (r matches Err(e) ==> (e.is_unexpected_eof() ==> final(self).reader().source_ended()))
                &&& (r matches Err(e) ==> spec_reports_fault(e, final(self).reader().source_fault()))
                &&& (r matches Ok(Some(payload)) ==> old(self).reader().spec_deframer().spec_accepts(final(self).reader().consumed_since(&*old(self).reader()))
                    == Some(payload@))
                &&& (old(self).reader().content() == Some(Seq::<u8>::empty()) && old(self).reader().position() < u64::MAX
                    ==> r matches Ok(None))
                &&& (old(self).reader().content() matches Some(c) ==> forall|f: Seq<u8>|
                    #![trigger old(self).reader().spec_deframer().spec_accepts(f)]
                    f.len() >= 4 && f.is_prefix_of(c) && old(self).reader().spec_deframer().spec_accepts(f) is Some
                        && old(self).reader().position() + f.len() <= u64::MAX ==> (r matches Ok(Some(payload))
                        && final(self).reader().consumed_since(&*old(self).reader()) == f
                        && old(self).reader().spec_deframer().spec_accepts(f) == Some(payload@)))
                &&& (old(self).reader().content() matches Some(c) ==> (c.len() > 0 && (c.len() < 4 || (
                old(self).reader().spec_deframer().spec_torn(c) && old(self).reader().spec_deframer().spec_length_ok(
                    le_value(c.take(4)) as int,
                ))) && old(self).reader().position() + c.len() < u64::MAX ==> (r matches Err(e)
                    && e.is_unexpected_eof() && final(self).reader().spec_poisoned()
                    && final(self).reader().consumed_since(&*old(self).reader()) == c)))
                &&& (old(self).reader().content() matches Some(c) ==> (c.len() >= 4 && c.len() >= old(self).reader().spec_deframer().spec_header_len()
                    && !old(self).reader().spec_deframer().spec_length_ok(le_value(c.take(4)) as int) && old(self).reader().position() + c.len()
                    < u64::MAX ==> (r matches Err(e) && e.is_invalid_frame())))
            },
    {
        self.reader.read_message()
    }

    /// The next message with its exact wire receipt; see
    /// [`StreamReader::read_message_with_receipt`].
    pub fn next_with_receipt(&mut self) -> (r: Result<Option<ReadFrame<'_>>, Error>)
        requires
            old(self).reader().inv(),
        ensures
            final(self).reader().inv(),
            final(self).reader().continues(&*old(self).reader()),
            final(self).reader().spec_deframer() == old(self).reader().spec_deframer(),
            old(self).reader().spec_poisoned() ==> (r matches Err(e) && e.is_poisoned()
                && final(self).reader().consumed_since(&*old(self).reader()) == Seq::<u8>::empty()
                && final(self).reader().spec_poisoned()),
            !old(self).reader().spec_poisoned() ==> match r {
                Ok(Some(frame)) => {
                    &&& frame.receipt.frame_start == old(self).reader().position()
                    &&& frame.receipt.wire_len == final(self).reader().consumed_since(&*old(self).reader()).len()
                    &&& frame.receipt.wire_len > 0
                    &&& !final(self).reader().spec_poisoned()
                },
                Ok(None) => {
                    &&& final(self).reader().consumed_since(&*old(self).reader()) == Seq::<u8>::empty()
                    &&& !final(self).reader().spec_poisoned()
                },
                Err(_) => final(self).reader().spec_poisoned() == (final(self).reader().consumed_since(
                    &*old(self).reader(),
                ).len() > 0),
            },
            final(self).reader().follows_source(&*old(self).reader()),
            !old(self).reader().spec_poisoned() && old(self).reader().spec_deframer().obeys_deframer_spec() ==> {
                &&& (old(self).reader().content() is Some ==> (r matches Ok(None) ==> final(self).reader().at_end()))
                &&& (r matches Ok(None) ==> final(self).reader().source_ended())
                &&& (r matches Err(e) ==> (e.is_unexpected_eof() ==> final(self).reader().source_ended()))
                &&& (r matches Err(e) ==> spec_reports_fault(e, final(self).reader().source_fault()))
                &&& (r matches Ok(Some(frame)) ==> old(self).reader().spec_deframer().spec_accepts(final(self).reader().consumed_since(&*old(self).reader()))
                    == Some(frame.payload@))
                &&& (old(self).reader().content() == Some(Seq::<u8>::empty()) && old(self).reader().position() < u64::MAX
                    ==> r matches Ok(None))
                &&& (old(self).reader().content() matches Some(c) ==> forall|f: Seq<u8>|
                    #![trigger old(self).reader().spec_deframer().spec_accepts(f)]
                    f.len() >= 4 && f.is_prefix_of(c) && old(self).reader().spec_deframer().spec_accepts(f) is Some
                        && old(self).reader().position() + f.len() <= u64::MAX ==> (r matches Ok(Some(frame))
                        && final(self).reader().consumed_since(&*old(self).reader()) == f
                        && old(self).reader().spec_deframer().spec_accepts(f) == Some(frame.payload@)))
                &&& (old(self).reader().content() matches Some(c) ==> (c.len() > 0 && (c.len() < 4 || (
                old(self).reader().spec_deframer().spec_torn(c) && old(self).reader().spec_deframer().spec_length_ok(
                    le_value(c.take(4)) as int,
                ))) && old(self).reader().position() + c.len() < u64::MAX ==> (r matches Err(e)
                    && e.is_unexpected_eof() && final(self).reader().spec_poisoned()
                    && final(self).reader().consumed_since(&*old(self).reader()) == c)))
                &&& (old(self).reader().content() matches Some(c) ==> (c.len() >= 4 && c.len() >= old(self).reader().spec_deframer().spec_header_len()
                    && !old(self).reader().spec_deframer().spec_length_ok(le_value(c.take(4)) as int) && old(self).reader().position() + c.len()
                    < u64::MAX ==> (r matches Err(e) && e.is_invalid_frame())))
            },
    {
        self.reader.read_message_with_receipt()
    }

    /// The next message; the same as [`next_message`](Self::next_message).
    pub fn next(&mut self) -> (r: Result<Option<&[u8]>, Error>)
        requires
            old(self).reader().inv(),
        ensures
            final(self).reader().inv(),
            final(self).reader().continues(&*old(self).reader()),
            final(self).reader().spec_deframer() == old(self).reader().spec_deframer(),
            old(self).reader().spec_poisoned() ==> (r matches Err(e) && e.is_poisoned()
                && final(self).reader().consumed_since(&*old(self).reader()) == Seq::<u8>::empty()
                && final(self).reader().spec_poisoned()),
            !old(self).reader().spec_poisoned() ==> match r {
                Ok(Some(payload)) => final(self).reader().consumed_since(&*old(self).reader()).len() > 0
                    && !final(self).reader().spec_poisoned(),
                Ok(None) => {
                    &&& final(self).reader().consumed_since(&*old(self).reader()) == Seq::<u8>::empty()
                    &&& !final(self).reader().spec_poisoned()
                },
                Err(_) => final(self).reader().spec_poisoned() == (final(self).reader().consumed_since(
                    &*old(self).reader(),
                ).len() > 0),
            },
            final(self).reader().follows_source(&*old(self).reader()),
            !old(self).reader().spec_poisoned() && old(self).reader().spec_deframer().obeys_deframer_spec() ==> {
                &&& (old(self).reader().content() is Some ==> (r matches Ok(None) ==> final(self).reader().at_end()))
                &&& (r matches Ok(Some(payload)) ==> old(self).reader().spec_deframer().spec_accepts(final(self).reader().consumed_since(&*old(self).reader()))
                    == Some(payload@))
                &&& (old(self).reader().content() == Some(Seq::<u8>::empty()) && old(self).reader().position() < u64::MAX
                    ==> r matches Ok(None))
                &&& (old(self).reader().content() matches Some(c) ==> forall|f: Seq<u8>|
                    #![trigger old(self).reader().spec_deframer().spec_accepts(f)]
                    f.len() >= 4 && f.is_prefix_of(c) && old(self).reader().spec_deframer().spec_accepts(f) is Some
                        && old(self).reader().position() + f.len() <= u64::MAX ==> (r matches Ok(Some(payload))
                        && final(self).reader().consumed_since(&*old(self).reader()) == f
                        && old(self).reader().spec_deframer().spec_accepts(f) == Some(payload@)))
                &&& (old(self).reader().content() matches Some(c) ==> (c.len() > 0 && (c.len() < 4 || (
                old(self).reader().spec_deframer().spec_torn(c) && old(self).reader().spec_deframer().spec_length_ok(
                    le_value(c.take(4)) as int,
                ))) && old(self).reader().position() + c.len() < u64::MAX ==> (r matches Err(e)
                    && e.is_unexpected_eof() && final(self).reader().spec_poisoned())))
            },
    {
        self.next_message()
    }
}

} // verus!