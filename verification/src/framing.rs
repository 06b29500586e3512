//! Framing and deframing strategies for the byte stream.
//!
//! A frame is `[4-byte LE payload length][checksum field][payload]`, where the
//! checksum field is empty for the default format and `C::SIZE` bytes for a
//! checksum algorithm `C`.
use vstd::prelude::*;

use crate::checksum::Checksum;
use crate::error::{Error, ErrorKind, IoError, IoErrorKind};
use crate::io::{ByteSink, ByteSource, CountingReader, CountingWriter};
use crate::validation::Validator;
use crate::wire::{
    le_bytes, le_value, lemma_le_bytes_of_value, lemma_le_roundtrip, lemma_le_roundtrip_u32,
    lemma_le_value_bounded, lemma_le_value_u32, lemma_mask_idempotent, push_le_bytes, read_u32_le,
    spec_width_mask,
};

verus! {

/// Default maximum accepted payload length: the FlatBuffers maximum buffer
/// size, 2 GiB (`flatbuffers::FLATBUFFERS_MAX_BUFFER_SIZE`).
pub const DEFAULT_MAX_FRAME_LEN: usize = 0x8000_0000;

/// The largest payload length the 4-byte length prefix can express.
pub const MAX_WIRE_FRAME_LEN: usize = 0xffff_ffff;

/// The bytes of one frame: the 4-byte little-endian payload length, the
/// checksum field, then the payload.
pub open spec fn spec_frame(checksum_field: Seq<u8>, payload: Seq<u8>) -> Seq<u8> {
    le_bytes(payload.len() as u64, 4) + checksum_field + payload
}

/// `frame` is a complete frame with a `width`-byte checksum field whose
/// declared length is at most `max`; its payload and checksum field.
pub open spec fn spec_parse(frame: Seq<u8>, width: nat, max: usize) -> Option<(Seq<u8>, Seq<u8>)> {
    if frame.len() >= 4 + width && le_value(frame.take(4)) <= max && frame.len() == 4 + width
        + le_value(frame.take(4)) {
        Some((frame.skip(4 + width as int), frame.subrange(4, 4 + width as int)))
    } else {
        None
    }
}

/// What the sink received while a framer handled `frame_of`: `None` (the
/// payload was rejected) leaves the stream untouched and fails; `Some(f)`
/// either completes `f` or fails with an I/O error after a proper prefix of `f`.
pub open spec fn spec_frame_write_outcome<W>(
    frame_of: Option<Seq<u8>>,
    prev: CountingWriter<W>,
    next: CountingWriter<W>,
    r: Result<(), Error>,
) -> bool {
    &&& next.inv()
    &&& next.extends(&prev)
    &&& match frame_of {
        None => r is Err && next.accepted_since(&prev) == Seq::<u8>::empty(),
        Some(f) => {
            &&& r is Ok ==> next.accepted_since(&prev) == f
            &&& r matches Err(e) ==> e.is_io() && next.accepted_since(&prev).is_prefix_of(f)
                && next.accepted_since(&prev).len() < f.len()
        },
    }
}

/// Writes `first` then `second` to the sink, one `write_parts` call per
/// attempt, re-offering the unaccepted remainder after a partial write. A
/// sink that accepts nothing while bytes are outstanding fails with `WriteZero`.
pub fn write_all_vectored<W: ByteSink>(writer: &mut CountingWriter<W>, first: &[u8], second: &[u8]) -> (r:
    Result<(), Error>)
    requires
        old(writer).inv(),
        first@.len() + second@.len() <= u64::MAX,
    ensures
        final(writer).inv(),
        final(writer).extends(&*old(writer)),
        r is Ok ==> final(writer).accepted_since(&*old(writer)) == first@ + second@,
        r matches Err(e) ==> e.is_io() && final(writer).accepted_since(&*old(writer)).is_prefix_of(
            first@ + second@,
        ) && final(writer).accepted_since(&*old(writer)).len() < first@.len() + second@.len(),
        r matches Err(e) ==> match final(writer).last_fault() {
            Some(f) => e.spec_kind() == ErrorKind::Io(f),
            None => e.spec_kind() matches ErrorKind::Io(io) && io.kind == IoErrorKind::WriteZero,
        },
        final(writer).records(&*old(writer)),
        final(writer).keeps_syncs(&*old(writer)),
        old(writer).sink().spec_progresses() ==> final(writer).sink().spec_progresses(),
        old(writer).sink().spec_progresses() && old(writer).position() + first@.len() + second@.len()
            <= u64::MAX ==> r is Ok,
{
    let ghost start = *writer;
    let ghost whole = first@ + second@;
    let total: u64 = first.len() as u64 + second.len() as u64;
    let mut done: u64 = 0;
    proof {
        writer.lemma_extends_refl();
        writer.lemma_records_refl();
        assert(whole.take(0) =~= Seq::<u8>::empty());
    }
    while done < total
        invariant
            done <= total,
            total == whole.len(),
            whole == first@ + second@,
            writer.inv(),
            start == *old(writer),
            writer.extends(&start),
            writer.records(&start),
            writer.keeps_syncs(&start),
            writer.accepted_since(&start) == whole.take(done as int),
            writer.position() == start.position() + done,
            start.sink().spec_progresses() ==> writer.sink().spec_progresses(),
        decreases total - done,
    {
        let ghost before = *writer;
        proof {
            writer.lemma_extends_refl();
        }
        let result = if done < first.len() as u64 {
            let a = vstd::slice::slice_subrange(first, done as usize, first.len());
            proof {
                assert(a@ + second@ =~= whole.skip(done as int));
            }
            writer.write_parts(a, second)
        } else {
            let b = vstd::slice::slice_subrange(second, (done - first.len() as u64) as usize, second.len());
            let empty: &[u8] = &[];
            proof {
                assert(b@ + empty@ =~= whole.skip(done as int));
            }
            writer.write_parts(b, empty)
        };
        match result {
            Ok(0) => {
                proof {
                    writer.lemma_records_trans(&before, &start);
                    writer.lemma_extends_trans(&before, &start);
                    assert(writer.accepted_since(&before) =~= Seq::<u8>::empty());
                    assert(whole.take(done as int).is_prefix_of(whole));
                }
                return Err(
                    Error::io(
                        IoError::new(
                            IoErrorKind::WriteZero,
                            "sink accepted no bytes while a frame was outstanding",
                        ),
                    ),
                );
            },
            Ok(n) => {
                proof {
                    writer.lemma_records_trans(&before, &start);
                    writer.lemma_extends_trans(&before, &start);
                    assert(whole.skip(done as int).take(n as int) =~= whole.subrange(
                        done as int,
                        done + n,
                    ));
                    assert(whole.take(done as int) + whole.subrange(done as int, done + n) =~= whole.take(
                        done + n,
                    ));
                }
                done = done + n as u64;
            },
            Err(e) => {
                proof {
                    writer.lemma_records_trans(&before, &start);
                    writer.lemma_extends_trans(&before, &start);
                    assert(writer.accepted_since(&before) =~= Seq::<u8>::empty());
                    assert(whole.take(done as int).is_prefix_of(whole));
                }
                return Err(Error::io(e));
            },
        }
    }
    proof {
        assert(whole.take(total as int) =~= whole);
    }
    Ok(())
}

/// How a payload is framed and written to a stream.
pub trait Framer {
    /// Whether this framer is specified by [`spec_frame_of`](Framer::spec_frame_of).
    /// The framers of this library are (given specified parts); one written
    /// outside verified code is not (`false`), and no clause that rests on
    /// `spec_frame_of` is claimed for it.
    open spec fn obeys_framer_spec(&self) -> bool {
        false
    }

    /// The frame this framer writes for `payload`, or `None` when it rejects
    /// the payload before writing anything; meaningful for a framer that
    /// obeys the specification.
    open spec fn spec_frame_of(&self, payload: Seq<u8>) -> Option<Seq<u8>> {
        arbitrary()
    }

    /// Frames `payload` and writes the frame to `writer`. Whatever the
    /// framer, the writer only grows and records what the sink accepted. A
    /// specified framer writes exactly its frame or fails after a proper
    /// prefix of it; on a sink that progresses, with room for the frame, it succeeds.
    fn frame_and_write<W: ByteSink>(&self, writer: &mut CountingWriter<W>, payload: &[u8]) -> (r: Result<
        (),
        Error,
    >)
        requires
            old(writer).inv(),
        ensures
            final(writer).inv(),
            final(writer).extends(&*old(writer)),
            final(writer).records(&*old(writer)),
            final(writer).keeps_syncs(&*old(writer)),
            self.obeys_framer_spec() ==> spec_frame_write_outcome(
                self.spec_frame_of(payload@),
                *old(writer),
                *final(writer),
                r,
            ),
            self.obeys_framer_spec() && old(writer).sink().spec_progresses() ==> (self.spec_frame_of(
                payload@,
            ) matches Some(f) && old(writer).position() + f.len() <= u64::MAX ==> r is Ok),
    ;
}

/// The default framing strategy: `[4-byte length | payload]`.
#[derive(Clone, Copy, Debug, Default)]
pub struct DefaultFramer;

impl Framer for DefaultFramer {
    open spec fn obeys_framer_spec(&self) -> bool {
        true
    }

    open spec fn spec_frame_of(&self, payload: Seq<u8>) -> Option<Seq<u8>> {
        if payload.len() <= MAX_WIRE_FRAME_LEN {
            Some(spec_frame(Seq::empty(), payload))
        } else {
            None
        }
    }

    fn frame_and_write<W: ByteSink>(&self, writer: &mut CountingWriter<W>, payload: &[u8]) -> (r: Result<
        (),
        Error,
    >)
        ensures
            payload@.len() > MAX_WIRE_FRAME_LEN ==> (r matches Err(e) && e.is_invalid_frame_with(
                Some(payload@.len() as usize),
                Some(MAX_WIRE_FRAME_LEN),
            )),
    {
        if payload.len() > MAX_WIRE_FRAME_LEN {
            proof {
                writer.lemma_extends_refl();
                writer.lemma_records_refl();
            }
            return Err(
                Error::invalid_frame_with(
                    "payload length exceeds 32-bit header limit",
                    Some(payload.len()),
                    None,
                    Some(MAX_WIRE_FRAME_LEN),
                ),
            );
        }
        let mut header: Vec<u8> = Vec::with_capacity(4);
        push_le_bytes(&mut header, payload.len() as u64, 4);
        proof {
            assert(header@ =~= le_bytes(payload@.len() as u64, 4));
            assert(spec_frame(Seq::empty(), payload@) =~= header@ + payload@);
        }
        write_all_vectored(writer, header.as_slice(), payload)
    }
}

/// A framing strategy with a checksum: `[4-byte length | C::SIZE-byte checksum | payload]`.
pub struct ChecksumFramer<C: Checksum> {
    checksum_alg: C,
}

impl<C: Checksum> ChecksumFramer<C> {
    #[verifier::type_invariant]
    spec fn width_fits(self) -> bool {
        C::SIZE <= 8
    }

    /// The checksum algorithm.
    pub closed spec fn algorithm(&self) -> C {
        self.checksum_alg
    }

    /// A framer using `checksum_alg`, whose width must be at most 8 bytes.
    pub fn new(checksum_alg: C) -> (r: Self)
        requires
            C::SIZE <= 8,
        ensures
            r.algorithm() == checksum_alg,
    {
        ChecksumFramer { checksum_alg }
    }
}

impl<C: Checksum> Framer for ChecksumFramer<C> {
    open spec fn obeys_framer_spec(&self) -> bool {
        self.algorithm().obeys_checksum_spec()
    }

    open spec fn spec_frame_of(&self, payload: Seq<u8>) -> Option<Seq<u8>> {
        if payload.len() <= MAX_WIRE_FRAME_LEN {
            Some(
                spec_frame(
                    le_bytes(self.algorithm().spec_calculate(payload), C::SIZE as nat),
                    payload,
                ),
            )
        } else {
            None
        }
    }

    fn frame_and_write<W: ByteSink>(&self, writer: &mut CountingWriter<W>, payload: &[u8]) -> (r: Result<
        (),
        Error,
    >)
        ensures
            payload@.len() > MAX_WIRE_FRAME_LEN ==> (r matches Err(e) && e.is_invalid_frame_with(
                Some(payload@.len() as usize),
                Some(MAX_WIRE_FRAME_LEN),
            )),
            payload@.len() <= MAX_WIRE_FRAME_LEN ==> exists|v: u64|
                #[trigger] spec_frame_write_outcome(
                    Some(spec_frame(le_bytes(v, C::SIZE as nat), payload@)),
                    *old(writer),
                    *final(writer),
                    r,
                ) && (old(writer).sink().spec_progresses() && old(writer).position() + 4 + C::SIZE
                    + payload@.len() <= u64::MAX ==> r is Ok),
    {
        proof {
            use_type_invariant(self);
        }
        if payload.len() > MAX_WIRE_FRAME_LEN {
            proof {
                writer.lemma_extends_refl();
                writer.lemma_records_refl();
            }
            return Err(
                Error::invalid_frame_with(
                    "payload length exceeds 32-bit header limit",
                    Some(payload.len()),
                    None,
                    Some(MAX_WIRE_FRAME_LEN),
                ),
            );
        }
        let checksum = self.checksum_alg.calculate(payload);
        let mut header: Vec<u8> = Vec::with_capacity(12);
        push_le_bytes(&mut header, payload.len() as u64, 4);
        let mut staged = [0u8; 8];
        let field = self.checksum_alg.write_bytes(checksum, &mut staged);
        header.extend_from_slice(field);
        proof {
            assert(spec_frame(le_bytes(checksum, C::SIZE as nat), payload@) =~= header@ + payload@);
        }
        let ghost w0 = *writer;
        let r = write_all_vectored(writer, header.as_slice(), payload);
        proof {
            assert(spec_frame_write_outcome(
                Some(spec_frame(le_bytes(checksum, C::SIZE as nat), payload@)),
                w0,
                *writer,
                r,
            ));
        }
        r
    }
}

/// Enforces a maximum payload length for any framer.
pub struct BoundedFramer<F: Framer> {
    inner: F,
    max_len: usize,
}

impl<F: Framer> BoundedFramer<F> {
    /// The wrapped framer.
    pub closed spec fn inner(&self) -> F {
        self.inner
    }

    /// The largest accepted payload length.
    pub closed spec fn max_len(&self) -> usize {
        self.max_len
    }

    pub fn new(inner: F, max_len: usize) -> (r: Self)
        ensures
            r.inner() == inner,
            r.max_len() == max_len,
    {
        BoundedFramer { inner, max_len }
    }
}

impl<F: Framer> Framer for BoundedFramer<F> {
    open spec fn obeys_framer_spec(&self) -> bool {
        self.inner().obeys_framer_spec()
    }

    open spec fn spec_frame_of(&self, payload: Seq<u8>) -> Option<Seq<u8>> {
        if payload.len() > self.max_len() {
            None
        } else {
            self.inner().spec_frame_of(payload)
        }
    }

    fn frame_and_write<W: ByteSink>(&self, writer: &mut CountingWriter<W>, payload: &[u8]) -> (r: Result<
        (),
        Error,
    >)
        ensures
            payload@.len() > self.max_len() ==> (r matches Err(e) && e.is_invalid_frame_with(
                Some(payload@.len() as usize),
                Some(self.max_len()),
            )),
    {
        if payload.len() > self.max_len {
            proof {
                writer.lemma_extends_refl();
                writer.lemma_records_refl();
            }
            return Err(
                Error::invalid_frame_with(
                    "payload length exceeds configured limit",
                    Some(payload.len()),
                    None,
                    Some(self.max_len),
                ),
            );
        }
        self.inner.frame_and_write(writer, payload)
    }
}

/// Validates each payload before any byte of its frame is written.
pub struct ValidatingFramer<F: Framer, V: Validator> {
    inner: F,
    validator: V,
}

impl<F: Framer, V: Validator> ValidatingFramer<F, V> {
    /// The wrapped framer.
    pub closed spec fn inner(&self) -> F {
        self.inner
    }

    /// The validator.
    pub closed spec fn validator(&self) -> V {
        self.validator
    }

    pub fn new(inner: F, validator: V) -> (r: Self)
        ensures
            r.inner() == inner,
            r.validator() == validator,
    {
        ValidatingFramer { inner, validator }
    }
}

impl<F: Framer, V: Validator> Framer for ValidatingFramer<F, V> {
    open spec fn obeys_framer_spec(&self) -> bool {
        self.inner().obeys_framer_spec() && self.validator().obeys_validator_spec()
    }

    open spec fn spec_frame_of(&self, payload: Seq<u8>) -> Option<Seq<u8>> {
        if self.validator().spec_accepts(payload) {
            self.inner().spec_frame_of(payload)
        } else {
            None
        }
    }

    fn frame_and_write<W: ByteSink>(&self, writer: &mut CountingWriter<W>, payload: &[u8]) -> (r: Result<
        (),
        Error,
    >)
        ensures
            self.validator().obeys_validator_spec() && !self.validator().spec_accepts(payload@) ==> (r matches Err(
                e,
            ) && e.is_validation_failure()),
    {
        match self.validator.validate(payload) {
            Ok(()) => {},
            Err(e) => {
                proof {
                    writer.lemma_extends_refl();
                    writer.lemma_records_refl();
                }
                return Err(e);
            },
        }
        self.inner.frame_and_write(writer, payload)
    }
}

/// Invokes a callback with each payload, once, before the inner framer writes it.
pub struct ObserverFramer<F: Framer, C: Fn(&[u8])> {
    inner: F,
    callback: C,
}

impl<F: Framer, C: Fn(&[u8])> ObserverFramer<F, C> {
    #[verifier::type_invariant]
    spec fn callable(self) -> bool {
        forall|p: &[u8]| #[trigger] self.callback.requires((p,))
    }

    /// The wrapped framer.
    pub closed spec fn inner(&self) -> F {
        self.inner
    }

    /// An observer around `inner`; the callback must accept every payload.
    pub fn new(inner: F, callback: C) -> (r: Self)
        requires
            forall|p: &[u8]| #[trigger] callback.requires((p,)),
        ensures
            r.inner() == inner,
    {
        ObserverFramer { inner, callback }
    }
}

impl<F: Framer, C: Fn(&[u8])> Framer for ObserverFramer<F, C> {
    open spec fn obeys_framer_spec(&self) -> bool {
        self.inner().obeys_framer_spec()
    }

    open spec fn spec_frame_of(&self, payload: Seq<u8>) -> Option<Seq<u8>> {
        self.inner().spec_frame_of(payload)
    }

    fn frame_and_write<W: ByteSink>(&self, writer: &mut CountingWriter<W>, payload: &[u8]) -> (r: Result<
        (),
        Error,
    >) {
        proof {
            use_type_invariant(self);
        }
        (self.callback)(payload);
        self.inner.frame_and_write(writer, payload)
    }
}

/// A frame that parses after a consumed length header `payload_len` carries
/// exactly `width + payload_len` further bytes, and the length is in bounds.
proof fn lemma_parse_after_length(payload_len: usize, f: Seq<u8>, width: nat, max: usize)
    requires
        payload_len <= MAX_WIRE_FRAME_LEN,
        spec_parse(le_bytes(payload_len as u64, 4) + f, width, max) is Some,
    ensures
        payload_len <= max,
        f.len() == width + payload_len,
{
    let frame = le_bytes(payload_len as u64, 4) + f;
    lemma_le_roundtrip_u32(payload_len as u64);
    assert(frame.take(4) =~= le_bytes(payload_len as u64, 4));
}

/// A checksum frame `f` that the deframer accepts at the front of `c` is
/// determined by `c`: its length follows from the length header `c` starts
/// with, and its checksum field matches its payload.
proof fn lemma_checksum_owed<C: Checksum>(alg: C, max: usize, c: Seq<u8>, f: Seq<u8>)
    requires
        spec_checksum_accepts(alg, f, max) is Some,
        f.is_prefix_of(c),
    ensures
        le_value(c.take(4)) <= max,
        f.len() == 4 + C::SIZE + le_value(c.take(4)),
        f == c.take(f.len() as int),
        alg.spec_calculate(c.subrange(4 + C::SIZE, f.len() as int)) & spec_width_mask(C::SIZE as u64)
            == le_value(c.subrange(4, 4 + C::SIZE)) & spec_width_mask(C::SIZE as u64),
{
    lemma_prefix_after_header(c, f, f.len() as int);
    assert(f.take(f.len() as int) =~= f);
    assert(f.take(4) =~= c.take(4));
    assert(f.skip(4 + C::SIZE) =~= c.subrange(4 + C::SIZE, f.len() as int));
    assert(f.subrange(4, 4 + C::SIZE) =~= c.subrange(4, 4 + C::SIZE));
}

/// After a consumed length header `payload_len`, a checksum frame the
/// deframer accepts whose remainder `f` lies at the front of `c` is
/// determined by `c`: it is the checksum field and `payload_len` payload
/// bytes, and the field matches the payload.
proof fn lemma_checksum_owed_after_length<C: Checksum>(
    alg: C,
    max: usize,
    payload_len: usize,
    c: Seq<u8>,
    f: Seq<u8>,
)
    requires
        payload_len <= MAX_WIRE_FRAME_LEN,
        spec_checksum_accepts(alg, le_bytes(payload_len as u64, 4) + f, max) is Some,
        f.is_prefix_of(c),
    ensures
        payload_len <= max,
        f.len() == C::SIZE + payload_len,
        f == c.take(f.len() as int),
        alg.spec_calculate(c.subrange(C::SIZE as int, f.len() as int)) & spec_width_mask(C::SIZE as u64)
            == le_value(c.take(C::SIZE as int)) & spec_width_mask(C::SIZE as u64),
{
    let frame = le_bytes(payload_len as u64, 4) + f;
    lemma_parse_after_length(payload_len, f, C::SIZE as nat, max);
    lemma_prefix_after_header(c, f, f.len() as int);
    assert(f.take(f.len() as int) =~= f);
    assert(frame.skip(4 + C::SIZE) =~= c.subrange(C::SIZE as int, f.len() as int));
    assert(frame.subrange(4, 4 + C::SIZE) =~= c.take(C::SIZE as int));
}

/// A prefix `f` of `c` agrees with `c` on its first `k` bytes, and the rest
/// of `f` is a prefix of the rest of `c`.
proof fn lemma_prefix_after_header(c: Seq<u8>, f: Seq<u8>, k: int)
    requires
        f.is_prefix_of(c),
        0 <= k <= f.len(),
    ensures
        f.take(k) == c.take(k),
        f.skip(k).is_prefix_of(c.skip(k)),
{
    assert(f.take(k) =~= c.take(k)) by {
        assert forall|i: int| 0 <= i < k implies f[i] == c[i] by {
            assert(c.subrange(0, f.len() as int)[i] == c[i]);
        }
    }
    assert(c.skip(k).subrange(0, f.skip(k).len() as int) =~= f.skip(k)) by {
        assert forall|i: int| 0 <= i < f.len() - k implies c.skip(k)[i] == f.skip(k)[i] by {
            assert(c.subrange(0, f.len() as int)[k + i] == c[k + i]);
        }
    }
}

/// `e` reports the failure `fault` of the source's latest read when that
/// read failed, and is no I/O error otherwise.
pub open spec fn spec_reports_fault(e: Error, fault: Option<IoError>) -> bool {
    match fault {
        Some(f) => e.spec_kind() == ErrorKind::Io(f),
        None => !e.is_io(),
    }
}

/// Reads `buf[start..end]` in full from `reader`. `Err(None)` reports the end
/// of the input before the range was filled, `Err(Some(e))` an I/O fault.
/// The bytes delivered always land at the front of the range.
pub fn read_exact<R: ByteSource>(reader: &mut CountingReader<R>, buf: &mut Vec<u8>, start: usize, end: usize) -> (r:
    Result<(), Option<IoError>>)
    requires
        old(reader).inv(),
        start <= end <= old(buf)@.len(),
    ensures
        final(reader).inv(),
        final(reader).extends(&*old(reader)),
        final(buf)@.len() == old(buf)@.len(),
        forall|i: int|
            0 <= i < old(buf)@.len() && !(start <= i < end) ==> #[trigger] final(buf)@[i]
                == old(buf)@[i],
        final(reader).delivered_since(&*old(reader)).len() <= end - start,
        final(reader).delivered_since(&*old(reader)) == final(buf)@.subrange(
            start as int,
            start + final(reader).delivered_since(&*old(reader)).len(),
        ),
        r is Ok <==> final(reader).delivered_since(&*old(reader)).len() == end - start,
        final(reader).follows_content(&*old(reader)),
        old(reader).content() is Some ==> (r is Err ==> final(reader).drained()),
        old(reader).content() is Some && old(reader).position() + (end - start) <= u64::MAX ==> !(r matches Err(
            Some(_),
        )),
        old(reader).content() matches Some(c) ==> (c.len() >= end - start && old(reader).position() + (
        end - start) <= u64::MAX ==> r is Ok),
        old(reader).content() matches Some(c) ==> (old(reader).position() + c.len() < u64::MAX ==> !(
        r matches Err(Some(_)))),
        r matches Err(None) ==> final(reader).ended() && final(reader).last_fault() is None,
        r is Ok ==> final(reader).last_fault() == (if start < end {
            None::<IoError>
        } else {
            old(reader).last_fault()
        }),
        r matches Err(Some(e)) ==> !final(reader).ended() && final(reader).last_fault() == Some(e),
{
    let ghost start_reader = *reader;
    let ghost start_buf = buf@;
    let mut filled = start;
    proof {
        reader.lemma_extends_refl();
        reader.lemma_follows_refl();
        assert(buf@.subrange(start as int, start as int) =~= Seq::<u8>::empty());
    }
    while filled < end
        invariant
            start <= filled <= end <= buf@.len(),
            buf@.len() == start_buf.len(),
            start_reader == *old(reader),
            start_buf == old(buf)@,
            reader.inv(),
            reader.extends(&start_reader),
            reader.follows_content(&start_reader),
            reader.delivered_since(&start_reader) == buf@.subrange(start as int, filled as int),
            forall|i: int|
                0 <= i < start_buf.len() && !(start <= i < end) ==> #[trigger] buf@[i] == start_buf[i],
            start_reader.inv(),
            reader.last_fault() == (if filled > start {
                None::<IoError>
            } else {
                start_reader.last_fault()
            }),
        decreases end - filled,
    {
        let ghost before = *reader;
        let ghost before_buf = buf@;
        let result = reader.read_into(buf, filled, end);
        proof {
            reader.lemma_follows_trans(&before, &start_reader);
            reader.lemma_extends_trans(&before, &start_reader);
            assert forall|i: int|
                0 <= i < start_buf.len() && !(start <= i < end) implies #[trigger] buf@[i]
                == start_buf[i] by {
                assert(buf@[i] == before_buf[i]);
            }
            assert(buf@.subrange(start as int, filled as int) =~= before_buf.subrange(
                start as int,
                filled as int,
            ));
        }
        match result {
            Ok(0) => {
                proof {
                    assert(reader.delivered_since(&before) =~= Seq::<u8>::empty());
                    assert(reader.delivered_since(&start_reader) =~= buf@.subrange(
                        start as int,
                        filled as int,
                    ));
                    reader.lemma_extends_position(&start_reader);
                }
                return Err(None);
            },
            Ok(n) => {
                proof {
                    assert(reader.delivered_since(&before) =~= buf@.subrange(
                        filled as int,
                        filled + n,
                    ));
                    assert(buf@.subrange(start as int, filled as int) + buf@.subrange(
                        filled as int,
                        filled + n,
                    ) =~= buf@.subrange(start as int, filled + n));
                }
                filled = filled + n;
            },
            Err(e) => {
                proof {
                    assert(reader.delivered_since(&before) =~= Seq::<u8>::empty());
                    assert(reader.delivered_since(&start_reader) =~= buf@.subrange(
                        start as int,
                        filled as int,
                    ));
                    reader.lemma_extends_position(&start_reader);
                    before.lemma_extends_position(&start_reader);
                }
                return Err(Some(e));
            },
        }
    }
    Ok(())
}

/// Maps an incomplete read inside a frame to the library's error: the end of
/// the input becomes `UnexpectedEof`, a fault stays an I/O error.
fn torn(failure: Option<IoError>) -> (r: Error)
    ensures
        failure is None ==> r.is_unexpected_eof(),
        failure is Some ==> r.is_io(),
        spec_reports_fault(r, failure),
{
    match failure {
        None => Error::unexpected_eof(),
        Some(e) => Error::io(e),
    }
}

/// Reads an `n`-byte header into `buffer[0..n]`. Zero bytes before the end of
/// the input is a clean frame boundary (`Ok(None)`); a header cut short is
/// `UnexpectedEof`; faults are I/O errors.
pub fn read_header<R: ByteSource>(reader: &mut CountingReader<R>, buffer: &mut Vec<u8>, n: usize) -> (r:
    Result<Option<()>, Error>)
    requires
        old(reader).inv(),
        1 <= n <= old(buffer)@.len(),
    ensures
        final(reader).inv(),
        final(reader).extends(&*old(reader)),
        final(buffer)@.len() == old(buffer)@.len(),
        r matches Ok(None) ==> final(reader).delivered_since(&*old(reader)) == Seq::<u8>::empty(),
        r matches Ok(Some(_)) ==> final(reader).delivered_since(&*old(reader)) == final(buffer)@.take(
            n as int,
        ),
        r matches Err(e) ==> {
            &&& final(reader).delivered_since(&*old(reader)).len() < n
            &&& e.is_io() || (e.is_unexpected_eof() && final(reader).delivered_since(
                &*old(reader),
            ).len() > 0)
        },
        final(reader).follows_content(&*old(reader)),
        old(reader).content() is Some ==> (r matches Ok(None) ==> final(reader).drained()),
        old(reader).content() is Some ==> (r is Err ==> final(reader).drained()),
        old(reader).content() == Some(Seq::<u8>::empty()) && old(reader).position() < u64::MAX ==> r
            matches Ok(None),
        old(reader).content() matches Some(c) ==> (c.len() >= n && old(reader).position() + n
            <= u64::MAX ==> r matches Ok(Some(_))),
        old(reader).content() matches Some(c) ==> (0 < c.len() < n && old(reader).position() + c.len()
            < u64::MAX ==> (r matches Err(e) && e.is_unexpected_eof())),
        r matches Ok(None) ==> final(reader).ended(),
        r matches Err(e) ==> (e.is_unexpected_eof() == final(reader).ended()),
        r matches Err(e) ==> spec_reports_fault(e, final(reader).last_fault()),
        r is Ok ==> final(reader).last_fault() is None,
{
    let ghost r0 = *reader;
    match read_exact(reader, buffer, 0, 1) {
        Ok(()) => {},
        Err(None) => {
            return Ok(None);
        },
        Err(Some(e)) => {
            return Err(Error::io(e));
        },
    }
    let ghost r1 = *reader;
    let ghost b1 = buffer@;
    proof {
        r1.lemma_extends_position(&r0);
    }
    let rest = read_exact(reader, buffer, 1, n);
    proof {
        reader.lemma_follows_trans(&r1, &r0);
        reader.lemma_extends_trans(&r1, &r0);
        assert(buffer@[0] == b1[0]);
        assert(reader.delivered_since(&r0) =~= buffer@.take(
            1 + reader.delivered_since(&r1).len() as int,
        ));
    }
    match rest {
        Ok(()) => Ok(Some(())),
        Err(failure) => Err(torn(failure)),
    }
}

/// Rejects a declared payload length above `max` before any allocation is sized from it.
pub fn check_frame_len(payload_len: usize, max: usize) -> (r: Result<(), Error>)
    ensures
        r is Ok <==> payload_len <= max,
        r matches Err(e) ==> e.is_invalid_frame_with(Some(payload_len), Some(max)),
{
    if payload_len > max {
        return Err(
            Error::invalid_frame_with(
                "frame length exceeds configured limit",
                Some(payload_len),
                None,
                Some(max),
            ),
        );
    }
    Ok(())
}

/// Reads `payload_len` bytes into the front of `buffer`, growing it (with
/// zeros) only when the high-water mark rises. A payload cut short is
/// `UnexpectedEof`; faults are I/O errors.
pub fn read_payload<R: ByteSource>(reader: &mut CountingReader<R>, buffer: &mut Vec<u8>, payload_len: usize) -> (r:
    Result<(), Error>)
    requires
        old(reader).inv(),
    ensures
        final(reader).inv(),
        final(reader).extends(&*old(reader)),
        final(buffer)@.len() >= payload_len,
        final(buffer)@.len() >= old(buffer)@.len(),
        final(reader).delivered_since(&*old(reader)).len() <= payload_len,
        r is Ok ==> final(reader).delivered_since(&*old(reader)) == final(buffer)@.take(
            payload_len as int,
        ),
        r matches Err(e) ==> (e.is_io() || e.is_unexpected_eof()) && final(reader).delivered_since(
            &*old(reader),
        ).len() < payload_len,
        final(reader).follows_content(&*old(reader)),
        old(reader).content() is Some ==> (r is Err ==> final(reader).drained()),
        old(reader).content() matches Some(c) ==> (c.len() >= payload_len && old(reader).position()
            + payload_len <= u64::MAX ==> r is Ok),
        old(reader).content() matches Some(c) ==> (c.len() < payload_len && old(reader).position() + c.len()
            < u64::MAX ==> (r matches Err(e) && e.is_unexpected_eof())),
        r matches Err(e) ==> (e.is_unexpected_eof() == final(reader).ended()),
        r matches Err(e) ==> spec_reports_fault(e, final(reader).last_fault()),
        r is Ok ==> final(reader).last_fault() == (if payload_len > 0 {
            None::<IoError>
        } else {
            old(reader).last_fault()
        }),
{
    if payload_len > buffer.len() {
        buffer.resize(payload_len, 0);
    }
    let ghost r0 = *reader;
    let result = read_exact(reader, buffer, 0, payload_len);
    proof {
        assert(buffer@.subrange(0, payload_len as int) =~= buffer@.take(payload_len as int));
    }
    match result {
        Ok(()) => Ok(()),
        Err(failure) => Err(torn(failure)),
    }
}

/// How a frame is read and parsed from a stream.
///
/// A deframer consumes exactly one frame per successful call and never reads
/// ahead into the next one. On success the payload is `buffer[..n]`; the
/// buffer is a high-water mark that only grows. Every implementation owes the
/// unconditional clauses below (a successful read consumed at least one byte
/// and `n` lies within the buffer); the clauses over
/// [`spec_accepts`](Deframer::spec_accepts) hold for deframers that obey the
/// specification.
pub trait Deframer {
    /// Whether this deframer is specified by [`spec_accepts`](Deframer::spec_accepts)
    /// and [`spec_torn`](Deframer::spec_torn). The deframers of this library
    /// are (given specified parts); one written outside verified code is not
    /// (`false`), and no clause that rests on them is claimed for it.
    open spec fn obeys_deframer_spec(&self) -> bool {
        false
    }

    /// The payload of `frame` when it is one complete frame this deframer
    /// accepts, for a deframer that obeys the specification.
    open spec fn spec_accepts(&self, frame: Seq<u8>) -> Option<Seq<u8>> {
        arbitrary()
    }

    /// `consumed` holds a complete length header and ends inside the frame
    /// that header announces: the input ended mid-frame (for a deframer that
    /// obeys the specification).
    open spec fn spec_torn(&self, consumed: Seq<u8>) -> bool {
        arbitrary()
    }

    /// Whether a frame declaring a `payload_len`-byte payload is within this
    /// deframer's limits, for a deframer that obeys the specification.
    open spec fn spec_length_ok(&self, payload_len: int) -> bool {
        arbitrary()
    }

    /// How many bytes of a frame this deframer reads before it checks the
    /// declared length: the length itself and the fields read with it.
    open spec fn spec_header_len(&self) -> nat {
        4
    }

    /// Reads one frame: `Ok(Some(n))` with the payload in `buffer[..n]` when
    /// the bytes consumed form an accepted frame, `Ok(None)` on a clean end of
    /// the input at a frame boundary (nothing consumed).
    fn read_and_deframe<R: ByteSource>(&self, reader: &mut CountingReader<R>, buffer: &mut Vec<u8>) -> (r:
        Result<Option<usize>, Error>)
        requires
            old(reader).inv(),
        ensures
            final(reader).inv(),
            final(reader).extends(&*old(reader)),
            final(reader).follows_content(&*old(reader)),
            r matches Ok(Some(n)) ==> n <= final(buffer)@.len() && final(reader).delivered_since(
                &*old(reader),
            ).len() > 0,
            self.obeys_deframer_spec() ==> {
                &&& (r matches Ok(Some(n)) ==> n <= final(buffer)@.len() && self.spec_accepts(
                    final(reader).delivered_since(&*old(reader)),
                ) == Some(final(buffer)@.take(n as int)) && final(reader).delivered_since(
                    &*old(reader),
                ).len() > 0)
                &&& (r matches Ok(None) ==> final(reader).delivered_since(&*old(reader)) == Seq::<u8>::empty())
                &&& (r matches Err(e) ==> (e.is_unexpected_eof() ==> final(reader).delivered_since(
                    &*old(reader),
                ).len() > 0 && (final(reader).delivered_since(&*old(reader)).len() < 4 || self.spec_torn(
                    final(reader).delivered_since(&*old(reader)),
                ))))
                &&& (old(reader).content() is Some ==> (r matches Ok(None) ==> final(reader).drained()))
                &&& (old(reader).content() is Some ==> (r matches Err(e) ==> (e.is_unexpected_eof()
                    ==> final(reader).drained())))
                &&& (old(reader).content() == Some(Seq::<u8>::empty()) && old(reader).position() < u64::MAX
                    ==> r matches Ok(None))
                &&& (old(reader).content() matches Some(c) ==> forall|f: Seq<u8>|
                    #![trigger self.spec_accepts(f)]
                    f.len() >= 4 && f.is_prefix_of(c) && self.spec_accepts(f) is Some && old(reader).position()
                        + f.len() <= u64::MAX ==> (r matches Ok(Some(_)) && final(reader).delivered_since(
                        &*old(reader),
                    ) == f))
                &&& (r matches Ok(None) ==> final(reader).ended())
                &&& (r matches Err(e) ==> (e.is_unexpected_eof() ==> final(reader).ended()))
                &&& (r matches Err(e) ==> spec_reports_fault(e, final(reader).last_fault()))
                &&& (r is Ok ==> final(reader).last_fault() is None)
                &&& (old(reader).content() matches Some(c) ==> (c.len() > 0 && (c.len() < 4 || (self.spec_torn(c)
                    && self.spec_length_ok(le_value(c.take(4)) as int))) && old(reader).position() + c.len() < u64::MAX
                    ==> (r matches Err(e) && e.is_unexpected_eof())))
                &&& (old(reader).content() matches Some(c) ==> (c.len() >= 4 && c.len() >= self.spec_header_len()
                    && !self.spec_length_ok(le_value(c.take(4)) as int) && old(reader).position() + c.len() < u64::MAX
                    ==> (r matches Err(e) && e.is_invalid_frame())))
            },
    {
        if buffer.len() < 4 {
            buffer.resize(4, 0);
        }
        let ghost r0 = *reader;
        match read_header(reader, buffer, 4) {
            Ok(Some(())) => {},
            Ok(None) => {
                return Ok(None);
            },
            Err(e) => {
                return Err(e);
            },
        }
        let ghost header = buffer@.take(4);
        let ghost r1 = *reader;
        let payload_len = read_u32_le(buffer.as_slice());
        proof {
            r1.lemma_extends_position(&r0);
        }
        let result = self.read_after_length(reader, buffer, payload_len);
        proof {
            reader.lemma_follows_trans(&r1, &r0);
            reader.lemma_extends_trans(&r1, &r0);
            lemma_le_bytes_of_value(header);
            assert(le_bytes(payload_len as u64, 4) == header);
            assert(reader.delivered_since(&r0) =~= header + reader.delivered_since(&r1));
            if self.obeys_deframer_spec() && r0.content() is Some {
                let c = r0.content()->0;
                assert(header == c.take(4));
                assert(le_bytes(payload_len as u64, 4) + c.skip(4) =~= c);
                assert(r1.content() == Some(c.skip(4)));
                assert forall|f: Seq<u8>|
                    #![trigger self.spec_accepts(f)]
                    f.len() >= 4 && f.is_prefix_of(c) && self.spec_accepts(f) is Some && r0.position()
                        + f.len() <= u64::MAX implies (result matches Ok(Some(_))
                    && reader.delivered_since(&r0) == f) by {
                    lemma_prefix_after_header(c, f, 4);
                    assert(header == c.take(4));
                    assert(le_bytes(payload_len as u64, 4) + f.skip(4) =~= f);
                    assert(self.spec_accepts(le_bytes(payload_len as u64, 4) + f.skip(4)) is Some);
                }
            }
        }
        result
    }

    /// Continues a read whose 4-byte payload length has been consumed and
    /// parsed: bounds it before sizing any allocation from it, then reads any
    /// further header fields and the payload.
    fn read_after_length<R: ByteSource>(
        &self,
        reader: &mut CountingReader<R>,
        buffer: &mut Vec<u8>,
        payload_len: usize,
    ) -> (r: Result<Option<usize>, Error>)
        requires
            old(reader).inv(),
            payload_len <= MAX_WIRE_FRAME_LEN,
        ensures
            final(reader).inv(),
            final(reader).extends(&*old(reader)),
            final(reader).follows_content(&*old(reader)),
            r matches Ok(Some(n)) ==> n <= final(buffer)@.len(),
            self.obeys_deframer_spec() ==> {
                &&& (r matches Ok(Some(n)) ==> n <= final(buffer)@.len() && self.spec_accepts(
                    le_bytes(payload_len as u64, 4) + final(reader).delivered_since(&*old(reader)),
                ) == Some(final(buffer)@.take(n as int)))
                &&& r !is Ok || r->Ok_0 is Some
                &&& (r matches Err(e) ==> (e.is_unexpected_eof() ==> self.spec_torn(
                    le_bytes(payload_len as u64, 4) + final(reader).delivered_since(&*old(reader)),
                )))
                &&& (old(reader).content() is Some ==> (r matches Err(e) ==> (e.is_unexpected_eof()
                    ==> final(reader).drained())))
                &&& (old(reader).content() matches Some(c) ==> forall|f: Seq<u8>|
                    #![trigger self.spec_accepts(le_bytes(payload_len as u64, 4) + f)]
                    f.is_prefix_of(c) && self.spec_accepts(le_bytes(payload_len as u64, 4) + f) is Some
                        && old(reader).position() + f.len() <= u64::MAX ==> (r matches Ok(Some(_))
                        && final(reader).delivered_since(&*old(reader)) == f))
                &&& (r matches Err(e) ==> (e.is_unexpected_eof() ==> final(reader).ended()))
                &&& (r matches Err(e) ==> spec_reports_fault(e, final(reader).last_fault()) || (!e.is_io()
                    && final(reader).last_fault() == old(reader).last_fault()))
                &&& (r is Ok ==> final(reader).last_fault() is None || final(reader).last_fault() == old(
                    reader,
                ).last_fault())
                &&& (old(reader).content() matches Some(c) ==> (self.spec_torn(le_bytes(payload_len as u64, 4) + c)
                    && self.spec_length_ok(payload_len as int) && old(reader).position() + c.len() < u64::MAX
                    ==> (r matches Err(e) && e.is_unexpected_eof())))
                &&& (!self.spec_length_ok(payload_len as int) ==> (r matches Err(e) && e.is_invalid_frame()))
            },
    ;
}

/// A deframer that can be retried at the same absolute offset after an
/// incomplete read: it keeps no state between calls, so a positioned read
/// that seeks back to the frame start parses it afresh.
pub trait RetrySafeDeframer: Deframer {
}

/// `consumed` holds a complete 4-byte length and ends inside the frame it
/// starts: inside the `width`-byte checksum field, or (for a declared length
/// within `max`) before the payload is complete.
pub open spec fn spec_torn_frame(consumed: Seq<u8>, width: nat, max: usize) -> bool {
    &&& consumed.len() >= 4
    &&& consumed.len() < 4 + width || (le_value(consumed.take(4)) <= max && consumed.len() < 4 + width
        + le_value(consumed.take(4)))
}

/// The payload a default-format deframer with bound `max` accepts in `frame`.
pub open spec fn spec_default_accepts(frame: Seq<u8>, max: usize) -> Option<Seq<u8>> {
    match spec_parse(frame, 0, max) {
        Some((payload, _)) => Some(payload),
        None => None,
    }
}

/// The outcome of one read by a deframer with a `width`-byte checksum field,
/// bound `max`, that consumed `delta`: a clean boundary consumes nothing; a
/// header cut short, or a payload cut short after an in-bounds header, is
/// `UnexpectedEof` (or an I/O fault); an oversized declared length fails
/// right after the header with `InvalidFrame`.
pub open spec fn spec_incomplete_read(delta: Seq<u8>, width: nat, max: usize, e: Error) -> bool {
    if delta.len() < 4 + width {
        e.is_io() || (e.is_unexpected_eof() && delta.len() > 0)
    } else if le_value(delta.take(4)) > max {
        delta.len() == 4 + width && e.is_invalid_frame_with(
            Some(le_value(delta.take(4)) as usize),
            Some(max),
        )
    } else {
        delta.len() < 4 + width + le_value(delta.take(4)) && (e.is_io() || e.is_unexpected_eof())
    }
}

/// The default deframing strategy for `[4-byte length | payload]` streams.
#[derive(Clone, Copy)]
pub struct DefaultDeframer {
    max_frame_len: usize,
}

impl DefaultDeframer {
    /// The largest accepted payload length.
    pub closed spec fn max_frame_len(&self) -> usize {
        self.max_frame_len
    }

    /// A deframer accepting payloads up to [`DEFAULT_MAX_FRAME_LEN`].
    pub fn new() -> (r: Self)
        ensures
            r.max_frame_len() == DEFAULT_MAX_FRAME_LEN,
    {
        DefaultDeframer { max_frame_len: DEFAULT_MAX_FRAME_LEN }
    }

    /// Sets the maximum accepted payload length (enforced before allocation).
    #[must_use]
    pub fn with_max_frame_len(self, max: usize) -> (r: Self)
        ensures
            r.max_frame_len() == max,
    {
        DefaultDeframer { max_frame_len: max }
    }
}

impl Default for DefaultDeframer {
    fn default() -> (r: Self)
        ensures
            r.max_frame_len() == DEFAULT_MAX_FRAME_LEN,
    {
        Self::new()
    }
}

impl Deframer for DefaultDeframer {
    open spec fn obeys_deframer_spec(&self) -> bool {
        true
    }

    open spec fn spec_accepts(&self, frame: Seq<u8>) -> Option<Seq<u8>> {
        spec_default_accepts(frame, self.max_frame_len())
    }

    open spec fn spec_torn(&self, consumed: Seq<u8>) -> bool {
        spec_torn_frame(consumed, 0, self.max_frame_len())
    }

    open spec fn spec_length_ok(&self, payload_len: int) -> bool {
        payload_len <= self.max_frame_len()
    }


    fn read_and_deframe<R: ByteSource>(&self, reader: &mut CountingReader<R>, buffer: &mut Vec<u8>) -> (r:
        Result<Option<usize>, Error>)
        ensures
            r matches Err(e) ==> spec_incomplete_read(
                final(reader).delivered_since(&*old(reader)),
                0,
                self.max_frame_len(),
                e,
            ),
    {
        if buffer.len() < 4 {
            buffer.resize(4, 0);
        }
        let ghost r0 = *reader;
        match read_header(reader, buffer, 4) {
            Ok(Some(())) => {},
            Ok(None) => {
                return Ok(None);
            },
            Err(e) => {
                return Err(e);
            },
        }
        let ghost header = buffer@.take(4);
        let ghost r1 = *reader;
        let payload_len = read_u32_le(buffer.as_slice());
        proof {
            r1.lemma_extends_position(&r0);
        }
        let result = self.read_after_length(reader, buffer, payload_len);
        proof {
            reader.lemma_follows_trans(&r1, &r0);
            reader.lemma_extends_trans(&r1, &r0);
            lemma_le_bytes_of_value(header);
            assert(le_bytes(payload_len as u64, 4) == header);
            let delta = reader.delivered_since(&r0);
            assert(delta.take(4) =~= header);
            assert(delta.skip(4) =~= reader.delivered_since(&r1));
            if let Some(c) = r0.content() {
                assert(header == c.take(4));
                assert(le_bytes(payload_len as u64, 4) + c.skip(4) =~= c);
                assert(r1.content() == Some(c.skip(4)));
                assert forall|f: Seq<u8>|
                    #![trigger self.spec_accepts(f)]
                    f.len() >= 4 && f.is_prefix_of(c) && self.spec_accepts(f) is Some && r0.position()
                        + f.len() <= u64::MAX implies (result matches Ok(Some(_))
                    && reader.delivered_since(&r0) == f) by {
                    lemma_prefix_after_header(c, f, 4);
                    assert(header == c.take(4));
                    assert(le_bytes(payload_len as u64, 4) + f.skip(4) =~= f);
                    assert(self.spec_accepts(le_bytes(payload_len as u64, 4) + f.skip(4)) is Some);
                    assert(delta =~= header + reader.delivered_since(&r1));
                }
            }
        }
        result
    }

    fn read_after_length<R: ByteSource>(
        &self,
        reader: &mut CountingReader<R>,
        buffer: &mut Vec<u8>,
        payload_len: usize,
    ) -> (r: Result<Option<usize>, Error>)
        ensures
            r matches Ok(n) ==> n == Some(payload_len) && payload_len <= self.max_frame_len(),
            r matches Err(e) ==> if payload_len > self.max_frame_len() {
                &&& e.is_invalid_frame_with(Some(payload_len), Some(self.max_frame_len()))
                &&& final(reader).delivered_since(&*old(reader)) == Seq::<u8>::empty()
            } else {
                &&& e.is_io() || e.is_unexpected_eof()
                &&& final(reader).delivered_since(&*old(reader)).len() < payload_len
            },
    {
        let ghost r0 = *reader;
        proof {
            if let Some(c) = r0.content() {
                assert forall|f: Seq<u8>|
                    #![trigger self.spec_accepts(le_bytes(payload_len as u64, 4) + f)]
                    self.spec_accepts(le_bytes(payload_len as u64, 4) + f) is Some implies payload_len
                    <= self.max_frame_len() && f.len() == payload_len by {
                    lemma_parse_after_length(payload_len, f, 0, self.max_frame_len());
                }
                lemma_le_roundtrip_u32(payload_len as u64);
                assert((le_bytes(payload_len as u64, 4) + c).take(4) =~= le_bytes(payload_len as u64, 4));
            }
        }
        match check_frame_len(payload_len, self.max_frame_len) {
            Ok(()) => {},
            Err(e) => {
                proof {
                    reader.lemma_extends_refl();
                    reader.lemma_follows_refl();
                }
                return Err(e);
            },
        }
        let result = read_payload(reader, buffer, payload_len);
        match result {
            Ok(()) => {
                proof {
                    let frame = le_bytes(payload_len as u64, 4) + reader.delivered_since(&r0);
                    lemma_le_roundtrip_u32(payload_len as u64);
                    assert(frame.take(4) =~= le_bytes(payload_len as u64, 4));
                    assert(frame.skip(4) =~= reader.delivered_since(&r0));
                    if let Some(c) = r0.content() {
                        assert forall|f: Seq<u8>|
                            #![trigger self.spec_accepts(le_bytes(payload_len as u64, 4) + f)]
                            f.is_prefix_of(c) && self.spec_accepts(le_bytes(payload_len as u64, 4) + f)
                                is Some && r0.position() + f.len() <= u64::MAX implies reader.delivered_since(
                            &r0,
                        ) == f by {
                            lemma_prefix_after_header(c, f, f.len() as int);
                            assert(f.take(f.len() as int) =~= f);
                        }
                    }
                }
                Ok(Some(payload_len))
            },
            Err(e) => {
                proof {
                    let frame = le_bytes(payload_len as u64, 4) + reader.delivered_since(&r0);
                    lemma_le_roundtrip_u32(payload_len as u64);
                    assert(frame.take(4) =~= le_bytes(payload_len as u64, 4));
                }
                Err(e)
            },
        }
    }
}

/// The payload of `frame` when it is a complete frame with a `C::SIZE`-byte
/// checksum field, a declared length at most `max`, and a checksum that
/// matches its payload modulo the field's width.
pub open spec fn spec_checksum_accepts<C: Checksum>(alg: C, frame: Seq<u8>, max: usize) -> Option<Seq<u8>> {
    match spec_parse(frame, C::SIZE as nat, max) {
        Some((payload, field)) => if alg.spec_calculate(payload) & spec_width_mask(C::SIZE as u64)
            == le_value(field) & spec_width_mask(C::SIZE as u64) {
            Some(payload)
        } else {
            None
        },
        None => None,
    }
}

/// A deframing strategy that verifies a checksum: reads streams written by a
/// matching [`ChecksumFramer`].
pub struct ChecksumDeframer<C: Checksum> {
    checksum_alg: C,
    max_frame_len: usize,
}

impl<C: Checksum> ChecksumDeframer<C> {
    #[verifier::type_invariant]
    spec fn width_fits(self) -> bool {
        C::SIZE <= 8
    }

    /// The checksum algorithm.
    pub closed spec fn algorithm(&self) -> C {
        self.checksum_alg
    }

    /// The largest accepted payload length.
    pub closed spec fn max_frame_len(&self) -> usize {
        self.max_frame_len
    }

    /// A deframer using `checksum_alg` (at most 8 bytes wide), accepting
    /// payloads up to [`DEFAULT_MAX_FRAME_LEN`].
    pub fn new(checksum_alg: C) -> (r: Self)
        requires
            C::SIZE <= 8,
        ensures
            r.algorithm() == checksum_alg,
            r.max_frame_len() == DEFAULT_MAX_FRAME_LEN,
    {
        ChecksumDeframer { checksum_alg, max_frame_len: DEFAULT_MAX_FRAME_LEN }
    }

    /// Sets the maximum accepted payload length (enforced before allocation).
    #[must_use]
    pub fn with_max_frame_len(self, max: usize) -> (r: Self)
        ensures
            r.algorithm() == self.algorithm(),
            r.max_frame_len() == max,
    {
        proof {
            use_type_invariant(&self);
        }
        ChecksumDeframer { checksum_alg: self.checksum_alg, max_frame_len: max }
    }
}

impl<C: Checksum + Clone> Clone for ChecksumDeframer<C> {
    fn clone(&self) -> (r: Self)
        ensures
            r.max_frame_len() == self.max_frame_len(),
    {
        proof {
            use_type_invariant(self);
        }
        ChecksumDeframer { checksum_alg: self.checksum_alg.clone(), max_frame_len: self.max_frame_len }
    }
}

impl<C: Checksum> Deframer for ChecksumDeframer<C> {
    open spec fn obeys_deframer_spec(&self) -> bool {
        self.algorithm().obeys_checksum_spec()
    }

    open spec fn spec_accepts(&self, frame: Seq<u8>) -> Option<Seq<u8>> {
        spec_checksum_accepts(self.algorithm(), frame, self.max_frame_len())
    }

    open spec fn spec_torn(&self, consumed: Seq<u8>) -> bool {
        spec_torn_frame(consumed, C::SIZE as nat, self.max_frame_len())
    }

    open spec fn spec_length_ok(&self, payload_len: int) -> bool {
        payload_len <= self.max_frame_len()
    }

    open spec fn spec_header_len(&self) -> nat {
        (4 + C::SIZE) as nat
    }

    fn read_and_deframe<R: ByteSource>(&self, reader: &mut CountingReader<R>, buffer: &mut Vec<u8>) -> (r:
        Result<Option<usize>, Error>)
        ensures
            r matches Err(e) ==> spec_incomplete_read(
                final(reader).delivered_since(&*old(reader)),
                C::SIZE as nat,
                self.max_frame_len(),
                e,
            ) || (self.algorithm().obeys_checksum_spec() ==> (spec_parse(
                final(reader).delivered_since(&*old(reader)),
                C::SIZE as nat,
                self.max_frame_len(),
            ) matches Some((p, f)) && spec_checksum_accepts(
                self.algorithm(),
                final(reader).delivered_since(&*old(reader)),
                self.max_frame_len(),
            ) is None && e.is_checksum_mismatch(le_value(f), self.algorithm().spec_calculate(p)))),
    {
        proof {
            use_type_invariant(self);
        }
        let header_len = 4 + C::SIZE;
        if buffer.len() < header_len {
            buffer.resize(header_len, 0);
        }
        let ghost r0 = *reader;
        let ghost owed: bool = r0.content() matches Some(c) && exists|f: Seq<u8>|
            #![trigger self.spec_accepts(f)]
            f.len() >= 4 && f.is_prefix_of(c) && self.spec_accepts(f) is Some && r0.position() + f.len()
                <= u64::MAX;
        let ghost c0: Seq<u8> = match r0.content() {
            Some(c) => c,
            None => Seq::empty(),
        };
        let ghost want: int = 4 + C::SIZE + le_value(c0.take(4));
        proof {
            if let Some(c) = r0.content() {
                assert forall|f: Seq<u8>|
                    #![trigger self.spec_accepts(f)]
                    f.len() >= 4 && f.is_prefix_of(c) && self.spec_accepts(f) is Some implies f.len() == want
                        && f == c.take(want) by {
                    lemma_checksum_owed(self.algorithm(), self.max_frame_len(), c, f);
                }
                if owed {
                    let f = choose|f: Seq<u8>|
                        #![trigger self.spec_accepts(f)]
                        f.len() >= 4 && f.is_prefix_of(c) && self.spec_accepts(f) is Some && r0.position()
                            + f.len() <= u64::MAX;
                    lemma_checksum_owed(self.algorithm(), self.max_frame_len(), c, f);
                    assert(c.len() >= want);
                }
            }
        }
        match read_header(reader, buffer, header_len) {
            Ok(Some(())) => {},
            Ok(None) => {
                return Ok(None);
            },
            Err(e) => {
                return Err(e);
            },
        }
        let ghost header = buffer@.take(header_len as int);
        let ghost r1 = *reader;
        let payload_len = read_u32_le(buffer.as_slice());
        proof {
            assert(header.take(4) =~= buffer@.take(4));
            r1.lemma_extends_position(&r0);
            if r0.content() is Some {
                assert(header == c0.take(header_len as int));
                assert(header.take(4) =~= c0.take(4));
                assert(r1.content() == Some(c0.skip(header_len as int)));
            }
        }
        match check_frame_len(payload_len, self.max_frame_len) {
            Ok(()) => {},
            Err(e) => {
                return Err(e);
            },
        }
        let expected = self.checksum_alg.read_bytes(&buffer.as_slice()[4..header_len]);
        proof {
            assert(buffer@.subrange(4, header_len as int).take(C::SIZE as int) =~= header.subrange(4, 4 + C::SIZE));
        }
        let payload_read = read_payload(reader, buffer, payload_len);
        proof {
            reader.lemma_follows_trans(&r1, &r0);
            reader.lemma_extends_trans(&r1, &r0);
            let delta = reader.delivered_since(&r0);
            assert(delta.take(4) =~= header.take(4));
            assert(delta.take(header_len as int) =~= header);
            assert(delta.skip(header_len as int) =~= reader.delivered_since(&r1));
            assert(delta.subrange(4, 4 + C::SIZE) =~= header.subrange(4, 4 + C::SIZE));
            if owed && payload_read is Ok {
                assert(delta =~= c0.take(want));
            }
        }
        match payload_read {
            Ok(()) => {},
            Err(e) => {
                return Err(e);
            },
        }
        let payload = vstd::slice::slice_subrange(buffer.as_slice(), 0, payload_len);
        proof {
            assert(payload@ =~= buffer@.take(payload_len as int));
            if owed {
                assert(payload@ =~= c0.subrange(header_len as int, want));
                assert(header.subrange(4, 4 + C::SIZE) =~= c0.subrange(4, 4 + C::SIZE));
            }
        }
        match self.checksum_alg.verify(expected, payload) {
            Ok(()) => Ok(Some(payload_len)),
            Err(e) => Err(e),
        }
    }

    #[verifier::rlimit(100)]
    #[verifier::spinoff_prover]
    fn read_after_length<R: ByteSource>(
        &self,
        reader: &mut CountingReader<R>,
        buffer: &mut Vec<u8>,
        payload_len: usize,
    ) -> (r: Result<Option<usize>, Error>)
        ensures
            r matches Ok(n) ==> n == Some(payload_len) && payload_len <= self.max_frame_len(),
            r matches Err(e) ==> if payload_len > self.max_frame_len() {
                &&& e.is_invalid_frame_with(Some(payload_len), Some(self.max_frame_len()))
                &&& final(reader).delivered_since(&*old(reader)) == Seq::<u8>::empty()
            } else {
                ||| (e.is_io() || e.is_unexpected_eof()) && final(reader).delivered_since(
                    &*old(reader),
                ).len() < C::SIZE + payload_len
                ||| final(reader).delivered_since(&*old(reader)).len() == C::SIZE + payload_len
                    && !self.algorithm().obeys_checksum_spec()
                ||| final(reader).delivered_since(&*old(reader)).len() == C::SIZE + payload_len
                    && spec_checksum_accepts(
                    self.algorithm(),
                    le_bytes(payload_len as u64, 4) + final(reader).delivered_since(&*old(reader)),
                    self.max_frame_len(),
                ) is None && e.is_checksum_mismatch(
                    le_value(final(reader).delivered_since(&*old(reader)).take(C::SIZE as int)),
                    self.algorithm().spec_calculate(
                        final(reader).delivered_since(&*old(reader)).skip(C::SIZE as int),
                    ),
                )
            },
    {
        proof {
            use_type_invariant(self);
        }
        let ghost r0 = *reader;
        let ghost owed: bool = r0.content() matches Some(c) && exists|f: Seq<u8>|
            #![trigger self.spec_accepts(le_bytes(payload_len as u64, 4) + f)]
            f.is_prefix_of(c) && self.spec_accepts(le_bytes(payload_len as u64, 4) + f) is Some
                && r0.position() + f.len() <= u64::MAX;
        let ghost c0: Seq<u8> = match r0.content() {
            Some(c) => c,
            None => Seq::empty(),
        };
        let ghost want: int = C::SIZE + payload_len;
        proof {
            if let Some(c) = r0.content() {
                assert forall|f: Seq<u8>|
                    #![trigger self.spec_accepts(le_bytes(payload_len as u64, 4) + f)]
                    f.is_prefix_of(c) && self.spec_accepts(le_bytes(payload_len as u64, 4) + f)
                        is Some implies f.len() == want && f == c.take(want) by {
                    lemma_checksum_owed_after_length(self.algorithm(), self.max_frame_len(), payload_len, c, f);
                }
                if owed {
                    let f = choose|f: Seq<u8>|
                        #![trigger self.spec_accepts(le_bytes(payload_len as u64, 4) + f)]
                        f.is_prefix_of(c) && self.spec_accepts(le_bytes(payload_len as u64, 4) + f) is Some
                            && r0.position() + f.len() <= u64::MAX;
                    lemma_checksum_owed_after_length(self.algorithm(), self.max_frame_len(), payload_len, c, f);
                    assert(c.len() >= want);
                }
                lemma_le_roundtrip_u32(payload_len as u64);
                assert((le_bytes(payload_len as u64, 4) + c).take(4) =~= le_bytes(payload_len as u64, 4));
            }
        }
        match check_frame_len(payload_len, self.max_frame_len) {
            Ok(()) => {},
            Err(e) => {
                proof {
                    reader.lemma_extends_refl();
                    reader.lemma_follows_refl();
                }
                return Err(e);
            },
        }
        if buffer.len() < C::SIZE {
            buffer.resize(C::SIZE, 0);
        }
        let field_read = read_exact(reader, buffer, 0, C::SIZE);
        let ghost field = buffer@.take(C::SIZE as int);
        let ghost r1 = *reader;
        proof {
            assert(buffer@.subrange(0, 0 + reader.delivered_since(&r0).len() as int) =~= buffer@.take(
                reader.delivered_since(&r0).len() as int,
            ));
        }
        match field_read {
            Ok(()) => {},
            Err(failure) => {
                proof {
                    let frame = le_bytes(payload_len as u64, 4) + reader.delivered_since(&r0);
                    assert(frame.len() == 4 + reader.delivered_since(&r0).len());
                }
                return Err(torn(failure));
            },
        }
        let expected = self.checksum_alg.read_bytes(buffer.as_slice());
        proof {
            assert(buffer@.take(C::SIZE as int) =~= field);
            r1.lemma_extends_position(&r0);
            if r0.content() is Some {
                assert(field == c0.take(C::SIZE as int));
                assert(r1.content() == Some(c0.skip(C::SIZE as int)));
            }
        }
        let payload_read = read_payload(reader, buffer, payload_len);
        proof {
            reader.lemma_follows_trans(&r1, &r0);
            reader.lemma_extends_trans(&r1, &r0);
            let delta = reader.delivered_since(&r0);
            assert(delta.take(C::SIZE as int) =~= field);
            assert(delta.skip(C::SIZE as int) =~= reader.delivered_since(&r1));
            if owed && payload_read is Ok {
                assert(delta =~= c0.take(want));
            }
        }
        match payload_read {
            Ok(()) => {},
            Err(e) => {
                proof {
                    let frame = le_bytes(payload_len as u64, 4) + reader.delivered_since(&r0);
                    lemma_le_roundtrip_u32(payload_len as u64);
                    assert(frame.take(4) =~= le_bytes(payload_len as u64, 4));
                }
                return Err(e);
            },
        }
        let payload = vstd::slice::slice_subrange(buffer.as_slice(), 0, payload_len);
        proof {
            assert(payload@ =~= buffer@.take(payload_len as int));
            let delta = reader.delivered_since(&r0);
            let frame = le_bytes(payload_len as u64, 4) + delta;
            lemma_le_roundtrip_u32(payload_len as u64);
            assert(frame.take(4) =~= le_bytes(payload_len as u64, 4));
            assert(frame.skip(4 + C::SIZE) =~= delta.skip(C::SIZE as int));
            assert(frame.subrange(4, 4 + C::SIZE) =~= field);
            if owed {
                assert(payload@ =~= c0.subrange(C::SIZE as int, want));
            }
        }
        match self.checksum_alg.verify(expected, payload) {
            Ok(()) => Ok(Some(payload_len)),
            Err(e) => Err(e),
        }
    }
}

/// Validates each payload after it is deframed (and after any checksum
/// verification), before it is handed to the application.
#[derive(Clone, Copy)]
pub struct ValidatingDeframer<D: Deframer, V: Validator> {
    inner: D,
    validator: V,
}

impl<D: Deframer, V: Validator> ValidatingDeframer<D, V> {
    /// The wrapped deframer.
    pub closed spec fn inner(&self) -> D {
        self.inner
    }

    /// The validator.
    pub closed spec fn validator(&self) -> V {
        self.validator
    }

    pub fn new(inner: D, validator: V) -> (r: Self)
        ensures
            r.inner() == inner,
            r.validator() == validator,
    {
        ValidatingDeframer { inner, validator }
    }
}

impl<D: Deframer, V: Validator> Deframer for ValidatingDeframer<D, V> {
    open spec fn obeys_deframer_spec(&self) -> bool {
        self.inner().obeys_deframer_spec() && self.validator().obeys_validator_spec()
    }

    open spec fn spec_accepts(&self, frame: Seq<u8>) -> Option<Seq<u8>> {
        match self.inner().spec_accepts(frame) {
            Some(payload) => if self.validator().spec_accepts(payload) {
                Some(payload)
            } else {
                None
            },
            None => None,
        }
    }

    open spec fn spec_torn(&self, consumed: Seq<u8>) -> bool {
        self.inner().spec_torn(consumed)
    }

    open spec fn spec_length_ok(&self, payload_len: int) -> bool {
        self.inner().spec_length_ok(payload_len)
    }

    open spec fn spec_header_len(&self) -> nat {
        self.inner().spec_header_len()
    }

    fn read_and_deframe<R: ByteSource>(&self, reader: &mut CountingReader<R>, buffer: &mut Vec<u8>) -> (r:
        Result<Option<usize>, Error>) {
        match self.inner.read_and_deframe(reader, buffer) {
            Ok(Some(n)) => {
                let payload = vstd::slice::slice_subrange(buffer.as_slice(), 0, n);
                proof {
                    assert(payload@ =~= buffer@.take(n as int));
                }
                match self.validator.validate(payload) {
                    Ok(()) => Ok(Some(n)),
                    Err(e) => Err(e),
                }
            },
            Ok(None) => Ok(None),
            Err(e) => Err(e),
        }
    }

    fn read_after_length<R: ByteSource>(
        &self,
        reader: &mut CountingReader<R>,
        buffer: &mut Vec<u8>,
        payload_len: usize,
    ) -> (r: Result<Option<usize>, Error>) {
        match self.inner.read_after_length(reader, buffer, payload_len) {
            Ok(Some(n)) => {
                let payload = vstd::slice::slice_subrange(buffer.as_slice(), 0, n);
                proof {
                    assert(payload@ =~= buffer@.take(n as int));
                }
                match self.validator.validate(payload) {
                    Ok(()) => Ok(Some(n)),
                    Err(e) => Err(e),
                }
            },
            Ok(None) => Ok(None),
            Err(e) => Err(e),
        }
    }
}

/// `callback` was called with exactly the bytes `payload`.
pub open spec fn spec_called_with<C: Fn(&[u8])>(callback: C, payload: Seq<u8>) -> bool {
    exists|p: &[u8]| p@ == payload && #[trigger] call_ensures(callback, (p,), ())
}

/// Invokes a callback with each payload, once, after the inner deframer succeeds.
pub struct ObserverDeframer<D: Deframer, C: Fn(&[u8])> {
    inner: D,
    callback: C,
}

impl<D: Deframer, C: Fn(&[u8])> ObserverDeframer<D, C> {
    #[verifier::type_invariant]
    spec fn callable(self) -> bool {
        forall|p: &[u8]| #[trigger] self.callback.requires((p,))
    }

    /// The wrapped deframer.
    pub closed spec fn inner(&self) -> D {
        self.inner
    }

    /// The callback.
    pub closed spec fn callback(&self) -> C {
        self.callback
    }

    /// An observer around `inner`; the callback must accept every payload.
    pub fn new(inner: D, callback: C) -> (r: Self)
        requires
            forall|p: &[u8]| #[trigger] callback.requires((p,)),
        ensures
            r.inner() == inner,
    {
        ObserverDeframer { inner, callback }
    }
}

impl<D: Deframer, C: Fn(&[u8])> Deframer for ObserverDeframer<D, C> {
    open spec fn obeys_deframer_spec(&self) -> bool {
        self.inner().obeys_deframer_spec()
    }

    open spec fn spec_accepts(&self, frame: Seq<u8>) -> Option<Seq<u8>> {
        self.inner().spec_accepts(frame)
    }

    open spec fn spec_torn(&self, consumed: Seq<u8>) -> bool {
        self.inner().spec_torn(consumed)
    }

    open spec fn spec_length_ok(&self, payload_len: int) -> bool {
        self.inner().spec_length_ok(payload_len)
    }

    open spec fn spec_header_len(&self) -> nat {
        self.inner().spec_header_len()
    }

    /// The callback sees exactly the payload returned, `buffer[..n]`.
    fn read_and_deframe<R: ByteSource>(&self, reader: &mut CountingReader<R>, buffer: &mut Vec<u8>) -> (r:
        Result<Option<usize>, Error>)
        ensures
            r matches Ok(Some(n)) ==> spec_called_with(self.callback(), final(buffer)@.take(n as int)),
    {
        proof {
            use_type_invariant(self);
        }
        match self.inner.read_and_deframe(reader, buffer) {
            Ok(Some(n)) => {
                let payload = vstd::slice::slice_subrange(buffer.as_slice(), 0, n);
                (self.callback)(payload);
                proof {
                    assert(payload@ =~= buffer@.take(n as int));
                }
                Ok(Some(n))
            },
            Ok(None) => Ok(None),
            Err(e) => Err(e),
        }
    }

    fn read_after_length<R: ByteSource>(
        &self,
        reader: &mut CountingReader<R>,
        buffer: &mut Vec<u8>,
        payload_len: usize,
    ) -> (r: Result<Option<usize>, Error>)
        ensures
            r matches Ok(Some(n)) ==> spec_called_with(self.callback(), final(buffer)@.take(n as int)),
    {
        proof {
            use_type_invariant(self);
        }
        match self.inner.read_after_length(reader, buffer, payload_len) {
            Ok(Some(n)) => {
                let payload = vstd::slice::slice_subrange(buffer.as_slice(), 0, n);
                (self.callback)(payload);
                proof {
                    assert(payload@ =~= buffer@.take(n as int));
                }
                Ok(Some(n))
            },
            Ok(None) => Ok(None),
            Err(e) => Err(e),
        }
    }
}

/// `frames` are complete frames that `deframer` accepts, yielding `payloads`
/// in order.
pub open spec fn spec_accepted_frames<D: Deframer>(deframer: D, frames: Seq<Seq<u8>>, payloads: Seq<Seq<u8>>) -> bool {
    &&& frames.len() == payloads.len()
    &&& forall|i: int| 0 <= i < frames.len() ==> #[trigger] deframer.spec_accepts(frames[i]) == Some(payloads[i])
}

/// `content` is exactly the run of complete frames `frames`, each accepted by
/// the deframer (with payload `payloads[i]`) and at least a length header long.
pub open spec fn spec_frame_run<D: Deframer>(
    deframer: D,
    content: Seq<u8>,
    frames: Seq<Seq<u8>>,
    payloads: Seq<Seq<u8>>,
) -> bool {
    &&& spec_accepted_frames(deframer, frames, payloads)
    &&& forall|i: int| 0 <= i < frames.len() ==> #[trigger] frames[i].len() >= 4
    &&& frames.flatten_alt() == content
}

/// Fluent composition of framer adapters.
pub trait FramerExt: Framer + Sized {
    /// Enforces a maximum payload length.
    #[must_use]
    fn bounded(self, max: usize) -> (r: BoundedFramer<Self>)
        ensures
            r.inner() == self,
            r.max_len() == max,
    {
        BoundedFramer::new(self, max)
    }

    /// Observes payloads on the write path without copying.
    #[must_use]
    fn observed<C: Fn(&[u8])>(self, callback: C) -> (r: ObserverFramer<Self, C>)
        requires
            forall|p: &[u8]| #[trigger] callback.requires((p,)),
        ensures
            r.inner() == self,
    {
        ObserverFramer::new(self, callback)
    }

    /// Adds a validation layer to this framer.
    #[must_use]
    fn with_validator<V: Validator>(self, validator: V) -> (r: ValidatingFramer<Self, V>)
        ensures
            r.inner() == self,
            r.validator() == validator,
    {
        ValidatingFramer::new(self, validator)
    }
}

impl<T: Framer> FramerExt for T {

}

/// Fluent composition of deframer adapters.
pub trait DeframerExt: Deframer + Sized {
    /// Observes payloads on the read path without copying.
    #[must_use]
    fn observed<C: Fn(&[u8])>(self, callback: C) -> (r: ObserverDeframer<Self, C>)
        requires
            forall|p: &[u8]| #[trigger] callback.requires((p,)),
        ensures
            r.inner() == self,
    {
        ObserverDeframer::new(self, callback)
    }

    /// Adds a validation layer to this deframer.
    #[must_use]
    fn with_validator<V: Validator>(self, validator: V) -> (r: ValidatingDeframer<Self, V>)
        ensures
            r.inner() == self,
            r.validator() == validator,
    {
        ValidatingDeframer::new(self, validator)
    }
}

impl<T: Deframer> DeframerExt for T {

}

/// A frame parses back into the payload and checksum field it was built from.
pub proof fn lemma_parse_frame(field: Seq<u8>, payload: Seq<u8>, max: usize)
    requires
        payload.len() <= max,
        payload.len() <= MAX_WIRE_FRAME_LEN,
    ensures
        spec_parse(spec_frame(field, payload), field.len(), max) == Some((payload, field)),
{
    let frame = spec_frame(field, payload);
    lemma_le_roundtrip_u32(payload.len() as u64);
    assert(frame.take(4) =~= le_bytes(payload.len() as u64, 4));
    assert(frame.skip(4 + field.len() as int) =~= payload);
    assert(frame.subrange(4, 4 + field.len() as int) =~= field);
}

/// What the default framer writes, the default deframer reads back: for a
/// payload within the deframer's bound, the frame is accepted and yields the
/// payload.
pub proof fn lemma_default_roundtrip(deframer: DefaultDeframer, payload: Seq<u8>)
    requires
        payload.len() <= deframer.max_frame_len(),
        payload.len() <= MAX_WIRE_FRAME_LEN,
    ensures
        DefaultFramer.spec_frame_of(payload) is Some,
        deframer.spec_accepts(DefaultFramer.spec_frame_of(payload)->Some_0) == Some(payload),
{
    lemma_parse_frame(Seq::empty(), payload, deframer.max_frame_len());
}

/// What a checksum framer writes, a deframer with the same algorithm reads
/// back: the frame is accepted (its checksum verifies) and yields the payload.
pub proof fn lemma_checksum_roundtrip<C: Checksum>(
    framer: ChecksumFramer<C>,
    deframer: ChecksumDeframer<C>,
    payload: Seq<u8>,
)
    requires
        C::SIZE <= 8,
        framer.algorithm() == deframer.algorithm(),
        payload.len() <= deframer.max_frame_len(),
        payload.len() <= MAX_WIRE_FRAME_LEN,
    ensures
        framer.spec_frame_of(payload) is Some,
        deframer.spec_accepts(framer.spec_frame_of(payload)->Some_0) == Some(payload),
{
    let c = framer.algorithm().spec_calculate(payload);
    let field = le_bytes(c, C::SIZE as nat);
    lemma_parse_frame(field, payload, deframer.max_frame_len());
    lemma_le_roundtrip(c, C::SIZE as nat);
    lemma_mask_idempotent(c, C::SIZE as u64);
}

/// Frames are self-delimiting: two frames of one format at the front of the
/// same byte stream are the same frame.
pub proof fn lemma_frames_self_delimiting(
    a: Seq<u8>,
    b: Seq<u8>,
    rest_a: Seq<u8>,
    rest_b: Seq<u8>,
    width: nat,
    max: usize,
)
    requires
        spec_parse(a, width, max) is Some,
        spec_parse(b, width, max) is Some,
        a + rest_a == b + rest_b,
    ensures
        a == b,
        rest_a == rest_b,
{
    assert(a.take(4) =~= (a + rest_a).take(4));
    assert(b.take(4) =~= (b + rest_b).take(4));
    assert(a =~= (a + rest_a).take(a.len() as int));
    assert(b =~= (b + rest_b).take(b.len() as int));
    assert(rest_a =~= (a + rest_a).skip(a.len() as int));
    assert(rest_b =~= (b + rest_b).skip(b.len() as int));
}

/// The byte stream the default framer produces for `payloads`, in order.
pub open spec fn spec_default_stream(payloads: Seq<Seq<u8>>) -> Seq<u8>
    decreases payloads.len(),
{
    if payloads.len() == 0 {
        Seq::empty()
    } else {
        spec_default_stream(payloads.drop_last()) + spec_frame(Seq::empty(), payloads.last())
    }
}

/// Reading a default-framed stream yields its payloads in order: if the bytes
/// consumed so far are the frames of the first `k` payloads, the next frame a
/// default deframer accepts is the frame of payload `k`, and it yields that payload.
pub proof fn lemma_default_stream_next(
    deframer: DefaultDeframer,
    payloads: Seq<Seq<u8>>,
    k: int,
    delta: Seq<u8>,
    tail: Seq<u8>,
)
    requires
        0 <= k < payloads.len(),
        forall|i: int| 0 <= i < payloads.len() ==> #[trigger] payloads[i].len() <= deframer.max_frame_len()
            && payloads[i].len() <= MAX_WIRE_FRAME_LEN,
        spec_default_stream(payloads.take(k)) + delta + tail == spec_default_stream(payloads),
        deframer.spec_accepts(delta) is Some,
    ensures
        delta == spec_frame(Seq::empty(), payloads[k]),
        deframer.spec_accepts(delta) == Some(payloads[k]),
{
    let f = spec_frame(Seq::empty(), payloads[k]);
    lemma_default_stream_split(payloads, k);
    lemma_parse_frame(Seq::empty(), payloads[k], deframer.max_frame_len());
    let prefix = spec_default_stream(payloads.take(k));
    let rest_f = spec_default_stream(payloads).skip(prefix.len() + f.len() as int);
    let whole = spec_default_stream(payloads);
    assert(whole.subrange(0, prefix.len() + f.len() as int) =~= prefix + f);
    assert(whole =~= whole.subrange(0, prefix.len() + f.len() as int) + rest_f);
    assert(whole =~= prefix + (f + rest_f));
    assert(prefix + delta + tail =~= prefix + (delta + tail));
    assert(delta + tail =~= (prefix + (delta + tail)).skip(prefix.len() as int));
    assert(f + rest_f =~= (prefix + (f + rest_f)).skip(prefix.len() as int));
    lemma_frames_self_delimiting(delta, f, tail, rest_f, 0, deframer.max_frame_len());
}

/// The stream of the first `k + 1` payloads is the stream of the first `k`
/// followed by frame `k`, and it is a prefix of the whole stream.
pub(crate) proof fn lemma_default_stream_split(payloads: Seq<Seq<u8>>, k: int)
    requires
        0 <= k < payloads.len(),
    ensures
        spec_default_stream(payloads.take(k + 1)) == spec_default_stream(payloads.take(k))
            + spec_frame(Seq::empty(), payloads[k]),
        spec_default_stream(payloads.take(k + 1)).is_prefix_of(spec_default_stream(payloads)),
    decreases payloads.len(),
{
    assert(payloads.take(k + 1).drop_last() =~= payloads.take(k));
    if k + 1 == payloads.len() {
        assert(payloads.take(k + 1) =~= payloads);
        assert(spec_default_stream(payloads).is_prefix_of(spec_default_stream(payloads)));
    } else {
        let shorter = payloads.drop_last();
        assert(shorter.take(k) =~= payloads.take(k));
        assert(shorter.take(k + 1) =~= payloads.take(k + 1));
        lemma_default_stream_split(shorter, k);
        let s1 = spec_default_stream(payloads.take(k + 1));
        let s2 = spec_default_stream(shorter);
        assert(spec_default_stream(payloads) == s2 + spec_frame(Seq::empty(), payloads.last()));
        assert(s1.is_prefix_of(s2 + spec_frame(Seq::empty(), payloads.last()))) by {
            assert((s2 + spec_frame(Seq::empty(), payloads.last())).subrange(0, s1.len() as int)
                =~= s2.subrange(0, s1.len() as int));
        }
    }
}

impl RetrySafeDeframer for DefaultDeframer {
}

impl<C: Checksum> RetrySafeDeframer for ChecksumDeframer<C> {
}

impl<D: RetrySafeDeframer, V: Validator> RetrySafeDeframer for ValidatingDeframer<D, V> {
}

impl<D: RetrySafeDeframer, C: Fn(&[u8])> RetrySafeDeframer for ObserverDeframer<D, C> {
}

/// The first `j + 1` pieces concatenate to the first `j` and piece `j`.
pub(crate) proof fn lemma_flatten_take_next(frames: Seq<Seq<u8>>, j: int)
    requires
        0 <= j < frames.len(),
    ensures
        frames.take(j + 1).flatten_alt() == frames.take(j).flatten_alt() + frames[j],
{
    assert(frames.take(j + 1).drop_last() =~= frames.take(j));
}

/// The concatenation of the first `j` pieces is a prefix of the whole.
pub(crate) proof fn lemma_flatten_take_prefix(frames: Seq<Seq<u8>>, j: int)
    requires
        0 <= j <= frames.len(),
    ensures
        frames.take(j).flatten_alt().is_prefix_of(frames.flatten_alt()),
    decreases frames.len(),
{
    if j == frames.len() {
        assert(frames.take(j) =~= frames);
    } else {
        let shorter = frames.drop_last();
        assert(shorter.take(j) =~= frames.take(j));
        lemma_flatten_take_prefix(shorter, j);
        let a = frames.take(j).flatten_alt();
        let b = shorter.flatten_alt();
        assert(frames.flatten_alt() == b + frames.last());
        assert((b + frames.last()).subrange(0, a.len() as int) =~= b.subrange(0, a.len() as int));
    }
}

/// A prefix of a prefix is a prefix, and two prefixes of one sequence agree
/// on their common length.
pub(crate) proof fn lemma_prefix_trans(a: Seq<u8>, b: Seq<u8>, c: Seq<u8>)
    requires
        a.is_prefix_of(b),
        b.is_prefix_of(c),
    ensures
        a.is_prefix_of(c),
{
    assert(c.subrange(0, a.len() as int) =~= b.subrange(0, a.len() as int));
}

/// A prefix `a + f` of `d` splits `d` after `a` into `f` and the rest.
pub(crate) proof fn lemma_prefix_split(a: Seq<u8>, f: Seq<u8>, d: Seq<u8>)
    requires
        (a + f).is_prefix_of(d),
    ensures
        f + d.skip((a.len() + f.len()) as int) == d.skip(a.len() as int),
{
    let pre = d.subrange(0, (a.len() + f.len()) as int);
    assert(pre =~= a + f);
    let lhs = f + d.skip((a.len() + f.len()) as int);
    let rhs = d.skip(a.len() as int);
    assert forall|i: int| 0 <= i < rhs.len() implies #[trigger] lhs[i] == rhs[i] by {
        if i < f.len() {
            assert(pre[a.len() + i] == d[a.len() + i]);
            assert((a + f)[a.len() + i] == f[i]);
        }
    }
    assert(lhs =~= rhs);
}

/// Accepted default frames whose concatenation is a prefix of `stream + tail`
/// are, one by one, the frames of the stream's payloads (as far as both go).
pub(crate) proof fn lemma_frames_follow_stream(
    deframer: DefaultDeframer,
    frames: Seq<Seq<u8>>,
    payloads: Seq<Seq<u8>>,
    decoded: Seq<Seq<u8>>,
    delivered: Seq<u8>,
    j: int,
)
    requires
        spec_accepted_frames(deframer, frames, decoded),
        forall|i: int|
            0 <= i < payloads.len() ==> #[trigger] payloads[i].len() <= deframer.max_frame_len()
                && payloads[i].len() <= MAX_WIRE_FRAME_LEN,
        frames.flatten_alt().is_prefix_of(delivered),
        spec_default_stream(payloads).is_prefix_of(delivered),
        0 <= j <= frames.len(),
        j <= payloads.len(),
    ensures
        frames.take(j).flatten_alt() == spec_default_stream(payloads.take(j)),
        forall|i: int| 0 <= i < j ==> #[trigger] frames[i] == spec_frame(Seq::empty(), payloads[i]),
    decreases j,
{
    if j == 0 {
        assert(frames.take(0) =~= Seq::<Seq<u8>>::empty());
        assert(payloads.take(0) =~= Seq::<Seq<u8>>::empty());
    } else {
        let i = j - 1;
        lemma_frames_follow_stream(deframer, frames, payloads, decoded, delivered, i);
        let a = spec_default_stream(payloads.take(i));
        let f = frames[i];
        let g = spec_frame(Seq::empty(), payloads[i]);
        lemma_flatten_take_next(frames, i);
        lemma_flatten_take_prefix(frames, j);
        lemma_prefix_trans(frames.take(j).flatten_alt(), frames.flatten_alt(), delivered);
        lemma_default_stream_split(payloads, i);
        lemma_prefix_trans(spec_default_stream(payloads.take(j)), spec_default_stream(payloads), delivered);
        assert(deframer.spec_accepts(frames[i]) == Some(decoded[i]));
        lemma_parse_frame(Seq::empty(), payloads[i], deframer.max_frame_len());
        lemma_prefix_split(a, f, delivered);
        lemma_prefix_split(a, g, delivered);
        lemma_frames_self_delimiting(
            f,
            g,
            delivered.skip((a.len() + f.len()) as int),
            delivered.skip((a.len() + g.len()) as int),
            0,
            deframer.max_frame_len(),
        );
    }
}

/// Reading a default-framed stream back yields exactly its payloads, in
/// order: frames a default deframer accepts whose concatenation is the stream
/// the default framer writes for `payloads` are that stream's frames, one per
/// payload, and they decode to `payloads`.
pub proof fn lemma_default_stream_reads_back(
    deframer: DefaultDeframer,
    payloads: Seq<Seq<u8>>,
    frames: Seq<Seq<u8>>,
    decoded: Seq<Seq<u8>>,
)
    requires
        forall|i: int|
            0 <= i < payloads.len() ==> #[trigger] payloads[i].len() <= deframer.max_frame_len()
                && payloads[i].len() <= MAX_WIRE_FRAME_LEN,
        spec_accepted_frames(deframer, frames, decoded),
        frames.flatten_alt() == spec_default_stream(payloads),
    ensures
        decoded == payloads,
        frames.len() == payloads.len(),
        forall|i: int| 0 <= i < frames.len() ==> #[trigger] frames[i] == spec_frame(Seq::empty(), payloads[i]),
{
    let stream = spec_default_stream(payloads);
    let k = frames.len() as int;
    let n = payloads.len() as int;
    assert(stream.is_prefix_of(stream));
    if k > n {
        lemma_frames_follow_stream(deframer, frames, payloads, decoded, stream, n);
        assert(payloads.take(n) =~= payloads);
        lemma_flatten_take_next(frames, n);
        lemma_flatten_take_prefix(frames, n + 1);
        assert(deframer.spec_accepts(frames[n]) == Some(decoded[n]));
        assert(false);
    }
    if k < n {
        lemma_frames_follow_stream(deframer, frames, payloads, decoded, stream, k);
        assert(frames.take(k) =~= frames);
        lemma_default_stream_split(payloads, k);
        assert(false);
    }
    lemma_frames_follow_stream(deframer, frames, payloads, decoded, stream, n);
    assert forall|i: int| 0 <= i < n implies decoded[i] == payloads[i] by {
        lemma_parse_frame(Seq::empty(), payloads[i], deframer.max_frame_len());
        assert(deframer.spec_accepts(frames[i]) == Some(decoded[i]));
    }
    assert(decoded =~= payloads);
}

/// Two lists of frames of one format that lie at the front of the same bytes
/// agree frame by frame, as far as both go.
pub(crate) proof fn lemma_parsed_lists_agree(
    fa: Seq<Seq<u8>>,
    fb: Seq<Seq<u8>>,
    delivered: Seq<u8>,
    width: nat,
    max: usize,
    j: int,
)
    requires
        forall|i: int| 0 <= i < fa.len() ==> #[trigger] spec_parse(fa[i], width, max) is Some,
        forall|i: int| 0 <= i < fb.len() ==> #[trigger] spec_parse(fb[i], width, max) is Some,
        fa.flatten_alt().is_prefix_of(delivered),
        fb.flatten_alt().is_prefix_of(delivered),
        0 <= j <= fa.len(),
        j <= fb.len(),
    ensures
        fa.take(j) == fb.take(j),
    decreases j,
{
    if j == 0 {
        assert(fa.take(0) =~= fb.take(0));
    } else {
        let i = j - 1;
        lemma_parsed_lists_agree(fa, fb, delivered, width, max, i);
        let a = fa.take(i).flatten_alt();
        lemma_flatten_take_next(fa, i);
        lemma_flatten_take_next(fb, i);
        lemma_flatten_take_prefix(fa, j);
        lemma_flatten_take_prefix(fb, j);
        lemma_prefix_trans(fa.take(j).flatten_alt(), fa.flatten_alt(), delivered);
        lemma_prefix_trans(fb.take(j).flatten_alt(), fb.flatten_alt(), delivered);
        assert(spec_parse(fa[i], width, max) is Some);
        assert(spec_parse(fb[i], width, max) is Some);
        lemma_prefix_split(a, fa[i], delivered);
        lemma_prefix_split(a, fb[i], delivered);
        lemma_frames_self_delimiting(
            fa[i],
            fb[i],
            delivered.skip((a.len() + fa[i].len()) as int),
            delivered.skip((a.len() + fb[i].len()) as int),
            width,
            max,
        );
        assert(fa.take(j) =~= fa.take(i).push(fa[i]));
        assert(fb.take(j) =~= fb.take(i).push(fb[i]));
    }
}

/// A concatenation of frames of one format splits into frames in exactly
/// one way: two lists of such frames with the same concatenation are equal.
pub proof fn lemma_frame_lists_agree(fa: Seq<Seq<u8>>, fb: Seq<Seq<u8>>, width: nat, max: usize)
    requires
        forall|i: int| 0 <= i < fa.len() ==> #[trigger] spec_parse(fa[i], width, max) is Some,
        forall|i: int| 0 <= i < fb.len() ==> #[trigger] spec_parse(fb[i], width, max) is Some,
        fa.flatten_alt() == fb.flatten_alt(),
    ensures
        fa == fb,
{
    let d = fa.flatten_alt();
    assert(d.is_prefix_of(d));
    lemma_longer_list_overruns(fa, fb, d, width, max);
    lemma_longer_list_overruns(fb, fa, d, width, max);
    lemma_parsed_lists_agree(fa, fb, d, width, max, fa.len() as int);
    assert(fa.take(fa.len() as int) =~= fa);
    assert(fb.take(fb.len() as int) =~= fb);
}

/// Of two lists of frames of one format that both concatenate to `d`, the
/// second is not longer than the first.
proof fn lemma_longer_list_overruns(fa: Seq<Seq<u8>>, fb: Seq<Seq<u8>>, d: Seq<u8>, width: nat, max: usize)
    requires
        forall|i: int| 0 <= i < fa.len() ==> #[trigger] spec_parse(fa[i], width, max) is Some,
        forall|i: int| 0 <= i < fb.len() ==> #[trigger] spec_parse(fb[i], width, max) is Some,
        fa.flatten_alt() == d,
        fb.flatten_alt() == d,
    ensures
        fb.len() <= fa.len(),
{
    if fa.len() < fb.len() {
        let k = fa.len() as int;
        assert(d.is_prefix_of(d));
        lemma_parsed_lists_agree(fa, fb, d, width, max, k);
        assert(fa.take(k) =~= fa);
        lemma_flatten_take_next(fb, k);
        lemma_flatten_take_prefix(fb, k + 1);
        assert(spec_parse(fb[k], width, max) is Some);
        assert(fb.take(k + 1).flatten_alt().len() == d.len() + fb[k].len());
    }
}

/// The frame a checksum framer writes for `payload`.
pub open spec fn spec_checksum_frame<C: Checksum>(framer: ChecksumFramer<C>, payload: Seq<u8>) -> Seq<u8> {
    spec_frame(le_bytes(framer.algorithm().spec_calculate(payload), C::SIZE as nat), payload)
}

/// The frames a checksum framer writes for `payloads`, one per payload.
pub open spec fn spec_checksum_frames<C: Checksum>(framer: ChecksumFramer<C>, payloads: Seq<Seq<u8>>) -> Seq<
    Seq<u8>,
> {
    Seq::new(payloads.len(), |i: int| spec_checksum_frame(framer, payloads[i]))
}

/// Reading a checksum-framed stream back with a deframer of the same
/// algorithm yields exactly its payloads, in order: accepted frames whose
/// concatenation is the stream the framer writes for `payloads` are that
/// stream's frames, and they decode to `payloads`.
pub proof fn lemma_checksum_stream_reads_back<C: Checksum>(
    framer: ChecksumFramer<C>,
    deframer: ChecksumDeframer<C>,
    payloads: Seq<Seq<u8>>,
    frames: Seq<Seq<u8>>,
    decoded: Seq<Seq<u8>>,
)
    requires
        C::SIZE <= 8,
        framer.algorithm() == deframer.algorithm(),
        forall|i: int|
            0 <= i < payloads.len() ==> #[trigger] payloads[i].len() <= deframer.max_frame_len()
                && payloads[i].len() <= MAX_WIRE_FRAME_LEN,
        spec_accepted_frames(deframer, frames, decoded),
        frames.flatten_alt() == spec_checksum_frames(framer, payloads).flatten_alt(),
    ensures
        frames == spec_checksum_frames(framer, payloads),
        decoded == payloads,
{
    let written = spec_checksum_frames(framer, payloads);
    let width = C::SIZE as nat;
    let max = deframer.max_frame_len();
    assert forall|i: int| 0 <= i < written.len() implies #[trigger] spec_parse(written[i], width, max) is Some by {
        lemma_parse_frame(
            le_bytes(framer.algorithm().spec_calculate(payloads[i]), C::SIZE as nat),
            payloads[i],
            max,
        );
    }
    assert forall|i: int| 0 <= i < frames.len() implies #[trigger] spec_parse(frames[i], width, max) is Some by {
        assert(deframer.spec_accepts(frames[i]) == Some(decoded[i]));
    }
    lemma_frame_lists_agree(frames, written, width, max);
    assert forall|i: int| 0 <= i < payloads.len() implies decoded[i] == payloads[i] by {
        lemma_checksum_roundtrip(framer, deframer, payloads[i]);
        assert(framer.spec_frame_of(payloads[i]) == Some(written[i]));
        assert(deframer.spec_accepts(frames[i]) == Some(decoded[i]));
    }
    assert(decoded =~= payloads);
}

} // verus!
