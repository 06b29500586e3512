//! Byte sources and sinks, and the counting wrappers through which the stream
//! logic reads and writes.
//!
//! A [`ByteSource`] fills a range of a buffer and reports how many bytes it
//! delivered; a [`ByteSink`] accepts a prefix of the bytes offered to it and
//! reports how many. The application wraps `std::io::Read` / `std::io::Write`
//! values in adapters implementing these traits (retrying `Interrupted`
//! itself, as `read_exact` / `write_all` do). [`CountingReader`] and
//! [`CountingWriter`] track the absolute stream position and, as ghost state,
//! the exact bytes that went through them, which the contracts of the framing
//! layer speak about.
use vstd::prelude::*;

use crate::durability::SyncMode;
use crate::error::{Error, IoError, IoErrorKind};

verus! {

/// A source of bytes (the role `std::io::Read` plays).
pub trait ByteSource {
    /// The bytes this source will deliver from its current position, for a
    /// source that knows them; `None` (the default) promises nothing.
    open spec fn spec_content(&self) -> Option<Seq<u8>> {
        None
    }

    /// All the bytes of a repositionable source, from offset zero, for a
    /// source that knows them; `None` (the default) promises nothing.
    /// Reading does not change them.
    open spec fn spec_data(&self) -> Option<Seq<u8>> {
        None
    }

    /// Reads into `buf[start..end]` and returns the number of bytes delivered,
    /// which lie at `buf[start..start + n]`. `Ok(0)` for a non-empty range
    /// means the end of the input. Bytes outside the range are left alone.
    /// A source that knows its content delivers the next bytes of it, at
    /// least one while any remain and the range is not empty (short reads are
    /// allowed).
    fn read_into(&mut self, buf: &mut Vec<u8>, start: usize, end: usize) -> (r: Result<usize, IoError>)
        requires
            start <= end <= old(buf)@.len(),
        ensures
            final(buf)@.len() == old(buf)@.len(),
            forall|i: int|
                0 <= i < old(buf)@.len() && !(start <= i < end) ==> #[trigger] final(buf)@[i]
                    == old(buf)@[i],
            r matches Ok(n) ==> n <= end - start,
            old(self).spec_content() matches Some(c) ==> (r matches Ok(n) && {
                &&& n <= c.len()
                &&& (n == 0 && start < end ==> c.len() == 0)
                &&& final(buf)@.subrange(start as int, start + n) == c.take(n as int)
                &&& final(self).spec_content() == Some(c.skip(n as int))
            }),
            final(self).spec_data() == old(self).spec_data(),
    ;
}

/// A source that can be repositioned (the role `std::io::Read + Seek` plays).
pub trait SeekSource: ByteSource {
    /// Moves the read position to the absolute offset `offset`. A source
    /// that knows its bytes then delivers those from `offset` on (none past
    /// the end).
    fn seek_to(&mut self, offset: u64) -> (r: Result<(), IoError>)
        ensures
            old(self).spec_data() matches Some(d) ==> {
                &&& r is Ok
                &&& final(self).spec_data() == Some(d)
                &&& final(self).spec_content() == Some(
                    if offset <= d.len() {
                        d.skip(offset as int)
                    } else {
                        Seq::empty()
                    },
                )
            },
    ;
}

impl<R: ByteSource> ByteSource for &mut R {
    open spec fn spec_content(&self) -> Option<Seq<u8>> {
        (**self).spec_content()
    }

    open spec fn spec_data(&self) -> Option<Seq<u8>> {
        (**self).spec_data()
    }

    fn read_into(&mut self, buf: &mut Vec<u8>, start: usize, end: usize) -> (r: Result<usize, IoError>) {
        (**self).read_into(buf, start, end)
    }
}

impl<R: SeekSource> SeekSource for &mut R {
    fn seek_to(&mut self, offset: u64) -> (r: Result<(), IoError>) {
        (**self).seek_to(offset)
    }
}

/// A sink of bytes (the role `std::io::Write` plays).
pub trait ByteSink {
    /// Every byte the sink holds, for a sink that keeps them; `None` (the
    /// default) promises nothing.
    open spec fn spec_bytes(&self) -> Option<Seq<u8>> {
        None
    }

    /// Whether the sink accepts every byte it is offered and never fails,
    /// as an in-memory buffer does; `false` (the default) promises nothing.
    open spec fn spec_infallible(&self) -> bool {
        false
    }

    /// Whether the sink never fails and accepts at least one byte of every
    /// non-empty offer, though perhaps fewer than offered; an infallible sink
    /// does (the default).
    open spec fn spec_progresses(&self) -> bool {
        self.spec_infallible()
    }

    /// The synchronizations this sink was asked for, in order, for a sink
    /// that keeps that record; `None` (the default) promises nothing.
    /// Writing and flushing leave the record as it is.
    open spec fn spec_syncs(&self) -> Option<Seq<SyncMode>> {
        None
    }

    /// Offers `buf`; the sink accepts its first `n` bytes and returns `n`.
    /// A sink that keeps its bytes appends exactly those; an infallible sink
    /// accepts all of them, a sink that progresses at least one.
    fn write(&mut self, buf: &[u8]) -> (r: Result<usize, IoError>)
        ensures
            r matches Ok(n) ==> n <= buf@.len(),
            old(self).spec_bytes() matches Some(b) ==> final(self).spec_bytes() == Some(
                b + match r {
                    Ok(n) => buf@.take(n as int),
                    Err(_) => Seq::<u8>::empty(),
                },
            ),
            old(self).spec_infallible() ==> final(self).spec_infallible(),
            old(self).spec_infallible() ==> (r matches Ok(n) && n == buf@.len()),
            old(self).spec_progresses() ==> final(self).spec_progresses() && (r matches Ok(n) && (buf@.len() > 0
                ==> n > 0)),
            old(self).spec_syncs() matches Some(s) ==> final(self).spec_syncs() == Some(s),
    ;

    /// Offers `first` followed by `second`; the sink accepts the first `n`
    /// bytes of their concatenation and returns `n`. An infallible sink
    /// accepts at least the first non-empty part. The provided implementation
    /// offers only that part, as a sink without vectored output does.
    fn write_parts(&mut self, first: &[u8], second: &[u8]) -> (r: Result<usize, IoError>)
        ensures
            r matches Ok(n) ==> n <= first@.len() + second@.len(),
            old(self).spec_bytes() matches Some(b) ==> final(self).spec_bytes() == Some(
                b + match r {
                    Ok(n) => (first@ + second@).take(n as int),
                    Err(_) => Seq::<u8>::empty(),
                },
            ),
            old(self).spec_infallible() ==> final(self).spec_infallible() && (r matches Ok(n)
                && spec_first_part(first@, second@).len() <= n),
            old(self).spec_progresses() ==> final(self).spec_progresses() && (r matches Ok(n) && (first@.len()
                + second@.len() > 0 ==> n > 0)),
            old(self).spec_syncs() matches Some(s) ==> final(self).spec_syncs() == Some(s),
    {
        if first.len() > 0 {
            let r = self.write(first);
            proof {
                if let Ok(n) = r {
                    assert((first@ + second@).take(n as int) =~= first@.take(n as int));
                }
            }
            r
        } else {
            let r = self.write(second);
            proof {
                if let Ok(n) = r {
                    assert((first@ + second@).take(n as int) =~= second@.take(n as int));
                }
            }
            r
        }
    }

    /// Flushes buffered bytes toward the destination; an infallible sink
    /// always succeeds.
    fn flush(&mut self) -> (r: Result<(), IoError>)
        ensures
            old(self).spec_bytes() matches Some(b) ==> final(self).spec_bytes() == Some(b),
            old(self).spec_infallible() ==> r is Ok && final(self).spec_infallible(),
            old(self).spec_progresses() ==> r is Ok && final(self).spec_progresses(),
            old(self).spec_syncs() matches Some(s) ==> final(self).spec_syncs() == Some(s),
    ;
}

/// The part of `first` followed by `second` that a sink without vectored
/// output is offered: `first` unless it is empty.
pub open spec fn spec_first_part(first: Seq<u8>, second: Seq<u8>) -> Seq<u8> {
    if first.len() > 0 {
        first
    } else {
        second
    }
}

/// A sink that can push accepted bytes toward stable storage. An
/// implementation that buffers bytes flushes them before synchronizing.
pub trait Durable: ByteSink {
    /// Synchronizes contents (the `File::sync_data` shape).
    fn sync_data(&mut self) -> (r: Result<(), IoError>)
        ensures
            old(self).spec_bytes() matches Some(b) ==> final(self).spec_bytes() == Some(b),
            old(self).spec_syncs() matches Some(s) ==> final(self).spec_syncs() == Some(
                s.push(SyncMode::Data),
            ),
    ;

    /// Synchronizes contents and metadata (the `File::sync_all` shape).
    fn sync_all(&mut self) -> (r: Result<(), IoError>)
        ensures
            old(self).spec_bytes() matches Some(b) ==> final(self).spec_bytes() == Some(b),
            old(self).spec_syncs() matches Some(s) ==> final(self).spec_syncs() == Some(
                s.push(SyncMode::All),
            ),
    ;
}

impl<W: ByteSink> ByteSink for &mut W {
    open spec fn spec_bytes(&self) -> Option<Seq<u8>> {
        (**self).spec_bytes()
    }

    open spec fn spec_infallible(&self) -> bool {
        (**self).spec_infallible()
    }

    open spec fn spec_progresses(&self) -> bool {
        (**self).spec_progresses()
    }

    open spec fn spec_syncs(&self) -> Option<Seq<SyncMode>> {
        (**self).spec_syncs()
    }

    fn write(&mut self, buf: &[u8]) -> (r: Result<usize, IoError>) {
        (**self).write(buf)
    }

    fn write_parts(&mut self, first: &[u8], second: &[u8]) -> (r: Result<usize, IoError>) {
        (**self).write_parts(first, second)
    }

    fn flush(&mut self) -> (r: Result<(), IoError>) {
        (**self).flush()
    }
}

impl<W: Durable> Durable for &mut W {
    fn sync_data(&mut self) -> (r: Result<(), IoError>) {
        (**self).sync_data()
    }

    fn sync_all(&mut self) -> (r: Result<(), IoError>) {
        (**self).sync_all()
    }
}

impl<W: ByteSink> ByteSink for Box<W> {
    open spec fn spec_bytes(&self) -> Option<Seq<u8>> {
        (**self).spec_bytes()
    }

    open spec fn spec_infallible(&self) -> bool {
        (**self).spec_infallible()
    }

    open spec fn spec_progresses(&self) -> bool {
        (**self).spec_progresses()
    }

    open spec fn spec_syncs(&self) -> Option<Seq<SyncMode>> {
        (**self).spec_syncs()
    }

    fn write(&mut self, buf: &[u8]) -> (r: Result<usize, IoError>) {
        (**self).write(buf)
    }

    fn write_parts(&mut self, first: &[u8], second: &[u8]) -> (r: Result<usize, IoError>) {
        (**self).write_parts(first, second)
    }

    fn flush(&mut self) -> (r: Result<(), IoError>) {
        (**self).flush()
    }
}

impl<W: Durable> Durable for Box<W> {
    fn sync_data(&mut self) -> (r: Result<(), IoError>) {
        (**self).sync_data()
    }

    fn sync_all(&mut self) -> (r: Result<(), IoError>) {
        (**self).sync_all()
    }
}

/// Wraps a source and advances the stream position by the bytes it delivers.
pub struct CountingReader<R> {
    inner: R,
    count: u64,
    base: Ghost<int>,
    history: Ghost<Seq<u8>>,
    ended: Ghost<bool>,
    fault: Ghost<Option<IoError>>,
}

impl<R> CountingReader<R> {
    /// Every byte delivered through this reader, in order.
    pub closed spec fn history(&self) -> Seq<u8> {
        self.history@
    }

    /// The stream position.
    pub closed spec fn position(&self) -> u64 {
        self.count
    }

    /// The wrapped source.
    pub closed spec fn source(&self) -> R {
        self.inner
    }

    /// Whether the source answered the latest read of a non-empty range with
    /// zero bytes: its report of the end of the input (a fault is not one).
    pub closed spec fn ended(&self) -> bool {
        self.ended@
    }

    /// The error the latest read through this reader failed with, if it
    /// failed (`None` after a read the source answered with a count).
    pub closed spec fn last_fault(&self) -> Option<IoError> {
        self.fault@
    }

    /// The position is the start offset plus the bytes delivered so far.
    pub closed spec fn inv(&self) -> bool {
        &&& self.base@ >= 0
        &&& self.count as int == self.base@ + self.history@.len()
    }

    /// `self` is `prev` after further reads: the history only grew, and the
    /// position advanced by exactly the bytes delivered since.
    pub closed spec fn extends(&self, prev: &Self) -> bool {
        &&& self.inv()
        &&& prev.history@.is_prefix_of(self.history@)
        &&& self.base@ == prev.base@
    }

    /// The bytes delivered since `prev`.
    pub open spec fn delivered_since(&self, prev: &Self) -> Seq<u8> {
        self.history().skip(prev.history().len() as int)
    }

    /// Wraps `inner` at stream position zero.
    pub fn new(inner: R) -> (r: Self)
        ensures
            r.inv(),
            r.position() == 0,
            r.history() == Seq::<u8>::empty(),
            r.source() == inner,
    {
        CountingReader {
            inner,
            count: 0,
            base: Ghost(0),
            history: Ghost(Seq::empty()),
            ended: Ghost(false),
            fault: Ghost(None),
        }
    }

    /// Wraps `inner`, which is positioned at absolute stream offset `position`.
    pub fn with_position(inner: R, position: u64) -> (r: Self)
        ensures
            r.inv(),
            r.position() == position,
            r.history() == Seq::<u8>::empty(),
            r.source() == inner,
    {
        CountingReader {
            inner,
            count: position,
            base: Ghost(position as int),
            history: Ghost(Seq::empty()),
            ended: Ghost(false),
            fault: Ghost(None),
        }
    }

    /// The current stream position.
    pub fn count(&self) -> (r: u64)
        ensures
            r == self.position(),
    {
        self.count
    }

    /// Sets the start offset; refused once any byte was counted.
    pub(crate) fn set_start_offset(&mut self, offset: u64) -> (r: Result<(), Error>)
        requires
            old(self).inv(),
        ensures
            final(self).inv(),
            final(self).history() == old(self).history(),
            final(self).source() == old(self).source(),
            r is Ok <==> old(self).position() == 0,
            r is Ok ==> final(self).position() == offset,
            r is Err ==> final(self).position() == old(self).position() && r->Err_0.is_invalid_frame(),
    {
        if self.count != 0 {
            return Err(Error::invalid_frame("start offset must be configured before any stream I/O"));
        }
        self.count = offset;
        self.base = Ghost(offset as int);
        Ok(())
    }

    /// Consumes the wrapper, returning the source.
    pub fn into_inner(self) -> (r: R)
        ensures
            r == self.source(),
    {
        self.inner
    }
}

impl<R: ByteSource> CountingReader<R> {
    /// What the source will still deliver, when it says.
    pub open spec fn content(&self) -> Option<Seq<u8>> {
        self.source().spec_content()
    }

    /// Since `prev`, the reader delivered a prefix of what `prev`'s source
    /// promised, and the source promises the rest.
    pub open spec fn follows_content(&self, prev: &Self) -> bool {
        &&& prev.content() matches Some(c) ==> {
            &&& self.delivered_since(prev).len() <= c.len()
            &&& self.delivered_since(prev) == c.take(self.delivered_since(prev).len() as int)
            &&& self.content() == Some(c.skip(self.delivered_since(prev).len() as int))
        }
        &&& self.source().spec_data() == prev.source().spec_data()
    }

    /// The source has nothing more to deliver, or the position cannot advance.
    pub open spec fn drained(&self) -> bool {
        self.content() == Some(Seq::<u8>::empty()) || self.position() == u64::MAX
    }

    /// Reads into `buf[start..end]` through the wrapped source, counting the
    /// bytes delivered. The delivered bytes are appended to the history.
    pub fn read_into(&mut self, buf: &mut Vec<u8>, start: usize, end: usize) -> (r: Result<
        usize,
        IoError,
    >)
        requires
            old(self).inv(),
            start <= end <= old(buf)@.len(),
        ensures
            final(self).inv(),
            final(self).extends(&*old(self)),
            final(buf)@.len() == old(buf)@.len(),
            forall|i: int|
                0 <= i < old(buf)@.len() && !(start <= i < end) ==> #[trigger] final(buf)@[i]
                    == old(buf)@[i],
            r matches Ok(n) ==> {
                &&& n <= end - start
                &&& final(self).history() == old(self).history() + final(buf)@.subrange(
                    start as int,
                    start + n,
                )
                &&& final(self).position() == old(self).position() + n
            },
            r is Err ==> final(self).history() == old(self).history(),
            r is Err ==> final(self).position() == old(self).position(),
            final(self).follows_content(&*old(self)),
            old(self).content() is Some ==> (r == Ok::<usize, IoError>(0) && start < end
                ==> final(self).drained()),
            old(self).content() is Some ==> (r is Err ==> final(self).drained()),
            old(self).content() is Some && old(self).position() < u64::MAX ==> r is Ok,
            final(self).ended() == (start < end && r == Ok::<usize, IoError>(0)),
            final(self).last_fault() == (match r {
                Ok(_) => None::<IoError>,
                Err(e) => Some(e),
            }),
    {
        let ghost c0 = self.content();
        proof {
            if let Some(c) = c0 {
                assert(c.skip(0) =~= c);
                assert(c.take(0) =~= Seq::<u8>::empty());
                assert(c.skip(c.len() as int) =~= Seq::<u8>::empty());
            }
        }
        let remaining = u64::MAX - self.count;
        if start < end && remaining == 0 {
            proof {
                assert(self.history@.skip(self.history@.len() as int) =~= Seq::<u8>::empty());
            }
            let e = IoError::new(IoErrorKind::InvalidData, "stream position exceeds u64");
            proof {
                self.ended = Ghost(false);
                self.fault@ = Some(e);
            }
            return Err(e);
        }
        let want = end - start;
        let allowed_end = if (want as u64) > remaining {
            start + (remaining as usize)
        } else {
            end
        };
        let result = self.inner.read_into(buf, start, allowed_end);
        match result {
            Ok(n) => {
                self.count = self.count + n as u64;
                proof {
                    self.fault@ = None;
                    self.ended = Ghost(start < end && n == 0);
                    let old_history = self.history@;
                    self.history@ = self.history@ + buf@.subrange(start as int, start + n);
                    assert(self.history@.skip(old_history.len() as int) =~= buf@.subrange(
                        start as int,
                        start + n,
                    ));
                }
                Ok(n)
            },
            Err(e) => {
                proof {
                    self.fault@ = Some(e);
                    self.ended = Ghost(false);
                    assert(self.history@.skip(self.history@.len() as int) =~= Seq::<u8>::empty());
                }
                Err(e)
            },
        }
    }
}

impl<R> CountingReader<R> {
    /// A reader extends itself.
    pub proof fn lemma_extends_refl(&self)
        requires
            self.inv(),
        ensures
            self.extends(self),
            self.delivered_since(self) == Seq::<u8>::empty(),
    {
        assert(self.history@.is_prefix_of(self.history@));
        assert(self.history().skip(self.history().len() as int) =~= Seq::<u8>::empty());
    }

    /// Extension is transitive, and the deliveries concatenate.
    pub proof fn lemma_extends_trans(&self, mid: &Self, prev: &Self)
        requires
            self.extends(mid),
            mid.extends(prev),
        ensures
            self.extends(prev),
            self.delivered_since(prev) == mid.delivered_since(prev) + self.delivered_since(mid),
    {
        assert(prev.history@.is_prefix_of(self.history@)) by {
            assert(self.history@.subrange(0, prev.history@.len() as int) =~= mid.history@.subrange(
                0,
                prev.history@.len() as int,
            ));
        }
        assert(self.delivered_since(prev) =~= mid.delivered_since(prev) + self.delivered_since(mid));
    }

    /// The position moved by exactly the bytes delivered.
    pub proof fn lemma_extends_position(&self, prev: &Self)
        requires
            self.extends(prev),
            prev.inv(),
        ensures
            self.position() == prev.position() + self.delivered_since(prev).len(),
    {
    }
}

impl<R: ByteSource> CountingReader<R> {
    /// A reader follows its own content.
    pub proof fn lemma_follows_refl(&self)
        requires
            self.inv(),
        ensures
            self.follows_content(self),
    {
        self.lemma_extends_refl();
        if let Some(c) = self.content() {
            assert(c.skip(0) =~= c);
            assert(c.take(0) =~= Seq::<u8>::empty());
        }
    }

    /// A drained reader that followed its source's promise delivered all of
    /// it, unless the promise would have run the position past `u64::MAX`.
    pub proof fn lemma_drained_delivered_all(&self, prev: &Self)
        requires
            self.extends(prev),
            self.follows_content(prev),
            prev.inv(),
            prev.content() is Some ==> self.drained(),
        ensures
            prev.content() matches Some(c) ==> (prev.position() + c.len() < u64::MAX
                ==> self.delivered_since(prev) == c),
    {
        self.lemma_extends_position(prev);
        if let Some(c) = prev.content() {
            if prev.position() + c.len() < u64::MAX {
                let d = self.delivered_since(prev);
                assert(c.skip(d.len() as int).len() == 0);
                assert(d =~= c);
            }
        }
    }

    /// Following content is transitive along extension.
    pub proof fn lemma_follows_trans(&self, mid: &Self, prev: &Self)
        requires
            self.extends(mid),
            mid.extends(prev),
            self.follows_content(mid),
            mid.follows_content(prev),
        ensures
            self.follows_content(prev),
    {
        self.lemma_extends_trans(mid, prev);
        if let Some(c) = prev.content() {
            let d1 = mid.delivered_since(prev);
            let d2 = self.delivered_since(mid);
            let c1 = c.skip(d1.len() as int);
            assert(d2 == c1.take(d2.len() as int));
            assert(self.delivered_since(prev) == d1 + d2);
            assert((d1 + d2) =~= c.take((d1.len() + d2.len()) as int));
            assert(c1.skip(d2.len() as int) =~= c.skip((d1.len() + d2.len()) as int));
        }
    }
}

impl<W> CountingWriter<W> {
    /// A writer extends itself.
    pub proof fn lemma_extends_refl(&self)
        requires
            self.inv(),
        ensures
            self.extends(self),
            self.accepted_since(self) == Seq::<u8>::empty(),
    {
        assert(self.accepted@.is_prefix_of(self.accepted@));
        assert(self.accepted().skip(self.accepted().len() as int) =~= Seq::<u8>::empty());
    }

    /// Extension is transitive, and the accepted bytes concatenate.
    pub proof fn lemma_extends_trans(&self, mid: &Self, prev: &Self)
        requires
            self.extends(mid),
            mid.extends(prev),
        ensures
            self.extends(prev),
            self.accepted_since(prev) == mid.accepted_since(prev) + self.accepted_since(mid),
    {
        assert(prev.accepted@.is_prefix_of(self.accepted@)) by {
            assert(self.accepted@.subrange(0, prev.accepted@.len() as int) =~= mid.accepted@.subrange(
                0,
                prev.accepted@.len() as int,
            ));
        }
        assert(self.accepted_since(prev) =~= mid.accepted_since(prev) + self.accepted_since(mid));
    }

    /// The position moved by exactly the bytes accepted.
    pub proof fn lemma_extends_position(&self, prev: &Self)
        requires
            self.extends(prev),
            prev.inv(),
        ensures
            self.position() == prev.position() + self.accepted_since(prev).len(),
    {
    }
}

/// Wraps a sink and advances the stream position by the bytes it accepts.
pub struct CountingWriter<W> {
    inner: W,
    count: u64,
    base: Ghost<int>,
    accepted: Ghost<Seq<u8>>,
    fault: Ghost<Option<IoError>>,
}

impl<W> CountingWriter<W> {
    /// Every byte the sink accepted through this writer, in order.
    pub closed spec fn accepted(&self) -> Seq<u8> {
        self.accepted@
    }

    /// The error the latest offer through this writer failed with, if it
    /// failed (`None` after an offer the sink answered with a count).
    pub closed spec fn last_fault(&self) -> Option<IoError> {
        self.fault@
    }

    /// The stream position.
    pub closed spec fn position(&self) -> u64 {
        self.count
    }

    /// The wrapped sink.
    pub closed spec fn sink(&self) -> W {
        self.inner
    }

    /// The position is the start offset plus the bytes accepted so far.
    pub closed spec fn inv(&self) -> bool {
        &&& self.base@ >= 0
        &&& self.count as int == self.base@ + self.accepted@.len()
    }

    /// `self` is `prev` after further writes: the accepted bytes only grew,
    /// and the position advanced by exactly the bytes accepted since.
    pub closed spec fn extends(&self, prev: &Self) -> bool {
        &&& self.inv()
        &&& prev.accepted@.is_prefix_of(self.accepted@)
        &&& self.base@ == prev.base@
    }

    /// The bytes accepted since `prev`.
    pub open spec fn accepted_since(&self, prev: &Self) -> Seq<u8> {
        self.accepted().skip(prev.accepted().len() as int)
    }

    /// Wraps `inner` at stream position zero.
    pub fn new(inner: W) -> (r: Self)
        ensures
            r.inv(),
            r.position() == 0,
            r.accepted() == Seq::<u8>::empty(),
            r.sink() == inner,
    {
        CountingWriter {
            inner,
            count: 0,
            base: Ghost(0),
            accepted: Ghost(Seq::empty()),
            fault: Ghost(None),
        }
    }

    /// The current stream position.
    pub fn count(&self) -> (r: u64)
        ensures
            r == self.position(),
    {
        self.count
    }

    /// Sets the start offset; refused once any byte was counted.
    pub(crate) fn set_start_offset(&mut self, offset: u64) -> (r: Result<(), Error>)
        requires
            old(self).inv(),
        ensures
            final(self).inv(),
            final(self).accepted() == old(self).accepted(),
            final(self).sink() == old(self).sink(),
            r is Ok <==> old(self).position() == 0,
            r is Ok ==> final(self).position() == offset,
            r is Err ==> final(self).position() == old(self).position() && r->Err_0.is_invalid_frame(),
    {
        if self.count != 0 {
            return Err(Error::invalid_frame("start offset must be configured before any stream I/O"));
        }
        self.count = offset;
        self.base = Ghost(offset as int);
        Ok(())
    }

    /// Consumes the wrapper, returning the sink.
    pub fn into_inner(self) -> (r: W)
        ensures
            r == self.sink(),
    {
        self.inner
    }
}

impl<W: ByteSink> CountingWriter<W> {
    /// Every byte the sink holds, for a sink that keeps them.
    pub open spec fn bytes(&self) -> Option<Seq<u8>> {
        self.sink().spec_bytes()
    }

    /// Since `prev`, a sink that keeps its bytes gained exactly the bytes
    /// accepted since.
    pub open spec fn records(&self, prev: &Self) -> bool {
        prev.bytes() matches Some(b) ==> self.bytes() == Some(b + self.accepted_since(prev))
    }

    /// Since `prev`, a sink that records its synchronizations was asked for
    /// none.
    pub open spec fn keeps_syncs(&self, prev: &Self) -> bool {
        prev.sink().spec_syncs() matches Some(s) ==> self.sink().spec_syncs() == Some(s)
    }

    /// A writer records its own (empty) progress.
    pub proof fn lemma_records_refl(&self)
        requires
            self.inv(),
        ensures
            self.records(self),
    {
        self.lemma_extends_refl();
        if let Some(b) = self.bytes() {
            assert(b + Seq::<u8>::empty() =~= b);
        }
    }

    /// Recording is transitive along extension.
    pub proof fn lemma_records_trans(&self, mid: &Self, prev: &Self)
        requires
            self.extends(mid),
            mid.extends(prev),
            self.records(mid),
            mid.records(prev),
        ensures
            self.records(prev),
    {
        self.lemma_extends_trans(mid, prev);
        if let Some(b) = prev.bytes() {
            assert(b + mid.accepted_since(prev) + self.accepted_since(mid) =~= b + (mid.accepted_since(
                prev,
            ) + self.accepted_since(mid)));
        }
    }

    /// Offers `buf` to the sink, counting the bytes it accepts, which are
    /// appended to the accepted history.
    pub fn write(&mut self, buf: &[u8]) -> (r: Result<usize, IoError>)
        requires
            old(self).inv(),
        ensures
            final(self).inv(),
            final(self).extends(&*old(self)),
            r matches Ok(n) ==> {
                &&& n <= buf@.len()
                &&& final(self).accepted() == old(self).accepted() + buf@.take(n as int)
                &&& final(self).position() == old(self).position() + n
            },
            r is Err ==> final(self).accepted() == old(self).accepted(),
            r is Err ==> final(self).position() == old(self).position(),
            final(self).records(&*old(self)),
            final(self).last_fault() == (match r {
                Ok(_) => None::<IoError>,
                Err(e) => Some(e),
            }),
            buf@.len() > 0 && old(self).position() == u64::MAX ==> r is Err,
            old(self).sink().spec_progresses() ==> final(self).sink().spec_progresses(),
            old(self).sink().spec_progresses() && (buf@.len() == 0 || old(self).position() < u64::MAX)
                ==> (r matches Ok(n) && (buf@.len() > 0 ==> n > 0)),
            old(self).sink().spec_infallible() ==> final(self).sink().spec_infallible(),
            old(self).sink().spec_infallible() && (buf@.len() == 0 || old(self).position() < u64::MAX)
                ==> (r matches Ok(n) && n == (if buf@.len() <= u64::MAX - old(self).position() {
                buf@.len() as int
            } else {
                u64::MAX - old(self).position()
            })),
            final(self).keeps_syncs(&*old(self)),
    {
        proof {
            if let Some(b) = self.bytes() {
                assert(b + Seq::<u8>::empty() =~= b);
            }
        }
        let remaining = u64::MAX - self.count;
        if buf.len() > 0 && remaining == 0 {
            let e = IoError::new(IoErrorKind::InvalidData, "stream position exceeds u64");
            proof {
                self.fault@ = Some(e);
            }
            return Err(e);
        }
        let offered = if (buf.len() as u64) > remaining {
            vstd::slice::slice_subrange(buf, 0, remaining as usize)
        } else {
            buf
        };
        let result = self.inner.write(offered);
        match result {
            Ok(n) => {
                self.count = self.count + n as u64;
                proof {
                    self.fault@ = None;
                    assert(offered@.take(n as int) =~= buf@.take(n as int));
                    let before = self.accepted@;
                    self.accepted@ = self.accepted@ + buf@.take(n as int);
                    assert(self.accepted@.skip(before.len() as int) =~= buf@.take(n as int));
                }
                Ok(n)
            },
            Err(e) => {
                proof {
                    self.fault@ = Some(e);
                }
                Err(e)
            },
        }
    }

    /// Offers `first` followed by `second` to the sink in one call, counting
    /// the bytes it accepts. When the position cannot absorb the whole offer,
    /// only the first non-empty part is offered.
    pub fn write_parts(&mut self, first: &[u8], second: &[u8]) -> (r: Result<usize, IoError>)
        requires
            old(self).inv(),
        ensures
            final(self).inv(),
            final(self).extends(&*old(self)),
            r matches Ok(n) ==> {
                &&& n <= first@.len() + second@.len()
                &&& final(self).accepted() == old(self).accepted() + (first@ + second@).take(n as int)
                &&& final(self).position() == old(self).position() + n
            },
            r is Err ==> final(self).accepted() == old(self).accepted(),
            r is Err ==> final(self).position() == old(self).position(),
            final(self).records(&*old(self)),
            final(self).last_fault() == (match r {
                Ok(_) => None::<IoError>,
                Err(e) => Some(e),
            }),
            first@.len() + second@.len() > 0 && old(self).position() == u64::MAX ==> r is Err,
            old(self).sink().spec_infallible() ==> final(self).sink().spec_infallible(),
            old(self).sink().spec_infallible() && old(self).position() + first@.len() + second@.len()
                <= u64::MAX ==> (r matches Ok(n) && spec_first_part(first@, second@).len() <= n),
            old(self).sink().spec_progresses() ==> final(self).sink().spec_progresses(),
            old(self).sink().spec_progresses() && old(self).position() + first@.len() + second@.len()
                <= u64::MAX ==> (r matches Ok(n) && (first@.len() + second@.len() > 0 ==> n > 0)),
            final(self).keeps_syncs(&*old(self)),
    {
        proof {
            if let Some(b) = self.bytes() {
                assert(b + Seq::<u8>::empty() =~= b);
            }
        }
        let remaining = u64::MAX - self.count;
        let requested: u128 = first.len() as u128 + second.len() as u128;
        if requested > remaining as u128 {
            if first.len() > 0 {
                let r = self.write(first);
                proof {
                    if let Ok(n) = r {
                        assert((first@ + second@).take(n as int) =~= first@.take(n as int));
                    }
                }
                return r;
            } else if second.len() > 0 {
                let r = self.write(second);
                proof {
                    if let Ok(n) = r {
                        assert((first@ + second@).take(n as int) =~= second@.take(n as int));
                    }
                }
                return r;
            } else {
                proof {
                    self.fault@ = None;
                    assert((first@ + second@).take(0) =~= Seq::<u8>::empty());
                    assert(old(self).accepted() + Seq::<u8>::empty() =~= old(self).accepted());
                }
                return Ok(0);
            }
        }
        let result = self.inner.write_parts(first, second);
        match result {
            Ok(n) => {
                self.count = self.count + n as u64;
                proof {
                    self.fault@ = None;
                    let before = self.accepted@;
                    self.accepted@ = self.accepted@ + (first@ + second@).take(n as int);
                    assert(self.accepted@.skip(before.len() as int) =~= (first@ + second@).take(
                        n as int,
                    ));
                }
                Ok(n)
            },
            Err(e) => {
                proof {
                    self.fault@ = Some(e);
                }
                Err(e)
            },
        }
    }

    /// Flushes the sink.
    pub fn flush(&mut self) -> (r: Result<(), IoError>)
        requires
            old(self).inv(),
        ensures
            final(self).inv(),
            final(self).extends(&*old(self)),
            final(self).accepted() == old(self).accepted(),
            final(self).position() == old(self).position(),
            final(self).records(&*old(self)),
            old(self).sink().spec_infallible() ==> r is Ok && final(self).sink().spec_infallible(),
            old(self).sink().spec_progresses() ==> r is Ok && final(self).sink().spec_progresses(),
            final(self).keeps_syncs(&*old(self)),
    {
        proof {
            self.lemma_extends_refl();
            if let Some(b) = self.bytes() {
                assert(b + Seq::<u8>::empty() =~= b);
            }
        }
        self.inner.flush()
    }
}

impl<W: Durable> CountingWriter<W> {
    /// Synchronizes the sink's contents.
    pub fn sync_data(&mut self) -> (r: Result<(), IoError>)
        requires
            old(self).inv(),
        ensures
            final(self).inv(),
            final(self).extends(&*old(self)),
            final(self).accepted() == old(self).accepted(),
            final(self).position() == old(self).position(),
            final(self).records(&*old(self)),
            old(self).sink().spec_syncs() matches Some(s) ==> final(self).sink().spec_syncs() == Some(
                s.push(SyncMode::Data),
            ),
    {
        proof {
            self.lemma_extends_refl();
            if let Some(b) = self.bytes() {
                assert(b + Seq::<u8>::empty() =~= b);
            }
        }
        self.inner.sync_data()
    }

    /// Synchronizes the sink's contents and metadata.
    pub fn sync_all(&mut self) -> (r: Result<(), IoError>)
        requires
            old(self).inv(),
        ensures
            final(self).inv(),
            final(self).extends(&*old(self)),
            final(self).accepted() == old(self).accepted(),
            final(self).position() == old(self).position(),
            final(self).records(&*old(self)),
            old(self).sink().spec_syncs() matches Some(s) ==> final(self).sink().spec_syncs() == Some(
                s.push(SyncMode::All),
            ),
    {
        proof {
            self.lemma_extends_refl();
            if let Some(b) = self.bytes() {
                assert(b + Seq::<u8>::empty() =~= b);
            }
        }
        self.inner.sync_all()
    }
}

/// An in-memory source reading from a byte vector (the role `std::io::Cursor` plays).
pub struct SliceSource {
    data: Vec<u8>,
    pos: usize,
}

impl SliceSource {
    /// The bytes of the source.
    pub closed spec fn data(&self) -> Seq<u8> {
        self.data@
    }

    /// The read position.
    pub closed spec fn pos(&self) -> nat {
        self.pos as nat
    }

    /// The bytes not yet read.
    pub open spec fn rest(&self) -> Seq<u8> {
        self.data().skip(self.pos() as int)
    }

    pub closed spec fn inv(&self) -> bool {
        self.pos <= self.data@.len()
    }

    /// A source positioned at the start of `data`.
    pub fn new(data: Vec<u8>) -> (r: SliceSource)
        ensures
            r.inv(),
            r.data() == data@,
            r.pos() == 0,
    {
        SliceSource { data, pos: 0 }
    }

    /// The read position.
    pub fn position(&self) -> (r: usize)
        ensures
            r == self.pos(),
    {
        self.pos
    }

    /// Moves the read position to `pos` (clamped to the end of the data).
    pub fn set_position(&mut self, pos: usize)
        requires
            old(self).inv(),
        ensures
            final(self).inv(),
            final(self).data() == old(self).data(),
            final(self).pos() == if pos <= old(self).data().len() { pos as nat } else { old(self).data().len() },
    {
        if pos <= self.data.len() {
            self.pos = pos;
        } else {
            self.pos = self.data.len();
        }
    }

    /// Consumes the source, returning its bytes.
    pub fn into_inner(self) -> (r: Vec<u8>)
        ensures
            r@ == self.data(),
    {
        self.data
    }
}

impl ByteSource for SliceSource {
    /// The whole byte vector.
    open spec fn spec_data(&self) -> Option<Seq<u8>> {
        Some(self.data())
    }

    /// The bytes after the read position.
    open spec fn spec_content(&self) -> Option<Seq<u8>> {
        Some(
            if self.pos() <= self.data().len() {
                self.rest()
            } else {
                Seq::empty()
            },
        )
    }

    fn read_into(&mut self, buf: &mut Vec<u8>, start: usize, end: usize) -> (r: Result<usize, IoError>)
        ensures
            final(self).inv(),
            final(self).data() == old(self).data(),
            old(self).inv() ==> (r matches Ok(n) && {
                &&& n == if end - start <= old(self).data().len() - old(self).pos() {
                    (end - start) as nat
                } else {
                    (old(self).data().len() - old(self).pos()) as nat
                }
                &&& final(buf)@.subrange(start as int, start + n) == old(self).rest().take(n as int)
                &&& final(self).pos() == old(self).pos() + n
            }),
    {
        let len = self.data.len();
        if self.pos > len {
            self.pos = len;
        }
        let pos = self.pos;
        let available = len - pos;
        let n = if end - start <= available {
            end - start
        } else {
            available
        };
        let ghost old_buf = buf@;
        let mut i: usize = 0;
        while i < n
            invariant
                i <= n,
                start + n <= end <= old_buf.len(),
                pos + n <= len,
                len == self.data@.len(),
                buf@.len() == old_buf.len(),
                forall|j: int|
                    0 <= j < old_buf.len() && !(start <= j < start + i) ==> #[trigger] buf@[j]
                        == old_buf[j],
                forall|j: int| 0 <= j < i ==> #[trigger] buf@[start + j] == self.data@[pos + j],
            decreases n - i,
        {
            let b = self.data[pos + i];
            buf.set(start + i, b);
            i = i + 1;
        }
        proof {
            assert forall|j: int| 0 <= j < n implies #[trigger] buf@.subrange(start as int, start + n)[j]
                == self.data@.skip(pos as int).take(n as int)[j] by {
                assert(buf@[start + j] == self.data@[pos + j]);
            }
            assert(buf@.subrange(start as int, start + n) =~= self.data@.skip(pos as int).take(
                n as int,
            ));
        }
        self.pos = pos + n;
        Ok(n)
    }
}

impl SeekSource for SliceSource {
    /// Moves the read position to `offset`; past the end of the data every
    /// read reports the end of the input.
    fn seek_to(&mut self, offset: u64) -> (r: Result<(), IoError>)
        ensures
            r is Ok,
            final(self).inv(),
            final(self).data() == old(self).data(),
            final(self).pos() == if offset <= old(self).data().len() {
                offset as nat
            } else {
                old(self).data().len()
            },
    {
        let len = self.data.len();
        if offset <= len as u64 {
            self.pos = offset as usize;
        } else {
            self.pos = len;
        }
        Ok(())
    }
}

impl ByteSink for Vec<u8> {
    /// The vector's contents.
    open spec fn spec_bytes(&self) -> Option<Seq<u8>> {
        Some(self@)
    }

    /// A vector takes every byte and never fails.
    open spec fn spec_infallible(&self) -> bool {
        true
    }

    fn write(&mut self, buf: &[u8]) -> (r: Result<usize, IoError>)
        ensures
            r == Ok::<usize, IoError>(buf@.len() as usize),
            final(self)@ == old(self)@ + buf@,
    {
        let ghost start = self@;
        let mut i: usize = 0;
        while i < buf.len()
            invariant
                i <= buf@.len(),
                self@ == start + buf@.take(i as int),
            decreases buf@.len() - i,
        {
            self.push(buf[i]);
            i = i + 1;
            assert(self@ =~= start + buf@.take(i as int));
        }
        assert(buf@.take(buf@.len() as int) =~= buf@);
        Ok(buf.len())
    }

    fn flush(&mut self) -> (r: Result<(), IoError>)
        ensures
            r is Ok,
            final(self)@ == old(self)@,
    {
        Ok(())
    }
}

} // verus!
