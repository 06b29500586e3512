//! Crash recovery: scan a journal, count the intact prefix, report the
//! truncation point.
//!
//! A journal that stopped mid-append ends in a torn frame: a partial length
//! header, a partial checksum field or a partial payload. The deframer reports
//! that as `UnexpectedEof`, and only that authorizes truncation. A checksum
//! mismatch, an invalid frame, a validator's rejection or a device fault means
//! the file is not a cleanly torn journal (or was read with the wrong
//! configuration); those are returned as errors with the stop reason intact.
use vstd::prelude::*;

use crate::error::{Error, ErrorKind};
use crate::checksum::Checksum;
use crate::framing::{
    lemma_parsed_lists_agree, spec_checksum_frame, spec_checksum_frames, ChecksumDeframer, ChecksumFramer,
    lemma_default_stream_split, lemma_flatten_take_next, lemma_flatten_take_prefix,
    lemma_frames_follow_stream, lemma_frames_self_delimiting, lemma_parse_frame, lemma_prefix_split,
    lemma_prefix_trans,
    spec_accepted_frames, spec_default_stream, spec_frame, spec_frame_run, spec_parse, DefaultDeframer, Deframer,
    MAX_WIRE_FRAME_LEN,
};
use crate::io::{ByteSource, CountingReader, SeekSource};
use crate::wire::{le_bytes, le_value};

verus! {

/// How a recovery scan ended.
#[derive(Debug, Clone, Copy, PartialEq, Eq, Structural)]
pub enum RecoveryEnd {
    /// The stream ended exactly on a frame boundary: nothing to truncate.
    CleanEof,
    /// The stream ends in a torn frame; truncating to `last_good_offset` is safe.
    TornTail,
}

/// Outcome of a recovery scan.
#[derive(Debug, Clone, Copy, PartialEq, Eq, Structural)]
pub struct RecoveryReport {
    /// Number of intact frames before the scan stopped.
    pub frames: u64,
    /// Byte offset one past the last intact frame, relative to where the scan
    /// began. Zero when no frame is intact.
    pub last_good_offset: u64,
    /// How the scan ended.
    pub end: RecoveryEnd,
}

/// The input ended inside a frame: `rest` is not empty, and either ends
/// inside a length header or is torn in the deframer's sense.
pub open spec fn spec_torn_rest<D: Deframer>(deframer: D, rest: Seq<u8>) -> bool {
    rest.len() > 0 && (rest.len() < 4 || deframer.spec_torn(rest))
}

/// `report` describes a scan that read `delivered`: its first
/// `last_good_offset` bytes are `frames` complete frames the deframer accepts;
/// a clean end means nothing followed them, a torn tail means the bytes that
/// followed end inside a frame.
pub open spec fn spec_recovered<D: Deframer>(deframer: D, delivered: Seq<u8>, report: RecoveryReport) -> bool {
    exists|frames: Seq<Seq<u8>>, payloads: Seq<Seq<u8>>|
        #[trigger] spec_accepted_frames(deframer, frames, payloads)
            && report.frames == frames.len()
            && report.last_good_offset == frames.flatten_alt().len()
            && frames.flatten_alt().is_prefix_of(delivered)
            && (report.end == RecoveryEnd::CleanEof ==> frames.flatten_alt() == delivered)
            && (report.end == RecoveryEnd::TornTail ==> spec_torn_rest(
                deframer,
                delivered.skip(frames.flatten_alt().len() as int),
            ))
}

/// For a source that promised its content (shorter than the position
/// space), `report` describes a scan that read all of it.
pub open spec fn spec_recovered_content<D: Deframer>(
    deframer: D,
    content: Option<Seq<u8>>,
    report: RecoveryReport,
) -> bool {
    content matches Some(c) ==> (c.len() < u64::MAX ==> spec_recovered(deframer, c, report))
}

/// `content` is the run of complete frames `frames` (accepted, with payloads
/// `payloads`, each at least a length header long) followed by `rest`, the
/// beginning of one more frame cut off inside it: inside its length header,
/// or torn in the deframer's sense with a declared length within its limits.
pub open spec fn spec_torn_run<D: Deframer>(
    deframer: D,
    content: Seq<u8>,
    frames: Seq<Seq<u8>>,
    payloads: Seq<Seq<u8>>,
    rest: Seq<u8>,
) -> bool {
    &&& spec_frame_run(deframer, frames.flatten_alt(), frames, payloads)
    &&& content == frames.flatten_alt() + rest
    &&& rest.len() > 0
    &&& rest.len() < 4 || (deframer.spec_torn(rest) && deframer.spec_length_ok(le_value(rest.take(4)) as int))
}

/// Scans a stream from the source's current position and reports the intact
/// prefix, with offsets relative to that position.
///
/// A clean end at a frame boundary gives `CleanEof`; `UnexpectedEof` inside a
/// frame gives `TornTail` with the safe truncation point; any other error is
/// returned unchanged. The deframer must consume exactly one frame per call
/// and never read ahead, as the built-in deframers do.
pub fn recover<R: ByteSource, D: Deframer>(reader: R, deframer: D) -> (r: Result<RecoveryReport, Error>)
    ensures
        r matches Err(e) ==> !e.is_unexpected_eof(),
        deframer.obeys_deframer_spec() ==> {
            &&& (r matches Ok(report) ==> exists|delivered: Seq<u8>| spec_recovered(deframer, delivered, report))
            &&& (r is Ok ==> spec_recovered_content(deframer, reader.spec_content(), r->Ok_0))
            &&& (reader.spec_content() matches Some(c) ==> (c.len() < u64::MAX ==> ((exists|
                frames: Seq<Seq<u8>>,
                payloads: Seq<Seq<u8>>,
            | #[trigger] spec_frame_run(deframer, c, frames, payloads)) ==> (r matches Ok(report)
                && report.end == RecoveryEnd::CleanEof && report.last_good_offset == c.len()))))
            &&& (reader.spec_content() matches Some(c) ==> (c.len() < u64::MAX ==> ((exists|
                frames: Seq<Seq<u8>>,
                payloads: Seq<Seq<u8>>,
                rest: Seq<u8>,
            | #[trigger] spec_torn_run(deframer, c, frames, payloads, rest)) ==> (r matches Ok(report)
                && report.end == RecoveryEnd::TornTail))))
        },
{
    let mut counting = CountingReader::new(reader);
    scan(&mut counting, deframer)
}

/// The scan of [`recover`] over a counting reader at stream position zero.
fn scan<R: ByteSource, D: Deframer>(counting: &mut CountingReader<R>, deframer: D) -> (r: Result<
    RecoveryReport,
    Error,
>)
    requires
        old(counting).inv(),
        old(counting).position() == 0,
        old(counting).history() == Seq::<u8>::empty(),
    ensures
        final(counting).inv(),
        final(counting).follows_content(&*old(counting)),
        deframer.obeys_deframer_spec() && r is Ok ==> final(counting).ended(),
        r matches Err(e) ==> !e.is_unexpected_eof(),
        deframer.obeys_deframer_spec() ==> {
            &&& (r matches Ok(report) ==> exists|delivered: Seq<u8>| spec_recovered(deframer, delivered, report))
            &&& (r is Ok ==> spec_recovered_content(deframer, old(counting).content(), r->Ok_0))
            &&& (old(counting).content() matches Some(c) ==> (c.len() < u64::MAX ==> ((exists|
                frames: Seq<Seq<u8>>,
                payloads: Seq<Seq<u8>>,
            | #[trigger] spec_frame_run(deframer, c, frames, payloads)) ==> (r matches Ok(report)
                && report.end == RecoveryEnd::CleanEof && report.last_good_offset == c.len()))))
            &&& (old(counting).content() matches Some(c) ==> (c.len() < u64::MAX ==> ((exists|
                frames: Seq<Seq<u8>>,
                payloads: Seq<Seq<u8>>,
                rest: Seq<u8>,
            | #[trigger] spec_torn_run(deframer, c, frames, payloads, rest)) ==> (r matches Ok(report)
                && report.end == RecoveryEnd::TornTail))))
        },
{
    let ghost old_content = old(counting).content();
    let ghost owed_t: bool = deframer.obeys_deframer_spec() && old_content is Some && old_content->0.len()
        < u64::MAX && exists|frames: Seq<Seq<u8>>, payloads: Seq<Seq<u8>>, rest: Seq<u8>|
        #[trigger] spec_torn_run(deframer, old_content->0, frames, payloads, rest);
    let ghost trun: (Seq<Seq<u8>>, Seq<Seq<u8>>, Seq<u8>) = if owed_t {
        choose|frames: Seq<Seq<u8>>, payloads: Seq<Seq<u8>>, rest: Seq<u8>|
            #[trigger] spec_torn_run(deframer, old_content->0, frames, payloads, rest)
    } else {
        (Seq::empty(), Seq::empty(), Seq::empty())
    };
    let ghost owed: bool = deframer.obeys_deframer_spec() && old_content is Some && old_content->0.len()
        < u64::MAX && exists|frames: Seq<Seq<u8>>, payloads: Seq<Seq<u8>>|
        #[trigger] spec_frame_run(deframer, old_content->0, frames, payloads);
    let ghost run: (Seq<Seq<u8>>, Seq<Seq<u8>>) = if owed {
        choose|frames: Seq<Seq<u8>>, payloads: Seq<Seq<u8>>|
            #[trigger] spec_frame_run(deframer, old_content->0, frames, payloads)
    } else {
        (Seq::empty(), Seq::empty())
    };
    let ghost start = *counting;
    let mut buffer: Vec<u8> = Vec::new();
    let mut frames_read: u64 = 0;
    let mut last_good_offset: u64 = 0;
    let ghost mut frames: Seq<Seq<u8>> = Seq::empty();
    let ghost mut payloads: Seq<Seq<u8>> = Seq::empty();
    proof {
        counting.lemma_extends_refl();
        counting.lemma_follows_refl();
        assert(frames.flatten_alt() =~= Seq::<u8>::empty());
    }
    loop
        invariant
            counting.inv(),
            counting.extends(&start),
            counting.follows_content(&start),
            start.content() == old_content,
            start == *old(counting),
            start.history() == Seq::<u8>::empty(),
            start.position() == 0,
            start.inv(),
            deframer.obeys_deframer_spec() ==> spec_accepted_frames(deframer, frames, payloads),
            frames.flatten_alt() == counting.delivered_since(&start),
            frames_read == frames.len(),
            last_good_offset == counting.position(),
            frames_read <= counting.position(),
            owed == (deframer.obeys_deframer_spec() && old_content is Some && old_content->0.len()
                < u64::MAX && exists|frames: Seq<Seq<u8>>, payloads: Seq<Seq<u8>>|
                #[trigger] spec_frame_run(deframer, old_content->0, frames, payloads)),
            owed ==> {
                &&& old_content is Some
                &&& spec_frame_run(deframer, old_content->0, run.0, run.1)
                &&& frames.len() <= run.0.len()
                &&& frames == run.0.take(frames.len() as int)
                &&& deframer.obeys_deframer_spec()
                &&& old_content->0.len() < u64::MAX
            },
            owed_t == (deframer.obeys_deframer_spec() && old_content is Some && old_content->0.len()
                < u64::MAX && exists|frames: Seq<Seq<u8>>, payloads: Seq<Seq<u8>>, rest: Seq<u8>|
                #[trigger] spec_torn_run(deframer, old_content->0, frames, payloads, rest)),
            owed_t ==> {
                &&& old_content is Some
                &&& spec_torn_run(deframer, old_content->0, trun.0, trun.1, trun.2)
                &&& frames.len() <= trun.0.len()
                &&& frames == trun.0.take(frames.len() as int)
                &&& deframer.obeys_deframer_spec()
                &&& old_content->0.len() < u64::MAX
            },
        decreases u64::MAX - counting.position(),
    {
        proof {
            if owed_t {
                let c = old_content->0;
                let k = frames.len() as int;
                let flat = trun.0.flatten_alt();
                assert(flat.is_prefix_of(c)) by {
                    assert(c.subrange(0, flat.len() as int) =~= flat);
                }
                lemma_flatten_take_prefix(trun.0, k);
                lemma_prefix_trans(trun.0.take(k).flatten_alt(), flat, c);
                if k < trun.0.len() {
                    lemma_flatten_take_next(trun.0, k);
                    lemma_flatten_take_prefix(trun.0, k + 1);
                    lemma_prefix_trans(trun.0.take(k + 1).flatten_alt(), flat, c);
                    let f = trun.0[k];
                    let flat_k = trun.0.take(k).flatten_alt();
                    lemma_prefix_split(flat_k, f, c);
                    assert(f.is_prefix_of(c.skip(flat_k.len() as int))) by {
                        assert(c.skip(flat_k.len() as int).subrange(0, f.len() as int) =~= f);
                    }
                    assert(deframer.spec_accepts(f) == Some(trun.1[k]));
                    assert(f.len() >= 4);
                } else {
                    assert(trun.0.take(k) =~= trun.0);
                    assert(c.skip(flat.len() as int) =~= trun.2);
                }
            }
        }
        proof {
            if owed {
                let c = old_content->0;
                let k = frames.len() as int;
                lemma_flatten_take_prefix(run.0, k);
                if k < run.0.len() {
                    lemma_flatten_take_next(run.0, k);
                    lemma_flatten_take_prefix(run.0, k + 1);
                    let f = run.0[k];
                    let flat_k = run.0.take(k).flatten_alt();
                    lemma_prefix_split(flat_k, f, c);
                    assert(f.is_prefix_of(c.skip(flat_k.len() as int))) by {
                        assert(c.skip(flat_k.len() as int).subrange(0, f.len() as int) =~= f);
                    }
                    assert(deframer.spec_accepts(f) == Some(run.1[k]));
                } else {
                    assert(run.0.take(k) =~= run.0);
                    assert(c.skip(c.len() as int) =~= Seq::<u8>::empty());
                }
            }
        }
        let ghost before = counting;
        let result = deframer.read_and_deframe(counting, &mut buffer);
        proof {
            counting.lemma_follows_trans(&before, &start);
            counting.lemma_extends_trans(&before, &start);
            counting.lemma_extends_position(&before);
            before.lemma_extends_position(&start);
            counting.lemma_extends_position(&start);
            if owed {
                let c = old_content->0;
                let k = frames.len() as int;
                assert(before.content() == Some(c.skip(frames.flatten_alt().len() as int)));
                if k < run.0.len() {
                    let f = run.0[k];
                    assert(f.len() >= 4);
                    assert(frames.flatten_alt().len() + f.len() <= c.len()) by {
                        lemma_flatten_take_next(run.0, k);
                        lemma_flatten_take_prefix(run.0, k + 1);
                    }
                    assert(result matches Ok(Some(_)) && counting.delivered_since(&before) == f);
                } else {
                    assert(result matches Ok(None));
                }
            }
            if owed_t {
                let c = old_content->0;
                let k = frames.len() as int;
                assert(before.content() == Some(c.skip(frames.flatten_alt().len() as int)));
                if k < trun.0.len() {
                    let f = trun.0[k];
                    assert(frames.flatten_alt().len() + f.len() <= c.len()) by {
                        lemma_flatten_take_next(trun.0, k);
                        lemma_flatten_take_prefix(trun.0, k + 1);
                        lemma_flatten_take_prefix(trun.0, trun.0.len() as int);
                        assert(trun.0.take(trun.0.len() as int) =~= trun.0);
                    }
                    assert(result matches Ok(Some(_)) && counting.delivered_since(&before) == f);
                } else {
                    assert(result matches Err(e) && e.is_unexpected_eof());
                }
            }
        }
        match result {
            Ok(Some(n)) => {
                proof {
                    let delta = counting.delivered_since(&before);
                    assert(frames.push(delta).drop_last() =~= frames);
                    if owed {
                        let k = frames.len() as int;
                        assert(run.0.take(k + 1) =~= run.0.take(k).push(run.0[k]));
                    }
                    if owed_t {
                        let k = frames.len() as int;
                        assert(trun.0.take(k + 1) =~= trun.0.take(k).push(trun.0[k]));
                    }
                    frames = frames.push(delta);
                    payloads = payloads.push(buffer@.take(n as int));
                }
                frames_read = frames_read + 1;
                last_good_offset = counting.count();
            },
            Ok(None) => {
                let report = RecoveryReport {
                    frames: frames_read,
                    last_good_offset,
                    end: RecoveryEnd::CleanEof,
                };
                proof {
                    assert(!owed_t);
                    if deframer.obeys_deframer_spec() {
                        let delivered = counting.delivered_since(&start);
                        assert(delivered =~= before.delivered_since(&start));
                        assert(frames.flatten_alt().is_prefix_of(delivered));
                        assert(spec_recovered(deframer, delivered, report));
                        counting.lemma_drained_delivered_all(&start);
                        if let Some(c) = old_content {
                            if c.len() < u64::MAX {
                                assert(delivered == c);
                                assert(spec_recovered(deframer, c, report));
                            }
                        }
                        assert(spec_recovered_content(deframer, old_content, report));
                    }
                }
                return Ok(report);
            },
            Err(e) => {
                let torn = match e.kind() {
                    ErrorKind::UnexpectedEof => true,
                    _ => false,
                };
                if torn {
                    proof {
                        assert(!owed);
                    }
                    let report = RecoveryReport {
                        frames: frames_read,
                        last_good_offset,
                        end: RecoveryEnd::TornTail,
                    };
                    proof {
                        let delivered = counting.delivered_since(&start);
                        assert(frames.flatten_alt().is_prefix_of(delivered)) by {
                            assert(delivered =~= before.delivered_since(&start)
                                + counting.delivered_since(&before));
                            assert(delivered.subrange(0, frames.flatten_alt().len() as int)
                                =~= frames.flatten_alt());
                        }
                        assert(delivered.skip(frames.flatten_alt().len() as int)
                            =~= counting.delivered_since(&before));
                        if deframer.obeys_deframer_spec() {
                            assert(spec_recovered(deframer, delivered, report));
                            counting.lemma_drained_delivered_all(&start);
                            if let Some(c) = old_content {
                                if c.len() < u64::MAX {
                                    assert(delivered == c);
                                    assert(spec_recovered(deframer, c, report));
                                }
                            }
                            assert(spec_recovered_content(deframer, old_content, report));
                        }
                    }
                    return Ok(report);
                }
                proof {
                    assert(!owed);
                    assert(!owed_t);
                }
                return Err(e);
            },
        }
    }
}

/// Scans a repositionable source (typically a journal file) from its
/// beginning and reports the intact prefix with absolute offsets.
///
/// Seeks to offset 0, scans as [`recover`] does, then seeks to
/// `last_good_offset`, where the caller truncates after a `TornTail` report
/// and resumes appending. After an error the position is unspecified.
pub fn recover_file<R: SeekSource, D: Deframer>(reader: &mut R, deframer: D) -> (r: Result<
    RecoveryReport,
    Error,
>)
    ensures
        r matches Err(e) ==> !e.is_unexpected_eof(),
        deframer.obeys_deframer_spec() ==> {
            &&& (r matches Ok(report) ==> exists|delivered: Seq<u8>| spec_recovered(deframer, delivered, report))
            &&& (r is Ok ==> spec_recovered_content(deframer, old(reader).spec_data(), r->Ok_0))
            &&& (old(reader).spec_data() matches Some(d) ==> (d.len() < u64::MAX ==> ((exists|
                frames: Seq<Seq<u8>>,
                payloads: Seq<Seq<u8>>,
            | #[trigger] spec_frame_run(deframer, d, frames, payloads)) ==> (r matches Ok(report)
                && report.end == RecoveryEnd::CleanEof && report.last_good_offset == d.len()))))
            &&& (old(reader).spec_data() matches Some(d) ==> (d.len() < u64::MAX ==> ((exists|
                frames: Seq<Seq<u8>>,
                payloads: Seq<Seq<u8>>,
                rest: Seq<u8>,
            | #[trigger] spec_torn_run(deframer, d, frames, payloads, rest)) ==> (r matches Ok(report)
                && report.end == RecoveryEnd::TornTail))))
        },
{
    let ghost data = reader.spec_data();
    match reader.seek_to(0) {
        Ok(()) => {},
        Err(e) => {
            return Err(Error::io(e));
        },
    }
    proof {
        if let Some(d) = data {
            assert(d.skip(0) =~= d);
        }
    }
    let mut counting = CountingReader::new(&mut *reader);
    let scanned = scan(&mut counting, deframer);
    let source = counting.into_inner();
    let report = match scanned {
        Ok(report) => report,
        Err(e) => {
            return Err(e);
        },
    };
    match source.seek_to(report.last_good_offset) {
        Ok(()) => Ok(report),
        Err(e) => Err(Error::io(e)),
    }
}

/// Recovering a journal written by the default framer and cut anywhere
/// reports exactly the frames completed before the cut: their number, the
/// offset just past the last of them, and a clean end exactly when the cut
/// fell on a frame boundary. The journal holds the frames of `payloads`
/// followed by the first `cut` bytes of the frame of `next`.
#[verifier::rlimit(40)]
pub proof fn lemma_default_recovery_exact(
    deframer: DefaultDeframer,
    payloads: Seq<Seq<u8>>,
    next: Seq<u8>,
    cut: int,
    report: RecoveryReport,
)
    requires
        forall|i: int|
            0 <= i < payloads.len() ==> #[trigger] payloads[i].len() <= deframer.max_frame_len()
                && payloads[i].len() <= MAX_WIRE_FRAME_LEN,
        next.len() <= deframer.max_frame_len(),
        next.len() <= MAX_WIRE_FRAME_LEN,
        0 <= cut < spec_frame(Seq::empty(), next).len(),
        spec_recovered(
            deframer,
            spec_default_stream(payloads) + spec_frame(Seq::empty(), next).take(cut),
            report,
        ),
    ensures
        report.frames == payloads.len(),
        report.last_good_offset == spec_default_stream(payloads).len(),
        report.end == (if cut == 0 {
            RecoveryEnd::CleanEof
        } else {
            RecoveryEnd::TornTail
        }),
{
    let stream = spec_default_stream(payloads);
    let torn = spec_frame(Seq::empty(), next).take(cut);
    let delivered = stream + torn;
    let (frames, decoded) = choose|frames: Seq<Seq<u8>>, decoded: Seq<Seq<u8>>|
        #[trigger] spec_accepted_frames(deframer, frames, decoded)
            && report.frames == frames.len()
            && report.last_good_offset == frames.flatten_alt().len()
            && frames.flatten_alt().is_prefix_of(delivered)
            && (report.end == RecoveryEnd::CleanEof ==> frames.flatten_alt() == delivered)
            && (report.end == RecoveryEnd::TornTail ==> spec_torn_rest(
                deframer,
                delivered.skip(frames.flatten_alt().len() as int),
            ));
    let k = frames.len() as int;
    let n = payloads.len() as int;
    assert(stream.is_prefix_of(delivered)) by {
        assert(delivered.subrange(0, stream.len() as int) =~= stream);
    }
    let flat = frames.flatten_alt();
    if k > n {
        lemma_frames_follow_stream(deframer, frames, payloads, decoded, delivered, n);
        assert(payloads.take(n) =~= payloads);
        let f = frames[n];
        lemma_flatten_take_next(frames, n);
        lemma_flatten_take_prefix(frames, n + 1);
        lemma_prefix_trans(frames.take(n + 1).flatten_alt(), flat, delivered);
        assert(deframer.spec_accepts(f) == Some(decoded[n]));
        assert(spec_parse(f, 0, deframer.max_frame_len()) is Some);
        assert(f =~= torn.take(f.len() as int)) by {
            lemma_prefix_split(stream, f, delivered);
            assert(delivered.skip(stream.len() as int) =~= torn);
            assert(f =~= (f + delivered.skip((stream.len() + f.len()) as int)).take(f.len() as int));
        }
        let g = spec_frame(Seq::empty(), next);
        lemma_parse_frame(Seq::empty(), next, deframer.max_frame_len());
        assert(f.take(4) =~= g.take(4));
        assert(false);
    }
    if k < n {
        lemma_frames_follow_stream(deframer, frames, payloads, decoded, delivered, k);
        assert(frames.take(k) =~= frames);
        lemma_default_stream_split(payloads, k);
        let g = spec_frame(Seq::empty(), payloads[k]);
        lemma_parse_frame(Seq::empty(), payloads[k], deframer.max_frame_len());
        lemma_prefix_trans(spec_default_stream(payloads.take(k + 1)), stream, delivered);
        let rest = delivered.skip(flat.len() as int);
        assert(rest.take(g.len() as int) =~= g) by {
            lemma_prefix_split(flat, g, delivered);
            assert(g =~= (g + delivered.skip((flat.len() + g.len()) as int)).take(g.len() as int));
        }
        assert(rest.take(4) =~= g.take(4));
        if report.end == RecoveryEnd::CleanEof {
            assert(flat.len() == delivered.len());
            assert(false);
        } else {
            assert(spec_torn_rest(deframer, rest));
            assert(false);
        }
    }
    lemma_frames_follow_stream(deframer, frames, payloads, decoded, delivered, n);
    assert(frames.take(n) =~= frames);
    assert(payloads.take(n) =~= payloads);
    if cut == 0 {
        assert(delivered =~= stream);
        assert(delivered.skip(flat.len() as int) =~= Seq::<u8>::empty());
    } else {
        assert(delivered.len() > flat.len());
    }
}

/// Truncating a journal to the reported offset leaves exactly the intact
/// frames: the truncated journal is described by the same report with a
/// clean end.
pub proof fn lemma_truncation_recovers_clean<D: Deframer>(
    deframer: D,
    delivered: Seq<u8>,
    report: RecoveryReport,
)
    requires
        spec_recovered(deframer, delivered, report),
    ensures
        report.last_good_offset <= delivered.len(),
        spec_recovered(
            deframer,
            delivered.take(report.last_good_offset as int),
            RecoveryReport { end: RecoveryEnd::CleanEof, ..report },
        ),
{
    let (frames, payloads) = choose|frames: Seq<Seq<u8>>, payloads: Seq<Seq<u8>>|
        #[trigger] spec_accepted_frames(deframer, frames, payloads)
            && report.frames == frames.len()
            && report.last_good_offset == frames.flatten_alt().len()
            && frames.flatten_alt().is_prefix_of(delivered)
            && (report.end == RecoveryEnd::CleanEof ==> frames.flatten_alt() == delivered)
            && (report.end == RecoveryEnd::TornTail ==> spec_torn_rest(
                deframer,
                delivered.skip(frames.flatten_alt().len() as int),
            ));
    let flat = frames.flatten_alt();
    let truncated = delivered.take(report.last_good_offset as int);
    assert(truncated =~= flat);
    assert(flat.is_prefix_of(truncated));
    assert(spec_accepted_frames(deframer, frames, payloads));
}

/// Two lists of accepted default frames that both lie at the front of the
/// same bytes agree frame by frame, as far as both go.
proof fn lemma_accepted_lists_agree(
    deframer: DefaultDeframer,
    fa: Seq<Seq<u8>>,
    pa: Seq<Seq<u8>>,
    fb: Seq<Seq<u8>>,
    pb: Seq<Seq<u8>>,
    delivered: Seq<u8>,
    j: int,
)
    requires
        spec_accepted_frames(deframer, fa, pa),
        spec_accepted_frames(deframer, fb, pb),
        fa.flatten_alt().is_prefix_of(delivered),
        fb.flatten_alt().is_prefix_of(delivered),
        0 <= j <= fa.len(),
        j <= fb.len(),
    ensures
        fa.take(j) == fb.take(j),
    decreases j,
{
    if j == 0 {
        assert(fa.take(0) =~= fb.take(0));
    } else {
        let i = j - 1;
        lemma_accepted_lists_agree(deframer, fa, pa, fb, pb, delivered, i);
        let a = fa.take(i).flatten_alt();
        lemma_flatten_take_next(fa, i);
        lemma_flatten_take_next(fb, i);
        lemma_flatten_take_prefix(fa, j);
        lemma_flatten_take_prefix(fb, j);
        lemma_prefix_trans(fa.take(j).flatten_alt(), fa.flatten_alt(), delivered);
        lemma_prefix_trans(fb.take(j).flatten_alt(), fb.flatten_alt(), delivered);
        assert(deframer.spec_accepts(fa[i]) == Some(pa[i]));
        assert(deframer.spec_accepts(fb[i]) == Some(pb[i]));
        lemma_prefix_split(a, fa[i], delivered);
        lemma_prefix_split(a, fb[i], delivered);
        lemma_frames_self_delimiting(
            fa[i],
            fb[i],
            delivered.skip((a.len() + fa[i].len()) as int),
            delivered.skip((a.len() + fb[i].len()) as int),
            0,
            deframer.max_frame_len(),
        );
        assert(fa.take(j) =~= fa.take(i).push(fa[i]));
        assert(fb.take(j) =~= fb.take(i).push(fb[i]));
    }
}

/// A default-framed journal has one recovery report: any two reports that
/// describe a scan of the same bytes are equal, so the intact frame count,
/// the truncation point and the kind of end are determined by the bytes.
pub proof fn lemma_default_recovery_unique(
    deframer: DefaultDeframer,
    delivered: Seq<u8>,
    first: RecoveryReport,
    second: RecoveryReport,
)
    requires
        spec_recovered(deframer, delivered, first),
        spec_recovered(deframer, delivered, second),
    ensures
        first == second,
{
    let (fa, pa) = choose|frames: Seq<Seq<u8>>, payloads: Seq<Seq<u8>>|
        #[trigger] spec_accepted_frames(deframer, frames, payloads)
            && first.frames == frames.len()
            && first.last_good_offset == frames.flatten_alt().len()
            && frames.flatten_alt().is_prefix_of(delivered)
            && (first.end == RecoveryEnd::CleanEof ==> frames.flatten_alt() == delivered)
            && (first.end == RecoveryEnd::TornTail ==> spec_torn_rest(
                deframer,
                delivered.skip(frames.flatten_alt().len() as int),
            ));
    let (fb, pb) = choose|frames: Seq<Seq<u8>>, payloads: Seq<Seq<u8>>|
        #[trigger] spec_accepted_frames(deframer, frames, payloads)
            && second.frames == frames.len()
            && second.last_good_offset == frames.flatten_alt().len()
            && frames.flatten_alt().is_prefix_of(delivered)
            && (second.end == RecoveryEnd::CleanEof ==> frames.flatten_alt() == delivered)
            && (second.end == RecoveryEnd::TornTail ==> spec_torn_rest(
                deframer,
                delivered.skip(frames.flatten_alt().len() as int),
            ));
    lemma_no_longer_list(deframer, fa, pa, fb, pb, delivered, first);
    lemma_no_longer_list(deframer, fb, pb, fa, pa, delivered, second);
    lemma_accepted_lists_agree(deframer, fa, pa, fb, pb, delivered, fa.len() as int);
    assert(fa.take(fa.len() as int) =~= fa);
    assert(fb.take(fb.len() as int) =~= fb);
    let flat = fa.flatten_alt();
    if first.end != second.end {
        assert(flat == delivered);
        assert(delivered.skip(flat.len() as int) =~= Seq::<u8>::empty());
    }
}

/// A report whose frames are `fa` is not outdone by another list `fb` of
/// accepted frames at the front of the same bytes: `fb` is not longer.
proof fn lemma_no_longer_list(
    deframer: DefaultDeframer,
    fa: Seq<Seq<u8>>,
    pa: Seq<Seq<u8>>,
    fb: Seq<Seq<u8>>,
    pb: Seq<Seq<u8>>,
    delivered: Seq<u8>,
    report: RecoveryReport,
)
    requires
        spec_accepted_frames(deframer, fa, pa),
        spec_accepted_frames(deframer, fb, pb),
        fa.flatten_alt().is_prefix_of(delivered),
        fb.flatten_alt().is_prefix_of(delivered),
        report.end == RecoveryEnd::CleanEof ==> fa.flatten_alt() == delivered,
        report.end == RecoveryEnd::TornTail ==> spec_torn_rest(
            deframer,
            delivered.skip(fa.flatten_alt().len() as int),
        ),
    ensures
        fb.len() <= fa.len(),
{
    if fb.len() > fa.len() {
        let k = fa.len() as int;
        lemma_accepted_lists_agree(deframer, fa, pa, fb, pb, delivered, k);
        assert(fa.take(k) =~= fa);
        let flat = fa.flatten_alt();
        let g = fb[k];
        lemma_flatten_take_next(fb, k);
        lemma_flatten_take_prefix(fb, k + 1);
        lemma_prefix_trans(fb.take(k + 1).flatten_alt(), fb.flatten_alt(), delivered);
        assert(deframer.spec_accepts(g) == Some(pb[k]));
        assert(spec_parse(g, 0, deframer.max_frame_len()) is Some);
        let rest = delivered.skip(flat.len() as int);
        lemma_prefix_split(flat, g, delivered);
        assert(rest.take(g.len() as int) =~= g) by {
            assert(g =~= (g + delivered.skip((flat.len() + g.len()) as int)).take(g.len() as int));
        }
        assert(rest.take(4) =~= g.take(4));
        if report.end == RecoveryEnd::CleanEof {
            assert(flat.len() == delivered.len());
            assert(false);
        } else {
            assert(spec_torn_rest(deframer, rest));
            assert(false);
        }
    }
}

/// An index entry recorded for frame `i` of a default-framed journal still
/// resolves whatever follows the intact frames: the entry's bytes, from the
/// end of the frames before it to the end of its own frame, lie within the
/// stream of the intact frames, and the deframer reads its payload there.
pub proof fn lemma_default_index_entry_resolves(
    deframer: DefaultDeframer,
    payloads: Seq<Seq<u8>>,
    i: int,
    tail: Seq<u8>,
)
    requires
        forall|k: int|
            0 <= k < payloads.len() ==> #[trigger] payloads[k].len() <= deframer.max_frame_len()
                && payloads[k].len() <= MAX_WIRE_FRAME_LEN,
        0 <= i < payloads.len(),
    ensures
        spec_default_stream(payloads.take(i + 1)).len() <= spec_default_stream(payloads).len(),
        deframer.spec_accepts(
            (spec_default_stream(payloads) + tail).subrange(
                spec_default_stream(payloads.take(i)).len() as int,
                spec_default_stream(payloads.take(i + 1)).len() as int,
            ),
        ) == Some(payloads[i]),
{
    let before = spec_default_stream(payloads.take(i));
    let through = spec_default_stream(payloads.take(i + 1));
    let journal = spec_default_stream(payloads) + tail;
    let f = spec_frame(Seq::empty(), payloads[i]);
    lemma_default_stream_split(payloads, i);
    lemma_parse_frame(Seq::empty(), payloads[i], deframer.max_frame_len());
    let stream = spec_default_stream(payloads);
    assert(stream.subrange(0, through.len() as int) == through);
    assert(journal.subrange(before.len() as int, through.len() as int) =~= f) by {
        assert forall|k: int| 0 <= k < f.len() implies #[trigger] journal.subrange(
            before.len() as int,
            through.len() as int,
        )[k] == f[k] by {
            assert(stream.subrange(0, through.len() as int)[before.len() + k] == through[before.len() + k]);
            assert(through[before.len() + k] == (before + f)[before.len() + k]);
        }
    }
}

/// Recovering a journal written by a checksum framer and cut anywhere, with
/// a deframer of the same algorithm, reports exactly the frames completed
/// before the cut: their number, the offset just past the last of them, and
/// a clean end exactly when the cut fell on a frame boundary. The journal
/// holds the frames of `payloads` followed by the first `cut` bytes of the
/// frame of `next`.
#[verifier::rlimit(40)]
pub proof fn lemma_checksum_recovery_exact<C: Checksum>(
    framer: ChecksumFramer<C>,
    deframer: ChecksumDeframer<C>,
    payloads: Seq<Seq<u8>>,
    next: Seq<u8>,
    cut: int,
    report: RecoveryReport,
)
    requires
        C::SIZE <= 8,
        framer.algorithm() == deframer.algorithm(),
        forall|i: int|
            0 <= i < payloads.len() ==> #[trigger] payloads[i].len() <= deframer.max_frame_len()
                && payloads[i].len() <= MAX_WIRE_FRAME_LEN,
        next.len() <= deframer.max_frame_len(),
        next.len() <= MAX_WIRE_FRAME_LEN,
        0 <= cut < spec_checksum_frame(framer, next).len(),
        spec_recovered(
            deframer,
            spec_checksum_frames(framer, payloads).flatten_alt() + spec_checksum_frame(framer, next).take(
                cut,
            ),
            report,
        ),
    ensures
        report.frames == payloads.len(),
        report.last_good_offset == spec_checksum_frames(framer, payloads).flatten_alt().len(),
        report.end == (if cut == 0 {
            RecoveryEnd::CleanEof
        } else {
            RecoveryEnd::TornTail
        }),
{
    let width = C::SIZE as nat;
    let max = deframer.max_frame_len();
    let written = spec_checksum_frames(framer, payloads);
    let stream = written.flatten_alt();
    let g = spec_checksum_frame(framer, next);
    let torn = g.take(cut);
    let delivered = stream + torn;
    let (frames, decoded) = choose|frames: Seq<Seq<u8>>, decoded: Seq<Seq<u8>>|
        #[trigger] spec_accepted_frames(deframer, frames, decoded)
            && report.frames == frames.len()
            && report.last_good_offset == frames.flatten_alt().len()
            && frames.flatten_alt().is_prefix_of(delivered)
            && (report.end == RecoveryEnd::CleanEof ==> frames.flatten_alt() == delivered)
            && (report.end == RecoveryEnd::TornTail ==> spec_torn_rest(
                deframer,
                delivered.skip(frames.flatten_alt().len() as int),
            ));
    assert forall|i: int| 0 <= i < written.len() implies #[trigger] spec_parse(written[i], width, max) is Some by {
        lemma_parse_frame(
            le_bytes(framer.algorithm().spec_calculate(payloads[i]), width),
            payloads[i],
            max,
        );
    }
    assert forall|i: int| 0 <= i < frames.len() implies #[trigger] spec_parse(frames[i], width, max) is Some by {
        assert(deframer.spec_accepts(frames[i]) == Some(decoded[i]));
    }
    lemma_parse_frame(le_bytes(framer.algorithm().spec_calculate(next), width), next, max);
    assert(spec_parse(g, width, max) is Some);
    assert(stream.is_prefix_of(delivered)) by {
        assert(delivered.subrange(0, stream.len() as int) =~= stream);
    }
    let k = frames.len() as int;
    let n = written.len() as int;
    let flat = frames.flatten_alt();
    if k > n {
        lemma_parsed_lists_agree(frames, written, delivered, width, max, n);
        assert(written.take(n) =~= written);
        let f = frames[n];
        lemma_flatten_take_next(frames, n);
        lemma_flatten_take_prefix(frames, n + 1);
        lemma_prefix_trans(frames.take(n + 1).flatten_alt(), flat, delivered);
        assert(spec_parse(f, width, max) is Some);
        assert(f =~= torn.take(f.len() as int)) by {
            lemma_prefix_split(stream, f, delivered);
            assert(delivered.skip(stream.len() as int) =~= torn);
            assert(f =~= (f + delivered.skip((stream.len() + f.len()) as int)).take(f.len() as int));
        }
        assert(f.take(4) =~= g.take(4));
        assert(false);
    }
    if k < n {
        lemma_parsed_lists_agree(frames, written, delivered, width, max, k);
        assert(frames.take(k) =~= frames);
        let w = written[k];
        assert(spec_parse(w, width, max) is Some);
        lemma_flatten_take_next(written, k);
        lemma_flatten_take_prefix(written, k + 1);
        lemma_prefix_trans(written.take(k + 1).flatten_alt(), stream, delivered);
        let rest = delivered.skip(flat.len() as int);
        assert(rest.take(w.len() as int) =~= w) by {
            lemma_prefix_split(flat, w, delivered);
            assert(w =~= (w + delivered.skip((flat.len() + w.len()) as int)).take(w.len() as int));
        }
        assert(rest.take(4) =~= w.take(4));
        if report.end == RecoveryEnd::CleanEof {
            assert(flat.len() == delivered.len());
            assert(false);
        } else {
            assert(spec_torn_rest(deframer, rest));
            assert(false);
        }
    }
    lemma_parsed_lists_agree(frames, written, delivered, width, max, n);
    assert(frames.take(n) =~= frames);
    assert(written.take(n) =~= written);
    if cut == 0 {
        assert(delivered =~= stream);
        assert(delivered.skip(flat.len() as int) =~= Seq::<u8>::empty());
    } else {
        assert(delivered.len() > flat.len());
    }
}

} // verus!
