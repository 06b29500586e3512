//! Durability policies for the stream writer.
//!
//! Durability is separate from ordinary writing: `flush` only moves bytes
//! through userspace buffers, while a durability checkpoint asks the storage
//! to persist them. A [`SyncPolicy`] observes every accepted frame and decides
//! when a checkpoint is due; its state resets only after a checkpoint at least
//! as strong as the one it asked for succeeded, so a failed checkpoint stays
//! due and a weaker `Data` checkpoint never satisfies a pending `All`.
use vstd::prelude::*;

use std::time::Duration;

use crate::error::Error;
use crate::io::{ByteSink, CountingWriter, Durable};
use crate::policy::{duration_as_nanos, Clock, MonotonicClock};
use crate::writer::FrameReceipt;

verus! {

/// The strength of a requested durability checkpoint. `All` is the stronger.
#[derive(Debug, Clone, Copy, PartialEq, Eq, PartialOrd, Ord, Structural)]
pub enum SyncMode {
    /// Synchronize file contents without requiring unrelated metadata updates.
    Data,
    /// Synchronize file contents and metadata.
    All,
}

/// A completed checkpoint of strength `done` satisfies a request for `required`.
pub open spec fn spec_covers(done: SyncMode, required: SyncMode) -> bool {
    done == SyncMode::All || required == SyncMode::Data
}

/// The stronger of two modes.
pub open spec fn spec_stronger(a: SyncMode, b: SyncMode) -> SyncMode {
    if a == SyncMode::All || b == SyncMode::All {
        SyncMode::All
    } else {
        SyncMode::Data
    }
}

/// Whether a completed checkpoint of strength `done` satisfies `required`.
fn covers(done: SyncMode, required: SyncMode) -> (r: bool)
    ensures
        r == spec_covers(done, required),
{
    match (done, required) {
        (SyncMode::All, _) => true,
        (SyncMode::Data, SyncMode::Data) => true,
        (SyncMode::Data, SyncMode::All) => false,
    }
}

/// The request that results when two policies answer the same frame: either
/// request, and the stronger mode when both ask.
pub open spec fn spec_combine(a: Option<SyncMode>, b: Option<SyncMode>) -> Option<SyncMode> {
    match (a, b) {
        (Some(x), Some(y)) => Some(spec_stronger(x, y)),
        (Some(x), None) => Some(x),
        (None, Some(y)) => Some(y),
        (None, None) => None,
    }
}

/// Combines the requests two policies made for the same frame: either
/// request, and `All` when both ask and either asks for `All`.
pub fn combine_requests(a: Option<SyncMode>, b: Option<SyncMode>) -> (r: Option<SyncMode>)
    ensures
        r == spec_combine(a, b),
{
    match (a, b) {
        (Some(SyncMode::All), Some(_)) => Some(SyncMode::All),
        (Some(SyncMode::Data), Some(y)) => Some(y),
        (Some(x), None) => Some(x),
        (None, Some(y)) => Some(y),
        (None, None) => None,
    }
}

/// Information supplied to a [`SyncPolicy`] after a complete frame is accepted.
#[derive(Debug, Clone, Copy, PartialEq, Eq, Structural)]
pub struct SyncInfo {
    /// First byte of the frame.
    pub frame_start: u64,
    /// Number of on-wire bytes in the frame.
    pub wire_len: u64,
    /// Offset one past the frame's final byte.
    pub frame_end: u64,
}

/// A policy deciding when accepted frames become durable.
///
/// `observe` is called after each successfully written frame. State is reset
/// only through `on_synced`, after the requested durability operation
/// succeeded; `on_synced` receives the mode that actually completed.
pub trait SyncPolicy: Send {
    /// Whether `observe` is specified by
    /// [`spec_observed`](SyncPolicy::spec_observed). The policies of this
    /// library are (an [`AnySync`] when both parts are); one written outside
    /// verified code is not (`false`), and nothing over `spec_observed` is
    /// claimed for it.
    open spec fn obeys_sync_policy_spec(&self) -> bool {
        false
    }

    /// `observe(info)` may take this policy to `next` and answer `request`,
    /// for a policy that obeys the specification.
    open spec fn spec_observed(&self, next: &Self, info: SyncInfo, request: Option<SyncMode>) -> bool {
        arbitrary()
    }

    /// Observes an accepted frame and optionally requests a checkpoint.
    fn observe(&mut self, info: SyncInfo) -> (r: Option<SyncMode>)
        ensures
            old(self).obeys_sync_policy_spec() ==> final(self).obeys_sync_policy_spec() && old(
                self,
            ).spec_observed(&*final(self), info, r),
    ;

    /// `on_synced(mode, durable_watermark)` may take this policy to `next`,
    /// for a policy that obeys the specification.
    open spec fn spec_synced(&self, next: &Self, mode: SyncMode, durable_watermark: u64) -> bool {
        arbitrary()
    }

    /// Called after a manual or automatic checkpoint succeeded. (Every policy
    /// implements it, a policy that keeps no state with an empty body: a
    /// provided body could not meet the relation each policy states.)
    fn on_synced(&mut self, mode: SyncMode, durable_watermark: u64)
        ensures
            old(self).obeys_sync_policy_spec() ==> final(self).obeys_sync_policy_spec() && old(
                self,
            ).spec_synced(&*final(self), mode, durable_watermark),
    ;
}

/// The zero-sized default policy. It never requests a checkpoint.
#[derive(Debug, Clone, Copy, Default)]
pub struct NoSync;

impl SyncPolicy for NoSync {
    open spec fn obeys_sync_policy_spec(&self) -> bool {
        true
    }

    open spec fn spec_observed(&self, next: &Self, info: SyncInfo, request: Option<SyncMode>) -> bool {
        request is None
    }

    /// Nothing to reset.
    open spec fn spec_synced(&self, next: &Self, mode: SyncMode, durable_watermark: u64) -> bool {
        true
    }

    fn observe(&mut self, _info: SyncInfo) -> (r: Option<SyncMode>)
        ensures
            r is None,
    {
        None
    }

    fn on_synced(&mut self, _mode: SyncMode, _durable_watermark: u64) {
    }
}

/// Requests a durability checkpoint after every frame.
#[derive(Debug, Clone, Copy)]
pub struct SyncEveryFrame {
    mode: SyncMode,
}

impl SyncEveryFrame {
    /// The mode requested after every frame.
    pub closed spec fn mode(&self) -> SyncMode {
        self.mode
    }

    /// A policy that requests `mode` after every complete frame.
    pub fn new(mode: SyncMode) -> (r: Self)
        ensures
            r.mode() == mode,
    {
        SyncEveryFrame { mode }
    }
}

impl SyncPolicy for SyncEveryFrame {
    open spec fn obeys_sync_policy_spec(&self) -> bool {
        true
    }

    open spec fn spec_observed(&self, next: &Self, info: SyncInfo, request: Option<SyncMode>) -> bool {
        request == Some(self.mode()) && next.mode() == self.mode()
    }

    /// Nothing to reset.
    open spec fn spec_synced(&self, next: &Self, mode: SyncMode, durable_watermark: u64) -> bool {
        next.mode() == self.mode()
    }

    fn observe(&mut self, _info: SyncInfo) -> (r: Option<SyncMode>)
        ensures
            r == Some(old(self).mode()),
            final(self).mode() == old(self).mode(),
    {
        Some(self.mode)
    }

    fn on_synced(&mut self, _mode: SyncMode, _durable_watermark: u64)
        ensures
            final(self).mode() == old(self).mode(),
    {
    }
}

/// Adds one to a counter, saturating at `u64::MAX`.
pub open spec fn spec_saturating_add(a: u64, b: u64) -> u64 {
    if a + b > u64::MAX {
        u64::MAX
    } else {
        (a + b) as u64
    }
}

/// Requests a checkpoint after a configured number of frames.
#[derive(Debug, Clone, Copy)]
pub struct SyncEveryNFrames {
    frames: u64,
    pending: u64,
    mode: SyncMode,
}

impl SyncEveryNFrames {
    /// The number of frames after which a checkpoint is due.
    pub closed spec fn frames(&self) -> u64 {
        self.frames
    }

    /// Frames accepted since the last satisfying checkpoint (saturating).
    pub closed spec fn pending(&self) -> u64 {
        self.pending
    }

    /// The mode requested.
    pub closed spec fn mode(&self) -> SyncMode {
        self.mode
    }

    /// A frame-count policy; the counter resets after a successful manual or
    /// automatic checkpoint of at least `mode`'s strength.
    pub fn new(frames: u64, mode: SyncMode) -> (r: Self)
        requires
            frames > 0,
        ensures
            r.frames() == frames,
            r.pending() == 0,
            r.mode() == mode,
    {
        SyncEveryNFrames { frames, pending: 0, mode }
    }
}

impl SyncPolicy for SyncEveryNFrames {
    open spec fn obeys_sync_policy_spec(&self) -> bool {
        true
    }

    open spec fn spec_observed(&self, next: &Self, info: SyncInfo, request: Option<SyncMode>) -> bool {
        &&& next.pending() == spec_saturating_add(self.pending(), 1)
        &&& next.frames() == self.frames()
        &&& next.mode() == self.mode()
        &&& request == (if next.pending() >= self.frames() {
            Some(self.mode())
        } else {
            None
        })
    }

    /// A checkpoint at least as strong as the mode resets the count.
    open spec fn spec_synced(&self, next: &Self, mode: SyncMode, durable_watermark: u64) -> bool {
        &&& next.pending() == (if spec_covers(mode, self.mode()) {
            0
        } else {
            self.pending()
        })
        &&& next.frames() == self.frames()
        &&& next.mode() == self.mode()
    }

    fn observe(&mut self, _info: SyncInfo) -> (r: Option<SyncMode>)
        ensures
            final(self).pending() == spec_saturating_add(old(self).pending(), 1),
            final(self).frames() == old(self).frames(),
            final(self).mode() == old(self).mode(),
            r == (if final(self).pending() >= old(self).frames() {
                Some(old(self).mode())
            } else {
                None
            }),
    {
        self.pending = self.pending.saturating_add(1);
        if self.pending >= self.frames {
            Some(self.mode)
        } else {
            None
        }
    }

    fn on_synced(&mut self, mode: SyncMode, _durable_watermark: u64)
        ensures
            final(self).pending() == (if spec_covers(mode, old(self).mode()) {
                0
            } else {
                old(self).pending()
            }),
            final(self).frames() == old(self).frames(),
            final(self).mode() == old(self).mode(),
    {
        if covers(mode, self.mode) {
            self.pending = 0;
        }
    }
}

/// Requests a checkpoint after at least a configured number of wire bytes.
#[derive(Debug, Clone, Copy)]
pub struct SyncEveryBytes {
    bytes: u64,
    pending: u64,
    mode: SyncMode,
}

impl SyncEveryBytes {
    /// The wire-byte threshold.
    pub closed spec fn bytes(&self) -> u64 {
        self.bytes
    }

    /// Wire bytes accepted since the last satisfying checkpoint (saturating).
    pub closed spec fn pending(&self) -> u64 {
        self.pending
    }

    /// The mode requested.
    pub closed spec fn mode(&self) -> SyncMode {
        self.mode
    }

    /// A wire-byte policy. A frame that crosses the threshold is fully
    /// included in the resulting checkpoint.
    pub fn new(bytes: u64, mode: SyncMode) -> (r: Self)
        requires
            bytes > 0,
        ensures
            r.bytes() == bytes,
            r.pending() == 0,
            r.mode() == mode,
    {
        SyncEveryBytes { bytes, pending: 0, mode }
    }
}

impl SyncPolicy for SyncEveryBytes {
    open spec fn obeys_sync_policy_spec(&self) -> bool {
        true
    }

    open spec fn spec_observed(&self, next: &Self, info: SyncInfo, request: Option<SyncMode>) -> bool {
        &&& next.pending() == spec_saturating_add(self.pending(), info.wire_len)
        &&& next.bytes() == self.bytes()
        &&& next.mode() == self.mode()
        &&& request == (if next.pending() >= self.bytes() {
            Some(self.mode())
        } else {
            None
        })
    }

    /// A checkpoint at least as strong as the mode resets the count.
    open spec fn spec_synced(&self, next: &Self, mode: SyncMode, durable_watermark: u64) -> bool {
        &&& next.pending() == (if spec_covers(mode, self.mode()) {
            0
        } else {
            self.pending()
        })
        &&& next.bytes() == self.bytes()
        &&& next.mode() == self.mode()
    }

    fn observe(&mut self, info: SyncInfo) -> (r: Option<SyncMode>)
        ensures
            final(self).pending() == spec_saturating_add(old(self).pending(), info.wire_len),
            final(self).bytes() == old(self).bytes(),
            final(self).mode() == old(self).mode(),
            r == (if final(self).pending() >= old(self).bytes() {
                Some(old(self).mode())
            } else {
                None
            }),
    {
        self.pending = self.pending.saturating_add(info.wire_len);
        if self.pending >= self.bytes {
            Some(self.mode)
        } else {
            None
        }
    }

    fn on_synced(&mut self, mode: SyncMode, _durable_watermark: u64)
        ensures
            final(self).pending() == (if spec_covers(mode, old(self).mode()) {
                0
            } else {
                old(self).pending()
            }),
            final(self).bytes() == old(self).bytes(),
            final(self).mode() == old(self).mode(),
    {
        if covers(mode, self.mode) {
            self.pending = 0;
        }
    }
}

/// Whether `interval` nanoseconds have passed between the clock readings
/// `last` and `now` (a reading before `last` counts as no time).
pub open spec fn spec_interval_elapsed(now: u128, last: u128, interval: u128) -> bool {
    (if now >= last { now - last } else { 0 }) >= interval
}

/// Requests a checkpoint once a monotonic interval has elapsed since the last
/// satisfying checkpoint (or since the policy was created). The clock is read
/// after every accepted frame; readings are kept in nanoseconds.
#[derive(Debug, Clone, Copy)]
pub struct SyncEveryInterval<C: Clock = MonotonicClock> {
    interval: Duration,
    interval_nanos: u128,
    last_sync: u128,
    clock: C,
    mode: SyncMode,
}

impl<C: Clock> SyncEveryInterval<C> {
    /// The clock reading (nanoseconds) of the last satisfying checkpoint.
    pub closed spec fn last_sync(&self) -> u128 {
        self.last_sync
    }

    /// The configured interval.
    pub closed spec fn interval(&self) -> Duration {
        self.interval
    }

    /// The configured interval in nanoseconds.
    pub closed spec fn interval_nanos(&self) -> u128 {
        self.interval_nanos
    }

    /// The mode requested.
    pub closed spec fn mode(&self) -> SyncMode {
        self.mode
    }

    /// The time source.
    pub closed spec fn clock(&self) -> C {
        self.clock
    }

    /// The request made when the clock reads `now` nanoseconds.
    pub open spec fn spec_request_at(&self, now: u128) -> Option<SyncMode> {
        if spec_interval_elapsed(now, self.last_sync(), self.interval_nanos()) {
            Some(self.mode())
        } else {
            None
        }
    }
}

impl SyncEveryInterval<MonotonicClock> {
    /// An interval policy using the production monotonic clock.
    pub fn new(interval: Duration, mode: SyncMode) -> (r: Self)
        ensures
            r.interval() == interval,
            r.mode() == mode,
    {
        Self::with_clock(interval, mode, MonotonicClock::new())
    }
}

impl<C: Clock> SyncEveryInterval<C> {
    /// An interval policy with an injected clock; the interval starts at the
    /// clock's current reading.
    pub fn with_clock(interval: Duration, mode: SyncMode, clock: C) -> (r: Self)
        ensures
            r.interval() == interval,
            r.mode() == mode,
            r.clock() == clock,
    {
        let reading = clock.now();
        let last_sync = duration_as_nanos(&reading);
        let interval_nanos = duration_as_nanos(&interval);
        SyncEveryInterval { interval, interval_nanos, last_sync, clock, mode }
    }

    /// The state after a checkpoint of strength `mode` completed when the
    /// clock read `now` nanoseconds: a checkpoint covering the requested mode
    /// restarts the interval at `now`; a weaker one changes nothing.
    pub closed spec fn spec_synced_at(&self, mode: SyncMode, now: u128) -> Self {
        if spec_covers(mode, self.mode()) {
            SyncEveryInterval { last_sync: now, ..*self }
        } else {
            *self
        }
    }

    /// Records a checkpoint of strength `mode` completed when the clock read
    /// `now` nanoseconds.
    pub fn synced_at(&mut self, mode: SyncMode, now: u128)
        ensures
            *final(self) == old(self).spec_synced_at(mode, now),
            final(self).interval() == old(self).interval(),
            final(self).interval_nanos() == old(self).interval_nanos(),
            final(self).mode() == old(self).mode(),
            final(self).clock() == old(self).clock(),
            spec_covers(mode, old(self).mode()) ==> final(self).last_sync() == now,
            !spec_covers(mode, old(self).mode()) ==> *final(self) == *old(self),
    {
        if covers(mode, self.mode) {
            self.last_sync = now;
        }
    }

    /// The request for a frame observed when the clock reads `now`
    /// nanoseconds: the mode once the interval has elapsed since the last
    /// satisfying checkpoint.
    pub fn request_at(&self, now: u128) -> (r: Option<SyncMode>)
        ensures
            r == self.spec_request_at(now),
    {
        if now.saturating_sub(self.last_sync) >= self.interval_nanos {
            Some(self.mode)
        } else {
            None
        }
    }
}

impl<C: Clock> SyncPolicy for SyncEveryInterval<C> {
    open spec fn obeys_sync_policy_spec(&self) -> bool {
        true
    }

    /// The answer depends on the clock reading, whatever it was.
    open spec fn spec_observed(&self, next: &Self, info: SyncInfo, request: Option<SyncMode>) -> bool {
        *next == *self && exists|now: u128| request == #[trigger] self.spec_request_at(now)
    }

    /// The checkpoint is recorded at whatever the clock read when it was
    /// reported.
    open spec fn spec_synced(&self, next: &Self, mode: SyncMode, durable_watermark: u64) -> bool {
        &&& exists|now: u128| *next == #[trigger] self.spec_synced_at(mode, now)
        &&& next.interval() == self.interval()
        &&& next.interval_nanos() == self.interval_nanos()
        &&& next.mode() == self.mode()
        &&& next.clock() == self.clock()
        &&& !spec_covers(mode, self.mode()) ==> next.last_sync() == self.last_sync()
    }

    /// Reads the clock and requests a checkpoint when the interval elapsed.
    fn observe(&mut self, _info: SyncInfo) -> (r: Option<SyncMode>)
        ensures
            *final(self) == *old(self),
            exists|now: u128| r == #[trigger] old(self).spec_request_at(now),
    {
        let reading = self.clock.now();
        let now = duration_as_nanos(&reading);
        self.request_at(now)
    }

    /// A satisfying checkpoint restarts the interval at the clock's reading.
    fn on_synced(&mut self, mode: SyncMode, _durable_watermark: u64)
        ensures
            exists|now: u128| *final(self) == #[trigger] old(self).spec_synced_at(mode, now),
            final(self).interval() == old(self).interval(),
            final(self).interval_nanos() == old(self).interval_nanos(),
            final(self).mode() == old(self).mode(),
            final(self).clock() == old(self).clock(),
            !spec_covers(mode, old(self).mode()) ==> *final(self) == *old(self),
    {
        if covers(mode, self.mode) {
            let reading = self.clock.now();
            let now = duration_as_nanos(&reading);
            self.synced_at(mode, now);
        } else {
            assert(*self == old(self).spec_synced_at(mode, 0));
        }
    }
}

/// A checkpoint covering the interval policy's mode restarts its interval at
/// the checkpoint's clock reading: no checkpoint is requested until a full
/// interval has elapsed from that reading, and one is requested once it has.
pub proof fn lemma_interval_restarts_at_checkpoint<C: Clock>(
    policy: SyncEveryInterval<C>,
    mode: SyncMode,
    synced: u128,
    later: u128,
)
    requires
        spec_covers(mode, policy.mode()),
        synced <= later,
    ensures
        later - synced < policy.interval_nanos() ==> policy.spec_synced_at(mode, synced).spec_request_at(later)
            is None,
        later - synced >= policy.interval_nanos() ==> policy.spec_synced_at(mode, synced).spec_request_at(later)
            == Some(policy.mode()),
{
}

/// Recording a checkpoint keeps the interval policy's configuration; a
/// covering one moves the start of the interval to the checkpoint's reading,
/// a weaker one changes nothing.
pub proof fn lemma_synced_at_state<C: Clock>(policy: SyncEveryInterval<C>, mode: SyncMode, synced: u128)
    ensures
        policy.spec_synced_at(mode, synced).interval() == policy.interval(),
        policy.spec_synced_at(mode, synced).interval_nanos() == policy.interval_nanos(),
        policy.spec_synced_at(mode, synced).mode() == policy.mode(),
        policy.spec_synced_at(mode, synced).clock() == policy.clock(),
        spec_covers(mode, policy.mode()) ==> policy.spec_synced_at(mode, synced).last_sync() == synced,
        !spec_covers(mode, policy.mode()) ==> policy.spec_synced_at(mode, synced) == policy,
{
}

/// A checkpoint weaker than the interval policy's mode leaves its requests
/// as they were.
pub proof fn lemma_interval_ignores_weaker_checkpoint<C: Clock>(
    policy: SyncEveryInterval<C>,
    mode: SyncMode,
    synced: u128,
    later: u128,
)
    requires
        !spec_covers(mode, policy.mode()),
    ensures
        policy.spec_synced_at(mode, synced).spec_request_at(later) == policy.spec_request_at(later),
{
}

/// Composition that checkpoints when either inner policy requests it.
///
/// When both fire on the same frame, `All` wins over `Data`. A completed
/// checkpoint is reported to both policies; each resets only when that
/// checkpoint is at least as strong as the mode it requested.
#[derive(Debug, Clone, Copy)]
pub struct AnySync<A, B> {
    first: A,
    second: B,
}

impl<A, B> AnySync<A, B> {
    /// The first policy.
    pub closed spec fn first(&self) -> A {
        self.first
    }

    /// The second policy.
    pub closed spec fn second(&self) -> B {
        self.second
    }

    /// The OR-composition of two policies.
    pub fn new(first: A, second: B) -> (r: Self)
        ensures
            r.first() == first,
            r.second() == second,
    {
        AnySync { first, second }
    }
}

impl<A: SyncPolicy, B: SyncPolicy> SyncPolicy for AnySync<A, B> {
    open spec fn obeys_sync_policy_spec(&self) -> bool {
        self.first().obeys_sync_policy_spec() && self.second().obeys_sync_policy_spec()
    }

    /// Each part observes the frame; the request is their combination.
    open spec fn spec_observed(&self, next: &Self, info: SyncInfo, request: Option<SyncMode>) -> bool {
        exists|a: Option<SyncMode>, b: Option<SyncMode>|
            #![trigger spec_combine(a, b)]
            self.first().spec_observed(&next.first(), info, a) && self.second().spec_observed(
                &next.second(),
                info,
                b,
            ) && request == spec_combine(a, b)
    }

    /// Both parts are told.
    open spec fn spec_synced(&self, next: &Self, mode: SyncMode, durable_watermark: u64) -> bool {
        &&& self.first().spec_synced(&next.first(), mode, durable_watermark)
        &&& self.second().spec_synced(&next.second(), mode, durable_watermark)
    }

    /// Both policies observe the frame; their requests are combined by
    /// [`combine_requests`].
    fn observe(&mut self, info: SyncInfo) -> (r: Option<SyncMode>)
        ensures
            exists|a: Option<SyncMode>, b: Option<SyncMode>|
                #![trigger spec_combine(a, b)]
                r == spec_combine(a, b) && (old(self).first().obeys_sync_policy_spec() ==> old(
                    self,
                ).first().spec_observed(&final(self).first(), info, a)) && (
                old(self).second().obeys_sync_policy_spec() ==> old(self).second().spec_observed(
                    &final(self).second(),
                    info,
                    b,
                )),
    {
        let a = self.first.observe(info);
        let b = self.second.observe(info);
        combine_requests(a, b)
    }

    /// Reports the checkpoint to both policies.
    fn on_synced(&mut self, mode: SyncMode, durable_watermark: u64)
        ensures
            old(self).first().obeys_sync_policy_spec() ==> old(self).first().spec_synced(
                &final(self).first(),
                mode,
                durable_watermark,
            ),
            old(self).second().obeys_sync_policy_spec() ==> old(self).second().spec_synced(
                &final(self).second(),
                mode,
                durable_watermark,
            ),
    {
        self.first.on_synced(mode, durable_watermark);
        self.second.on_synced(mode, durable_watermark);
    }
}

/// Fluent composition for sync policies.
pub trait SyncPolicyExt: SyncPolicy + Sized {
    /// A policy requesting a checkpoint whenever either policy requests one.
    fn or<P: SyncPolicy>(self, other: P) -> (r: AnySync<Self, P>)
        ensures
            r.first() == self,
            r.second() == other,
    {
        AnySync::new(self, other)
    }
}

impl<P: SyncPolicy> SyncPolicyExt for P {
}

/// The error a failed checkpoint reports: its mode, the watermark it tried
/// to reach, the watermark that still holds, and the frame that triggered it.
pub open spec fn spec_durability_error(
    e: Error,
    mode: SyncMode,
    attempted: u64,
    previous: Option<u64>,
    frame: Option<FrameReceipt>,
) -> bool {
    e.spec_kind() matches crate::error::ErrorKind::DurabilityFailed {
        mode: m,
        attempted_watermark: a,
        previous_watermark: p,
        frame_start: fs,
        wire_len: wl,
        ..
    } && m == mode && a == attempted && p == previous && fs == (match frame {
        Some(f) => Some(f.frame_start),
        None => None::<u64>,
    }) && wl == (match frame {
        Some(f) => Some(f.wire_len),
        None => None::<u64>,
    })
}

/// Installed policy state: the policy and the last durable watermark.
#[derive(Clone)]
pub struct Syncing<P> {
    pub policy: P,
    pub durable_watermark: Option<u64>,
    /// How many accepted frames the backend has run for (specification only).
    pub frames_seen: Ghost<nat>,
}

impl<P> Syncing<P> {
    /// Installs `policy`; nothing is durable yet.
    pub fn new(policy: P) -> (r: Self)
        ensures
            r.policy == policy,
            r.durable_watermark is None,
            r.frames_seen@ == 0,
    {
        Syncing { policy, durable_watermark: None, frames_seen: Ghost(0) }
    }
}

/// A sink's record of synchronizations went from `before` to `after` by the
/// checkpoint of strength `mode` (`None`: no checkpoint, the record stays).
pub open spec fn spec_syncs_step(
    before: Option<Seq<SyncMode>>,
    after: Option<Seq<SyncMode>>,
    mode: Option<SyncMode>,
) -> bool {
    before matches Some(s) ==> after == Some(
        match mode {
            Some(m) => s.push(m),
            None => s,
        },
    )
}

/// What a policy is shown after the frame of `receipt`.
pub open spec fn spec_sync_info(receipt: FrameReceipt) -> SyncInfo {
    SyncInfo { frame_start: receipt.frame_start, wire_len: receipt.wire_len, frame_end: receipt.spec_end() }
}

/// The bridge between a writer's sync state and its sink, run after every
/// accepted frame. It never writes: the sink's accepted bytes and position
/// stay as they are.
pub trait SyncPolicyBackend<W: ByteSink>: Send + Sized {
    /// The last successfully synchronized position, if any.
    spec fn spec_durable_watermark(&self) -> Option<u64>;

    /// Whether no checkpoint of this state can fail (a state that never syncs).
    spec fn spec_never_fails(&self) -> bool;

    /// `after_frame` for the frame of `receipt` may take this state to `next`
    /// having run a checkpoint of strength `mode` (`None`: no checkpoint).
    spec fn spec_ran(&self, next: &Self, receipt: FrameReceipt, mode: Option<SyncMode>) -> bool;

    /// Runs after a frame was accepted. The durable watermark either stays or
    /// moves to the frame's end; a failed checkpoint leaves it and reports
    /// the attempted watermark, the previous one and the frame.
    fn after_frame(&mut self, sink: &mut CountingWriter<W>, receipt: FrameReceipt) -> (r: Result<
        (),
        Error,
    >)
        requires
            old(sink).inv(),
        ensures
            final(sink).inv(),
            final(sink).extends(&*old(sink)),
            final(sink).accepted() == old(sink).accepted(),
            final(sink).position() == old(sink).position(),
            final(sink).records(&*old(sink)),
            r is Ok ==> final(self).spec_durable_watermark() == old(self).spec_durable_watermark()
                || final(self).spec_durable_watermark() == Some(receipt.spec_end()),
            r matches Err(e) ==> final(self).spec_durable_watermark() == old(self).spec_durable_watermark()
                && (exists|mode: SyncMode|
                #[trigger] spec_durability_error(
                    e,
                    mode,
                    receipt.spec_end(),
                    old(self).spec_durable_watermark(),
                    Some(receipt),
                )),
            old(self).spec_never_fails() ==> r is Ok,
            r is Err ==> *final(self) != *old(self),
            exists|mode: Option<SyncMode>|
                #[trigger] old(self).spec_ran(&*final(self), receipt, mode) && (mode is None ==> r is Ok)
                    && spec_syncs_step(old(sink).sink().spec_syncs(), final(sink).sink().spec_syncs(), mode) && (r matches Err(e) ==> (mode matches Some(m) && spec_durability_error(
                    e,
                    m,
                    receipt.spec_end(),
                    old(self).spec_durable_watermark(),
                    Some(receipt),
                ))),
    ;
}

impl<W: ByteSink> SyncPolicyBackend<W> for NoSync {
    /// Nothing is ever synchronized.
    open spec fn spec_durable_watermark(&self) -> Option<u64> {
        None
    }

    /// Without a checkpoint, nothing can fail.
    open spec fn spec_never_fails(&self) -> bool {
        true
    }

    /// No checkpoint runs.
    open spec fn spec_ran(&self, next: &Self, receipt: FrameReceipt, mode: Option<SyncMode>) -> bool {
        mode is None && *next == *self
    }

    fn after_frame(&mut self, sink: &mut CountingWriter<W>, _receipt: FrameReceipt) -> (r: Result<
        (),
        Error,
    >)
        ensures
            r is Ok,
    {
        proof {
            sink.lemma_extends_refl();
            sink.lemma_records_refl();
        }
        assert(<NoSync as SyncPolicyBackend<W>>::spec_ran(&*old(self), &*self, _receipt, None));
        Ok(())
    }
}

impl<P: SyncPolicy> Syncing<P> {
    /// Runs a checkpoint of strength `mode` on the sink. On success the
    /// durable watermark becomes `attempted_watermark` and the policy is told;
    /// on failure nothing changes and the error carries the attempted and
    /// previous watermarks and the triggering frame.
    pub fn checkpoint<W: Durable>(
        &mut self,
        sink: &mut CountingWriter<W>,
        mode: SyncMode,
        attempted_watermark: u64,
        frame: Option<FrameReceipt>,
    ) -> (r: Result<u64, Error>)
        requires
            old(sink).inv(),
        ensures
            final(sink).inv(),
            final(sink).extends(&*old(sink)),
            final(sink).accepted() == old(sink).accepted(),
            final(sink).position() == old(sink).position(),
            final(sink).records(&*old(sink)),
            old(sink).sink().spec_syncs() matches Some(s) ==> final(sink).sink().spec_syncs() == Some(
                s.push(mode),
            ),
            final(self).frames_seen == old(self).frames_seen,
            r matches Ok(w) ==> w == attempted_watermark && final(self).durable_watermark == Some(
                attempted_watermark,
            ),
            r is Ok && old(self).policy.obeys_sync_policy_spec() ==> final(self).policy.obeys_sync_policy_spec()
                && old(self).policy.spec_synced(&final(self).policy, mode, attempted_watermark),
            r matches Err(e) ==> *final(self) == *old(self) && spec_durability_error(
                e,
                mode,
                attempted_watermark,
                old(self).durable_watermark,
                frame,
            ),
    {
        let result = match mode {
            SyncMode::Data => sink.sync_data(),
            SyncMode::All => sink.sync_all(),
        };
        match result {
            Ok(()) => {
                self.durable_watermark = Some(attempted_watermark);
                self.policy.on_synced(mode, attempted_watermark);
                Ok(attempted_watermark)
            },
            Err(source) => {
                let frame_start = match frame {
                    Some(f) => Some(f.frame_start),
                    None => None,
                };
                let wire_len = match frame {
                    Some(f) => Some(f.wire_len),
                    None => None,
                };
                Err(
                    Error::durability_failed(
                        mode,
                        attempted_watermark,
                        self.durable_watermark,
                        frame_start,
                        wire_len,
                        source,
                    ),
                )
            },
        }
    }
}

impl<W: Durable, P: SyncPolicy> SyncPolicyBackend<W> for Syncing<P> {
    open spec fn spec_durable_watermark(&self) -> Option<u64> {
        self.durable_watermark
    }

    /// A checkpoint depends on the sink, which may fail.
    open spec fn spec_never_fails(&self) -> bool {
        false
    }

    /// The frame was counted; and, for a policy that obeys its specification,
    /// it was shown to the
    /// policy, and the checkpoint that ran is the one it requested. A
    /// checkpoint that succeeded moved the watermark to the frame's end and
    /// was reported to the policy; otherwise both stay as `observe` left them.
    open spec fn spec_ran(&self, next: &Self, receipt: FrameReceipt, mode: Option<SyncMode>) -> bool {
        &&& next.frames_seen@ == self.frames_seen@ + 1
        &&& self.policy.obeys_sync_policy_spec() ==> exists|mid: P|
            #[trigger] self.policy.spec_observed(&mid, spec_sync_info(receipt), mode) && (
            (next.policy == mid && next.durable_watermark == self.durable_watermark) || (
            mode matches Some(m) && next.durable_watermark == Some(receipt.spec_end())
                && mid.spec_synced(&next.policy, m, receipt.spec_end())))
    }

    /// Shows the frame to the policy and runs the checkpoint it requests, up
    /// to the frame's end.
    fn after_frame(&mut self, sink: &mut CountingWriter<W>, receipt: FrameReceipt) -> (r: Result<
        (),
        Error,
    >) {
        let end = receipt.end();
        let info = SyncInfo { frame_start: receipt.frame_start, wire_len: receipt.wire_len, frame_end: end };
        assert(info == spec_sync_info(receipt));
        proof {
            self.frames_seen@ = self.frames_seen@ + 1;
        }
        let r = self.policy.observe(info);
        let ghost mid = self.policy;
        assert(old(self).policy.obeys_sync_policy_spec() ==> old(self).policy.spec_observed(&mid, info, r));
        match r {
            Some(mode) => {
                match self.checkpoint(sink, mode, end, Some(receipt)) {
                    Ok(_) => {
                        assert(<Syncing<P> as SyncPolicyBackend<W>>::spec_ran(
                            &*old(self),
                            &*self,
                            receipt,
                            Some(mode),
                        ));
                        Ok(())
                    },
                    Err(e) => {
                        assert(spec_durability_error(
                            e,
                            mode,
                            receipt.spec_end(),
                            <Syncing<P> as SyncPolicyBackend<W>>::spec_durable_watermark(&*old(self)),
                            Some(receipt),
                        ));
                        assert(<Syncing<P> as SyncPolicyBackend<W>>::spec_ran(
                            &*old(self),
                            &*self,
                            receipt,
                            Some(mode),
                        ));
                        Err(e)
                    },
                }
            },
            None => {
                proof {
                    sink.lemma_extends_refl();
                    sink.lemma_records_refl();
                }
                assert(<Syncing<P> as SyncPolicyBackend<W>>::spec_ran(&*old(self), &*self, receipt, None));
                Ok(())
            },
        }
    }
}

} // verus!
