//! Memory reclamation policies for the writer's builder and the reader's buffer.
//!
//! A buffer grows to the largest message seen and keeps that capacity. A
//! policy decides, once per message, whether the owned buffer is
//! over-provisioned and should be shrunk back to a baseline capacity.
use vstd::prelude::*;

use std::time::{Duration, Instant};

verus! {

/// Default baseline capacity restored when a policy fires: 16 KiB.
pub const DEFAULT_BASELINE_CAPACITY: usize = 16384;

/// Why a reclamation happened.
#[derive(Debug, Clone, Copy, PartialEq, Eq, Structural)]
pub enum ReclamationReason {
    /// A message-count heuristic fired.
    MessageCount,
    /// A time-based cooldown fired.
    TimeCooldown,
    /// A size threshold fired.
    SizeThreshold,
}

/// Information about a reclamation event.
#[derive(Debug, Clone, Copy)]
pub struct ReclamationInfo {
    pub reason: ReclamationReason,
    pub last_message_size: usize,
    pub capacity_before: usize,
    pub capacity_after: usize,
}

/// A stateful policy deciding when an owned buffer should be reset.
pub trait MemoryPolicy: Send {
    /// Whether `should_reset` is specified by
    /// [`spec_decides`](MemoryPolicy::spec_decides). The policies of this
    /// library are; one written outside verified code is not (`false`), and
    /// nothing over `spec_decides` is claimed for it.
    open spec fn obeys_memory_policy_spec(&self) -> bool {
        false
    }

    /// `should_reset(last_message_size, current_capacity)` may take this
    /// policy to `next` and answer `decision`, for a policy that obeys the
    /// specification.
    open spec fn spec_decides(
        &self,
        next: &Self,
        last_message_size: usize,
        current_capacity: usize,
        decision: Option<ReclamationReason>,
    ) -> bool {
        arbitrary()
    }

    /// Called after each successful message with its size and the current
    /// capacity of the owned buffer; `Some(reason)` requests a reset.
    fn should_reset(&mut self, last_message_size: usize, current_capacity: usize) -> (r: Option<
        ReclamationReason,
    >)
        ensures
            old(self).obeys_memory_policy_spec() ==> final(self).obeys_memory_policy_spec() && old(
                self,
            ).spec_decides(&*final(self), last_message_size, current_capacity, r),
    ;

    /// `on_reclaim(info)` may take this policy to `next`, for a policy that
    /// obeys the specification.
    open spec fn spec_reclaimed(&self, next: &Self, info: ReclamationInfo) -> bool {
        arbitrary()
    }

    /// Called after a reset occurs. (Every policy implements it, a policy
    /// with nothing to update with an empty body: a provided body could not
    /// meet the relation each policy states.)
    fn on_reclaim(&mut self, info: &ReclamationInfo)
        ensures
            old(self).obeys_memory_policy_spec() ==> final(self).obeys_memory_policy_spec() && old(
                self,
            ).spec_reclaimed(&*final(self), *info),
    ;

    /// The capacity the buffer is reclaimed to when this policy fires.
    fn baseline_capacity(&self) -> (r: usize)
        default_ensures
            r == DEFAULT_BASELINE_CAPACITY,
    {
        DEFAULT_BASELINE_CAPACITY
    }
}

/// The zero-sized default memory state: no policy is installed and nothing
/// is ever reclaimed.
#[derive(Debug, Clone, Copy, Default)]
pub struct NoMemoryPolicy;

/// A policy that never requests a reset.
#[derive(Debug, Clone, Copy, Default)]
pub struct NoOpPolicy;

impl MemoryPolicy for NoOpPolicy {
    open spec fn obeys_memory_policy_spec(&self) -> bool {
        true
    }

    open spec fn spec_decides(
        &self,
        next: &Self,
        last_message_size: usize,
        current_capacity: usize,
        decision: Option<ReclamationReason>,
    ) -> bool {
        decision is None
    }

    fn should_reset(&mut self, _last_message_size: usize, _current_capacity: usize) -> (r: Option<
        ReclamationReason,
    >)
        ensures
            r is None,
    {
        None
    }

    /// Nothing to update.
    open spec fn spec_reclaimed(&self, next: &Self, info: ReclamationInfo) -> bool {
        true
    }

    fn on_reclaim(&mut self, _info: &ReclamationInfo) {
    }
}

/// A monotonic time source: time elapsed since the clock's own origin.
pub trait Clock: Send {
    /// Time elapsed since the clock's origin.
    fn now(&self) -> Duration;
}

#[verifier::external_type_specification]
#[verifier::external_body]
pub struct ExInstant(Instant);

/// Calls `Instant::now`; the result depends on the time of the call.
#[verifier::external_body]
pub(crate) fn instant_now() -> Instant {
    Instant::now()
}

/// Calls `Instant::elapsed`; the result depends on the time of the call.
#[verifier::external_body]
pub(crate) fn instant_elapsed(origin: &Instant) -> Duration {
    origin.elapsed()
}

/// `Duration` is `Copy`; its derived `clone` returns an identical value.
pub assume_specification[ <Duration as Clone>::clone ](d: &Duration) -> (r: Duration)
    ensures
        r == *d,
;

/// Calls `Duration::as_nanos`: the whole duration in nanoseconds.
#[verifier::external_body]
pub(crate) fn duration_as_nanos(d: &Duration) -> u128 {
    d.as_nanos()
}

/// Monotonic time from a stored `Instant` origin.
#[derive(Debug, Clone, Copy)]
pub struct MonotonicClock {
    origin: Instant,
}

impl MonotonicClock {
    /// A clock whose origin is now.
    pub fn new() -> Self {
        MonotonicClock { origin: instant_now() }
    }
}

impl Default for MonotonicClock {
    fn default() -> Self {
        Self::new()
    }
}

impl Clock for MonotonicClock {
    fn now(&self) -> Duration {
        instant_elapsed(&self.origin)
    }
}

/// One observation of the adaptive policy: the new counter, the new start of
/// the over-provisioned window, and the decision. `now` is the clock reading
/// and `cooldown` the configured cooldown, both in nanoseconds, present only
/// when a cooldown is configured.
pub open spec fn spec_adaptive_step(
    size_ratio_threshold: usize,
    messages_to_wait: u32,
    messages_since_over: u32,
    last_over_seen_at: Option<u128>,
    last_message_size: usize,
    current_capacity: usize,
    now: Option<u128>,
    cooldown: Option<u128>,
) -> (u32, Option<u128>, Option<ReclamationReason>) {
    if last_message_size == 0 {
        (0, None, None)
    } else {
        let product = last_message_size * size_ratio_threshold;
        let threshold = if product > usize::MAX { usize::MAX as int } else { product };
        let over = current_capacity >= threshold;
        let count: u32 = if over {
            if messages_since_over == u32::MAX { u32::MAX } else { (messages_since_over + 1) as u32 }
        } else {
            0
        };
        let seen: Option<u128> = if over {
            if last_over_seen_at is None { now } else { last_over_seen_at }
        } else {
            None
        };
        let count_ok = over && count >= messages_to_wait;
        let time_ok = match (cooldown, seen, now) {
            (Some(cd), Some(t0), Some(t1)) => (if t1 >= t0 { t1 - t0 } else { 0 }) >= cd,
            _ => false,
        };
        if count_ok || time_ok {
            (
                0,
                None,
                Some(
                    if time_ok {
                        ReclamationReason::TimeCooldown
                    } else {
                        ReclamationReason::MessageCount
                    },
                ),
            )
        } else {
            (count, seen, None)
        }
    }
}

/// An adaptive, capacity-aware policy with hysteresis: the buffer counts as
/// over-provisioned while `capacity >= message_size * size_ratio_threshold`,
/// and the policy fires once that signal persisted for `messages_to_wait`
/// consecutive messages, or (with a cooldown) for the cooldown's duration.
#[derive(Debug, Clone)]
pub struct AdaptiveWatermarkPolicy<C: Clock = MonotonicClock> {
    /// Over-provisioned while `capacity >= message_size * size_ratio_threshold`.
    pub size_ratio_threshold: usize,
    /// How many consecutive over-provisioned messages trigger a reset.
    pub messages_to_wait: u32,
    /// Optional cooldown: a reset once the signal persisted this long.
    pub cooldown: Option<Duration>,
    /// The capacity the buffer is reclaimed to.
    pub baseline_capacity: usize,
    /// Consecutive over-provisioned messages observed.
    pub messages_since_over: u32,
    /// Clock reading (nanoseconds) when the current over-provisioned window began.
    pub last_over_seen_at: Option<u128>,
    /// The time source.
    pub clock: C,
}

impl AdaptiveWatermarkPolicy<MonotonicClock> {
    /// Default over-provisioning ratio.
    pub const DEFAULT_SIZE_RATIO_THRESHOLD: usize = 4;

    /// Default hysteresis length.
    pub const DEFAULT_MESSAGES_TO_WAIT: u32 = 5;

    /// A policy firing once `messages_to_wait` consecutive messages observed
    /// `capacity >= message_size * size_ratio_threshold`.
    pub fn new(size_ratio_threshold: usize, messages_to_wait: u32) -> (r: Self)
        ensures
            r.size_ratio_threshold == size_ratio_threshold,
            r.messages_to_wait == messages_to_wait,
            r.cooldown is None,
            r.baseline_capacity == DEFAULT_BASELINE_CAPACITY,
            r.messages_since_over == 0,
            r.last_over_seen_at is None,
    {
        Self::with_clock(size_ratio_threshold, messages_to_wait, MonotonicClock::new())
    }
}

impl<C: Clock> AdaptiveWatermarkPolicy<C> {
    /// Like [`new`](AdaptiveWatermarkPolicy::new), with an injected clock.
    pub fn with_clock(size_ratio_threshold: usize, messages_to_wait: u32, clock: C) -> (r: Self)
        ensures
            r.size_ratio_threshold == size_ratio_threshold,
            r.messages_to_wait == messages_to_wait,
            r.cooldown is None,
            r.baseline_capacity == DEFAULT_BASELINE_CAPACITY,
            r.messages_since_over == 0,
            r.last_over_seen_at is None,
            r.clock == clock,
    {
        AdaptiveWatermarkPolicy {
            size_ratio_threshold,
            messages_to_wait,
            cooldown: None,
            baseline_capacity: DEFAULT_BASELINE_CAPACITY,
            messages_since_over: 0,
            last_over_seen_at: None,
            clock,
        }
    }

    /// Adds a time-based trigger.
    pub fn with_cooldown(self, cooldown: Duration) -> (r: Self)
        ensures
            r == (AdaptiveWatermarkPolicy { cooldown: Some(cooldown), ..self }),
    {
        AdaptiveWatermarkPolicy { cooldown: Some(cooldown), ..self }
    }

    /// Sets the capacity the buffer is reclaimed to.
    pub fn with_baseline(self, bytes: usize) -> (r: Self)
        ensures
            r == (AdaptiveWatermarkPolicy { baseline_capacity: bytes, ..self }),
    {
        AdaptiveWatermarkPolicy { baseline_capacity: bytes, ..self }
    }

    /// One observation given the clock reading `now` and the cooldown, both in
    /// nanoseconds and present exactly when a cooldown is configured.
    pub fn observe(
        &mut self,
        last_message_size: usize,
        current_capacity: usize,
        now: Option<u128>,
        cooldown: Option<u128>,
    ) -> (r: Option<ReclamationReason>)
        ensures
            (final(self).messages_since_over, final(self).last_over_seen_at, r) == spec_adaptive_step(
                old(self).size_ratio_threshold,
                old(self).messages_to_wait,
                old(self).messages_since_over,
                old(self).last_over_seen_at,
                last_message_size,
                current_capacity,
                now,
                cooldown,
            ),
            *final(self) == (AdaptiveWatermarkPolicy {
                messages_since_over: final(self).messages_since_over,
                last_over_seen_at: final(self).last_over_seen_at,
                ..*old(self)
            }),
    {
        if last_message_size == 0 {
            self.messages_since_over = 0;
            self.last_over_seen_at = None;
            return None;
        }
        let threshold = match last_message_size.checked_mul(self.size_ratio_threshold) {
            Some(product) => product,
            None => usize::MAX,
        };
        let overprovisioned = current_capacity >= threshold;
        if overprovisioned {
            self.messages_since_over = self.messages_since_over.saturating_add(1);
            if self.last_over_seen_at.is_none() {
                self.last_over_seen_at = now;
            }
        } else {
            self.messages_since_over = 0;
            self.last_over_seen_at = None;
        }
        let count_ok = overprovisioned && self.messages_since_over >= self.messages_to_wait;
        let time_ok = match (cooldown, self.last_over_seen_at, now) {
            (Some(cd), Some(t0), Some(t1)) => t1.saturating_sub(t0) >= cd,
            _ => false,
        };
        if count_ok || time_ok {
            self.messages_since_over = 0;
            self.last_over_seen_at = None;
            return Some(
                if time_ok {
                    ReclamationReason::TimeCooldown
                } else {
                    ReclamationReason::MessageCount
                },
            );
        }
        None
    }
}

impl Default for AdaptiveWatermarkPolicy<MonotonicClock> {
    fn default() -> (r: Self)
        ensures
            r.size_ratio_threshold == 4,
            r.messages_to_wait == 5,
            r.cooldown is None,
            r.baseline_capacity == DEFAULT_BASELINE_CAPACITY,
            r.messages_since_over == 0,
            r.last_over_seen_at is None,
    {
        Self::new(Self::DEFAULT_SIZE_RATIO_THRESHOLD, Self::DEFAULT_MESSAGES_TO_WAIT)
    }
}

impl<C: Clock> MemoryPolicy for AdaptiveWatermarkPolicy<C> {
    open spec fn obeys_memory_policy_spec(&self) -> bool {
        true
    }

    /// One observation, at whatever the clock read when a cooldown is set,
    /// against the cooldown's length in nanoseconds.
    open spec fn spec_decides(
        &self,
        next: &Self,
        last_message_size: usize,
        current_capacity: usize,
        decision: Option<ReclamationReason>,
    ) -> bool {
        &&& *next == (AdaptiveWatermarkPolicy {
            messages_since_over: next.messages_since_over,
            last_over_seen_at: next.last_over_seen_at,
            ..*self
        })
        &&& exists|now: Option<u128>, cooldown: Option<u128>|
            (cooldown is Some <==> self.cooldown is Some) && (next.messages_since_over, next.last_over_seen_at, decision)
                == #[trigger] spec_adaptive_step(
                self.size_ratio_threshold,
                self.messages_to_wait,
                self.messages_since_over,
                self.last_over_seen_at,
                last_message_size,
                current_capacity,
                now,
                cooldown,
            )
    }

    /// Reads the clock only when a cooldown is configured, then observes.
    fn should_reset(&mut self, last_message_size: usize, current_capacity: usize) -> (r: Option<
        ReclamationReason,
    >)
        ensures
            old(self).cooldown is None || last_message_size == 0 ==> (
            final(self).messages_since_over,
            final(self).last_over_seen_at,
            r,
            ) == spec_adaptive_step(
                old(self).size_ratio_threshold,
                old(self).messages_to_wait,
                old(self).messages_since_over,
                old(self).last_over_seen_at,
                last_message_size,
                current_capacity,
                None,
                None,
            ),
            old(self).cooldown is Some && last_message_size > 0 ==> exists|now: u128, cooldown: u128|
                (final(self).messages_since_over, final(self).last_over_seen_at, r)
                    == #[trigger] spec_adaptive_step(
                    old(self).size_ratio_threshold,
                    old(self).messages_to_wait,
                    old(self).messages_since_over,
                    old(self).last_over_seen_at,
                    last_message_size,
                    current_capacity,
                    Some(now),
                    Some(cooldown),
                ),
            *final(self) == (AdaptiveWatermarkPolicy {
                messages_since_over: final(self).messages_since_over,
                last_over_seen_at: final(self).last_over_seen_at,
                ..*old(self)
            }),
    {
        let (now, cooldown) = match &self.cooldown {
            Some(cd) => if last_message_size > 0 {
                let t = self.clock.now();
                (Some(duration_as_nanos(&t)), Some(duration_as_nanos(cd)))
            } else {
                (None, None)
            },
            None => (None, None),
        };
        let r = self.observe(last_message_size, current_capacity, now, cooldown);
        proof {
            let cd = if old(self).cooldown is Some && last_message_size == 0 {
                Some(0u128)
            } else {
                cooldown
            };
            assert(spec_adaptive_step(
                old(self).size_ratio_threshold,
                old(self).messages_to_wait,
                old(self).messages_since_over,
                old(self).last_over_seen_at,
                last_message_size,
                current_capacity,
                now,
                cd,
            ) == spec_adaptive_step(
                old(self).size_ratio_threshold,
                old(self).messages_to_wait,
                old(self).messages_since_over,
                old(self).last_over_seen_at,
                last_message_size,
                current_capacity,
                now,
                cooldown,
            ));
        }
        r
    }

    /// The policy keeps its state: its own counters were cleared when it fired.
    open spec fn spec_reclaimed(&self, next: &Self, info: ReclamationInfo) -> bool {
        *next == *self
    }

    fn on_reclaim(&mut self, _info: &ReclamationInfo)
        ensures
            *final(self) == *old(self),
    {
    }

    fn baseline_capacity(&self) -> (r: usize)
        ensures
            r == self.baseline_capacity,
    {
        self.baseline_capacity
    }
}

/// One observation of the threshold policy: the new armed flag, the new run of
/// small messages, and the decision.
pub open spec fn spec_threshold_step(
    grow_above_bytes: usize,
    shrink_below_bytes: usize,
    messages_to_wait: u32,
    large_event_seen: bool,
    small_since_large: u32,
    last_message_size: usize,
) -> (bool, u32, Option<ReclamationReason>) {
    if last_message_size > grow_above_bytes {
        (true, 0, None)
    } else if !large_event_seen {
        (large_event_seen, small_since_large, None)
    } else if last_message_size < shrink_below_bytes {
        let run: u32 = if small_since_large == u32::MAX {
            u32::MAX
        } else {
            (small_since_large + 1) as u32
        };
        if run >= messages_to_wait {
            (false, 0, Some(ReclamationReason::SizeThreshold))
        } else {
            (true, run, None)
        }
    } else {
        (true, 0, None)
    }
}

/// Resets after a sustained run of small messages following a large one.
#[derive(Debug, Clone, Copy)]
pub struct SizeThresholdPolicy {
    /// A message strictly larger than this arms the policy.
    pub grow_above_bytes: usize,
    /// A message strictly smaller than this counts toward the run.
    pub shrink_below_bytes: usize,
    /// How many consecutive small messages fire the policy.
    pub messages_to_wait: u32,
    /// The capacity the buffer is reclaimed to.
    pub baseline_capacity: usize,
    /// Whether a large message armed the policy.
    pub large_event_seen: bool,
    /// Consecutive small messages since the policy was armed.
    pub small_since_large: u32,
}

impl SizeThresholdPolicy {
    /// Default "large event" threshold: 1 MiB.
    pub const DEFAULT_GROW_ABOVE_BYTES: usize = 1048576;

    /// Default "small message" threshold: 1 KiB.
    pub const DEFAULT_SHRINK_BELOW_BYTES: usize = 1024;

    /// Default consecutive-small count.
    pub const DEFAULT_MESSAGES_TO_WAIT: u32 = 8;

    pub fn new(grow_above_bytes: usize, shrink_below_bytes: usize, messages_to_wait: u32) -> (r: Self)
        ensures
            r.grow_above_bytes == grow_above_bytes,
            r.shrink_below_bytes == shrink_below_bytes,
            r.messages_to_wait == messages_to_wait,
            r.baseline_capacity == DEFAULT_BASELINE_CAPACITY,
            !r.large_event_seen,
            r.small_since_large == 0,
    {
        SizeThresholdPolicy {
            grow_above_bytes,
            shrink_below_bytes,
            messages_to_wait,
            baseline_capacity: DEFAULT_BASELINE_CAPACITY,
            large_event_seen: false,
            small_since_large: 0,
        }
    }

    /// Sets the capacity the buffer is reclaimed to.
    pub fn with_baseline(self, bytes: usize) -> (r: Self)
        ensures
            r == (SizeThresholdPolicy { baseline_capacity: bytes, ..self }),
    {
        SizeThresholdPolicy { baseline_capacity: bytes, ..self }
    }
}

impl Default for SizeThresholdPolicy {
    fn default() -> (r: Self)
        ensures
            r.grow_above_bytes == 1048576,
            r.shrink_below_bytes == 1024,
            r.messages_to_wait == 8,
            r.baseline_capacity == DEFAULT_BASELINE_CAPACITY,
            !r.large_event_seen,
            r.small_since_large == 0,
    {
        Self::new(
            Self::DEFAULT_GROW_ABOVE_BYTES,
            Self::DEFAULT_SHRINK_BELOW_BYTES,
            Self::DEFAULT_MESSAGES_TO_WAIT,
        )
    }
}

impl MemoryPolicy for SizeThresholdPolicy {
    open spec fn obeys_memory_policy_spec(&self) -> bool {
        true
    }

    open spec fn spec_decides(
        &self,
        next: &Self,
        last_message_size: usize,
        current_capacity: usize,
        decision: Option<ReclamationReason>,
    ) -> bool {
        &&& (next.large_event_seen, next.small_since_large, decision) == spec_threshold_step(
            self.grow_above_bytes,
            self.shrink_below_bytes,
            self.messages_to_wait,
            self.large_event_seen,
            self.small_since_large,
            last_message_size,
        )
        &&& next.grow_above_bytes == self.grow_above_bytes
        &&& next.shrink_below_bytes == self.shrink_below_bytes
        &&& next.messages_to_wait == self.messages_to_wait
        &&& next.baseline_capacity == self.baseline_capacity
    }

    fn should_reset(&mut self, last_message_size: usize, _current_capacity: usize) -> (r: Option<
        ReclamationReason,
    >)
        ensures
            (final(self).large_event_seen, final(self).small_since_large, r) == spec_threshold_step(
                old(self).grow_above_bytes,
                old(self).shrink_below_bytes,
                old(self).messages_to_wait,
                old(self).large_event_seen,
                old(self).small_since_large,
                last_message_size,
            ),
            final(self).grow_above_bytes == old(self).grow_above_bytes,
            final(self).shrink_below_bytes == old(self).shrink_below_bytes,
            final(self).messages_to_wait == old(self).messages_to_wait,
            final(self).baseline_capacity == old(self).baseline_capacity,
    {
        if last_message_size > self.grow_above_bytes {
            self.large_event_seen = true;
            self.small_since_large = 0;
            return None;
        }
        if !self.large_event_seen {
            return None;
        }
        if last_message_size < self.shrink_below_bytes {
            self.small_since_large = self.small_since_large.saturating_add(1);
            if self.small_since_large >= self.messages_to_wait {
                self.large_event_seen = false;
                self.small_since_large = 0;
                return Some(ReclamationReason::SizeThreshold);
            }
        } else {
            self.small_since_large = 0;
        }
        None
    }

    /// The policy keeps its state: it disarmed itself when it fired.
    open spec fn spec_reclaimed(&self, next: &Self, info: ReclamationInfo) -> bool {
        *next == *self
    }

    fn on_reclaim(&mut self, _info: &ReclamationInfo)
        ensures
            *final(self) == *old(self),
    {
    }

    fn baseline_capacity(&self) -> (r: usize)
        ensures
            r == self.baseline_capacity,
    {
        self.baseline_capacity
    }
}

/// Whichever trigger fired, a reset of the adaptive policy clears its counter
/// and closes its over-provisioned window.
pub proof fn lemma_adaptive_fire_clears_window(
    size_ratio_threshold: usize,
    messages_to_wait: u32,
    messages_since_over: u32,
    last_over_seen_at: Option<u128>,
    last_message_size: usize,
    current_capacity: usize,
    now: Option<u128>,
    cooldown: Option<u128>,
)
    ensures
        ({
            let (count, seen, decision) = spec_adaptive_step(
                size_ratio_threshold,
                messages_to_wait,
                messages_since_over,
                last_over_seen_at,
                last_message_size,
                current_capacity,
                now,
                cooldown,
            );
            decision is Some ==> count == 0 && seen is None
        }),
{
}

/// The observation right after a reset cannot fire on the cooldown (unless the
/// cooldown is zero): the over-provisioned window starts afresh at that
/// observation, whatever the clock reads.
pub proof fn lemma_adaptive_window_restarts_after_fire(
    size_ratio_threshold: usize,
    messages_to_wait: u32,
    messages_since_over: u32,
    last_over_seen_at: Option<u128>,
    last_message_size: usize,
    current_capacity: usize,
    now: Option<u128>,
    next_message_size: usize,
    next_capacity: usize,
    next_now: Option<u128>,
    cooldown: Option<u128>,
)
    requires
        spec_adaptive_step(
            size_ratio_threshold,
            messages_to_wait,
            messages_since_over,
            last_over_seen_at,
            last_message_size,
            current_capacity,
            now,
            cooldown,
        ).2 is Some,
    ensures
        ({
            let (count, seen, _) = spec_adaptive_step(
                size_ratio_threshold,
                messages_to_wait,
                messages_since_over,
                last_over_seen_at,
                last_message_size,
                current_capacity,
                now,
                cooldown,
            );
            spec_adaptive_step(
                size_ratio_threshold,
                messages_to_wait,
                count,
                seen,
                next_message_size,
                next_capacity,
                next_now,
                cooldown,
            ).2 == Some(ReclamationReason::TimeCooldown) ==> cooldown == Some(0u128)
        }),
{
}

/// The threshold policy's state (armed, run of small messages) and decision
/// after observing `sizes` in order from the state (`armed`, `count`).
pub open spec fn spec_threshold_run(
    grow_above_bytes: usize,
    shrink_below_bytes: usize,
    messages_to_wait: u32,
    armed: bool,
    count: u32,
    sizes: Seq<usize>,
) -> (bool, u32, Option<ReclamationReason>)
    decreases sizes.len(),
{
    if sizes.len() == 0 {
        (armed, count, None)
    } else {
        let prev = spec_threshold_run(
            grow_above_bytes,
            shrink_below_bytes,
            messages_to_wait,
            armed,
            count,
            sizes.drop_last(),
        );
        spec_threshold_step(grow_above_bytes, shrink_below_bytes, messages_to_wait, prev.0, prev.1, sizes.last())
    }
}

/// After the large message at `j`, while no other large one arrives, an armed
/// threshold policy's run counts only small messages that follow `j` and end
/// at the latest one.
proof fn lemma_threshold_run_since_large(
    grow_above_bytes: usize,
    shrink_below_bytes: usize,
    messages_to_wait: u32,
    armed: bool,
    count: u32,
    sizes: Seq<usize>,
    j: int,
    m: int,
)
    requires
        0 <= j < m <= sizes.len(),
        sizes[j] > grow_above_bytes,
        forall|k: int| j < k < sizes.len() ==> sizes[k] <= grow_above_bytes,
    ensures
        ({
            let st = spec_threshold_run(
                grow_above_bytes,
                shrink_below_bytes,
                messages_to_wait,
                armed,
                count,
                sizes.take(m),
            );
            st.0 ==> st.1 <= m - 1 - j && forall|k: int| m - st.1 <= k < m ==> sizes[k] < shrink_below_bytes
        }),
    decreases m,
{
    assert(sizes.take(m).drop_last() =~= sizes.take(m - 1));
    assert(sizes.take(m).last() == sizes[m - 1]);
    if m > j + 1 {
        lemma_threshold_run_since_large(
            grow_above_bytes,
            shrink_below_bytes,
            messages_to_wait,
            armed,
            count,
            sizes,
            j,
            m - 1,
        );
    }
}

/// The threshold policy fires only after `messages_to_wait` consecutive small
/// messages that follow the latest large one: a large message re-arms it and
/// restarts the run, whatever state it was in before.
pub proof fn lemma_threshold_fires_only_after_full_run(
    grow_above_bytes: usize,
    shrink_below_bytes: usize,
    messages_to_wait: u32,
    armed: bool,
    count: u32,
    sizes: Seq<usize>,
    j: int,
)
    requires
        0 <= j < sizes.len(),
        sizes[j] > grow_above_bytes,
        forall|k: int| j < k < sizes.len() ==> sizes[k] <= grow_above_bytes,
        spec_threshold_run(grow_above_bytes, shrink_below_bytes, messages_to_wait, armed, count, sizes).2 is Some,
    ensures
        sizes.len() - 1 - j >= messages_to_wait,
        forall|k: int| sizes.len() - messages_to_wait <= k < sizes.len() ==> sizes[k] < shrink_below_bytes,
{
    let n = sizes.len() as int;
    assert(sizes.take(n) =~= sizes);
    assert(sizes.drop_last() =~= sizes.take(n - 1));
    if n - 1 > j {
        lemma_threshold_run_since_large(
            grow_above_bytes,
            shrink_below_bytes,
            messages_to_wait,
            armed,
            count,
            sizes,
            j,
            n - 1,
        );
    }
}

} // verus!
