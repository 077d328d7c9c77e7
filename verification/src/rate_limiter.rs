//! Token-bucket rate limiter.  Time is carried as nanoseconds on a caller-
//! chosen monotonic clock; traffic drains tokens and the proposed delay is
//! whatever would bring consumption back under the bucket size.

use vstd::prelude::*;

verus! {

/// Token bucket based rate limiter.
pub struct RateLimiter {
    /// Tokens per second; never zero.
    pub rate: u64,
    /// When this limiter started, in nanoseconds.
    pub start_time: u64,
    /// Overall traffic registered.
    pub traffic: u64,
    /// The bucket size in tokens.
    pub bucket_size: u64,
    /// When the bucket was last refilled.
    pub last_update: u64,
    /// Tokens currently consumed.
    pub consumed_tokens: u64,
}

pub open spec fn min_u64(v: int) -> int {
    if v > u64::MAX {
        u64::MAX as int
    } else {
        v
    }
}

/// Tokens refilled over a time span: span times rate, in whole seconds of
/// nanoseconds, saturating.
pub open spec fn refill_amount(span: int, rate: int) -> int {
    min_u64((span * rate) / 1_000_000_000)
}

impl RateLimiter {
    pub open spec fn wf(&self) -> bool {
        self.rate >= 1
    }

    /// A limiter starting at time zero of the caller's clock, with an empty
    /// bucket: all tokens consumed.
    pub fn new(rate: u64, bucket_size: u64) -> (r: RateLimiter)
        requires
            rate >= 1,
        ensures
            r.wf(),
            r.rate == rate,
            r.bucket_size == bucket_size,
            r.start_time == 0,
            r.last_update == 0,
            r.traffic == 0,
            r.consumed_tokens == bucket_size,
    {
        Self::with_start_time(rate, bucket_size, 0)
    }

    /// A limiter with the given start time and an empty bucket.
    pub fn with_start_time(rate: u64, bucket_size: u64, start_time: u64) -> (r: RateLimiter)
        requires
            rate >= 1,
        ensures
            r.wf(),
            r.rate == rate,
            r.bucket_size == bucket_size,
            r.start_time == start_time,
            r.last_update == start_time,
            r.traffic == 0,
            r.consumed_tokens == bucket_size,
    {
        RateLimiter {
            rate,
            start_time,
            traffic: 0,
            bucket_size,
            last_update: start_time,
            consumed_tokens: bucket_size,
        }
    }

    /// Refill the bucket for the time passed since the last update; a clock
    /// that did not move (or moved backwards) changes nothing.
    fn refill_bucket(&mut self, current_time: u64)
        requires
            old(self).wf(),
        ensures
            final(self).wf(),
            current_time <= old(self).last_update ==> *final(self) == *old(self),
            current_time > old(self).last_update ==> final(self).last_update == current_time
                && final(self).consumed_tokens == if old(self).consumed_tokens >= refill_amount(
                current_time - old(self).last_update,
                old(self).rate as int,
            ) {
                old(self).consumed_tokens - refill_amount(
                    current_time - old(self).last_update,
                    old(self).rate as int,
                )
            } else {
                0
            } && final(self).rate == old(self).rate && final(self).bucket_size == old(
                self,
            ).bucket_size && final(self).traffic == old(self).traffic && final(self).start_time
                == old(self).start_time,
    {
        if current_time <= self.last_update {
            return ;
        }
        let time_diff: u128 = (current_time - self.last_update) as u128;
        self.last_update = current_time;
        let rate128: u128 = self.rate as u128;
        proof {
            assert(time_diff * rate128 <= (u64::MAX as u128) * (u64::MAX as u128))
                by (nonlinear_arith)
                requires
                    time_diff <= u64::MAX as u128,
                    rate128 <= u64::MAX as u128,
            ;
        }
        let allowed: u128 = (time_diff * rate128) / 1_000_000_000;
        let allowed64: u64 = if allowed > u64::MAX as u128 {
            u64::MAX
        } else {
            allowed as u64
        };
        proof {
            assert(allowed64 as int == refill_amount(
                current_time - old(self).last_update,
                old(self).rate as int,
            ));
        }
        self.consumed_tokens = if self.consumed_tokens >= allowed64 {
            self.consumed_tokens - allowed64
        } else {
            0
        };
    }

    /// Register traffic, returning the delay in nanoseconds that would bring
    /// consumption back to the bucket size; zero when the bucket suffices.
    pub fn register_traffic(&mut self, current_time: u64, data_len: u64) -> (delay: u64)
        requires
            old(self).wf(),
        ensures
            final(self).wf(),
            ({
                let refilled = if current_time > old(self).last_update {
                    if old(self).consumed_tokens >= refill_amount(
                        current_time - old(self).last_update,
                        old(self).rate as int,
                    ) {
                        old(self).consumed_tokens - refill_amount(
                            current_time - old(self).last_update,
                            old(self).rate as int,
                        )
                    } else {
                        0
                    }
                } else {
                    old(self).consumed_tokens as int
                };
                &&& final(self).traffic == min_u64(old(self).traffic + data_len)
                &&& final(self).consumed_tokens == min_u64(refilled + data_len)
                &&& final(self).last_update == if current_time > old(self).last_update {
                    current_time
                } else {
                    old(self).last_update
                }
                &&& final(self).rate == old(self).rate
                &&& final(self).bucket_size == old(self).bucket_size
                &&& final(self).start_time == old(self).start_time
                &&& delay == if final(self).consumed_tokens <= final(self).bucket_size {
                    0
                } else {
                    min_u64(
                        ((final(self).consumed_tokens - final(self).bucket_size) * 1_000_000_000)
                            / (final(self).rate as int),
                    )
                }
            }),
    {
        self.refill_bucket(current_time);
        self.traffic = self.traffic.saturating_add(data_len);
        self.consumed_tokens = self.consumed_tokens.saturating_add(data_len);
        if self.consumed_tokens <= self.bucket_size {
            return 0;
        }
        let over: u128 = (self.consumed_tokens - self.bucket_size) as u128;
        proof {
            assert(over * 1_000_000_000 <= (u64::MAX as u128) * 1_000_000_000)
                by (nonlinear_arith)
                requires
                    over <= u64::MAX as u128,
            ;
        }
        let d: u128 = (over * 1_000_000_000) / (self.rate as u128);
        if d > u64::MAX as u128 {
            u64::MAX
        } else {
            d as u64
        }
    }
}

} // verus!
