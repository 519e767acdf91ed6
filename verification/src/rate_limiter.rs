//! Rate limiter: a token bucket that paces outbound fragment transmission.
//! Tokens are counted in integral micro-tokens and time in microseconds, so
//! every refill and wait computation is exact. The caller supplies a
//! monotonic clock reading and performs the actual waiting; `acquire`
//! decides whether a transmission may proceed now or how long to wait for
//! the next token.

use vstd::prelude::*;

verus! {

/// Micro-tokens per token: one transmission consumes `TOKEN_UNIT`.
pub const TOKEN_UNIT: u64 = 1000000;

/// Micro-tokens a bucket holds after `elapsed` microseconds of refill at
/// `rate` micro-tokens per second, starting from `tokens`, capped at the
/// bucket's capacity.
pub open spec fn spec_refill(tokens: int, capacity: int, rate: int, elapsed: int) -> int {
    let t = tokens + (elapsed * rate) / 1000000;
    if t > capacity {
        capacity
    } else {
        t
    }
}

/// Microseconds needed to gain `deficit` micro-tokens at `rate` micro-tokens
/// per second, rounded up.
pub open spec fn spec_wait(deficit: int, rate: int) -> int {
    (deficit * 1000000 + rate - 1) / rate
}

/// The verdict of one acquisition attempt: either a transmission may
/// proceed now, or the caller should wait the given number of microseconds
/// and retry.
pub enum PaceDecision {
    Granted,
    RetryAfterMicros(u64),
}

/// A token bucket. `rate` is in micro-tokens per second; the capacity is
/// the rate or one full token, whichever is larger, and the bucket starts
/// full.
pub struct RateLimiter {
    pub capacity: u64,
    pub tokens: u64,
    pub rate: u64,
    pub last_micros: u64,
}

impl RateLimiter {
    /// The bucket never holds more than its capacity, which is at least one
    /// token; the refill rate is positive.
    pub open spec fn wf(&self) -> bool {
        1 <= self.rate && TOKEN_UNIT <= self.capacity && self.tokens <= self.capacity
    }

    /// A full bucket with capacity `max(rate, TOKEN_UNIT)` micro-tokens.
    pub fn new(rate: u64, now_micros: u64) -> (r: RateLimiter)
        requires
            1 <= rate,
        ensures
            r.wf(),
            r.rate == rate,
            r.capacity == if rate > TOKEN_UNIT { rate as int } else { TOKEN_UNIT as int },
            r.tokens == r.capacity,
            r.last_micros == now_micros,
    {
        let cap = if rate > TOKEN_UNIT {
            rate
        } else {
            TOKEN_UNIT
        };
        RateLimiter { capacity: cap, tokens: cap, rate, last_micros: now_micros }
    }

    /// Refill the bucket for the time elapsed since the last refill.
    fn refill(&mut self, now_micros: u64)
        requires
            old(self).wf(),
            old(self).last_micros <= now_micros,
        ensures
            final(self).wf(),
            final(self).rate == old(self).rate,
            final(self).capacity == old(self).capacity,
            final(self).last_micros == now_micros,
            final(self).tokens == spec_refill(
                old(self).tokens as int,
                old(self).capacity as int,
                old(self).rate as int,
                now_micros - old(self).last_micros,
            ),
    {
        let elapsed = now_micros - self.last_micros;
        proof {
            assert((elapsed as int) * (self.rate as int) < 0x100000000000000000000000000000000)
                by (nonlinear_arith)
                requires
                    0 <= elapsed < 0x10000000000000000,
                    0 <= self.rate < 0x10000000000000000,
            ;
        }
        let gained: u128 = (elapsed as u128) * (self.rate as u128) / 1000000;
        let t: u128 = (self.tokens as u128) + gained;
        let cap128: u128 = self.capacity as u128;
        self.tokens = if t > cap128 {
            self.capacity
        } else {
            t as u64
        };
        self.last_micros = now_micros;
    }

    /// Try to consume one token at time `now_micros`. The bucket is first
    /// refilled for the elapsed time; if a full token is then available it
    /// is consumed and the transmission is granted, otherwise the bucket is
    /// left as refilled and the caller is told exactly how long the missing
    /// amount takes to accumulate. A grant never comes earlier than the
    /// refill schedule allows.
    pub fn acquire(&mut self, now_micros: u64) -> (r: PaceDecision)
        requires
            old(self).wf(),
            old(self).last_micros <= now_micros,
        ensures
            final(self).wf(),
            final(self).rate == old(self).rate,
            final(self).capacity == old(self).capacity,
            final(self).last_micros == now_micros,
            ({
                let avail = spec_refill(
                    old(self).tokens as int,
                    old(self).capacity as int,
                    old(self).rate as int,
                    now_micros - old(self).last_micros,
                );
                if avail >= TOKEN_UNIT {
                    r == PaceDecision::Granted && final(self).tokens == avail - TOKEN_UNIT
                } else {
                    r == PaceDecision::RetryAfterMicros(
                        spec_wait(TOKEN_UNIT - avail, old(self).rate as int) as u64,
                    ) && final(self).tokens == avail
                }
            }),
    {
        self.refill(now_micros);
        if self.tokens >= TOKEN_UNIT {
            self.tokens = self.tokens - TOKEN_UNIT;
            PaceDecision::Granted
        } else {
            let deficit = TOKEN_UNIT - self.tokens;
            let w: u128 = ((deficit as u128) * 1000000 + (self.rate as u128) - 1) / (
            self.rate as u128);
            proof {
                assert(w <= (deficit as int) * 1000000) by (nonlinear_arith)
                    requires
                        w == ((deficit as int) * 1000000 + self.rate - 1) / (self.rate as int),
                        1 <= self.rate,
                        1 <= deficit,
                ;
            }
            PaceDecision::RetryAfterMicros(w as u64)
        }
    }
}

/// Waiting out the advertised retry delay always suffices: refilling for
/// `spec_wait` of the missing amount brings the bucket to at least one full
/// token, so no acquisition is delayed past the refill schedule.
pub proof fn lemma_wait_accumulates_one_token(tokens: int, capacity: int, rate: int)
    requires
        0 <= tokens < TOKEN_UNIT as int,
        TOKEN_UNIT as int <= capacity,
        1 <= rate,
    ensures
        spec_refill(tokens, capacity, rate, spec_wait(TOKEN_UNIT - tokens, rate)) >= TOKEN_UNIT,
{
    let d = TOKEN_UNIT - tokens;
    let w = spec_wait(d, rate);
    assert(w * rate >= d * 1000000) by (nonlinear_arith)
        requires
            w == (d * 1000000 + rate - 1) / rate,
            1 <= rate,
            1 <= d,
    ;
    assert((w * rate) / 1000000 >= d) by (nonlinear_arith)
        requires
            w * rate >= d * 1000000,
            1 <= d,
    ;
}

} // verus!
