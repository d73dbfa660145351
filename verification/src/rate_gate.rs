//! A shared token-bucket limiter.
//!
//! Every task that issues a mutating call to the external platform first
//! takes a token from one shared gate.  One bucket serves all groups and
//! subjects, so a burst of reconciliations cannot flood the platform.
//! The caller supplies a monotone clock reading in milliseconds, and the
//! surrounding runtime decides how to wait when no token is available.

use vstd::arithmetic::div_mod::{lemma_basic_div, lemma_fundamental_div_mod, lemma_mod_bound};
use vstd::prelude::*;

verus! {

/// A token bucket holding at most `capacity` tokens, gaining one token
/// every `interval_ms` milliseconds.
pub struct RateGate {
    pub capacity: u64,
    pub interval_ms: u64,
    /// Tokens available at clock reading `mark_ms`.
    pub tokens: u64,
    /// Clock reading to which `tokens` refers; advances only by whole
    /// refill intervals, so no fraction of an interval is ever lost.
    pub mark_ms: u64,
}

impl RateGate {
    pub open spec fn wf(self) -> bool {
        &&& 1 <= self.capacity <= 0x7fff_ffff
        &&& self.interval_ms >= 1
        &&& self.tokens <= self.capacity
    }

    pub open spec fn spec_capacity(self) -> u64 {
        self.capacity
    }

    pub open spec fn spec_interval_ms(self) -> u64 {
        self.interval_ms
    }

    pub open spec fn spec_mark_ms(self) -> u64 {
        self.mark_ms
    }

    /// Tokens the bucket holds once refills up to `now_ms` are counted,
    /// capped at the burst capacity.
    pub open spec fn tokens_at(self, now_ms: u64) -> int {
        let refilled = self.tokens + (now_ms - self.mark_ms) as int / self.interval_ms as int;
        if refilled > self.capacity { self.capacity as int } else { refilled }
    }

    /// A new gate starts with a full bucket.
    pub fn new(capacity: u64, interval_ms: u64, now_ms: u64) -> (gate: RateGate)
        requires
            1 <= capacity <= 0x7fff_ffff,
            interval_ms >= 1,
        ensures
            gate.wf(),
            gate.spec_capacity() == capacity,
            gate.spec_interval_ms() == interval_ms,
            gate.spec_mark_ms() == now_ms,
            gate.tokens_at(now_ms) == capacity,
    {
        RateGate { capacity, interval_ms, tokens: capacity, mark_ms: now_ms }
    }

    /// The rate observed to be safe in practice: ten permits per minute,
    /// that is one mutating call roughly every six seconds.
    pub fn new_default(now_ms: u64) -> (gate: RateGate)
        ensures
            gate.wf(),
            gate.spec_capacity() == 10,
            gate.spec_interval_ms() == 6000,
            gate.spec_mark_ms() == now_ms,
            gate.tokens_at(now_ms) == 10,
    {
        RateGate::new(10, 6000, now_ms)
    }

    /// Takes one token if any is available at `now_ms`.  The clock reading
    /// must not precede the last refill point.
    pub fn try_acquire(&mut self, now_ms: u64) -> (granted: bool)
        requires
            old(self).wf(),
            now_ms >= old(self).spec_mark_ms(),
        ensures
            final(self).wf(),
            final(self).spec_capacity() == old(self).spec_capacity(),
            final(self).spec_interval_ms() == old(self).spec_interval_ms(),
            old(self).spec_mark_ms() <= final(self).spec_mark_ms() <= now_ms,
            granted <==> old(self).tokens_at(now_ms) >= 1,
            final(self).tokens_at(now_ms) == if granted {
                old(self).tokens_at(now_ms) - 1
            } else {
                old(self).tokens_at(now_ms)
            },
    {
        let elapsed = now_ms - self.mark_ms;
        let add = elapsed / self.interval_ms;
        proof {
            lemma_fundamental_div_mod(elapsed as int, self.interval_ms as int);
            lemma_mod_bound(elapsed as int, self.interval_ms as int);
            assert(add as int * self.interval_ms as int == self.interval_ms as int * add as int)
                by (nonlinear_arith);
            assert(add * self.interval_ms <= elapsed);
        }
        if add >= self.capacity {
            // The bucket is certainly full; restart the clock at `now_ms`.
            self.tokens = self.capacity;
            self.mark_ms = now_ms;
        } else {
            let refilled = self.tokens + add;
            if refilled >= self.capacity {
                self.tokens = self.capacity;
                self.mark_ms = now_ms;
            } else {
                self.tokens = refilled;
                self.mark_ms = self.mark_ms + add * self.interval_ms;
                proof {
                    lemma_basic_div(elapsed - add * self.interval_ms, self.interval_ms as int);
                }
            }
        }
        assert(self.tokens_at(now_ms) == old(self).tokens_at(now_ms));
        if self.tokens >= 1 {
            self.tokens = self.tokens - 1;
            true
        } else {
            false
        }
    }
}

} // verus!
