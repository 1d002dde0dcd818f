//! The kernel's clock.
use vstd::prelude::*;

verus! {

/// A request is sent again once this many ticks have passed without an answer.
pub const REQUEST_TTL: u64 = 10;

/// A point on a clock that wraps around.
#[derive(Clone, Copy, Debug, PartialEq, Eq, PartialOrd, Ord, Hash, Structural)]
pub struct Tick {
    pub raw: u64,
}

/// The ticks passed from `then` to `now`, on a clock that wraps around.
pub open spec fn elapsed(now: Tick, then: Tick) -> int {
    if now.raw >= then.raw {
        now.raw - then.raw
    } else {
        now.raw - then.raw + 0x1_0000_0000_0000_0000
    }
}

pub open spec fn next_tick(t: Tick) -> Tick {
    if t.raw == u64::MAX {
        Tick { raw: 0 }
    } else {
        Tick { raw: (t.raw + 1) as u64 }
    }
}

/// A request dispatched at `then` is due again at `now`.
pub open spec fn expired(now: Tick, then: Tick) -> bool {
    elapsed(now, then) >= REQUEST_TTL
}

impl Tick {
    pub fn initial() -> (r: Tick)
        ensures
            r == (Tick { raw: 0 }),
    {
        Tick { raw: 0 }
    }

    pub fn next(self) -> (r: Tick)
        ensures
            r == next_tick(self),
    {
        Tick { raw: self.raw.wrapping_add(1) }
    }

    /// Whether a request dispatched at `dispatched_at` is due again.
    pub fn is_expired_since(self, dispatched_at: Tick) -> (r: bool)
        ensures
            r == expired(self, dispatched_at),
    {
        self.raw.wrapping_sub(dispatched_at.raw) >= REQUEST_TTL
    }
}

/// One step of the clock adds one tick to the age of everything that is not a full turn old, and a
/// fresh request is not due.
pub proof fn law_age_advances(now: Tick, then: Tick)
    ensures
        elapsed(now, then) < u64::MAX ==> elapsed(next_tick(now), then) == elapsed(now, then) + 1,
        elapsed(now, then) == u64::MAX ==> elapsed(next_tick(now), then) == 0,
        !expired(now, now),
{
}

/// A request is due again once ten ticks have passed since its dispatch, also where the clock wrapped
/// around in between, and not before.
pub proof fn law_due_after_ten_ticks(then: Tick, passed: u64)
    ensures
        then.raw + passed <= u64::MAX ==> (expired(
            Tick { raw: (then.raw + passed) as u64 },
            then,
        ) <==> passed >= 10),
        then.raw + passed > u64::MAX ==> (expired(
            Tick { raw: (then.raw + passed - 0x1_0000_0000_0000_0000) as u64 },
            then,
        ) <==> passed >= 10),
{
}

/// The clock goes up by one, and from its largest value to zero.
pub proof fn law_clock_steps(t: Tick)
    ensures
        t.raw < u64::MAX ==> next_tick(t).raw == t.raw + 1,
        t.raw == u64::MAX ==> next_tick(t).raw == 0,
{
}

} // verus!
