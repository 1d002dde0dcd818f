//! Pools, their logs, and the fold of a run of logs into a pool state.
use vstd::prelude::*;

use crate::order::Key;
use crate::primitives::{Address, ChainKey, B256, U160};

verus! {

/// The identifier of a pool of the v4 singleton.
#[derive(Clone, Copy, Debug, PartialEq, Eq, PartialOrd, Ord, Hash, Structural)]
pub struct PoolId(pub B256);

/// What identifies a pool within one chain: a contract of its own, or an identifier inside the v4
/// singleton.
#[derive(Clone, Copy, Debug, PartialEq, Eq, PartialOrd, Ord, Hash, Structural)]
pub enum ProtocolPoolKey {
    UniswapV3(Address),
    UniswapV4(PoolId),
}

impl ProtocolPoolKey {
    pub open spec fn spec_v3_address(self) -> Option<Address> {
        match self {
            ProtocolPoolKey::UniswapV3(address) => Some(address),
            ProtocolPoolKey::UniswapV4(_) => None,
        }
    }

    /// The pool's own contract, when it has one.
    pub fn uniswap_v3_address(&self) -> (r: Option<Address>)
        ensures
            r == self.spec_v3_address(),
    {
        match *self {
            ProtocolPoolKey::UniswapV3(address) => Some(address),
            ProtocolPoolKey::UniswapV4(_) => None,
        }
    }
}

impl Key for ProtocolPoolKey {
    open spec fn rank(self) -> int {
        match self {
            ProtocolPoolKey::UniswapV3(address) => address.rank(),
            ProtocolPoolKey::UniswapV4(id) => id.0.rank()
                + 0x1_0000_0000_0000_0000_0000_0000_0000_0000_0000_0000_0000_0000_0000_0000_0000_0000int,
        }
    }

    proof fn rank_identifies(a: Self, b: Self) {
    }

    fn precedes(&self, other: &Self) -> (b: bool) {
        match (*self, *other) {
            (ProtocolPoolKey::UniswapV3(a), ProtocolPoolKey::UniswapV3(b)) => a.precedes(&b),
            (ProtocolPoolKey::UniswapV3(_), ProtocolPoolKey::UniswapV4(_)) => true,
            (ProtocolPoolKey::UniswapV4(_), ProtocolPoolKey::UniswapV3(_)) => false,
            (ProtocolPoolKey::UniswapV4(a), ProtocolPoolKey::UniswapV4(b)) => a.0.precedes(&b.0),
        }
    }
}

/// A pool on a chain.
#[derive(Clone, Copy, Debug, PartialEq, Eq, PartialOrd, Ord, Hash, Structural)]
pub struct PoolRef {
    pub key: ProtocolPoolKey,
    pub chain: ChainKey,
}

impl PoolRef {
    /// A v3 pool by its contract.
    pub fn uniswap_v3(address: Address, chain: ChainKey) -> (r: PoolRef)
        ensures
            r == (PoolRef { key: ProtocolPoolKey::UniswapV3(address), chain }),
    {
        PoolRef { key: ProtocolPoolKey::UniswapV3(address), chain }
    }
}

impl Key for PoolRef {
    open spec fn rank(self) -> int {
        self.key.rank() * 4 + self.chain.rank()
    }

    proof fn rank_identifies(a: Self, b: Self) {
        ProtocolPoolKey::rank_identifies(a.key, b.key);
        ChainKey::rank_identifies(a.chain, b.chain);
    }

    fn precedes(&self, other: &Self) -> (b: bool) {
        let earlier: bool = self.key.precedes(&other.key);
        let later: bool = other.key.precedes(&self.key);
        earlier || (!later && self.chain.precedes(&other.chain))
    }
}

/// The state of a concentrated-liquidity pool: price, tick, and the liquidity active at that tick.
#[derive(Clone, Copy, Debug, PartialEq, Eq, Structural)]
pub struct PoolState {
    pub sqrt_price_x96: U160,
    pub tick: i32,
    pub liquidity: u128,
}

/// A decoded pool log.
#[derive(Clone, Copy, Debug, PartialEq, Eq, Structural)]
pub enum PoolLogEvent {
    /// The pool was created at a price.
    Initialize { sqrt_price_x96: U160, tick: i32 },
    /// A trade, with the state that it left.
    Swap { sqrt_price_x96: U160, tick: i32, liquidity: u128 },
    /// Liquidity added to the ticks `tick_lower..tick_upper`.
    Mint { tick_lower: i32, tick_upper: i32, amount: u128 },
    /// Liquidity removed from the ticks `tick_lower..tick_upper`.
    Burn { tick_lower: i32, tick_upper: i32, amount: u128 },
}

/// A pool log at its place within a block.
#[derive(Clone, Copy, Debug, PartialEq, Eq, Structural)]
pub struct PoolLog {
    pub pool: ProtocolPoolKey,
    pub log_index: u64,
    pub event: PoolLogEvent,
}

/// The read that a pool-data request makes.
#[derive(Clone, Copy, Debug, PartialEq, Eq, Structural)]
pub enum PoolDataCall {
    Slot0,
    Liquidity,
}

/// Why the state of one pool could not be read.
#[derive(Clone, Copy, Debug, PartialEq, Eq, Structural)]
pub enum PoolDataFailure {
    CallFailed(PoolDataCall),
}

pub type PoolDataResult = Result<PoolState, PoolDataFailure>;

/// Whether the event fixes the whole state by itself.
pub open spec fn is_absolute(event: PoolLogEvent) -> bool {
    event is Swap || event is Initialize
}

/// The state after one event; `None` when the event needs a state and there is none, or when the
/// liquidity would leave its range.
pub open spec fn stepped(state: Option<PoolState>, event: PoolLogEvent) -> Option<PoolState> {
    match event {
        PoolLogEvent::Initialize { sqrt_price_x96, tick } => Some(
            PoolState { sqrt_price_x96, tick, liquidity: 0 },
        ),
        PoolLogEvent::Swap { sqrt_price_x96, tick, liquidity } => Some(
            PoolState { sqrt_price_x96, tick, liquidity },
        ),
        PoolLogEvent::Mint { tick_lower, tick_upper, amount } => match state {
            None => None,
            Some(s) => if !(tick_lower <= s.tick < tick_upper) {
                Some(s)
            } else if s.liquidity + amount <= u128::MAX {
                Some(PoolState { liquidity: (s.liquidity + amount) as u128, ..s })
            } else {
                None
            },
        },
        PoolLogEvent::Burn { tick_lower, tick_upper, amount } => match state {
            None => None,
            Some(s) => if !(tick_lower <= s.tick < tick_upper) {
                Some(s)
            } else if amount <= s.liquidity {
                Some(PoolState { liquidity: (s.liquidity - amount) as u128, ..s })
            } else {
                None
            },
        },
    }
}

/// The state after a run of events, oldest first; `None` as soon as one event has no outcome.
pub open spec fn derived(base: Option<PoolState>, run: Seq<PoolLogEvent>) -> Option<PoolState>
    decreases run.len(),
{
    if run.len() == 0 {
        base
    } else {
        match stepped(base, run[0]) {
            None => None,
            Some(s) => derived(Some(s), run.drop_first()),
        }
    }
}

/// Applies one event.
pub fn apply_event(state: Option<PoolState>, event: &PoolLogEvent) -> (r: Option<PoolState>)
    ensures
        r == stepped(state, *event),
{
    match *event {
        PoolLogEvent::Initialize { sqrt_price_x96, tick } => Some(
            PoolState { sqrt_price_x96, tick, liquidity: 0 },
        ),
        PoolLogEvent::Swap { sqrt_price_x96, tick, liquidity } => Some(
            PoolState { sqrt_price_x96, tick, liquidity },
        ),
        PoolLogEvent::Mint { tick_lower, tick_upper, amount } => match state {
            None => None,
            Some(s) => if !(tick_lower <= s.tick && s.tick < tick_upper) {
                Some(s)
            } else {
                match s.liquidity.checked_add(amount) {
                    Some(liquidity) => Some(
                        PoolState { sqrt_price_x96: s.sqrt_price_x96, tick: s.tick, liquidity },
                    ),
                    None => None,
                }
            },
        },
        PoolLogEvent::Burn { tick_lower, tick_upper, amount } => match state {
            None => None,
            Some(s) => if !(tick_lower <= s.tick && s.tick < tick_upper) {
                Some(s)
            } else {
                match s.liquidity.checked_sub(amount) {
                    Some(liquidity) => Some(
                        PoolState { sqrt_price_x96: s.sqrt_price_x96, tick: s.tick, liquidity },
                    ),
                    None => None,
                }
            },
        },
    }
}

/// Folds a run of events, oldest first, over a base state.
pub fn derive_pool_state(base: Option<&PoolState>, run: &[PoolLogEvent]) -> (r: Option<PoolState>)
    ensures
        r == derived(
            match base {
                Some(s) => Some(*s),
                None => None,
            },
            run@,
        ),
{
    let start: Option<PoolState> = match base {
        Some(s) => Some(*s),
        None => None,
    };
    let mut state: Option<PoolState> = start;
    let n: usize = run.len();
    let mut i: usize = 0;
    assert(run@.skip(0) =~= run@);
    while i < n
        invariant
            n == run@.len(),
            i <= n,
            start == (match base {
                Some(s) => Some(*s),
                None => None,
            }),
            derived(start, run@) == derived(state, run@.skip(i as int)),
        decreases n - i,
    {
        let next: Option<PoolState> = apply_event(state, &run[i]);
        proof {
            let rest = run@.skip(i as int);
            assert(rest[0] == run@[i as int]);
            assert(rest.drop_first() =~= run@.skip(i + 1));
        }
        if next.is_none() {
            return None;
        }
        state = next;
        i = i + 1;
    }
    assert(run@.skip(n as int).len() == 0);
    state
}

/// Liquidity added at ticks `tick_lower..tick_upper` counts exactly when the pool's tick, of either
/// sign, is among them; a sum out of range has no outcome. Price and tick stay.
pub proof fn law_mint_adds_in_range(s: PoolState, tick_lower: i32, tick_upper: i32, amount: u128)
    ensures
        ({
            let r = stepped(Some(s), PoolLogEvent::Mint { tick_lower, tick_upper, amount });
            &&& tick_lower <= s.tick && s.tick < tick_upper && s.liquidity + amount <= u128::MAX
                ==> r is Some && r->0.liquidity == s.liquidity + amount && r->0.tick == s.tick
                && r->0.sqrt_price_x96 == s.sqrt_price_x96
            &&& tick_lower <= s.tick && s.tick < tick_upper && s.liquidity + amount > u128::MAX
                ==> r is None
            &&& s.tick < tick_lower || tick_upper <= s.tick ==> r == Some(s)
        }),
{
}

/// Liquidity removed from ticks `tick_lower..tick_upper` counts exactly when the pool's tick, of
/// either sign, is among them; more than there is has no outcome. Price and tick stay.
pub proof fn law_burn_removes_in_range(
    s: PoolState,
    tick_lower: i32,
    tick_upper: i32,
    amount: u128,
)
    ensures
        ({
            let r = stepped(Some(s), PoolLogEvent::Burn { tick_lower, tick_upper, amount });
            &&& tick_lower <= s.tick && s.tick < tick_upper && amount <= s.liquidity ==> r is Some
                && r->0.liquidity == s.liquidity - amount && r->0.tick == s.tick
                && r->0.sqrt_price_x96 == s.sqrt_price_x96
            &&& tick_lower <= s.tick && s.tick < tick_upper && amount > s.liquidity ==> r is None
            &&& s.tick < tick_lower || tick_upper <= s.tick ==> r == Some(s)
        }),
{
}

/// A swap leaves the price, tick and liquidity that it names, and a creation the price and tick that
/// it names without liquidity, whatever was before.
pub proof fn law_absolute_events_fix_state(
    state: Option<PoolState>,
    sqrt_price_x96: U160,
    tick: i32,
    liquidity: u128,
)
    ensures
        ({
            let r = stepped(state, PoolLogEvent::Swap { sqrt_price_x96, tick, liquidity });
            &&& r is Some
            &&& r->0.sqrt_price_x96 == sqrt_price_x96
            &&& r->0.tick == tick
            &&& r->0.liquidity == liquidity
        }),
        ({
            let r = stepped(state, PoolLogEvent::Initialize { sqrt_price_x96, tick });
            &&& r is Some
            &&& r->0.sqrt_price_x96 == sqrt_price_x96
            &&& r->0.tick == tick
            &&& r->0.liquidity == 0
        }),
{
}

/// Liquidity cannot be added to or removed from a pool whose state is not known.
pub proof fn law_deltas_need_a_state(tick_lower: i32, tick_upper: i32, amount: u128)
    ensures
        stepped(None, PoolLogEvent::Mint { tick_lower, tick_upper, amount }) is None,
        stepped(None, PoolLogEvent::Burn { tick_lower, tick_upper, amount }) is None,
        derived(None, seq![PoolLogEvent::Mint { tick_lower, tick_upper, amount }]) is None,
        derived(None, seq![PoolLogEvent::Burn { tick_lower, tick_upper, amount }]) is None,
{
}

/// A run without events leaves the state; a run of one event is that event; one more event at the
/// end is applied to what the run before it left, and nothing follows an event without an outcome.
pub proof fn law_runs_apply_each_event(
    base: Option<PoolState>,
    run: Seq<PoolLogEvent>,
    event: PoolLogEvent,
)
    ensures
        derived(base, Seq::empty()) == base,
        derived(base, seq![event]) == stepped(base, event),
        derived(base, run) is Some ==> derived(base, run.push(event)) == stepped(
            derived(base, run),
            event,
        ),
        run.len() > 0 && derived(base, run) is None ==> derived(base, run.push(event)) is None,
    decreases run.len(),
{
    let one = seq![event];
    assert(one.drop_first() =~= Seq::empty());
    assert(derived(base, one) == stepped(base, event)) by {
        reveal_with_fuel(derived, 2);
    }
    if run.len() == 0 {
        assert(run.push(event) =~= one);
    } else {
        let rest = run.drop_first();
        assert(run.push(event).drop_first() =~= rest.push(event));
        law_runs_apply_each_event(stepped(base, run[0]), rest, event);
        if rest.len() == 0 {
            assert(rest.push(event) =~= one);
            assert(derived(stepped(base, run[0]), rest) == stepped(base, run[0]));
        }
    }
}

/// A run derives a state from nothing exactly when it begins with an absolute event and no later
/// event takes the liquidity out of its range.
pub proof fn law_seed_needs_absolute_event(run: Seq<PoolLogEvent>)
    ensures
        derived(None, run) is Some <==> run.len() > 0 && is_absolute(run[0]) && derived(
            stepped(None, run[0]),
            run.drop_first(),
        ) is Some,
{
}

/// A run of absolute events always derives a state: the one that its last event fixes.
pub proof fn law_absolute_run_ends_at_last(base: Option<PoolState>, run: Seq<PoolLogEvent>)
    requires
        run.len() > 0,
        forall|i: int| 0 <= i < run.len() ==> is_absolute(#[trigger] run[i]),
    ensures
        derived(base, run) is Some,
        derived(base, run) == stepped(None, run.last()),
    decreases run.len(),
{
    let rest = run.drop_first();
    if rest.len() > 0 {
        assert forall|i: int| 0 <= i < rest.len() implies is_absolute(#[trigger] rest[i]) by {
            assert(rest[i] == run[i + 1]);
        }
        law_absolute_run_ends_at_last(stepped(base, run[0]), rest);
        assert(rest.last() == run.last());
    } else {
        assert(derived(stepped(base, run[0]), rest) == stepped(base, run[0]));
    }
}

/// A run that begins with an absolute event derives the same state over every base.
pub proof fn law_absolute_event_forgets_base(
    base: Option<PoolState>,
    other: Option<PoolState>,
    run: Seq<PoolLogEvent>,
)
    requires
        run.len() > 0,
        is_absolute(run[0]),
    ensures
        derived(base, run) == derived(other, run),
{
}

/// Folding a run and then another is folding them joined.
pub proof fn law_fold_in_parts(base: Option<PoolState>, first: Seq<PoolLogEvent>, rest: Seq<PoolLogEvent>)
    requires
        derived(base, first) is Some,
    ensures
        derived(base, first + rest) == derived(derived(base, first), rest),
    decreases first.len(),
{
    if first.len() == 0 {
        assert(first + rest =~= rest);
    } else {
        assert((first + rest).drop_first() =~= first.drop_first() + rest);
        law_fold_in_parts(stepped(base, first[0]), first.drop_first(), rest);
    }
}

/// Added liquidity is given back when the same amount is removed from the same ticks.
pub proof fn law_burn_undoes_mint(state: PoolState, tick_lower: i32, tick_upper: i32, amount: u128)
    requires
        stepped(Some(state), PoolLogEvent::Mint { tick_lower, tick_upper, amount }) is Some,
    ensures
        stepped(
            stepped(Some(state), PoolLogEvent::Mint { tick_lower, tick_upper, amount }),
            PoolLogEvent::Burn { tick_lower, tick_upper, amount },
        ) == Some(state),
{
}

/// Pools are ordered by protocol, the v3 pools first, within it by contract or identifier, and at
/// last by chain.
pub proof fn law_pools_in_order(a: PoolRef, b: PoolRef)
    ensures
        a.key is UniswapV3 && b.key is UniswapV4 ==> a.rank() < b.rank(),
        a.key is UniswapV3 && b.key is UniswapV3 && a.key != b.key ==> (a.rank() < b.rank()
            <==> a.key->UniswapV3_0.rank() < b.key->UniswapV3_0.rank()),
        a.key is UniswapV4 && b.key is UniswapV4 && a.key != b.key ==> (a.rank() < b.rank()
            <==> a.key->UniswapV4_0.0.rank() < b.key->UniswapV4_0.0.rank()),
        a.key == b.key ==> (a.rank() < b.rank() <==> a.chain.rank() < b.chain.rank()),
{
    if a.key.rank() == b.key.rank() {
        ProtocolPoolKey::rank_identifies(a.key, b.key);
    }
}

} // verus!
