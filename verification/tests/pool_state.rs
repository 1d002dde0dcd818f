use evm_kernel::pool_state::{
    apply_event, derive_pool_state, PoolId, PoolLogEvent, PoolRef, PoolState, ProtocolPoolKey,
};
use evm_kernel::primitives::{Address, ChainKey, B256, U160};

fn price(value: u128) -> U160 {
    U160 { hi: 0, lo: value }
}

fn state(sqrt: u128, tick: i32, liquidity: u128) -> PoolState {
    PoolState { sqrt_price_x96: price(sqrt), tick, liquidity }
}

fn swap(sqrt: u128, tick: i32, liquidity: u128) -> PoolLogEvent {
    PoolLogEvent::Swap { sqrt_price_x96: price(sqrt), tick, liquidity }
}

fn mint(tick_lower: i32, tick_upper: i32, amount: u128) -> PoolLogEvent {
    PoolLogEvent::Mint { tick_lower, tick_upper, amount }
}

fn burn(tick_lower: i32, tick_upper: i32, amount: u128) -> PoolLogEvent {
    PoolLogEvent::Burn { tick_lower, tick_upper, amount }
}

#[test]
fn empty_run_keeps_the_base() {
    let base = state(1, 2, 3);
    assert_eq!(derive_pool_state(Some(&base), &[]), Some(base));
    assert_eq!(derive_pool_state(None, &[]), None);
}

#[test]
fn initialize_and_swap_need_no_base() {
    let initialize = PoolLogEvent::Initialize { sqrt_price_x96: price(7), tick: -3 };
    assert_eq!(derive_pool_state(None, &[initialize]), Some(state(7, -3, 0)));
    assert_eq!(derive_pool_state(None, &[swap(7, 4, 9)]), Some(state(7, 4, 9)));
    // Whatever the base was, a swap leaves its own state.
    assert_eq!(derive_pool_state(Some(&state(1, 1, 1)), &[swap(7, 4, 9)]), Some(state(7, 4, 9)));
}

#[test]
fn liquidity_changes_need_a_base() {
    assert_eq!(derive_pool_state(None, &[mint(0, 10, 5)]), None);
    assert_eq!(derive_pool_state(None, &[burn(0, 10, 5)]), None);
    // A later swap does not repair a run that began without a base.
    assert_eq!(derive_pool_state(None, &[mint(0, 10, 5), swap(7, 4, 9)]), None);
}

#[test]
fn liquidity_changes_apply_at_the_current_tick_only() {
    let base = state(1, 5, 100);
    assert_eq!(apply_event(Some(base), &mint(5, 6, 10)), Some(state(1, 5, 110)));
    // The upper tick is excluded.
    assert_eq!(apply_event(Some(base), &mint(0, 5, 10)), Some(base));
    assert_eq!(apply_event(Some(base), &mint(6, 9, 10)), Some(base));
    assert_eq!(apply_event(Some(base), &burn(5, 6, 10)), Some(state(1, 5, 90)));
    assert_eq!(apply_event(Some(base), &burn(6, 9, 10)), Some(base));
}

#[test]
fn liquidity_that_leaves_its_range_ends_the_run() {
    let full = state(1, 5, u128::MAX);
    assert_eq!(apply_event(Some(full), &mint(0, 10, 1)), None);
    assert_eq!(apply_event(Some(state(1, 5, 4)), &burn(0, 10, 5)), None);
    assert_eq!(apply_event(Some(state(1, 5, 5)), &burn(0, 10, 5)), Some(state(1, 5, 0)));
}

#[test]
fn burn_undoes_mint() {
    let base = state(1, 5, 100);
    assert_eq!(
        derive_pool_state(Some(&base), &[mint(0, 10, 7), burn(0, 10, 7)]),
        Some(base)
    );
}

#[test]
fn a_run_can_be_folded_in_parts() {
    let run = [swap(2, 5, 50), mint(0, 10, 7), burn(0, 10, 3), mint(90, 100, 1)];
    let whole = derive_pool_state(None, &run);
    let half = derive_pool_state(None, &run[..2]).unwrap();
    assert_eq!(derive_pool_state(Some(&half), &run[2..]), whole);
    assert_eq!(whole, Some(state(2, 5, 54)));
}

#[test]
fn only_v3_pools_have_an_address() {
    let v3 = ProtocolPoolKey::UniswapV3(Address::with_last_byte(9));
    let v4 = ProtocolPoolKey::UniswapV4(PoolId(B256::with_last_byte(9)));
    assert_eq!(v3.uniswap_v3_address(), Some(Address::with_last_byte(9)));
    assert_eq!(v4.uniswap_v3_address(), None);
    assert_eq!(
        PoolRef::uniswap_v3(Address::with_last_byte(9), ChainKey::Polygon),
        PoolRef { key: v3, chain: ChainKey::Polygon }
    );
}
