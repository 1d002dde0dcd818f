use evm_kernel::blocks_graph::{BlocksGraph, ConnectedHash};
use evm_kernel::graph_model::Authority;
use evm_kernel::ord_map::{OrdMap, OrdSet};
use evm_kernel::pool_state::{PoolLog, PoolLogEvent, PoolRef, PoolState};
use evm_kernel::primitives::{Address, BlockHash, Bloom, ChainKey, U160};

const CHAIN: ChainKey = ChainKey::Ethereum;

const POOL_BYTES: [u8; 4] = [0xA1, 0xA2, 0xA3, 0xA4];

fn dh(index: usize) -> BlockHash {
    BlockHash::with_last_byte(index as u8)
}

fn u160(value: u128) -> U160 {
    U160 { hi: 0, lo: value }
}

fn ps(sqrt: u128, tick: i32, liquidity: u128) -> PoolState {
    PoolState { sqrt_price_x96: u160(sqrt), tick, liquidity }
}

fn pool_of(index: usize) -> PoolRef {
    PoolRef::uniswap_v3(Address::with_last_byte(POOL_BYTES[index]), CHAIN)
}

/// Base liquidity is large so bounded mints never overflow.
fn base_snapshot() -> OrdMap<PoolRef, PoolState> {
    OrdMap::from_entries(vec![
        (pool_of(0), ps(1_000, 0, 1_000_000)),
        (pool_of(1), ps(2_000, 10, 2_000_000)),
        (pool_of(2), ps(3_000, -10, 3_000_000)),
    ])
}

fn base_verified() -> OrdSet<PoolRef> {
    OrdSet::from_items(base_snapshot().keys())
}

/// One block off the anchor with authoritative logs, in the given order.
fn one_block(logs: Vec<(PoolRef, PoolLogEvent)>) -> BlocksGraph {
    BlocksGraph::new(dh(0)).with_block(dh(1), dh(0), 1, Bloom::repeat_byte(0xFF)).0.with_complete_logs(
        dh(1),
        logs.into_iter()
            .enumerate()
            .map(|(index, (pool, event))| PoolLog {
                pool: pool.key,
                log_index: index as u64,
                event,
            })
            .collect(),
    )
}

#[test]
fn differential_reanchor_to_anchor_is_noop() {
    let base = base_snapshot();
    let graph = BlocksGraph::new(dh(0)).with_block(dh(1), dh(0), 1, Bloom::repeat_byte(0xFF)).0;

    let (graph, snapshot) = graph.reanchored_to(ConnectedHash(dh(0)), &base, &base_verified());

    assert_eq!(graph.anchor_hash(), dh(0));
    assert_eq!(snapshot, base);
}

#[test]
fn registry_verified_new_pool_is_absolute_seeded_into_new_fold() {
    // A pool that has no base but is verified is seeded from its own swap.
    let base = base_snapshot();
    let extra = PoolRef::uniswap_v3(Address::with_last_byte(0xC1), CHAIN);
    let verified = base_verified().with(extra);
    let base_swap = PoolLogEvent::Swap {
        sqrt_price_x96: u160(7_000),
        tick: 4,
        liquidity: 55_555,
    };
    let extra_swap = PoolLogEvent::Swap {
        sqrt_price_x96: u160(9_000),
        tick: 6,
        liquidity: 4_242,
    };
    let base0_state = ps(7_000, 4, 55_555);
    let extra_state = ps(9_000, 6, 4_242);

    let graph = one_block(vec![(pool_of(0), base_swap), (extra, extra_swap)]);
    let (_, snapshot) = graph.reanchored_to(ConnectedHash(dh(1)), &base, &verified);

    // The verified new pool is seeded; the base pool is folded.
    assert_eq!(snapshot.get(&extra), Some(&extra_state));
    assert_eq!(snapshot.get(&pool_of(0)), Some(&base0_state));
}

#[test]
fn delta_only_new_pool_new_graph_advances_but_legacy_waits() {
    // A verified new pool whose only log is a mint has nothing to start from: the anchor advances
    // and the pool is left out.
    let base = base_snapshot();
    let extra = PoolRef::uniswap_v3(Address::with_last_byte(0xC2), CHAIN);
    let verified = base_verified().with(extra);

    let base_swap = PoolLogEvent::Swap {
        sqrt_price_x96: u160(7_000),
        tick: 4,
        liquidity: 55_555,
    };
    let base0_state = ps(7_000, 4, 55_555);
    let extra_mint = PoolLogEvent::Mint { tick_lower: -10, tick_upper: 10, amount: 1_000 };

    let graph = one_block(vec![(pool_of(0), base_swap), (extra, extra_mint)]);
    let (graph, snapshot) = graph.reanchored_to(ConnectedHash(dh(1)), &base, &verified);

    assert_eq!(graph.anchor_hash(), dh(1));
    assert!(!snapshot.contains_key(&extra));
    assert_eq!(snapshot.get(&pool_of(0)), Some(&base0_state));
}

#[test]
fn a_seeded_pool_keeps_its_state_when_the_anchor_moves() {
    // A verified pool outside the base: the first block seeds it, the second moves it.
    let new_pool = pool_of(3);
    let base = base_snapshot();
    let mut pools = base.keys();
    pools.push(new_pool);
    let verified = OrdSet::from_items(pools);
    let swap = |sqrt: u128| PoolLogEvent::Swap {
        sqrt_price_x96: u160(sqrt),
        tick: 7,
        liquidity: 50,
    };
    let built = || {
        one_block(vec![(new_pool, swap(4_000))])
            .with_block(dh(2), dh(1), 2, Bloom::repeat_byte(0xFF))
            .0
            .with_complete_logs(
                dh(2),
                vec![PoolLog { pool: new_pool.key, log_index: 0, event: swap(5_000) }],
            )
    };
    let at_once = built().folded_pool_states(
        &base,
        &verified,
        ConnectedHash(dh(2)),
        Authority::RequireComplete,
    );
    let (graph, advanced) = built().reanchored_to(ConnectedHash(dh(1)), &base, &verified);
    assert_eq!(advanced.get(&new_pool), Some(&ps(4_000, 7, 50)));
    let in_parts = graph.folded_pool_states(
        &advanced,
        &verified,
        ConnectedHash(dh(2)),
        Authority::RequireComplete,
    );
    assert_eq!(in_parts.get(&new_pool), Some(&ps(5_000, 7, 50)));
    assert_eq!(in_parts, at_once);
}
