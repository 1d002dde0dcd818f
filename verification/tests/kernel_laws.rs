use evm_kernel::blocks_graph::{BlockLogs, BlocksGraph, ConnectedHash};
use evm_kernel::graph_model::Authority;
use evm_kernel::kernel::{
    finalized_refresh_bucket, request_missing_header, should_fetch_finalized_header, transition,
    Blocks, Effect, Event, State, MAX_STREAMED_LOG_BLOCKS,
};
use evm_kernel::ord_map::{OrdMap, OrdSet};
use evm_kernel::pending_requests::{
    AnyIssuedRequest, AnyRequestId, GetBlockHeader, GetPoolData, PendingRequests,
};
use evm_kernel::pool_registry::{PoolFee, PoolMetadata, TrustedPoolRegistry, UniswapV3Fee};
use evm_kernel::pool_state::{PoolLog, PoolLogEvent, PoolRef, PoolState, ProtocolPoolKey};
use evm_kernel::primitives::{Address, BlockHash, Bloom, ChainKey, U160};
use evm_kernel::request_tracking::RequestId;
use evm_kernel::tick::{Tick, REQUEST_TTL};
use evm_kernel::token_registry::TokenRegistry;

const CHAIN: ChainKey = ChainKey::Ethereum;

fn hash(number: u64) -> BlockHash {
    BlockHash { hi: 0, lo: u128::from(number) }
}

fn pool() -> PoolRef {
    PoolRef::uniswap_v3(Address::with_last_byte(9), CHAIN)
}

fn swap(log_index: u64, liquidity: u128) -> PoolLog {
    PoolLog {
        pool: pool().key,
        log_index,
        event: PoolLogEvent::Swap { sqrt_price_x96: U160 { hi: 0, lo: 5 }, tick: 1, liquidity },
    }
}

fn state_of(liquidity: u128) -> PoolState {
    PoolState { sqrt_price_x96: U160 { hi: 0, lo: 5 }, tick: 1, liquidity }
}

fn one_verified_pool() -> TrustedPoolRegistry {
    TrustedPoolRegistry::new().with_metadata_results(
        CHAIN,
        OrdMap::from_entries(vec![(
            pool().key,
            Ok(PoolMetadata {
                token0: Address::zero(),
                token1: Address::zero(),
                fee: PoolFee::Tiered(UniswapV3Fee::Fee500),
            }),
        )]),
    )
}

fn started() -> State {
    let (state, effects) = State::activate_from_seed(
        hash(100),
        OrdMap::from_entries(vec![(pool(), state_of(1))]),
        one_verified_pool(),
        TokenRegistry::new(),
        Vec::new(),
    );
    assert!(effects.is_empty());
    state
}

fn head(state: State, number: u64, parent: u64) -> (State, Vec<Effect>) {
    transition(
        CHAIN,
        state,
        Event::HeadObserved {
            hash: hash(number),
            parent_hash: hash(parent),
            logs_bloom: Bloom::repeat_byte(0xff),
            number,
        },
    )
}

#[test]
fn regime_orphaned_streamed_log_flood_stays_bounded() {
    let mut state = started();
    for index in 0..3_000u64 {
        let (next, effects) = transition(
            CHAIN,
            state,
            Event::LogObserved { block_hash: hash(9_000_000 + index), logs: vec![swap(0, 7)] },
        );
        assert!(effects.is_empty(), "staging produces no effects");
        state = next;
    }
    assert_eq!(
        state.streamed_logs.len(),
        MAX_STREAMED_LOG_BLOCKS,
        "the staging buffer must cap under a flood"
    );

    // A staged block whose head finally arrives still drains into the graph.
    let staged = hash(9_000_000);
    assert!(state.streamed_logs.contains_key(&staged), "first flood entry is staged");
    let (state, _) = head(state, 9_000_000, 100);
    assert!(
        !state.streamed_logs.contains_key(&staged),
        "staged logs drain when the block enters the graph"
    );
    match &state.blocks.graph.get(staged).expect("admitted").logs {
        BlockLogs::Streamed(logs) => assert_eq!(logs.get(&0), Some(&swap(0, 7))),
        other => panic!("expected streamed logs, got {other:?}"),
    }
}

#[test]
fn staged_logs_of_one_block_are_joined() {
    let (state, _) = transition(
        CHAIN,
        started(),
        Event::LogObserved { block_hash: hash(101), logs: vec![swap(0, 7)] },
    );
    let (state, _) = transition(
        CHAIN,
        state,
        Event::LogObserved { block_hash: hash(101), logs: vec![swap(3, 8)] },
    );
    let (state, _) = head(state, 101, 100);
    match &state.blocks.graph.get(hash(101)).expect("admitted").logs {
        BlockLogs::Streamed(logs) => assert_eq!(logs.keys(), vec![0, 3]),
        other => panic!("expected streamed logs, got {other:?}"),
    }
}

#[test]
fn optimizer_reads_streamed_states_up_to_the_first_gap() {
    let state = started();
    let update = state.optimization_update(CHAIN);
    assert_eq!(update.block_hash, hash(100));
    assert!(update.pool_states.is_empty());

    let (state, _) = head(state, 101, 100);
    let (state, _) = transition(
        CHAIN,
        state,
        Event::LogObserved { block_hash: hash(101), logs: vec![swap(0, 7)] },
    );
    // The next block's logs are unknown and may matter: the read stops below it.
    let (state, _) = head(state, 102, 101);
    let update = state.optimization_update(CHAIN);
    assert_eq!(update.block_hash, hash(101));
    assert_eq!(update.pool_states, OrdMap::from_entries(vec![(pool(), state_of(7))]));
    // The finalized states are as they were.
    assert_eq!(state.finalized_pool_snapshots().get(&pool()), Some(&state_of(1)));
}

#[test]
fn optimizer_reads_the_anchor_while_the_head_is_not_connected() {
    let (state, _) = head(started(), 105, 104);
    let update = state.optimization_update(CHAIN);
    assert_eq!(update.block_hash, hash(100));
    assert!(update.pool_states.is_empty());
}

#[test]
fn frontier_depends_on_which_logs_may_be_read() {
    let watched = OrdSet::from_items(vec![Address::with_last_byte(9)]);
    let graph = BlocksGraph::new(hash(100))
        .admitted(hash(101), hash(100), 101, Bloom::repeat_byte(0xff))
        .with_streamed_logs(hash(101), vec![swap(0, 7)])
        .with_observed_head(hash(101));
    let target = ConnectedHash(hash(101));
    assert_eq!(
        graph.foldable_frontier(target, &watched, Authority::AllowStreamed),
        ConnectedHash(hash(101))
    );
    assert_eq!(
        graph.foldable_frontier(target, &watched, Authority::RequireComplete),
        ConnectedHash(hash(100))
    );
    // With nothing watched no block is in the way.
    assert_eq!(
        graph.foldable_frontier(target, &OrdSet::new(), Authority::RequireComplete),
        ConnectedHash(hash(101))
    );
}

#[test]
fn a_head_heard_twice_sends_nothing_twice() {
    let (state, effects) = head(started(), 103, 102);
    assert_eq!(effects.len(), 2, "the head's logs and its parent's header");
    assert_eq!(state.in_flight_request_count(), 2);
    let (state, effects) = head(state, 103, 102);
    assert!(effects.is_empty());
    assert_eq!(state.in_flight_request_count(), 2);
}

#[test]
fn finalization_drops_requests_about_pruned_blocks() {
    let (state, effects) = head(started(), 101, 100);
    let Effect::Request(AnyIssuedRequest::BlockLogs(logs)) = &effects[0] else {
        panic!("expected a log request");
    };
    let (state, _) = transition(
        CHAIN,
        state,
        Event::BlockLogsReceived { request_id: logs.request_id, logs: vec![swap(0, 7)] },
    );
    let (state, _) = head(state, 102, 101);
    assert_eq!(state.in_flight_request_count(), 1);
    let (state, _) = transition(
        CHAIN,
        state,
        Event::LogObserved { block_hash: hash(555), logs: vec![swap(0, 9)] },
    );
    let (state, effects) =
        transition(CHAIN, state, Event::FinalizedBlockObserved { block_hash: hash(101) });
    assert!(effects.is_empty());
    assert_eq!(state.blocks.graph.anchor_hash(), hash(101));
    assert_eq!(state.finalized_pool_snapshots().get(&pool()), Some(&state_of(7)));
    // Block 102 stays and so does the request for its logs; nothing stays staged.
    assert_eq!(state.in_flight_request_count(), 1);
    assert!(state.streamed_logs.is_empty());
    assert_eq!(state.canonical_path_len_from_finalized(), Some(1));
}

#[test]
fn unknown_answers_change_nothing() {
    let (state, _) = head(started(), 103, 102);
    let ids = state.pending_requests.last_request_id();
    let (state, effects) = transition(
        CHAIN,
        state,
        Event::PoolDataReceived {
            request_id: RequestId::from_raw(1),
            pools: OrdMap::from_entries(vec![(pool(), Ok(state_of(44)))]),
        },
    );
    assert!(effects.is_empty());
    assert_eq!(state.finalized_pool_snapshots().get(&pool()), Some(&state_of(1)));
    let (state, effects) = transition(
        CHAIN,
        state,
        Event::RequestFailed { request_id: AnyRequestId::TokenMetadata(RequestId::from_raw(1)) },
    );
    assert!(effects.is_empty());
    assert_eq!(state.pending_requests.last_request_id(), ids);
    assert_eq!(state.in_flight_request_count(), 2);
}

#[test]
fn pool_data_read_below_the_anchor_is_dropped() {
    let mut state = started();
    let (requests, id) = state.pending_requests.with_new_request(
        GetPoolData { at: hash(99), pools: OrdSet::from_items(vec![pool()]) },
        Tick::initial(),
    );
    state.pending_requests = requests;
    let (state, _) = transition(
        CHAIN,
        state,
        Event::PoolDataReceived {
            request_id: id,
            pools: OrdMap::from_entries(vec![(pool(), Ok(state_of(44)))]),
        },
    );
    assert_eq!(state.finalized_pool_snapshots().get(&pool()), Some(&state_of(1)));
    assert_eq!(state.in_flight_request_count(), 0);
}

#[test]
fn after_a_tick_nothing_is_due() {
    let (mut state, _) = head(started(), 103, 102);
    let mut sent = 0;
    for _ in 0..REQUEST_TTL {
        let (next, effects) = transition(CHAIN, state, Event::Tick);
        sent += effects.len();
        for tick in next.pending_requests.dispatch_ticks() {
            assert!(!next.tick.is_expired_since(tick));
        }
        state = next;
    }
    assert_eq!(sent, 2);
    assert_eq!(state.in_flight_request_count(), 2);
}

#[test]
fn a_header_in_flight_is_not_asked_for_again() {
    let (requests, effects) =
        request_missing_header(PendingRequests::new(), Tick::initial(), hash(7));
    assert_eq!(effects.len(), 1);
    let (requests, again) = request_missing_header(requests, Tick::initial(), hash(7));
    assert!(again.is_empty());
    assert_eq!(requests.len(), 1);
    let Effect::Request(AnyIssuedRequest::BlockHeader(issued)) = &effects[0] else {
        panic!("expected a header request");
    };
    assert_eq!(issued.request_payload, GetBlockHeader { block_hash: hash(7) });
    assert_eq!(issued.request_id, RequestId::from_raw(1));
}

#[test]
fn warm_start_asks_once_for_each_missing_parent() {
    let (state, effects) = State::activate_from_seed(
        hash(100),
        OrdMap::new(),
        TrustedPoolRegistry::new(),
        TokenRegistry::new(),
        vec![
            (hash(111), hash(110), 111, Vec::new()),
            (hash(112), hash(110), 112, Vec::new()),
            (hash(106), hash(105), 106, Vec::new()),
        ],
    );
    let asked: Vec<BlockHash> = effects
        .iter()
        .map(|effect| match effect {
            Effect::Request(AnyIssuedRequest::BlockHeader(issued)) => {
                issued.request_payload.block_hash
            }
            other => panic!("expected a header request, got {other:?}"),
        })
        .collect();
    assert_eq!(asked, vec![hash(105), hash(110)]);
    assert_eq!(state.in_flight_request_count(), 2);
    assert_eq!(state.blocks.graph.observed_head_hash(), hash(100));
}

#[test]
fn warm_start_fetches_no_header_twice_in_later_steps() {
    let (state, _) = State::activate_from_seed(
        hash(100),
        OrdMap::new(),
        TrustedPoolRegistry::new(),
        TokenRegistry::new(),
        vec![
            (hash(111), hash(110), 111, Vec::new()),
            (hash(106), hash(105), 106, Vec::new()),
        ],
    );
    // A head on a pending block of the window: its gap is being fetched already.
    let (state, effects) = head(state, 112, 111);
    assert!(!effects
        .iter()
        .any(|effect| matches!(effect, Effect::Request(AnyIssuedRequest::BlockHeader(_)))));
    // A head over a new gap asks for that gap alone.
    let (state, effects) = head(state, 120, 119);
    let asked: Vec<BlockHash> = effects
        .iter()
        .filter_map(|effect| match effect {
            Effect::Request(AnyIssuedRequest::BlockHeader(issued)) => {
                Some(issued.request_payload.block_hash)
            }
            _ => None,
        })
        .collect();
    assert_eq!(asked, vec![hash(119)]);
    assert_eq!(
        state.pending_requests.pending_header_hashes(),
        OrdSet::from_items(vec![hash(105), hash(110), hash(119)])
    );
}

#[test]
fn finalized_header_is_fetched_once_per_stride() {
    assert_eq!(finalized_refresh_bucket(71, 72, 8), 0);
    assert_eq!(finalized_refresh_bucket(72, 72, 8), 0);
    assert_eq!(finalized_refresh_bucket(79, 72, 8), 0);
    assert_eq!(finalized_refresh_bucket(80, 72, 8), 1);
    assert_eq!(finalized_refresh_bucket(1000, 72, 0), 0);
    // Without a stride only the crossing of the target counts.
    assert!(should_fetch_finalized_header(Some(71), Some(72), 72, 0));
    assert!(!should_fetch_finalized_header(Some(72), Some(500), 72, 0));
}

#[test]
fn an_empty_kernel_has_nothing_in_flight() {
    let state = State::init(hash(1));
    assert_eq!(state.in_flight_request_count(), 0);
    assert_eq!(state.verified_pool_count(), 0);
    assert_eq!(state.blocks_behind(hash(1)), Some(0));
    assert_eq!(state.metadata_catalog().pool_count(), 0);
    let blocks = Blocks::new(hash(1), OrdMap::from_entries(vec![(pool(), state_of(3))]));
    assert_eq!(blocks.finalized_snapshot.len(), 1);
    assert!(blocks.graph.is_empty());
}

#[test]
fn a_candidate_named_by_two_blocks_is_validated_at_the_newest() {
    let other = ProtocolPoolKey::UniswapV3(Address::with_last_byte(77));
    let log = PoolLog { pool: other, log_index: 0, event: swap(0, 1).event };
    let (state, _) = State::activate_from_seed(
        hash(100),
        OrdMap::new(),
        TrustedPoolRegistry::new(),
        TokenRegistry::new(),
        vec![
            (hash(101), hash(100), 101, vec![log]),
            (hash(102), hash(101), 102, vec![log]),
        ],
    );
    let (_, effects) = head(state, 103, 102);
    let validations: Vec<BlockHash> = effects
        .iter()
        .filter_map(|effect| match effect {
            Effect::Request(AnyIssuedRequest::PoolMetadata(issued)) => {
                assert_eq!(issued.request_payload.candidates, OrdSet::from_items(vec![other]));
                Some(issued.request_payload.at)
            }
            _ => None,
        })
        .collect();
    assert_eq!(validations, vec![hash(102)]);
}

#[test]
fn a_cloned_update_holds_the_same_states() {
    let (state, _) = State::activate_from_seed(
        hash(100),
        OrdMap::from_entries(vec![(pool(), state_of(1))]),
        one_verified_pool(),
        TokenRegistry::new(),
        vec![(hash(101), hash(100), 101, vec![swap(0, 8)])],
    );
    let (state, _) = head(state, 102, 101);
    let update = state.optimization_update(CHAIN);
    assert_eq!(update.block_hash, hash(101));
    assert_eq!(update.pool_states, OrdMap::from_entries(vec![(pool(), state_of(8))]));
    assert_eq!(update.clone(), update);
}

#[test]
fn an_update_leaves_out_pools_at_their_finalized_state() {
    let (state, _) = State::activate_from_seed(
        hash(100),
        OrdMap::from_entries(vec![(pool(), state_of(1))]),
        one_verified_pool(),
        TokenRegistry::new(),
        vec![(hash(101), hash(100), 101, vec![swap(0, 1)])],
    );
    let (state, _) = head(state, 102, 101);
    let update = state.optimization_update(CHAIN);
    assert_eq!(update.block_hash, hash(101));
    assert!(update.pool_states.is_empty());
}
