use std::collections::HashSet;

use evm_kernel::ord_map::OrdSet;
use evm_kernel::pending_requests::{
    AnyIssuedRequest, AnyRequestId, GetBlockHeader, GetBlockLogs, GetPoolData, GetPoolMetadata,
    GetTokenMetadata, PendingRequests,
};
use evm_kernel::pool_state::{PoolRef, ProtocolPoolKey};
use evm_kernel::primitives::{Address, BlockHash, ChainKey};
use evm_kernel::request_tracking::RequestId;
use evm_kernel::tick::{Tick, REQUEST_TTL};
use evm_kernel::token_registry::TokenAddress;

fn hash(last_byte: u8) -> BlockHash {
    BlockHash::with_last_byte(last_byte)
}

fn pool(last_byte: u8) -> PoolRef {
    PoolRef::uniswap_v3(Address::with_last_byte(last_byte), ChainKey::Ethereum)
}

fn candidate(last_byte: u8) -> ProtocolPoolKey {
    ProtocolPoolKey::UniswapV3(Address::with_last_byte(last_byte))
}

fn token(last_byte: u8) -> TokenAddress {
    TokenAddress(Address::with_last_byte(last_byte), ChainKey::Ethereum)
}

#[test]
fn has_pending_header_request_tracks_issued_and_taken_headers() {
    let hash = BlockHash::with_last_byte(7);
    let other = BlockHash::with_last_byte(8);

    let (pending, request_id) = PendingRequests::new()
        .with_new_request(GetBlockHeader { block_hash: hash }, Tick::initial());

    assert!(pending.has_pending_header_request(hash));
    assert!(!pending.has_pending_header_request(other));

    let (pending, _) = pending.take(&request_id);
    assert!(!pending.has_pending_header_request(hash));
}

#[test]
fn retaining_block_targets_drops_a_pool_data_seed_for_a_superseded_anchor() {
    let old_anchor = BlockHash::with_last_byte(1);
    let retained_block = BlockHash::with_last_byte(2);
    let pool = PoolRef::uniswap_v3(Address::with_last_byte(4), ChainKey::Ethereum);

    let (pending, seed_id) = PendingRequests::new().with_new_request(
        GetPoolData { at: old_anchor, pools: OrdSet::from_items(vec![pool]) },
        Tick::initial(),
    );
    let (pending, log_id) =
        pending.with_new_request(GetBlockLogs { block_hash: retained_block }, Tick::initial());

    // The re-root keeps `retained_block` as a node but never the old anchor (finalized anchors
    // are not graph nodes), so the seed targeting it is superseded and dropped.
    let pending = pending.retaining_block_targets(&OrdSet::from_items(vec![retained_block]));

    assert!(!pending.contains(&seed_id), "stale-anchor seed must be dropped");
    assert!(pending.contains(&log_id), "a request for a retained block survives");
}

/// One request of each kind.
fn one_of_each(tick: Tick) -> PendingRequests {
    let (pending, _) =
        PendingRequests::new().with_new_request(GetBlockHeader { block_hash: hash(1) }, tick);
    let (pending, _) = pending.with_new_request(GetBlockLogs { block_hash: hash(2) }, tick);
    let (pending, _) = pending.with_new_request(
        GetPoolMetadata { at: hash(3), candidates: OrdSet::from_items(vec![candidate(1)]) },
        tick,
    );
    let (pending, _) = pending.with_new_request(
        GetTokenMetadata { at: hash(4), tokens: OrdSet::from_items(vec![token(2)]) },
        tick,
    );
    let (pending, _) = pending.with_new_request(
        GetPoolData { at: hash(5), pools: OrdSet::from_items(vec![pool(3)]) },
        tick,
    );
    pending
}

#[test]
fn identifiers_count_up_over_all_kinds() {
    let pending = one_of_each(Tick::initial());
    assert_eq!(pending.len(), 5);
    assert_eq!(pending.last_request_id(), 5);
    assert!(pending.contains_any(AnyRequestId::BlockHeader(RequestId::from_raw(1))));
    assert!(pending.contains_any(AnyRequestId::BlockLogs(RequestId::from_raw(2))));
    assert!(pending.contains_any(AnyRequestId::PoolMetadata(RequestId::from_raw(3))));
    assert!(pending.contains_any(AnyRequestId::TokenMetadata(RequestId::from_raw(4))));
    assert!(pending.contains_any(AnyRequestId::PoolData(RequestId::from_raw(5))));
    // The number alone names nothing: the kind belongs to the identifier.
    assert!(!pending.contains_any(AnyRequestId::BlockLogs(RequestId::from_raw(1))));
    assert!(!pending.contains_any(AnyRequestId::BlockHeader(RequestId::from_raw(6))));
}

#[test]
fn what_is_in_flight_is_listed_by_kind() {
    let pending = one_of_each(Tick::initial());
    assert_eq!(pending.pending_header_hashes(), OrdSet::from_items(vec![hash(1)]));
    assert_eq!(pending.pending_block_log_hashes(), OrdSet::from_items(vec![hash(2)]));
    assert_eq!(
        pending.pending_pool_metadata_candidates(),
        OrdSet::from_items(vec![candidate(1)])
    );
    assert_eq!(pending.pending_token_metadata_tokens(), OrdSet::from_items(vec![token(2)]));
    assert_eq!(pending.pending_pool_data_pools(), OrdSet::from_items(vec![pool(3)]));
    assert_eq!(pending.pending_header_request_count(), 1);
    assert!(pending.has_pending_block_backfill());
}

#[test]
fn only_headers_and_logs_are_block_backfill() {
    let (pending, _) = PendingRequests::new().with_new_request(
        GetPoolData { at: hash(5), pools: OrdSet::from_items(vec![pool(3)]) },
        Tick::initial(),
    );
    assert!(!pending.has_pending_block_backfill());
    let (pending, id) =
        pending.with_new_request(GetBlockLogs { block_hash: hash(2) }, Tick::initial());
    assert!(pending.has_pending_block_backfill());
    let (pending, taken) = pending.take(&id);
    assert_eq!(taken.expect("in flight").payload, GetBlockLogs { block_hash: hash(2) });
    assert!(!pending.has_pending_block_backfill());
}

#[test]
fn taking_an_unknown_request_takes_nothing() {
    let pending = one_of_each(Tick::initial());
    let (pending, taken) = pending.take(&RequestId::<GetBlockLogs>::from_raw(1));
    assert!(taken.is_none());
    assert_eq!(pending, one_of_each(Tick::initial()));
}

#[test]
fn expired_requests_are_sent_again_with_what_they_ask_for() {
    let pending = one_of_each(Tick::initial());
    let (pending, sent) = pending.retry_expired(Tick { raw: REQUEST_TTL - 1 });
    assert!(sent.is_empty());

    let now = Tick { raw: REQUEST_TTL };
    let (pending, sent) = pending.retry_expired(now);
    assert_eq!(sent.len(), 5);
    assert_eq!(pending.len(), 5);
    assert_eq!(pending.last_request_id(), 10);
    for tick in pending.dispatch_ticks() {
        assert_eq!(tick, now);
    }
    match &sent[0] {
        AnyIssuedRequest::BlockHeader(issued) => {
            assert_eq!(issued.request_id, RequestId::from_raw(6));
            assert_eq!(issued.request_payload, GetBlockHeader { block_hash: hash(1) });
        }
        other => panic!("expected the header first, got {other:?}"),
    }
    match &sent[4] {
        AnyIssuedRequest::PoolData(issued) => {
            assert_eq!(issued.request_id, RequestId::from_raw(10));
            assert_eq!(issued.request_payload.at, hash(5));
            assert_eq!(issued.request_payload.pools, OrdSet::from_items(vec![pool(3)]));
        }
        other => panic!("expected the pool data last, got {other:?}"),
    }
    let (pending, sent) = pending.retry_expired(now);
    assert!(sent.is_empty());
    assert_eq!(pending.last_request_id(), 10);
}

#[test]
fn retrying_an_unknown_request_changes_nothing() {
    let pending = one_of_each(Tick::initial());
    let unknown = AnyRequestId::PoolData(RequestId::from_raw(1));
    let (pending, sent) = pending.retry(unknown, Tick { raw: 3 });
    assert!(sent.is_none());
    assert_eq!(pending, one_of_each(Tick::initial()));
}

#[test]
fn retaining_keeps_exactly_the_requests_about_kept_blocks() {
    let kept = OrdSet::from_items(vec![hash(1), hash(3)]);
    let pending = one_of_each(Tick::initial()).retaining_block_targets(&kept);
    assert_eq!(pending.len(), 2);
    assert!(pending.contains_any(AnyRequestId::BlockHeader(RequestId::from_raw(1))));
    assert!(pending.contains_any(AnyRequestId::PoolMetadata(RequestId::from_raw(3))));
    assert_eq!(pending.last_request_id(), 5);
}

#[test]
fn identifiers_name_their_kind_and_number() {
    let id = AnyRequestId::BlockHeader(RequestId::from_raw(7));
    assert_eq!(id.label(), "block_header");
    assert_eq!(id.raw(), 7);
    assert_eq!(AnyRequestId::BlockLogs(RequestId::from_raw(1)).label(), "block_logs");
    assert_eq!(AnyRequestId::PoolMetadata(RequestId::from_raw(1)).label(), "pool_metadata");
    assert_eq!(AnyRequestId::TokenMetadata(RequestId::from_raw(1)).label(), "token_metadata");
    assert_eq!(AnyRequestId::PoolData(RequestId::from_raw(1)).label(), "pool_data");
}

#[test]
fn identifiers_of_different_kinds_are_different_keys() {
    let ids: HashSet<AnyRequestId> = HashSet::from([
        AnyRequestId::BlockHeader(RequestId::from_raw(1)),
        AnyRequestId::BlockHeader(RequestId::from_raw(1)),
        AnyRequestId::BlockLogs(RequestId::from_raw(1)),
        AnyRequestId::PoolData(RequestId::from_raw(1)),
        AnyRequestId::PoolData(RequestId::from_raw(2)),
    ]);
    assert_eq!(ids.len(), 4);
    assert!(ids.contains(&AnyRequestId::PoolData(RequestId::from_raw(2))));
    assert!(!ids.contains(&AnyRequestId::TokenMetadata(RequestId::from_raw(1))));
}
