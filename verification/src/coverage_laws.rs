//! What every change makes the kernel ask for, told in terms of the blocks, the stored logs and the
//! registries: nothing that is missing stays unasked, and nothing needless is asked.
use vstd::prelude::*;

use crate::graph_laws::lemma_absent_parents_finite;
use crate::graph_model::{may_touch, named_pools, LogsModel};
use crate::kernel::{Event, FINALIZED_POOL_SEED_CHUNK};
use crate::kernel_laws::{
    law_events_keep_state_valid, lemma_follow_up_of_event, lemma_new_since, valid,
};
use crate::kernel_model::{
    first_of, fresh_batches, named_by, token_sources, tokens_among, Plan, StateModel,
};
use crate::log_laws::{law_candidates_follow_path, law_logs_name_their_pools};
use crate::order::{ascending, lemma_ascending, lemma_no_duplicates, strictly_ascending, Key};
use crate::path_laws::{
    law_missing_parents_are_the_gaps, law_present_chain_is_the_walk, law_unresolved_blocks,
};
use crate::pending_requests::{
    asked_blocks, asked_items, AnyId, Batch, GetBlockLogs, GetPoolMetadata, GetTokenMetadata,
    Issued, Request,
};
use crate::pool_state::{PoolLog, PoolRef, ProtocolPoolKey};
use crate::primitives::{bloom_contains_address, Address, BlockHash, Bloom, ChainKey};
use crate::request_laws::{
    flight, ids_handed_out, lemma_ask_all_adds, lemma_ask_headers_adds, lemma_asked_monotone,
    requests_finite,
};
use crate::request_tracking::next_id;
use crate::schedule_laws::{
    law_follow_up_asks_for_all, lemma_ask_headers_len, lemma_follow_up_steps, nothing_unasked,
    wanted_logs, wanted_pools, wanted_tokens,
};
use crate::tick::Tick;
use crate::token_registry::TokenAddress;
use crate::uniswap_v4::spec_pool_manager_address;

verus! {

/// The event changes what the follow-up looks at.
spec fn followed_up(s: StateModel, event: Event) -> bool {
    match event {
        Event::HeadObserved { hash, parent_hash, .. } => hash != parent_hash,
        Event::BlockHeaderReceived { .. } => true,
        Event::BlockLogsReceived { request_id, .. } => s.requests.logs.contains_key(request_id@),
        Event::LogObserved { block_hash, .. } => s.graph.blocks.contains_key(block_hash),
        Event::PoolMetadataReceived { request_id, .. } => s.requests.pool_metadata.contains_key(
            request_id@,
        ),
        Event::TokenMetadataReceived { request_id, .. } => s.requests.token_metadata.contains_key(
            request_id@,
        ),
        Event::PoolDataReceived { request_id, .. } => s.requests.pool_data.contains_key(
            request_id@,
        ),
        _ => false,
    }
}

// ---- nothing missing stays unasked ----

/// After every event that brings something new, each block that is missing below a pending one is
/// being fetched.
pub proof fn law_gaps_are_being_fetched(
    s: StateModel,
    chain: ChainKey,
    event: Event,
    h: BlockHash,
)
    requires
        valid(s),
        ids_handed_out(s.requests),
        s.requests.last_id + s.after(chain, event).1.len() <= u64::MAX,
        match event {
            Event::HeadObserved { hash, parent_hash, .. } => hash != parent_hash,
            Event::BlockHeaderReceived { .. } => true,
            Event::BlockLogsReceived { request_id, .. } => s.requests.logs.contains_key(
                request_id@,
            ),
            Event::LogObserved { block_hash, .. } => s.graph.blocks.contains_key(block_hash),
            Event::PoolMetadataReceived { request_id, .. } => s.requests.pool_metadata.contains_key(
                request_id@,
            ),
            Event::TokenMetadataReceived { request_id, .. } => {
                s.requests.token_metadata.contains_key(request_id@)
            },
            Event::PoolDataReceived { request_id, .. } => s.requests.pool_data.contains_key(
                request_id@,
            ),
            _ => false,
        },
        ({
            let g = s.after(chain, event).0.graph;
            &&& g.blocks.contains_key(h)
            &&& !g.blocks[h].connected
            &&& g.blocks[h].parent != g.anchor
            &&& !g.blocks.contains_key(g.blocks[h].parent)
        }),
    ensures
        ({
            let t = s.after(chain, event).0;
            exists|id: u64| #[trigger]
                t.requests.headers.contains_key(id) && t.requests.headers[id].payload
                    == t.graph.blocks[h].parent
        }),
{
    assert(followed_up(s, event));
    let t = s.after(chain, event).0;
    let p = t.graph.blocks[h].parent;
    lemma_all_asked(s, chain, event);
    law_missing_parents_are_the_gaps(t.graph, p);
    assert(t.graph.absent_parents().contains(p));
    assert(asked_blocks(t.requests.headers).contains(p));
}

/// The header of a head that names itself as its parent is fetched, once; nothing else is asked.
pub proof fn law_self_parent_is_fetched(
    s: StateModel,
    chain: ChainKey,
    hash: BlockHash,
    logs_bloom: Bloom,
    number: u64,
)
    requires
        ids_handed_out(s.requests),
        s.requests.last_id < u64::MAX,
    ensures
        ({
            let (t, sent) = s.after(
                chain,
                Event::HeadObserved { hash, parent_hash: hash, logs_bloom, number },
            );
            let asked = exists|id: u64| #[trigger]
                s.requests.headers.contains_key(id) && s.requests.headers[id].payload == hash;
            &&& asked ==> sent.len() == 0 && t.requests == s.requests
            &&& !asked ==> sent == seq![
                Issued::BlockHeader((s.requests.last_id + 1) as u64, hash),
            ]
        }),
{
    let (t, sent) = s.after(
        chain,
        Event::HeadObserved { hash, parent_hash: hash, logs_bloom, number },
    );
    if !asked_blocks(s.requests.headers).contains(hash) {
        assert(sent =~= seq![Issued::BlockHeader((s.requests.last_id + 1) as u64, hash)]);
    }
}

/// After every event that brings something new, of each block on the walk down from the head: its
/// logs are authoritative, or being fetched, or its bloom rules out the verified v3 pools and the v4
/// manager, which it only can once a v3 pool is verified. And each pool, of either protocol, that a
/// stored log of the block names is verified, rejected, or being validated, and each token of it, when
/// it is verified, is native, verified, unsupported, or being asked about.
pub proof fn law_present_chain_is_asked_about(
    s: StateModel,
    chain: ChainKey,
    event: Event,
    path: Seq<BlockHash>,
    i: int,
    j: u64,
)
    requires
        valid(s),
        ids_handed_out(s.requests),
        s.requests.last_id + s.after(chain, event).1.len() <= u64::MAX,
        match event {
            Event::HeadObserved { hash, parent_hash, .. } => hash != parent_hash,
            Event::BlockHeaderReceived { .. } => true,
            Event::BlockLogsReceived { request_id, .. } => s.requests.logs.contains_key(
                request_id@,
            ),
            Event::LogObserved { block_hash, .. } => s.graph.blocks.contains_key(block_hash),
            Event::PoolMetadataReceived { request_id, .. } => s.requests.pool_metadata.contains_key(
                request_id@,
            ),
            Event::TokenMetadataReceived { request_id, .. } => {
                s.requests.token_metadata.contains_key(request_id@)
            },
            Event::PoolDataReceived { request_id, .. } => s.requests.pool_data.contains_key(
                request_id@,
            ),
            _ => false,
        },
        ({
            let g = s.after(chain, event).0.graph;
            &&& 0 <= i < path.len()
            &&& path[0] == g.head
            &&& forall|n: int| 0 <= n < path.len() ==> g.blocks.contains_key(#[trigger] path[n])
            &&& forall|n: int|
                0 <= n < path.len() - 1 ==> g.blocks[#[trigger] path[n]].parent == path[n + 1]
            &&& g.blocks[path.last()].parent == g.anchor || !g.blocks.contains_key(
                g.blocks[path.last()].parent,
            )
        }),
    ensures
        ({
            let t = s.after(chain, event).0;
            let data = t.graph.blocks[path[i]].data;
            let logs = match data.logs {
                LogsModel::Unknown => Map::<u64, PoolLog>::empty(),
                LogsModel::Streamed(m) => m,
                LogsModel::Complete(m) => m,
            };
            let k = logs[j].pool;
            let here = PoolRef { key: k, chain };
            let known_token = |a: Address|
                {
                    let token = TokenAddress(a, chain);
                    ||| a.hi == 0 && a.lo == 0
                    ||| t.tokens.verified.contains_key(token)
                    ||| t.tokens.unsupported.contains(token)
                    ||| exists|id: u64| #[trigger]
                        t.requests.token_metadata.contains_key(id)
                            && t.requests.token_metadata[id].payload.items.contains(token)
                };
            &&& {
                ||| data.logs is Complete
                ||| exists|id: u64| #[trigger]
                    t.requests.logs.contains_key(id) && t.requests.logs[id].payload == path[i]
                ||| {
                    &&& exists|a: Address|
                        t.pools.verified.contains_key(
                            #[trigger] v3_pool(a, chain),
                        )
                    &&& data.bloom is Some
                    &&& forall|a: Address|
                        t.pools.verified.contains_key(#[trigger] v3_pool(a, chain))
                            ==> !bloom_contains_address(data.bloom->0, a.hi, a.lo)
                    &&& spec_pool_manager_address(chain) matches Some(a)
                        ==> !bloom_contains_address(data.bloom->0, a.hi, a.lo)
                }
            }
            &&& logs.contains_key(j) ==> {
                ||| t.pools.verified.contains_key(here)
                ||| t.pools.rejected.contains(k)
                ||| exists|id: u64| #[trigger]
                    t.requests.pool_metadata.contains_key(id)
                        && t.requests.pool_metadata[id].payload.items.contains(k)
            }
            &&& logs.contains_key(j) && t.pools.verified.contains_key(here) ==> known_token(
                t.pools.verified[here].token0,
            ) && known_token(t.pools.verified[here].token1)
        }),
{
    assert(followed_up(s, event));
    let t = s.after(chain, event).0;
    let g = t.graph;
    let h = path[i];
    let data = g.blocks[h].data;
    law_events_keep_state_valid(s, chain, event);
    lemma_all_asked(s, chain, event);
    law_present_chain_is_the_walk(g, path);
    // Logs.
    let gate = t.log_gate(chain);
    law_unresolved_blocks(g, gate, Set::empty(), h);
    if g.unresolved(gate, Set::empty()).contains(h) {
        assert(asked_blocks(t.requests.logs).contains(h));
    } else if !(data.logs is Complete) {
        assert(path.contains(h));
        assert(gate is Some && !gate->0.contains(h));
        lemma_gate(t, chain, h);
    }
    // Pools.
    let logs = match data.logs {
        LogsModel::Unknown => Map::<u64, PoolLog>::empty(),
        LogsModel::Streamed(m) => m,
        LogsModel::Complete(m) => m,
    };
    if logs.contains_key(j) {
        let k = logs[j].pool;
        law_logs_name_their_pools(data.logs, k);
        assert(named_pools(data.logs).contains(k)) by {
            assert(logs.contains_key(j) && logs[j].pool == k);
        }
        law_candidates_follow_path(g, path);
        let c = choose|c: int|
            0 <= c < g.candidates_along(path).len() && (#[trigger] g.candidates_along(path)[c]).0
                == path[i] && g.candidates_along(path)[c].1 == named_pools(
                g.blocks[path[i]].data.logs,
            );
        assert(g.candidates()[c].1.contains(k));
        assert(t.settled_pools(chain, t.requests).contains(k));
        if asked_items(t.requests.pool_metadata).contains(k) {
            let id = choose|id: u64| #[trigger]
                t.requests.pool_metadata.contains_key(id)
                    && t.requests.pool_metadata[id].payload.items.contains(k);
            assert(t.requests.pool_metadata.contains_key(id));
        }
        let here = PoolRef { key: k, chain };
        if t.pools.verified.contains_key(here) {
            let among = tokens_among(t.pools, chain, g.candidates()[c].1);
            let m = t.pools.verified[here];
            assert(g.candidates()[c].1.contains(k) && t.pools.is_verified(chain, k));
            assert(among.contains(TokenAddress(m.token0, chain)));
            assert(among.contains(TokenAddress(m.token1, chain)));
            assert(t.settled_tokens(t.requests).contains(TokenAddress(m.token0, chain)));
            assert(t.settled_tokens(t.requests).contains(TokenAddress(m.token1, chain)));
        }
    }
}

/// The v3 pool with a contract.
pub open spec fn v3_pool(a: Address, chain: ChainKey) -> PoolRef {
    PoolRef { key: ProtocolPoolKey::UniswapV3(a), chain }
}

proof fn lemma_gate(t: StateModel, chain: ChainKey, h: BlockHash)
    requires
        t.graph.blocks.contains_key(h),
        t.log_gate(chain) is Some,
    ensures
        exists|a: Address| t.pools.verified.contains_key(#[trigger] v3_pool(a, chain)),
        ({
            let bloom = t.graph.blocks[h].data.bloom;
            t.log_gate(chain)->0.contains(h) <==> {
                ||| bloom is None
                ||| exists|a: Address|
                    t.pools.verified.contains_key(#[trigger] v3_pool(a, chain))
                        && bloom_contains_address(bloom->0, a.hi, a.lo)
                ||| spec_pool_manager_address(chain) is Some && bloom_contains_address(
                    bloom->0,
                    spec_pool_manager_address(chain)->0.hi,
                    spec_pool_manager_address(chain)->0.lo,
                )
            }
        }),
{
    let v3 = t.pools.addresses_on(chain);
    let trusted = t.trusted_addresses(chain);
    let bloom = t.graph.blocks[h].data.bloom;
    if forall|a: Address| !v3.contains(a) {
        assert(v3 =~= Set::empty());
    }
    let some = choose|a: Address| v3.contains(a);
    assert(t.pools.verified.contains_key(v3_pool(some, chain)));
    assert(trusted.contains(some));
    assert(trusted != Set::<Address>::empty());
    if bloom is Some {
        if may_touch(bloom, trusted) {
            let a = choose|a: Address| #[trigger]
                trusted.contains(a) && bloom_contains_address(bloom->0, a.hi, a.lo);
            if v3.contains(a) {
                assert(t.pools.verified.contains_key(v3_pool(a, chain)));
            }
        }
        if exists|a: Address|
            t.pools.verified.contains_key(#[trigger] v3_pool(a, chain)) && bloom_contains_address(
                bloom->0,
                a.hi,
                a.lo,
            ) {
            let a = choose|a: Address|
                t.pools.verified.contains_key(#[trigger] v3_pool(a, chain))
                    && bloom_contains_address(bloom->0, a.hi, a.lo);
            assert(v3.contains(a));
            assert(trusted.contains(a));
        }
        if spec_pool_manager_address(chain) is Some {
            assert(trusted.contains(spec_pool_manager_address(chain)->0));
        }
    }
}

proof fn lemma_all_asked(s: StateModel, chain: ChainKey, event: Event)
    requires
        valid(s),
        ids_handed_out(s.requests),
        s.requests.last_id + s.after(chain, event).1.len() <= u64::MAX,
        followed_up(s, event),
    ensures
        nothing_unasked(s.after(chain, event).0, chain),
{
    let (e, sent) = lemma_follow_up_of_event(s, chain, event);
    law_events_keep_state_valid(s, chain, event);
    law_follow_up_asks_for_all(e, chain, sent);
}

// ---- nothing needless is asked ----

/// Headers are asked for once each, and none that is being fetched.
proof fn lemma_headers_sent(plan: Plan, hashes: Seq<BlockHash>, now: Tick)
    requires
        ids_handed_out(plan.requests),
        plan.requests.last_id + plan.ask_headers(hashes, now).sent.len() - plan.sent.len()
            <= u64::MAX,
    ensures
        forall|i: int|
            plan.sent.len() <= i < plan.ask_headers(hashes, now).sent.len() ==> {
                &&& (#[trigger] plan.ask_headers(hashes, now).sent[i]) is BlockHeader
                &&& hashes.contains(plan.ask_headers(hashes, now).sent[i]->BlockHeader_1)
                &&& !asked_blocks(plan.requests.headers).contains(
                    plan.ask_headers(hashes, now).sent[i]->BlockHeader_1,
                )
            },
    decreases hashes.len(),
{
    if hashes.len() > 0 {
        let shorter = hashes.drop_last();
        let before = plan.ask_headers(shorter, now);
        let after = plan.ask_headers(hashes, now);
        lemma_ask_headers_len(plan, shorter, now);
        lemma_headers_sent(plan, shorter, now);
        lemma_ask_headers_adds(plan, shorter, now);
        lemma_asked_monotone(plan.requests, before.requests);
        assert forall|i: int| plan.sent.len() <= i < after.sent.len() implies {
            &&& (#[trigger] after.sent[i]) is BlockHeader
            &&& hashes.contains(after.sent[i]->BlockHeader_1)
            &&& !asked_blocks(plan.requests.headers).contains(after.sent[i]->BlockHeader_1)
        } by {
            if i < before.sent.len() {
                assert(after.sent[i] == before.sent[i]);
                let h = before.sent[i]->BlockHeader_1;
                let n = choose|n: int| 0 <= n < shorter.len() && shorter[n] == h;
                assert(hashes[n] == h);
            } else {
                assert(hashes[hashes.len() - 1] == hashes.last());
            }
        }
    }
}

/// A batch is what its source names, is not settled, and no earlier source names.
proof fn lemma_batch_source<K>(
    sources: Seq<(BlockHash, Set<K>)>,
    settled: Set<K>,
    b: int,
) -> (c: int)
    requires
        0 <= b < fresh_batches(sources, settled).len(),
    ensures
        0 <= c < sources.len(),
        fresh_batches(sources, settled)[b].at == sources[c].0,
        forall|k: K| #[trigger]
            fresh_batches(sources, settled)[b].items.contains(k) <==> sources[c].1.contains(k)
                && !settled.contains(k) && forall|d: int|
                0 <= d < c ==> !(#[trigger] sources[d]).1.contains(k),
        exists|k: K| fresh_batches(sources, settled)[b].items.contains(k),
    decreases sources.len(),
{
    let shorter = sources.drop_last();
    let before = fresh_batches(shorter, settled);
    let all = fresh_batches(sources, settled);
    if b < before.len() {
        let c = lemma_batch_source(shorter, settled, b);
        assert(all[b] == before[b]);
        assert forall|k: K| #[trigger]
            all[b].items.contains(k) <==> sources[c].1.contains(k) && !settled.contains(k)
                && forall|d: int| 0 <= d < c ==> !(#[trigger] sources[d]).1.contains(k) by {
            assert(before[b].items.contains(k) <==> shorter[c].1.contains(k) && !settled.contains(k)
                && forall|d: int| 0 <= d < c ==> !(#[trigger] shorter[d]).1.contains(k));
            assert(shorter[c] == sources[c]);
            if forall|d: int| 0 <= d < c ==> !(#[trigger] shorter[d]).1.contains(k) {
                assert forall|d: int| 0 <= d < c implies !(#[trigger] sources[d]).1.contains(k) by {
                    assert(shorter[d] == sources[d]);
                }
            }
            if forall|d: int| 0 <= d < c ==> !(#[trigger] sources[d]).1.contains(k) {
                assert forall|d: int| 0 <= d < c implies !(#[trigger] shorter[d]).1.contains(k) by {
                    assert(shorter[d] == sources[d]);
                }
            }
        }
        c
    } else {
        let c = sources.len() - 1;
        let items = sources.last().1.difference(settled).difference(named_by(shorter));
        assert(all[b].items == items);
        assert forall|k: K| #[trigger]
            all[b].items.contains(k) <==> sources[c].1.contains(k) && !settled.contains(k)
                && forall|d: int| 0 <= d < c ==> !(#[trigger] sources[d]).1.contains(k) by {
            if named_by(shorter).contains(k) {
                let d = choose|d: int|
                    0 <= d < shorter.len() && (#[trigger] shorter[d]).1.contains(k);
                assert(sources[d].1.contains(k));
            }
            if exists|d: int| 0 <= d < c && (#[trigger] sources[d]).1.contains(k) {
                let d = choose|d: int| 0 <= d < c && (#[trigger] sources[d]).1.contains(k);
                assert(shorter[d].1.contains(k));
            }
        }
        if forall|k: K| !items.contains(k) {
            assert(items =~= Set::empty());
        }
        c
    }
}

/// Whatever the follow-up adds is needed and new. A header: of the absent parent of a pending block.
/// Logs: of a block on the walk down from the head that lacks authoritative ones and whose bloom does
/// not rule the chain's pools out. A validation: of pools that stored logs of its block name and no
/// newer block does, neither verified nor rejected. Token metadata: of the tokens of verified pools so
/// named, neither native nor settled. None of it is being asked for already, and headers come first,
/// pool states last.
pub proof fn law_follow_up_asks_for_nothing_else(
    s: StateModel,
    chain: ChainKey,
    sent: Seq<Issued>,
    path: Seq<BlockHash>,
    i: int,
)
    requires
        s.graph.wf(),
        ids_handed_out(s.requests),
        s.requests.last_id + s.scheduled(chain, sent).1.len() - sent.len() <= u64::MAX,
        sent.len() <= i < s.scheduled(chain, sent).1.len(),
        path.len() > 0,
        path[0] == s.graph.head,
        forall|n: int| 0 <= n < path.len() ==> s.graph.blocks.contains_key(#[trigger] path[n]),
        forall|n: int|
            0 <= n < path.len() - 1 ==> s.graph.blocks[#[trigger] path[n]].parent == path[n + 1],
        s.graph.blocks[path.last()].parent == s.graph.anchor || !s.graph.blocks.contains_key(
            s.graph.blocks[path.last()].parent,
        ),
    ensures
        match s.scheduled(chain, sent).1[i] {
            Issued::BlockHeader(_, h) => {
                &&& h != s.graph.anchor
                &&& !s.graph.blocks.contains_key(h)
                &&& exists|x: BlockHash|
                    s.graph.blocks.contains_key(x) && !s.graph.blocks[x].connected && (
                    #[trigger] s.graph.blocks[x]).parent == h
                &&& forall|id: u64|
                    s.requests.headers.contains_key(id) ==> (
                    #[trigger] s.requests.headers[id]).payload != h
            },
            Issued::BlockLogs(_, h) => {
                let bloom = s.graph.blocks[h].data.bloom;
                &&& path.contains(h)
                &&& !(s.graph.blocks[h].data.logs is Complete)
                &&& forall|id: u64|
                    s.requests.logs.contains_key(id) ==> (
                    #[trigger] s.requests.logs[id]).payload != h
                &&& {
                    ||| forall|a: Address|
                        !s.pools.verified.contains_key(#[trigger] v3_pool(a, chain))
                    ||| bloom is None
                    ||| exists|a: Address|
                        s.pools.verified.contains_key(#[trigger] v3_pool(a, chain))
                            && bloom_contains_address(bloom->0, a.hi, a.lo)
                    ||| spec_pool_manager_address(chain) is Some && bloom_contains_address(
                        bloom->0,
                        spec_pool_manager_address(chain)->0.hi,
                        spec_pool_manager_address(chain)->0.lo,
                    )
                }
            },
            Issued::PoolMetadata(_, b) => {
                &&& exists|k: ProtocolPoolKey| b.items.contains(k)
                &&& forall|k: ProtocolPoolKey| #[trigger]
                    b.items.contains(k) ==> {
                        &&& !s.pools.verified.contains_key(PoolRef { key: k, chain })
                        &&& !s.pools.rejected.contains(k)
                        &&& forall|id: u64|
                            s.requests.pool_metadata.contains_key(id) ==> !(
                            #[trigger] s.requests.pool_metadata[id]).payload.items.contains(k)
                    }
                &&& exists|c: int|
                    0 <= c < path.len() && #[trigger] path[c] == b.at && forall|
                        k: ProtocolPoolKey,
                    | #[trigger]
                        b.items.contains(k) ==> named_pools(
                            s.graph.blocks[path[c]].data.logs,
                        ).contains(k) && forall|d: int|
                            0 <= d < c ==> !named_pools(
                                s.graph.blocks[#[trigger] path[d]].data.logs,
                            ).contains(k)
            },
            Issued::TokenMetadata(_, b) => {
                &&& exists|t: TokenAddress| b.items.contains(t)
                &&& exists|c: int|
                    0 <= c < path.len() && #[trigger] path[c] == b.at && forall|
                        t: TokenAddress,
                        d: int,
                    |
                        #![trigger b.items.contains(t), path[d]]
                        b.items.contains(t) && 0 <= d < c ==> !tokens_among(
                            s.pools,
                            chain,
                            named_pools(s.graph.blocks[path[d]].data.logs),
                        ).contains(t)
                &&& forall|t: TokenAddress| #[trigger]
                    b.items.contains(t) ==> {
                        &&& t.1 == chain
                        &&& t.0.hi != 0 || t.0.lo != 0
                        &&& !s.tokens.verified.contains_key(t)
                        &&& !s.tokens.unsupported.contains(t)
                        &&& forall|id: u64|
                            s.requests.token_metadata.contains_key(id) ==> !(
                            #[trigger] s.requests.token_metadata[id]).payload.items.contains(t)
                        &&& exists|k: ProtocolPoolKey|
                            {
                                let here = PoolRef { key: k, chain };
                                &&& #[trigger] named_pools(
                                    s.graph.blocks[b.at].data.logs,
                                ).contains(k)
                                &&& s.pools.verified.contains_key(here)
                                &&& s.pools.verified[here].token0 == t.0
                                    || s.pools.verified[here].token1 == t.0
                            }
                    }
            },
            Issued::PoolData(_, b) => b.at == s.graph.anchor && i == s.scheduled(
                chain,
                sent,
            ).1.len() - 1,
        },
        i > sent.len() ==> kind(s.scheduled(chain, sent).1[i - 1]) <= kind(
            s.scheduled(chain, sent).1[i],
        ),
{
    let g = s.graph;
    let p0 = Plan { requests: s.requests, sent };
    let p1 = s.header_plan(p0);
    let p2 = s.log_plan(chain, p1);
    let p3 = s.pool_plan(chain, p2);
    let p4 = s.token_plan(chain, p3);
    let p5 = s.seed_plan(chain, p4);
    let missing = ascending(g.absent_parents());
    lemma_follow_up_steps(s, chain, p0);
    lemma_asked_monotone(p0.requests, p1.requests);
    lemma_asked_monotone(p1.requests, p2.requests);
    lemma_asked_monotone(p2.requests, p3.requests);
    lemma_absent_parents_finite(g);
    lemma_ascending(g.absent_parents());
    law_present_chain_is_the_walk(g, path);
    law_candidates_follow_path(g, path);
    lemma_headers_sent(p0, missing, s.tick);
    lemma_ask_all_adds::<GetBlockLogs>(p1, wanted_logs(s, chain, p1), s.tick);
    lemma_ask_all_adds::<GetPoolMetadata>(p2, wanted_pools(s, chain, p2), s.tick);
    lemma_ask_all_adds::<GetTokenMetadata>(p3, wanted_tokens(s, chain, p3), s.tick);
    lemma_kinds(s, chain, p0, i);
    if i > sent.len() {
        lemma_kinds(s, chain, p0, i - 1);
    }
    let x = p5.sent[i];
    if i < p1.sent.len() {
        assert(x == p1.sent[i]);
        let h = x->BlockHeader_1;
        assert(missing.contains(h));
        assert(g.absent_parents().contains(h));
        law_missing_parents_are_the_gaps(g, h);
        assert forall|id: u64| s.requests.headers.contains_key(id) implies (
        #[trigger] s.requests.headers[id]).payload != h by {
            assert(!asked_blocks(s.requests.headers).contains(h));
        }
    } else if i < p2.sent.len() {
        let n = i - p1.sent.len();
        let wanted = wanted_logs(s, chain, p1);
        assert(p2.sent[p1.sent.len() + n] == GetBlockLogs::issued(
            (p1.requests.last_id + 1 + n) as u64,
            wanted[n],
        ));
        assert(x == p2.sent[i]);
        let h = wanted[n];
        assert(wanted.contains(h));
        let gate = s.log_gate(chain);
        law_unresolved_blocks(g, gate, asked_blocks(p1.requests.logs), h);
        assert forall|id: u64| s.requests.logs.contains_key(id) implies (
        #[trigger] s.requests.logs[id]).payload != h by {
            if s.requests.logs[id].payload == h {
                assert(asked_blocks(s.requests.logs).contains(h));
            }
        }
        let at = choose|at: int| 0 <= at < path.len() && path[at] == h;
        assert(g.blocks.contains_key(path[at]));
        if gate is Some {
            lemma_gate(s, chain, h);
        } else {
            assert forall|a: Address|
                !s.pools.verified.contains_key(#[trigger] v3_pool(a, chain)) by {
                assert(!s.pools.addresses_on(chain).contains(a));
            }
        }
    } else if i < p3.sent.len() {
        let n = i - p2.sent.len();
        let wanted = wanted_pools(s, chain, p2);
        let settled = s.settled_pools(chain, p2.requests);
        assert(p3.sent[p2.sent.len() + n] == GetPoolMetadata::issued(
            (p2.requests.last_id + 1 + n) as u64,
            wanted[n],
        ));
        assert(x == p3.sent[i]);
        let b = wanted[n];
        let sources = g.candidates();
        let c = lemma_batch_source(sources, settled, n);
        assert forall|k: ProtocolPoolKey| #[trigger] b.items.contains(k) implies {
            &&& !s.pools.verified.contains_key(PoolRef { key: k, chain })
            &&& !s.pools.rejected.contains(k)
            &&& forall|id: u64|
                s.requests.pool_metadata.contains_key(id) ==> !(
                #[trigger] s.requests.pool_metadata[id]).payload.items.contains(k)
        } by {
            assert(!settled.contains(k));
            assert forall|id: u64| s.requests.pool_metadata.contains_key(id) implies !(
            #[trigger] s.requests.pool_metadata[id]).payload.items.contains(k) by {
                if s.requests.pool_metadata[id].payload.items.contains(k) {
                    assert(asked_items(s.requests.pool_metadata).contains(k));
                }
            }
        }
        assert(path.contains(sources[c].0));
        let at = choose|at: int| 0 <= at < path.len() && path[at] == sources[c].0;
        assert forall|k: ProtocolPoolKey| #[trigger]
            b.items.contains(k) implies named_pools(
            g.blocks[path[at]].data.logs,
        ).contains(k) && forall|d: int|
            0 <= d < at ==> !named_pools(
                g.blocks[#[trigger] path[d]].data.logs,
            ).contains(k) by {
            assert(sources[c].1.contains(k));
            assert forall|d: int| 0 <= d < at implies !named_pools(
                g.blocks[#[trigger] path[d]].data.logs,
            ).contains(k) by {
                if named_pools(g.blocks[path[d]].data.logs).contains(k) {
                    let e = choose|e: int|
                        0 <= e < sources.len() && (#[trigger] sources[e]).0 == path[d]
                            && sources[e].1 == named_pools(
                            g.blocks[path[d]].data.logs,
                        );
                    assert(sources[e].1.contains(k));
                    assert(!(e < c));
                    assert(e != c);
                    let (u, v) = choose|u: int, v: int|
                        0 <= u < v < path.len() && #[trigger] path[u] == sources[c].0
                            && #[trigger] path[v] == sources[e].0;
                    assert(path[u] == path[at] && path[v] == path[d]);
                }
            }
        }
        assert(path[at] == b.at);
    } else if i < p4.sent.len() {
        let n = i - p3.sent.len();
        let wanted = wanted_tokens(s, chain, p3);
        let settled = s.settled_tokens(p3.requests);
        assert(p4.sent[p3.sent.len() + n] == GetTokenMetadata::issued(
            (p3.requests.last_id + 1 + n) as u64,
            wanted[n],
        ));
        assert(x == p4.sent[i]);
        let b = wanted[n];
        let sources = token_sources(s.pools, chain, g.candidates());
        let c = lemma_batch_source(sources, settled, n);
        let cands = g.candidates();
        assert(path.contains(cands[c].0));
        let at = choose|at: int| 0 <= at < path.len() && path[at] == cands[c].0;
        assert forall|t: TokenAddress, d: int|
            #![trigger b.items.contains(t), path[d]]
            b.items.contains(t) && 0 <= d < at implies !tokens_among(
            s.pools,
            chain,
            named_pools(g.blocks[path[d]].data.logs),
        ).contains(t) by {
            let named = named_pools(g.blocks[path[d]].data.logs);
            if tokens_among(s.pools, chain, named).contains(t) {
                let k = choose|k: ProtocolPoolKey| #[trigger]
                    named.contains(k) && s.pools.is_verified(chain, k) && ({
                        let m = s.pools.verified[PoolRef { key: k, chain }];
                        m.token0 == t.0 || m.token1 == t.0
                    });
                assert(named_pools(g.blocks[path[d]].data.logs).contains(k));
                let e = choose|e: int|
                    0 <= e < cands.len() && (#[trigger] cands[e]).0 == path[d] && cands[e].1
                        == named_pools(g.blocks[path[d]].data.logs);
                assert(sources[e].1.contains(t));
                assert(!(e < c));
                assert(e != c);
                let (u, v) = choose|u: int, v: int|
                    0 <= u < v < path.len() && #[trigger] path[u] == cands[c].0 && #[trigger] path[v]
                        == cands[e].0;
                assert(path[u] == path[at] && path[v] == path[d]);
            }
        }
        assert(path[at] == b.at);
        assert forall|t: TokenAddress| #[trigger] b.items.contains(t) implies {
            &&& t.1 == chain
            &&& t.0.hi != 0 || t.0.lo != 0
            &&& !s.tokens.verified.contains_key(t)
            &&& !s.tokens.unsupported.contains(t)
            &&& forall|id: u64|
                s.requests.token_metadata.contains_key(id) ==> !(
                #[trigger] s.requests.token_metadata[id]).payload.items.contains(t)
            &&& exists|k: ProtocolPoolKey|
                {
                    let here = PoolRef { key: k, chain };
                    &&& #[trigger] named_pools(
                        g.blocks[b.at].data.logs,
                    ).contains(k)
                    &&& s.pools.verified.contains_key(here)
                    &&& s.pools.verified[here].token0 == t.0 || s.pools.verified[here].token1
                        == t.0
                }
        } by {
            assert(!settled.contains(t));
            assert forall|id: u64| s.requests.token_metadata.contains_key(id) implies !(
            #[trigger] s.requests.token_metadata[id]).payload.items.contains(t) by {
                if s.requests.token_metadata[id].payload.items.contains(t) {
                    assert(asked_items(s.requests.token_metadata).contains(t));
                }
            }
            assert(sources[c].1.contains(t));
            let k = choose|k: ProtocolPoolKey| #[trigger]
                g.candidates()[c].1.contains(k) && s.pools.is_verified(chain, k) && ({
                    let m = s.pools.verified[PoolRef { key: k, chain }];
                    m.token0 == t.0 || m.token1 == t.0
                });
            assert(named_pools(g.blocks[b.at].data.logs).contains(k));
        }
    }
}

/// Headers, logs, pools, tokens, states: the order of the follow-up.
pub open spec fn kind(issued: Issued) -> int {
    match issued {
        Issued::BlockHeader(_, _) => 0,
        Issued::BlockLogs(_, _) => 1,
        Issued::PoolMetadata(_, _) => 2,
        Issued::TokenMetadata(_, _) => 3,
        Issued::PoolData(_, _) => 4,
    }
}

proof fn lemma_kinds(s: StateModel, chain: ChainKey, p0: Plan, i: int)
    requires
        s.graph.wf(),
        ids_handed_out(p0.requests),
        p0.requests == s.requests,
        p0.requests.last_id + s.scheduled(chain, p0.sent).1.len() - p0.sent.len() <= u64::MAX,
        p0.sent.len() <= i < s.scheduled(chain, p0.sent).1.len(),
    ensures
        ({
            let p1 = s.header_plan(p0);
            let p2 = s.log_plan(chain, p1);
            let p3 = s.pool_plan(chain, p2);
            let p4 = s.token_plan(chain, p3);
            let p5 = s.seed_plan(chain, p4);
            let x = p5.sent[i];
            &&& s.scheduled(chain, p0.sent).1 == p5.sent
            &&& x is BlockHeader <==> i < p1.sent.len()
            &&& x is BlockLogs <==> p1.sent.len() <= i < p2.sent.len()
            &&& x is PoolMetadata <==> p2.sent.len() <= i < p3.sent.len()
            &&& x is TokenMetadata <==> p3.sent.len() <= i < p4.sent.len()
            &&& x is PoolData <==> p4.sent.len() <= i
            &&& p4.sent.len() <= i ==> i == p5.sent.len() - 1 && x->PoolData_1.at == s.graph.anchor
            &&& p0.sent.len() <= p1.sent.len() <= p2.sent.len() <= p3.sent.len() <= p4.sent.len()
        }),
{
    let p1 = s.header_plan(p0);
    let p2 = s.log_plan(chain, p1);
    let p3 = s.pool_plan(chain, p2);
    let p4 = s.token_plan(chain, p3);
    let p5 = s.seed_plan(chain, p4);
    lemma_follow_up_steps(s, chain, p0);
    lemma_headers_sent(p0, ascending(s.graph.absent_parents()), s.tick);
    lemma_ask_all_adds::<GetBlockLogs>(p1, wanted_logs(s, chain, p1), s.tick);
    lemma_ask_all_adds::<GetPoolMetadata>(p2, wanted_pools(s, chain, p2), s.tick);
    lemma_ask_all_adds::<GetTokenMetadata>(p3, wanted_tokens(s, chain, p3), s.tick);
    if i < p1.sent.len() {
        assert(p5.sent[i] == p1.sent[i]);
    } else if i < p2.sent.len() {
        let n = i - p1.sent.len();
        assert(p2.sent[p1.sent.len() + n] == GetBlockLogs::issued(
            (p1.requests.last_id + 1 + n) as u64,
            wanted_logs(s, chain, p1)[n],
        ));
        assert(p5.sent[i] == p2.sent[i]);
    } else if i < p3.sent.len() {
        let n = i - p2.sent.len();
        assert(p3.sent[p2.sent.len() + n] == GetPoolMetadata::issued(
            (p2.requests.last_id + 1 + n) as u64,
            wanted_pools(s, chain, p2)[n],
        ));
        assert(p5.sent[i] == p3.sent[i]);
    } else if i < p4.sent.len() {
        let n = i - p3.sent.len();
        assert(p4.sent[p3.sent.len() + n] == GetTokenMetadata::issued(
            (p3.requests.last_id + 1 + n) as u64,
            wanted_tokens(s, chain, p3)[n],
        ));
        assert(p5.sent[i] == p4.sent[i]);
    }
}

// ---- pool states at the anchor ----

/// After every event that brings something new, and while no header and no logs are being fetched:
/// either each verified pool of the chain, of either protocol, has a state at the anchor or is being
/// read, or one more batch is read now, at the anchor: at most a hundred verified pools without a
/// state and not being read otherwise, the first in order, and a full hundred when any is left over.
/// While headers or logs are being fetched none is read.
pub proof fn law_uncovered_pools_are_read(
    s: StateModel,
    chain: ChainKey,
    event: Event,
    p: PoolRef,
)
    requires
        valid(s),
        ids_handed_out(s.requests),
        s.requests.last_id + s.after(chain, event).1.len() <= u64::MAX,
        s.after(chain, event).0.pools.verified.dom().finite(),
        match event {
            Event::HeadObserved { hash, parent_hash, .. } => hash != parent_hash,
            Event::BlockHeaderReceived { .. } => true,
            Event::BlockLogsReceived { request_id, .. } => s.requests.logs.contains_key(
                request_id@,
            ),
            Event::LogObserved { block_hash, .. } => s.graph.blocks.contains_key(block_hash),
            Event::PoolMetadataReceived { request_id, .. } => s.requests.pool_metadata.contains_key(
                request_id@,
            ),
            Event::TokenMetadataReceived { request_id, .. } => {
                s.requests.token_metadata.contains_key(request_id@)
            },
            Event::PoolDataReceived { request_id, .. } => s.requests.pool_data.contains_key(
                request_id@,
            ),
            _ => false,
        },
    ensures
        ({
            let (t, sent) = s.after(chain, event);
            let reads = sent.len() > 0 && sent.last() is PoolData;
            let id = sent.last()->PoolData_0;
            let b = sent.last()->PoolData_1;
            let idle = (forall|n: u64| !#[trigger] t.requests.headers.contains_key(n)) && (forall|
                n: u64,
            | !#[trigger] t.requests.logs.contains_key(n));
            let wanted = t.pools.verified.contains_key(p) && p.chain == chain
                && !t.snapshot.contains_key(p);
            let in_flight = exists|n: u64| #[trigger]
                t.requests.pool_data.contains_key(n)
                    && t.requests.pool_data[n].payload.items.contains(p);
            let elsewhere = exists|n: u64| #[trigger]
                t.requests.pool_data.contains_key(n) && n != id
                    && t.requests.pool_data[n].payload.items.contains(p);
            &&& reads ==> idle
            &&& idle && !reads && wanted ==> in_flight
            &&& reads ==> b.at == t.graph.anchor && b.items.finite() && 0 < b.items.len() <= 100
            &&& reads && b.items.contains(p) ==> wanted && !elsewhere
            &&& reads && wanted && !in_flight ==> b.items.len() == 100 && forall|q: PoolRef|
                #[trigger] b.items.contains(q) ==> q.rank() < p.rank()
        }),
{
    assert(followed_up(s, event));
    let (t, sent) = s.after(chain, event);
    let (e, sent0) = lemma_follow_up_of_event(s, chain, event);
    law_events_keep_state_valid(s, chain, event);
    let p0 = Plan { requests: e.requests, sent: sent0 };
    let p4 = e.token_plan(
        chain,
        e.pool_plan(chain, e.log_plan(chain, e.header_plan(p0))),
    );
    let p5 = e.seed_plan(chain, p4);
    lemma_follow_up_steps(e, chain, p0);
    assert(t.requests == p5.requests && sent == p5.sent);
    let uncovered = e.uncovered_pools(chain, p4.requests);
    vstd::set_lib::lemma_set_subset_finite(t.pools.verified.dom(), uncovered);
    lemma_ascending(uncovered);
    let order = ascending(uncovered);
    let cap = FINALIZED_POOL_SEED_CHUNK as nat;
    let chunk = first_of(order, cap);
    lemma_first_of(order, cap);
    if t.requests.headers.dom() == Set::<u64>::empty() {
        assert forall|n: u64| !#[trigger] t.requests.headers.contains_key(n) by {
            assert(!t.requests.headers.dom().contains(n));
        }
    }
    if t.requests.logs.dom() == Set::<u64>::empty() {
        assert forall|n: u64| !#[trigger] t.requests.logs.contains_key(n) by {
            assert(!t.requests.logs.dom().contains(n));
        }
    }
    let idle = (forall|n: u64| !#[trigger] t.requests.headers.contains_key(n)) && (forall|n: u64|
        !#[trigger] t.requests.logs.contains_key(n));
    if idle {
        assert(t.requests.headers.dom() =~= Set::empty());
        assert(t.requests.logs.dom() =~= Set::empty());
    }
    let reads = sent.len() > 0 && sent.last() is PoolData;
    if p5 == p4 {
        if reads {
            // Nothing before the last step reads states.
            lemma_no_states_before(e, chain, p0, sent.len() - 1);
        }
        if idle && t.pools.verified.contains_key(p) && p.chain == chain
            && !t.snapshot.contains_key(p) {
            assert(!uncovered.contains(p));
            assert(asked_items(p4.requests.pool_data).contains(p));
        }
    } else {
        let id = next_id(p4.requests.last_id);
        assert(sent.last() == Issued::PoolData(
            id,
            Batch { at: e.graph.anchor, items: chunk },
        ));
        assert(p5.requests.headers == p4.requests.headers && p5.requests.logs == p4.requests.logs);
        assert(p4.requests.last_id < u64::MAX);
        assert(!p4.requests.pool_data.contains_key(id)) by {
            if p4.requests.pool_data.contains_key(id) {
                assert(p4.requests.contains(AnyId::PoolData(id)));
            }
        }
        if uncovered.len() == 0 {
            assert(uncovered =~= Set::empty());
        }
        if chunk.contains(p) {
            assert(order.contains(p));
            assert(uncovered.contains(p));
            if exists|n: u64| #[trigger]
                t.requests.pool_data.contains_key(n) && n != id
                    && t.requests.pool_data[n].payload.items.contains(p) {
                let n = choose|n: u64| #[trigger]
                    t.requests.pool_data.contains_key(n) && n != id
                        && t.requests.pool_data[n].payload.items.contains(p);
                assert(p4.requests.pool_data.contains_key(n));
                assert(asked_items(p4.requests.pool_data).contains(p));
            }
        }
        let in_flight = exists|n: u64| #[trigger]
            t.requests.pool_data.contains_key(n)
                && t.requests.pool_data[n].payload.items.contains(p);
        if t.pools.verified.contains_key(p) && p.chain == chain && !t.snapshot.contains_key(p)
            && !in_flight {
            assert(t.requests.pool_data.contains_key(id));
            assert(!chunk.contains(p));
            if asked_items(p4.requests.pool_data).contains(p) {
                let n = choose|n: u64| #[trigger]
                    p4.requests.pool_data.contains_key(n)
                        && p4.requests.pool_data[n].payload.items.contains(p);
                assert(t.requests.pool_data.contains_key(n));
            }
            assert(uncovered.contains(p));
            assert(order.contains(p));
            let m = choose|m: int| 0 <= m < order.len() && order[m] == p;
            assert(order.len() > cap && m >= cap);
            assert forall|q: PoolRef| #[trigger] chunk.contains(q) implies q.rank() < p.rank() by {
                let u = choose|u: int| 0 <= u < cap && u < order.len() && order[u] == q;
                assert(order[u].rank() < order[m].rank());
            }
        }
    }
}

proof fn lemma_first_of(order: Seq<PoolRef>, n: nat)
    requires
        strictly_ascending(order),
    ensures
        first_of(order, n).finite(),
        first_of(order, n).len() == (if order.len() <= n {
            order.len()
        } else {
            n
        }),
        forall|q: PoolRef| #[trigger]
            first_of(order, n).contains(q) <==> exists|u: int|
                0 <= u < n && u < order.len() && order[u] == q,
{
    lemma_no_duplicates(order);
    let part = if order.len() <= n {
        order
    } else {
        order.take(n as int)
    };
    assert(part.no_duplicates());
    part.unique_seq_to_set();
    vstd::seq_lib::seq_to_set_is_finite(part);
    assert forall|q: PoolRef| #[trigger] first_of(order, n).contains(q) <==> exists|u: int|
        0 <= u < n && u < order.len() && order[u] == q by {
        if part.contains(q) {
            let u = choose|u: int| 0 <= u < part.len() && part[u] == q;
            assert(order[u] == q);
        }
        if exists|u: int| 0 <= u < n && u < order.len() && order[u] == q {
            let u = choose|u: int| 0 <= u < n && u < order.len() && order[u] == q;
            assert(part[u] == q);
        }
    }
}

proof fn lemma_no_states_before(e: StateModel, chain: ChainKey, p0: Plan, i: int)
    requires
        e.graph.wf(),
        ids_handed_out(p0.requests),
        p0.requests == e.requests,
        p0.requests.last_id + e.scheduled(chain, p0.sent).1.len() - p0.sent.len() <= u64::MAX,
        0 <= i < e.scheduled(chain, p0.sent).1.len(),
        forall|n: int| 0 <= n < p0.sent.len() ==> !(#[trigger] p0.sent[n] is PoolData),
        ({
            let p4 = e.token_plan(
                chain,
                e.pool_plan(chain, e.log_plan(chain, e.header_plan(p0))),
            );
            i < p4.sent.len()
        }),
    ensures
        !(e.scheduled(chain, p0.sent).1[i] is PoolData),
{
    lemma_follow_up_steps(e, chain, p0);
    if i >= p0.sent.len() {
        lemma_kinds(e, chain, p0, i);
    }
}

// ---- when requests were sent ----

/// Whatever an event puts in flight was dispatched at the time of the event.
pub proof fn law_new_requests_carry_the_time(s: StateModel, chain: ChainKey, event: Event, id: AnyId)
    requires
        requests_finite(s.requests),
        ids_handed_out(s.requests),
        s.requests.last_id + s.after(chain, event).1.len() <= u64::MAX,
        !s.requests.contains(id),
        s.after(chain, event).0.requests.contains(id),
    ensures
        ({
            let t = s.after(chain, event).0;
            match id {
                AnyId::BlockHeader(n) => t.requests.headers[n].dispatched_at == t.tick,
                AnyId::BlockLogs(n) => t.requests.logs[n].dispatched_at == t.tick,
                AnyId::PoolMetadata(n) => t.requests.pool_metadata[n].dispatched_at == t.tick,
                AnyId::TokenMetadata(n) => t.requests.token_metadata[n].dispatched_at == t.tick,
                AnyId::PoolData(n) => t.requests.pool_data[n].dispatched_at == t.tick,
            }
        }),
{
    let t = s.after(chain, event).0;
    lemma_new_since(s, chain, event);
    assert(flight(t.requests, id).since == t.tick);
}

} // verus!
