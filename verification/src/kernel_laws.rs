//! What holds of the kernel, whatever it is told.
use vstd::arithmetic::div_mod::{lemma_div_is_ordered, lemma_div_plus_one};
use vstd::prelude::*;

use crate::blocks_graph::{header_data, seed_data, seeded, MAX_PENDING_BLOCKS};
use crate::folds::{lemma_foldable_len, lemma_frontier_connected};
use crate::graph_laws::{lemma_absent_parents_finite, law_pending_bounded};
use crate::graph_lemmas::{
    lemma_offered_wf, lemma_reanchored_wf, lemma_with_head_wf, lemma_with_logs_wf,
};
use crate::graph_model::{keyed, merged_streamed, Authority, DataModel, GraphModel, LogsModel};
use crate::kernel::{Event, MAX_STREAMED_LOG_BLOCKS};
use crate::kernel_model::{
    fresh_batches, initial_state, refresh_due, seed_requests, token_sources, warm_state, Plan,
    StateModel,
};
use crate::order::{ascending, lemma_ascending, lemma_no_duplicates};
use crate::pending_requests::{
    asked_blocks, AnyId, Batch, GetBlockHeader, GetBlockLogs, GetPoolData, GetPoolMetadata,
    GetTokenMetadata, Issued, RequestsModel,
    Request,
};
use crate::pool_registry::PoolsModel;
use crate::pool_state::{PoolDataResult, PoolLog, PoolRef, PoolState, ProtocolPoolKey};
use crate::primitives::{BlockHash, ChainKey};
use crate::request_laws::{
    all_recorded, ask_of, flight, id_of, ids_handed_out, is_due, law_clock_replaces_due_requests,
    law_retry_keeps_payload, lemma_added_recorded, lemma_ask_all_adds, lemma_due_ids,
    lemma_retry_all, lemma_retry_all_finite, lemma_retry_all_one_per_header, lemma_retry_finite,
    lemma_retry_one_per_header, new_since, number_of, one_request_per_header, recorded,
    requests_finite,
    Fresh,
};
use crate::request_tracking::next_id;
use crate::schedule_laws::{lemma_follow_up_len, lemma_follow_up_steps};
use crate::tick::{next_tick, Tick};
use crate::token_registry::{TokenAddress, TokensModel};

verus! {

// ---- invariants ----

/// What every reachable state satisfies: the block tree is well formed, pending blocks and staged
/// logs are within their caps, and no header is fetched twice at once.
pub open spec fn valid(s: StateModel) -> bool {
    &&& s.graph.wf()
    &&& s.graph.pending_blocks().len() <= MAX_PENDING_BLOCKS
    &&& s.staged.dom().finite()
    &&& s.staged.len() <= MAX_STREAMED_LOG_BLOCKS
    &&& requests_finite(s.requests)
    &&& one_request_per_header(s.requests)
}

/// `q` differs from `p` in requests that are not for headers.
spec fn headers_alone(p: RequestsModel, q: RequestsModel) -> bool {
    q.headers == p.headers && (requests_finite(p) ==> requests_finite(q))
}

proof fn lemma_logs_spare_headers(plan: Plan, payloads: Seq<BlockHash>, now: Tick)
    ensures
        headers_alone(plan.requests, plan.ask_all::<GetBlockLogs>(payloads, now).requests),
    decreases payloads.len(),
{
    if payloads.len() > 0 {
        lemma_logs_spare_headers(plan, payloads.drop_last(), now);
    }
}

proof fn lemma_pools_spare_headers(plan: Plan, payloads: Seq<Batch<ProtocolPoolKey>>, now: Tick)
    ensures
        headers_alone(plan.requests, plan.ask_all::<GetPoolMetadata>(payloads, now).requests),
        plan.ask_all::<GetPoolMetadata>(payloads, now).requests.logs == plan.requests.logs,
    decreases payloads.len(),
{
    if payloads.len() > 0 {
        lemma_pools_spare_headers(plan, payloads.drop_last(), now);
    }
}

proof fn lemma_tokens_spare_headers(plan: Plan, payloads: Seq<Batch<TokenAddress>>, now: Tick)
    ensures
        headers_alone(plan.requests, plan.ask_all::<GetTokenMetadata>(payloads, now).requests),
        plan.ask_all::<GetTokenMetadata>(payloads, now).requests.logs == plan.requests.logs,
    decreases payloads.len(),
{
    if payloads.len() > 0 {
        lemma_tokens_spare_headers(plan, payloads.drop_last(), now);
    }
}

proof fn lemma_ask_header_once(plan: Plan, hash: BlockHash, now: Tick)
    requires
        one_request_per_header(plan.requests),
    ensures
        one_request_per_header(plan.ask_header(hash, now).requests),
        requests_finite(plan.requests) ==> requests_finite(plan.ask_header(hash, now).requests),
{
    let p = plan.requests;
    let q = plan.ask_header(hash, now).requests;
    if !asked_blocks(p.headers).contains(hash) {
        assert forall|a: u64, b: u64|
            #![trigger q.headers[a], q.headers[b]]
            q.headers.contains_key(a) && q.headers.contains_key(b) && a
                != b implies q.headers[a].payload != q.headers[b].payload by {
            let id = next_id(p.last_id);
            if a != id {
                assert(p.headers.contains_key(a) && p.headers[a].payload != hash);
            }
            if b != id {
                assert(p.headers.contains_key(b) && p.headers[b].payload != hash);
            }
        }
    }
}

proof fn lemma_ask_headers_once(plan: Plan, hashes: Seq<BlockHash>, now: Tick)
    requires
        one_request_per_header(plan.requests),
    ensures
        one_request_per_header(plan.ask_headers(hashes, now).requests),
        requests_finite(plan.requests) ==> requests_finite(
            plan.ask_headers(hashes, now).requests,
        ),
    decreases hashes.len(),
{
    if hashes.len() > 0 {
        lemma_ask_headers_once(plan, hashes.drop_last(), now);
        lemma_ask_header_once(plan.ask_headers(hashes.drop_last(), now), hashes.last(), now);
    }
}

proof fn lemma_follow_up_valid(s: StateModel, chain: ChainKey, sent: Seq<Issued>)
    requires
        valid(s),
    ensures
        valid(s.scheduled(chain, sent).0),
{
    let p0 = Plan { requests: s.requests, sent };
    let p1 = s.header_plan(p0);
    lemma_ask_headers_once(p0, ascending(s.graph.absent_parents()), s.tick);
    let p2 = s.log_plan(chain, p1);
    lemma_logs_spare_headers(
        p1,
        s.graph.unresolved(s.log_gate(chain), asked_blocks(p1.requests.logs)),
        s.tick,
    );
    let p3 = s.pool_plan(chain, p2);
    lemma_pools_spare_headers(
        p2,
        fresh_batches(s.graph.candidates(), s.settled_pools(chain, p2.requests)),
        s.tick,
    );
    let p4 = s.token_plan(chain, p3);
    lemma_tokens_spare_headers(
        p3,
        fresh_batches(
            token_sources(s.pools, chain, s.graph.candidates()),
            s.settled_tokens(p3.requests),
        ),
        s.tick,
    );
    let p5 = s.seed_plan(chain, p4);
    assert(p5.requests.headers == p1.requests.headers);
}

proof fn lemma_with_streamed_valid(m: GraphModel, hash: BlockHash, logs: Seq<PoolLog>)
    requires
        m.wf(),
    ensures
        m.with_streamed(hash, logs).wf(),
        m.with_streamed(hash, logs).pending_blocks() == m.pending_blocks(),
        m.with_complete(hash, logs).wf(),
        m.with_complete(hash, logs).pending_blocks() == m.pending_blocks(),
{
    if m.has(hash) {
        lemma_with_logs_wf(m, hash, merged_streamed(m.blocks[hash].data.logs, keyed(logs)));
        lemma_with_logs_wf(m, hash, LogsModel::Complete(keyed(logs)));
    }
    assert(m.with_streamed(hash, logs).pending_blocks() =~= m.pending_blocks());
    assert(m.with_complete(hash, logs).pending_blocks() =~= m.pending_blocks());
}

proof fn lemma_drained_valid(s: StateModel, hash: BlockHash)
    requires
        valid(s),
    ensures
        valid(s.drained(hash)),
{
    if s.graph.has(hash) && s.staged.contains_key(hash) {
        lemma_with_streamed_valid(s.graph, hash, s.staged[hash]);
        assert(s.staged.remove(hash).dom() =~= s.staged.dom().remove(hash));
    }
}

proof fn lemma_entered_valid(
    s: StateModel,
    hash: BlockHash,
    parent: BlockHash,
    number: u64,
    bloom: Seq<u8>,
)
    requires
        valid(s),
    ensures
        valid(s.header_entered(hash, parent, number, bloom)),
        valid(s.head_entered(hash, parent, number, bloom)),
{
    let data = header_data(number, bloom);
    let cap = MAX_PENDING_BLOCKS as nat;
    let g = s.graph.with_offered(hash, parent, data, cap);
    lemma_offered_wf(s.graph, hash, parent, data, cap);
    law_pending_bounded(s.graph, hash, parent, data, cap);
    lemma_drained_valid(s.with_graph(g), hash);
    lemma_with_head_wf(g, hash);
    assert(g.with_head(hash).pending_blocks() =~= g.pending_blocks());
    lemma_drained_valid(s.with_graph(g.with_head(hash)), hash);
}

proof fn lemma_about_one_per_header(p: RequestsModel, kept: Set<BlockHash>)
    requires
        requests_finite(p),
        one_request_per_header(p),
    ensures
        requests_finite(p.keeping(kept)),
        one_request_per_header(p.keeping(kept)),
{
    let q = p.keeping(kept);
    vstd::set_lib::lemma_set_subset_finite(p.headers.dom(), q.headers.dom());
    vstd::set_lib::lemma_set_subset_finite(p.logs.dom(), q.logs.dom());
    vstd::set_lib::lemma_set_subset_finite(p.pool_metadata.dom(), q.pool_metadata.dom());
    vstd::set_lib::lemma_set_subset_finite(p.token_metadata.dom(), q.token_metadata.dom());
    vstd::set_lib::lemma_set_subset_finite(p.pool_data.dom(), q.pool_data.dom());
    assert forall|a: u64, b: u64|
        #![trigger q.headers[a], q.headers[b]]
        q.headers.contains_key(a) && q.headers.contains_key(b) && a
            != b implies q.headers[a].payload != q.headers[b].payload by {
        assert(p.headers[a].payload != p.headers[b].payload);
    }
}

proof fn lemma_finalized_valid(s: StateModel, chain: ChainKey, hash: BlockHash)
    requires
        valid(s),
    ensures
        valid(s.finalized(chain, hash)),
{
    let touch = s.pool_touching(chain);
    let root = s.graph.final_root(hash, touch);
    lemma_frontier_connected(s.graph, hash, touch, Authority::RequireComplete);
    let g = s.graph.reanchored(root);
    if root != s.graph.anchor {
        lemma_reanchored_wf(s.graph, root);
        assert(g.pending_blocks() =~= Set::empty());
        lemma_about_one_per_header(s.requests, g.blocks.dom());
        assert(Map::<BlockHash, Seq<PoolLog>>::empty().dom() =~= Set::empty());
    }
}

proof fn lemma_without_header(p: RequestsModel, n: u64)
    requires
        requests_finite(p),
        one_request_per_header(p),
    ensures
        requests_finite(p.without::<GetBlockHeader>(n)),
        one_request_per_header(p.without::<GetBlockHeader>(n)),
        p.headers.contains_key(n) ==> !asked_blocks(
            p.without::<GetBlockHeader>(n).headers,
        ).contains(p.headers[n].payload),
{
    let q = p.without::<GetBlockHeader>(n);
    assert forall|a: u64, b: u64|
        #![trigger q.headers[a], q.headers[b]]
        q.headers.contains_key(a) && q.headers.contains_key(b) && a
            != b implies q.headers[a].payload != q.headers[b].payload by {
        assert(p.headers[a].payload != p.headers[b].payload);
    }
    if p.headers.contains_key(n) && asked_blocks(q.headers).contains(p.headers[n].payload) {
        let m = choose|m: u64| #[trigger]
            q.headers.contains_key(m) && q.headers[m].payload == p.headers[n].payload;
        assert(p.headers[m].payload != p.headers[n].payload);
    }
}

/// Every event keeps a valid state valid.
pub proof fn law_events_keep_state_valid(s: StateModel, chain: ChainKey, event: Event)
    requires
        valid(s),
    ensures
        valid(s.after(chain, event).0),
{
    let none = Seq::<Issued>::empty();
    match event {
        Event::HeadObserved { hash, parent_hash, logs_bloom, number } => {
            let entered = s.head_entered(hash, parent_hash, number, logs_bloom@);
            lemma_entered_valid(s, hash, parent_hash, number, logs_bloom@);
            lemma_ask_header_once(
                Plan { requests: entered.requests, sent: none },
                hash,
                entered.tick,
            );
            lemma_follow_up_valid(entered, chain, none);
        },
        Event::FinalizedBlockObserved { block_hash } => {
            lemma_finalized_valid(s, chain, block_hash);
        },
        Event::BlockHeaderReceived { request_id, hash, parent_hash, logs_bloom, number } => {
            let entered = s.header_entered(hash, parent_hash, number, logs_bloom@);
            lemma_entered_valid(s, hash, parent_hash, number, logs_bloom@);
            lemma_without_header(s.requests, request_id@);
            let rest = Plan {
                requests: s.requests.without::<GetBlockHeader>(request_id@),
                sent: none,
            };
            let asked = s.requests.headers;
            if asked.contains_key(request_id@) && asked[request_id@].payload != hash {
                let x = asked[request_id@].payload;
                lemma_ask_header_once(rest, x, s.tick);
                let plan = rest.ask::<GetBlockHeader>(x, s.tick);
                lemma_follow_up_valid(entered.with_requests(plan.requests), chain, plan.sent);
            } else {
                lemma_follow_up_valid(entered.with_requests(rest.requests), chain, none);
            }
        },
        Event::BlockHeaderNotFound { request_id } => {
            lemma_without_header(s.requests, request_id@);
        },
        Event::BlockLogsReceived { request_id, logs } => {
            let rest = s.with_requests(s.requests.without::<GetBlockLogs>(request_id@));
            assert(valid(rest));
            if s.requests.logs.contains_key(request_id@) {
                let h = s.requests.logs[request_id@].payload;
                lemma_with_streamed_valid(s.graph, h, logs@);
                lemma_follow_up_valid(
                    rest.with_graph(s.graph.with_complete(h, logs@)),
                    chain,
                    none,
                );
            }
        },
        Event::LogObserved { block_hash, logs } => {
            if s.graph.has(block_hash) {
                lemma_with_streamed_valid(s.graph, block_hash, logs@);
                lemma_follow_up_valid(
                    s.with_graph(s.graph.with_streamed(block_hash, logs@)),
                    chain,
                    none,
                );
            } else {
                let b = s.buffered(block_hash, logs@);
                if s.staged.contains_key(block_hash) {
                    assert(b.staged.dom() =~= s.staged.dom());
                } else if s.staged.len() < MAX_STREAMED_LOG_BLOCKS {
                    assert(b.staged.dom() =~= s.staged.dom().insert(block_hash));
                }
            }
        },
        Event::PoolMetadataReceived { request_id, metadata } => {
            let rest = s.with_requests(s.requests.without::<GetPoolMetadata>(request_id@));
            assert(valid(rest));
            if s.requests.pool_metadata.contains_key(request_id@) {
                let asked = s.requests.pool_metadata[request_id@].payload.items;
                lemma_follow_up_valid(
                    StateModel {
                        pools: s.pools.with_results(chain, metadata@.restrict(asked)),
                        ..rest
                    },
                    chain,
                    none,
                );
            }
        },
        Event::TokenMetadataReceived { request_id, metadata } => {
            let rest = s.with_requests(s.requests.without::<GetTokenMetadata>(request_id@));
            assert(valid(rest));
            if s.requests.token_metadata.contains_key(request_id@) {
                let asked = s.requests.token_metadata[request_id@].payload.items;
                lemma_follow_up_valid(
                    StateModel {
                        tokens: s.tokens.with_results(metadata@.restrict(asked)),
                        ..rest
                    },
                    chain,
                    none,
                );
            }
        },
        Event::PoolDataReceived { request_id, pools } => {
            let rest = s.with_requests(s.requests.without::<GetPoolData>(request_id@));
            assert(valid(rest));
            if s.requests.pool_data.contains_key(request_id@) {
                lemma_follow_up_valid(
                    rest.seeds_entered(s.requests.pool_data[request_id@].payload.at, pools@),
                    chain,
                    none,
                );
            }
        },
        Event::RequestFailed { request_id } => {
            lemma_retry_one_per_header(s.requests, request_id@, s.tick);
            lemma_retry_finite(s.requests, request_id@, s.tick);
        },
        Event::Tick => {
            let now = next_tick(s.tick);
            lemma_retry_all_one_per_header(s.requests, s.requests.due_ids(now), now);
            lemma_retry_all_finite(s.requests, s.requests.due_ids(now), now);
        },
    }
}

/// The state that the kernel starts with is valid.
pub proof fn law_initial_state_valid(anchor: BlockHash)
    ensures
        valid(initial_state(anchor)),
        ids_handed_out(initial_state(anchor).requests),
{
    let s = initial_state(anchor);
    assert(s.graph.pending_blocks() =~= Set::empty());
    assert(s.staged.dom() =~= Set::empty());
}

/// The state of a warm start is valid, whatever window of blocks and whatever registries it comes
/// with.
pub proof fn law_warm_state_valid(
    anchor: BlockHash,
    blocks: Seq<(BlockHash, BlockHash, u64, Vec<PoolLog>)>,
    snapshot: Map<PoolRef, PoolState>,
    pools: PoolsModel,
    tokens: TokensModel,
)
    ensures
        valid(warm_state(seeded(anchor, blocks), snapshot, pools, tokens)),
{
    let graph = seeded(anchor, blocks);
    lemma_seeded_wf(anchor, blocks);
    lemma_absent_parents_finite(graph);
    lemma_ascending(graph.absent_parents());
    lemma_no_duplicates(ascending(graph.absent_parents()));
    lemma_ask_distinct_headers(ascending(graph.absent_parents()), Tick { raw: 0 });
    assert(Map::<BlockHash, Seq<PoolLog>>::empty().dom() =~= Set::empty());
}

/// Headers asked for one after the other, from nothing, are each asked for once.
proof fn lemma_ask_distinct_headers(hashes: Seq<BlockHash>, now: Tick)
    requires
        hashes.no_duplicates(),
    ensures
        ({
            let none = Plan { requests: RequestsModel::empty(), sent: Seq::empty() };
            let p = none.ask_all::<GetBlockHeader>(hashes, now).requests;
            &&& requests_finite(p)
            &&& one_request_per_header(p)
            &&& forall|n: u64| #[trigger]
                p.headers.contains_key(n) ==> hashes.contains(p.headers[n].payload)
        }),
    decreases hashes.len(),
{
    let none = Plan { requests: RequestsModel::empty(), sent: Seq::empty() };
    if hashes.len() > 0 {
        let rest = hashes.drop_last();
        let hash = hashes.last();
        let before = none.ask_all::<GetBlockHeader>(rest, now);
        let p = none.ask_all::<GetBlockHeader>(hashes, now).requests;
        lemma_ask_distinct_headers(rest, now);
        assert(!asked_blocks(before.requests.headers).contains(hash)) by {
            if asked_blocks(before.requests.headers).contains(hash) {
                let n = choose|n: u64| #[trigger]
                    before.requests.headers.contains_key(n)
                        && before.requests.headers[n].payload == hash;
                let i = choose|i: int| 0 <= i < rest.len() && rest[i] == hash;
                assert(hashes[i] == hashes[hashes.len() - 1]);
            }
        }
        lemma_ask_header_once(before, hash, now);
        assert forall|n: u64| #[trigger] p.headers.contains_key(n) implies hashes.contains(
            p.headers[n].payload,
        ) by {
            if n == next_id(before.requests.last_id) {
                assert(hashes[hashes.len() - 1] == hash);
            } else {
                assert(before.requests.headers.contains_key(n));
                let i = choose|i: int|
                    0 <= i < rest.len() && rest[i] == before.requests.headers[n].payload;
                assert(hashes[i] == rest[i]);
            }
        }
    }
}

// ---- what is sent is in flight ----

proof fn lemma_follow_up_recorded(s: StateModel, chain: ChainKey, sent: Seq<Issued>)
    requires
        ids_handed_out(s.requests),
        all_recorded(Plan { requests: s.requests, sent }),
        s.requests.last_id + s.scheduled(chain, sent).1.len() - sent.len() <= u64::MAX,
    ensures
        all_recorded(
            Plan {
                requests: s.scheduled(chain, sent).0.requests,
                sent: s.scheduled(chain, sent).1,
            },
        ),
        ids_handed_out(s.scheduled(chain, sent).0.requests),
{
    let p0 = Plan { requests: s.requests, sent };
    lemma_follow_up_steps(s, chain, p0);
    lemma_added_recorded(p0, s.follow_up(chain, sent));
}

/// Everything that an event sends is in flight afterwards, with what it asks for, and identifiers
/// stay fresh.
pub proof fn law_effects_are_recorded(s: StateModel, chain: ChainKey, event: Event)
    requires
        requests_finite(s.requests),
        ids_handed_out(s.requests),
        s.requests.last_id + s.after(chain, event).1.len() <= u64::MAX,
    ensures
        all_recorded(
            Plan { requests: s.after(chain, event).0.requests, sent: s.after(chain, event).1 },
        ),
        ids_handed_out(s.after(chain, event).0.requests),
{
    let none = Seq::<Issued>::empty();
    match event {
        Event::HeadObserved { hash, parent_hash, logs_bloom, number } => {
            let entered = s.head_entered(hash, parent_hash, number, logs_bloom@);
            if hash == parent_hash {
                let p0 = Plan { requests: entered.requests, sent: none };
                if !asked_blocks(p0.requests.headers).contains(hash) {
                    GetBlockHeader::ask_adds(p0, hash, entered.tick);
                    lemma_added_recorded(p0, p0.ask_header(hash, entered.tick));
                }
            } else {
                lemma_follow_up_recorded(entered, chain, none);
            }
        },
        Event::FinalizedBlockObserved { block_hash } => {
            let q = s.finalized(chain, block_hash).requests;
            assert forall|id: AnyId| #[trigger] q.contains(id) implies number_of(id)
                <= q.last_id by {
                assert(s.requests.contains(id));
            }
        },
        Event::BlockHeaderReceived { request_id, hash, parent_hash, logs_bloom, number } => {
            let entered = s.header_entered(hash, parent_hash, number, logs_bloom@);
            let rest = Plan {
                requests: s.requests.without::<GetBlockHeader>(request_id@),
                sent: none,
            };
            assert forall|id: AnyId| #[trigger] rest.requests.contains(id) implies number_of(id)
                <= rest.requests.last_id by {
                assert(s.requests.contains(id));
            }
            let asked = s.requests.headers;
            if asked.contains_key(request_id@) && asked[request_id@].payload != hash {
                let x = asked[request_id@].payload;
                let plan = rest.ask::<GetBlockHeader>(x, s.tick);
                lemma_follow_up_len(entered.with_requests(plan.requests), chain, plan.sent);
                GetBlockHeader::ask_adds(rest, x, s.tick);
                lemma_added_recorded(rest, plan);
                lemma_follow_up_recorded(
                    entered.with_requests(plan.requests),
                    chain,
                    plan.sent,
                );
            } else {
                lemma_follow_up_recorded(entered.with_requests(rest.requests), chain, none);
            }
        },
        Event::BlockHeaderNotFound { request_id } => {
            let q = s.requests.without::<GetBlockHeader>(request_id@);
            assert forall|id: AnyId| #[trigger] q.contains(id) implies number_of(id)
                <= q.last_id by {
                assert(s.requests.contains(id));
            }
        },
        Event::BlockLogsReceived { request_id, logs } => {
            let q = s.requests.without::<GetBlockLogs>(request_id@);
            assert forall|id: AnyId| #[trigger] q.contains(id) implies number_of(id)
                <= q.last_id by {
                assert(s.requests.contains(id));
            }
            if s.requests.logs.contains_key(request_id@) {
                let h = s.requests.logs[request_id@].payload;
                lemma_follow_up_recorded(
                    s.with_requests(q).with_graph(s.graph.with_complete(h, logs@)),
                    chain,
                    none,
                );
            }
        },
        Event::LogObserved { block_hash, logs } => {
            if s.graph.has(block_hash) {
                lemma_follow_up_recorded(
                    s.with_graph(s.graph.with_streamed(block_hash, logs@)),
                    chain,
                    none,
                );
            }
        },
        Event::PoolMetadataReceived { request_id, metadata } => {
            let q = s.requests.without::<GetPoolMetadata>(request_id@);
            assert forall|id: AnyId| #[trigger] q.contains(id) implies number_of(id)
                <= q.last_id by {
                assert(s.requests.contains(id));
            }
            if s.requests.pool_metadata.contains_key(request_id@) {
                let asked = s.requests.pool_metadata[request_id@].payload.items;
                lemma_follow_up_recorded(
                    StateModel {
                        pools: s.pools.with_results(chain, metadata@.restrict(asked)),
                        ..s.with_requests(q)
                    },
                    chain,
                    none,
                );
            }
        },
        Event::TokenMetadataReceived { request_id, metadata } => {
            let q = s.requests.without::<GetTokenMetadata>(request_id@);
            assert forall|id: AnyId| #[trigger] q.contains(id) implies number_of(id)
                <= q.last_id by {
                assert(s.requests.contains(id));
            }
            if s.requests.token_metadata.contains_key(request_id@) {
                let asked = s.requests.token_metadata[request_id@].payload.items;
                lemma_follow_up_recorded(
                    StateModel {
                        tokens: s.tokens.with_results(metadata@.restrict(asked)),
                        ..s.with_requests(q)
                    },
                    chain,
                    none,
                );
            }
        },
        Event::PoolDataReceived { request_id, pools } => {
            let q = s.requests.without::<GetPoolData>(request_id@);
            assert forall|id: AnyId| #[trigger] q.contains(id) implies number_of(id)
                <= q.last_id by {
                assert(s.requests.contains(id));
            }
            if s.requests.pool_data.contains_key(request_id@) {
                lemma_follow_up_recorded(
                    s.with_requests(q).seeds_entered(
                        s.requests.pool_data[request_id@].payload.at,
                        pools@,
                    ),
                    chain,
                    none,
                );
            }
        },
        Event::RequestFailed { request_id } => {
            if s.requests.contains(request_id@) {
                law_retry_keeps_payload(s.requests, request_id@, s.tick);
            }
        },
        Event::Tick => {
            let now = next_tick(s.tick);
            lemma_due_all_sent(s.requests, now);
            law_clock_replaces_due_requests(s.requests, now);
        },
    }
}

proof fn lemma_all_sent(p: RequestsModel, ids: Seq<AnyId>, now: Tick)
    requires
        ids_handed_out(p),
        p.last_id + p.retry_all_sends(ids, now).len() <= u64::MAX,
        ids.no_duplicates(),
        forall|i: int| 0 <= i < ids.len() ==> p.contains(#[trigger] ids[i]),
    ensures
        p.retry_all_sends(ids, now).len() == ids.len(),
    decreases ids.len(),
{
    if ids.len() > 0 {
        let shorter = ids.drop_last();
        let id = ids.last();
        assert forall|i: int| 0 <= i < shorter.len() implies p.contains(#[trigger] shorter[i]) by {
            assert(shorter[i] == ids[i]);
        }
        assert(!shorter.contains(id)) by {
            if shorter.contains(id) {
                let i = choose|i: int| 0 <= i < shorter.len() && shorter[i] == id;
                assert(ids[i] == ids[ids.len() - 1]);
            }
        }
        lemma_all_sent(p, shorter, now);
        lemma_retry_all(p, shorter, now);
        assert(p.contains(ids[ids.len() - 1]));
        assert(number_of(id) <= p.last_id);
        assert(p.retry_all(shorter, now).contains(id));
    }
}

proof fn lemma_due_all_sent(p: RequestsModel, now: Tick)
    requires
        requests_finite(p),
        ids_handed_out(p),
        p.last_id + p.retry_all_sends(p.due_ids(now), now).len() <= u64::MAX,
    ensures
        p.retry_all_sends(p.due_ids(now), now).len() == p.due_ids(now).len(),
{
    let ids = p.due_ids(now);
    lemma_due_ids(p, now);
    assert forall|i: int| 0 <= i < ids.len() implies p.contains(#[trigger] ids[i]) by {
        assert(ids.contains(ids[i]));
        assert(is_due(p, ids[i], now));
    }
    lemma_all_sent(p, ids, now);
}

/// Requests that are neither answered nor taken up again stay in flight, unchanged, when requests are
/// added.
pub proof fn lemma_events_keep_others(s: StateModel, chain: ChainKey, event: Event, id: AnyId)
    requires
        ids_handed_out(s.requests),
        s.requests.last_id + s.after(chain, event).1.len() <= u64::MAX,
        !(event is FinalizedBlockObserved || event is RequestFailed || event is Tick),
        s.requests.contains(id),
    ensures
        ({
            let t = s.after(chain, event).0;
            let ends = (event is BlockHeaderReceived && id == AnyId::BlockHeader(
                event->BlockHeaderReceived_request_id@,
            )) || answered(event) == Some(id);
            &&& t.requests.contains(id) <==> !ends
            &&& !ends ==> flight(t.requests, id) == flight(s.requests, id)
        }),
{
    let none = Seq::<Issued>::empty();
    assert(number_of(id) <= s.requests.last_id);
    match event {
        Event::HeadObserved { hash, parent_hash, logs_bloom, number } => {
            let entered = s.head_entered(hash, parent_hash, number, logs_bloom@);
            if hash == parent_hash {
                let p0 = Plan { requests: entered.requests, sent: none };
                if !asked_blocks(p0.requests.headers).contains(hash) {
                    GetBlockHeader::ask_adds(p0, hash, entered.tick);
                }
            } else {
                lemma_follow_up_keeps(entered, chain, none, id);
            }
        },
        Event::BlockHeaderReceived { request_id, hash, parent_hash, logs_bloom, number } => {
            let entered = s.header_entered(hash, parent_hash, number, logs_bloom@);
            let rest = Plan {
                requests: s.requests.without::<GetBlockHeader>(request_id@),
                sent: none,
            };
            lemma_rest_handed_out(s.requests, rest.requests);
            let asked = s.requests.headers;
            if asked.contains_key(request_id@) && asked[request_id@].payload != hash {
                let plan = rest.ask::<GetBlockHeader>(asked[request_id@].payload, s.tick);
                lemma_follow_up_len(entered.with_requests(plan.requests), chain, plan.sent);
                GetBlockHeader::ask_adds(rest, asked[request_id@].payload, s.tick);
                lemma_follow_up_keeps(
                    entered.with_requests(plan.requests),
                    chain,
                    plan.sent,
                    id,
                );
            } else {
                lemma_follow_up_keeps(entered.with_requests(rest.requests), chain, none, id);
            }
        },
        Event::BlockHeaderNotFound { request_id } => {},
        Event::BlockLogsReceived { request_id, logs } => {
            let q = s.requests.without::<GetBlockLogs>(request_id@);
            lemma_rest_handed_out(s.requests, q);
            if s.requests.logs.contains_key(request_id@) {
                lemma_follow_up_keeps(
                    s.with_requests(q).with_graph(
                        s.graph.with_complete(s.requests.logs[request_id@].payload, logs@),
                    ),
                    chain,
                    none,
                    id,
                );
            }
        },
        Event::LogObserved { block_hash, logs } => {
            if s.graph.has(block_hash) {
                lemma_follow_up_keeps(
                    s.with_graph(s.graph.with_streamed(block_hash, logs@)),
                    chain,
                    none,
                    id,
                );
            }
        },
        Event::PoolMetadataReceived { request_id, metadata } => {
            let q = s.requests.without::<GetPoolMetadata>(request_id@);
            lemma_rest_handed_out(s.requests, q);
            if s.requests.pool_metadata.contains_key(request_id@) {
                let asked = s.requests.pool_metadata[request_id@].payload.items;
                lemma_follow_up_keeps(
                    StateModel {
                        pools: s.pools.with_results(chain, metadata@.restrict(asked)),
                        ..s.with_requests(q)
                    },
                    chain,
                    none,
                    id,
                );
            }
        },
        Event::TokenMetadataReceived { request_id, metadata } => {
            let q = s.requests.without::<GetTokenMetadata>(request_id@);
            lemma_rest_handed_out(s.requests, q);
            if s.requests.token_metadata.contains_key(request_id@) {
                let asked = s.requests.token_metadata[request_id@].payload.items;
                lemma_follow_up_keeps(
                    StateModel {
                        tokens: s.tokens.with_results(metadata@.restrict(asked)),
                        ..s.with_requests(q)
                    },
                    chain,
                    none,
                    id,
                );
            }
        },
        Event::PoolDataReceived { request_id, pools } => {
            let q = s.requests.without::<GetPoolData>(request_id@);
            lemma_rest_handed_out(s.requests, q);
            if s.requests.pool_data.contains_key(request_id@) {
                lemma_follow_up_keeps(
                    s.with_requests(q).seeds_entered(
                        s.requests.pool_data[request_id@].payload.at,
                        pools@,
                    ),
                    chain,
                    none,
                    id,
                );
            }
        },
        _ => {},
    }
}

/// A header of another block has its request sent again, first of all that is sent.
pub proof fn lemma_wrong_header(s: StateModel, chain: ChainKey, event: Event)
    requires
        ids_handed_out(s.requests),
        event is BlockHeaderReceived,
        s.requests.headers.contains_key(event->BlockHeaderReceived_request_id@),
        s.requests.headers[event->BlockHeaderReceived_request_id@].payload
            != event->BlockHeaderReceived_hash,
        s.requests.last_id + s.after(chain, event).1.len() <= u64::MAX,
    ensures
        ({
            let (t, sent) = s.after(chain, event);
            let id = (s.requests.last_id + 1) as u64;
            let wanted = s.requests.headers[event->BlockHeaderReceived_request_id@].payload;
            &&& sent.len() > 0
            &&& sent[0] == Issued::BlockHeader(id, wanted)
            &&& t.requests.headers.contains_key(id)
            &&& t.requests.headers[id].payload == wanted
            &&& t.requests.headers[id].dispatched_at == s.tick
        }),
{
    match event {
        Event::BlockHeaderReceived { request_id, hash, parent_hash, logs_bloom, number } => {
            let entered = s.header_entered(hash, parent_hash, number, logs_bloom@);
            let rest = Plan {
                requests: s.requests.without::<GetBlockHeader>(request_id@),
                sent: Seq::empty(),
            };
            lemma_rest_handed_out(s.requests, rest.requests);
            let wanted = s.requests.headers[request_id@].payload;
            let plan = rest.ask::<GetBlockHeader>(wanted, s.tick);
            let e = entered.with_requests(plan.requests);
            lemma_follow_up_len(e, chain, plan.sent);
            GetBlockHeader::ask_adds(rest, wanted, s.tick);
            lemma_follow_up_steps(e, chain, plan);
            let id = AnyId::BlockHeader((s.requests.last_id + 1) as u64);
            let t = s.after(chain, event).0;
            assert(plan.requests.contains(id));
            assert(t.requests.contains(id) && flight(t.requests, id) == flight(plan.requests, id));
            assert(s.after(chain, event).1[0] == plan.sent[0]);
        },
        _ => {},
    }
}

/// The state that an event leaves before the follow-up, and what is sent by then.
pub proof fn lemma_follow_up_of_event(s: StateModel, chain: ChainKey, event: Event) -> (r: (
    StateModel,
    Seq<Issued>,
))
    requires
        ids_handed_out(s.requests),
        s.requests.last_id + s.after(chain, event).1.len() <= u64::MAX,
        match event {
            Event::HeadObserved { hash, parent_hash, .. } => hash != parent_hash,
            Event::BlockHeaderReceived { .. } => true,
            Event::BlockLogsReceived { request_id, .. } => s.requests.logs.contains_key(
                request_id@,
            ),
            Event::LogObserved { block_hash, .. } => s.graph.blocks.contains_key(block_hash),
            Event::PoolMetadataReceived { request_id, .. } => s.requests.pool_metadata.contains_key(
                request_id@,
            ),
            Event::TokenMetadataReceived { request_id, .. } => {
                s.requests.token_metadata.contains_key(request_id@)
            },
            Event::PoolDataReceived { request_id, .. } => s.requests.pool_data.contains_key(
                request_id@,
            ),
            _ => false,
        },
    ensures
        s.after(chain, event) == r.0.scheduled(chain, r.1),
        ids_handed_out(r.0.requests),
        r.0.requests.last_id + r.0.scheduled(chain, r.1).1.len() - r.1.len() <= u64::MAX,
        forall|n: int| 0 <= n < r.1.len() ==> !(#[trigger] r.1[n] is PoolData),
        new_since(s.requests, r.0.requests, s.tick),
        r.0.tick == s.tick,
{
    let none = Seq::<Issued>::empty();
    match event {
        Event::HeadObserved { hash, parent_hash, logs_bloom, number } => (
            s.head_entered(hash, parent_hash, number, logs_bloom@),
            none,
        ),
        Event::BlockHeaderReceived { request_id, hash, parent_hash, logs_bloom, number } => {
            let entered = s.header_entered(hash, parent_hash, number, logs_bloom@);
            let rest = Plan {
                requests: s.requests.without::<GetBlockHeader>(request_id@),
                sent: none,
            };
            lemma_rest_handed_out(s.requests, rest.requests);
            let asked = s.requests.headers;
            if asked.contains_key(request_id@) && asked[request_id@].payload != hash {
                let plan = rest.ask::<GetBlockHeader>(asked[request_id@].payload, s.tick);
                lemma_follow_up_len(entered.with_requests(plan.requests), chain, plan.sent);
                GetBlockHeader::ask_adds(rest, asked[request_id@].payload, s.tick);
                (entered.with_requests(plan.requests), plan.sent)
            } else {
                (entered.with_requests(rest.requests), none)
            }
        },
        Event::BlockLogsReceived { request_id, logs } => {
            let q = s.requests.without::<GetBlockLogs>(request_id@);
            lemma_rest_handed_out(s.requests, q);
            (
                s.with_requests(q).with_graph(
                    s.graph.with_complete(s.requests.logs[request_id@].payload, logs@),
                ),
                none,
            )
        },
        Event::LogObserved { block_hash, logs } => (
            s.with_graph(s.graph.with_streamed(block_hash, logs@)),
            none,
        ),
        Event::PoolMetadataReceived { request_id, metadata } => {
            let q = s.requests.without::<GetPoolMetadata>(request_id@);
            lemma_rest_handed_out(s.requests, q);
            let asked = s.requests.pool_metadata[request_id@].payload.items;
            (
                StateModel {
                    pools: s.pools.with_results(chain, metadata@.restrict(asked)),
                    ..s.with_requests(q)
                },
                none,
            )
        },
        Event::TokenMetadataReceived { request_id, metadata } => {
            let q = s.requests.without::<GetTokenMetadata>(request_id@);
            lemma_rest_handed_out(s.requests, q);
            let asked = s.requests.token_metadata[request_id@].payload.items;
            (
                StateModel {
                    tokens: s.tokens.with_results(metadata@.restrict(asked)),
                    ..s.with_requests(q)
                },
                none,
            )
        },
        Event::PoolDataReceived { request_id, pools } => {
            let q = s.requests.without::<GetPoolData>(request_id@);
            lemma_rest_handed_out(s.requests, q);
            (
                s.with_requests(q).seeds_entered(
                    s.requests.pool_data[request_id@].payload.at,
                    pools@,
                ),
                none,
            )
        },
        _ => (s, none),
    }
}

/// What an event puts in flight is dispatched at its time.
pub proof fn lemma_new_since(s: StateModel, chain: ChainKey, event: Event)
    requires
        requests_finite(s.requests),
        ids_handed_out(s.requests),
        s.requests.last_id + s.after(chain, event).1.len() <= u64::MAX,
    ensures
        new_since(
            s.requests,
            s.after(chain, event).0.requests,
            s.after(chain, event).0.tick,
        ),
{
    let t = s.after(chain, event).0;
    let none = Seq::<Issued>::empty();
    let scheduled = match event {
        Event::HeadObserved { hash, parent_hash, .. } => hash != parent_hash,
        Event::BlockHeaderReceived { .. } => true,
        Event::BlockLogsReceived { request_id, .. } => s.requests.logs.contains_key(request_id@),
        Event::LogObserved { block_hash, .. } => s.graph.blocks.contains_key(block_hash),
        Event::PoolMetadataReceived { request_id, .. } => s.requests.pool_metadata.contains_key(
            request_id@,
        ),
        Event::TokenMetadataReceived { request_id, .. } => s.requests.token_metadata.contains_key(
            request_id@,
        ),
        Event::PoolDataReceived { request_id, .. } => s.requests.pool_data.contains_key(
            request_id@,
        ),
        _ => false,
    };
    if scheduled {
        let (e, sent) = lemma_follow_up_of_event(s, chain, event);
        lemma_follow_up_steps(e, chain, Plan { requests: e.requests, sent });
        assert forall|id: AnyId| #[trigger]
            t.requests.contains(id) && !s.requests.contains(id) implies flight(
            t.requests,
            id,
        ).since == t.tick by {
            if e.requests.contains(id) {
                assert(flight(t.requests, id) == flight(e.requests, id));
            }
        }
    } else {
        match event {
            Event::HeadObserved { hash, parent_hash, logs_bloom, number } => {
                let entered = s.head_entered(hash, parent_hash, number, logs_bloom@);
                let p0 = Plan { requests: entered.requests, sent: none };
                if !asked_blocks(p0.requests.headers).contains(hash) {
                    GetBlockHeader::ask_adds(p0, hash, entered.tick);
                }
            },
            Event::RequestFailed { request_id } => {
                if s.requests.contains(request_id@) {
                    law_retry_keeps_payload(s.requests, request_id@, s.tick);
                }
            },
            Event::Tick => {
                let now = next_tick(s.tick);
                lemma_due_all_sent(s.requests, now);
                lemma_due_ids(s.requests, now);
                let ids = s.requests.due_ids(now);
                assert forall|i: int| 0 <= i < ids.len() implies s.requests.contains(
                    #[trigger] ids[i],
                ) by {
                    assert(ids.contains(ids[i]));
                    assert(is_due(s.requests, ids[i], now));
                }
                lemma_retry_all(s.requests, ids, now);
            },
            _ => {},
        }
    }
}

/// What is left of the requests in flight has identifiers that were handed out.
proof fn lemma_rest_handed_out(p: RequestsModel, q: RequestsModel)
    requires
        ids_handed_out(p),
        q.last_id == p.last_id,
        forall|id: AnyId| #[trigger] q.contains(id) ==> p.contains(id),
    ensures
        ids_handed_out(q),
{
}

/// The follow-up keeps what is in flight, and what it adds has identifiers of its own.
proof fn lemma_follow_up_keeps(s: StateModel, chain: ChainKey, sent: Seq<Issued>, id: AnyId)
    requires
        ids_handed_out(s.requests),
        s.requests.last_id + s.scheduled(chain, sent).1.len() - sent.len() <= u64::MAX,
        number_of(id) <= s.requests.last_id,
    ensures
        ({
            let q = s.scheduled(chain, sent).0.requests;
            &&& s.requests.contains(id) ==> q.contains(id) && flight(q, id) == flight(
                s.requests,
                id,
            )
            &&& q.contains(id) ==> s.requests.contains(id)
        }),
{
    lemma_follow_up_steps(s, chain, Plan { requests: s.requests, sent });
}

// ---- what an event leaves alone ----

proof fn lemma_offered_frame(
    m: GraphModel,
    hash: BlockHash,
    parent: BlockHash,
    data: DataModel,
    cap: nat,
)
    ensures
        m.with_offered(hash, parent, data, cap).anchor == m.anchor,
        m.with_offered(hash, parent, data, cap).head == m.head,
{
}

/// Only the clock moves the tick, only a finalized block moves the anchor, only heads and finalized
/// blocks move the head, only results change the registries, and only finalized blocks and pool
/// data change the pool states.
pub proof fn law_events_change_only_their_part(s: StateModel, chain: ChainKey, event: Event)
    ensures
        ({
            let t = s.after(chain, event).0;
            &&& t.tick == (if event is Tick {
                next_tick(s.tick)
            } else {
                s.tick
            })
            &&& !(event is FinalizedBlockObserved) ==> t.graph.anchor == s.graph.anchor
            &&& !(event is FinalizedBlockObserved || event is HeadObserved) ==> t.graph.head
                == s.graph.head
            &&& !(event is FinalizedBlockObserved || event is PoolDataReceived) ==> t.snapshot
                == s.snapshot
            &&& !(event is PoolMetadataReceived) ==> t.pools == s.pools
            &&& !(event is TokenMetadataReceived) ==> t.tokens == s.tokens
            &&& !(event is HeadObserved || event is FinalizedBlockObserved
                || event is BlockHeaderReceived || event is BlockLogsReceived
                || event is LogObserved) ==> t.graph == s.graph && t.staged == s.staged
        }),
{
    match event {
        Event::HeadObserved { hash, parent_hash, logs_bloom, number } => {
            lemma_offered_frame(
                s.graph,
                hash,
                parent_hash,
                header_data(number, logs_bloom@),
                MAX_PENDING_BLOCKS as nat,
            );
        },
        Event::BlockHeaderReceived { request_id, hash, parent_hash, logs_bloom, number } => {
            lemma_offered_frame(
                s.graph,
                hash,
                parent_hash,
                header_data(number, logs_bloom@),
                MAX_PENDING_BLOCKS as nat,
            );
        },
        _ => {},
    }
}

/// A finalized block and a header that was not found send nothing, and neither do logs of an absent
/// block.
pub proof fn law_quiet_events(s: StateModel, chain: ChainKey, event: Event)
    requires
        event is FinalizedBlockObserved || event is BlockHeaderNotFound || (event is LogObserved
            && !s.graph.has(event->LogObserved_block_hash)),
    ensures
        s.after(chain, event).1.len() == 0,
{
}

/// The request that an event answers.
pub open spec fn answered(event: Event) -> Option<AnyId> {
    match event {
        Event::BlockHeaderNotFound { request_id } => Some(AnyId::BlockHeader(request_id@)),
        Event::BlockLogsReceived { request_id, .. } => Some(AnyId::BlockLogs(request_id@)),
        Event::PoolMetadataReceived { request_id, .. } => Some(AnyId::PoolMetadata(request_id@)),
        Event::TokenMetadataReceived { request_id, .. } => Some(AnyId::TokenMetadata(request_id@)),
        Event::PoolDataReceived { request_id, .. } => Some(AnyId::PoolData(request_id@)),
        Event::RequestFailed { request_id } => Some(request_id@),
        _ => None,
    }
}

/// An answer to a request that is not in flight changes nothing and sends nothing.
pub proof fn law_unknown_answers_are_ignored(s: StateModel, chain: ChainKey, event: Event)
    requires
        answered(event) is Some,
        !s.requests.contains(answered(event)->0),
    ensures
        s.after(chain, event).0 == s,
        s.after(chain, event).1.len() == 0,
{
    let t = s.after(chain, event).0;
    assert(t.requests.headers =~= s.requests.headers);
    assert(t.requests.logs =~= s.requests.logs);
    assert(t.requests.pool_metadata =~= s.requests.pool_metadata);
    assert(t.requests.token_metadata =~= s.requests.token_metadata);
    assert(t.requests.pool_data =~= s.requests.pool_data);
}

/// A header that was not found ends its request and changes nothing else.
pub proof fn law_not_found_ends_its_request(s: StateModel, chain: ChainKey, event: Event, id: AnyId)
    requires
        event is BlockHeaderNotFound,
    ensures
        ({
            let t = s.after(chain, event).0;
            &&& t == s.with_requests(t.requests)
            &&& t.requests.last_id == s.requests.last_id
            &&& t.requests.contains(id) <==> s.requests.contains(id) && Some(id) != answered(event)
            &&& t.requests.contains(id) ==> flight(t.requests, id) == flight(s.requests, id)
        }),
{
}

/// A request that failed is sent again with what it asks for, under a new identifier; nothing else
/// changes.
pub proof fn law_failed_request_is_sent_again(s: StateModel, chain: ChainKey, event: Event)
    requires
        event is RequestFailed,
        ids_handed_out(s.requests),
        s.requests.last_id < u64::MAX,
        s.requests.contains(answered(event)->0),
    ensures
        ({
            let id = answered(event)->0;
            let (t, sent) = s.after(chain, event);
            &&& t == s.with_requests(t.requests)
            &&& sent.len() == 1
            &&& ask_of(sent[0]) == flight(s.requests, id).what
            &&& number_of(id_of(sent[0])) == s.requests.last_id + 1
            &&& recorded(t.requests, sent[0])
            &&& !t.requests.contains(id)
        }),
{
    let id = answered(event)->0;
    law_retry_keeps_payload(s.requests, id, s.tick);
    assert(number_of(id) <= s.requests.last_id);
}

/// After the clock advanced no request is due: each that was due was sent again, once, with what it
/// asks for, and as many are in flight as before.
pub proof fn law_tick_leaves_nothing_due(s: StateModel, chain: ChainKey, event: Event)
    requires
        event is Tick,
        requests_finite(s.requests),
        ids_handed_out(s.requests),
        s.requests.last_id + s.after(chain, event).1.len() <= u64::MAX,
    ensures
        ({
            let (t, sent) = s.after(chain, event);
            &&& t == (StateModel { requests: t.requests, tick: next_tick(s.tick), ..s })
            &&& forall|id: AnyId| !#[trigger] is_due(t.requests, id, t.tick)
            &&& forall|id: AnyId|
                s.requests.contains(id) && !#[trigger] is_due(s.requests, id, t.tick)
                    ==> t.requests.contains(id) && flight(t.requests, id) == flight(s.requests, id)
            &&& t.requests.total() == s.requests.total()
            &&& sent.len() == s.requests.due_ids(t.tick).len()
            &&& forall|i: int|
                0 <= i < sent.len() ==> ask_of(#[trigger] sent[i]) == flight(
                    s.requests,
                    s.requests.due_ids(t.tick)[i],
                ).what
        }),
{
    let now = next_tick(s.tick);
    lemma_due_all_sent(s.requests, now);
    law_clock_replaces_due_requests(s.requests, now);
}

/// Pool data read at a block that is no longer the anchor changes no pool state, and neither does a
/// failed read.
pub proof fn law_stale_pool_data_is_dropped(
    s: StateModel,
    at: BlockHash,
    results: Map<PoolRef, PoolDataResult>,
    pool: PoolRef,
)
    ensures
        at != s.graph.anchor ==> s.seeds_entered(at, results) == s,
        !(results.contains_key(pool) && results[pool] is Ok) ==> {
            let t = s.seeds_entered(at, results);
            &&& t.snapshot.contains_key(pool) <==> s.snapshot.contains_key(pool)
            &&& s.snapshot.contains_key(pool) ==> t.snapshot[pool] == s.snapshot[pool]
        },
        at == s.graph.anchor && results.contains_key(pool) && results[pool] is Ok ==> {
            let t = s.seeds_entered(at, results);
            t.snapshot.contains_key(pool) && t.snapshot[pool] == results[pool]->Ok_0
        },
{
}

// ---- finalization ----

/// When the anchor moves, every request that stays asks about a block that stays, no logs stay
/// staged, and what stays is as it was. When it does not move, the state stays as it was.
pub proof fn law_finalization_prunes(s: StateModel, chain: ChainKey, hash: BlockHash, id: AnyId)
    ensures
        ({
            let t = s.finalized(chain, hash);
            &&& t.graph.anchor == s.graph.anchor ==> t == s
            &&& t.graph.anchor != s.graph.anchor ==> {
                &&& t.staged == Map::<BlockHash, Seq<PoolLog>>::empty()
                &&& t.requests.contains(id) <==> s.requests.contains(id) && t.graph.has(
                    asked_block(s.requests, id),
                )
                &&& t.requests.contains(id) ==> flight(t.requests, id) == flight(s.requests, id)
            }
        }),
{
    let touch = s.pool_touching(chain);
    let root = s.graph.final_root(hash, touch);
    let t = s.finalized(chain, hash);
    assert(t.graph.anchor == root);
}

/// The block that a request is about.
pub open spec fn asked_block(p: RequestsModel, id: AnyId) -> BlockHash {
    match id {
        AnyId::BlockHeader(n) => p.headers[n].payload,
        AnyId::BlockLogs(n) => p.logs[n].payload,
        AnyId::PoolMetadata(n) => p.pool_metadata[n].payload.at,
        AnyId::TokenMetadata(n) => p.token_metadata[n].payload.at,
        AnyId::PoolData(n) => p.pool_data[n].payload.at,
    }
}

// ---- logs that come first ----

/// Logs that come before their block are not lost: once the block is admitted they are its streamed
/// logs, and nothing stays staged for it.
pub proof fn law_early_logs_reach_their_block(
    s: StateModel,
    hash: BlockHash,
    logs: Seq<PoolLog>,
    parent: BlockHash,
    number: u64,
    bloom: Seq<u8>,
)
    requires
        !s.graph.has(hash),
        !s.staged.contains_key(hash),
        s.staged.len() < MAX_STREAMED_LOG_BLOCKS,
        s.graph.admission(hash, parent, MAX_PENDING_BLOCKS as nat) is Admitted,
    ensures
        ({
            let t = s.buffered(hash, logs).header_entered(hash, parent, number, bloom);
            &&& t.graph.has(hash)
            &&& t.graph.blocks[hash].data.logs == LogsModel::Streamed(keyed(logs))
            &&& !t.staged.contains_key(hash)
        }),
{
}

/// A block that is refused leaves the logs staged for it where they are, for a later attempt.
pub proof fn law_refusal_keeps_staged_logs(
    s: StateModel,
    hash: BlockHash,
    parent: BlockHash,
    number: u64,
    bloom: Seq<u8>,
)
    requires
        !s.graph.has(hash),
        !(s.graph.admission(hash, parent, MAX_PENDING_BLOCKS as nat) is Admitted),
    ensures
        s.header_entered(hash, parent, number, bloom) == s,
        s.head_entered(hash, parent, number, bloom).staged == s.staged,
{
}

/// Logs of a block that has staged logs are added to them; those of one more block are dropped only
/// when the cap is reached, and then nothing changes.
pub proof fn law_staging(s: StateModel, hash: BlockHash, logs: Seq<PoolLog>)
    ensures
        ({
            let t = s.buffered(hash, logs);
            &&& s.staged.contains_key(hash) ==> t.staged == s.staged.insert(
                hash,
                s.staged[hash] + logs,
            )
            &&& !s.staged.contains_key(hash) && s.staged.len() >= MAX_STREAMED_LOG_BLOCKS ==> t == s
            &&& !s.staged.contains_key(hash) && s.staged.len() < MAX_STREAMED_LOG_BLOCKS
                ==> t.staged == s.staged.insert(hash, logs)
            &&& t.graph == s.graph && t.requests == s.requests
        }),
{
}

// ---- what the optimizer reads ----

/// While the head is not connected, the states that can be read are those at the anchor, with no
/// change on top.
pub proof fn law_unconnected_head_reads_anchor(
    m: GraphModel,
    base: Map<PoolRef, PoolState>,
    verified: Set<PoolRef>,
    touch: Set<BlockHash>,
    authority: Authority,
)
    requires
        m.wf(),
        !m.connected(m.head),
    ensures
        m.frontier(m.head, touch, authority) == m.anchor,
        m.overlay(base, verified, m.frontier(m.head, touch, authority), authority) == Map::<
            PoolRef,
            PoolState,
        >::empty(),
{
    assert(m.chain_to(m.head) =~= Seq::empty());
    assert(m.chain_to(m.anchor) =~= Seq::empty());
    lemma_foldable_len(m, m.chain_to(m.head), touch, authority);
    assert forall|p: PoolRef| m.folded_state(base, m.anchor, authority, p) is None by {}
    assert(m.overlay(base, verified, m.anchor, authority) =~= Map::empty());
}

// ---- when the finalized header is fetched ----

/// The finalized header is fetched when the path first reaches the target length, and again only
/// after it grew by a whole stride; a path that did not grow, or a short one, fetches nothing.
pub proof fn law_refresh_is_edge_triggered(before: nat, after: nat, target_len: nat, stride: nat)
    ensures
        after < target_len ==> !refresh_due(Some(before), Some(after), target_len, stride),
        after >= target_len && before < target_len ==> refresh_due(
            Some(before),
            Some(after),
            target_len,
            stride,
        ),
        before >= target_len && after <= before ==> !refresh_due(
            Some(before),
            Some(after),
            target_len,
            stride,
        ),
        before >= target_len && stride > 0 && after >= before + stride ==> refresh_due(
            Some(before),
            Some(after),
            target_len,
            stride,
        ),
        !refresh_due(Some(before), None, target_len, stride),
{
    if before >= target_len && after >= target_len && stride > 0 {
        let a = (before - target_len) as nat;
        let b = (after - target_len) as nat;
        if b <= a {
            lemma_div_is_ordered(b as int, a as int, stride as int);
        } else if after >= before + stride {
            lemma_div_plus_one(a as int, stride as int);
            lemma_div_is_ordered(stride + a as int, b as int, stride as int);
        }
    }
}

// ---- warm start ----

/// Every block of a warm start comes without a header and with authoritative logs.
pub proof fn law_seed_blocks_are_authoritative(
    anchor: BlockHash,
    blocks: Seq<(BlockHash, BlockHash, u64, Vec<PoolLog>)>,
    h: BlockHash,
)
    ensures
        seeded(anchor, blocks).has(h) ==> seeded(anchor, blocks).blocks[h].data.logs is Complete
            && seeded(anchor, blocks).blocks[h].data.bloom is None,
        seeded(anchor, blocks).anchor == anchor,
        seeded(anchor, blocks).head == anchor,
    decreases blocks.len(),
{
    if blocks.len() > 0 {
        law_seed_blocks_are_authoritative(anchor, blocks.drop_last(), h);
    }
}

/// A warm start asks for the header of each missing parent, once, and for nothing else, and its
/// state is valid.
pub proof fn law_warm_start_asks_for_missing_parents(
    anchor: BlockHash,
    blocks: Seq<(BlockHash, BlockHash, u64, Vec<PoolLog>)>,
    snapshot: Map<PoolRef, PoolState>,
    pools: PoolsModel,
    tokens: TokensModel,
    i: int,
)
    requires
        seeded(anchor, blocks).absent_parents().len() < u64::MAX,
    ensures
        ({
            let graph = seeded(anchor, blocks);
            let plan = seed_requests(graph);
            let missing = ascending(graph.absent_parents());
            &&& valid(warm_state(graph, snapshot, pools, tokens))
            &&& plan.sent.len() == missing.len()
            &&& 0 <= i < missing.len() ==> plan.sent[i] == GetBlockHeader::issued(
                (1 + i) as u64,
                missing[i],
            )
            &&& all_recorded(plan)
            &&& ids_handed_out(plan.requests)
        }),
{
    let graph = seeded(anchor, blocks);
    let none = Plan { requests: RequestsModel::empty(), sent: Seq::empty() };
    let missing = ascending(graph.absent_parents());
    law_warm_state_valid(anchor, blocks, snapshot, pools, tokens);
    lemma_absent_parents_finite(graph);
    lemma_ascending(graph.absent_parents());
    lemma_ask_all_adds::<GetBlockHeader>(none, missing, Tick { raw: 0 });
    lemma_added_recorded(none, seed_requests(graph));
    if 0 <= i < missing.len() {
        assert(seed_requests(graph).sent[none.sent.len() + i] == GetBlockHeader::issued(
            (none.requests.last_id + 1 + i) as u64,
            missing[i],
        ));
    }
}

proof fn lemma_seeded_wf(
    anchor: BlockHash,
    blocks: Seq<(BlockHash, BlockHash, u64, Vec<PoolLog>)>,
)
    ensures
        seeded(anchor, blocks).wf(),
        seeded(anchor, blocks).pending_blocks().len() <= MAX_PENDING_BLOCKS,
    decreases blocks.len(),
{
    if blocks.len() == 0 {
        assert(seeded(anchor, blocks).pending_blocks() =~= Set::empty());
    } else {
        let b = blocks.last();
        let before = seeded(anchor, blocks.drop_last());
        let data = seed_data(b.2, b.3@);
        lemma_seeded_wf(anchor, blocks.drop_last());
        lemma_offered_wf(before, b.0, b.1, data, MAX_PENDING_BLOCKS as nat);
        law_pending_bounded(before, b.0, b.1, data, MAX_PENDING_BLOCKS as nat);
    }
}

} // verus!
