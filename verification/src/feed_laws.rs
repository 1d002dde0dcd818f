//! What each event does to the kernel's state, told in terms of what the event carries.
use vstd::arithmetic::div_mod::{
    lemma_fundamental_div_mod, lemma_mod_division_less_than_divisor,
};
use vstd::prelude::*;

use crate::blocks_graph::{header_data, seed_data, seeded, MAX_PENDING_BLOCKS};
use crate::graph_laws::lemma_absent_parents_finite;
use crate::graph_model::{keyed, watched_by, GraphModel, LogsModel};
use crate::kernel::Event;
use crate::kernel_laws::{lemma_events_keep_others, lemma_wrong_header};
use crate::kernel_model::{
    initial_state, refresh_bucket, refresh_due, warm_state, Plan, StateModel,
};
use crate::ord_map::OrdMap;
use crate::order::{ascending, lemma_ascending};
use crate::path_laws::law_admission_enters_the_block;
use crate::pending_requests::{
    AnyId, GetBlockHeader, GetBlockLogs, GetPoolData, GetPoolMetadata, GetTokenMetadata, Issued,
    RequestsModel,
};
use crate::pool_registry::{PoolMetadataResult, PoolsModel};
use crate::pool_state::{PoolDataResult, PoolLog, PoolRef, PoolState, ProtocolPoolKey};
use crate::primitives::{BlockHash, Bloom, ChainKey};
use crate::request_laws::{flight, ids_handed_out};
use crate::request_tracking::RequestId;
use crate::tick::Tick;
use crate::token_registry::{TokenAddress, TokenMetadataResult, TokensModel};
use crate::uniswap_v4::spec_pool_manager_address;

verus! {

// ---- heads and headers ----

/// The head is the block that the feed reported last: any reported block that is in the graph
/// afterwards, or is the anchor, whatever its number and whatever the head was before. A block that
/// could not enter, or that names itself as its parent, leaves the head where it was.
pub proof fn law_head_follows_feed(
    s: StateModel,
    chain: ChainKey,
    hash: BlockHash,
    parent_hash: BlockHash,
    logs_bloom: Bloom,
    number: u64,
)
    ensures
        ({
            let t = s.after(
                chain,
                Event::HeadObserved { hash, parent_hash, logs_bloom, number },
            ).0;
            &&& hash != parent_hash && (t.graph.blocks.contains_key(hash) || hash
                == s.graph.anchor) ==> t.graph.head == hash
            &&& hash != parent_hash && !t.graph.blocks.contains_key(hash) && hash != s.graph.anchor
                ==> t.graph.head == s.graph.head
            &&& hash == parent_hash ==> t.graph.head == s.graph.head
        }),
{
}

/// A head or a header enters the graph with the parent, number and bloom that it came with, unless
/// it names itself as its parent, is the anchor, is there already, or would be one pending block too
/// many. Logs that were staged for it are its streamed logs and are staged no longer; without such
/// logs it has none yet. No other block enters, none leaves or changes its parent or payload, and
/// the anchor stays.
pub proof fn law_reported_blocks_enter(
    s: StateModel,
    chain: ChainKey,
    event: Event,
    request_id: RequestId<GetBlockHeader>,
    hash: BlockHash,
    parent_hash: BlockHash,
    logs_bloom: Bloom,
    number: u64,
    h: BlockHash,
)
    requires
        s.graph.wf(),
        event == (Event::HeadObserved { hash, parent_hash, logs_bloom, number }) || event == (
        Event::BlockHeaderReceived { request_id, hash, parent_hash, logs_bloom, number }),
    ensures
        ({
            let t = s.after(chain, event).0;
            let connects = parent_hash == s.graph.anchor || (s.graph.blocks.contains_key(
                parent_hash,
            ) && s.graph.blocks[parent_hash].connected);
            let waiting = Set::new(
                |x: BlockHash| s.graph.blocks.contains_key(x) && !s.graph.blocks[x].connected,
            );
            let enters = hash != parent_hash && hash != s.graph.anchor
                && !s.graph.blocks.contains_key(hash) && (connects || waiting.len() < 1024);
            &&& t.graph.anchor == s.graph.anchor
            &&& t.graph.blocks.contains_key(h) <==> s.graph.blocks.contains_key(h) || (enters && h
                == hash)
            &&& enters ==> {
                let b = t.graph.blocks[hash];
                &&& b.parent == parent_hash
                &&& b.data.number == number
                &&& b.data.bloom == Some(logs_bloom@)
                &&& b.connected <==> connects
                &&& !s.staged.contains_key(hash) ==> b.data.logs is Unknown
                &&& s.staged.contains_key(hash) ==> b.data.logs == LogsModel::Streamed(
                    keyed(s.staged[hash]),
                )
            }
            &&& t.graph.blocks.contains_key(hash) ==> t.staged == s.staged.remove(hash)
            &&& !t.graph.blocks.contains_key(hash) ==> t.staged == s.staged
            &&& s.graph.blocks.contains_key(h) ==> t.graph.blocks[h].parent
                == s.graph.blocks[h].parent && t.graph.blocks[h].data.number
                == s.graph.blocks[h].data.number && t.graph.blocks[h].data.bloom
                == s.graph.blocks[h].data.bloom && (s.graph.blocks[h].connected
                ==> t.graph.blocks[h].connected) && (!s.staged.contains_key(h) || h != hash
                ==> t.graph.blocks[h].data.logs == s.graph.blocks[h].data.logs)
        }),
{
    let data = header_data(number, logs_bloom@);
    let cap = MAX_PENDING_BLOCKS as nat;
    law_admission_enters_the_block(s.graph, hash, parent_hash, data, cap, h);
    law_admission_enters_the_block(s.graph, hash, parent_hash, data, cap, hash);
    if !s.staged.contains_key(hash) {
        assert(s.staged.remove(hash) =~= s.staged);
    }
}

/// A header that does not come from the block that was asked for leaves its request open: the block
/// is asked for again.
pub proof fn law_wrong_header_is_asked_again(
    s: StateModel,
    chain: ChainKey,
    request_id: RequestId<GetBlockHeader>,
    hash: BlockHash,
    parent_hash: BlockHash,
    logs_bloom: Bloom,
    number: u64,
)
    requires
        ids_handed_out(s.requests),
        s.requests.headers.contains_key(request_id@),
        s.requests.headers[request_id@].payload != hash,
        s.requests.last_id + s.after(
            chain,
            Event::BlockHeaderReceived { request_id, hash, parent_hash, logs_bloom, number },
        ).1.len() <= u64::MAX,
    ensures
        ({
            let (t, sent) = s.after(
                chain,
                Event::BlockHeaderReceived { request_id, hash, parent_hash, logs_bloom, number },
            );
            let id = (s.requests.last_id + 1) as u64;
            let wanted = s.requests.headers[request_id@].payload;
            &&& sent.len() > 0
            &&& sent[0] == Issued::BlockHeader(id, wanted)
            &&& t.requests.headers.contains_key(id)
            &&& t.requests.headers[id].payload == wanted
            &&& t.requests.headers[id].dispatched_at == s.tick
        }),
{
    lemma_wrong_header(
        s,
        chain,
        Event::BlockHeaderReceived { request_id, hash, parent_hash, logs_bloom, number },
    );
}

// ---- logs ----

/// Streamed logs of a present block are merged into it. Those of an absent block are staged behind
/// what was staged for it before; those of one block more than 1024 are dropped.
pub proof fn law_streamed_logs_reach_block_or_stage(
    s: StateModel,
    chain: ChainKey,
    block_hash: BlockHash,
    logs: Vec<PoolLog>,
    h: BlockHash,
)
    ensures
        ({
            let t = s.after(chain, Event::LogObserved { block_hash, logs }).0;
            let present = s.graph.blocks.contains_key(block_hash);
            &&& present ==> t.graph == s.graph.with_streamed(block_hash, logs@) && t.staged
                == s.staged
            &&& !present ==> t.graph == s.graph && t.requests == s.requests
            &&& !present && s.staged.contains_key(block_hash) ==> t.staged.contains_key(block_hash)
                && t.staged[block_hash] == s.staged[block_hash] + logs@
            &&& !present && !s.staged.contains_key(block_hash) && s.staged.len() < 1024
                ==> t.staged.contains_key(block_hash) && t.staged[block_hash] == logs@
            &&& !present && !s.staged.contains_key(block_hash) && s.staged.len() >= 1024
                ==> t.staged == s.staged
            &&& h != block_hash ==> (t.staged.contains_key(h) <==> s.staged.contains_key(h)) && (
            s.staged.contains_key(h) ==> t.staged[h] == s.staged[h])
        }),
{
}

/// The logs that answer a request are the authoritative logs of the block that was asked about.
pub proof fn law_log_answers_are_authoritative(
    s: StateModel,
    chain: ChainKey,
    request_id: RequestId<GetBlockLogs>,
    logs: Vec<PoolLog>,
)
    requires
        s.requests.logs.contains_key(request_id@),
    ensures
        ({
            let t = s.after(chain, Event::BlockLogsReceived { request_id, logs }).0;
            &&& t.graph == s.graph.with_complete(s.requests.logs[request_id@].payload, logs@)
            &&& t.staged == s.staged
        }),
{
}

// ---- results ----

/// Validation results settle exactly the candidates that were asked about, on the chain of the
/// event: success verifies, failure rejects what is not verified. All else stays.
pub proof fn law_pool_results_settle_what_was_asked(
    s: StateModel,
    chain: ChainKey,
    request_id: RequestId<GetPoolMetadata>,
    metadata: OrdMap<ProtocolPoolKey, PoolMetadataResult>,
    k: ProtocolPoolKey,
    pool: PoolRef,
)
    requires
        s.requests.pool_metadata.contains_key(request_id@),
    ensures
        ({
            let t = s.after(chain, Event::PoolMetadataReceived { request_id, metadata }).0;
            let answered = s.requests.pool_metadata[request_id@].payload.items.contains(k)
                && metadata@.contains_key(k);
            let here = PoolRef { key: k, chain };
            &&& answered && metadata@[k] is Ok ==> t.pools.verified.contains_key(here)
                && t.pools.verified[here] == metadata@[k]->Ok_0 && !t.pools.rejected.contains(k)
            &&& answered && metadata@[k] is Err && !s.pools.verified.contains_key(here)
                ==> t.pools.rejected.contains(k) && !t.pools.verified.contains_key(here)
            &&& !answered ==> (t.pools.rejected.contains(k) <==> s.pools.rejected.contains(k)) && (
            t.pools.verified.contains_key(here) <==> s.pools.verified.contains_key(here))
            &&& s.pools.verified.contains_key(here) && !(answered && metadata@[k] is Ok)
                ==> t.pools.verified.contains_key(here) && t.pools.verified[here]
                == s.pools.verified[here]
            &&& pool.chain != chain ==> (t.pools.verified.contains_key(pool)
                <==> s.pools.verified.contains_key(pool)) && (s.pools.verified.contains_key(pool)
                ==> t.pools.verified[pool] == s.pools.verified[pool])
        }),
{
    let asked = s.requests.pool_metadata[request_id@].payload.items;
    let results = metadata@.restrict(asked);
    assert(results.contains_key(k) <==> asked.contains(k) && metadata@.contains_key(k));
    assert(results.contains_key(pool.key) <==> asked.contains(pool.key) && metadata@.contains_key(
        pool.key,
    ));
}

/// Token results settle exactly the tokens that were asked about.
pub proof fn law_token_results_settle_what_was_asked(
    s: StateModel,
    chain: ChainKey,
    request_id: RequestId<GetTokenMetadata>,
    metadata: OrdMap<TokenAddress, TokenMetadataResult>,
    k: TokenAddress,
)
    requires
        s.requests.token_metadata.contains_key(request_id@),
    ensures
        ({
            let t = s.after(chain, Event::TokenMetadataReceived { request_id, metadata }).0;
            let answered = s.requests.token_metadata[request_id@].payload.items.contains(k)
                && metadata@.contains_key(k);
            &&& answered && metadata@[k] is Ok ==> t.tokens.verified.contains_key(k)
                && t.tokens.verified[k] == metadata@[k]->Ok_0 && !t.tokens.unsupported.contains(k)
            &&& answered && metadata@[k] is Err && !s.tokens.verified.contains_key(k)
                ==> t.tokens.unsupported.contains(k) && !t.tokens.verified.contains_key(k)
            &&& !answered ==> (t.tokens.unsupported.contains(k)
                <==> s.tokens.unsupported.contains(k)) && (t.tokens.verified.contains_key(k)
                <==> s.tokens.verified.contains_key(k))
            &&& s.tokens.verified.contains_key(k) && !(answered && metadata@[k] is Ok)
                ==> t.tokens.verified.contains_key(k) && t.tokens.verified[k]
                == s.tokens.verified[k]
        }),
{
    let asked = s.requests.token_metadata[request_id@].payload.items;
    let results = metadata@.restrict(asked);
    assert(results.contains_key(k) <==> asked.contains(k) && metadata@.contains_key(k));
}

/// Pool states that were read at the anchor enter the snapshot, those of pools of either protocol;
/// a failed read, and a read at another block, changes nothing.
pub proof fn law_pool_reads_enter_the_snapshot(
    s: StateModel,
    chain: ChainKey,
    request_id: RequestId<GetPoolData>,
    pools: OrdMap<PoolRef, PoolDataResult>,
    p: PoolRef,
)
    requires
        s.requests.pool_data.contains_key(request_id@),
    ensures
        ({
            let t = s.after(chain, Event::PoolDataReceived { request_id, pools }).0;
            let current = s.requests.pool_data[request_id@].payload.at == s.graph.anchor;
            let read = current && pools@.contains_key(p) && pools@[p] is Ok;
            &&& read ==> t.snapshot.contains_key(p) && t.snapshot[p] == pools@[p]->Ok_0
            &&& !read ==> (t.snapshot.contains_key(p) <==> s.snapshot.contains_key(p)) && (
            s.snapshot.contains_key(p) ==> t.snapshot[p] == s.snapshot[p])
        }),
{
}

// ---- answers and other requests ----

/// The request that an event answers is in flight no longer, and every other request stays in flight
/// as it was, whatever is asked for on top. Only the clock, a failure and a moved anchor touch others.
pub proof fn law_answer_ends_its_request_alone(
    s: StateModel,
    chain: ChainKey,
    event: Event,
    id: AnyId,
)
    requires
        ids_handed_out(s.requests),
        s.requests.last_id + s.after(chain, event).1.len() <= u64::MAX,
        !(event is FinalizedBlockObserved || event is RequestFailed || event is Tick),
        s.requests.contains(id),
    ensures
        ({
            let t = s.after(chain, event).0;
            let ends = match event {
                Event::BlockHeaderReceived { request_id, .. } => id == AnyId::BlockHeader(
                    request_id@,
                ),
                Event::BlockHeaderNotFound { request_id } => id == AnyId::BlockHeader(request_id@),
                Event::BlockLogsReceived { request_id, .. } => id == AnyId::BlockLogs(request_id@),
                Event::PoolMetadataReceived { request_id, .. } => id == AnyId::PoolMetadata(
                    request_id@,
                ),
                Event::TokenMetadataReceived { request_id, .. } => id == AnyId::TokenMetadata(
                    request_id@,
                ),
                Event::PoolDataReceived { request_id, .. } => id == AnyId::PoolData(request_id@),
                _ => false,
            };
            &&& t.requests.contains(id) <==> !ends
            &&& !ends ==> flight(t.requests, id) == flight(s.requests, id)
        }),
{
    lemma_events_keep_others(s, chain, event, id);
}

// ---- finality ----

/// A block reported final moves the anchor along the canonical path as far as authoritative logs of
/// the chain's verified pools allow, and folds them into the snapshot; a report that moves nothing
/// changes nothing. Watched are the contracts of the v3 pools and, with a v4 pool, the manager. When
/// the anchor moves, requests about blocks that are gone are given up, the others stay as they were,
/// and no logs stay staged.
pub proof fn law_finality_moves_anchor_and_snapshot(
    s: StateModel,
    chain: ChainKey,
    block_hash: BlockHash,
    verified: Set<PoolRef>,
    id: AnyId,
)
    requires
        forall|p: PoolRef| #[trigger]
            verified.contains(p) <==> s.pools.verified.contains_key(p) && p.chain == chain,
    ensures
        ({
            let t = s.after(chain, Event::FinalizedBlockObserved { block_hash }).0;
            let touch = s.graph.touching(watched_by(verified, spec_pool_manager_address(chain)));
            &&& t.graph == s.graph.reanchored(s.graph.final_root(block_hash, touch))
            &&& t.snapshot == s.graph.final_snapshot(block_hash, touch, s.snapshot, verified)
            &&& t.requests.last_id == s.requests.last_id
            &&& t.graph.anchor == s.graph.anchor ==> t == s
            &&& t.graph.anchor != s.graph.anchor ==> {
                let about = match id {
                    AnyId::BlockHeader(n) => s.requests.headers[n].payload,
                    AnyId::BlockLogs(n) => s.requests.logs[n].payload,
                    AnyId::PoolMetadata(n) => s.requests.pool_metadata[n].payload.at,
                    AnyId::TokenMetadata(n) => s.requests.token_metadata[n].payload.at,
                    AnyId::PoolData(n) => s.requests.pool_data[n].payload.at,
                };
                &&& forall|h: BlockHash| !#[trigger] t.staged.contains_key(h)
                &&& t.requests.contains(id) <==> s.requests.contains(id)
                    && t.graph.blocks.contains_key(about)
                &&& t.requests.contains(id) ==> flight(t.requests, id) == flight(s.requests, id)
            }
        }),
{
    assert(verified =~= s.pools.pools_on(chain));
    assert(s.pool_touching(chain) == s.graph.touching(
        watched_by(verified, spec_pool_manager_address(chain)),
    ));
}

/// The finalized header is due when the path has its target length and is first seen, was shorter
/// before, or has since passed another multiple of the stride above the target; never otherwise.
pub proof fn law_refresh_at_each_stride(
    before: Option<nat>,
    after: Option<nat>,
    target_len: nat,
    stride: nat,
)
    ensures
        after is None || after->0 < target_len ==> !refresh_due(before, after, target_len, stride),
        after is Some && after->0 >= target_len && (before is None || before->0 < target_len)
            ==> refresh_due(before, after, target_len, stride),
        after is Some && before is Some && before->0 >= target_len && after->0 >= target_len
            && stride == 0 ==> !refresh_due(before, after, target_len, stride),
        after is Some && before is Some && before->0 >= target_len && after->0 >= target_len
            && stride > 0 ==> (refresh_due(before, after, target_len, stride) <==> exists|k: nat|
            before->0 < #[trigger] (target_len + k * stride) <= after->0),
        forall|len: nat| stride > 0 && len >= target_len ==> {
            let b = #[trigger] refresh_bucket(len, target_len, stride);
            target_len + b * stride <= len < target_len + b * stride + stride
        },
        forall|len: nat|
            stride == 0 || len < target_len ==> #[trigger] refresh_bucket(len, target_len, stride)
                == 0,
{
    if stride > 0 {
        assert forall|len: nat| len >= target_len implies ({
            let b = #[trigger] refresh_bucket(len, target_len, stride);
            target_len + b * stride <= len < target_len + b * stride + stride
        }) by {
            let d = (len - target_len) as nat;
            lemma_fundamental_div_mod(d as int, stride as int);
            lemma_mod_division_less_than_divisor(d as int, stride as int);
            let b = refresh_bucket(len, target_len, stride);
            assert(b * stride == stride * b) by (nonlinear_arith);
        }
        if after is Some && before is Some && before->0 >= target_len && after->0 >= target_len {
            let x = refresh_bucket(before->0, target_len, stride);
            let y = refresh_bucket(after->0, target_len, stride);
            assert(target_len + x * stride <= before->0 < target_len + x * stride + stride);
            assert(target_len + y * stride <= after->0 < target_len + y * stride + stride);
            if x < y {
                assert(y * stride >= (x + 1) * stride) by (nonlinear_arith)
                    requires
                        x + 1 <= y,
                        stride > 0,
                ;
                assert((x + 1) * stride == x * stride + stride) by (nonlinear_arith);
                assert(before->0 < target_len + y * stride <= after->0);
            }
            if exists|k: nat| before->0 < #[trigger] (target_len + k * stride) <= after->0 {
                let k = choose|k: nat|
                    before->0 < #[trigger] (target_len + k * stride) <= after->0;
                assert(x < k) by (nonlinear_arith)
                    requires
                        target_len + x * stride <= before->0,
                        before->0 < target_len + k * stride,
                        stride > 0,
                ;
                assert(k <= y) by (nonlinear_arith)
                    requires
                        target_len + k * stride <= after->0,
                        after->0 < target_len + y * stride + stride,
                        stride > 0,
                ;
            }
        }
    }
}

// ---- beginnings ----

/// At the beginning nothing is known but the anchor, which is the head.
pub proof fn law_beginning_is_empty(anchor: BlockHash, h: BlockHash, p: PoolRef, id: AnyId)
    ensures
        ({
            let s = initial_state(anchor);
            &&& s.graph.anchor == anchor
            &&& s.graph.head == anchor
            &&& !s.graph.blocks.contains_key(h)
            &&& !s.staged.contains_key(h)
            &&& !s.snapshot.contains_key(p)
            &&& !s.pools.verified.contains_key(p)
            &&& !s.pools.rejected.contains(p.key)
            &&& !s.requests.contains(id)
            &&& s.requests.last_id == 0
            &&& s.tick.raw == 0
        }),
{
}

/// A window of at most 1024 blocks enters whole: each block, the first of its hash, that is not the
/// anchor and does not name itself as its parent is there with its parent and number, without a
/// bloom, and with its logs as authoritative ones. Nothing else is there, and the anchor is the head.
pub proof fn law_seed_window_enters(
    anchor: BlockHash,
    blocks: Seq<(BlockHash, BlockHash, u64, Vec<PoolLog>)>,
)
    requires
        blocks.len() <= 1024,
    ensures
        forall|j: int|
            0 <= j < blocks.len() && blocks[j].0 != anchor && blocks[j].0 != blocks[j].1 && (forall|
                i: int,
            |
                0 <= i < j ==> (#[trigger] blocks[i]).0 != blocks[j].0) ==> {
                let b = seeded(anchor, blocks).blocks[(#[trigger] blocks[j]).0];
                &&& seeded(anchor, blocks).blocks.contains_key(blocks[j].0)
                &&& b.parent == blocks[j].1
                &&& b.data.number == blocks[j].2
                &&& b.data.bloom is None
                &&& b.data.logs == LogsModel::Complete(keyed(blocks[j].3@))
            },
        forall|h: BlockHash| #[trigger]
            seeded(anchor, blocks).blocks.contains_key(h) ==> exists|j: int|
                0 <= j < blocks.len() && (#[trigger] blocks[j]).0 == h,
        seeded(anchor, blocks).blocks.dom().finite(),
        seeded(anchor, blocks).blocks.len() <= blocks.len(),
        seeded(anchor, blocks).anchor == anchor,
        seeded(anchor, blocks).head == anchor,
    decreases blocks.len(),
{
    let g = seeded(anchor, blocks);
    if blocks.len() > 0 {
        let shorter = blocks.drop_last();
        let before = seeded(anchor, shorter);
        let last = blocks.last();
        let data = seed_data(last.2, last.3@);
        law_seed_window_enters(anchor, shorter);
        assert(before.pending_blocks().subset_of(before.blocks.dom()));
        vstd::set_lib::lemma_len_subset(before.pending_blocks(), before.blocks.dom());
        assert(before.pending_blocks().len() < MAX_PENDING_BLOCKS);
        assert(g.blocks.dom() =~= before.blocks.dom() || g.blocks.dom()
            =~= before.blocks.dom().insert(last.0));
        assert forall|h: BlockHash| #[trigger] g.blocks.contains_key(h) implies exists|j: int|
            0 <= j < blocks.len() && (#[trigger] blocks[j]).0 == h by {
            if before.blocks.contains_key(h) {
                let j = choose|j: int| 0 <= j < shorter.len() && (#[trigger] shorter[j]).0 == h;
                assert(blocks[j].0 == h);
            } else {
                assert(blocks[blocks.len() - 1].0 == h);
            }
        }
        assert forall|j: int|
            0 <= j < blocks.len() && blocks[j].0 != anchor && blocks[j].0 != blocks[j].1 && (forall|
                i: int,
            |
                0 <= i < j ==> (#[trigger] blocks[i]).0 != blocks[j].0) implies {
            let b = g.blocks[(#[trigger] blocks[j]).0];
            &&& g.blocks.contains_key(blocks[j].0)
            &&& b.parent == blocks[j].1
            &&& b.data.number == blocks[j].2
            &&& b.data.bloom is None
            &&& b.data.logs == LogsModel::Complete(keyed(blocks[j].3@))
        } by {
            if j < shorter.len() {
                assert(shorter[j] == blocks[j]);
                assert forall|i: int| 0 <= i < j implies (#[trigger] shorter[i]).0
                    != shorter[j].0 by {
                    assert(blocks[i].0 != blocks[j].0);
                }
                assert(before.blocks.contains_key(shorter[j].0));
            } else {
                assert(!before.blocks.contains_key(last.0)) by {
                    if before.blocks.contains_key(last.0) {
                        let i = choose|i: int|
                            0 <= i < shorter.len() && (#[trigger] shorter[i]).0 == last.0;
                        assert(blocks[i].0 == blocks[j].0);
                    }
                }
            }
        }
    }
}

/// A warm start holds the snapshot and the registries that it was given, has staged nothing and
/// begins at time zero; in flight is one header for each missing parent, and nothing else.
pub proof fn law_warm_start_holds_what_it_was_given(
    graph: GraphModel,
    snapshot: Map<PoolRef, PoolState>,
    pools: PoolsModel,
    tokens: TokensModel,
    h: BlockHash,
)
    requires
        graph.wf(),
        graph.absent_parents().len() < u64::MAX,
    ensures
        ({
            let s = warm_state(graph, snapshot, pools, tokens);
            &&& s.graph == graph
            &&& s.snapshot == snapshot
            &&& s.pools == pools
            &&& s.tokens == tokens
            &&& s.tick.raw == 0
            &&& !s.staged.contains_key(h)
            &&& graph.absent_parents().contains(h) <==> exists|id: u64| #[trigger]
                s.requests.headers.contains_key(id) && s.requests.headers[id].payload == h
            &&& s.requests.logs.dom() == Set::<u64>::empty()
            &&& s.requests.pool_metadata.dom() == Set::<u64>::empty()
            &&& s.requests.token_metadata.dom() == Set::<u64>::empty()
            &&& s.requests.pool_data.dom() == Set::<u64>::empty()
        }),
{
    let missing = ascending(graph.absent_parents());
    lemma_absent_parents_finite(graph);
    lemma_ascending(graph.absent_parents());
    lemma_only_headers(missing, Tick { raw: 0 });
    assert(missing.contains(h) <==> graph.absent_parents().contains(h));
}

proof fn lemma_only_headers(hashes: Seq<BlockHash>, now: Tick)
    requires
        hashes.len() < u64::MAX,
    ensures
        ({
            let none = Plan { requests: RequestsModel::empty(), sent: Seq::empty() };
            let q = none.ask_all::<GetBlockHeader>(hashes, now).requests;
            &&& q.last_id == hashes.len()
            &&& forall|id: u64| #[trigger]
                q.headers.contains_key(id) <==> 1 <= id <= hashes.len()
            &&& forall|id: u64|
                1 <= id <= hashes.len() ==> (#[trigger] q.headers[id]).payload == hashes[id - 1]
            &&& forall|h: BlockHash| #[trigger]
                hashes.contains(h) <==> exists|id: u64| #[trigger]
                    q.headers.contains_key(id) && q.headers[id].payload == h
            &&& q.logs.dom() == Set::<u64>::empty()
            &&& q.pool_metadata.dom() == Set::<u64>::empty()
            &&& q.token_metadata.dom() == Set::<u64>::empty()
            &&& q.pool_data.dom() == Set::<u64>::empty()
        }),
    decreases hashes.len(),
{
    let none = Plan { requests: RequestsModel::empty(), sent: Seq::empty() };
    let q = none.ask_all::<GetBlockHeader>(hashes, now).requests;
    if hashes.len() > 0 {
        lemma_only_headers(hashes.drop_last(), now);
    }
    assert forall|h: BlockHash| #[trigger] hashes.contains(h) <==> exists|id: u64| #[trigger]
        q.headers.contains_key(id) && q.headers[id].payload == h by {
        if hashes.contains(h) {
            let i = choose|i: int| 0 <= i < hashes.len() && hashes[i] == h;
            let id = (i + 1) as u64;
            assert(q.headers.contains_key(id) && q.headers[id].payload == h);
        }
        if exists|id: u64| #[trigger] q.headers.contains_key(id) && q.headers[id].payload == h {
            let id = choose|id: u64| #[trigger]
                q.headers.contains_key(id) && q.headers[id].payload == h;
            assert(hashes[id - 1] == h);
        }
    }
}

} // verus!
