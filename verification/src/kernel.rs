//! The event kernel: a pure step from state and event to state and requests to send.
use vstd::prelude::*;

use crate::blocks_graph::{candidates_view, seeded, BlocksGraph};
use crate::graph_model::{Authority, GraphModel};
use crate::kernel_model::{
    first_of, fresh_batches, initial_state, named_by, refresh_bucket, refresh_due, seed_requests,
    token_sources, tokens_among, warm_state, with_read_states, Plan, StateModel,
};
use crate::metadata_catalog::MetadataCatalog;
use crate::ord_map::{OrdMap, OrdSet};
use crate::order::{ascending, lemma_take_next, lemma_walk, lists};
use crate::pending_requests::{
    asked_blocks, asked_items, issued_view, AnyIssuedRequest, AnyRequestId, Batch, GetBlockHeader,
    GetBlockLogs, GetPoolData, GetPoolMetadata, GetTokenMetadata, Issued, PendingRequests, Request,
    RequestsModel,
};
use crate::pool_registry::{PoolMetadata, PoolMetadataResult, PoolsModel, TrustedPoolRegistry};
use crate::pool_state::{PoolDataResult, PoolLog, PoolRef, PoolState, ProtocolPoolKey};
use crate::primitives::{Address, BlockHash, Bloom, ChainKey};
use crate::request_tracking::{IssuedRequest, RequestId};
use crate::tick::Tick;
use crate::token_registry::{TokenAddress, TokenMetadata, TokenMetadataResult, TokenRegistry};
use crate::uniswap_v4::pool_manager_address;

verus! {

/// Caps how many absent blocks can have staged logs at once.
pub const MAX_STREAMED_LOG_BLOCKS: usize = 1024;

/// Caps how many pools one anchor read names, so that a large uncovered set drains over several
/// rounds.
pub const FINALIZED_POOL_SEED_CHUNK: usize = 100;

/// The freshest pool states: for each pool that the canonical path changes or seeds its state, and
/// the block at which the states hold. Every other pool is absent; its state is the finalized one.
#[derive(Debug, PartialEq)]
pub struct OptimizationStateUpdate {
    pub block_hash: BlockHash,
    pub pool_states: OrdMap<PoolRef, PoolState>,
}

impl Clone for OptimizationStateUpdate {
    fn clone(&self) -> (r: OptimizationStateUpdate)
        ensures
            r.block_hash == self.block_hash,
            r.pool_states@ == self.pool_states@,
    {
        OptimizationStateUpdate {
            block_hash: self.block_hash,
            pool_states: self.pool_states.copied(),
        }
    }
}

/// The block graph and the pool states at its anchor.
#[derive(Debug)]
pub struct Blocks {
    pub graph: BlocksGraph,
    pub finalized_snapshot: OrdMap<PoolRef, PoolState>,
}

/// The kernel's state.
#[derive(Debug)]
pub struct State {
    pub pending_requests: PendingRequests,
    pub pool_registry: TrustedPoolRegistry,
    pub token_registry: TokenRegistry,
    pub tick: Tick,
    /// Logs that came before their block.
    pub streamed_logs: OrdMap<BlockHash, Vec<PoolLog>>,
    pub blocks: Blocks,
}

/// What the kernel is told.
#[allow(inconsistent_fields)]
#[derive(Debug)]
pub enum Event {
    /// The feed reports a new head.
    HeadObserved { hash: BlockHash, parent_hash: BlockHash, logs_bloom: Bloom, number: u64 },
    /// The feed reports a final block.
    FinalizedBlockObserved { block_hash: BlockHash },
    BlockHeaderReceived {
        request_id: RequestId<GetBlockHeader>,
        hash: BlockHash,
        parent_hash: BlockHash,
        logs_bloom: Bloom,
        number: u64,
    },
    BlockHeaderNotFound { request_id: RequestId<GetBlockHeader> },
    BlockLogsReceived { request_id: RequestId<GetBlockLogs>, logs: Vec<PoolLog> },
    /// Best-effort logs of the live subscription.
    LogObserved { block_hash: BlockHash, logs: Vec<PoolLog> },
    PoolMetadataReceived {
        request_id: RequestId<GetPoolMetadata>,
        metadata: OrdMap<ProtocolPoolKey, PoolMetadataResult>,
    },
    TokenMetadataReceived {
        request_id: RequestId<GetTokenMetadata>,
        metadata: OrdMap<TokenAddress, TokenMetadataResult>,
    },
    /// Pool states read at the anchor.
    PoolDataReceived {
        request_id: RequestId<GetPoolData>,
        pools: OrdMap<PoolRef, PoolDataResult>,
    },
    RequestFailed { request_id: AnyRequestId },
    /// The clock advances.
    Tick,
}

/// What the kernel asks for.
#[derive(Debug, PartialEq, Eq)]
pub enum Effect {
    Request(AnyIssuedRequest),
}

pub open spec fn staged_view(m: Map<BlockHash, Vec<PoolLog>>) -> Map<BlockHash, Seq<PoolLog>> {
    Map::new(|h: BlockHash| m.contains_key(h), |h: BlockHash| m[h]@)
}

pub open spec fn effects_view(s: Seq<Effect>) -> Seq<Issued> {
    Seq::new(
        s.len(),
        |i: int|
            match s[i] {
                Effect::Request(issued) => issued@,
            },
    )
}

impl View for State {
    type V = StateModel;

    open spec fn view(&self) -> StateModel {
        StateModel {
            requests: self.pending_requests@,
            pools: self.pool_registry@,
            tokens: self.token_registry@,
            tick: self.tick,
            staged: staged_view(self.streamed_logs@),
            graph: self.blocks.graph@,
            snapshot: self.blocks.finalized_snapshot@,
        }
    }
}

/// Adds a request, and the effect that sends it.
fn ask<R: Request>(
    requests: PendingRequests,
    effects: Vec<Effect>,
    payload: R,
    tick: Tick,
) -> (r: (PendingRequests, Vec<Effect>))
    ensures
        (Plan { requests: r.0@, sent: effects_view(r.1@) }) == (Plan {
            requests: requests@,
            sent: effects_view(effects@),
        }).ask::<R>(payload.model(), tick),
{
    let ghost before = effects@;
    let request_payload = payload.duplicate();
    let (requests, request_id) = requests.with_new_request(payload, tick);
    let mut effects = effects;
    let issued = R::announce(IssuedRequest { request_id, request_payload });
    effects.push(Effect::Request(issued));
    assert(effects_view(effects@) =~= effects_view(before).push(issued@));
    (requests, effects)
}

/// Issues a header request, unless the header is being fetched.
pub fn request_missing_header(
    pending_requests: PendingRequests,
    tick: Tick,
    missing_hash: BlockHash,
) -> (r: (PendingRequests, Vec<Effect>))
    ensures
        (Plan { requests: r.0@, sent: effects_view(r.1@) }) == (Plan {
            requests: pending_requests@,
            sent: Seq::empty(),
        }).ask_header(missing_hash, tick),
{
    let none: Vec<Effect> = Vec::new();
    assert(effects_view(none@) =~= Seq::empty());
    if pending_requests.has_pending_header_request(missing_hash) {
        return (pending_requests, none);
    }
    ask(pending_requests, none, GetBlockHeader { block_hash: missing_hash }, tick)
}

/// Adds a header request for every missing parent.
pub fn schedule_missing_header_requests(state: State, effects: Vec<Effect>) -> (r: (
    State,
    Vec<Effect>,
))
    requires
        state.wf(),
    ensures
        r.0.wf(),
        (Plan { requests: r.0@.requests, sent: effects_view(r.1@) }) == state@.header_plan(
            Plan { requests: state@.requests, sent: effects_view(effects@) },
        ),
        r.0@ == state@.with_requests(r.0@.requests),
{
    let missing = state.blocks.graph.missing_parents();
    let n: usize = missing.len();
    let tick = state.tick;
    let ghost start = Plan { requests: state@.requests, sent: effects_view(effects@) };
    let ghost before = state@;
    let mut requests = state.pending_requests;
    let mut effects = effects;
    for i in 0..n
        invariant
            n == missing@.len(),
            (Plan { requests: requests@, sent: effects_view(effects@) }) == start.ask_headers(
                missing@.take(i as int),
                tick,
            ),
    {
        let ghost before_sent = effects_view(effects@);
        let ghost held = effects@;
        let (next, mut sent) = request_missing_header(requests, tick, missing[i]);
        let ghost new_sent = sent@;
        requests = next;
        effects.append(&mut sent);
        proof {
            lemma_take_next(missing@, i as int);
            assert(effects_view(held + new_sent) =~= effects_view(held) + effects_view(new_sent));
            assert(before_sent + Seq::<Issued>::empty() =~= before_sent);
            assert forall|x: Issued| before_sent + Seq::<Issued>::empty().push(x)
                =~= before_sent.push(x) by {}
        }
    }
    assert(missing@.take(n as int) =~= missing@);
    (State { pending_requests: requests, ..state }, effects)
}

/// Adds a log request for every present block that lacks authoritative logs and may matter. As long
/// as no v3 pool is verified every block matters; afterwards those whose bloom may carry a log of a
/// verified pool or of the v4 manager, through which new v4 pools are found.
pub fn schedule_unknown_canonical_log_requests(
    chain: ChainKey,
    state: State,
    effects: Vec<Effect>,
) -> (r: (State, Vec<Effect>))
    requires
        state.wf(),
    ensures
        r.0.wf(),
        (Plan { requests: r.0@.requests, sent: effects_view(r.1@) }) == state@.log_plan(
            chain,
            Plan { requests: state@.requests, sent: effects_view(effects@) },
        ),
        r.0@ == state@.with_requests(r.0@.requests),
{
    let pending = state.pending_requests.pending_block_log_hashes();
    let mut trusted = state.pool_registry.verified_addresses(chain);
    let gate_active: bool = !trusted.is_empty();
    if let Some(manager) = pool_manager_address(chain) {
        trusted = trusted.with(manager);
    }
    let gate: Option<&OrdSet<Address>> = if gate_active {
        Some(&trusted)
    } else {
        None
    };
    let hashes = state.blocks.graph.unresolved_log_request_hashes(gate, &pending);
    let n: usize = hashes.len();
    let tick = state.tick;
    let ghost start = Plan { requests: state@.requests, sent: effects_view(effects@) };
    assert(hashes@ == state@.graph.unresolved(
        state@.log_gate(chain),
        asked_blocks(state@.requests.logs),
    ));
    let mut requests = state.pending_requests;
    let mut effects = effects;
    for i in 0..n
        invariant
            n == hashes@.len(),
            (Plan { requests: requests@, sent: effects_view(effects@) }) == start.ask_all::<
                GetBlockLogs,
            >(hashes@.take(i as int), tick),
    {
        proof {
            lemma_take_next(hashes@, i as int);
        }
        let (next, sent) = ask(requests, effects, GetBlockLogs { block_hash: hashes[i] }, tick);
        requests = next;
        effects = sent;
    }
    assert(hashes@.take(n as int) =~= hashes@);
    (State { pending_requests: requests, ..state }, effects)
}

/// The candidates that are neither known nor unavailable.
fn fresh_candidates(
    chain: ChainKey,
    registry: &TrustedPoolRegistry,
    candidates: &OrdSet<ProtocolPoolKey>,
    unavailable: &OrdSet<ProtocolPoolKey>,
) -> (r: OrdSet<ProtocolPoolKey>)
    ensures
        forall|k: ProtocolPoolKey| #[trigger]
            r@.contains(k) <==> candidates@.contains(k) && !registry@.known(chain, k)
                && !unavailable@.contains(k),
{
    let mut r: OrdSet<ProtocolPoolKey> = OrdSet::new();
    let n: usize = candidates.len();
    let ghost listed = ascending(candidates@);
    proof {
        lemma_walk(candidates@);
    }
    for i in 0..n
        invariant
            n == candidates@.len(),
            listed == ascending(candidates@),
            lists(listed, candidates@),
            listed.len() == n,
            forall|k: ProtocolPoolKey| #[trigger]
                r@.contains(k) <==> listed.take(i as int).contains(k) && !registry@.known(chain, k)
                    && !unavailable@.contains(k),
    {
        let candidate = candidates.at(i);
        proof {
            lemma_take_next(listed, i as int);
        }
        if !registry.is_known(chain, candidate) && !unavailable.contains(&candidate) {
            r = r.with(candidate);
        }
    }
    proof {
        assert(listed.take(n as int) =~= listed);
        assert forall|k: ProtocolPoolKey| #[trigger] r@.contains(k) <==> candidates@.contains(k)
            && !registry@.known(chain, k) && !unavailable@.contains(k) by {
            assert(listed.contains(k) <==> candidates@.contains(k));
        }
    }
    r
}

/// The tokens of the verified pools among candidates that are neither known nor unavailable.
fn fresh_tokens(
    chain: ChainKey,
    registry: &TrustedPoolRegistry,
    tokens: &TokenRegistry,
    candidates: &OrdSet<ProtocolPoolKey>,
    unavailable: &OrdSet<TokenAddress>,
) -> (r: OrdSet<TokenAddress>)
    ensures
        forall|t: TokenAddress| #[trigger]
            r@.contains(t) <==> tokens_among(registry@, chain, candidates@).contains(t)
                && !tokens@.known(t) && !unavailable@.contains(t),
{
    let mut r: OrdSet<TokenAddress> = OrdSet::new();
    let n: usize = candidates.len();
    let ghost listed = ascending(candidates@);
    let ghost pools = registry@;
    proof {
        lemma_walk(candidates@);
    }
    for i in 0..n
        invariant
            n == candidates@.len(),
            listed == ascending(candidates@),
            lists(listed, candidates@),
            listed.len() == n,
            pools == registry@,
            forall|t: TokenAddress| #[trigger]
                r@.contains(t) <==> !tokens@.known(t) && !unavailable@.contains(t) && exists|j: int|
                    0 <= j < i && holds_token(pools, chain, #[trigger] listed[j], t),
    {
        let candidate = candidates.at(i);
        let ghost before = r@;
        if let Some(pool) = registry.verified_pool(chain, candidate) {
            if let Some(metadata) = registry.verified_metadata(pool) {
                let token0 = TokenAddress(metadata.token0, chain);
                let token1 = TokenAddress(metadata.token1, chain);
                if !tokens.is_known(token0) && !unavailable.contains(&token0) {
                    r = r.with(token0);
                }
                if !tokens.is_known(token1) && !unavailable.contains(&token1) {
                    r = r.with(token1);
                }
            }
        }
        proof {
            assert forall|t: TokenAddress| #[trigger] r@.contains(t) <==> !tokens@.known(t)
                && !unavailable@.contains(t) && exists|j: int|
                0 <= j < i + 1 && holds_token(pools, chain, #[trigger] listed[j], t) by {
                if before.contains(t) {
                    let j = choose|j: int|
                        0 <= j < i && holds_token(pools, chain, #[trigger] listed[j], t);
                    assert(holds_token(pools, chain, listed[j], t));
                }
                if holds_token(pools, chain, candidate, t) {
                    assert(holds_token(pools, chain, listed[i as int], t));
                }
                if exists|j: int|
                    0 <= j < i + 1 && holds_token(pools, chain, #[trigger] listed[j], t) {
                    let j = choose|j: int|
                        0 <= j < i + 1 && holds_token(pools, chain, #[trigger] listed[j], t);
                    if j < i && !tokens@.known(t) && !unavailable@.contains(t) {
                        assert(before.contains(t));
                    }
                }
            }
        }
    }
    proof {
        assert forall|t: TokenAddress| #[trigger] r@.contains(t) <==> tokens_among(
            pools,
            chain,
            candidates@,
        ).contains(t) && !tokens@.known(t) && !unavailable@.contains(t) by {
            if r@.contains(t) {
                let j = choose|j: int|
                    0 <= j < n && holds_token(pools, chain, #[trigger] listed[j], t);
                assert(listed.contains(listed[j]));
                assert(candidates@.contains(listed[j]));
            }
            if tokens_among(pools, chain, candidates@).contains(t) {
                let k = choose|k: ProtocolPoolKey| #[trigger]
                    candidates@.contains(k) && holds_token(pools, chain, k, t);
                assert(exists|k: ProtocolPoolKey| #[trigger]
                    candidates@.contains(k) && holds_token(pools, chain, k, t));
                assert(listed.contains(k));
                let j = choose|j: int| 0 <= j < listed.len() && listed[j] == k;
                assert(holds_token(pools, chain, listed[j], t));
            }
        }
    }
    r
}

/// The candidate is a verified pool that trades the token.
spec fn holds_token(pools: PoolsModel, chain: ChainKey, k: ProtocolPoolKey, t: TokenAddress) -> bool {
    t.1 == chain && pools.is_verified(chain, k) && ({
        let m = pools.verified[PoolRef { key: k, chain }];
        m.token0 == t.0 || m.token1 == t.0
    })
}

proof fn lemma_named_next<K>(sources: Seq<(BlockHash, Set<K>)>, i: int)
    requires
        0 <= i < sources.len(),
    ensures
        forall|k: K| #[trigger]
            named_by(sources.take(i + 1)).contains(k) <==> named_by(sources.take(i)).contains(k)
                || sources[i].1.contains(k),
{
    assert forall|k: K| #[trigger] named_by(sources.take(i + 1)).contains(k) <==> named_by(
        sources.take(i),
    ).contains(k) || sources[i].1.contains(k) by {
        let longer = sources.take(i + 1);
        let shorter = sources.take(i);
        if named_by(shorter).contains(k) {
            let j = choose|j: int| 0 <= j < shorter.len() && (#[trigger] shorter[j]).1.contains(k);
            assert(longer[j].1.contains(k));
        }
        if sources[i].1.contains(k) {
            assert(longer[i].1.contains(k));
        }
        if named_by(longer).contains(k) {
            let j = choose|j: int| 0 <= j < longer.len() && (#[trigger] longer[j]).1.contains(k);
            if j < i {
                assert(shorter[j].1.contains(k));
            }
        }
    }
}

/// Adds a validation request for each block that is the first, from the head down, to name a
/// candidate that is neither known nor being validated.
pub fn schedule_unknown_canonical_pool_metadata_requests(
    chain: ChainKey,
    candidates_from_head: &Vec<(BlockHash, OrdSet<ProtocolPoolKey>)>,
    state: State,
    effects: Vec<Effect>,
) -> (r: (State, Vec<Effect>))
    requires
        state.wf(),
    ensures
        r.0.wf(),
        (Plan { requests: r.0@.requests, sent: effects_view(r.1@) }) == state@.pool_plan_for(
            chain,
            candidates_view(candidates_from_head@),
            Plan { requests: state@.requests, sent: effects_view(effects@) },
        ),
        r.0@ == state@.with_requests(r.0@.requests),
{
    let tick = state.tick;
    let n: usize = candidates_from_head.len();
    let ghost sources = candidates_view(candidates_from_head@);
    let ghost start = Plan { requests: state@.requests, sent: effects_view(effects@) };
    let ghost settled = state@.settled_pools(chain, state@.requests);
    let ghost asked = asked_items(state@.requests.pool_metadata);
    let ghost pools = state.pool_registry@;
    let mut unavailable = state.pending_requests.pending_pool_metadata_candidates();
    let mut requests = state.pending_requests;
    let mut effects = effects;
    proof {
        assert(named_by(sources.take(0)) =~= Set::empty());
    }
    for i in 0..n
        invariant
            n == candidates_from_head@.len(),
            sources == candidates_view(candidates_from_head@),
            pools == state.pool_registry@,
            settled == Set::new(
                |k: ProtocolPoolKey| pools.known(chain, k) || asked.contains(k),
            ),
            forall|k: ProtocolPoolKey|
                !pools.known(chain, k) ==> (#[trigger] unavailable@.contains(k) <==> asked.contains(
                    k,
                ) || named_by(sources.take(i as int)).contains(k)),
            (Plan { requests: requests@, sent: effects_view(effects@) }) == start.ask_all::<
                GetPoolMetadata,
            >(fresh_batches(sources.take(i as int), settled), tick),
    {
        let source = &candidates_from_head[i];
        let ghost held = unavailable@;
        let candidates = fresh_candidates(chain, &state.pool_registry, &source.1, &unavailable);
        let ghost items = sources[i as int].1.difference(settled).difference(
            named_by(sources.take(i as int)),
        );
        proof {
            lemma_take_next(sources, i as int);
            lemma_named_next(sources, i as int);
            assert(candidates@ =~= items);
        }
        if !candidates.is_empty() {
            unavailable = unavailable.with_all(&candidates);
            proof {
                let batches = fresh_batches(sources.take(i as int), settled);
                let batch = Batch { at: source.0, items };
                assert(fresh_batches(sources.take(i + 1), settled) == batches.push(batch));
                assert(batches.push(batch).drop_last() =~= batches);
            }
            let (next, sent) = ask(
                requests,
                effects,
                GetPoolMetadata { at: source.0, candidates },
                tick,
            );
            requests = next;
            effects = sent;
        }
        proof {
            assert forall|k: ProtocolPoolKey| !pools.known(chain, k) implies (#[trigger] unavailable@.contains(k)
                <==> asked.contains(k) || named_by(sources.take(i + 1)).contains(k)) by {
                assert(held.contains(k) <==> asked.contains(k) || named_by(
                    sources.take(i as int),
                ).contains(k));
                assert(named_by(sources.take(i + 1)).contains(k) <==> named_by(
                    sources.take(i as int),
                ).contains(k) || sources[i as int].1.contains(k));
                assert(settled.contains(k) <==> asked.contains(k));
                assert(items.contains(k) <==> sources[i as int].1.contains(k) && !settled.contains(
                    k,
                ) && !named_by(sources.take(i as int)).contains(k));
            }
        }
    }
    assert(sources.take(n as int) =~= sources);
    (State { pending_requests: requests, ..state }, effects)
}

/// Adds a token request for each block that is the first, from the head down, to name a verified
/// pool with a token that is neither known nor being asked about.
pub fn schedule_unknown_canonical_token_metadata_requests(
    chain: ChainKey,
    candidates_from_head: &Vec<(BlockHash, OrdSet<ProtocolPoolKey>)>,
    state: State,
    effects: Vec<Effect>,
) -> (r: (State, Vec<Effect>))
    requires
        state.wf(),
    ensures
        r.0.wf(),
        (Plan { requests: r.0@.requests, sent: effects_view(r.1@) }) == state@.token_plan_for(
            chain,
            candidates_view(candidates_from_head@),
            Plan { requests: state@.requests, sent: effects_view(effects@) },
        ),
        r.0@ == state@.with_requests(r.0@.requests),
{
    let tick = state.tick;
    let n: usize = candidates_from_head.len();
    let ghost sources = token_sources(
        state@.pools,
        chain,
        candidates_view(candidates_from_head@),
    );
    let ghost start = Plan { requests: state@.requests, sent: effects_view(effects@) };
    let ghost settled = state@.settled_tokens(state@.requests);
    let ghost asked = asked_items(state@.requests.token_metadata);
    let ghost known = state.token_registry@;
    let ghost pools = state.pool_registry@;
    let mut unavailable = state.pending_requests.pending_token_metadata_tokens();
    let mut requests = state.pending_requests;
    let mut effects = effects;
    proof {
        assert(named_by(sources.take(0)) =~= Set::empty());
    }
    for i in 0..n
        invariant
            n == candidates_from_head@.len(),
            pools == state.pool_registry@,
            sources == token_sources(
                pools,
                chain,
                candidates_view(candidates_from_head@),
            ),
            known == state.token_registry@,
            settled == Set::new(|t: TokenAddress| known.known(t) || asked.contains(t)),
            forall|t: TokenAddress|
                !known.known(t) ==> (#[trigger] unavailable@.contains(t) <==> asked.contains(t)
                    || named_by(sources.take(i as int)).contains(t)),
            (Plan { requests: requests@, sent: effects_view(effects@) }) == start.ask_all::<
                GetTokenMetadata,
            >(fresh_batches(sources.take(i as int), settled), tick),
    {
        let source = &candidates_from_head[i];
        let ghost held = unavailable@;
        let tokens = fresh_tokens(
            chain,
            &state.pool_registry,
            &state.token_registry,
            &source.1,
            &unavailable,
        );
        let ghost items = sources[i as int].1.difference(settled).difference(
            named_by(sources.take(i as int)),
        );
        proof {
            lemma_take_next(sources, i as int);
            lemma_named_next(sources, i as int);
            assert(tokens@ =~= items);
        }
        if !tokens.is_empty() {
            unavailable = unavailable.with_all(&tokens);
            proof {
                let batches = fresh_batches(sources.take(i as int), settled);
                let batch = Batch { at: source.0, items };
                assert(fresh_batches(sources.take(i + 1), settled) == batches.push(batch));
                assert(batches.push(batch).drop_last() =~= batches);
            }
            let (next, sent) = ask(
                requests,
                effects,
                GetTokenMetadata { at: source.0, tokens },
                tick,
            );
            requests = next;
            effects = sent;
        }
        proof {
            assert forall|k: TokenAddress| !known.known(k) implies (#[trigger] unavailable@.contains(k)
                <==> asked.contains(k) || named_by(sources.take(i + 1)).contains(k)) by {
                assert(held.contains(k) <==> asked.contains(k) || named_by(
                    sources.take(i as int),
                ).contains(k));
                assert(named_by(sources.take(i + 1)).contains(k) <==> named_by(
                    sources.take(i as int),
                ).contains(k) || sources[i as int].1.contains(k));
                assert(settled.contains(k) <==> asked.contains(k));
                assert(items.contains(k) <==> sources[i as int].1.contains(k) && !settled.contains(
                    k,
                ) && !named_by(sources.take(i as int)).contains(k));
            }
        }
    }
    assert(sources.take(n as int) =~= sources);
    (State { pending_requests: requests, ..state }, effects)
}

/// The verified pools without a state at the anchor that are not being read.
fn uncovered(
    verified: &OrdSet<PoolRef>,
    snapshot: &OrdMap<PoolRef, PoolState>,
    pending: &OrdSet<PoolRef>,
) -> (r: OrdSet<PoolRef>)
    ensures
        forall|p: PoolRef| #[trigger]
            r@.contains(p) <==> verified@.contains(p) && !snapshot@.contains_key(p)
                && !pending@.contains(p),
{
    let mut r: OrdSet<PoolRef> = OrdSet::new();
    let n: usize = verified.len();
    let ghost listed = ascending(verified@);
    proof {
        lemma_walk(verified@);
    }
    for i in 0..n
        invariant
            n == verified@.len(),
            listed == ascending(verified@),
            lists(listed, verified@),
            listed.len() == n,
            forall|p: PoolRef| #[trigger]
                r@.contains(p) <==> listed.take(i as int).contains(p) && !snapshot@.contains_key(p)
                    && !pending@.contains(p),
    {
        let pool = verified.at(i);
        proof {
            lemma_take_next(listed, i as int);
        }
        if !snapshot.contains_key(&pool) && !pending.contains(&pool) {
            r = r.with(pool);
        }
    }
    proof {
        assert(listed.take(n as int) =~= listed);
        assert forall|p: PoolRef| #[trigger] r@.contains(p) <==> verified@.contains(p)
            && !snapshot@.contains_key(p) && !pending@.contains(p) by {
            assert(listed.contains(p) <==> verified@.contains(p));
        }
    }
    r
}

/// Adds a read of uncovered pools at the anchor, the first of them in order, unless a header or logs
/// are being fetched: coverage waits for the chain itself.
pub fn schedule_finalized_pool_seed_requests(
    chain: ChainKey,
    state: State,
    effects: Vec<Effect>,
) -> (r: (State, Vec<Effect>))
    requires
        state.wf(),
    ensures
        r.0.wf(),
        (Plan { requests: r.0@.requests, sent: effects_view(r.1@) }) == state@.seed_plan(
            chain,
            Plan { requests: state@.requests, sent: effects_view(effects@) },
        ),
        r.0@ == state@.with_requests(r.0@.requests),
{
    if state.pending_requests.has_pending_block_backfill() {
        return (state, effects);
    }
    let pending = state.pending_requests.pending_pool_data_pools();
    let verified = state.pool_registry.verified_pools(chain);
    let candidates = uncovered(&verified, &state.blocks.finalized_snapshot, &pending);
    assert(candidates@ =~= state@.uncovered_pools(chain, state@.requests));
    if candidates.is_empty() {
        return (state, effects);
    }
    let mut chunk = candidates.items();
    let ghost all = chunk@;
    chunk.truncate(FINALIZED_POOL_SEED_CHUNK);
    proof {
        if all.len() <= FINALIZED_POOL_SEED_CHUNK {
            assert(chunk@ =~= all);
        } else {
            assert(chunk@ =~= all.take(FINALIZED_POOL_SEED_CHUNK as int));
        }
    }
    let at = state.blocks.graph.anchor_hash();
    let tick = state.tick;
    let pools = OrdSet::from_items(chunk);
    assert(pools@ == first_of(all, FINALIZED_POOL_SEED_CHUNK as nat));
    let (requests, effects) = ask(state.pending_requests, effects, GetPoolData { at, pools }, tick);
    (State { pending_requests: requests, ..state }, effects)
}

/// Adds every follow-up request, in the order of their priority.
pub fn schedule_unknown_canonical_requests(
    chain: ChainKey,
    state: State,
    effects: Vec<Effect>,
) -> (r: (State, Vec<Effect>))
    requires
        state.wf(),
    ensures
        r.0.wf(),
        (r.0@, effects_view(r.1@)) == state@.scheduled(chain, effects_view(effects@)),
{
    let ghost s0 = state@;
    let ghost p0 = Plan { requests: state@.requests, sent: effects_view(effects@) };
    let (state, effects) = schedule_missing_header_requests(state, effects);
    let ghost p1 = s0.header_plan(p0);
    assert(state@ == s0.with_requests(p1.requests));
    let (state, effects) = schedule_unknown_canonical_log_requests(chain, state, effects);
    let ghost p2 = s0.log_plan(chain, p1);
    assert(state@ == s0.with_requests(p2.requests));
    let candidates_from_head = state.blocks.graph.pool_log_candidates_from_head();
    let (state, effects) = schedule_unknown_canonical_pool_metadata_requests(
        chain,
        &candidates_from_head,
        state,
        effects,
    );
    let ghost p3 = s0.pool_plan(chain, p2);
    assert(state@ == s0.with_requests(p3.requests));
    let (state, effects) = schedule_unknown_canonical_token_metadata_requests(
        chain,
        &candidates_from_head,
        state,
        effects,
    );
    let ghost p4 = s0.token_plan(chain, p3);
    assert(state@ == s0.with_requests(p4.requests));
    let (state, effects) = schedule_finalized_pool_seed_requests(chain, state, effects);
    let ghost p5 = s0.seed_plan(chain, p4);
    assert(state@ == s0.with_requests(p5.requests));
    assert(p5 == s0.follow_up(chain, p0.sent));
    (state, effects)
}

impl Blocks {
    /// An empty graph at `finalized_hash` with the given states there.
    pub fn new(finalized_hash: BlockHash, finalized_snapshot: OrdMap<PoolRef, PoolState>) -> (r: Blocks)
        ensures
            r.graph.wf(),
            r.graph@ == (GraphModel {
                anchor: finalized_hash,
                blocks: Map::empty(),
                head: finalized_hash,
            }),
            r.finalized_snapshot@ == finalized_snapshot@,
    {
        Blocks { graph: BlocksGraph::new(finalized_hash), finalized_snapshot }
    }

    /// Adds pool states read at `at` to the snapshot, when `at` is still the anchor. Failed reads are
    /// skipped.
    pub fn with_finalized_pool_seeds(self, at: BlockHash, results: OrdMap<PoolRef, PoolDataResult>) -> (r:
        Blocks)
        ensures
            r.graph == self.graph,
            r.finalized_snapshot@ == (if at == self.graph@.anchor {
                with_read_states(self.finalized_snapshot@, results@)
            } else {
                self.finalized_snapshot@
            }),
    {
        if at != self.graph.anchor_hash() {
            return self;
        }
        let ghost start = self.finalized_snapshot@;
        let graph = self.graph;
        let mut snapshot = self.finalized_snapshot;
        let n: usize = results.len();
        let ghost listed = ascending(results@.dom());
        proof {
            lemma_walk(results@.dom());
        }
        for i in 0..n
            invariant
                n == results@.len(),
                listed == ascending(results@.dom()),
                lists(listed, results@.dom()),
                listed.len() == n,
                forall|p: PoolRef| #[trigger]
                    snapshot@.contains_key(p) <==> start.contains_key(p) || (listed.take(
                        i as int,
                    ).contains(p) && results@[p] is Ok),
                forall|p: PoolRef|
                    snapshot@.contains_key(p) ==> #[trigger] snapshot@[p] == (if listed.take(
                        i as int,
                    ).contains(p) && results@[p] is Ok {
                        results@[p]->Ok_0
                    } else {
                        start[p]
                    }),
        {
            proof {
                lemma_take_next(listed, i as int);
            }
            let pool = results.key_at(i);
            if let Ok(pool_state) = results.value_at(i) {
                snapshot = snapshot.with(pool, *pool_state);
            }
        }
        proof {
            assert(listed.take(n as int) =~= listed);
            let whole = with_read_states(start, results@);
            assert forall|p: PoolRef| listed.contains(p) <==> results@.contains_key(p) by {
                assert(listed.contains(p) <==> results@.dom().contains(p));
            }
            assert(snapshot@ =~= whole);
        }
        Blocks { graph, finalized_snapshot: snapshot }
    }
}

impl State {
    /// The block graph is well formed.
    pub open spec fn wf(self) -> bool {
        self.blocks.graph.wf()
    }

    /// Nothing is known but the anchor.
    pub fn init(finalized_hash: BlockHash) -> (r: State)
        ensures
            r.wf(),
            r@ == initial_state(finalized_hash),
    {
        let r = State {
            blocks: Blocks::new(finalized_hash, OrdMap::new()),
            pending_requests: PendingRequests::new(),
            pool_registry: TrustedPoolRegistry::new(),
            token_registry: TokenRegistry::new(),
            tick: Tick::initial(),
            streamed_logs: OrdMap::new(),
        };
        assert(r@.staged =~= Map::empty());
        r
    }

    /// A warm start: the states at the anchor, the registries, and recent blocks with their full
    /// logs. A header is requested for each parent that is missing.
    pub fn activate_from_seed(
        finalized_hash: BlockHash,
        finalized_pool_snapshots: OrdMap<PoolRef, PoolState>,
        pool_registry: TrustedPoolRegistry,
        token_registry: TokenRegistry,
        seed_blocks: Vec<(BlockHash, BlockHash, u64, Vec<PoolLog>)>,
    ) -> (r: (State, Vec<Effect>))
        ensures
            r.0.wf(),
            r.0@ == warm_state(
                seeded(finalized_hash, seed_blocks@),
                finalized_pool_snapshots@,
                pool_registry@,
                token_registry@,
            ),
            effects_view(r.1@) == seed_requests(seeded(finalized_hash, seed_blocks@)).sent,
    {
        let tick = Tick::initial();
        let graph = BlocksGraph::from_seed(finalized_hash, seed_blocks);
        let missing = graph.missing_parents();
        let n: usize = missing.len();
        let mut requests = PendingRequests::new();
        let mut effects: Vec<Effect> = Vec::new();
        let ghost start = Plan { requests: RequestsModel::empty(), sent: Seq::empty() };
        assert(effects_view(effects@) =~= Seq::empty());
        for i in 0..n
            invariant
                n == missing@.len(),
                (Plan { requests: requests@, sent: effects_view(effects@) }) == start.ask_all::<
                    GetBlockHeader,
                >(missing@.take(i as int), tick),
        {
            proof {
                lemma_take_next(missing@, i as int);
            }
            let (next, sent) = ask(
                requests,
                effects,
                GetBlockHeader { block_hash: missing[i] },
                tick,
            );
            requests = next;
            effects = sent;
        }
        assert(missing@.take(n as int) =~= missing@);
        let state = State {
            blocks: Blocks { graph, finalized_snapshot: finalized_pool_snapshots },
            pending_requests: requests,
            pool_registry,
            token_registry,
            tick,
            streamed_logs: OrdMap::new(),
        };
        assert(state@.staged =~= Map::empty());
        (state, effects)
    }

    /// The pool states at the anchor.
    pub fn finalized_pool_snapshots(&self) -> (r: &OrdMap<PoolRef, PoolState>)
        ensures
            r@ == self@.snapshot,
    {
        &self.blocks.finalized_snapshot
    }

    pub fn verified_pool_metadata(&self, pool: PoolRef) -> (r: Option<&PoolMetadata>)
        ensures
            match r {
                Some(m) => self@.pools.verified.contains_key(pool) && self@.pools.verified[pool]
                    == *m,
                None => !self@.pools.verified.contains_key(pool),
            },
    {
        self.pool_registry.verified_metadata(pool)
    }

    pub fn verified_token_metadata(&self, token: TokenAddress) -> (r: Option<&TokenMetadata>)
        ensures
            match r {
                Some(m) => self@.tokens.metadata(token) == Some(*m),
                None => self@.tokens.metadata(token) is None,
            },
    {
        self.token_registry.verified_metadata(token)
    }

    /// How many pools are verified.
    pub fn verified_pool_count(&self) -> (n: usize)
        ensures
            n == self@.pools.verified.len(),
    {
        self.pool_registry.verified_size()
    }

    /// How many requests are in flight.
    pub fn in_flight_request_count(&self) -> (n: usize)
        requires
            self@.requests.total() <= usize::MAX,
        ensures
            n == self@.requests.total(),
    {
        self.pending_requests.len()
    }

    /// The verified metadata as a snapshot that is cheap to clone.
    pub fn metadata_catalog(&self) -> (r: MetadataCatalog)
        ensures
            r.wf(),
            r@.pools == self@.pools.verified,
            r@.tokens == self@.tokens.verified,
    {
        MetadataCatalog::from_views(
            self.pool_registry.verified_view(),
            self.token_registry.verified_view(),
        )
    }

    /// The freshest pool states, streamed logs included, and the block at which they hold.
    pub fn optimization_update(&self, chain: ChainKey) -> (r: OptimizationStateUpdate)
        requires
            self.wf(),
        ensures
            r.block_hash == self@.graph.frontier(
                self@.graph.head,
                self@.pool_touching(chain),
                Authority::AllowStreamed,
            ),
            r.pool_states@ == self@.graph.overlay(
                self@.snapshot,
                self@.pools.pools_on(chain),
                r.block_hash,
                Authority::AllowStreamed,
            ),
    {
        let v4_manager = pool_manager_address(chain);
        let verified = self.pool_registry.verified_pools(chain);
        let (pool_states, block_hash) = self.blocks.graph.optimization_pool_states(
            &self.blocks.finalized_snapshot,
            &verified,
            v4_manager,
        );
        OptimizationStateUpdate { block_hash, pool_states }
    }

    /// How many blocks the head is ahead of `reference_hash`; `None` when the walk down from the head
    /// does not come to it.
    pub fn blocks_behind(&self, reference_hash: BlockHash) -> (r: Option<usize>)
        ensures
            match r {
                Some(n) => self@.graph.distance(reference_hash) == Some(n as nat),
                None => self@.graph.distance(reference_hash) is None,
            },
    {
        self.blocks.graph.distance_from_head(reference_hash)
    }

    /// How many blocks the head is ahead of the anchor.
    pub fn canonical_path_len_from_finalized(&self) -> (r: Option<usize>)
        ensures
            match r {
                Some(n) => self@.graph.distance(self@.graph.anchor) == Some(n as nat),
                None => self@.graph.distance(self@.graph.anchor) is None,
            },
    {
        self.blocks.graph.distance_from_head(self.blocks.graph.anchor_hash())
    }

    /// Stages logs of an absent block. Once too many blocks have staged logs, those of further
    /// blocks are dropped.
    fn with_streamed_logs_buffered(self, block_hash: BlockHash, logs: Vec<PoolLog>) -> (r: State)
        requires
            self.wf(),
        ensures
            r.wf(),
            r@ == self@.buffered(block_hash, logs@),
    {
        let ghost before = self@;
        assert(before.staged.dom() =~= self.streamed_logs@.dom());
        if self.streamed_logs.len() >= MAX_STREAMED_LOG_BLOCKS && !self.streamed_logs.contains_key(
            &block_hash,
        ) {
            return self;
        }
        let (rest, taken) = self.streamed_logs.without(&block_hash);
        let mut logs = logs;
        let mut staged: Vec<PoolLog> = match taken {
            Some(earlier) => earlier,
            None => Vec::new(),
        };
        let ghost earlier = staged@;
        let ghost new_logs = logs@;
        staged.append(&mut logs);
        assert(staged@ =~= earlier + new_logs);
        assert(Seq::<PoolLog>::empty() + new_logs =~= new_logs);
        let r = State { streamed_logs: rest.with(block_hash, staged), ..self };
        assert(r@.staged =~= before.buffered(block_hash, new_logs).staged);
        r
    }

    /// Moves staged logs into their block, once it is there.
    fn with_streamed_logs_drained(self, block_hash: BlockHash) -> (r: State)
        requires
            self.wf(),
        ensures
            r.wf(),
            r@ == self@.drained(block_hash),
    {
        if !self.blocks.graph.contains(block_hash) {
            return self;
        }
        let ghost before = self@;
        let (rest, taken) = self.streamed_logs.without(&block_hash);
        let Blocks { graph, finalized_snapshot } = self.blocks;
        let graph = match taken {
            Some(logs) => graph.with_streamed_logs(block_hash, logs),
            None => graph,
        };
        let r = State {
            streamed_logs: rest,
            blocks: Blocks { graph, finalized_snapshot },
            ..self
        };
        assert(r@.staged =~= before.drained(block_hash).staged);
        r
    }

    /// A head was observed: its block is admitted, becomes the head, and gets its staged logs. A head
    /// that names itself as its parent does not move the head.
    fn with_log_head_observed(
        self,
        hash: BlockHash,
        parent_hash: BlockHash,
        number: u64,
        bloom: Bloom,
    ) -> (r: State)
        requires
            self.wf(),
        ensures
            r.wf(),
            r@ == self@.head_entered(hash, parent_hash, number, bloom@),
    {
        let Blocks { graph, finalized_snapshot } = self.blocks;
        let graph = graph.admitted(hash, parent_hash, number, bloom);
        let graph = if hash == parent_hash {
            graph
        } else {
            graph.with_observed_head(hash)
        };
        let state = State { blocks: Blocks { graph, finalized_snapshot }, ..self };
        state.with_streamed_logs_drained(hash)
    }

    /// A header was received: its block is admitted and gets its staged logs; the head stays.
    fn with_log_header_received(
        self,
        hash: BlockHash,
        parent_hash: BlockHash,
        number: u64,
        bloom: Bloom,
    ) -> (r: State)
        requires
            self.wf(),
        ensures
            r.wf(),
            r@ == self@.header_entered(hash, parent_hash, number, bloom@),
    {
        let Blocks { graph, finalized_snapshot } = self.blocks;
        let graph = graph.admitted(hash, parent_hash, number, bloom);
        let state = State { blocks: Blocks { graph, finalized_snapshot }, ..self };
        state.with_streamed_logs_drained(hash)
    }

    /// Merges streamed logs into a block.
    fn with_log_streamed(self, block_hash: BlockHash, logs: Vec<PoolLog>) -> (r: State)
        requires
            self.wf(),
        ensures
            r.wf(),
            r@ == self@.with_graph(self@.graph.with_streamed(block_hash, logs@)),
    {
        let Blocks { graph, finalized_snapshot } = self.blocks;
        let graph = graph.with_streamed_logs(block_hash, logs);
        State { blocks: Blocks { graph, finalized_snapshot }, ..self }
    }

    /// Records the authoritative logs of a block.
    fn with_log_complete(self, block_hash: BlockHash, logs: Vec<PoolLog>) -> (r: State)
        requires
            self.wf(),
        ensures
            r.wf(),
            r@ == self@.with_graph(self@.graph.with_complete(block_hash, logs@)),
    {
        let Blocks { graph, finalized_snapshot } = self.blocks;
        let graph = graph.with_complete_logs(block_hash, logs);
        State { blocks: Blocks { graph, finalized_snapshot }, ..self }
    }

    /// Adds pool states read at `at` to the snapshot.
    fn with_finalized_pool_seeds(self, at: BlockHash, results: OrdMap<PoolRef, PoolDataResult>) -> (r:
        State)
        requires
            self.wf(),
        ensures
            r.wf(),
            r@ == self@.seeds_entered(at, results@),
    {
        State { blocks: self.blocks.with_finalized_pool_seeds(at, results), ..self }
    }

    /// A block was reported final: the anchor moves as far as the canonical path to it can be folded.
    /// When it moves, requests about pruned blocks and all staged logs are dropped.
    fn with_finalized_block_observed(self, chain: ChainKey, block_hash: BlockHash) -> (r: State)
        requires
            self.wf(),
        ensures
            r.wf(),
            r@ == self@.finalized(chain, block_hash),
    {
        let v4_manager = pool_manager_address(chain);
        let verified = self.pool_registry.verified_pools(chain);
        let Blocks { graph, finalized_snapshot } = self.blocks;
        let anchor_before = graph.anchor_hash();
        let (graph, finalized_snapshot) = graph.finalized_to(
            block_hash,
            &finalized_snapshot,
            &verified,
            v4_manager,
        );
        if graph.anchor_hash() == anchor_before {
            State { blocks: Blocks { graph, finalized_snapshot }, ..self }
        } else {
            let r = State {
                pending_requests: self.pending_requests.retaining_block_targets(
                    &graph.node_hashes(),
                ),
                streamed_logs: OrdMap::new(),
                blocks: Blocks { graph, finalized_snapshot },
                ..self
            };
            assert(r@.staged =~= Map::empty());
            r
        }
    }
}

/// The effects that send requests.
fn as_effects(issued: Vec<AnyIssuedRequest>) -> (r: Vec<Effect>)
    ensures
        effects_view(r@) == issued_view(issued@),
{
    let mut r: Vec<Effect> = Vec::new();
    let ghost all = issued@;
    for request in requests: issued
        invariant
            requests.seq() == all,
            r@.len() == requests.index(),
            forall|k: int| 0 <= k < r@.len() ==> #[trigger] r@[k] == Effect::Request(all[k]),
    {
        r.push(Effect::Request(request));
    }
    assert(effects_view(r@) =~= issued_view(all));
    r
}

/// Whether the finalized header is to be fetched: on reaching the target length, and again on each
/// further stride.
pub fn should_fetch_finalized_header(
    before_len: Option<usize>,
    after_len: Option<usize>,
    target_len: usize,
    retry_stride: usize,
) -> (r: bool)
    ensures
        r == refresh_due(
            match before_len {
                Some(n) => Some(n as nat),
                None => None,
            },
            match after_len {
                Some(n) => Some(n as nat),
                None => None,
            },
            target_len as nat,
            retry_stride as nat,
        ),
{
    match after_len {
        None => false,
        Some(after) => {
            if after < target_len {
                return false;
            }
            match before_len {
                None => true,
                Some(before) => before < target_len || finalized_refresh_bucket(
                    before,
                    target_len,
                    retry_stride,
                ) < finalized_refresh_bucket(after, target_len, retry_stride),
            }
        },
    }
}

/// The stride above the target length that a path length is in.
pub fn finalized_refresh_bucket(len: usize, target_len: usize, retry_stride: usize) -> (r: usize)
    ensures
        r == refresh_bucket(len as nat, target_len as nat, retry_stride as nat),
{
    if retry_stride == 0 || len < target_len {
        return 0;
    }
    (len - target_len) / retry_stride
}

/// Applies one event and returns the requests to send.
pub fn transition(chain: ChainKey, state: State, event: Event) -> (r: (State, Vec<Effect>))
    requires
        state.wf(),
    ensures
        r.0.wf(),
        (r.0@, effects_view(r.1@)) == state@.after(chain, event),
{
    let none: Vec<Effect> = Vec::new();
    assert(effects_view(none@) =~= Seq::empty());
    match event {
        Event::HeadObserved { hash, parent_hash, logs_bloom, number } => {
            let state = state.with_log_head_observed(hash, parent_hash, number, logs_bloom);
            if hash == parent_hash {
                // Nothing was admitted, and follow-up requests cannot see the refused block: fetch
                // the true header to go on from there.
                let (requests, effects) = request_missing_header(
                    state.pending_requests,
                    state.tick,
                    hash,
                );
                (State { pending_requests: requests, ..state }, effects)
            } else {
                schedule_unknown_canonical_requests(chain, state, none)
            }
        },
        Event::FinalizedBlockObserved { block_hash } => (
            state.with_finalized_block_observed(chain, block_hash),
            none,
        ),
        Event::BlockHeaderReceived { request_id, hash, parent_hash, logs_bloom, number } => {
            let state = state.with_log_header_received(hash, parent_hash, number, logs_bloom);
            let (requests, taken) = state.pending_requests.take(&request_id);
            let mut requests = requests;
            let mut effects = none;
            if let Some(pending) = taken {
                // Another block came than the one that was asked for: ask again.
                if pending.payload.block_hash != hash {
                    let (next, sent) = ask(requests, effects, pending.payload, state.tick);
                    requests = next;
                    effects = sent;
                }
            }
            let state = State { pending_requests: requests, ..state };
            schedule_unknown_canonical_requests(chain, state, effects)
        },
        Event::BlockHeaderNotFound { request_id } => {
            // The request is dropped and not sent again at once: the next follow-up asks for the
            // header if it is still missing.
            let (requests, _) = state.pending_requests.take(&request_id);
            (State { pending_requests: requests, ..state }, none)
        },
        Event::BlockLogsReceived { request_id, logs } => {
            let (requests, taken) = state.pending_requests.take(&request_id);
            let state = State { pending_requests: requests, ..state };
            match taken {
                Some(pending) => schedule_unknown_canonical_requests(
                    chain,
                    state.with_log_complete(pending.payload.block_hash, logs),
                    none,
                ),
                None => (state, none),
            }
        },
        Event::LogObserved { block_hash, logs } => {
            if state.blocks.graph.contains(block_hash) {
                schedule_unknown_canonical_requests(
                    chain,
                    state.with_log_streamed(block_hash, logs),
                    none,
                )
            } else {
                (state.with_streamed_logs_buffered(block_hash, logs), none)
            }
        },
        Event::PoolMetadataReceived { request_id, metadata } => {
            let (requests, taken) = state.pending_requests.take(&request_id);
            match taken {
                Some(pending) => {
                    let asked = metadata.restricted_to(&pending.payload.candidates);
                    let pool_registry = state.pool_registry.with_metadata_results(chain, asked);
                    let state = State { pending_requests: requests, pool_registry, ..state };
                    schedule_unknown_canonical_requests(chain, state, none)
                },
                None => (State { pending_requests: requests, ..state }, none),
            }
        },
        Event::TokenMetadataReceived { request_id, metadata } => {
            let (requests, taken) = state.pending_requests.take(&request_id);
            match taken {
                Some(pending) => {
                    let asked = metadata.restricted_to(&pending.payload.tokens);
                    let token_registry = state.token_registry.with_metadata_results(asked);
                    let state = State { pending_requests: requests, token_registry, ..state };
                    schedule_unknown_canonical_requests(chain, state, none)
                },
                None => (State { pending_requests: requests, ..state }, none),
            }
        },
        Event::PoolDataReceived { request_id, pools } => {
            let (requests, taken) = state.pending_requests.take(&request_id);
            let state = State { pending_requests: requests, ..state };
            match taken {
                Some(pending) => schedule_unknown_canonical_requests(
                    chain,
                    state.with_finalized_pool_seeds(pending.payload.at, pools),
                    none,
                ),
                None => (state, none),
            }
        },
        Event::RequestFailed { request_id } => {
            let (requests, issued) = state.pending_requests.retry(request_id, state.tick);
            let mut effects = none;
            if let Some(request) = issued {
                effects.push(Effect::Request(request));
                assert(effects_view(effects@) =~= seq![request@]);
            }
            (State { pending_requests: requests, ..state }, effects)
        },
        Event::Tick => {
            let now = state.tick.next();
            let (requests, issued) = state.pending_requests.retry_expired(now);
            (State { pending_requests: requests, tick: now, ..state }, as_effects(issued))
        },
    }
}

} // verus!
