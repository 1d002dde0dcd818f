//! The kernel's state and its answer to every event, as mathematics.
use vstd::prelude::*;

use crate::blocks_graph::{header_data, MAX_PENDING_BLOCKS};
use crate::graph_model::{watched_by, GraphModel};
use crate::kernel::{Event, FINALIZED_POOL_SEED_CHUNK, MAX_STREAMED_LOG_BLOCKS};
use crate::order::ascending;
use crate::pending_requests::{
    asked_blocks, asked_items, Batch, GetBlockHeader, GetBlockLogs, GetPoolData, GetPoolMetadata,
    GetTokenMetadata, Issued, Request, RequestsModel,
};
use crate::pool_registry::PoolsModel;
use crate::pool_state::{PoolDataResult, PoolLog, PoolRef, PoolState, ProtocolPoolKey};
use crate::primitives::{Address, BlockHash, ChainKey};
use crate::request_tracking::next_id;
use crate::tick::{next_tick, Tick};
use crate::token_registry::{TokenAddress, TokensModel};
use crate::uniswap_v4::spec_pool_manager_address;

verus! {

/// The kernel's state.
#[verifier::ext_equal]
pub struct StateModel {
    pub requests: RequestsModel,
    pub pools: PoolsModel,
    pub tokens: TokensModel,
    pub tick: Tick,
    /// Logs that came before their block.
    pub staged: Map<BlockHash, Seq<PoolLog>>,
    pub graph: GraphModel,
    /// The pool states at the anchor.
    pub snapshot: Map<PoolRef, PoolState>,
}

/// Requests in flight, and what is to be sent so far.
#[verifier::ext_equal]
pub struct Plan {
    pub requests: RequestsModel,
    pub sent: Seq<Issued>,
}

impl Plan {
    /// One more request.
    pub open spec fn ask<R: Request>(self, payload: R::Model, now: Tick) -> Plan {
        Plan {
            requests: self.requests.issue::<R>(payload, now),
            sent: self.sent.push(R::issued(next_id(self.requests.last_id), payload)),
        }
    }

    /// Several requests, one after the other.
    pub open spec fn ask_all<R: Request>(self, payloads: Seq<R::Model>, now: Tick) -> Plan
        decreases payloads.len(),
    {
        if payloads.len() == 0 {
            self
        } else {
            self.ask_all::<R>(payloads.drop_last(), now).ask::<R>(payloads.last(), now)
        }
    }

    /// A header, unless it is being fetched.
    pub open spec fn ask_header(self, hash: BlockHash, now: Tick) -> Plan {
        if asked_blocks(self.requests.headers).contains(hash) {
            self
        } else {
            self.ask::<GetBlockHeader>(hash, now)
        }
    }

    /// Several headers, each unless it is being fetched.
    pub open spec fn ask_headers(self, hashes: Seq<BlockHash>, now: Tick) -> Plan
        decreases hashes.len(),
    {
        if hashes.len() == 0 {
            self
        } else {
            self.ask_headers(hashes.drop_last(), now).ask_header(hashes.last(), now)
        }
    }
}

/// Whatever one of the sources names.
pub open spec fn named_by<K>(sources: Seq<(BlockHash, Set<K>)>) -> Set<K> {
    Set::new(|k: K| exists|i: int| 0 <= i < sources.len() && (#[trigger] sources[i]).1.contains(k))
}

/// For each source, in order, what it is the first to name and what is not settled; sources without
/// such a thing are left out.
pub open spec fn fresh_batches<K>(sources: Seq<(BlockHash, Set<K>)>, settled: Set<K>) -> Seq<Batch<K>>
    decreases sources.len(),
{
    if sources.len() == 0 {
        Seq::empty()
    } else {
        let before = fresh_batches(sources.drop_last(), settled);
        let items = sources.last().1.difference(settled).difference(
            named_by(sources.drop_last()),
        );
        if items == Set::<K>::empty() {
            before
        } else {
            before.push(Batch { at: sources.last().0, items })
        }
    }
}

/// The tokens of the verified pools among candidates.
pub open spec fn tokens_among(
    pools: PoolsModel,
    chain: ChainKey,
    candidates: Set<ProtocolPoolKey>,
) -> Set<TokenAddress> {
    Set::new(
        |t: TokenAddress|
            t.1 == chain && exists|k: ProtocolPoolKey| #[trigger]
                candidates.contains(k) && pools.is_verified(chain, k) && ({
                    let m = pools.verified[PoolRef { key: k, chain }];
                    m.token0 == t.0 || m.token1 == t.0
                }),
    )
}

/// The tokens of each source's verified pools.
pub open spec fn token_sources(
    pools: PoolsModel,
    chain: ChainKey,
    sources: Seq<(BlockHash, Set<ProtocolPoolKey>)>,
) -> Seq<(BlockHash, Set<TokenAddress>)> {
    Seq::new(
        sources.len(),
        |i: int| (sources[i].0, tokens_among(pools, chain, sources[i].1)),
    )
}

impl StateModel {
    /// The candidates that need no request: known, or being validated.
    pub open spec fn settled_pools(self, chain: ChainKey, requests: RequestsModel) -> Set<
        ProtocolPoolKey,
    > {
        Set::new(
            |k: ProtocolPoolKey|
                self.pools.known(chain, k) || asked_items(requests.pool_metadata).contains(k),
        )
    }

    /// The tokens that need no request: known, or being asked about.
    pub open spec fn settled_tokens(self, requests: RequestsModel) -> Set<TokenAddress> {
        Set::new(
            |t: TokenAddress|
                self.tokens.known(t) || asked_items(requests.token_metadata).contains(t),
        )
    }

    /// The addresses whose logs the log requests protect: the verified v3 pools and the v4 manager.
    pub open spec fn trusted_addresses(self, chain: ChainKey) -> Set<Address> {
        match spec_pool_manager_address(chain) {
            Some(manager) => self.pools.addresses_on(chain).insert(manager),
            None => self.pools.addresses_on(chain),
        }
    }

    /// The blocks whose logs may matter; `None` as long as no v3 pool is verified, when every block
    /// matters.
    pub open spec fn log_gate(self, chain: ChainKey) -> Option<Set<BlockHash>> {
        if self.pools.addresses_on(chain) == Set::<Address>::empty() {
            None
        } else {
            Some(self.graph.touching(self.trusted_addresses(chain)))
        }
    }

    /// The verified pools that have no state at the anchor and are not being read.
    pub open spec fn uncovered_pools(self, chain: ChainKey, requests: RequestsModel) -> Set<PoolRef> {
        Set::new(
            |p: PoolRef|
                self.pools.pools_on(chain).contains(p) && !self.snapshot.contains_key(p)
                    && !asked_items(requests.pool_data).contains(p),
        )
    }

    // ---- follow-up requests ----

    /// The headers of the missing parents.
    pub open spec fn header_plan(self, plan: Plan) -> Plan {
        plan.ask_headers(ascending(self.graph.absent_parents()), self.tick)
    }

    /// The logs of the present blocks that lack authoritative ones and may matter.
    pub open spec fn log_plan(self, chain: ChainKey, plan: Plan) -> Plan {
        plan.ask_all::<GetBlockLogs>(
            self.graph.unresolved(self.log_gate(chain), asked_blocks(plan.requests.logs)),
            self.tick,
        )
    }

    /// The validation of candidates, by the block that is the first to name them.
    pub open spec fn pool_plan_for(
        self,
        chain: ChainKey,
        sources: Seq<(BlockHash, Set<ProtocolPoolKey>)>,
        plan: Plan,
    ) -> Plan {
        plan.ask_all::<GetPoolMetadata>(
            fresh_batches(sources, self.settled_pools(chain, plan.requests)),
            self.tick,
        )
    }

    /// The validation of the candidates that the present chain names.
    pub open spec fn pool_plan(self, chain: ChainKey, plan: Plan) -> Plan {
        self.pool_plan_for(chain, self.graph.candidates(), plan)
    }

    /// The metadata of the tokens of verified candidates, by the block that is the first to name
    /// them.
    pub open spec fn token_plan_for(
        self,
        chain: ChainKey,
        sources: Seq<(BlockHash, Set<ProtocolPoolKey>)>,
        plan: Plan,
    ) -> Plan {
        plan.ask_all::<GetTokenMetadata>(
            fresh_batches(
                token_sources(self.pools, chain, sources),
                self.settled_tokens(plan.requests),
            ),
            self.tick,
        )
    }

    /// The metadata of the tokens of the verified pools that the present chain names.
    pub open spec fn token_plan(self, chain: ChainKey, plan: Plan) -> Plan {
        self.token_plan_for(chain, self.graph.candidates(), plan)
    }

    /// The states of uncovered pools at the anchor, the first of them in order, when no header and
    /// no logs are being fetched.
    pub open spec fn seed_plan(self, chain: ChainKey, plan: Plan) -> Plan {
        let uncovered = self.uncovered_pools(chain, plan.requests);
        if plan.requests.headers.dom() != Set::<u64>::empty() || plan.requests.logs.dom() != Set::<
            u64,
        >::empty() || uncovered == Set::<PoolRef>::empty() {
            plan
        } else {
            plan.ask::<GetPoolData>(
                Batch {
                    at: self.graph.anchor,
                    items: first_of(ascending(uncovered), FINALIZED_POOL_SEED_CHUNK as nat),
                },
                self.tick,
            )
        }
    }

    /// All follow-up requests, in the order of their priority.
    pub open spec fn follow_up(self, chain: ChainKey, sent: Seq<Issued>) -> Plan {
        let headers = self.header_plan(Plan { requests: self.requests, sent });
        let logs = self.log_plan(chain, headers);
        let pools = self.pool_plan(chain, logs);
        let tokens = self.token_plan(chain, pools);
        self.seed_plan(chain, tokens)
    }

    /// The state with other requests.
    pub open spec fn with_requests(self, requests: RequestsModel) -> StateModel {
        StateModel { requests, ..self }
    }

    pub open spec fn with_graph(self, graph: GraphModel) -> StateModel {
        StateModel { graph, ..self }
    }

    /// The state and what is sent after all follow-up requests were added.
    pub open spec fn scheduled(self, chain: ChainKey, sent: Seq<Issued>) -> (StateModel, Seq<Issued>) {
        let plan = self.follow_up(chain, sent);
        (self.with_requests(plan.requests), plan.sent)
    }

    // ---- logs that come before their block ----

    /// Staged logs move into their block once it is there.
    pub open spec fn drained(self, hash: BlockHash) -> StateModel {
        if self.graph.has(hash) && self.staged.contains_key(hash) {
            StateModel {
                graph: self.graph.with_streamed(hash, self.staged[hash]),
                staged: self.staged.remove(hash),
                ..self
            }
        } else {
            self
        }
    }

    /// Logs of an absent block are staged, unless too many blocks have staged logs.
    pub open spec fn buffered(self, hash: BlockHash, logs: Seq<PoolLog>) -> StateModel {
        if self.staged.contains_key(hash) {
            StateModel { staged: self.staged.insert(hash, self.staged[hash] + logs), ..self }
        } else if self.staged.len() >= MAX_STREAMED_LOG_BLOCKS {
            self
        } else {
            StateModel { staged: self.staged.insert(hash, logs), ..self }
        }
    }

    // ---- feeds ----

    /// A header enters the graph, and its staged logs with it.
    pub open spec fn header_entered(
        self,
        hash: BlockHash,
        parent: BlockHash,
        number: u64,
        bloom: Seq<u8>,
    ) -> StateModel {
        self.with_graph(
            self.graph.with_offered(
                hash,
                parent,
                header_data(number, bloom),
                MAX_PENDING_BLOCKS as nat,
            ),
        ).drained(hash)
    }

    /// A head enters the graph and becomes the observed head, unless it names itself as its parent.
    pub open spec fn head_entered(
        self,
        hash: BlockHash,
        parent: BlockHash,
        number: u64,
        bloom: Seq<u8>,
    ) -> StateModel {
        let graph = self.graph.with_offered(
            hash,
            parent,
            header_data(number, bloom),
            MAX_PENDING_BLOCKS as nat,
        );
        self.with_graph(
            if hash == parent {
                graph
            } else {
                graph.with_head(hash)
            },
        ).drained(hash)
    }

    /// The blocks that may touch a verified pool of the chain.
    pub open spec fn pool_touching(self, chain: ChainKey) -> Set<BlockHash> {
        self.graph.touching(
            watched_by(self.pools.pools_on(chain), spec_pool_manager_address(chain)),
        )
    }

    /// A block was reported final: the anchor moves as far as the canonical path can be folded.
    /// When it moves, requests about pruned blocks and all staged logs are dropped.
    pub open spec fn finalized(self, chain: ChainKey, hash: BlockHash) -> StateModel {
        let touch = self.pool_touching(chain);
        let graph = self.graph.reanchored(self.graph.final_root(hash, touch));
        let snapshot = self.graph.final_snapshot(
            hash,
            touch,
            self.snapshot,
            self.pools.pools_on(chain),
        );
        if graph.anchor == self.graph.anchor {
            StateModel { graph, snapshot, ..self }
        } else {
            StateModel {
                graph,
                snapshot,
                requests: self.requests.keeping(graph.blocks.dom()),
                staged: Map::empty(),
                ..self
            }
        }
    }

    /// Pool states read at a block enter the snapshot when the block is the anchor.
    pub open spec fn seeds_entered(self, at: BlockHash, results: Map<PoolRef, PoolDataResult>) -> StateModel {
        if at == self.graph.anchor {
            StateModel { snapshot: with_read_states(self.snapshot, results), ..self }
        } else {
            self
        }
    }

    // ---- events ----

    /// The state after an event, and what is sent.
    pub open spec fn after(self, chain: ChainKey, event: Event) -> (StateModel, Seq<Issued>) {
        match event {
            Event::HeadObserved { hash, parent_hash, logs_bloom, number } => {
                let entered = self.head_entered(hash, parent_hash, number, logs_bloom@);
                if hash == parent_hash {
                    let plan = (Plan { requests: entered.requests, sent: Seq::empty() }).ask_header(
                        hash,
                        entered.tick,
                    );
                    (entered.with_requests(plan.requests), plan.sent)
                } else {
                    entered.scheduled(chain, Seq::empty())
                }
            },
            Event::FinalizedBlockObserved { block_hash } => (
                self.finalized(chain, block_hash),
                Seq::empty(),
            ),
            Event::BlockHeaderReceived { request_id, hash, parent_hash, logs_bloom, number } => {
                let entered = self.header_entered(hash, parent_hash, number, logs_bloom@);
                let rest = Plan {
                    requests: self.requests.without::<GetBlockHeader>(request_id@),
                    sent: Seq::empty(),
                };
                let asked = self.requests.headers;
                let plan = if asked.contains_key(request_id@) && asked[request_id@].payload != hash {
                    rest.ask::<GetBlockHeader>(asked[request_id@].payload, self.tick)
                } else {
                    rest
                };
                entered.with_requests(plan.requests).scheduled(chain, plan.sent)
            },
            Event::BlockHeaderNotFound { request_id } => (
                self.with_requests(self.requests.without::<GetBlockHeader>(request_id@)),
                Seq::empty(),
            ),
            Event::BlockLogsReceived { request_id, logs } => {
                let rest = self.with_requests(self.requests.without::<GetBlockLogs>(request_id@));
                if self.requests.logs.contains_key(request_id@) {
                    rest.with_graph(
                        self.graph.with_complete(self.requests.logs[request_id@].payload, logs@),
                    ).scheduled(chain, Seq::empty())
                } else {
                    (rest, Seq::empty())
                }
            },
            Event::LogObserved { block_hash, logs } => {
                if self.graph.has(block_hash) {
                    self.with_graph(self.graph.with_streamed(block_hash, logs@)).scheduled(
                        chain,
                        Seq::empty(),
                    )
                } else {
                    (self.buffered(block_hash, logs@), Seq::empty())
                }
            },
            Event::PoolMetadataReceived { request_id, metadata } => {
                let rest = self.with_requests(
                    self.requests.without::<GetPoolMetadata>(request_id@),
                );
                if self.requests.pool_metadata.contains_key(request_id@) {
                    let asked = self.requests.pool_metadata[request_id@].payload.items;
                    (StateModel {
                        pools: self.pools.with_results(chain, metadata@.restrict(asked)),
                        ..rest
                    }).scheduled(chain, Seq::empty())
                } else {
                    (rest, Seq::empty())
                }
            },
            Event::TokenMetadataReceived { request_id, metadata } => {
                let rest = self.with_requests(
                    self.requests.without::<GetTokenMetadata>(request_id@),
                );
                if self.requests.token_metadata.contains_key(request_id@) {
                    let asked = self.requests.token_metadata[request_id@].payload.items;
                    (StateModel {
                        tokens: self.tokens.with_results(metadata@.restrict(asked)),
                        ..rest
                    }).scheduled(chain, Seq::empty())
                } else {
                    (rest, Seq::empty())
                }
            },
            Event::PoolDataReceived { request_id, pools } => {
                let rest = self.with_requests(self.requests.without::<GetPoolData>(request_id@));
                if self.requests.pool_data.contains_key(request_id@) {
                    rest.seeds_entered(
                        self.requests.pool_data[request_id@].payload.at,
                        pools@,
                    ).scheduled(chain, Seq::empty())
                } else {
                    (rest, Seq::empty())
                }
            },
            Event::RequestFailed { request_id } => (
                self.with_requests(self.requests.retry(request_id@, self.tick)),
                match self.requests.retry_sends(request_id@) {
                    Some(issued) => seq![issued],
                    None => Seq::empty(),
                },
            ),
            Event::Tick => {
                let now = next_tick(self.tick);
                let ids = self.requests.due_ids(now);
                (
                    StateModel {
                        requests: self.requests.retry_all(ids, now),
                        tick: now,
                        ..self
                    },
                    self.requests.retry_all_sends(ids, now),
                )
            },
        }
    }
}

/// The first `n` of a sequence, or all of it.
pub open spec fn first_of<A>(s: Seq<A>, n: nat) -> Set<A> {
    if s.len() <= n {
        s.to_set()
    } else {
        s.take(n as int).to_set()
    }
}

/// The snapshot with the states that were read; failed reads change nothing.
pub open spec fn with_read_states(
    snapshot: Map<PoolRef, PoolState>,
    results: Map<PoolRef, PoolDataResult>,
) -> Map<PoolRef, PoolState> {
    Map::new(
        |p: PoolRef| snapshot.contains_key(p) || (results.contains_key(p) && results[p] is Ok),
        |p: PoolRef|
            if results.contains_key(p) && results[p] is Ok {
                results[p]->Ok_0
            } else {
                snapshot[p]
            },
    )
}

/// Nothing is known but the anchor.
pub open spec fn initial_state(anchor: BlockHash) -> StateModel {
    StateModel {
        requests: RequestsModel::empty(),
        pools: PoolsModel { verified: Map::empty(), rejected: Set::empty() },
        tokens: TokensModel { verified: Map::empty(), unsupported: Set::empty() },
        tick: Tick { raw: 0 },
        staged: Map::empty(),
        graph: GraphModel { anchor, blocks: Map::empty(), head: anchor },
        snapshot: Map::empty(),
    }
}

/// The follow-up of a warm start: a header for each missing parent.
pub open spec fn seed_requests(graph: GraphModel) -> Plan {
    (Plan { requests: RequestsModel::empty(), sent: Seq::empty() }).ask_all::<GetBlockHeader>(
        ascending(graph.absent_parents()),
        Tick { raw: 0 },
    )
}

/// The state of a warm start: what was read at the anchor, what is known of pools and tokens, and
/// the graph of the recent blocks, with a header asked for each missing parent.
pub open spec fn warm_state(
    graph: GraphModel,
    snapshot: Map<PoolRef, PoolState>,
    pools: PoolsModel,
    tokens: TokensModel,
) -> StateModel {
    StateModel {
        requests: seed_requests(graph).requests,
        pools,
        tokens,
        tick: Tick { raw: 0 },
        staged: Map::empty(),
        graph,
        snapshot,
    }
}

/// Path lengths grouped into strides above the target.
pub open spec fn refresh_bucket(len: nat, target_len: nat, retry_stride: nat) -> nat {
    if retry_stride == 0 || len < target_len {
        0
    } else {
        ((len - target_len) as nat / retry_stride) as nat
    }
}

/// Whether the finalized header is to be fetched: the path has reached its target length, and it had
/// not before, or it has grown into another stride.
pub open spec fn refresh_due(
    before: Option<nat>,
    after: Option<nat>,
    target_len: nat,
    retry_stride: nat,
) -> bool {
    &&& after is Some
    &&& after->0 >= target_len
    &&& match before {
        None => true,
        Some(b) => b < target_len || refresh_bucket(b, target_len, retry_stride) < refresh_bucket(
            after->0,
            target_len,
            retry_stride,
        ),
    }
}

} // verus!
