//! Folding the logs of a path over a base of pool states, up to the first block that must not be
//! passed.
use vstd::prelude::*;

use crate::blocks_graph::{watched_addresses, BlockLogs, BlocksGraph, ConnectedHash};
use crate::graph_lemmas::{lemma_chain, lemma_undecided_foldable};
use crate::graph_model::{events_of, in_log_order, readable, watched_by, Authority, GraphModel};
use crate::ord_map::{OrdMap, OrdSet};
use crate::order::{ascending, lemma_take_next, lemma_walk, lists};
use crate::pool_state::{
    derive_pool_state, PoolLog, PoolLogEvent, PoolRef, PoolState, ProtocolPoolKey,
};
use crate::primitives::{Address, BlockHash};

verus! {

/// The logs of a block that a fold may read.
pub fn readable_logs(logs: &BlockLogs, authority: Authority) -> (r: Option<&OrdMap<u64, PoolLog>>)
    ensures
        match r {
            Some(m) => readable(logs@, authority) == Some(m@),
            None => readable(logs@, authority) is None,
        },
{
    match logs {
        BlockLogs::Complete(m) => Some(m),
        BlockLogs::Streamed(m) => match authority {
            Authority::AllowStreamed => Some(m),
            Authority::RequireComplete => None,
        },
        BlockLogs::Unknown => None,
    }
}

/// The events gathered for a pool.
spec fn gathered(buckets: Map<ProtocolPoolKey, Vec<PoolLogEvent>>, key: ProtocolPoolKey) -> Seq<
    PoolLogEvent,
> {
    if buckets.contains_key(key) {
        buckets[key]@
    } else {
        Seq::empty()
    }
}

spec fn none_empty(buckets: Map<ProtocolPoolKey, Vec<PoolLogEvent>>) -> bool {
    forall|key: ProtocolPoolKey|
        buckets.contains_key(key) ==> (#[trigger] buckets[key])@.len() > 0
}

/// Adds a log to its pool's events.
fn gather(buckets: OrdMap<ProtocolPoolKey, Vec<PoolLogEvent>>, log: &PoolLog) -> (r: OrdMap<
    ProtocolPoolKey,
    Vec<PoolLogEvent>,
>)
    requires
        none_empty(buckets@),
    ensures
        none_empty(r@),
        forall|key: ProtocolPoolKey| #[trigger]
            gathered(r@, key) == (if key == log.pool {
                gathered(buckets@, key).push(log.event)
            } else {
                gathered(buckets@, key)
            }),
{
    let (rest, taken) = buckets.without(&log.pool);
    let mut run: Vec<PoolLogEvent> = match taken {
        Some(events) => events,
        None => Vec::new(),
    };
    assert(run@ == gathered(buckets@, log.pool));
    run.push(log.event);
    rest.with(log.pool, run)
}

impl BlocksGraph {
    /// The events of every pool along a path, oldest first.
    fn gathered_along(&self, path: &Vec<BlockHash>, authority: Authority) -> (r: OrdMap<
        ProtocolPoolKey,
        Vec<PoolLogEvent>,
    >)
        requires
            forall|i: int| 0 <= i < path@.len() ==> self@.has(#[trigger] path@[i]),
        ensures
            none_empty(r@),
            forall|key: ProtocolPoolKey| #[trigger]
                gathered(r@, key) == self@.run_of(path@, authority, key),
    {
        let ghost m = self@;
        let mut buckets: OrdMap<ProtocolPoolKey, Vec<PoolLogEvent>> = OrdMap::new();
        let n: usize = path.len();
        for i in 0..n
            invariant
                m == self@,
                n == path@.len(),
                none_empty(buckets@),
                forall|k: int| 0 <= k < path@.len() ==> m.has(#[trigger] path@[k]),
                forall|key: ProtocolPoolKey| #[trigger]
                    gathered(buckets@, key) == m.run_of(path@.take(i as int), authority, key),
        {
            let hash = path[i];
            let ghost done = path@.take(i as int);
            proof {
                assert(m.has(path@[i as int]));
                lemma_take_next(path@, i as int);
            }
            if let Some(data) = self.get(hash) {
                if let Some(logs) = readable_logs(&data.logs, authority) {
                    let count: usize = logs.len();
                    let ghost listed = ascending(logs@.dom());
                    let ghost ordered = in_log_order(logs@);
                    proof {
                        lemma_walk(logs@.dom());
                        assert forall|key: ProtocolPoolKey| #[trigger]
                            gathered(buckets@, key) == m.run_of(done, authority, key) + events_of(
                                ordered.take(0),
                                key,
                            ) by {
                            assert(events_of(ordered.take(0), key).len() == 0);
                            assert(m.run_of(done, authority, key) + events_of(ordered.take(0), key)
                                =~= m.run_of(done, authority, key));
                        }
                    }
                    for j in 0..count
                        invariant
                            count == logs@.len(),
                            listed == ascending(logs@.dom()),
                            listed.len() == count,
                            ordered == in_log_order(logs@),
                            none_empty(buckets@),
                            forall|key: ProtocolPoolKey| #[trigger]
                                gathered(buckets@, key) == m.run_of(done, authority, key)
                                    + events_of(ordered.take(j as int), key),
                    {
                        let ghost before = buckets@;
                        let log = logs.value_at(j);
                        buckets = gather(buckets, log);
                        proof {
                            lemma_take_next(ordered, j as int);
                            assert(ordered[j as int] == *log);
                            assert forall|key: ProtocolPoolKey| #[trigger]
                                gathered(buckets@, key) == m.run_of(done, authority, key)
                                    + events_of(ordered.take(j + 1), key) by {
                                assert(gathered(before, key) == m.run_of(done, authority, key)
                                    + events_of(ordered.take(j as int), key));
                                assert(gathered(buckets@, key) =~= m.run_of(done, authority, key)
                                    + events_of(ordered.take(j + 1), key));
                            }
                        }
                    }
                    assert(ordered.take(count as int) =~= ordered);
                } else {
                    proof {
                        assert forall|key: ProtocolPoolKey| #[trigger]
                            gathered(buckets@, key) == m.run_of(
                                path@.take(i + 1),
                                authority,
                                key,
                            ) by {
                            assert(m.block_run(hash, authority, key).len() == 0);
                            assert(m.run_of(done, authority, key) + m.block_run(
                                hash,
                                authority,
                                key,
                            ) =~= m.run_of(done, authority, key));
                        }
                    }
                }
            }
        }
        assert(path@.take(n as int) =~= path@);
        buckets
    }

    /// The pools whose state the path to `target` changes, or seeds when they are verified and have
    /// no base state, with their states there. A pool that ends where it began, or whose run has no
    /// outcome, is left out: the caller reads its base state.
    pub fn folded_overlay(
        &self,
        base: &OrdMap<PoolRef, PoolState>,
        verified: &OrdSet<PoolRef>,
        target: ConnectedHash,
        authority: Authority,
    ) -> (r: OrdMap<PoolRef, PoolState>)
        requires
            self.wf(),
        ensures
            r@ == self@.overlay(base@, verified@, target.0, authority),
    {
        let ghost m = self@;
        let path = self.connected_oldest_to_newest(target.0);
        proof {
            self.lemma_wf();
            lemma_chain(m, target.0);
            assert forall|i: int| 0 <= i < path@.len() implies m.has(#[trigger] path@[i]) by {
                assert(m.connected(m.chain_to(target.0)[i]));
            }
        }
        let buckets = self.gathered_along(&path, authority);
        let mut overlay: OrdMap<PoolRef, PoolState> = OrdMap::new();
        let known: usize = base.len();
        let ghost listed = ascending(base@.dom());
        proof {
            lemma_walk(base@.dom());
        }
        for i in 0..known
            invariant
                m == self@,
                known == base@.len(),
                listed == ascending(base@.dom()),
                lists(listed, base@.dom()),
                listed.len() == known,
                none_empty(buckets@),
                path@ == m.chain_to(target.0),
                forall|key: ProtocolPoolKey| #[trigger]
                    gathered(buckets@, key) == m.run_of(path@, authority, key),
                forall|p: PoolRef| #[trigger]
                    overlay@.contains_key(p) <==> listed.take(i as int).contains(p)
                        && m.folded_state(base@, target.0, authority, p) is Some && !(
                    base@.contains_key(p) && m.folded_state(base@, target.0, authority, p) == Some(
                        base@[p],
                    )),
                forall|p: PoolRef|
                    overlay@.contains_key(p) ==> Some(#[trigger] overlay@[p]) == m.folded_state(
                        base@,
                        target.0,
                        authority,
                        p,
                    ),
        {
            let pool = base.key_at(i);
            proof {
                lemma_take_next(listed, i as int);
                assert(gathered(buckets@, pool.key) == m.run_of(path@, authority, pool.key));
            }
            if let Some(run) = buckets.get(&pool.key) {
                let before = base.value_at(i);
                if let Some(state) = derive_pool_state(Some(before), run.as_slice()) {
                    if state != *before {
                        overlay = overlay.with(pool, state);
                    }
                }
            }
        }
        assert(listed.take(known as int) =~= listed);
        let extra: usize = verified.len();
        let ghost others = ascending(verified@);
        proof {
            lemma_walk(verified@);
            assert forall|p: PoolRef| #[trigger] overlay@.contains_key(p) <==> (base@.contains_key(
                p,
            ) || others.take(0).contains(p)) && m.folded_state(
                base@,
                target.0,
                authority,
                p,
            ) is Some && !(base@.contains_key(p) && m.folded_state(base@, target.0, authority, p)
                == Some(base@[p])) by {
                assert(listed.contains(p) <==> base@.dom().contains(p));
            }
        }
        for i in 0..extra
            invariant
                m == self@,
                extra == verified@.len(),
                others == ascending(verified@),
                lists(others, verified@),
                others.len() == extra,
                none_empty(buckets@),
                path@ == m.chain_to(target.0),
                forall|key: ProtocolPoolKey| #[trigger]
                    gathered(buckets@, key) == m.run_of(path@, authority, key),
                forall|p: PoolRef| #[trigger]
                    overlay@.contains_key(p) <==> (base@.contains_key(p) || others.take(
                        i as int,
                    ).contains(p)) && m.folded_state(base@, target.0, authority, p) is Some && !(
                    base@.contains_key(p) && m.folded_state(base@, target.0, authority, p) == Some(
                        base@[p],
                    )),
                forall|p: PoolRef|
                    overlay@.contains_key(p) ==> Some(#[trigger] overlay@[p]) == m.folded_state(
                        base@,
                        target.0,
                        authority,
                        p,
                    ),
        {
            let pool = verified.at(i);
            proof {
                lemma_take_next(others, i as int);
                assert(gathered(buckets@, pool.key) == m.run_of(path@, authority, pool.key));
            }
            if !base.contains_key(&pool) {
                if let Some(run) = buckets.get(&pool.key) {
                    if let Some(state) = derive_pool_state(None, run.as_slice()) {
                        overlay = overlay.with(pool, state);
                    }
                }
            }
        }
        proof {
            assert(others.take(extra as int) =~= others);
            let whole = m.overlay(base@, verified@, target.0, authority);
            assert forall|p: PoolRef| overlay@.contains_key(p) <==> whole.contains_key(p) by {
                assert(others.contains(p) <==> verified@.contains(p));
            }
            assert(overlay@ =~= whole);
        }
        overlay
    }

    /// The state of every tracked pool at `target`: the base with the path's changes applied.
    pub fn folded_pool_states(
        &self,
        base: &OrdMap<PoolRef, PoolState>,
        verified: &OrdSet<PoolRef>,
        target: ConnectedHash,
        authority: Authority,
    ) -> (r: OrdMap<PoolRef, PoolState>)
        requires
            self.wf(),
        ensures
            r@ == self@.folded(base@, verified@, target.0, authority),
    {
        let overlay = self.folded_overlay(base, verified, target, authority);
        base.copied().with_entries_of(&overlay)
    }

    /// The last block on the path to `target` whose whole path can be folded under `authority`, or
    /// the anchor: the walk stops before the first block whose logs may not be read and whose bloom
    /// may touch a watched address.
    pub fn foldable_frontier(
        &self,
        target: ConnectedHash,
        watched: &OrdSet<Address>,
        authority: Authority,
    ) -> (r: ConnectedHash)
        requires
            self.wf(),
        ensures
            r.0 == self@.frontier(target.0, self@.touching(watched@), authority),
    {
        let undecided = self.undecided_blocks(watched);
        proof {
            lemma_undecided_foldable(
                self@,
                self@.chain_to(target.0),
                self@.touching(watched@),
                authority,
            );
        }
        self.foldable_frontier_among(target, &undecided, authority)
    }

    /// [`BlocksGraph::foldable_frontier`] for a given set of blocks that may matter.
    pub fn foldable_frontier_among(
        &self,
        target: ConnectedHash,
        touching: &OrdSet<BlockHash>,
        authority: Authority,
    ) -> (r: ConnectedHash)
        requires
            self.wf(),
        ensures
            r.0 == self@.frontier(target.0, touching@, authority),
    {
        let ghost m = self@;
        let path = self.connected_oldest_to_newest(target.0);
        proof {
            self.lemma_wf();
            lemma_chain(m, target.0);
            assert(path@.skip(0) =~= path@);
        }
        let mut frontier = ConnectedHash(self.anchor_hash());
        let n: usize = path.len();
        for i in 0..n
            invariant
                m == self@,
                n == path@.len(),
                path@ == m.chain_to(target.0),
                forall|k: int|
                    0 <= k < m.chain_to(target.0).len() ==> m.connected(
                        #[trigger] m.chain_to(target.0)[k],
                    ),
                frontier.0 == (if i == 0 {
                    m.anchor
                } else {
                    path@[i - 1]
                }),
                m.foldable_len(path@, touching@, authority) == i + m.foldable_len(
                    path@.skip(i as int),
                    touching@,
                    authority,
                ),
        {
            let hash = path[i];
            let ghost rest = path@.skip(i as int);
            proof {
                assert(m.connected(m.chain_to(target.0)[i as int]));
                assert(rest[0] == hash);
                assert(rest.drop_first() =~= path@.skip(i + 1));
            }
            if let Some(data) = self.get(hash) {
                if readable_logs(&data.logs, authority).is_none() && touching.contains(&hash) {
                    return frontier;
                }
            }
            frontier = ConnectedHash(hash);
        }
        assert(path@.skip(n as int).len() == 0);
        frontier
    }

    /// The freshest states: the overlay of the canonical path, streamed logs included, up to the
    /// last block before the first gap, and that block's hash.
    pub fn optimization_pool_states(
        &self,
        base: &OrdMap<PoolRef, PoolState>,
        verified: &OrdSet<PoolRef>,
        v4_manager: Option<Address>,
    ) -> (r: (OrdMap<PoolRef, PoolState>, BlockHash))
        requires
            self.wf(),
        ensures
            r.1 == self@.frontier(
                self@.head,
                self@.touching(watched_by(verified@, v4_manager)),
                Authority::AllowStreamed,
            ),
            r.0@ == self@.overlay(base@, verified@, r.1, Authority::AllowStreamed),
    {
        let watched = watched_addresses(verified, v4_manager);
        let undecided = self.undecided_blocks(&watched);
        proof {
            lemma_undecided_foldable(
                self@,
                self@.canonical(),
                self@.touching(watched@),
                Authority::AllowStreamed,
            );
        }
        self.optimization_states_among(base, verified, &undecided)
    }

    /// [`BlocksGraph::optimization_pool_states`] for a given set of blocks that may matter.
    pub fn optimization_states_among(
        &self,
        base: &OrdMap<PoolRef, PoolState>,
        verified: &OrdSet<PoolRef>,
        touching: &OrdSet<BlockHash>,
    ) -> (r: (OrdMap<PoolRef, PoolState>, BlockHash))
        requires
            self.wf(),
        ensures
            r.1 == self@.frontier(self@.head, touching@, Authority::AllowStreamed),
            r.0@ == self@.overlay(base@, verified@, r.1, Authority::AllowStreamed),
    {
        let head = ConnectedHash(self.observed_head_hash());
        let frontier = self.foldable_frontier_among(head, touching, Authority::AllowStreamed);
        (self.folded_overlay(base, verified, frontier, Authority::AllowStreamed), frontier.0)
    }

    /// Moves the anchor towards `target`, the block reported final, as far as the canonical path can
    /// be folded from authoritative logs, and folds that path into the base. A target that is not on
    /// the canonical chain changes nothing.
    pub fn finalized_to(
        self,
        target: BlockHash,
        base: &OrdMap<PoolRef, PoolState>,
        verified: &OrdSet<PoolRef>,
        v4_manager: Option<Address>,
    ) -> (r: (BlocksGraph, OrdMap<PoolRef, PoolState>))
        requires
            self.wf(),
        ensures
            r.0.wf(),
            r.0@ == self@.reanchored(
                self@.final_root(target, self@.touching(watched_by(verified@, v4_manager))),
            ),
            r.1@ == self@.final_snapshot(
                target,
                self@.touching(watched_by(verified@, v4_manager)),
                base@,
                verified@,
            ),
    {
        let watched = watched_addresses(verified, v4_manager);
        let undecided = self.undecided_blocks(&watched);
        proof {
            lemma_undecided_foldable(
                self@,
                self@.chain_to(target),
                self@.touching(watched@),
                Authority::RequireComplete,
            );
        }
        self.finalized_among(target, base, verified, &undecided)
    }

    /// [`BlocksGraph::finalized_to`] for a given set of blocks that may matter.
    pub fn finalized_among(
        self,
        target: BlockHash,
        base: &OrdMap<PoolRef, PoolState>,
        verified: &OrdSet<PoolRef>,
        touching: &OrdSet<BlockHash>,
    ) -> (r: (BlocksGraph, OrdMap<PoolRef, PoolState>))
        requires
            self.wf(),
        ensures
            r.0.wf(),
            r.0@ == self@.reanchored(self@.final_root(target, touching@)),
            r.1@ == self@.final_snapshot(target, touching@, base@, verified@),
    {
        if !self.is_finalizable(target) {
            return (self, base.copied());
        }
        let frontier = self.foldable_frontier_among(
            ConnectedHash(target),
            touching,
            Authority::RequireComplete,
        );
        proof {
            self.lemma_wf();
            lemma_frontier_connected(self@, target, touching@, Authority::RequireComplete);
        }
        self.reanchored_to(frontier, base, verified)
    }
}

/// No more blocks can be folded than the path has.
pub proof fn lemma_foldable_len(m: GraphModel, path: Seq<BlockHash>, touch: Set<BlockHash>, authority: Authority)
    ensures
        m.foldable_len(path, touch, authority) <= path.len(),
        forall|i: int|
            0 <= i < m.foldable_len(path, touch, authority) ==> !m.blocks_fold(
                #[trigger] path[i],
                touch,
                authority,
            ),
        m.foldable_len(path, touch, authority) < path.len() ==> m.blocks_fold(
            path[m.foldable_len(path, touch, authority) as int],
            touch,
            authority,
        ),
    decreases path.len(),
{
    if path.len() > 0 && !m.blocks_fold(path[0], touch, authority) {
        let rest = path.drop_first();
        lemma_foldable_len(m, rest, touch, authority);
        let n = m.foldable_len(path, touch, authority);
        assert forall|i: int| 0 <= i < n implies !m.blocks_fold(
            #[trigger] path[i],
            touch,
            authority,
        ) by {
            if i > 0 {
                assert(path[i] == rest[i - 1]);
            }
        }
        if n < path.len() {
            assert(path[n as int] == rest[n - 1]);
        }
    }
}

/// The frontier is the anchor or a connected block on the path.
pub proof fn lemma_frontier_connected(
    m: GraphModel,
    target: BlockHash,
    touch: Set<BlockHash>,
    authority: Authority,
)
    requires
        m.wf(),
    ensures
        m.frontier(target, touch, authority) == m.anchor || m.connected(
            m.frontier(target, touch, authority),
        ),
{
    lemma_chain(m, target);
    let path = m.chain_to(target);
    lemma_foldable_len(m, path, touch, authority);
    let n = m.foldable_len(path, touch, authority);
    if n > 0 {
        assert(m.connected(m.chain_to(target)[n - 1]));
    }
}

} // verus!
