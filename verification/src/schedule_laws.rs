//! What follows every change: nothing that is missing stays unasked, and nothing is asked twice.
use vstd::prelude::*;

use crate::graph_laws::lemma_absent_parents_finite;
use crate::kernel::FINALIZED_POOL_SEED_CHUNK;
use crate::kernel_model::{
    first_of, fresh_batches, named_by, token_sources, tokens_among, Plan, StateModel,
};
use crate::order::{ascending, lemma_ascending};
use crate::pending_requests::{
    asked_blocks, Batch, GetBlockLogs, GetPoolData, GetPoolMetadata, GetTokenMetadata, Issued,
    Request,
};
use crate::pool_state::{PoolRef, ProtocolPoolKey};
use crate::primitives::{BlockHash, ChainKey};
use crate::request_laws::{
    added, ids_handed_out, lemma_added_join, lemma_added_none, lemma_ask_all_adds,
    lemma_ask_headers_adds, lemma_asked_monotone, lemma_filter_facts, new_since, recorded,
    Fresh,
};
use crate::tick::Tick;
use crate::token_registry::TokenAddress;

verus! {

pub proof fn lemma_ask_all_len<R: Request>(plan: Plan, payloads: Seq<R::Model>, now: Tick)
    ensures
        plan.ask_all::<R>(payloads, now).sent.len() == plan.sent.len() + payloads.len(),
    decreases payloads.len(),
{
    if payloads.len() > 0 {
        lemma_ask_all_len::<R>(plan, payloads.drop_last(), now);
    }
}

pub proof fn lemma_ask_headers_len(plan: Plan, hashes: Seq<BlockHash>, now: Tick)
    ensures
        plan.ask_headers(hashes, now).sent.len() >= plan.sent.len(),
    decreases hashes.len(),
{
    if hashes.len() > 0 {
        lemma_ask_headers_len(plan, hashes.drop_last(), now);
    }
}

/// The blocks whose logs the follow-up asks for.
pub open spec fn wanted_logs(s: StateModel, chain: ChainKey, plan: Plan) -> Seq<BlockHash> {
    s.graph.unresolved(s.log_gate(chain), asked_blocks(plan.requests.logs))
}

/// The candidates whose metadata the follow-up asks for, by block.
pub open spec fn wanted_pools(s: StateModel, chain: ChainKey, plan: Plan) -> Seq<Batch<ProtocolPoolKey>> {
    fresh_batches(s.graph.candidates(), s.settled_pools(chain, plan.requests))
}

/// The tokens whose metadata the follow-up asks for, by block.
pub open spec fn wanted_tokens(s: StateModel, chain: ChainKey, plan: Plan) -> Seq<Batch<TokenAddress>> {
    fresh_batches(
        token_sources(s.pools, chain, s.graph.candidates()),
        s.settled_tokens(plan.requests),
    )
}

/// The follow-up only adds requests: step by step.
pub proof fn lemma_follow_up_steps(s: StateModel, chain: ChainKey, p0: Plan)
    requires
        ids_handed_out(p0.requests),
        p0.requests.last_id + s.seed_plan(
            chain,
            s.token_plan(chain, s.pool_plan(chain, s.log_plan(chain, s.header_plan(p0)))),
        ).sent.len() - p0.sent.len() <= u64::MAX,
    ensures
        ({
            let p1 = s.header_plan(p0);
            let p2 = s.log_plan(chain, p1);
            let p3 = s.pool_plan(chain, p2);
            let p4 = s.token_plan(chain, p3);
            let p5 = s.seed_plan(chain, p4);
            &&& added(p0, p1)
            &&& added(p1, p2)
            &&& added(p2, p3)
            &&& added(p3, p4)
            &&& added(p4, p5)
            &&& added(p0, p5)
            &&& added(p1, p5)
            &&& added(p2, p5)
            &&& added(p3, p5)
            &&& new_since(p0.requests, p5.requests, s.tick)
            &&& p1.requests.last_id + wanted_logs(s, chain, p1).len() <= u64::MAX
            &&& p2.requests.last_id + wanted_pools(s, chain, p2).len() <= u64::MAX
            &&& p3.requests.last_id + wanted_tokens(s, chain, p3).len() <= u64::MAX
        }),
{
    let p1 = s.header_plan(p0);
    let p2 = s.log_plan(chain, p1);
    let p3 = s.pool_plan(chain, p2);
    let p4 = s.token_plan(chain, p3);
    let p5 = s.seed_plan(chain, p4);
    let missing = ascending(s.graph.absent_parents());
    lemma_ask_headers_len(p0, missing, s.tick);
    lemma_ask_all_len::<GetBlockLogs>(p1, wanted_logs(s, chain, p1), s.tick);
    lemma_ask_all_len::<GetPoolMetadata>(p2, wanted_pools(s, chain, p2), s.tick);
    lemma_ask_all_len::<GetTokenMetadata>(p3, wanted_tokens(s, chain, p3), s.tick);
    assert(p4.sent.len() <= p5.sent.len());
    lemma_ask_headers_adds(p0, missing, s.tick);
    lemma_ask_all_adds::<GetBlockLogs>(p1, wanted_logs(s, chain, p1), s.tick);
    lemma_ask_all_adds::<GetPoolMetadata>(p2, wanted_pools(s, chain, p2), s.tick);
    lemma_ask_all_adds::<GetTokenMetadata>(p3, wanted_tokens(s, chain, p3), s.tick);
    if p5 == p4 {
        lemma_added_none(p4);
    } else {
        let uncovered = s.uncovered_pools(chain, p4.requests);
        GetPoolData::ask_adds(
            p4,
            Batch {
                at: s.graph.anchor,
                items: first_of(
                    ascending(uncovered),
                    crate::kernel::FINALIZED_POOL_SEED_CHUNK as nat,
                ),
            },
            s.tick,
        );
    }
    lemma_added_join(p3, p4, p5);
    lemma_added_join(p2, p3, p5);
    lemma_added_join(p1, p2, p5);
    lemma_added_join(p0, p1, p5);
}

/// The follow-up takes back nothing that is to be sent.
pub proof fn lemma_follow_up_len(s: StateModel, chain: ChainKey, sent: Seq<Issued>)
    ensures
        s.scheduled(chain, sent).1.len() >= sent.len(),
{
    let p0 = Plan { requests: s.requests, sent };
    let p1 = s.header_plan(p0);
    let p2 = s.log_plan(chain, p1);
    let p3 = s.pool_plan(chain, p2);
    lemma_ask_headers_len(p0, ascending(s.graph.absent_parents()), s.tick);
    lemma_ask_all_len::<GetBlockLogs>(p1, wanted_logs(s, chain, p1), s.tick);
    lemma_ask_all_len::<GetPoolMetadata>(p2, wanted_pools(s, chain, p2), s.tick);
    lemma_ask_all_len::<GetTokenMetadata>(p3, wanted_tokens(s, chain, p3), s.tick);
}

/// Every item that a source names is settled or in some batch.
proof fn lemma_batches_cover<K>(
    sources: Seq<(BlockHash, Set<K>)>,
    settled: Set<K>,
    i: int,
    k: K,
) -> (b: int)
    requires
        0 <= i < sources.len(),
        sources[i].1.contains(k),
        !settled.contains(k),
    ensures
        0 <= b < fresh_batches(sources, settled).len(),
        fresh_batches(sources, settled)[b].items.contains(k),
    decreases sources.len(),
{
    let shorter = sources.drop_last();
    let before = fresh_batches(shorter, settled);
    if named_by(shorter).contains(k) {
        let j = choose|j: int| 0 <= j < shorter.len() && (#[trigger] shorter[j]).1.contains(k);
        lemma_batches_cover(shorter, settled, j, k)
    } else {
        if i < shorter.len() {
            assert(shorter[i] == sources[i]);
        }
        let items = sources.last().1.difference(settled).difference(named_by(shorter));
        assert(items.contains(k));
        before.len() as int
    }
}

/// Nothing is left to ask for when all that is named is settled.
proof fn lemma_batches_none<K>(sources: Seq<(BlockHash, Set<K>)>, settled: Set<K>)
    requires
        forall|i: int, k: K|
            0 <= i < sources.len() && #[trigger] sources[i].1.contains(k) ==> settled.contains(k),
    ensures
        fresh_batches(sources, settled).len() == 0,
    decreases sources.len(),
{
    if sources.len() > 0 {
        let shorter = sources.drop_last();
        assert forall|i: int, k: K|
            0 <= i < shorter.len() && #[trigger] shorter[i].1.contains(k) implies settled.contains(
            k,
        ) by {
            assert(sources[i].1.contains(k));
        }
        lemma_batches_none(shorter, settled);
        assert(sources.last().1.difference(settled).difference(named_by(shorter)) =~= Set::empty())
            by {
            assert forall|k: K| sources.last().1.contains(k) implies settled.contains(k) by {
                assert(sources[sources.len() - 1].1.contains(k));
            }
        }
    }
}

/// All that is missing is being asked for.
pub open spec fn nothing_unasked(s: StateModel, chain: ChainKey) -> bool {
    &&& forall|h: BlockHash| #[trigger]
        s.graph.absent_parents().contains(h) ==> asked_blocks(s.requests.headers).contains(h)
    &&& forall|h: BlockHash| #[trigger]
        s.graph.unresolved(s.log_gate(chain), Set::empty()).contains(h) ==> asked_blocks(
            s.requests.logs,
        ).contains(h)
    &&& forall|i: int, k: ProtocolPoolKey|
        0 <= i < s.graph.candidates().len() && #[trigger] s.graph.candidates()[i].1.contains(k)
            ==> s.settled_pools(chain, s.requests).contains(k)
    &&& forall|i: int, t: TokenAddress|
        0 <= i < s.graph.candidates().len() && #[trigger] tokens_among(
            s.pools,
            chain,
            s.graph.candidates()[i].1,
        ).contains(t) ==> s.settled_tokens(s.requests).contains(t)
}

proof fn lemma_logs_all_asked(s: StateModel, chain: ChainKey, p1: Plan, h: BlockHash)
    requires
        ids_handed_out(p1.requests),
        p1.requests.last_id + wanted_logs(s, chain, p1).len() <= u64::MAX,
        s.graph.unresolved(s.log_gate(chain), Set::empty()).contains(h),
    ensures
        asked_blocks(s.log_plan(chain, p1).requests.logs).contains(h),
{
    let p2 = s.log_plan(chain, p1);
    let gate = s.log_gate(chain);
    let asked = asked_blocks(p1.requests.logs);
    lemma_ask_all_adds::<GetBlockLogs>(p1, wanted_logs(s, chain, p1), s.tick);
    lemma_asked_monotone(p1.requests, p2.requests);
    if !asked.contains(h) {
        lemma_filter_facts(
            s.graph.present_chain(),
            s.graph.unresolved_test(gate, Set::empty()),
        );
        lemma_filter_facts(s.graph.present_chain(), s.graph.unresolved_test(gate, asked));
        assert(wanted_logs(s, chain, p1).contains(h));
        let i = choose|i: int|
            0 <= i < wanted_logs(s, chain, p1).len() && wanted_logs(s, chain, p1)[i] == h;
        let id = (p1.requests.last_id + 1 + i) as u64;
        let sent = p2.sent[p1.sent.len() + i];
        assert(sent == GetBlockLogs::issued(id, h));
        assert(recorded(p2.requests, sent));
        assert(p2.requests.logs.contains_key(id));
    }
}

proof fn lemma_pools_all_asked(
    s: StateModel,
    chain: ChainKey,
    p2: Plan,
    i: int,
    k: ProtocolPoolKey,
)
    requires
        ids_handed_out(p2.requests),
        p2.requests.last_id + wanted_pools(s, chain, p2).len() <= u64::MAX,
        0 <= i < s.graph.candidates().len(),
        s.graph.candidates()[i].1.contains(k),
    ensures
        s.settled_pools(chain, s.pool_plan(chain, p2).requests).contains(k),
{
    let p3 = s.pool_plan(chain, p2);
    let settled = s.settled_pools(chain, p2.requests);
    let wanted = wanted_pools(s, chain, p2);
    lemma_ask_all_adds::<GetPoolMetadata>(p2, wanted, s.tick);
    lemma_asked_monotone(p2.requests, p3.requests);
    if !settled.contains(k) {
        let b = lemma_batches_cover(s.graph.candidates(), settled, i, k);
        let id = (p2.requests.last_id + 1 + b) as u64;
        let sent = p3.sent[p2.sent.len() + b];
        assert(sent == GetPoolMetadata::issued(id, wanted[b]));
        assert(recorded(p3.requests, sent));
        assert(p3.requests.pool_metadata.contains_key(id));
    }
}

proof fn lemma_tokens_all_asked(
    s: StateModel,
    chain: ChainKey,
    p3: Plan,
    i: int,
    t: TokenAddress,
)
    requires
        ids_handed_out(p3.requests),
        p3.requests.last_id + wanted_tokens(s, chain, p3).len() <= u64::MAX,
        0 <= i < s.graph.candidates().len(),
        tokens_among(s.pools, chain, s.graph.candidates()[i].1).contains(t),
    ensures
        s.settled_tokens(s.token_plan(chain, p3).requests).contains(t),
{
    let p4 = s.token_plan(chain, p3);
    let settled = s.settled_tokens(p3.requests);
    let wanted = wanted_tokens(s, chain, p3);
    let sources = token_sources(s.pools, chain, s.graph.candidates());
    lemma_ask_all_adds::<GetTokenMetadata>(p3, wanted, s.tick);
    lemma_asked_monotone(p3.requests, p4.requests);
    if !settled.contains(t) {
        let b = lemma_batches_cover(sources, settled, i, t);
        let id = (p3.requests.last_id + 1 + b) as u64;
        let sent = p4.sent[p3.sent.len() + b];
        assert(sent == GetTokenMetadata::issued(id, wanted[b]));
        assert(recorded(p4.requests, sent));
        assert(p4.requests.token_metadata.contains_key(id));
    }
}

/// After the follow-up every missing parent, every block of the present chain that may matter and
/// lacks authoritative logs, every candidate that is not known, and every token of a verified
/// candidate that is not known is being asked for.
pub proof fn law_follow_up_asks_for_all(s: StateModel, chain: ChainKey, sent: Seq<Issued>)
    requires
        s.graph.wf(),
        ids_handed_out(s.requests),
        s.requests.last_id + s.scheduled(chain, sent).1.len() - sent.len() <= u64::MAX,
    ensures
        nothing_unasked(s.scheduled(chain, sent).0, chain),
{
    let p0 = Plan { requests: s.requests, sent };
    let p1 = s.header_plan(p0);
    let p2 = s.log_plan(chain, p1);
    let p3 = s.pool_plan(chain, p2);
    let p4 = s.token_plan(chain, p3);
    let p5 = s.seed_plan(chain, p4);
    let t = s.scheduled(chain, sent).0;
    let missing = ascending(s.graph.absent_parents());
    lemma_follow_up_steps(s, chain, p0);
    lemma_asked_monotone(p1.requests, p5.requests);
    lemma_asked_monotone(p2.requests, p5.requests);
    lemma_asked_monotone(p3.requests, p5.requests);
    lemma_asked_monotone(p4.requests, p5.requests);
    assert forall|h: BlockHash| #[trigger]
        t.graph.absent_parents().contains(h) implies asked_blocks(t.requests.headers).contains(
        h,
    ) by {
        lemma_absent_parents_finite(s.graph);
        lemma_ascending(s.graph.absent_parents());
        lemma_ask_headers_len(p0, missing, s.tick);
        lemma_ask_headers_adds(p0, missing, s.tick);
        assert(missing.contains(h));
        let i = choose|i: int| 0 <= i < missing.len() && missing[i] == h;
        assert(asked_blocks(p1.requests.headers).contains(missing[i]));
    }
    assert forall|h: BlockHash| #[trigger]
        t.graph.unresolved(t.log_gate(chain), Set::empty()).contains(h) implies asked_blocks(
        t.requests.logs,
    ).contains(h) by {
        lemma_logs_all_asked(s, chain, p1, h);
    }
    assert forall|i: int, k: ProtocolPoolKey|
        0 <= i < t.graph.candidates().len() && #[trigger] t.graph.candidates()[i].1.contains(
            k,
        ) implies t.settled_pools(chain, t.requests).contains(k) by {
        lemma_pools_all_asked(s, chain, p2, i, k);
    }
    assert forall|i: int, k: TokenAddress|
        0 <= i < t.graph.candidates().len() && #[trigger] tokens_among(
            t.pools,
            chain,
            t.graph.candidates()[i].1,
        ).contains(k) implies t.settled_tokens(t.requests).contains(k) by {
        lemma_tokens_all_asked(s, chain, p3, i, k);
    }
}

proof fn lemma_ask_headers_none(plan: Plan, hashes: Seq<BlockHash>, now: Tick)
    requires
        forall|i: int|
            0 <= i < hashes.len() ==> asked_blocks(plan.requests.headers).contains(
                #[trigger] hashes[i],
            ),
    ensures
        plan.ask_headers(hashes, now) == plan,
    decreases hashes.len(),
{
    if hashes.len() > 0 {
        let shorter = hashes.drop_last();
        assert forall|i: int| 0 <= i < shorter.len() implies asked_blocks(
            plan.requests.headers,
        ).contains(#[trigger] shorter[i]) by {
            assert(shorter[i] == hashes[i]);
        }
        lemma_ask_headers_none(plan, shorter, now);
        assert(asked_blocks(plan.requests.headers).contains(hashes[hashes.len() - 1]));
    }
}

/// A state in which nothing is unasked asks for no header, no logs and no metadata again: hearing
/// the same thing twice sends nothing twice. At most one more batch of pools is read.
pub proof fn law_follow_up_asks_once(s: StateModel, chain: ChainKey, sent: Seq<Issued>)
    requires
        s.graph.wf(),
        nothing_unasked(s, chain),
    ensures
        s.follow_up(chain, sent) == s.seed_plan(chain, Plan { requests: s.requests, sent }),
{
    let p0 = Plan { requests: s.requests, sent };
    let missing = ascending(s.graph.absent_parents());
    lemma_absent_parents_finite(s.graph);
    lemma_ascending(s.graph.absent_parents());
    assert forall|i: int| 0 <= i < missing.len() implies asked_blocks(
        p0.requests.headers,
    ).contains(#[trigger] missing[i]) by {
        assert(missing.contains(missing[i]));
        assert(s.graph.absent_parents().contains(missing[i]));
    }
    lemma_ask_headers_none(p0, missing, s.tick);
    let gate = s.log_gate(chain);
    let asked = asked_blocks(s.requests.logs);
    let wanted = wanted_logs(s, chain, p0);
    lemma_filter_facts(s.graph.present_chain(), s.graph.unresolved_test(gate, Set::empty()));
    lemma_filter_facts(s.graph.present_chain(), s.graph.unresolved_test(gate, asked));
    assert(wanted.len() == 0) by {
        if wanted.len() > 0 {
            let h = wanted[0];
            assert(wanted.contains(h));
            assert(s.graph.unresolved(gate, Set::empty()).contains(h));
        }
    }
    lemma_batches_none(s.graph.candidates(), s.settled_pools(chain, s.requests));
    let sources = token_sources(s.pools, chain, s.graph.candidates());
    assert forall|i: int, t: TokenAddress|
        0 <= i < sources.len() && #[trigger] sources[i].1.contains(t) implies s.settled_tokens(
        s.requests,
    ).contains(t) by {
        assert(tokens_among(s.pools, chain, s.graph.candidates()[i].1).contains(t));
    }
    lemma_batches_none(sources, s.settled_tokens(s.requests));
}

/// The batches of one follow-up are disjoint: nothing is asked about in two of them, and nothing
/// that is settled is asked about.
pub proof fn law_batches_are_disjoint<K>(
    sources: Seq<(BlockHash, Set<K>)>,
    settled: Set<K>,
    a: int,
    b: int,
    k: K,
)
    requires
        0 <= a < fresh_batches(sources, settled).len(),
        0 <= b < fresh_batches(sources, settled).len(),
        fresh_batches(sources, settled)[a].items.contains(k),
        fresh_batches(sources, settled)[b].items.contains(k),
    ensures
        a == b,
        !settled.contains(k),
        named_by(sources).contains(k),
    decreases sources.len(),
{
    let shorter = sources.drop_last();
    let before = fresh_batches(shorter, settled);
    let items = sources.last().1.difference(settled).difference(named_by(shorter));
    assert(sources[sources.len() - 1] == sources.last());
    if a < before.len() || b < before.len() {
        let c = if a < before.len() {
            a
        } else {
            b
        };
        law_batches_are_disjoint(shorter, settled, c, c, k);
        let j = choose|j: int| 0 <= j < shorter.len() && (#[trigger] shorter[j]).1.contains(k);
        assert(sources[j].1.contains(k));
        if a < before.len() && b < before.len() {
            law_batches_are_disjoint(shorter, settled, a, b, k);
        }
    }
}

/// Pool states are read in batches, and only while neither headers nor logs are being fetched: the
/// first uncovered pools in order, at the anchor.
pub proof fn law_seeding_waits_its_turn(s: StateModel, chain: ChainKey, plan: Plan)
    ensures
        ({
            let uncovered = s.uncovered_pools(chain, plan.requests);
            let after = s.seed_plan(chain, plan);
            let idle = plan.requests.headers.dom() == Set::<u64>::empty()
                && plan.requests.logs.dom() == Set::<u64>::empty();
            &&& !idle || uncovered == Set::<PoolRef>::empty() ==> after == plan
            &&& idle && uncovered != Set::<PoolRef>::empty() ==> after == plan.ask::<GetPoolData>(
                Batch {
                    at: s.graph.anchor,
                    items: first_of(ascending(uncovered), FINALIZED_POOL_SEED_CHUNK as nat),
                },
                s.tick,
            )
            &&& uncovered.finite() ==> first_of(
                ascending(uncovered),
                FINALIZED_POOL_SEED_CHUNK as nat,
            ).subset_of(uncovered)
        }),
{
    let uncovered = s.uncovered_pools(chain, plan.requests);
    let chunk = first_of(ascending(uncovered), FINALIZED_POOL_SEED_CHUNK as nat);
    if uncovered.finite() {
        lemma_ascending(uncovered);
        assert forall|p: PoolRef| chunk.contains(p) implies uncovered.contains(p) by {
            assert(ascending(uncovered).contains(p));
        }
    }
}

} // verus!
