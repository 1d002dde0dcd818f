//! What becomes of the logs of a block: under which index they are kept, which pools they name, and
//! in which order a pool's events are folded.
use vstd::prelude::*;

use crate::graph_model::{
    events_of, in_log_order, keyed, named_pools, Authority, GraphModel, LogsModel,
};
use crate::order::{
    ascending, lemma_ascending, lemma_listing_unique, lemma_push_contains, strictly_ascending, Key,
};
use crate::pool_state::{PoolLog, PoolLogEvent, ProtocolPoolKey};
use crate::primitives::BlockHash;

verus! {

// ---- keeping logs ----

/// Every log is kept, whatever its event: the logs by index have an index exactly when some log has
/// it, and of several with the same index the last one stands.
pub proof fn law_every_log_is_kept(logs: Seq<PoolLog>)
    ensures
        forall|i: u64| #[trigger]
            keyed(logs).contains_key(i) <==> exists|j: int|
                0 <= j < logs.len() && (#[trigger] logs[j]).log_index == i,
        forall|j: int|
            0 <= j < logs.len() && (forall|k: int|
                j < k < logs.len() ==> (#[trigger] logs[k]).log_index != logs[j].log_index)
                ==> keyed(logs)[(#[trigger] logs[j]).log_index] == logs[j],
        keyed(logs).dom().finite(),
    decreases logs.len(),
{
    if logs.len() > 0 {
        let before = logs.drop_last();
        let last = logs.last();
        law_every_log_is_kept(before);
        assert forall|i: u64| #[trigger] keyed(logs).contains_key(i) <==> exists|j: int|
            0 <= j < logs.len() && (#[trigger] logs[j]).log_index == i by {
            if keyed(before).contains_key(i) {
                let j = choose|j: int|
                    0 <= j < before.len() && (#[trigger] before[j]).log_index == i;
                assert(logs[j].log_index == i);
            }
            if exists|j: int| 0 <= j < logs.len() && (#[trigger] logs[j]).log_index == i {
                let j = choose|j: int| 0 <= j < logs.len() && (#[trigger] logs[j]).log_index == i;
                if j < before.len() {
                    assert(before[j].log_index == i);
                } else {
                    assert(last.log_index == i);
                }
            }
            if i == last.log_index {
                assert(logs[logs.len() - 1].log_index == i);
            }
        }
        assert forall|j: int|
            0 <= j < logs.len() && (forall|k: int|
                j < k < logs.len() ==> (#[trigger] logs[k]).log_index
                    != logs[j].log_index) implies keyed(logs)[(#[trigger] logs[j]).log_index]
            == logs[j] by {
            if j < before.len() {
                assert(logs[logs.len() - 1].log_index != logs[j].log_index);
                assert forall|k: int| j < k < before.len() implies (#[trigger] before[k]).log_index
                    != before[j].log_index by {
                    assert(logs[k].log_index != logs[j].log_index);
                }
                assert(keyed(before)[before[j].log_index] == before[j]);
            }
        }
    }
}


/// Streamed logs are merged into what is known of their block: every one of them is kept under its
/// index, the last of several, and what was streamed before stays where no new log has its index.
/// Authoritative logs stand. Nothing else of the graph changes.
pub proof fn law_streamed_logs_are_merged(
    m: GraphModel,
    hash: BlockHash,
    logs: Seq<PoolLog>,
    h: BlockHash,
)
    requires
        m.blocks.contains_key(hash),
    ensures
        ({
            let w = m.with_streamed(hash, logs);
            let was = m.blocks[hash].data.logs;
            let is = w.blocks[hash].data.logs;
            &&& w.anchor == m.anchor
            &&& w.head == m.head
            &&& w.blocks.dom() == m.blocks.dom()
            &&& h != hash && m.blocks.contains_key(h) ==> w.blocks[h] == m.blocks[h]
            &&& w.blocks[hash].parent == m.blocks[hash].parent
            &&& w.blocks[hash].connected == m.blocks[hash].connected
            &&& w.blocks[hash].data.number == m.blocks[hash].data.number
            &&& w.blocks[hash].data.bloom == m.blocks[hash].data.bloom
            &&& was is Complete ==> is == was
            &&& !(was is Complete) ==> is is Streamed
            &&& was is Unknown ==> forall|i: u64| #[trigger]
                is->Streamed_0.contains_key(i) <==> exists|j: int|
                    0 <= j < logs.len() && (#[trigger] logs[j]).log_index == i
            &&& was is Streamed ==> forall|i: u64| #[trigger]
                is->Streamed_0.contains_key(i) <==> was->Streamed_0.contains_key(i) || exists|j:
                    int| 0 <= j < logs.len() && (#[trigger] logs[j]).log_index == i
            &&& was is Streamed ==> forall|i: u64|
                was->Streamed_0.contains_key(i) && (forall|j: int|
                    0 <= j < logs.len() ==> (#[trigger] logs[j]).log_index != i)
                    ==> #[trigger] is->Streamed_0[i] == was->Streamed_0[i]
            &&& !(was is Complete) ==> forall|j: int|
                0 <= j < logs.len() && (forall|k: int|
                    j < k < logs.len() ==> (#[trigger] logs[k]).log_index != logs[j].log_index)
                    ==> is->Streamed_0[(#[trigger] logs[j]).log_index] == logs[j]
        }),
{
    law_every_log_is_kept(logs);
    let w = m.with_streamed(hash, logs);
    assert(w.blocks.dom() =~= m.blocks.dom());
    let was = m.blocks[hash].data.logs;
    let is = w.blocks[hash].data.logs;
    if was is Streamed {
        assert forall|i: u64| #[trigger]
            is->Streamed_0.contains_key(i) <==> was->Streamed_0.contains_key(i) || exists|j: int|
                0 <= j < logs.len() && (#[trigger] logs[j]).log_index == i by {
            assert(keyed(logs).contains_key(i) <==> exists|j: int|
                0 <= j < logs.len() && (#[trigger] logs[j]).log_index == i);
        }
        assert forall|i: u64|
            was->Streamed_0.contains_key(i) && (forall|j: int|
                0 <= j < logs.len() ==> (#[trigger] logs[j]).log_index
                    != i) implies #[trigger] is->Streamed_0[i] == was->Streamed_0[i] by {
            assert(!keyed(logs).contains_key(i));
        }
        assert forall|j: int|
            0 <= j < logs.len() && (forall|k: int|
                j < k < logs.len() ==> (#[trigger] logs[k]).log_index
                    != logs[j].log_index) implies is->Streamed_0[(#[trigger] logs[j]).log_index]
            == logs[j] by {
            assert(keyed(logs).contains_key(logs[j].log_index));
        }
    }
}

/// Authoritative logs replace what was known of their block: exactly they are kept, the last of
/// several under its index. Nothing else of the graph changes.
pub proof fn law_complete_logs_replace(
    m: GraphModel,
    hash: BlockHash,
    logs: Seq<PoolLog>,
    h: BlockHash,
)
    requires
        m.blocks.contains_key(hash),
    ensures
        ({
            let w = m.with_complete(hash, logs);
            let is = w.blocks[hash].data.logs;
            &&& w.anchor == m.anchor
            &&& w.head == m.head
            &&& w.blocks.dom() == m.blocks.dom()
            &&& h != hash && m.blocks.contains_key(h) ==> w.blocks[h] == m.blocks[h]
            &&& w.blocks[hash].parent == m.blocks[hash].parent
            &&& w.blocks[hash].connected == m.blocks[hash].connected
            &&& w.blocks[hash].data.number == m.blocks[hash].data.number
            &&& w.blocks[hash].data.bloom == m.blocks[hash].data.bloom
            &&& is is Complete
            &&& forall|i: u64| #[trigger]
                is->Complete_0.contains_key(i) <==> exists|j: int|
                    0 <= j < logs.len() && (#[trigger] logs[j]).log_index == i
            &&& forall|j: int|
                0 <= j < logs.len() && (forall|k: int|
                    j < k < logs.len() ==> (#[trigger] logs[k]).log_index != logs[j].log_index)
                    ==> is->Complete_0[(#[trigger] logs[j]).log_index] == logs[j]
        }),
{
    law_every_log_is_kept(logs);
    assert(m.with_complete(hash, logs).blocks.dom() =~= m.blocks.dom());
}

// ---- naming pools ----

/// A block names exactly the pools of its stored logs, of every protocol, streamed or authoritative.
pub proof fn law_logs_name_their_pools(logs: LogsModel, k: ProtocolPoolKey)
    ensures
        logs is Unknown ==> !named_pools(logs).contains(k),
        logs matches LogsModel::Streamed(m) ==> (named_pools(logs).contains(k) <==> exists|i: u64|
            m.contains_key(i) && (#[trigger] m[i]).pool == k),
        logs matches LogsModel::Complete(m) ==> (named_pools(logs).contains(k) <==> exists|i: u64|
            m.contains_key(i) && (#[trigger] m[i]).pool == k),
{
    match logs {
        LogsModel::Unknown => {},
        LogsModel::Streamed(m) => {
            lemma_named(m, k);
        },
        LogsModel::Complete(m) => {
            lemma_named(m, k);
        },
    }
}

proof fn lemma_named(m: Map<u64, PoolLog>, k: ProtocolPoolKey)
    ensures
        crate::graph_model::pools_in(m).contains(k) <==> exists|i: u64|
            m.contains_key(i) && (#[trigger] m[i]).pool == k,
{
    if crate::graph_model::pools_in(m).contains(k) {
        let i = choose|i: u64| #[trigger] m.contains_key(i) && m[i].pool == k;
        assert(m.contains_key(i) && m[i].pool == k);
    }
    if exists|i: u64| m.contains_key(i) && (#[trigger] m[i]).pool == k {
        let i = choose|i: u64| m.contains_key(i) && (#[trigger] m[i]).pool == k;
        assert(m.contains_key(i));
    }
}

/// The candidates of a path: for each block that names a pool one entry with all that it names, in
/// the order of the path, and no others.
pub proof fn law_candidates_follow_path(m: GraphModel, path: Seq<BlockHash>)
    ensures
        forall|i: int|
            0 <= i < path.len() && (exists|k: ProtocolPoolKey|
                named_pools(m.blocks[#[trigger] path[i]].data.logs).contains(k)) ==> exists|c: int|
                0 <= c < m.candidates_along(path).len() && (#[trigger] m.candidates_along(
                    path,
                )[c]).0 == path[i] && m.candidates_along(path)[c].1 == named_pools(
                    m.blocks[path[i]].data.logs,
                ),
        forall|c: int|
            0 <= c < m.candidates_along(path).len() ==> path.contains(
                (#[trigger] m.candidates_along(path)[c]).0,
            ) && m.candidates_along(path)[c].1 == named_pools(
                m.blocks[m.candidates_along(path)[c].0].data.logs,
            ) && exists|k: ProtocolPoolKey| m.candidates_along(path)[c].1.contains(k),
        path.no_duplicates() ==> forall|a: int, b: int|
            #![trigger m.candidates_along(path)[a], m.candidates_along(path)[b]]
            0 <= a < b < m.candidates_along(path).len() ==> exists|i: int, j: int|
                0 <= i < j < path.len() && #[trigger] path[i] == m.candidates_along(path)[a].0
                    && #[trigger] path[j] == m.candidates_along(path)[b].0,
    decreases path.len(),
{
    let all = m.candidates_along(path);
    if path.len() > 0 {
        let shorter = path.drop_last();
        let before = m.candidates_along(shorter);
        let h = path.last();
        let pools = named_pools(m.blocks[h].data.logs);
        law_candidates_follow_path(m, shorter);
        assert forall|i: int|
            0 <= i < path.len() && (exists|k: ProtocolPoolKey|
                named_pools(
                    m.blocks[#[trigger] path[i]].data.logs,
                ).contains(k)) implies exists|c: int|
            0 <= c < all.len() && (#[trigger] all[c]).0 == path[i] && all[c].1 == named_pools(
                m.blocks[path[i]].data.logs,
            ) by {
            if i < shorter.len() {
                assert(shorter[i] == path[i]);
                let c = choose|c: int|
                    0 <= c < before.len() && (#[trigger] before[c]).0 == shorter[i] && before[c].1
                        == named_pools(m.blocks[shorter[i]].data.logs);
                assert(all[c] == before[c]);
            } else {
                let k = choose|k: ProtocolPoolKey|
                    named_pools(m.blocks[path[i]].data.logs).contains(k);
                assert(pools.contains(k));
                assert(all[before.len() as int] == (h, pools));
            }
        }
        assert forall|c: int| 0 <= c < all.len() implies path.contains((#[trigger] all[c]).0)
            && all[c].1 == named_pools(m.blocks[all[c].0].data.logs) && exists|k: ProtocolPoolKey|
            all[c].1.contains(k) by {
            if c < before.len() {
                assert(all[c] == before[c]);
                let i = choose|i: int| 0 <= i < shorter.len() && shorter[i] == before[c].0;
                assert(path[i] == all[c].0);
            } else {
                assert(path[path.len() - 1] == h);
                if forall|k: ProtocolPoolKey| !pools.contains(k) {
                    assert(pools =~= Set::empty());
                }
            }
        }
        if path.no_duplicates() {
            assert(shorter.no_duplicates());
            assert forall|a: int, b: int|
                #![trigger all[a], all[b]]
                0 <= a < b < all.len() implies exists|i: int, j: int|
                0 <= i < j < path.len() && #[trigger] path[i] == all[a].0 && #[trigger] path[j]
                    == all[b].0 by {
                assert(all[a] == before[a]);
                if b < before.len() {
                    assert(all[b] == before[b]);
                    let (i, j) = choose|i: int, j: int|
                        0 <= i < j < shorter.len() && #[trigger] shorter[i] == before[a].0
                            && #[trigger] shorter[j] == before[b].0;
                    assert(path[i] == all[a].0 && path[j] == all[b].0);
                } else {
                    assert(shorter.contains(before[a].0));
                    let i = choose|i: int| 0 <= i < shorter.len() && shorter[i] == before[a].0;
                    assert(path[i] == all[a].0 && path[path.len() - 1] == all[b].0);
                }
            }
        }
    }
}

// ---- the order of events ----

proof fn lemma_events_filtered(
    m: Map<u64, PoolLog>,
    order: Seq<u64>,
    key: ProtocolPoolKey,
) -> (picked: Seq<u64>)
    requires
        strictly_ascending(order),
    ensures
        strictly_ascending(picked),
        forall|i: u64| #[trigger] picked.contains(i) <==> order.contains(i) && m[i].pool == key,
        events_of(order.map_values(|i: u64| m[i]), key) == Seq::new(
            picked.len(),
            |j: int| m[picked[j]].event,
        ),
    decreases order.len(),
{
    let logs = order.map_values(|i: u64| m[i]);
    if order.len() == 0 {
        assert(events_of(logs, key) =~= Seq::new(0, |j: int| m[Seq::<u64>::empty()[j]].event));
        Seq::empty()
    } else {
        let shorter = order.drop_last();
        let last = order.last();
        let before = lemma_events_filtered(m, shorter, key);
        assert(logs.drop_last() =~= shorter.map_values(|i: u64| m[i]));
        lemma_push_contains(shorter, last);
        assert(shorter.push(last) =~= order);
        if m[last].pool == key {
            let picked = before.push(last);
            lemma_push_contains(before, last);
            assert forall|i: int, j: int| 0 <= i < j < picked.len() implies (
            #[trigger] picked[i]).rank() < (#[trigger] picked[j]).rank() by {
                if j == before.len() {
                    assert(before.contains(before[i]));
                    assert(shorter.contains(before[i]));
                    let k = choose|k: int| 0 <= k < shorter.len() && shorter[k] == before[i];
                    assert(order[k].rank() < order[order.len() - 1].rank());
                }
            }
            assert(events_of(logs, key) =~= Seq::new(
                picked.len(),
                |j: int| m[picked[j]].event,
            ));
            picked
        } else {
            before
        }
    }
}

/// The events of a pool within a block are those of its readable logs of that pool, every one of
/// them, by increasing log index. Authoritative logs can always be read, streamed ones only where
/// they are allowed, and unknown ones never.
pub proof fn law_events_come_by_log_index(
    m: GraphModel,
    h: BlockHash,
    authority: Authority,
    key: ProtocolPoolKey,
    logs: Map<u64, PoolLog>,
    indices: Seq<u64>,
)
    requires
        logs.dom().finite(),
        forall|a: int, b: int| 0 <= a < b < indices.len() ==> #[trigger] indices[a]
            < #[trigger] indices[b],
        forall|i: u64| #[trigger]
            indices.contains(i) <==> logs.contains_key(i) && logs[i].pool == key,
    ensures
        m.blocks[h].data.logs == LogsModel::Complete(logs) || (m.blocks[h].data.logs
            == LogsModel::Streamed(logs) && authority == Authority::AllowStreamed) ==> m.block_run(
            h,
            authority,
            key,
        ) == Seq::new(indices.len(), |j: int| logs[indices[j]].event),
        m.blocks[h].data.logs is Unknown || (m.blocks[h].data.logs is Streamed && authority
            == Authority::RequireComplete) ==> m.block_run(h, authority, key).len() == 0,
{
    let order = ascending(logs.dom());
    lemma_ascending(logs.dom());
    let picked = lemma_events_filtered(logs, order, key);
    assert(strictly_ascending(indices)) by {
        assert forall|a: int, b: int| 0 <= a < b < indices.len() implies (
        #[trigger] indices[a]).rank() < (#[trigger] indices[b]).rank() by {}
    }
    assert forall|i: u64| #[trigger] picked.contains(i) <==> indices.contains(i) by {
        assert(order.contains(i) <==> logs.dom().contains(i));
    }
    lemma_listing_unique(picked, indices);
    assert(in_log_order(logs) == order.map_values(|i: u64| logs[i]));
}

/// The events of a pool along a path are those of its blocks, one after the other.
pub proof fn law_runs_join_blocks(
    m: GraphModel,
    path: Seq<BlockHash>,
    h: BlockHash,
    authority: Authority,
    key: ProtocolPoolKey,
)
    ensures
        m.run_of(Seq::empty(), authority, key) == Seq::<PoolLogEvent>::empty(),
        m.run_of(path.push(h), authority, key) == m.run_of(path, authority, key) + m.block_run(
            h,
            authority,
            key,
        ),
{
    assert(path.push(h).drop_last() =~= path);
}

} // verus!
