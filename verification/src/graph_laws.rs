//! What holds of the block tree as a whole, whatever the order of events.
use vstd::prelude::*;

use crate::folds::lemma_foldable_len;
use crate::graph_lemmas::{
    lemma_admitted_wf, lemma_ancestor_agree, lemma_ancestor_front, lemma_ancestor_sum,
    lemma_awaits_step, lemma_chain, lemma_chain_prefix, lemma_depth, lemma_descends_join,
    lemma_present_chain, lemma_reanchored_wf, lemma_survivors_below,
};
use crate::graph_model::{
    keyed, log_level, state_in, Admission, Authority, DataModel, GraphModel, LogsModel, RangeModel,
};
use crate::order::{ascending, lemma_ascending, strictly_ascending};
use crate::pool_state::{
    derived, is_absolute, law_fold_in_parts, law_seed_needs_absolute_event, PoolLog, PoolRef,
    PoolState,
};
use crate::primitives::BlockHash;

verus! {

// ---- connectivity ----

/// The parents of `h`, over present blocks, come to the anchor.
pub open spec fn comes_to_anchor(m: GraphModel, h: BlockHash) -> bool {
    exists|n: nat| m.walks(h, n) && m.ancestor(h, n) == m.anchor
}

proof fn lemma_comes_to_anchor(m: GraphModel, h: BlockHash, n: nat)
    requires
        m.wf(),
        m.has(h),
        m.walks(h, n),
        m.ancestor(h, n) == m.anchor,
    ensures
        m.connected(h),
    decreases n,
{
    assert(n > 0);
    let p = m.parent_of(h);
    lemma_ancestor_front(m, h, (n - 1) as nat);
    if p != m.anchor {
        reveal_with_fuel(GraphModel::ancestor, 2);
        assert(m.ancestor(h, 1) == p);
        assert(n > 1) by {
            if n == 1 {
                assert(m.ancestor(h, n) == p);
            }
        }
        assert(!m.stops_at(m.ancestor(h, 1)));
        assert(m.walks(p, (n - 1) as nat)) by {
            assert forall|i: nat| i < n - 1 implies !#[trigger] m.stops_at(m.ancestor(p, i)) by {
                lemma_ancestor_front(m, h, i);
                assert(!m.stops_at(m.ancestor(h, i + 1)));
            }
        }
        lemma_comes_to_anchor(m, p, (n - 1) as nat);
    }
    assert(!m.pending(h));
}

/// A block is connected exactly when its parents, over present blocks, come to the anchor.
pub proof fn law_connected_iff_path(m: GraphModel, h: BlockHash)
    requires
        m.wf(),
        m.has(h),
    ensures
        m.connected(h) <==> comes_to_anchor(m, h),
{
    if m.connected(h) {
        lemma_depth(m, h);
        let d = m.depth(h);
        assert forall|i: nat| i < d implies !#[trigger] m.stops_at(m.ancestor(h, i)) by {
            assert(m.connected(m.ancestor(h, i)));
        }
        assert(m.walks(h, d));
    }
    if comes_to_anchor(m, h) {
        let n = choose|n: nat| m.walks(h, n) && m.ancestor(h, n) == m.anchor;
        lemma_comes_to_anchor(m, h, n);
    }
}

/// Two graphs over one anchor with the same blocks, parents and payloads agree on which blocks are
/// connected: the graph is a function of what was admitted, not of the order of arrival.
pub proof fn law_order_of_arrival_is_forgotten(a: GraphModel, b: GraphModel)
    requires
        a.wf(),
        b.wf(),
        a.anchor == b.anchor,
        a.blocks.dom() == b.blocks.dom(),
        forall|h: BlockHash|
            a.has(h) ==> (#[trigger] a.blocks[h]).parent == b.blocks[h].parent && a.blocks[h].data
                == b.blocks[h].data,
    ensures
        a.blocks == b.blocks,
{
    assert forall|h: BlockHash| a.has(h) implies #[trigger] a.blocks[h] == b.blocks[h] by {
        lemma_same_paths(a, b, h);
        lemma_same_paths(b, a, h);
        law_connected_iff_path(a, h);
        law_connected_iff_path(b, h);
    }
    assert(a.blocks =~= b.blocks);
}

proof fn lemma_same_paths(a: GraphModel, b: GraphModel, h: BlockHash)
    requires
        a.anchor == b.anchor,
        a.blocks.dom() == b.blocks.dom(),
        forall|x: BlockHash|
            a.has(x) ==> (#[trigger] a.blocks[x]).parent == b.blocks[x].parent,
    ensures
        comes_to_anchor(a, h) ==> comes_to_anchor(b, h),
{
    if comes_to_anchor(a, h) {
        let n = choose|n: nat| a.walks(h, n) && a.ancestor(h, n) == a.anchor;
        assert forall|i: nat| i < n implies a.parent_of(#[trigger] a.ancestor(h, i)) == b.parent_of(
            a.ancestor(h, i),
        ) by {
            assert(!a.stops_at(a.ancestor(h, i)));
            assert(a.blocks[a.ancestor(h, i)].parent == b.blocks[a.ancestor(h, i)].parent);
        }
        lemma_ancestor_agree(a, b, h, n);
        assert(a.ancestor(h, n) == b.ancestor(h, n));
        assert forall|i: nat| i < n implies !#[trigger] b.stops_at(b.ancestor(h, i)) by {
            assert(a.ancestor(h, i) == b.ancestor(h, i));
            assert(!a.stops_at(a.ancestor(h, i)));
        }
        assert(b.walks(h, n));
    }
}

/// Two blocks admitted in either order leave the same graph.
pub proof fn law_admissions_commute(
    m: GraphModel,
    h1: BlockHash,
    p1: BlockHash,
    d1: DataModel,
    h2: BlockHash,
    p2: BlockHash,
    d2: DataModel,
)
    requires
        m.wf(),
        h1 != h2,
        h1 != p1 && h2 != p2,
        h1 != m.anchor && h2 != m.anchor,
        !m.has(h1) && !m.has(h2),
    ensures
        m.with_admitted(h1, p1, d1).with_admitted(h2, p2, d2) == m.with_admitted(
            h2,
            p2,
            d2,
        ).with_admitted(h1, p1, d1),
{
    let a1 = m.with_admitted(h1, p1, d1);
    let b1 = m.with_admitted(h2, p2, d2);
    lemma_admitted_wf(m, h1, p1, d1);
    lemma_admitted_wf(m, h2, p2, d2);
    lemma_admitted_wf(a1, h2, p2, d2);
    lemma_admitted_wf(b1, h1, p1, d1);
    let a = a1.with_admitted(h2, p2, d2);
    let b = b1.with_admitted(h1, p1, d1);
    assert(a.blocks.dom() =~= b.blocks.dom());
    assert forall|h: BlockHash| a.has(h) implies (#[trigger] a.blocks[h]).parent
        == b.blocks[h].parent && a.blocks[h].data == b.blocks[h].data by {
    }
    law_order_of_arrival_is_forgotten(a, b);
}

// ---- admission ----

/// A refused block leaves the graph as it was.
pub proof fn law_refusal_keeps_graph(
    m: GraphModel,
    hash: BlockHash,
    parent: BlockHash,
    data: DataModel,
    max_pending: nat,
)
    ensures
        m.admission(hash, parent, max_pending) != Admission::Admitted ==> m.with_offered(
            hash,
            parent,
            data,
            max_pending,
        ) == m,
{
}

/// A block already in the graph keeps its parent and payload whatever is offered.
pub proof fn law_first_seen_is_kept(
    m: GraphModel,
    h: BlockHash,
    hash: BlockHash,
    parent: BlockHash,
    data: DataModel,
    max_pending: nat,
)
    requires
        m.has(h),
    ensures
        m.with_offered(hash, parent, data, max_pending).has(h),
        m.with_offered(hash, parent, data, max_pending).parent_of(h) == m.parent_of(h),
        m.with_offered(hash, parent, data, max_pending).blocks[h].data == m.blocks[h].data,
        m.connected(h) ==> m.with_offered(hash, parent, data, max_pending).connected(h),
{
}

/// The pending blocks never exceed the cap.
pub proof fn law_pending_bounded(
    m: GraphModel,
    hash: BlockHash,
    parent: BlockHash,
    data: DataModel,
    max_pending: nat,
)
    requires
        m.wf(),
        m.pending_blocks().len() <= max_pending,
    ensures
        m.with_offered(hash, parent, data, max_pending).pending_blocks().len() <= max_pending,
{
    let w = m.with_offered(hash, parent, data, max_pending);
    assert(m.pending_blocks().subset_of(m.blocks.dom()));
    vstd::set_lib::lemma_set_subset_finite(m.blocks.dom(), m.pending_blocks());
    if m.admission(hash, parent, max_pending) == Admission::Admitted {
        if m.connects(parent) {
            assert(w.pending_blocks().subset_of(m.pending_blocks()));
            vstd::set_lib::lemma_len_subset(w.pending_blocks(), m.pending_blocks());
        } else {
            assert(w.pending_blocks() =~= m.pending_blocks().insert(hash));
        }
    }
}

/// The cap never refuses a block that connects.
pub proof fn law_cap_spares_connecting_blocks(
    m: GraphModel,
    hash: BlockHash,
    parent: BlockHash,
    max_pending: nat,
)
    requires
        hash != parent,
        hash != m.anchor,
        !m.has(hash),
        m.connects(parent),
    ensures
        m.admission(hash, parent, max_pending) == Admission::Admitted,
{
}

/// A block is refused a second time, as a duplicate or as a conflict.
pub proof fn law_offered_twice(
    m: GraphModel,
    hash: BlockHash,
    parent: BlockHash,
    data: DataModel,
    other_parent: BlockHash,
    other_data: DataModel,
    max_pending: nat,
)
    requires
        m.admission(hash, parent, max_pending) == Admission::Admitted,
        hash != other_parent,
    ensures
        m.with_offered(hash, parent, data, max_pending).admission(hash, other_parent, max_pending)
            == (if other_parent == parent {
            Admission::DuplicateBlock
        } else {
            Admission::ConflictingParent
        }),
{
    let w = m.with_offered(hash, parent, data, max_pending);
    assert(w.has(hash));
}

// ---- gaps ----

/// A pending block whose parents do not run in a circle waits, in the end, for one of the missing
/// parents.
pub proof fn law_gap_root_is_missing(m: GraphModel, h: BlockHash, n: nat)
    requires
        m.wf(),
        m.pending(h),
        m.walks(h, n),
    ensures
        m.absent_parents().contains(m.ancestor(h, n)),
    decreases n,
{
    if n == 0 {
        assert(m.ancestor(h, 0) == h);
    }
    let p = m.parent_of(h);
    lemma_ancestor_front(m, h, (n - 1) as nat);
    reveal_with_fuel(GraphModel::ancestor, 2);
    assert(m.ancestor(h, 1) == p);
    if n == 1 {
        assert(m.stops_at(p));
        assert(m.pending(h) && m.parent_of(h) == p);
    } else {
        assert(!m.stops_at(m.ancestor(h, 1)));
        assert(m.pending(p));
        assert(m.walks(p, (n - 1) as nat)) by {
            assert forall|i: nat| i < n - 1 implies !#[trigger] m.stops_at(m.ancestor(p, i)) by {
                lemma_ancestor_front(m, h, i);
                assert(!m.stops_at(m.ancestor(h, i + 1)));
            }
        }
        law_gap_root_is_missing(m, p, (n - 1) as nat);
    }
}

/// Fetching a missing block makes progress: when it connects, all that waited for it is connected
/// too; otherwise all that waited for it waits for its parent.
pub proof fn law_missing_block_makes_progress(
    m: GraphModel,
    hash: BlockHash,
    parent: BlockHash,
    data: DataModel,
    max_pending: nat,
    h: BlockHash,
)
    requires
        m.wf(),
        !m.has(hash),
        m.admission(hash, parent, max_pending) is Admitted,
        m.awaits(h, hash),
    ensures
        ({
            let w = m.with_offered(hash, parent, data, max_pending);
            &&& m.connects(parent) ==> w.connected(hash) && w.connected(h)
            &&& !m.connects(parent) ==> w.awaits(h, parent) && w.awaits(hash, parent)
        }),
{
    let e = m.with_entry(hash, parent, data);
    let n = choose|n: nat| m.awaits_in(h, n, hash);
    assert forall|i: nat| i < n implies m.parent_of(#[trigger] m.ancestor(h, i)) == e.parent_of(
        m.ancestor(h, i),
    ) by {
        assert(m.pending(m.ancestor(h, i)));
    }
    lemma_ancestor_agree(m, e, h, n);
    assert forall|i: nat| i < n implies #[trigger] e.pending(e.ancestor(h, i)) by {
        assert(m.pending(m.ancestor(h, i)));
        assert(e.ancestor(h, i) == m.ancestor(h, i));
    }
    assert(e.ancestor(h, n) == m.ancestor(h, n));
    assert(e.awaits_in(h, n, hash));
    if !m.connects(parent) {
        assert(e.ancestor(h, n + 1) == e.parent_of(e.ancestor(h, n)));
        assert forall|i: nat| i < n + 1 implies #[trigger] e.pending(e.ancestor(h, i)) by {}
        assert(e.awaits_in(h, n + 1, parent));
        lemma_awaits_step(e, hash, parent);
    }
}

/// The missing parents are listed once each, in order, and each is absent, is not the anchor and is
/// the parent of a pending block.
pub proof fn law_missing_parents_listing(m: GraphModel, i: int)
    requires
        m.wf(),
        0 <= i < ascending(m.absent_parents()).len(),
    ensures
        strictly_ascending(ascending(m.absent_parents())),
        !m.has(ascending(m.absent_parents())[i]),
        ascending(m.absent_parents())[i] != m.anchor,
        exists|h: BlockHash| #[trigger]
            m.pending(h) && m.parent_of(h) == ascending(m.absent_parents())[i],
{
    lemma_absent_parents_finite(m);
    lemma_ascending(m.absent_parents());
    let s = ascending(m.absent_parents());
    assert(s.contains(s[i]));
}

/// A finite graph misses finitely many parents.
pub proof fn lemma_absent_parents_finite(m: GraphModel)
    requires
        m.blocks.dom().finite(),
    ensures
        m.absent_parents().finite(),
{
    let parents = m.blocks.dom().map(|h: BlockHash| m.parent_of(h));
    m.blocks.dom().lemma_map_finite(|h: BlockHash| m.parent_of(h));
    assert(m.absent_parents().subset_of(parents)) by {
        assert forall|p: BlockHash| m.absent_parents().contains(p) implies parents.contains(p) by {
            let h = choose|h: BlockHash| #[trigger] m.pending(h) && m.parent_of(h) == p;
            assert(m.blocks.dom().contains(h));
        }
    }
    vstd::set_lib::lemma_set_subset_finite(parents, m.absent_parents());
}

/// Without pending blocks nothing is missing.
pub proof fn law_nothing_missing_when_all_connected(m: GraphModel)
    requires
        forall|h: BlockHash| m.has(h) ==> #[trigger] m.connected(h),
    ensures
        m.absent_parents() == Set::<BlockHash>::empty(),
{
    assert forall|p: BlockHash| !m.absent_parents().contains(p) by {
        if m.absent_parents().contains(p) {
            let h = choose|h: BlockHash| #[trigger] m.pending(h) && m.parent_of(h) == p;
            assert(m.connected(h));
        }
    }
    assert(m.absent_parents() =~= Set::empty());
}

// ---- chains ----

/// The canonical chain is a path of connected blocks from a child of the anchor to the head; it is
/// empty exactly when the head is not connected.
pub proof fn law_canonical_chain(m: GraphModel)
    requires
        m.wf(),
    ensures
        m.canonical().len() == 0 <==> !m.connected(m.head),
        m.connected(m.head) ==> m.canonical().last() == m.head && m.parent_of(m.canonical()[0])
            == m.anchor,
        forall|i: int|
            0 <= i < m.canonical().len() ==> m.connected(#[trigger] m.canonical()[i]),
        forall|i: int|
            1 <= i < m.canonical().len() ==> m.parent_of(#[trigger] m.canonical()[i])
                == m.canonical()[i - 1],
{
    lemma_chain(m, m.head);
}

/// When the head is connected, the present chain is the canonical chain, newest first, and its
/// length is the head's distance from the anchor.
pub proof fn law_present_chain_of_connected_head(m: GraphModel)
    requires
        m.wf(),
        m.connected(m.head),
    ensures
        m.present_chain() == m.canonical().reverse(),
        m.distance(m.anchor) == Some(m.canonical().len()),
{
    lemma_depth(m, m.head);
    lemma_chain(m, m.head);
    let d = m.depth(m.head);
    assert forall|i: nat| i < d implies !#[trigger] m.stops_at(m.ancestor(m.head, i)) by {
        assert(m.connected(m.ancestor(m.head, i)));
    }
    assert(m.walks(m.head, d));
    lemma_present_chain(m, d);
    assert(m.present_chain() =~= m.canonical().reverse());
    assert(m.at_distance(m.anchor, d)) by {
        assert forall|i: nat| i < d implies #[trigger] m.has(m.ancestor(m.head, i)) && m.ancestor(
            m.head,
            i,
        ) != m.anchor by {
            assert(m.connected(m.ancestor(m.head, i)));
        }
    }
    crate::graph_lemmas::lemma_distance(m, m.anchor, d);
}

// ---- logs ----

/// Knowledge of a block's logs never shrinks, no block but the named one changes, and
/// authoritative logs are not touched by streamed ones.
pub proof fn law_log_ladder(m: GraphModel, hash: BlockHash, logs: Seq<PoolLog>, h: BlockHash)
    requires
        m.has(h),
    ensures
        m.with_streamed(hash, logs).has(h) && m.with_complete(hash, logs).has(h),
        log_level(m.with_streamed(hash, logs).blocks[h].data.logs) >= log_level(
            m.blocks[h].data.logs,
        ),
        log_level(m.with_complete(hash, logs).blocks[h].data.logs) >= log_level(
            m.blocks[h].data.logs,
        ),
        m.blocks[h].data.logs is Complete ==> m.with_streamed(hash, logs).blocks[h]
            == m.blocks[h],
        m.blocks[h].data.logs matches LogsModel::Streamed(before) ==> (m.with_streamed(
            hash,
            logs,
        ).blocks[h].data.logs matches LogsModel::Streamed(after) && before.dom().subset_of(
            after.dom(),
        )),
        h != hash ==> m.with_streamed(hash, logs).blocks[h] == m.blocks[h] && m.with_complete(
            hash,
            logs,
        ).blocks[h] == m.blocks[h],
        m.with_complete(hash, logs).has(hash) ==> m.with_complete(hash, logs).blocks[hash].data.logs
            == LogsModel::Complete(keyed(logs)),
{
}

/// Logs of an absent block change nothing.
pub proof fn law_logs_of_absent_block(m: GraphModel, hash: BlockHash, logs: Seq<PoolLog>)
    requires
        !m.has(hash),
    ensures
        m.with_streamed(hash, logs) == m,
        m.with_complete(hash, logs) == m,
{
}

/// Authoritative logs stand when they come again, and when streamed ones follow.
pub proof fn law_complete_logs_stand(
    m: GraphModel,
    hash: BlockHash,
    logs: Seq<PoolLog>,
    others: Seq<PoolLog>,
)
    ensures
        m.with_complete(hash, logs).with_complete(hash, logs) == m.with_complete(hash, logs),
        m.with_complete(hash, logs).with_streamed(hash, others) == m.with_complete(hash, logs),
        m.with_streamed(hash, others).with_complete(hash, logs) == m.with_complete(hash, logs),
{
    assert(m.with_complete(hash, logs).with_complete(hash, logs).blocks =~= m.with_complete(
        hash,
        logs,
    ).blocks);
    assert(m.with_complete(hash, logs).with_streamed(hash, others).blocks =~= m.with_complete(
        hash,
        logs,
    ).blocks);
    assert(m.with_streamed(hash, others).with_complete(hash, logs).blocks =~= m.with_complete(
        hash,
        logs,
    ).blocks);
}

proof fn lemma_keyed_join(a: Seq<PoolLog>, b: Seq<PoolLog>)
    ensures
        keyed(a + b) == keyed(a).union_prefer_right(keyed(b)),
    decreases b.len(),
{
    if b.len() == 0 {
        assert(a + b =~= a);
        assert(keyed(a).union_prefer_right(keyed(b)) =~= keyed(a));
    } else {
        lemma_keyed_join(a, b.drop_last());
        assert((a + b).drop_last() =~= a + b.drop_last());
        assert((a + b).last() == b.last());
        assert(keyed(a + b) =~= keyed(a).union_prefer_right(keyed(b)));
    }
}

/// Streamed logs that come in two parts leave what they leave when they come at once.
pub proof fn law_streamed_parts_join(
    m: GraphModel,
    hash: BlockHash,
    a: Seq<PoolLog>,
    b: Seq<PoolLog>,
)
    ensures
        m.with_streamed(hash, a).with_streamed(hash, b) == m.with_streamed(hash, a + b),
{
    lemma_keyed_join(a, b);
    let one = m.with_streamed(hash, a).with_streamed(hash, b);
    let two = m.with_streamed(hash, a + b);
    if m.has(hash) {
        match m.blocks[hash].data.logs {
            LogsModel::Unknown => {
                assert(one.blocks[hash].data.logs == two.blocks[hash].data.logs);
            },
            LogsModel::Streamed(old_logs) => {
                assert(old_logs.union_prefer_right(keyed(a)).union_prefer_right(keyed(b))
                    =~= old_logs.union_prefer_right(keyed(a + b)));
            },
            LogsModel::Complete(_) => {},
        }
        assert(one.blocks =~= two.blocks);
    }
}

// ---- holes and frontiers ----

/// The hashes of the ranges, one range after the other.
pub open spec fn joined(ranges: Seq<RangeModel>) -> Seq<BlockHash>
    decreases ranges.len(),
{
    if ranges.len() == 0 {
        Seq::empty()
    } else {
        joined(ranges.drop_last()) + ranges.last().hashes
    }
}

/// The range names each of its blocks by successive numbers.
pub open spec fn range_ok(m: GraphModel, r: RangeModel) -> bool {
    &&& r.hashes.len() > 0
    &&& r.to == r.from + r.hashes.len() - 1
    &&& forall|i: int|
        0 <= i < r.hashes.len() ==> m.blocks[#[trigger] r.hashes[i]].data.number == r.from + i
}

/// The ranges cover exactly the given blocks, in order; within a range the numbers are successive,
/// and no range could be joined with the next.
pub proof fn law_ranges_cover(m: GraphModel, hashes: Seq<BlockHash>)
    ensures
        joined(m.grouped(hashes)) == hashes,
        forall|i: int|
            0 <= i < m.grouped(hashes).len() ==> range_ok(m, #[trigger] m.grouped(hashes)[i]),
        forall|i: int|
            0 <= i < m.grouped(hashes).len() - 1 ==> (#[trigger] m.grouped(hashes)[i]).to + 1
                != m.grouped(hashes)[i + 1].from,
        hashes.len() > 0 ==> m.grouped(hashes).len() > 0 && m.grouped(hashes).last().to
            == m.blocks[hashes.last()].data.number,
    decreases hashes.len(),
{
    if hashes.len() == 0 {
        assert(joined(m.grouped(hashes)) =~= hashes);
    } else {
        let shorter = hashes.drop_last();
        law_ranges_cover(m, shorter);
        let before = m.grouped(shorter);
        let after = m.grouped(hashes);
        let h = hashes.last();
        let number = m.blocks[h].data.number;
        if before.len() > 0 && number == before.last().to + 1 {
            let last = before.last();
            assert(range_ok(m, before[before.len() - 1]));
            assert(after.drop_last() =~= before.drop_last());
            assert(joined(after) =~= joined(before).push(h));
            assert(range_ok(m, after.last())) by {
                let r = after.last();
                assert forall|i: int| 0 <= i < r.hashes.len() implies m.blocks[
                    #[trigger] r.hashes[i]].data.number == r.from + i by {
                    if i < last.hashes.len() {
                        assert(r.hashes[i] == last.hashes[i]);
                    }
                }
            }
            assert forall|i: int| 0 <= i < after.len() implies range_ok(
                m,
                #[trigger] after[i],
            ) by {
                if i < after.len() - 1 {
                    assert(after[i] == before[i]);
                }
            }
            assert forall|i: int| 0 <= i < after.len() - 1 implies (#[trigger] after[i]).to + 1
                != after[i + 1].from by {
                assert(after[i] == before[i]);
                assert(after[i + 1].from == before[i + 1].from);
            }
        } else {
            assert(after.drop_last() =~= before);
            assert(joined(after) =~= joined(before).push(h));
            assert(range_ok(m, after.last()));
            assert forall|i: int| 0 <= i < after.len() implies range_ok(
                m,
                #[trigger] after[i],
            ) by {
                if i < after.len() - 1 {
                    assert(after[i] == before[i]);
                }
            }
            assert forall|i: int| 0 <= i < after.len() - 1 implies (#[trigger] after[i]).to + 1
                != after[i + 1].from by {
                assert(after[i] == before[i]);
                if i + 1 < before.len() {
                    assert(after[i + 1] == before[i + 1]);
                }
            }
        }
        assert(joined(after) =~= hashes);
    }
}

proof fn lemma_filter_empty<A>(s: Seq<A>, test: spec_fn(A) -> bool)
    ensures
        s.filter(test).len() == 0 <==> forall|i: int| 0 <= i < s.len() ==> !test(#[trigger] s[i]),
    decreases s.len(),
{
    reveal(Seq::filter);
    if s.len() > 0 {
        let t = s.drop_last();
        lemma_filter_empty(t, test);
        if forall|i: int| 0 <= i < s.len() ==> !test(#[trigger] s[i]) {
            assert forall|i: int| 0 <= i < t.len() implies !test(#[trigger] t[i]) by {
                assert(t[i] == s[i]);
            }
            assert(!test(s[s.len() - 1]));
        }
        if s.filter(test).len() == 0 {
            assert forall|i: int| 0 <= i < s.len() implies !test(#[trigger] s[i]) by {
                if i < t.len() {
                    assert(t[i] == s[i]);
                }
            }
        }
    }
}

/// Nothing is left to fetch below a connected block exactly when the whole path to it can be
/// folded from authoritative logs.
pub proof fn law_no_holes_iff_foldable(m: GraphModel, target: BlockHash, touch: Set<BlockHash>)
    requires
        m.wf(),
        m.connected(target),
    ensures
        m.grouped(m.holes(target, touch, Set::empty())).len() == 0 <==> m.frontier(
            target,
            touch,
            Authority::RequireComplete,
        ) == target,
{
    let path = m.chain_to(target);
    lemma_chain(m, target);
    lemma_foldable_len(m, path, touch, Authority::RequireComplete);
    let n = m.foldable_len(path, touch, Authority::RequireComplete);
    let none = Set::<u64>::empty();
    let test = m.hole_test(touch, none);
    lemma_filter_empty(path, test);
    law_ranges_cover(m, m.holes(target, touch, none));
    assert(joined(Seq::<RangeModel>::empty()).len() == 0);
    if m.grouped(m.holes(target, touch, none)).len() == 0 {
        assert(m.grouped(m.holes(target, touch, none)) =~= Seq::empty());
        assert(m.holes(target, touch, none).len() == 0);
        if n < path.len() {
            assert(test(path[n as int]));
        }
        assert(n == path.len());
    }
    if m.frontier(target, touch, Authority::RequireComplete) == target {
        if n < path.len() {
            if n > 0 {
                assert(m.depth(path[n - 1]) == n);
                assert(m.depth(path[path.len() - 1]) == path.len());
            }
        }
        assert(n == path.len());
        assert forall|i: int| 0 <= i < path.len() implies !test(#[trigger] path[i]) by {
            assert(!m.blocks_fold(path[i], touch, Authority::RequireComplete));
        }
        assert(m.holes(target, touch, none) =~= Seq::empty());
    }
}

/// Nothing watched, nothing to fetch: every path can be folded to its end.
pub proof fn law_nothing_watched_nothing_blocks(m: GraphModel, target: BlockHash, authority: Authority)
    requires
        m.wf(),
        m.connected(target),
    ensures
        m.frontier(target, Set::empty(), authority) == target,
        m.holes(target, Set::empty(), Set::empty()).len() == 0,
{
    let path = m.chain_to(target);
    let none = Set::<BlockHash>::empty();
    lemma_chain(m, target);
    lemma_foldable_len(m, path, none, authority);
    lemma_filter_empty(path, m.hole_test(none, Set::empty()));
}

/// What finalization can fold, the optimization read can fold: it never stops earlier.
pub proof fn law_streamed_frontier_is_further(
    m: GraphModel,
    path: Seq<BlockHash>,
    touch: Set<BlockHash>,
)
    ensures
        m.foldable_len(path, touch, Authority::RequireComplete) <= m.foldable_len(
            path,
            touch,
            Authority::AllowStreamed,
        ),
    decreases path.len(),
{
    if path.len() > 0 {
        law_streamed_frontier_is_further(m, path.drop_first(), touch);
    }
}

/// Every block up to the frontier can be read or cannot matter, and the block right above it, if
/// the path goes on, is one that must not be passed.
pub proof fn law_frontier_stops_at_first_gap(
    m: GraphModel,
    target: BlockHash,
    touch: Set<BlockHash>,
    authority: Authority,
)
    requires
        m.wf(),
    ensures
        ({
            let path = m.chain_to(target);
            let n = m.foldable_len(path, touch, authority);
            &&& n <= path.len()
            &&& m.chain_to(m.frontier(target, touch, authority)) == path.take(n as int)
            &&& forall|i: int|
                0 <= i < n ==> !m.blocks_fold(#[trigger] path[i], touch, authority)
            &&& n < path.len() ==> m.blocks_fold(path[n as int], touch, authority)
        }),
{
    let path = m.chain_to(target);
    lemma_chain(m, target);
    lemma_foldable_len(m, path, touch, authority);
    let n = m.foldable_len(path, touch, authority);
    if n == 0 {
        assert(m.chain_to(m.anchor).len() == 0);
        assert(m.chain_to(m.anchor) =~= path.take(0));
    } else {
        lemma_chain_prefix(m, target, n - 1);
    }
}

// ---- finalization ----

/// Finalization moves the anchor only along the canonical chain, never past a block whose
/// authoritative logs are missing and may matter, and to `target` itself when there is none.
pub proof fn law_finalization_gate(m: GraphModel, target: BlockHash, touch: Set<BlockHash>)
    requires
        m.wf(),
    ensures
        !m.finalizable(target) ==> m.reanchored(m.final_root(target, touch)) == m,
        m.final_root(target, touch) == m.anchor || m.canonical().contains(
            m.final_root(target, touch),
        ),
        forall|i: int|
            0 <= i < m.chain_to(m.final_root(target, touch)).len() ==> !m.blocks_fold(
                #[trigger] m.chain_to(m.final_root(target, touch))[i],
                touch,
                Authority::RequireComplete,
            ),
        m.finalizable(target) && m.holes(target, touch, Set::empty()).len() == 0 ==> m.final_root(
            target,
            touch,
        ) == target,
{
    if m.finalizable(target) {
        let path = m.chain_to(target);
        let root = m.final_root(target, touch);
        lemma_chain(m, target);
        lemma_chain(m, m.head);
        law_frontier_stops_at_first_gap(m, target, touch, Authority::RequireComplete);
        lemma_foldable_len(m, path, touch, Authority::RequireComplete);
        let n = m.foldable_len(path, touch, Authority::RequireComplete);
        let c = m.canonical();
        let i = choose|i: int| 0 <= i < c.len() && c[i] == target;
        lemma_chain_prefix(m, m.head, i);
        if n > 0 {
            assert(path[n - 1] == c[n - 1]);
            assert(c.contains(root));
        }
        assert forall|k: int| 0 <= k < m.chain_to(root).len() implies !m.blocks_fold(
            #[trigger] m.chain_to(root)[k],
            touch,
            Authority::RequireComplete,
        ) by {
            assert(m.chain_to(root)[k] == path[k]);
        }
        if m.holes(target, touch, Set::empty()).len() == 0 {
            law_no_holes_iff_foldable(m, target, touch);
            assert(m.grouped(m.holes(target, touch, Set::empty())).len() == 0);
        }
    } else {
        assert(m.chain_to(m.anchor).len() == 0);
    }
}

/// After a re-rooting the new anchor's connected descendants are the only blocks, all of them
/// connected and unchanged; the head stays when it is among them and falls back to the anchor
/// otherwise.
pub proof fn law_reanchor_keeps_descendants(m: GraphModel, root: BlockHash, h: BlockHash)
    requires
        m.wf(),
        m.connected(root),
    ensures
        m.reanchored(root).wf(),
        m.reanchored(root).anchor == root,
        m.reanchored(root).has(h) <==> m.connected(h) && h != root && exists|n: nat|
            m.descends_in(h, n, root),
        m.reanchored(root).has(h) ==> m.reanchored(root).blocks[h] == m.blocks[h],
        !m.reanchored(root).pending(h),
        m.reanchored(root).absent_parents() == Set::<BlockHash>::empty(),
        m.reanchored(root).head == (if m.reanchored(root).has(m.head) {
            m.head
        } else {
            root
        }),
{
    lemma_reanchored_wf(m, root);
    let w = m.reanchored(root);
    assert forall|x: BlockHash| w.has(x) implies #[trigger] w.connected(x) by {
    }
    law_nothing_missing_when_all_connected(w);
}

/// The chain to a surviving block is the chain to the new anchor, then the chain that is left.
pub proof fn law_reanchor_splits_chains(m: GraphModel, root: BlockHash, h: BlockHash)
    requires
        m.wf(),
        m.connected(root),
        m.survives(h, root),
    ensures
        m.chain_to(h) == m.chain_to(root) + m.reanchored(root).chain_to(h),
{
    let w = m.reanchored(root);
    lemma_reanchored_wf(m, root);
    let n = choose|n: nat| m.descends_in(h, n, root);
    lemma_survivors_below(m, h, n, root);
    assert forall|i: nat| i < n implies m.parent_of(#[trigger] m.ancestor(h, i)) == w.parent_of(
        m.ancestor(h, i),
    ) by {
        assert(m.survives(m.ancestor(h, i), root));
    }
    lemma_ancestor_agree(m, w, h, n);
    assert forall|i: nat| i < n implies #[trigger] w.connected(w.ancestor(h, i)) by {
        assert(w.ancestor(h, i) == m.ancestor(h, i));
        assert(m.survives(m.ancestor(h, i), root));
    }
    assert(w.ancestor(h, n) == m.ancestor(h, n));
    assert(w.descends_in(h, n, root));
    lemma_depth(w, h);
    lemma_depth(m, h);
    lemma_depth(m, root);
    let b = m.depth(root);
    lemma_descends_join(m, h, n, root, b, m.anchor);
    assert(m.depth(h) == n + b);
    let left = m.chain_to(root) + w.chain_to(h);
    assert forall|i: int| 0 <= i < n + b implies m.chain_to(h)[i] == left[i] by {
        if i < b {
            lemma_ancestor_sum(m, h, n, (b - 1 - i) as nat);
            assert(n + (b - 1 - i) as nat == (n + b - 1 - i) as nat);
        } else {
            let k = (n + b - 1 - i) as nat;
            assert(m.ancestor(h, k) == w.ancestor(h, k));
        }
    }
    assert(m.chain_to(h) =~= left);
}

proof fn lemma_run_join(
    m: GraphModel,
    a: Seq<BlockHash>,
    b: Seq<BlockHash>,
    authority: Authority,
    key: crate::pool_state::ProtocolPoolKey,
)
    ensures
        m.run_of(a + b, authority, key) == m.run_of(a, authority, key) + m.run_of(
            b,
            authority,
            key,
        ),
    decreases b.len(),
{
    if b.len() == 0 {
        assert(a + b =~= a);
        assert(m.run_of(a, authority, key) + m.run_of(b, authority, key) =~= m.run_of(
            a,
            authority,
            key,
        ));
    } else {
        lemma_run_join(m, a, b.drop_last(), authority, key);
        assert((a + b).drop_last() =~= a + b.drop_last());
        assert((a + b).last() == b.last());
        assert(m.run_of(a + b, authority, key) =~= m.run_of(a, authority, key) + m.run_of(
            b,
            authority,
            key,
        ));
    }
}

proof fn lemma_run_agree(
    m: GraphModel,
    w: GraphModel,
    path: Seq<BlockHash>,
    authority: Authority,
    key: crate::pool_state::ProtocolPoolKey,
)
    requires
        forall|i: int| 0 <= i < path.len() ==> m.blocks[#[trigger] path[i]] == w.blocks[path[i]],
    ensures
        m.run_of(path, authority, key) == w.run_of(path, authority, key),
    decreases path.len(),
{
    if path.len() > 0 {
        let t = path.drop_last();
        assert forall|i: int| 0 <= i < t.len() implies m.blocks[#[trigger] t[i]]
            == w.blocks[t[i]] by {
            assert(t[i] == path[i]);
        }
        lemma_run_agree(m, w, t, authority, key);
        assert(m.blocks[path[path.len() - 1]] == w.blocks[path[path.len() - 1]]);
    }
}

/// Moving the anchor does not move the states: for a pool of the base whose path up to the new
/// anchor folds, and for a verified pool outside the base that this path seeds, folding on from the
/// advanced snapshot gives what folding from the old base gives.
pub proof fn law_finalization_keeps_states(
    m: GraphModel,
    root: BlockHash,
    h: BlockHash,
    base: Map<PoolRef, PoolState>,
    verified: Set<PoolRef>,
    pool: PoolRef,
)
    requires
        m.wf(),
        m.connected(root),
        m.survives(h, root),
        base.contains_key(pool) || verified.contains(pool),
        derived(
            state_in(base, pool),
            m.run_of(m.chain_to(root), Authority::RequireComplete, pool.key),
        ) is Some,
        derived(
            state_in(base, pool),
            m.run_of(m.chain_to(h), Authority::RequireComplete, pool.key),
        ) is Some,
    ensures
        ({
            let advanced = m.folded(base, verified, root, Authority::RequireComplete);
            let w = m.reanchored(root);
            &&& advanced.contains_key(pool)
            &&& m.folded(base, verified, h, Authority::RequireComplete).contains_key(pool)
            &&& w.folded(advanced, verified, h, Authority::RequireComplete).contains_key(pool)
            &&& w.folded(advanced, verified, h, Authority::RequireComplete)[pool] == m.folded(
                base,
                verified,
                h,
                Authority::RequireComplete,
            )[pool]
        }),
{
    let auth = Authority::RequireComplete;
    let w = m.reanchored(root);
    let key = pool.key;
    let first = m.chain_to(root);
    let rest = w.chain_to(h);
    lemma_reanchored_wf(m, root);
    law_reanchor_splits_chains(m, root, h);
    lemma_run_join(m, first, rest, auth, key);
    lemma_chain(w, h);
    assert forall|i: int| 0 <= i < rest.len() implies m.blocks[#[trigger] rest[i]]
        == w.blocks[rest[i]] by {
        assert(w.connected(w.chain_to(h)[i]));
    }
    lemma_run_agree(m, w, rest, auth, key);
    let run1 = m.run_of(first, auth, key);
    let run2 = w.run_of(rest, auth, key);
    let start = state_in(base, pool);
    law_fold_in_parts(start, run1, run2);
    let advanced = m.folded(base, verified, root, auth);
    assert(Some(advanced[pool]) == derived(start, run1)) by {
        if run1.len() == 0 {
            assert(derived(start, run1) == start);
        }
    }
    let both = run1 + run2;
    assert(m.run_of(m.chain_to(h), auth, key) == both);
    if run2.len() == 0 {
        assert(derived(derived(start, run1), run2) == derived(start, run1));
    }
    if both.len() == 0 {
        assert(derived(start, both) == start);
    }
}

/// A snapshot covers at least the pools that the base covered.
pub proof fn law_coverage_only_grows(
    m: GraphModel,
    base: Map<PoolRef, PoolState>,
    verified: Set<PoolRef>,
    target: BlockHash,
    authority: Authority,
    pool: PoolRef,
)
    ensures
        base.contains_key(pool) ==> m.folded(base, verified, target, authority).contains_key(pool),
        m.folded(base, verified, target, authority).contains_key(pool) ==> base.contains_key(pool)
            || verified.contains(pool),
{
}

/// A fold changes only pools that the path names: a pool without events on it keeps its base. Only
/// pools of the base and verified pools enter, and a pool without a base enters only when its events
/// begin with one that fixes the whole state. No pool of the base is lost, and the overlay holds none
/// at its base state.
pub proof fn law_fold_changes_only_named_pools(
    m: GraphModel,
    base: Map<PoolRef, PoolState>,
    verified: Set<PoolRef>,
    target: BlockHash,
    authority: Authority,
    pool: PoolRef,
)
    ensures
        ({
            let run = m.run_of(m.chain_to(target), authority, pool.key);
            let overlay = m.overlay(base, verified, target, authority);
            let folded = m.folded(base, verified, target, authority);
            &&& run.len() == 0 ==> !overlay.contains_key(pool) && (folded.contains_key(pool)
                <==> base.contains_key(pool)) && (base.contains_key(pool) ==> folded[pool]
                == base[pool])
            &&& !base.contains_key(pool) && !verified.contains(pool) ==> !folded.contains_key(pool)
            &&& !base.contains_key(pool) && folded.contains_key(pool) ==> run.len() > 0
                && is_absolute(run[0])
            &&& base.contains_key(pool) ==> folded.contains_key(pool)
            &&& base.contains_key(pool) && overlay.contains_key(pool) ==> overlay[pool]
                != base[pool]
        }),
{
    law_seed_needs_absolute_event(m.run_of(m.chain_to(target), authority, pool.key));
}

/// A path whose logs are all authoritative can be folded whole, whatever is watched.
pub proof fn law_authoritative_path_is_foldable(
    m: GraphModel,
    target: BlockHash,
    touch: Set<BlockHash>,
    authority: Authority,
)
    requires
        m.wf(),
        m.connected(target),
        forall|i: int|
            0 <= i < m.chain_to(target).len() ==> m.blocks[#[trigger] m.chain_to(
                target,
            )[i]].data.logs is Complete,
    ensures
        m.frontier(target, touch, authority) == target,
{
    let path = m.chain_to(target);
    lemma_chain(m, target);
    lemma_foldable_len(m, path, touch, authority);
    let n = m.foldable_len(path, touch, authority);
    if n < path.len() {
        assert(m.blocks[path[n as int]].data.logs is Complete);
    }
}

/// Once a block was finalized, hearing of it again changes nothing.
pub proof fn law_finalization_settles(
    m: GraphModel,
    target: BlockHash,
    touch: Set<BlockHash>,
    later: Set<BlockHash>,
)
    requires
        m.wf(),
        m.final_root(target, touch) == target,
    ensures
        ({
            let w = m.reanchored(target);
            w.anchor == target && w.reanchored(w.final_root(target, later)) == w
        }),
{
    let w = m.reanchored(target);
    assert(!w.has(target));
}

} // verus!
