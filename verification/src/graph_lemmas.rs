//! Facts about paths in a block tree, and that every graph operation keeps the tree well formed.
use vstd::prelude::*;

use crate::graph_model::{Admission, Authority, DataModel, GraphModel, LogsModel};
use crate::primitives::BlockHash;

verus! {

// ---- walking up ----

/// The first step taken first.
pub proof fn lemma_ancestor_front(m: GraphModel, h: BlockHash, n: nat)
    ensures
        m.ancestor(h, n + 1) == m.ancestor(m.parent_of(h), n),
    decreases n,
{
    reveal_with_fuel(GraphModel::ancestor, 2);
    if n > 0 {
        lemma_ancestor_front(m, h, (n - 1) as nat);
    }
}

/// `a + b` steps are `a` steps and then `b` steps.
pub proof fn lemma_ancestor_sum(m: GraphModel, h: BlockHash, a: nat, b: nat)
    ensures
        m.ancestor(h, a + b) == m.ancestor(m.ancestor(h, a), b),
    decreases b,
{
    if b > 0 {
        lemma_ancestor_sum(m, h, a, (b - 1) as nat);
        assert((a + b - 1) as nat == a + (b - 1) as nat);
    }
}

/// Two graphs that agree on the parents along a path agree on the path.
pub proof fn lemma_ancestor_agree(m: GraphModel, w: GraphModel, h: BlockHash, n: nat)
    requires
        forall|i: nat|
            i < n ==> m.parent_of(#[trigger] m.ancestor(h, i)) == w.parent_of(m.ancestor(h, i)),
    ensures
        forall|i: nat| i <= n ==> #[trigger] m.ancestor(h, i) == w.ancestor(h, i),
    decreases n,
{
    if n > 0 {
        lemma_ancestor_agree(m, w, h, (n - 1) as nat);
        assert(m.ancestor(h, (n - 1) as nat) == w.ancestor(h, (n - 1) as nat));
    }
    assert forall|i: nat| i <= n implies #[trigger] m.ancestor(h, i) == w.ancestor(h, i) by {
        if i == n && n > 0 {
            assert(m.ancestor(h, n) == m.parent_of(m.ancestor(h, (n - 1) as nat)));
            assert(w.ancestor(h, n) == w.parent_of(w.ancestor(h, (n - 1) as nat)));
        }
    }
}

/// Prepending one connected block to a connected path.
pub proof fn lemma_descends_step(m: GraphModel, h: BlockHash, n: nat, target: BlockHash)
    requires
        m.connected(h),
        m.descends_in(m.parent_of(h), n, target),
    ensures
        m.descends_in(h, n + 1, target),
{
    lemma_ancestor_front(m, h, n);
    assert forall|i: nat| i < n + 1 implies #[trigger] m.connected(m.ancestor(h, i)) by {
        if i > 0 {
            lemma_ancestor_front(m, h, (i - 1) as nat);
            assert(m.connected(m.ancestor(m.parent_of(h), (i - 1) as nat)));
        }
    }
}

/// Dropping the first blocks of a connected path.
pub proof fn lemma_descends_suffix(m: GraphModel, h: BlockHash, n: nat, target: BlockHash, k: nat)
    requires
        m.descends_in(h, n, target),
        k <= n,
    ensures
        m.descends_in(m.ancestor(h, k), (n - k) as nat, target),
{
    lemma_ancestor_sum(m, h, k, (n - k) as nat);
    assert forall|i: nat| i < n - k implies #[trigger] m.connected(
        m.ancestor(m.ancestor(h, k), i),
    ) by {
        lemma_ancestor_sum(m, h, k, i);
        assert(m.connected(m.ancestor(h, k + i)));
    }
}

/// Joining two connected paths.
pub proof fn lemma_descends_join(
    m: GraphModel,
    h: BlockHash,
    a: nat,
    middle: BlockHash,
    b: nat,
    target: BlockHash,
)
    requires
        m.descends_in(h, a, middle),
        m.descends_in(middle, b, target),
    ensures
        m.descends_in(h, a + b, target),
{
    lemma_ancestor_sum(m, h, a, b);
    assert forall|i: nat| i < a + b implies #[trigger] m.connected(m.ancestor(h, i)) by {
        if i >= a {
            lemma_ancestor_sum(m, h, a, (i - a) as nat);
            assert(m.connected(m.ancestor(middle, (i - a) as nat)));
        }
    }
}

/// The path of a connected block to the anchor has exactly one length.
pub proof fn lemma_depth(m: GraphModel, h: BlockHash)
    requires
        m.wf(),
        m.connected(h),
    ensures
        m.descends_in(h, m.depth(h), m.anchor),
        m.depth(h) >= 1,
        forall|n: nat| #[trigger] m.descends_in(h, n, m.anchor) ==> n == m.depth(h),
        m.parent_of(h) == m.anchor <==> m.depth(h) == 1,
        m.parent_of(h) != m.anchor ==> m.connected(m.parent_of(h)) && m.depth(m.parent_of(h)) + 1
            == m.depth(h),
{
    let d = m.depth(h);
    assert(m.descends_in(h, d, m.anchor));
    if d == 0 {
        assert(h == m.anchor);
    }
    assert forall|n: nat| #[trigger] m.descends_in(h, n, m.anchor) implies n == d by {
        if n < d {
            assert(m.connected(m.ancestor(h, n)));
        } else if d < n {
            assert(m.connected(m.ancestor(h, d)));
        }
    }
    reveal_with_fuel(GraphModel::ancestor, 2);
    assert(m.ancestor(h, 1) == m.parent_of(h));
    if m.parent_of(h) == m.anchor {
        assert(m.descends_in(h, 1, m.anchor)) by {
            assert forall|i: nat| i < 1 implies #[trigger] m.connected(m.ancestor(h, i)) by {
            }
        }
    } else {
        if d == 1 {
            assert(m.ancestor(h, d) == m.parent_of(h));
        }
        assert(m.connected(m.ancestor(h, 1)));
        let p = m.parent_of(h);
        lemma_descends_suffix(m, h, d, m.anchor, 1);
        assert(m.descends_in(p, (d - 1) as nat, m.anchor));
        let e = m.depth(p);
        assert(m.descends_in(p, e, m.anchor));
        lemma_descends_step(m, h, e, m.anchor);
    }
}

/// Every block on the way down from a connected block is connected, one step less deep each time.
pub proof fn lemma_depth_along(m: GraphModel, h: BlockHash, i: nat)
    requires
        m.wf(),
        m.connected(h),
        i < m.depth(h),
    ensures
        m.connected(m.ancestor(h, i)),
        m.depth(m.ancestor(h, i)) == m.depth(h) - i,
{
    lemma_depth(m, h);
    let x = m.ancestor(h, i);
    assert(m.connected(m.ancestor(h, i)));
    lemma_descends_suffix(m, h, m.depth(h), m.anchor, i);
    lemma_depth(m, x);
}

// ---- chains ----

/// The chain to a connected block runs from a child of the anchor to the block itself, parent by
/// parent, without repetition.
pub proof fn lemma_chain(m: GraphModel, h: BlockHash)
    requires
        m.wf(),
    ensures
        !m.connected(h) ==> m.chain_to(h).len() == 0,
        m.connected(h) ==> {
            let c = m.chain_to(h);
            &&& c.len() >= 1
            &&& c.len() == m.depth(h)
            &&& c.last() == h
            &&& m.parent_of(c[0]) == m.anchor
        },
        forall|i: int| 0 <= i < m.chain_to(h).len() ==> m.connected(#[trigger] m.chain_to(h)[i]),
        forall|i: int|
            0 <= i < m.chain_to(h).len() ==> m.depth(#[trigger] m.chain_to(h)[i]) == i + 1,
        forall|i: int|
            1 <= i < m.chain_to(h).len() ==> m.parent_of(#[trigger] m.chain_to(h)[i])
                == m.chain_to(h)[i - 1],
        m.chain_to(h).no_duplicates(),
{
    if m.connected(h) {
        lemma_depth(m, h);
        let c = m.chain_to(h);
        let d = m.depth(h);
        assert(c.last() == m.ancestor(h, 0));
        assert(m.ancestor(h, d) == m.parent_of(m.ancestor(h, (d - 1) as nat)));
        assert forall|i: int| 0 <= i < c.len() implies m.connected(#[trigger] c[i]) && m.depth(c[i])
            == i + 1 by {
            lemma_depth_along(m, h, (d - 1 - i) as nat);
        }
        assert forall|i: int| 1 <= i < c.len() implies m.parent_of(#[trigger] c[i]) == c[i - 1] by {
            assert(m.ancestor(h, (d - i) as nat) == m.parent_of(
                m.ancestor(h, (d - 1 - i) as nat),
            ));
        }
        assert forall|i: int, j: int| 0 <= i < c.len() && 0 <= j < c.len() && i != j implies c[i]
            != c[j] by {
            assert(m.depth(c[i]) == i + 1);
            assert(m.depth(c[j]) == j + 1);
        }
    }
}

/// The chain to a block of a chain is the part of the chain up to it.
pub proof fn lemma_chain_prefix(m: GraphModel, h: BlockHash, i: int)
    requires
        m.wf(),
        0 <= i < m.chain_to(h).len(),
    ensures
        m.chain_to(m.chain_to(h)[i]) == m.chain_to(h).take(i + 1),
{
    lemma_chain(m, h);
    let c = m.chain_to(h);
    let x = c[i];
    lemma_chain(m, x);
    let e = m.chain_to(x);
    assert(m.connected(x) && m.depth(x) == i + 1);
    let d = m.depth(h);
    assert forall|j: int| 0 <= j < i + 1 implies e[j] == c[j] by {
        lemma_ancestor_sum(m, h, (d - 1 - i) as nat, (i - j) as nat);
        assert((d - 1 - i) as nat + (i - j) as nat == (d - 1 - j) as nat);
    }
    assert(e =~= c.take(i + 1));
}

// ---- walks over present blocks ----

/// A walk ends after one number of steps only.
pub proof fn lemma_walks_unique(m: GraphModel, h: BlockHash, a: nat, b: nat)
    requires
        m.walks(h, a),
        m.walks(h, b),
    ensures
        a == b,
{
    if a < b {
        assert(!m.stops_at(m.ancestor(h, a)));
    } else if b < a {
        assert(!m.stops_at(m.ancestor(h, b)));
    }
}

/// Once the walk comes back to a block, it never leaves the blocks it has seen.
pub proof fn lemma_circle(m: GraphModel, h: BlockHash, i: nat, j: nat, n: nat) -> (k: nat)
    requires
        i < j,
        m.ancestor(h, i) == m.ancestor(h, j),
    ensures
        k < j,
        m.ancestor(h, n) == m.ancestor(h, k),
    decreases n,
{
    if n < j {
        n
    } else {
        let p = lemma_circle(m, h, i, j, (n - 1) as nat);
        assert(m.ancestor(h, n) == m.parent_of(m.ancestor(h, (n - 1) as nat)));
        assert(m.ancestor(h, p + 1) == m.parent_of(m.ancestor(h, p)));
        if p + 1 == j {
            i
        } else {
            p + 1
        }
    }
}

/// A walk that comes back to a block does not end.
pub proof fn lemma_circle_walks_forever(m: GraphModel, h: BlockHash, i: nat, j: nat)
    requires
        i < j,
        m.ancestor(h, i) == m.ancestor(h, j),
        forall|k: nat| k < j ==> !#[trigger] m.stops_at(m.ancestor(h, k)),
    ensures
        !exists|n: nat| m.walks(h, n),
{
    assert forall|n: nat| !m.walks(h, n) by {
        let k = lemma_circle(m, h, i, j, n);
        assert(!m.stops_at(m.ancestor(h, k)));
    }
}

/// What the present chain is when the walk ends after `n` steps.
pub proof fn lemma_present_chain(m: GraphModel, n: nat)
    requires
        m.walks(m.head, n),
    ensures
        m.present_chain() == Seq::new(n, |i: int| m.ancestor(m.head, i as nat)),
{
    let k = choose|k: nat| m.walks(m.head, k);
    lemma_walks_unique(m, m.head, n, k);
}

/// Every block of the present chain is in the graph.
pub proof fn lemma_present_chain_present(m: GraphModel)
    ensures
        forall|i: int| 0 <= i < m.present_chain().len() ==> m.has(#[trigger] m.present_chain()[i]),
{
    if exists|n: nat| m.walks(m.head, n) {
        let n = choose|n: nat| m.walks(m.head, n);
        assert forall|i: int| 0 <= i < n implies m.has(#[trigger] m.present_chain()[i]) by {
            assert(!m.stops_at(m.ancestor(m.head, i as nat)));
        }
    }
}

/// The distance to a reference is one number.
pub proof fn lemma_distance(m: GraphModel, reference: BlockHash, n: nat)
    requires
        m.at_distance(reference, n),
    ensures
        m.distance(reference) == Some(n),
{
    let k = choose|k: nat| m.at_distance(reference, k);
    assert(m.at_distance(reference, k));
    if k < n {
        assert(m.has(m.ancestor(m.head, k)));
    } else if n < k {
        assert(m.has(m.ancestor(m.head, n)));
    }
}

// ---- operations keep the tree well formed ----

/// A pending block whose parent is `root`, or awaits it, awaits it too.
pub proof fn lemma_awaits_step(m: GraphModel, h: BlockHash, root: BlockHash)
    requires
        m.pending(h),
        m.parent_of(h) == root || m.awaits(m.parent_of(h), root),
    ensures
        m.awaits(h, root),
{
    let p = m.parent_of(h);
    reveal_with_fuel(GraphModel::ancestor, 2);
    if p == root {
        assert(m.ancestor(h, 1) == root);
        assert(m.awaits_in(h, 1, root));
    } else {
        let n = choose|n: nat| m.awaits_in(p, n, root);
        lemma_ancestor_front(m, h, n);
        assert forall|i: nat| i < n + 1 implies #[trigger] m.pending(m.ancestor(h, i)) by {
            if i > 0 {
                lemma_ancestor_front(m, h, (i - 1) as nat);
                assert(m.pending(m.ancestor(p, (i - 1) as nat)));
            }
        }
        assert(m.awaits_in(h, n + 1, root));
    }
}

/// What awaits a block has a parent that is the block or awaits it too.
pub proof fn lemma_awaits_parent(m: GraphModel, h: BlockHash, n: nat, root: BlockHash)
    requires
        m.awaits_in(h, n, root),
        n > 0,
    ensures
        n == 1 ==> m.parent_of(h) == root,
        m.awaits_in(m.parent_of(h), (n - 1) as nat, root),
        n > 1 ==> m.awaits(m.parent_of(h), root),
{
    let p = m.parent_of(h);
    lemma_ancestor_front(m, h, (n - 1) as nat);
    assert forall|i: nat| i < n - 1 implies #[trigger] m.pending(m.ancestor(p, i)) by {
        lemma_ancestor_front(m, h, i);
        assert(m.pending(m.ancestor(h, i + 1)));
    }
    reveal_with_fuel(GraphModel::ancestor, 2);
    assert(m.ancestor(h, 1) == p);
    assert(m.awaits_in(p, (n - 1) as nat, root));
    if n > 1 {
        assert(m.pending(m.ancestor(h, 1)));
    }
}

/// After promotion, a block that awaited `root` in `n` steps is on a path to it.
proof fn lemma_promoted_path(m: GraphModel, h: BlockHash, n: nat, root: BlockHash)
    requires
        m.awaits_in(h, n, root),
    ensures
        m.promoted(root).descends_in(h, n, root),
    decreases n,
{
    let w = m.promoted(root);
    if n > 0 {
        assert(m.pending(m.ancestor(h, 0)));
        lemma_awaits_parent(m, h, n, root);
        lemma_promoted_path(m, m.parent_of(h), (n - 1) as nat, root);
        assert(w.connected(h));
        assert(w.parent_of(h) == m.parent_of(h));
        lemma_descends_step(w, h, (n - 1) as nat, root);
    }
}

/// Admitting a block keeps the tree well formed.
pub proof fn lemma_admitted_wf(m: GraphModel, hash: BlockHash, parent: BlockHash, data: DataModel)
    requires
        m.wf(),
        hash != parent,
        hash != m.anchor,
        !m.has(hash),
    ensures
        m.with_admitted(hash, parent, data).wf(),
        m.with_admitted(hash, parent, data).blocks.dom() == m.blocks.dom().insert(hash),
{
    let e = m.with_entry(hash, parent, data);
    let w = m.with_admitted(hash, parent, data);
    assert(w.blocks.dom() =~= m.blocks.dom().insert(hash));
    // Old connected blocks keep their paths.
    assert forall|h: BlockHash| m.connected(h) implies exists|n: nat|
        w.descends_in(h, n, w.anchor) by {
        let n = choose|n: nat| m.descends_in(h, n, m.anchor);
        assert forall|i: nat| i < n implies m.parent_of(#[trigger] m.ancestor(h, i)) == w.parent_of(
            m.ancestor(h, i),
        ) by {
            assert(m.connected(m.ancestor(h, i)));
        }
        lemma_ancestor_agree(m, w, h, n);
        assert forall|i: nat| i < n implies #[trigger] w.connected(w.ancestor(h, i)) by {
            assert(m.connected(m.ancestor(h, i)));
        }
        assert(w.ancestor(h, n) == m.ancestor(h, n));
        assert(w.descends_in(h, n, w.anchor));
    }
    if m.connects(parent) {
        assert(w.connected(hash));
        // The new block.
        assert(exists|n: nat| w.descends_in(hash, n, w.anchor)) by {
            if parent == m.anchor {
                reveal_with_fuel(GraphModel::ancestor, 2);
                assert(w.ancestor(hash, 1) == parent);
                assert(w.descends_in(hash, 1, w.anchor));
            } else {
                let n = choose|n: nat| w.descends_in(parent, n, w.anchor);
                lemma_descends_step(w, hash, n, w.anchor);
            }
        }
        assert forall|h: BlockHash| #[trigger] w.connected(h) implies exists|n: nat|
            w.descends_in(h, n, w.anchor) by {
            if h != hash && !m.connected(h) {
                assert(e.awaits(h, hash));
                let a = choose|a: nat| e.awaits_in(h, a, hash);
                lemma_promoted_path(e, h, a, hash);
                let b = choose|b: nat| w.descends_in(hash, b, w.anchor);
                lemma_descends_join(w, h, a, hash, b, w.anchor);
            }
        }
        assert forall|h: BlockHash| #[trigger] w.pending(h) implies w.parent_of(h) != w.anchor
            && !w.connected(w.parent_of(h)) by {
            assert(m.pending(h));
            assert(e.pending(h));
            let p = w.parent_of(h);
            if w.connected(p) && !m.connected(p) {
                lemma_awaits_step(e, h, hash);
            }
        }
    } else {
        assert forall|h: BlockHash| #[trigger] w.pending(h) implies w.parent_of(h) != w.anchor
            && !w.connected(w.parent_of(h)) by {
            if h != hash {
                assert(m.pending(h));
            }
        }
        assert forall|h: BlockHash| #[trigger] w.connected(h) implies m.connected(h) by {
        }
    }
}

/// Offering a block keeps the tree well formed.
pub proof fn lemma_offered_wf(
    m: GraphModel,
    hash: BlockHash,
    parent: BlockHash,
    data: DataModel,
    max_pending: nat,
)
    requires
        m.wf(),
    ensures
        m.with_offered(hash, parent, data, max_pending).wf(),
        m.with_offered(hash, parent, data, max_pending).anchor == m.anchor,
        m.with_offered(hash, parent, data, max_pending).head == m.head,
{
    if m.admission(hash, parent, max_pending) == Admission::Admitted {
        lemma_admitted_wf(m, hash, parent, data);
    }
}

/// Changing a block's logs keeps the tree well formed.
pub proof fn lemma_with_logs_wf(m: GraphModel, hash: BlockHash, logs: LogsModel)
    requires
        m.wf(),
        m.has(hash),
    ensures
        m.with_logs(hash, logs).wf(),
        m.with_logs(hash, logs).blocks.dom() == m.blocks.dom(),
{
    let w = m.with_logs(hash, logs);
    assert(w.blocks.dom() =~= m.blocks.dom());
    assert forall|h: BlockHash| #[trigger] w.connected(h) implies exists|n: nat|
        w.descends_in(h, n, w.anchor) by {
        assert(m.connected(h));
        let n = choose|n: nat| m.descends_in(h, n, m.anchor);
        assert forall|i: nat| i < n implies m.parent_of(#[trigger] m.ancestor(h, i)) == w.parent_of(
            m.ancestor(h, i),
        ) by {
            assert(m.connected(m.ancestor(h, i)));
        }
        lemma_ancestor_agree(m, w, h, n);
        assert forall|i: nat| i < n implies #[trigger] w.connected(w.ancestor(h, i)) by {
            assert(m.connected(m.ancestor(h, i)));
        }
        assert(w.ancestor(h, n) == m.ancestor(h, n));
        assert(w.descends_in(h, n, w.anchor));
    }
    assert forall|h: BlockHash| #[trigger] w.pending(h) implies w.parent_of(h) != w.anchor
        && !w.connected(w.parent_of(h)) by {
        assert(m.pending(h));
    }
}

/// Moving the head keeps the tree well formed.
pub proof fn lemma_with_head_wf(m: GraphModel, hash: BlockHash)
    requires
        m.wf(),
    ensures
        m.with_head(hash).wf(),
{
    let w = m.with_head(hash);
    assert forall|h: BlockHash| #[trigger] w.connected(h) implies exists|n: nat|
        w.descends_in(h, n, w.anchor) by {
        assert(m.connected(h));
        let n = choose|n: nat| m.descends_in(h, n, m.anchor);
        lemma_ancestor_agree(m, w, h, n);
        assert forall|i: nat| i < n implies #[trigger] w.connected(w.ancestor(h, i)) by {
            assert(m.connected(m.ancestor(h, i)));
        }
        assert(w.ancestor(h, n) == m.ancestor(h, n));
        assert(w.descends_in(h, n, w.anchor));
    }
    assert forall|h: BlockHash| #[trigger] w.pending(h) implies w.parent_of(h) != w.anchor
        && !w.connected(w.parent_of(h)) by {
        assert(m.pending(h));
    }
}

/// Re-rooting at a connected block keeps the tree well formed, and no block is pending afterwards.
pub proof fn lemma_reanchored_wf(m: GraphModel, root: BlockHash)
    requires
        m.wf(),
        m.connected(root),
    ensures
        m.reanchored(root).wf(),
        forall|h: BlockHash| !#[trigger] m.reanchored(root).pending(h),
{
    let w = m.reanchored(root);
    assert(root != m.anchor);
    assert(w.blocks.dom().finite()) by {
        assert(w.blocks.dom().subset_of(m.blocks.dom()));
        vstd::set_lib::lemma_set_subset_finite(m.blocks.dom(), w.blocks.dom());
    }
    assert(w.anchor == root);
    assert(!w.has(w.anchor));
    assert(w.head == w.anchor || w.has(w.head));
    assert forall|h: BlockHash| !#[trigger] w.pending(h) by {
        if w.has(h) {
            assert(m.survives(h, root));
        }
    }
    assert forall|h: BlockHash| #[trigger] w.connected(h) implies exists|n: nat|
        w.descends_in(h, n, w.anchor) by {
        assert(m.survives(h, root));
        let n = choose|n: nat| m.descends_in(h, n, root);
        lemma_survivors_below(m, h, n, root);
        assert forall|i: nat| i < n implies m.parent_of(#[trigger] m.ancestor(h, i)) == w.parent_of(
            m.ancestor(h, i),
        ) by {
            assert(m.survives(m.ancestor(h, i), root));
        }
        lemma_ancestor_agree(m, w, h, n);
        assert forall|i: nat| i < n implies #[trigger] w.connected(w.ancestor(h, i)) by {
            assert(w.ancestor(h, i) == m.ancestor(h, i));
            assert(m.survives(m.ancestor(h, i), root));
        }
        assert(w.ancestor(h, n) == m.ancestor(h, n));
        assert(w.descends_in(h, n, w.anchor));
    }
}

/// Every block strictly above `root` on a path to it survives a re-rooting there.
pub proof fn lemma_survivors_below(m: GraphModel, h: BlockHash, n: nat, root: BlockHash)
    requires
        m.wf(),
        m.connected(h),
        m.connected(root),
        m.descends_in(h, n, root),
    ensures
        forall|i: nat| i < n ==> m.survives(#[trigger] m.ancestor(h, i), root),
{
    lemma_depth(m, h);
    lemma_depth(m, root);
    let b = m.depth(root);
    lemma_descends_join(m, h, n, root, b, m.anchor);
    assert(m.depth(h) == n + b);
    assert forall|i: nat| i < n implies m.survives(#[trigger] m.ancestor(h, i), root) by {
        let x = m.ancestor(h, i);
        assert(m.connected(m.ancestor(h, i)));
        lemma_descends_suffix(m, h, n, root, i);
        if x == root {
            lemma_depth_along(m, h, i);
        }
    }
}

/// The parent of a block that survives a re-rooting is the new root or survives too, and is not the
/// old anchor.
pub proof fn lemma_survivor_parent(m: GraphModel, h: BlockHash, root: BlockHash)
    requires
        m.wf(),
        m.connected(root),
        m.survives(h, root),
    ensures
        m.parent_of(h) != m.anchor,
        m.parent_of(h) == root || m.survives(m.parent_of(h), root),
{
    let n = choose|n: nat| m.descends_in(h, n, root);
    assert(m.descends_in(h, n, root));
    assert(n > 0);
    reveal_with_fuel(GraphModel::ancestor, 2);
    assert(m.ancestor(h, 1) == m.parent_of(h));
    if n > 1 {
        lemma_survivors_below(m, h, n, root);
        assert(m.survives(m.ancestor(h, 1), root));
    }
}

/// Whether a block with authoritative logs may matter makes no difference to any question.
pub proof fn lemma_undecided(
    m: GraphModel,
    touch: Set<BlockHash>,
    exclude: Set<BlockHash>,
    numbers: Set<u64>,
)
    ensures
        m.unresolved_test(Some(m.undecided(touch)), exclude) == m.unresolved_test(
            Some(touch),
            exclude,
        ),
        m.unknown_test(m.undecided(touch), exclude) == m.unknown_test(touch, exclude),
        m.hole_test(m.undecided(touch), numbers) == m.hole_test(touch, numbers),
        forall|h: BlockHash, authority: Authority| #[trigger]
            m.blocks_fold(h, m.undecided(touch), authority) == m.blocks_fold(h, touch, authority),
{
    let rest = m.undecided(touch);
    assert(m.unresolved_test(Some(rest), exclude) =~= m.unresolved_test(Some(touch), exclude));
    assert(m.unknown_test(rest, exclude) =~= m.unknown_test(touch, exclude));
    assert(m.hole_test(rest, numbers) =~= m.hole_test(touch, numbers));
}

/// The same holds for how far a path can be folded.
pub proof fn lemma_undecided_foldable(
    m: GraphModel,
    path: Seq<BlockHash>,
    touch: Set<BlockHash>,
    authority: Authority,
)
    ensures
        m.foldable_len(path, m.undecided(touch), authority) == m.foldable_len(
            path,
            touch,
            authority,
        ),
    decreases path.len(),
{
    lemma_undecided(m, touch, Set::empty(), Set::empty());
    if path.len() > 0 {
        assert(m.blocks_fold(path[0], m.undecided(touch), authority) == m.blocks_fold(
            path[0],
            touch,
            authority,
        ));
        lemma_undecided_foldable(m, path.drop_first(), touch, authority);
    }
}

} // verus!
