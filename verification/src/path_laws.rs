//! The chains of the block tree told block by block: which blocks a walk visits, how far a fold goes
//! along a path, what it leaves, and what re-rooting keeps.
use vstd::prelude::*;

use crate::folds::lemma_foldable_len;
use crate::graph_lemmas::{
    lemma_chain, lemma_depth, lemma_distance, lemma_present_chain, lemma_present_chain_present,
};
use crate::graph_model::{may_touch, state_in, watched_by, Authority, DataModel, GraphModel};
use crate::pool_state::{derived, PoolRef, PoolState, ProtocolPoolKey};
use crate::primitives::{bloom_contains_address, Address, BlockHash};
use crate::request_laws::lemma_filter_facts;

verus! {

// ---- walks ----

/// The blocks of a downward path are the ancestors of its first one.
proof fn lemma_down(m: GraphModel, path: Seq<BlockHash>, i: nat)
    requires
        i < path.len(),
        forall|j: int|
            0 <= j < path.len() - 1 ==> m.blocks[#[trigger] path[j]].parent == path[j + 1],
    ensures
        m.ancestor(path[0], i) == path[i as int],
    decreases i,
{
    if i > 0 {
        lemma_down(m, path, (i - 1) as nat);
        assert(m.blocks[path[i - 1]].parent == path[i - 1 + 1]);
    }
}

/// A path of present blocks from the head, each followed by its parent, down to a block whose parent
/// is the anchor or absent, is the present chain: connected or pending, every one of them.
pub proof fn law_present_chain_is_the_walk(m: GraphModel, path: Seq<BlockHash>)
    requires
        m.wf(),
        path.len() > 0,
        path[0] == m.head,
        forall|i: int| 0 <= i < path.len() ==> m.blocks.contains_key(#[trigger] path[i]),
        forall|i: int|
            0 <= i < path.len() - 1 ==> m.blocks[#[trigger] path[i]].parent == path[i + 1],
        m.blocks[path.last()].parent == m.anchor || !m.blocks.contains_key(
            m.blocks[path.last()].parent,
        ),
    ensures
        m.present_chain() == path,
        path.no_duplicates(),
{
    let n = path.len();
    assert forall|i: nat| i < n implies !#[trigger] m.stops_at(m.ancestor(m.head, i)) by {
        lemma_down(m, path, i);
        assert(m.blocks.contains_key(path[i as int]));
    }
    lemma_down(m, path, (n - 1) as nat);
    assert(m.ancestor(m.head, n) == m.parent_of(m.ancestor(m.head, (n - 1) as nat)));
    assert(m.walks(m.head, n));
    lemma_present_chain(m, n);
    assert forall|i: int| 0 <= i < n implies m.present_chain()[i] == path[i] by {
        lemma_down(m, path, i as nat);
    }
    assert(m.present_chain() =~= path);
    assert forall|i: int, j: int| 0 <= i < n && 0 <= j < n && i != j implies path[i]
        != path[j] by {
        if path[i] == path[j] {
            let (a, b) = if i < j {
                (i, j)
            } else {
                (j, i)
            };
            lemma_down(m, path, a as nat);
            lemma_down(m, path, b as nat);
            crate::graph_lemmas::lemma_circle_walks_forever(m, m.head, a as nat, b as nat);
        }
    }
}

/// The present chain begins at the head, names present blocks only, each followed by its parent, and
/// ends where the parent is the anchor or absent. It is empty when the head is no block.
pub proof fn law_present_chain_walks_down(m: GraphModel)
    requires
        m.wf(),
    ensures
        m.present_chain().len() > 0 ==> m.present_chain()[0] == m.head,
        forall|i: int|
            0 <= i < m.present_chain().len() ==> m.blocks.contains_key(
                #[trigger] m.present_chain()[i],
            ),
        forall|i: int|
            0 <= i < m.present_chain().len() - 1 ==> m.blocks[#[trigger] m.present_chain()[i]].parent
                == m.present_chain()[i + 1],
        m.present_chain().len() > 0 ==> {
            let end = m.blocks[m.present_chain().last()].parent;
            end == m.anchor || !m.blocks.contains_key(end)
        },
        m.head == m.anchor ==> m.present_chain().len() == 0,
        m.present_chain().no_duplicates(),
{
    let chain = m.present_chain();
    lemma_present_chain_present(m);
    if exists|n: nat| m.walks(m.head, n) {
        let n = choose|n: nat| m.walks(m.head, n);
        lemma_present_chain(m, n);
        assert(m.ancestor(m.head, 0) == m.head);
        assert forall|i: int| 0 <= i < chain.len() - 1 implies m.blocks[#[trigger] chain[i]].parent
            == chain[i + 1] by {
            assert(m.ancestor(m.head, (i + 1) as nat) == m.parent_of(m.ancestor(m.head, i as nat)));
        }
        if n > 0 {
            assert(m.ancestor(m.head, n) == m.parent_of(m.ancestor(m.head, (n - 1) as nat)));
            assert(m.stops_at(m.ancestor(m.head, n)));
            law_present_chain_is_the_walk(m, chain);
        }
        if m.head == m.anchor && n > 0 {
            assert(!m.stops_at(m.ancestor(m.head, 0)));
        }
    }
}

/// A block is as many steps below the head as the path of present blocks down to it has: the head
/// itself none, its parent one.
pub proof fn law_distance_counts_steps(m: GraphModel, path: Seq<BlockHash>)
    requires
        path.len() > 0,
        path[0] == m.head,
        forall|i: int|
            0 <= i < path.len() - 1 ==> m.blocks.contains_key(#[trigger] path[i]) && path[i]
                != path.last() && m.blocks[path[i]].parent == path[i + 1],
    ensures
        m.distance(path.last()) == Some((path.len() - 1) as nat),
{
    let n = (path.len() - 1) as nat;
    assert forall|j: int| 0 <= j < path.len() - 1 implies m.blocks[#[trigger] path[j]].parent
        == path[j + 1] by {}
    lemma_down(m, path, n);
    assert forall|i: nat| i < n implies #[trigger] m.has(m.ancestor(m.head, i)) && m.ancestor(
        m.head,
        i,
    ) != path.last() by {
        lemma_down(m, path, i);
        assert(m.blocks.contains_key(path[i as int]));
    }
    assert(m.at_distance(path.last(), n));
    lemma_distance(m, path.last(), n);
}

/// A block that has a distance from the head is on the walk down from it.
pub proof fn law_distance_has_a_path(m: GraphModel, reference: BlockHash) -> (path: Seq<BlockHash>)
    requires
        m.distance(reference) is Some,
    ensures
        path.len() == m.distance(reference)->0 + 1,
        path[0] == m.head,
        path.last() == reference,
        forall|i: int|
            0 <= i < path.len() - 1 ==> m.blocks.contains_key(#[trigger] path[i])
                && m.blocks[path[i]].parent == path[i + 1],
{
    let n = choose|n: nat| m.at_distance(reference, n);
    lemma_distance(m, reference, n);
    let path = Seq::new((n + 1) as nat, |i: int| m.ancestor(m.head, i as nat));
    assert forall|i: int| 0 <= i < path.len() - 1 implies m.blocks.contains_key(
        #[trigger] path[i],
    ) && m.blocks[path[i]].parent == path[i + 1] by {
        assert(m.has(m.ancestor(m.head, i as nat)));
        assert(m.ancestor(m.head, (i + 1) as nat) == m.parent_of(m.ancestor(m.head, i as nat)));
    }
    path
}

// ---- complete paths ----

/// A path of present blocks that begins at a child of the anchor, each block the parent of the next,
/// consists of connected blocks, and it is the chain to its last block.
pub proof fn law_chain_is_the_path(m: GraphModel, path: Seq<BlockHash>)
    requires
        m.wf(),
        path.len() > 0,
        m.blocks[path[0]].parent == m.anchor,
        forall|i: int| 0 <= i < path.len() ==> m.blocks.contains_key(#[trigger] path[i]),
        forall|i: int|
            1 <= i < path.len() ==> m.blocks[#[trigger] path[i]].parent == path[i - 1],
    ensures
        forall|i: int| 0 <= i < path.len() ==> m.blocks[#[trigger] path[i]].connected,
        m.chain_to(path.last()) == path,
    decreases path.len(),
{
    let h = path.last();
    if path.len() == 1 {
        assert(!m.pending(h));
    } else {
        let shorter = path.drop_last();
        assert forall|i: int| 0 <= i < shorter.len() implies m.blocks.contains_key(
            #[trigger] shorter[i],
        ) by {
            assert(m.blocks.contains_key(path[i]));
        }
        assert forall|i: int| 1 <= i < shorter.len() implies m.blocks[#[trigger] shorter[i]].parent
            == shorter[i - 1] by {
            assert(m.blocks[path[i]].parent == path[i - 1]);
        }
        law_chain_is_the_path(m, shorter);
        assert(m.blocks[shorter[shorter.len() - 1]].connected);
        assert(m.blocks[path[path.len() - 1]].parent == path[path.len() - 2]);
        assert(m.blocks.contains_key(path[path.len() - 2]));
        assert(m.connected(shorter.last()));
        assert(!m.pending(h)) by {
            assert(m.parent_of(h) == shorter.last());
        }
    }
    assert(m.blocks.contains_key(path[path.len() - 1]));
    assert(m.connected(h));
    assert forall|i: int| 0 <= i < path.len() implies m.blocks[#[trigger] path[i]].connected by {
        if i < path.len() - 1 {
            assert(path.drop_last()[i] == path[i]);
        }
    }
    let n = path.len();
    let down = path.reverse();
    assert forall|j: int| 0 <= j < down.len() - 1 implies m.blocks[#[trigger] down[j]].parent
        == down[j + 1] by {
        assert(m.blocks[path[n - 1 - j]].parent == path[n - 2 - j]);
    }
    assert forall|i: nat| i < n implies #[trigger] m.connected(m.ancestor(h, i)) by {
        lemma_down(m, down, i);
        assert(m.blocks.contains_key(path[n - 1 - i]));
        assert(m.blocks[path[n - 1 - i]].connected);
    }
    lemma_down(m, down, (n - 1) as nat);
    assert(m.ancestor(h, n) == m.parent_of(m.ancestor(h, (n - 1) as nat)));
    assert(m.descends_in(h, n, m.anchor));
    lemma_depth(m, h);
    assert(m.depth(h) == n);
    assert forall|i: int| 0 <= i < n implies m.chain_to(h)[i] == path[i] by {
        lemma_down(m, down, (n - 1 - i) as nat);
    }
    assert(m.chain_to(h) =~= path);
}

/// The chain to a block is such a path when the block is connected, and empty otherwise. Every block
/// whose parent is the anchor or connected is connected.
pub proof fn law_chains_are_paths(m: GraphModel, h: BlockHash)
    requires
        m.wf(),
    ensures
        m.chain_to(h).len() > 0 <==> m.blocks.contains_key(h) && m.blocks[h].connected,
        m.chain_to(h).len() > 0 ==> m.chain_to(h).last() == h && m.blocks[m.chain_to(h)[0]].parent
            == m.anchor,
        forall|i: int|
            0 <= i < m.chain_to(h).len() ==> m.blocks.contains_key(#[trigger] m.chain_to(h)[i])
                && m.blocks[m.chain_to(h)[i]].connected,
        forall|i: int|
            1 <= i < m.chain_to(h).len() ==> m.blocks[#[trigger] m.chain_to(h)[i]].parent
                == m.chain_to(h)[i - 1],
        m.blocks.contains_key(h) && (m.blocks[h].parent == m.anchor || (m.blocks.contains_key(
            m.blocks[h].parent,
        ) && m.blocks[m.blocks[h].parent].connected)) ==> m.blocks[h].connected,
{
    lemma_chain(m, h);
    assert forall|i: int| 0 <= i < m.chain_to(h).len() implies m.blocks.contains_key(
        #[trigger] m.chain_to(h)[i],
    ) && m.blocks[m.chain_to(h)[i]].connected by {
        assert(m.connected(m.chain_to(h)[i]));
    }
    assert forall|i: int| 1 <= i < m.chain_to(h).len() implies m.blocks[
        #[trigger] m.chain_to(h)[i]].parent == m.chain_to(h)[i - 1] by {
        assert(m.parent_of(m.chain_to(h)[i]) == m.chain_to(h)[i - 1]);
    }
    if m.blocks.contains_key(h) && !m.blocks[h].connected {
        assert(m.pending(h));
    }
}

// ---- admission ----

/// A block enters exactly when it does not name itself as its parent, is not the anchor, is not
/// there yet, and either connects or finds room among the pending blocks. It enters with the parent
/// and the payload it came with, connected exactly when its parent is the anchor or connected; the
/// blocks that were there keep theirs, the anchor and the head stay, and no other block enters.
pub proof fn law_admission_enters_the_block(
    m: GraphModel,
    hash: BlockHash,
    parent: BlockHash,
    data: DataModel,
    max_pending: nat,
    h: BlockHash,
)
    ensures
        ({
            let w = m.with_offered(hash, parent, data, max_pending);
            let connects = parent == m.anchor || (m.blocks.contains_key(parent)
                && m.blocks[parent].connected);
            let enters = hash != parent && hash != m.anchor && !m.blocks.contains_key(hash) && (
            connects || Set::new(
                |x: BlockHash| m.blocks.contains_key(x) && !m.blocks[x].connected,
            ).len() < max_pending);
            &&& !enters ==> w == m
            &&& enters ==> w.blocks.contains_key(hash) && w.blocks[hash].parent == parent
                && w.blocks[hash].data == data && (w.blocks[hash].connected <==> connects)
            &&& w.anchor == m.anchor
            &&& w.head == m.head
            &&& w.blocks.contains_key(h) <==> m.blocks.contains_key(h) || (enters && h == hash)
            &&& m.blocks.contains_key(h) ==> w.blocks[h].parent == m.blocks[h].parent
                && w.blocks[h].data == m.blocks[h].data && (m.blocks[h].connected
                ==> w.blocks[h].connected)
            &&& !connects && m.blocks.contains_key(h) ==> w.blocks[h] == m.blocks[h]
        }),
{
    let w = m.with_offered(hash, parent, data, max_pending);
    assert(Set::new(|x: BlockHash| m.blocks.contains_key(x) && !m.blocks[x].connected)
        =~= m.pending_blocks());
    if w != m && !m.connects(parent) {
        let e = m.with_entry(hash, parent, data);
        assert(w == e);
    }
}

/// Each refusal names its reason.
pub proof fn law_refusals_name_their_reason(
    m: GraphModel,
    hash: BlockHash,
    parent: BlockHash,
    max_pending: nat,
)
    ensures
        ({
            let r = m.admission(hash, parent, max_pending);
            let there = m.blocks.contains_key(hash);
            &&& r is SelfParent <==> hash == parent
            &&& r is AnchorReadmit <==> hash == m.anchor && hash != parent
            &&& r is DuplicateBlock <==> hash != parent && hash != m.anchor && there
                && m.blocks[hash].parent == parent
            &&& r is ConflictingParent <==> hash != parent && hash != m.anchor && there
                && m.blocks[hash].parent != parent
            &&& r is PendingBufferFull ==> !there && parent != m.anchor && !(m.blocks.contains_key(
                parent,
            ) && m.blocks[parent].connected)
        }),
{
}

/// The missing parents are exactly the parents of pending blocks that are neither the anchor nor in
/// the graph.
pub proof fn law_missing_parents_are_the_gaps(m: GraphModel, p: BlockHash)
    ensures
        m.absent_parents().contains(p) <==> p != m.anchor && !m.blocks.contains_key(p) && exists|
            h: BlockHash,
        |
            m.blocks.contains_key(h) && !m.blocks[h].connected && (#[trigger] m.blocks[h]).parent
                == p,
{
    if m.absent_parents().contains(p) {
        let h = choose|h: BlockHash| #[trigger] m.pending(h) && m.parent_of(h) == p;
        assert(m.blocks.contains_key(h) && !m.blocks[h].connected && m.blocks[h].parent == p);
    }
    if exists|h: BlockHash|
        m.blocks.contains_key(h) && !m.blocks[h].connected && (#[trigger] m.blocks[h]).parent
            == p {
        let h = choose|h: BlockHash|
            m.blocks.contains_key(h) && !m.blocks[h].connected && (#[trigger] m.blocks[h]).parent
                == p;
        assert(m.pending(h) && m.parent_of(h) == p);
    }
}

// ---- which blocks matter ----

/// A block may matter for tracked pools exactly when some pool is watched and its bloom is missing
/// or may contain the contract of a tracked v3 pool or, with a v4 pool tracked, the v4 manager.
pub proof fn law_blocks_that_matter(
    m: GraphModel,
    verified: Set<PoolRef>,
    v4_manager: Option<Address>,
    h: BlockHash,
)
    requires
        m.blocks.contains_key(h),
    ensures
        ({
            let touching = m.touching(watched_by(verified, v4_manager)).contains(h);
            let bloom = m.blocks[h].data.bloom;
            &&& bloom is None ==> (touching <==> exists|p: PoolRef| #[trigger]
                verified.contains(p) && (p.key is UniswapV3 || v4_manager is Some))
            &&& bloom is Some ==> (touching <==> exists|p: PoolRef| #[trigger]
                verified.contains(p) && match p.key {
                    ProtocolPoolKey::UniswapV3(a) => bloom_contains_address(bloom->0, a.hi, a.lo),
                    ProtocolPoolKey::UniswapV4(_) => v4_manager is Some && bloom_contains_address(
                        bloom->0,
                        v4_manager->0.hi,
                        v4_manager->0.lo,
                    ),
                })
        }),
{
    let watched = watched_by(verified, v4_manager);
    let bloom = m.blocks[h].data.bloom;
    if exists|p: PoolRef| #[trigger]
        verified.contains(p) && (p.key is UniswapV3 || v4_manager is Some) {
        let p = choose|p: PoolRef| #[trigger]
            verified.contains(p) && (p.key is UniswapV3 || v4_manager is Some);
        match p.key {
            ProtocolPoolKey::UniswapV3(a) => {
                assert(verified.contains(p));
                assert(watched.contains(a));
            },
            ProtocolPoolKey::UniswapV4(_) => {
                assert(verified.contains(p));
                assert(watched.contains(v4_manager->0));
            },
        }
    }
    if may_touch(bloom, watched) {
        let a = if bloom is Some {
            choose|a: Address| #[trigger]
                watched.contains(a) && bloom_contains_address(bloom->0, a.hi, a.lo)
        } else {
            choose|a: Address| watched.contains(a)
        };
        if forall|x: Address| !watched.contains(x) {
            assert(watched =~= Set::empty());
        }
        assert(watched.contains(a));
        if exists|p: PoolRef| #[trigger]
            verified.contains(p) && p.key == ProtocolPoolKey::UniswapV3(a) {
            let p = choose|p: PoolRef| #[trigger]
                verified.contains(p) && p.key == ProtocolPoolKey::UniswapV3(a);
            assert(verified.contains(p));
        } else {
            let p = choose|p: PoolRef| #[trigger] verified.contains(p) && p.key is UniswapV4;
            assert(verified.contains(p));
        }
    }
    if bloom is Some && exists|p: PoolRef| #[trigger]
        verified.contains(p) && match p.key {
            ProtocolPoolKey::UniswapV3(a) => bloom_contains_address(bloom->0, a.hi, a.lo),
            ProtocolPoolKey::UniswapV4(_) => v4_manager is Some && bloom_contains_address(
                bloom->0,
                v4_manager->0.hi,
                v4_manager->0.lo,
            ),
        } {
        let p = choose|p: PoolRef| #[trigger]
            verified.contains(p) && match p.key {
                ProtocolPoolKey::UniswapV3(a) => bloom_contains_address(bloom->0, a.hi, a.lo),
                ProtocolPoolKey::UniswapV4(_) => v4_manager is Some && bloom_contains_address(
                    bloom->0,
                    v4_manager->0.hi,
                    v4_manager->0.lo,
                ),
            };
        let a = match p.key {
            ProtocolPoolKey::UniswapV3(a) => a,
            ProtocolPoolKey::UniswapV4(_) => v4_manager->0,
        };
        assert(verified.contains(p));
        assert(watched.contains(a));
        assert(watched.contains(a) && bloom_contains_address(bloom->0, a.hi, a.lo));
    }
}

/// Watched are the contracts of the tracked v3 pools and, when a v4 pool is tracked, the manager.
pub proof fn law_watched_addresses(verified: Set<PoolRef>, v4_manager: Option<Address>, p: PoolRef)
    requires
        verified.contains(p),
    ensures
        p.key matches ProtocolPoolKey::UniswapV3(a) ==> watched_by(verified, v4_manager).contains(a),
        p.key is UniswapV4 && v4_manager is Some ==> watched_by(verified, v4_manager).contains(
            v4_manager->0,
        ),
        forall|a: Address| #[trigger]
            watched_by(verified, v4_manager).contains(a) ==> exists|q: PoolRef| #[trigger]
                verified.contains(q) && (q.key == ProtocolPoolKey::UniswapV3(a) || (
                q.key is UniswapV4 && v4_manager == Some(a))),
{
    let watched = watched_by(verified, v4_manager);
    assert forall|a: Address| #[trigger] watched.contains(a) implies exists|q: PoolRef| #[trigger]
        verified.contains(q) && (q.key == ProtocolPoolKey::UniswapV3(a) || (q.key is UniswapV4
            && v4_manager == Some(a))) by {
        if exists|q: PoolRef| #[trigger]
            verified.contains(q) && q.key == ProtocolPoolKey::UniswapV3(a) {
            let q = choose|q: PoolRef| #[trigger]
                verified.contains(q) && q.key == ProtocolPoolKey::UniswapV3(a);
            assert(verified.contains(q));
        } else {
            let q = choose|q: PoolRef| #[trigger] verified.contains(q) && q.key is UniswapV4;
            assert(verified.contains(q));
        }
    }
}

/// A bloom rules a block out exactly when it contains none of the watched addresses; a missing bloom
/// rules nothing out, and with nothing watched no block matters.
pub proof fn law_blooms_rule_blocks_out(bloom: Option<Seq<u8>>, watched: Set<Address>, a: Address)
    ensures
        watched.contains(a) && bloom is None ==> may_touch(bloom, watched),
        watched.contains(a) && bloom is Some && bloom_contains_address(bloom->0, a.hi, a.lo)
            ==> may_touch(bloom, watched),
        may_touch(bloom, watched) ==> exists|x: Address| #[trigger]
            watched.contains(x) && (bloom is None || bloom_contains_address(
                bloom->0,
                x.hi,
                x.lo,
            )),
{
    if may_touch(bloom, watched) {
        if forall|x: Address| !watched.contains(x) {
            assert(watched =~= Set::empty());
        }
        let some = choose|x: Address| watched.contains(x);
        assert(watched.contains(some));
    }
}

// ---- folds ----

/// A fold goes along the path to the block right before the first one that may matter and whose logs
/// it may not read: unknown ones, and streamed ones unless they are allowed.
pub proof fn law_fold_stops_before_first_gap(
    m: GraphModel,
    path: Seq<BlockHash>,
    touch: Set<BlockHash>,
    authority: Authority,
    n: nat,
)
    requires
        m.wf(),
        path.len() > 0,
        m.blocks[path[0]].parent == m.anchor,
        forall|i: int| 0 <= i < path.len() ==> m.blocks.contains_key(#[trigger] path[i]),
        forall|i: int|
            1 <= i < path.len() ==> m.blocks[#[trigger] path[i]].parent == path[i - 1],
        n <= path.len(),
        forall|i: int|
            0 <= i < n ==> !touch.contains(#[trigger] path[i])
                || m.blocks[path[i]].data.logs is Complete || (
            m.blocks[path[i]].data.logs is Streamed && authority
                == Authority::AllowStreamed),
        n < path.len() ==> touch.contains(path[n as int]) && (
        m.blocks[path[n as int]].data.logs is Unknown || (m.blocks[path[n as int]].data.logs is Streamed && authority
            == Authority::RequireComplete)),
    ensures
        m.frontier(path.last(), touch, authority) == (if n == 0 {
            m.anchor
        } else {
            path[n - 1]
        }),
{
    law_chain_is_the_path(m, path);
    lemma_foldable_len(m, path, touch, authority);
    let k = m.foldable_len(path, touch, authority);
    if k < n {
        assert(m.blocks_fold(path[k as int], touch, authority));
        assert(!touch.contains(path[k as int]) || m.blocks[path[k as int]].data.logs is Complete
            || m.blocks[path[k as int]].data.logs is Streamed);
    }
    if n < k {
        assert(!m.blocks_fold(path[n as int], touch, authority));
    }
    assert(k == n);
}

/// A fold over a path leaves each pool with what its events along the path derive from its base
/// state, and with its base state when they derive nothing; a verified pool without a base state
/// enters exactly when its events derive one from nothing, and no other pool enters. The overlay is
/// what differs from the base.
pub proof fn law_fold_outcome(
    m: GraphModel,
    path: Seq<BlockHash>,
    base: Map<PoolRef, PoolState>,
    verified: Set<PoolRef>,
    authority: Authority,
    pool: PoolRef,
)
    requires
        m.wf(),
        path.len() > 0,
        m.blocks[path[0]].parent == m.anchor,
        forall|i: int| 0 <= i < path.len() ==> m.blocks.contains_key(#[trigger] path[i]),
        forall|i: int|
            1 <= i < path.len() ==> m.blocks[#[trigger] path[i]].parent == path[i - 1],
    ensures
        ({
            let run = m.run_of(path, authority, pool.key);
            let folded = m.folded(base, verified, path.last(), authority);
            let overlay = m.overlay(base, verified, path.last(), authority);
            &&& folded.contains_key(pool) <==> base.contains_key(pool) || (verified.contains(pool)
                && derived(None, run) is Some)
            &&& base.contains_key(pool) && derived(Some(base[pool]), run) is Some ==> folded[pool]
                == derived(Some(base[pool]), run)->0
            &&& base.contains_key(pool) && derived(Some(base[pool]), run) is None ==> folded[pool]
                == base[pool]
            &&& !base.contains_key(pool) && folded.contains_key(pool) ==> folded[pool] == derived(
                None,
                run,
            )->0
            &&& overlay.contains_key(pool) <==> folded.contains_key(pool) && !(base.contains_key(
                pool,
            ) && folded[pool] == base[pool])
            &&& overlay.contains_key(pool) ==> overlay[pool] == folded[pool]
        }),
{
    law_chain_is_the_path(m, path);
    let run = m.run_of(path, authority, pool.key);
    if run.len() == 0 {
        assert(derived(state_in(base, pool), run) == state_in(base, pool));
    }
}

// ---- what is left to fetch ----

/// The holes below a block are those of its path, in order, that may matter, lack authoritative
/// logs and are not excluded by their number.
pub proof fn law_holes_lack_authoritative_logs(
    m: GraphModel,
    path: Seq<BlockHash>,
    touch: Set<BlockHash>,
    exclude: Set<u64>,
    h: BlockHash,
)
    requires
        m.wf(),
        path.len() > 0,
        m.blocks[path[0]].parent == m.anchor,
        forall|i: int| 0 <= i < path.len() ==> m.blocks.contains_key(#[trigger] path[i]),
        forall|i: int|
            1 <= i < path.len() ==> m.blocks[#[trigger] path[i]].parent == path[i - 1],
    ensures
        m.holes(path.last(), touch, exclude).contains(h) <==> path.contains(h) && touch.contains(h)
            && !(m.blocks[h].data.logs is Complete) && !exclude.contains(m.blocks[h].data.number),
        exists|at: Seq<int>| in_path_order(m.holes(path.last(), touch, exclude), path, at),
{
    law_chain_is_the_path(m, path);
    lemma_filter_facts(path, m.hole_test(touch, exclude));
    let at = lemma_filter_in_order(path, m.hole_test(touch, exclude));
    assert(in_path_order(m.holes(path.last(), touch, exclude), path, at));
}

/// `part` names blocks of `whole` in its order, the `i`-th at the place `at[i]`.
pub open spec fn in_path_order(part: Seq<BlockHash>, whole: Seq<BlockHash>, at: Seq<int>) -> bool {
    &&& at.len() == part.len()
    &&& forall|i: int|
        0 <= i < part.len() ==> 0 <= #[trigger] at[i] < whole.len() && whole[at[i]] == part[i]
    &&& forall|i: int, j: int| 0 <= i < j < part.len() ==> #[trigger] at[i] < #[trigger] at[j]
}

pub proof fn lemma_filter_in_order(
    s: Seq<BlockHash>,
    test: spec_fn(BlockHash) -> bool,
) -> (at: Seq<int>)
    ensures
        in_path_order(s.filter(test), s, at),
    decreases s.len(),
{
    reveal(Seq::filter);
    if s.len() == 0 {
        Seq::empty()
    } else {
        let before = lemma_filter_in_order(s.drop_last(), test);
        if test(s.last()) {
            before.push(s.len() - 1)
        } else {
            before
        }
    }
}

/// The blocks whose logs are to be fetched are those of the present chain, newest first, that lack
/// authoritative logs, are not excluded and, where only some may matter, are among those.
pub proof fn law_unresolved_blocks(
    m: GraphModel,
    touch: Option<Set<BlockHash>>,
    exclude: Set<BlockHash>,
    h: BlockHash,
)
    ensures
        m.unresolved(touch, exclude).contains(h) <==> m.present_chain().contains(h) && !(
        m.blocks[h].data.logs is Complete) && !exclude.contains(h) && (touch is None
            || touch->0.contains(h)),
        exists|at: Seq<int>| in_path_order(m.unresolved(touch, exclude), m.present_chain(), at),
{
    let test = m.unresolved_test(touch, exclude);
    lemma_filter_facts(m.present_chain(), test);
    let at = lemma_filter_in_order(m.present_chain(), test);
    assert(in_path_order(m.unresolved(touch, exclude), m.present_chain(), at));
}

/// The unknown holes are the blocks of the present chain, at least so many steps below the head, of
/// which nothing was delivered, that may matter and are not excluded.
pub proof fn law_unknown_holes(
    m: GraphModel,
    touch: Set<BlockHash>,
    exclude: Set<BlockHash>,
    min_depth: nat,
    h: BlockHash,
)
    ensures
        m.unknown_holes(touch, exclude, min_depth).contains(h) <==> m.blocks[h].data.logs is Unknown
            && touch.contains(h) && !exclude.contains(h) && exists|i: int|
            min_depth <= i < m.present_chain().len() && #[trigger] m.present_chain()[i] == h,
{
    let chain = m.present_chain();
    let test = m.unknown_test(touch, exclude);
    if min_depth <= chain.len() {
        let rest = chain.skip(min_depth as int);
        lemma_filter_facts(rest, test);
        if rest.contains(h) {
            let i = choose|i: int| 0 <= i < rest.len() && rest[i] == h;
            assert(chain[i + min_depth] == h);
        }
        if exists|i: int| min_depth <= i < chain.len() && #[trigger] chain[i] == h {
            let i = choose|i: int| min_depth <= i < chain.len() && #[trigger] chain[i] == h;
            assert(rest[i - min_depth] == h);
        }
    }
}

// ---- re-rooting ----

/// A connected block above the new anchor stays: one from which connected blocks, each followed by
/// its parent, lead down to a child of the new anchor.
pub proof fn law_reanchor_keeps_paths(m: GraphModel, root: BlockHash, down: Seq<BlockHash>)
    requires
        m.wf(),
        m.blocks.contains_key(root),
        m.blocks[root].connected,
        down.len() > 0,
        forall|i: int|
            0 <= i < down.len() ==> m.blocks.contains_key(#[trigger] down[i])
                && m.blocks[down[i]].connected,
        forall|i: int|
            0 <= i < down.len() - 1 ==> m.blocks[#[trigger] down[i]].parent == down[i + 1],
        m.blocks[down.last()].parent == root,
    ensures
        m.reanchored(root).blocks.contains_key(down[0]),
        m.reanchored(root).blocks[down[0]] == m.blocks[down[0]],
{
    let h = down[0];
    let n = down.len();
    assert(m.blocks.contains_key(down[0]));
    assert forall|i: nat| i < n implies #[trigger] m.connected(m.ancestor(h, i)) by {
        lemma_down(m, down, i);
        assert(m.blocks.contains_key(down[i as int]));
    }
    lemma_down(m, down, (n - 1) as nat);
    assert(m.ancestor(h, n) == m.parent_of(m.ancestor(h, (n - 1) as nat)));
    assert(m.descends_in(h, n, root));
    if h == root {
        lemma_depth(m, root);
        crate::graph_lemmas::lemma_descends_join(m, h, n, root, m.depth(root), m.anchor);
        assert(n + m.depth(root) == m.depth(root));
    }
    assert(m.survives(h, root));
    assert(root != m.anchor);
}

/// What stays when the anchor moves was connected, is as it was, and hangs on the new anchor or on a
/// block that stays; the head stays with its block and falls back to the new anchor otherwise.
pub proof fn law_reanchor_keeps_nothing_else(m: GraphModel, root: BlockHash, h: BlockHash)
    requires
        m.wf(),
        m.blocks.contains_key(root),
        m.blocks[root].connected,
    ensures
        ({
            let w = m.reanchored(root);
            &&& w.anchor == root
            &&& w.blocks.contains_key(h) ==> m.blocks.contains_key(h) && m.blocks[h].connected
                && w.blocks[h] == m.blocks[h] && h != root && (m.blocks[h].parent == root
                || w.blocks.contains_key(m.blocks[h].parent))
            &&& w.head == (if w.blocks.contains_key(m.head) {
                m.head
            } else {
                root
            })
        }),
{
    let w = m.reanchored(root);
    assert(root != m.anchor);
    if w.blocks.contains_key(h) {
        assert(m.connected(root));
        crate::graph_lemmas::lemma_survivor_parent(m, h, root);
    }
}

/// A reported block moves the anchor only when it is on the path from the anchor to the head; the
/// anchor then moves as far as authoritative logs allow, and the states at the new anchor are those
/// of the fold to it. Otherwise nothing moves.
pub proof fn law_final_root(
    m: GraphModel,
    target: BlockHash,
    touch: Set<BlockHash>,
    base: Map<PoolRef, PoolState>,
    verified: Set<PoolRef>,
)
    requires
        m.wf(),
    ensures
        ({
            let on_path = m.chain_to(m.head).contains(target);
            let root = m.final_root(target, touch);
            &&& m.finalizable(target) <==> on_path
            &&& on_path ==> root == m.frontier(target, touch, Authority::RequireComplete)
            &&& !on_path ==> root == m.anchor
            &&& root == m.anchor ==> m.final_snapshot(target, touch, base, verified) == base
                && m.reanchored(root) == m
            &&& root != m.anchor ==> m.final_snapshot(target, touch, base, verified) == m.folded(
                base,
                verified,
                root,
                Authority::RequireComplete,
            )
        }),
{
    lemma_chain(m, m.head);
    if m.chain_to(m.head).contains(target) {
        let i = choose|i: int| 0 <= i < m.chain_to(m.head).len() && m.chain_to(m.head)[i] == target;
        assert(m.connected(m.chain_to(m.head)[i]));
    }
}

} // verus!
