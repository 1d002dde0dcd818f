use std::collections::{BTreeSet, HashSet};

use alloy::primitives::{Address as AlloyAddress, Bloom as AlloyBloom, BloomInput};
use evm_kernel::blocks_graph::{
    connected_parent_hash, watched_addresses, AnchoredRef, BlockData, BlockLogs, BlocksGraph,
    ConnectedHash, ConnectedNode, MissingRange, Node, PendingNode,
};
use evm_kernel::graph_model::{Admission, Authority};
use evm_kernel::ord_map::{OrdMap, OrdSet};
use evm_kernel::pool_state::{PoolLog, PoolLogEvent, PoolRef, PoolState};
use evm_kernel::primitives::{Address, BlockHash, Bloom, ChainKey, U160};

fn graph_hash(index: usize) -> BlockHash {
    BlockHash::with_last_byte(index as u8)
}

fn u160(value: u128) -> U160 {
    U160 { hi: 0, lo: value }
}

/// The connected node of a hash.
fn connected(graph: &BlocksGraph, hash: BlockHash) -> Option<&ConnectedNode> {
    match graph.node(hash) {
        Some(Node::Connected(node)) => Some(node),
        _ => None,
    }
}

/// Admits a block with a given payload.
fn with_data(graph: BlocksGraph, hash: BlockHash, parent: BlockHash, data: BlockData) -> BlocksGraph {
    graph.with_data_capped(hash, parent, data, 1024).0
}

/// Admits a complete-logs block with a clear bloom.
fn with_clear_complete(
    graph: BlocksGraph,
    hash: BlockHash,
    parent: BlockHash,
    number: u64,
) -> BlocksGraph {
    with_data(
        graph,
        hash,
        parent,
        BlockData {
            number,
            logs_bloom: Some(clear_bloom()),
            logs: BlockLogs::Complete(OrdMap::new()),
        },
    )
}

// --- invariant helper ---------------------------------------------------------------------------

/// Asserts the structural invariants of the graph.
fn assert_graph_invariants(graph: &BlocksGraph) {
    assert!(!graph.contains(graph.anchor_hash()), "anchor must not be present in nodes");
    for hash in graph.node_hashes().items() {
        match graph.node(hash).unwrap() {
            Node::Connected(connected) => assert_resolves_to_anchor(graph, connected),
            Node::Pending(pending) => assert!(
                !pending_reaches_anchor(graph, pending.parent),
                "pending node must not be reachable to the anchor"
            ),
        }
    }
    assert!(
        graph.observed_head_hash() == graph.anchor_hash()
            || graph.contains(graph.observed_head_hash()),
        "observed head must be the anchor or a present node"
    );
}

fn assert_resolves_to_anchor(graph: &BlocksGraph, start: &ConnectedNode) {
    let mut visited = HashSet::new();
    let mut current = start.parent;
    while let AnchoredRef::Block(ConnectedHash(hash)) = current {
        assert!(visited.insert(hash), "connected parent walk must not cycle");
        match graph.node(hash) {
            Some(Node::Connected(parent)) => current = parent.parent,
            Some(Node::Pending(_)) => {
                panic!("connected node parent must be connected, not pending")
            }
            None => panic!("connected node parent must resolve to a present node"),
        }
    }
}

/// Walks a raw parent chain. A pending node is reachable iff this walk reaches the anchor or a
/// connected node; it must instead dead-end at an absent hash.
fn pending_reaches_anchor(graph: &BlocksGraph, start_parent: BlockHash) -> bool {
    let mut visited = HashSet::new();
    let mut current = start_parent;
    loop {
        if current == graph.anchor_hash() {
            return true;
        }
        if !visited.insert(current) {
            return false;
        }
        match graph.node(current) {
            Some(Node::Connected(_)) => return true,
            Some(Node::Pending(pending)) => current = pending.parent,
            None => return false,
        }
    }
}

// --- fixtures -----------------------------------------------------------------------------------

fn watched() -> OrdSet<Address> {
    OrdSet::from_items(vec![watched_addr()])
}

fn no_excludes() -> OrdSet<u64> {
    OrdSet::new()
}

/// A bloom that hits the watched address (so a non-`Complete` block carrying it is a hole).
fn hit_bloom() -> Bloom {
    let mut bloom = AlloyBloom::default();
    bloom.accrue(BloomInput::Raw(AlloyAddress::with_last_byte(0xAA).as_slice()));
    Bloom { bytes: bloom.data().to_owned() }
}

/// An all-zero bloom: hits no address.
fn clear_bloom() -> Bloom {
    Bloom { bytes: AlloyBloom::default().data().to_owned() }
}

/// A connected linear chain rooted at `graph_hash(1)`: block `i` has hash `graph_hash(i + 2)`. The
/// head is the last block.
fn chain_of(blocks: Vec<BlockData>) -> (BlocksGraph, ConnectedHash) {
    let mut last = graph_hash(1);
    let mut graph = BlocksGraph::new(last);
    for (index, data) in blocks.into_iter().enumerate() {
        let hash = graph_hash(index + 2);
        graph = with_data(graph, hash, last, data);
        last = hash;
    }
    (graph.with_observed_head(last), ConnectedHash(last))
}

fn gate_chain(specs: &[(u64, Option<Bloom>, bool)]) -> (BlocksGraph, ConnectedHash) {
    chain_of(
        specs
            .iter()
            .map(|(number, bloom, complete)| BlockData {
                number: *number,
                logs_bloom: *bloom,
                logs: if *complete {
                    BlockLogs::Complete(OrdMap::new())
                } else {
                    BlockLogs::Unknown
                },
            })
            .collect(),
    )
}

/// Bloom always a hit, so it never affects the fold.
fn fold_chain(blocks: Vec<(u64, BlockLogs)>) -> (BlocksGraph, ConnectedHash) {
    chain_of(
        blocks
            .into_iter()
            .map(|(number, logs)| BlockData { number, logs_bloom: Some(hit_bloom()), logs })
            .collect(),
    )
}

/// Explicit per-block `(logs_bloom, logs)`.
fn opt_chain(blocks: Vec<(Option<Bloom>, BlockLogs)>) -> BlocksGraph {
    chain_of(
        blocks
            .into_iter()
            .enumerate()
            .map(|(index, (logs_bloom, logs))| BlockData {
                number: (index as u64) + 1,
                logs_bloom,
                logs,
            })
            .collect(),
    )
    .0
}

fn keyed(logs: Vec<PoolLog>) -> OrdMap<u64, PoolLog> {
    OrdMap::from_entries(
        logs.into_iter().enumerate().map(|(index, log)| (index as u64, log)).collect(),
    )
}

/// The followed set of a fold test: exactly the `base` pools.
fn verified_of(base: &OrdMap<PoolRef, PoolState>) -> OrdSet<PoolRef> {
    OrdSet::from_items(base.keys())
}

/// A distinct swap keyed off `n`, so different `log_index`es carry visibly different logs.
fn sw(n: u64) -> PoolLogEvent {
    PoolLogEvent::Swap {
        sqrt_price_x96: u160(u128::from(n) + 1),
        tick: 0,
        liquidity: u128::from(n) + 1,
    }
}

/// `(is_complete, sorted keys)` for a block's logs, or `None` when still `Unknown`.
fn log_keys(logs: &BlockLogs) -> Option<(bool, Vec<u64>)> {
    match logs {
        BlockLogs::Unknown => None,
        BlockLogs::Streamed(map) => Some((false, map.keys())),
        BlockLogs::Complete(map) => Some((true, map.keys())),
    }
}

#[test]
fn parent_anchor_admits_connected() {
    // A child of the anchor connects directly: parent ref is `Anchor`, and the header's bloom
    // and an empty (Unknown) log set are stored as the block's payload.
    let anchor = graph_hash(1);
    let block = graph_hash(2);
    let bloom = Bloom::repeat_byte(0x11);
    let graph = BlocksGraph::new(anchor)
        .with_block(block, anchor, 0, bloom).0;
    assert!(matches!(
        graph.node(block),
        Some(Node::Connected(ConnectedNode {
            parent: AnchoredRef::Anchor,
            ..
        }))
    ));
    let data = graph.get(block).expect("admitted block must carry payload");
    assert_eq!(data.logs_bloom, Some(bloom));
    assert!(matches!(data.logs, BlockLogs::Unknown));
    assert_graph_invariants(&graph);
}

#[test]
fn parent_connected_admits_connected() {
    // A child of an existing connected node connects: parent ref names that node.
    let anchor = graph_hash(1);
    let parent = graph_hash(2);
    let child = graph_hash(3);
    let graph = BlocksGraph::new(anchor)
        .with_block(parent, anchor, 0, Bloom::repeat_byte(0)).0
        .with_block(child, parent, 0, Bloom::repeat_byte(0)).0;
    assert!(matches!(
        graph.node(child),
        Some(Node::Connected(ConnectedNode {
            parent: AnchoredRef::Block(ConnectedHash(hash)),
            ..
        })) if *hash == parent
    ));
    assert_graph_invariants(&graph);
}

#[test]
fn parent_absent_admits_pending() {
    // An unknown parent leaves the block pending, holding the raw parent hash.
    let anchor = graph_hash(1);
    let absent_parent = graph_hash(2);
    let block = graph_hash(3);
    let graph = BlocksGraph::new(anchor)
        .with_block(block, absent_parent, 0, Bloom::repeat_byte(0)).0;
    assert!(matches!(
        graph.node(block),
        Some(Node::Pending(PendingNode { parent, .. })) if *parent == absent_parent
    ));
    assert_graph_invariants(&graph);
}

#[test]
fn parent_pending_admits_pending() {
    // A child of a pending node is itself pending (its ancestry still does not reach the anchor).
    let anchor = graph_hash(1);
    let absent = graph_hash(2);
    let pending = graph_hash(3);
    let child = graph_hash(4);
    let graph = BlocksGraph::new(anchor)
        .with_block(pending, absent, 0, Bloom::repeat_byte(0)).0
        .with_block(child, pending, 0, Bloom::repeat_byte(0)).0;
    assert!(matches!(
        graph.node(child),
        Some(Node::Pending(PendingNode { parent, .. })) if *parent == pending
    ));
    assert_graph_invariants(&graph);
}

// --- promotion ------------------------------------------------------------------------------

#[test]
fn connecting_block_promotes_pending_child() {
    let anchor = graph_hash(1);
    let parent = graph_hash(2);
    let child = graph_hash(3);
    let graph = BlocksGraph::new(anchor)
        .with_block(child, parent, 0, Bloom::repeat_byte(0)).0
        .with_block(parent, anchor, 0, Bloom::repeat_byte(0)).0;
    assert!(matches!(
        graph.node(child),
        Some(Node::Connected(ConnectedNode {
            parent: AnchoredRef::Block(ConnectedHash(hash)),
            ..
        })) if *hash == parent
    ));
    assert_graph_invariants(&graph);
}

#[test]
fn connecting_block_promotes_pending_subtree() {
    let anchor = graph_hash(1);
    let b2 = graph_hash(2);
    let b3 = graph_hash(3);
    let b4 = graph_hash(4);
    let graph = BlocksGraph::new(anchor)
        .with_block(b4, b3, 0, Bloom::repeat_byte(0)).0
        .with_block(b3, b2, 0, Bloom::repeat_byte(0)).0
        .with_block(b2, anchor, 0, Bloom::repeat_byte(0)).0;
    assert!(connected(&graph, b2).is_some());
    assert!(connected(&graph, b3).is_some());
    assert!(connected(&graph, b4).is_some());
    assert_graph_invariants(&graph);
}

#[test]
fn pending_admission_promotes_nothing() {
    // Admitting a still-disconnected block connects neither it nor its pending children.
    let anchor = graph_hash(1);
    let b2 = graph_hash(2);
    let b3 = graph_hash(3);
    let b4 = graph_hash(4);
    let graph = BlocksGraph::new(anchor)
        .with_block(b4, b3, 0, Bloom::repeat_byte(0)).0
        .with_block(b3, b2, 0, Bloom::repeat_byte(0)).0;
    assert!(matches!(graph.node(b3), Some(Node::Pending(_))));
    assert!(matches!(graph.node(b4), Some(Node::Pending(_))));
    assert_graph_invariants(&graph);
}

// --- errors ---------------------------------------------------------------------------------

#[test]
fn self_parent_is_rejected() {
    let anchor = graph_hash(1);
    let block = graph_hash(2);
    let (_, admission) = BlocksGraph::new(anchor).with_block(block, block, 0, Bloom::repeat_byte(0));
    assert_eq!(admission, Admission::SelfParent);
}

#[test]
fn anchor_readmit_is_rejected() {
    let anchor = graph_hash(1);
    let (_, admission) =
        BlocksGraph::new(anchor).with_block(anchor, graph_hash(2), 0, Bloom::repeat_byte(0));
    assert_eq!(admission, Admission::AnchorReadmit);
}

#[test]
fn exact_duplicate_is_noop() {
    let anchor = graph_hash(1);
    let block = graph_hash(2);
    let (_, admission) = BlocksGraph::new(anchor)
        .with_block(block, anchor, 0, Bloom::repeat_byte(0)).0
        .with_block(block, anchor, 0, Bloom::repeat_byte(0));
    assert_eq!(admission, Admission::DuplicateBlock);
}

#[test]
fn conflicting_parent_is_rejected() {
    let anchor = graph_hash(1);
    let block = graph_hash(3);
    let (_, admission) = BlocksGraph::new(anchor)
        .with_block(block, anchor, 0, Bloom::repeat_byte(0)).0
        .with_block(block, graph_hash(2), 0, Bloom::repeat_byte(0));
    assert_eq!(admission, Admission::ConflictingParent);
}

/// Admits `max` disconnected blocks (distinct absent parents) so the staging area is exactly
/// full, then a further disconnected block. The last one is refused and the graph handed back
/// unchanged.
fn graph_with_full_pending(anchor: BlockHash, max: usize) -> BlocksGraph {
    let mut graph = BlocksGraph::new(anchor);
    for index in 0..max {
        // parents are absent (and distinct from any block hash) so every block lands pending.
        let block = graph_hash(10 + index);
        let absent_parent = graph_hash(100 + index);
        graph = graph
            .with_block_capped(block, absent_parent, 0, Bloom::repeat_byte(0), max).0;
    }
    graph
}

#[test]
fn pending_bound_refuses_new_when_full() {
    // At the cap, a further pending block is refused with PendingBufferFull and the graph is
    // returned unchanged (same pending count, the refused hash absent).
    let anchor = graph_hash(1);
    let max = 3;
    let graph = graph_with_full_pending(anchor, max);
    assert_eq!(graph.pending_count(), max);

    let refused = graph_hash(50);
    let (graph, admission) =
        graph.with_block_capped(refused, graph_hash(200), 0, Bloom::repeat_byte(0), max);
    assert_eq!(admission, Admission::PendingBufferFull);
    assert_eq!(graph.pending_count(), max);
    assert!(graph.get(refused).is_none());
    assert_graph_invariants(&graph);
}

#[test]
fn connected_admission_succeeds_at_pending_cap() {
    // The cap gates only the pending branch: a child of the anchor connects even when the
    // pending staging area is full.
    let anchor = graph_hash(1);
    let max = 3;
    let graph = graph_with_full_pending(anchor, max);
    assert_eq!(graph.pending_count(), max);

    let child = graph_hash(2);
    let graph = graph
        .with_block_capped(child, anchor, 0, Bloom::repeat_byte(0), max).0;
    assert!(connected(&graph, child).is_some());
    assert_eq!(graph.pending_count(), max);
    assert_graph_invariants(&graph);
}

#[test]
fn promotion_not_blocked_at_pending_cap() {
    // A pending child counts toward a full buffer; admitting its awaited (anchor-rooted) parent
    // connects and promotes the child — never refused, and the pending count drops.
    let anchor = graph_hash(1);
    let max = 3;
    let parent = graph_hash(2);
    let child = graph_hash(3);
    // Fill to the cap with the child plus (max - 1) unrelated disconnected blocks.
    let mut graph = BlocksGraph::new(anchor)
        .with_block_capped(child, parent, 0, Bloom::repeat_byte(0), max).0;
    for index in 0..(max - 1) {
        graph = graph
            .with_block_capped(graph_hash(10 + index), graph_hash(100 + index), 0, Bloom::repeat_byte(0), max).0;
    }
    assert_eq!(graph.pending_count(), max);

    let graph = graph
        .with_block_capped(parent, anchor, 0, Bloom::repeat_byte(0), max).0;
    assert!(connected(&graph, parent).is_some());
    assert!(connected(&graph, child).is_some());
    assert_eq!(graph.pending_count(), max - 1);
    assert_graph_invariants(&graph);
}

// --- canonical chain (observed head) --------------------------------------------------------

#[test]
fn canonical_chain_empty_when_head_is_anchor() {
    // A fresh graph's head is the anchor: no non-anchor blocks, so the chain is empty.
    let graph = BlocksGraph::new(graph_hash(1));
    assert!(graph.canonical_hashes().is_empty());
    assert_graph_invariants(&graph);
}

#[test]
fn canonical_chain_single_connected_head() {
    // A child of the anchor, observed as head, is the whole canonical chain.
    let anchor = graph_hash(1);
    let child = graph_hash(2);
    let graph = BlocksGraph::new(anchor)
        .with_block(child, anchor, 0, Bloom::repeat_byte(0)).0
        .with_observed_head(child);
    assert_eq!(graph.canonical_hashes(), vec![child]);
    assert_graph_invariants(&graph);
}

#[test]
fn canonical_chain_full_path() {
    // The chain runs oldest (child of the anchor) to newest (the head).
    let anchor = graph_hash(1);
    let b2 = graph_hash(2);
    let b3 = graph_hash(3);
    let graph = BlocksGraph::new(anchor)
        .with_block(b2, anchor, 0, Bloom::repeat_byte(0)).0
        .with_block(b3, b2, 0, Bloom::repeat_byte(0)).0
        .with_observed_head(b3);
    assert_eq!(graph.canonical_hashes(), vec![b2, b3]);
    assert_graph_invariants(&graph);
}

#[test]
fn canonical_chain_empty_when_head_pending() {
    // A head observed before its parent lands pending; no connected suffix exists yet.
    let anchor = graph_hash(1);
    let absent_parent = graph_hash(2);
    let head = graph_hash(3);
    let graph = BlocksGraph::new(anchor)
        .with_block(head, absent_parent, 0, Bloom::repeat_byte(0)).0
        .with_observed_head(head);
    assert!(matches!(graph.node(head), Some(Node::Pending(_))));
    assert!(graph.canonical_hashes().is_empty());
    assert_graph_invariants(&graph);
}

#[test]
fn canonical_chain_autocompletes_after_backfill() {
    // The defining property: the head is observed while pending (chain empty); when its missing
    // parent is later backfilled and promotion connects the head, the chain auto-completes with
    // NO further with_observed_head call.
    let anchor = graph_hash(1);
    let parent = graph_hash(2);
    let head = graph_hash(3);
    let graph = BlocksGraph::new(anchor)
        .with_block(head, parent, 0, Bloom::repeat_byte(0)).0
        .with_observed_head(head);
    assert!(graph.canonical_hashes().is_empty());

    let graph = graph.with_block(parent, anchor, 0, Bloom::repeat_byte(0)).0;
    assert_eq!(graph.canonical_hashes(), vec![parent, head]);
    assert_graph_invariants(&graph);
}

#[test]
fn canonical_chain_follows_reorg() {
    // Repointing the head to a sibling connected fork is a pure, non-destructive pointer move:
    // the chain follows the head, both forks stay in the graph.
    let anchor = graph_hash(1);
    let fork_a = graph_hash(2);
    let fork_b = graph_hash(3);
    let graph = BlocksGraph::new(anchor)
        .with_block(fork_a, anchor, 0, Bloom::repeat_byte(0)).0
        .with_block(fork_b, anchor, 0, Bloom::repeat_byte(0)).0
        .with_observed_head(fork_a);
    assert_eq!(graph.canonical_hashes(), vec![fork_a]);

    let graph = graph.with_observed_head(fork_b);
    assert_eq!(graph.canonical_hashes(), vec![fork_b]);
    assert_graph_invariants(&graph);
}

#[test]
fn with_observed_head_ignores_absent_block() {
    // Setting the head to a hash that is neither the anchor nor present is a no-op (keeps the
    // "observed head is the anchor or present" invariant un-violable at the setter).
    let anchor = graph_hash(1);
    let absent = graph_hash(2);
    let graph = BlocksGraph::new(anchor).with_observed_head(absent);
    assert_eq!(graph.observed_head_hash(), anchor);
    assert_graph_invariants(&graph);
}

// --- missing parents (backfill view) --------------------------------------------------------

#[test]
fn missing_parents_empty_graph() {
    let graph = BlocksGraph::new(graph_hash(1));
    assert!(graph.missing_parents().is_empty());
    assert_graph_invariants(&graph);
}

#[test]
fn missing_parents_all_connected() {
    // An anchor-rooted chain has no gaps: every parent is present.
    let anchor = graph_hash(1);
    let b2 = graph_hash(2);
    let b3 = graph_hash(3);
    let graph = BlocksGraph::new(anchor)
        .with_block(b2, anchor, 0, Bloom::repeat_byte(0)).0
        .with_block(b3, b2, 0, Bloom::repeat_byte(0)).0;
    assert!(graph.missing_parents().is_empty());
    assert_graph_invariants(&graph);
}

#[test]
fn missing_parents_single_dangling() {
    // A pending block's absent parent is the one ancestor to backfill.
    let anchor = graph_hash(1);
    let absent_parent = graph_hash(2);
    let block = graph_hash(3);
    let graph = BlocksGraph::new(anchor)
        .with_block(block, absent_parent, 0, Bloom::repeat_byte(0)).0;
    assert_eq!(graph.missing_parents(), vec![absent_parent]);
    assert_graph_invariants(&graph);
}

#[test]
fn missing_parents_dedups_shared_absent_parent() {
    let anchor = graph_hash(1);
    let shared_absent = graph_hash(2);
    let b3 = graph_hash(3);
    let b4 = graph_hash(4);
    let graph = BlocksGraph::new(anchor)
        .with_block(b3, shared_absent, 0, Bloom::repeat_byte(0)).0
        .with_block(b4, shared_absent, 0, Bloom::repeat_byte(0)).0;
    assert_eq!(graph.missing_parents(), vec![shared_absent]);
    assert_graph_invariants(&graph);
}

#[test]
fn missing_parents_excludes_present_pending_parent() {
    let anchor = graph_hash(1);
    let absent_root = graph_hash(2);
    let b3 = graph_hash(3);
    let b4 = graph_hash(4);
    let graph = BlocksGraph::new(anchor)
        .with_block(b4, b3, 0, Bloom::repeat_byte(0)).0
        .with_block(b3, absent_root, 0, Bloom::repeat_byte(0)).0;
    assert!(matches!(graph.node(b3), Some(Node::Pending(_))));
    assert!(matches!(graph.node(b4), Some(Node::Pending(_))));
    assert_eq!(graph.missing_parents(), vec![absent_root]);
    assert_graph_invariants(&graph);
}

#[test]
fn missing_parents_sorted() {
    // Absent parents admitted out of order are returned strictly ascending.
    let anchor = graph_hash(1);
    let graph = BlocksGraph::new(anchor)
        .with_block(graph_hash(10), graph_hash(30), 0, Bloom::repeat_byte(0)).0
        .with_block(graph_hash(11), graph_hash(20), 0, Bloom::repeat_byte(0)).0
        .with_block(graph_hash(12), graph_hash(25), 0, Bloom::repeat_byte(0)).0;
    assert_eq!(
        graph.missing_parents(),
        vec![graph_hash(20), graph_hash(25), graph_hash(30)]
    );
    assert_graph_invariants(&graph);
}

#[test]
fn missing_parents_empty_after_promotion() {
    // Once the awaited parent arrives and connects, the gap closes and nothing remains to fetch.
    let anchor = graph_hash(1);
    let parent = graph_hash(2);
    let child = graph_hash(3);
    let graph = BlocksGraph::new(anchor)
        .with_block(child, parent, 0, Bloom::repeat_byte(0)).0;
    assert_eq!(graph.missing_parents(), vec![parent]);

    let graph = graph.with_block(parent, anchor, 0, Bloom::repeat_byte(0)).0;
    assert!(graph.missing_parents().is_empty());
    assert_graph_invariants(&graph);
}

// --- scheduling queries (present-chain walk from the head) ---------------------------------

#[test]
fn log_holes_walk_present_chain_newest_first() {
    let anchor = graph_hash(1);
    let graph = BlocksGraph::new(anchor)
        .with_block(graph_hash(2), anchor, 2, hit_bloom()).0
        .with_block(graph_hash(3), graph_hash(2), 3, hit_bloom()).0
        .with_block(graph_hash(4), graph_hash(3), 4, hit_bloom()).0
        .with_observed_head(graph_hash(4));
    assert_eq!(
        graph.unknown_log_hole_hashes(&watched(), &OrdSet::new(), 0),
        vec![graph_hash(4), graph_hash(3), graph_hash(2)]
    );
    assert_graph_invariants(&graph);
}

#[test]
fn log_holes_reach_pending_suffix_and_stop_at_gap() {
    let anchor = graph_hash(1);
    let graph = BlocksGraph::new(anchor)
        .with_block(graph_hash(2), anchor, 2, hit_bloom()).0
        .with_block(graph_hash(4), graph_hash(3), 4, hit_bloom()).0
        .with_block(graph_hash(5), graph_hash(4), 5, hit_bloom()).0
        .with_observed_head(graph_hash(5));
    assert_eq!(
        graph.unknown_log_hole_hashes(&watched(), &OrdSet::new(), 0),
        vec![graph_hash(5), graph_hash(4)]
    );
    assert_graph_invariants(&graph);
}

#[test]
fn log_holes_skip_complete_streamed_and_in_flight() {
    let anchor = graph_hash(1);
    let graph = BlocksGraph::new(anchor)
        .with_block(graph_hash(2), anchor, 2, hit_bloom()).0
        .with_block(graph_hash(3), graph_hash(2), 3, hit_bloom()).0
        .with_block(graph_hash(4), graph_hash(3), 4, hit_bloom()).0
        .with_complete_logs(graph_hash(2), Vec::new())
        .with_streamed_logs(graph_hash(3), Vec::new())
        .with_observed_head(graph_hash(4));
    assert_eq!(
        graph.unknown_log_hole_hashes(&watched(), &OrdSet::new(), 0),
        vec![graph_hash(4)]
    );
    let exclude = OrdSet::from_items(vec![graph_hash(4)]);
    assert!(
        graph
            .unknown_log_hole_hashes(&watched(), &exclude, 0)
            .is_empty()
    );
    assert_graph_invariants(&graph);
}

#[test]
fn log_holes_respect_the_depth_gate() {
    // min_depth leaves the newest blocks to the WS stream: depth counts down from the head
    // (head = 0), so with min_depth 2 only b2 (depth 2) qualifies.
    let anchor = graph_hash(1);
    let graph = BlocksGraph::new(anchor)
        .with_block(graph_hash(2), anchor, 2, hit_bloom()).0
        .with_block(graph_hash(3), graph_hash(2), 3, hit_bloom()).0
        .with_block(graph_hash(4), graph_hash(3), 4, hit_bloom()).0
        .with_observed_head(graph_hash(4));
    assert_eq!(
        graph.unknown_log_hole_hashes(&watched(), &OrdSet::new(), 2),
        vec![graph_hash(2)]
    );
    assert_graph_invariants(&graph);
}

#[test]
fn log_holes_bloom_clear_and_empty_trusted_yield_nothing() {
    let anchor = graph_hash(1);
    let graph = BlocksGraph::new(anchor)
        .with_block(graph_hash(2), anchor, 2, clear_bloom()).0
        .with_block(graph_hash(3), graph_hash(2), 3, hit_bloom()).0
        .with_observed_head(graph_hash(3));
    assert_eq!(
        graph.unknown_log_hole_hashes(&watched(), &OrdSet::new(), 0),
        vec![graph_hash(3)]
    );
    assert!(
        graph
            .unknown_log_hole_hashes(&OrdSet::new(), &OrdSet::new(), 0)
            .is_empty()
    );
    assert_graph_invariants(&graph);
}

#[test]
fn candidates_come_from_streamed_and_complete_logs_newest_first() {
    let pool_a = v3_pool(0xA1);
    let pool_b = v3_pool(0xB2);
    let anchor = graph_hash(1);
    let graph = BlocksGraph::new(anchor)
        .with_block(graph_hash(2), anchor, 2, hit_bloom()).0
        .with_block(graph_hash(3), graph_hash(2), 3, hit_bloom()).0
        .with_block(graph_hash(4), graph_hash(3), 4, hit_bloom()).0
        .with_complete_logs(graph_hash(2), vec![pool_log(pool_a, sw(0))])
        .with_streamed_logs(graph_hash(3), vec![pool_log(pool_b, sw(1))])
        .with_observed_head(graph_hash(4));
    // b4 is Unknown (no logs yet), so it contributes no candidate entry.
    assert_eq!(
        graph.pool_log_candidates_from_head(),
        vec![
            (graph_hash(3), OrdSet::from_items(vec![pool_b.key])),
            (graph_hash(2), OrdSet::from_items(vec![pool_a.key])),
        ]
    );
    assert_graph_invariants(&graph);
}

#[test]
fn candidates_skip_empty_complete_block() {
    // A Complete block with no pool logs names no candidates — no empty entries downstream.
    let anchor = graph_hash(1);
    let graph = BlocksGraph::new(anchor)
        .with_block(graph_hash(2), anchor, 2, hit_bloom()).0
        .with_complete_logs(graph_hash(2), Vec::new())
        .with_observed_head(graph_hash(2));
    assert!(graph.pool_log_candidates_from_head().is_empty());
    assert_graph_invariants(&graph);
}

#[test]
fn distance_from_head_counts_blocks_above_reference() {
    let anchor = graph_hash(1);
    let graph = BlocksGraph::new(anchor)
        .with_block(graph_hash(2), anchor, 2, clear_bloom()).0
        .with_block(graph_hash(3), graph_hash(2), 3, clear_bloom()).0
        .with_block(graph_hash(4), graph_hash(3), 4, clear_bloom()).0
        .with_observed_head(graph_hash(4));
    assert_eq!(graph.distance_from_head(graph_hash(4)), Some(0));
    assert_eq!(graph.distance_from_head(graph_hash(2)), Some(2));
    assert_eq!(graph.distance_from_head(anchor), Some(3));
    assert_graph_invariants(&graph);
}

#[test]
fn distance_from_head_is_none_off_the_present_chain() {
    // A fork sibling is not on the head's parent chain.
    let anchor = graph_hash(1);
    let graph = BlocksGraph::new(anchor)
        .with_block(graph_hash(2), anchor, 2, clear_bloom()).0
        .with_block(graph_hash(3), anchor, 2, clear_bloom()).0
        .with_observed_head(graph_hash(2));
    assert_eq!(graph.distance_from_head(graph_hash(3)), None);

    let gapped = BlocksGraph::new(anchor)
        .with_block(graph_hash(5), graph_hash(4), 5, clear_bloom()).0
        .with_observed_head(graph_hash(5));
    assert_eq!(gapped.distance_from_head(anchor), None);
    assert_eq!(gapped.distance_from_head(graph_hash(5)), Some(0));
    assert_eq!(gapped.distance_from_head(graph_hash(4)), Some(1));
}

fn watched_addr() -> Address {
    Address::with_last_byte(0xAA)
}

/// Shorthand for the expected [`MissingRange`] of a contiguous hole run: `gate_chain` gives
/// block number `n` the hash `graph_hash(n)`, so the covered hashes follow from the bounds.
fn missing_range(from: u64, to: u64) -> MissingRange {
    MissingRange {
        from,
        to,
        hashes: (from..=to).map(|number| graph_hash(number as usize)).collect(),
    }
}

#[test]
fn gate_all_complete_yields_no_ranges() {
    let (graph, target) = gate_chain(&[(2, Some(hit_bloom()), true), (3, Some(hit_bloom()), true)]);
    assert!(
        graph
            .missing_complete_ranges(target, &watched(), &no_excludes())
            .is_empty()
    );
    assert_graph_invariants(&graph);
}

#[test]
fn gate_single_non_complete_bloom_hit_is_a_range() {
    let (graph, target) = gate_chain(&[
        (2, Some(hit_bloom()), true),
        (3, Some(hit_bloom()), false),
        (4, Some(hit_bloom()), true),
    ]);
    assert_eq!(
        graph.missing_complete_ranges(target, &watched(), &no_excludes()),
        vec![missing_range(3, 3)]
    );
    assert_graph_invariants(&graph);
}

#[test]
fn gate_bloom_clear_non_complete_is_not_a_hole() {
    // A bloom-clear block provably touches no followed pool, so it never needs fetching even
    // though its logs are not Complete.
    let (graph, target) =
        gate_chain(&[(2, Some(clear_bloom()), false), (3, Some(clear_bloom()), false)]);
    assert!(
        graph
            .missing_complete_ranges(target, &watched(), &no_excludes())
            .is_empty()
    );
    assert_graph_invariants(&graph);
}

#[test]
fn gate_coalesces_consecutive_holes() {
    let (graph, target) = gate_chain(&[
        (2, Some(hit_bloom()), false),
        (3, Some(hit_bloom()), false),
        (4, Some(hit_bloom()), true),
    ]);
    assert_eq!(
        graph.missing_complete_ranges(target, &watched(), &no_excludes()),
        vec![missing_range(2, 3)]
    );
    assert_graph_invariants(&graph);
}

#[test]
fn gate_separates_non_adjacent_holes() {
    let (graph, target) = gate_chain(&[
        (2, Some(hit_bloom()), false),
        (3, Some(hit_bloom()), true),
        (4, Some(hit_bloom()), false),
    ]);
    assert_eq!(
        graph.missing_complete_ranges(target, &watched(), &no_excludes()),
        vec![missing_range(2, 2), missing_range(4, 4)]
    );
    assert_graph_invariants(&graph);
}

#[test]
fn gate_excluded_number_splits_a_range() {
    // A number already covered by an in-flight ranged request is not re-requested, and it
    // splits the coalesced run around it exactly like a non-hole.
    let (graph, target) = gate_chain(&[
        (2, Some(hit_bloom()), false),
        (3, Some(hit_bloom()), false),
        (4, Some(hit_bloom()), false),
    ]);
    assert_eq!(
        graph.missing_complete_ranges(target, &watched(), &OrdSet::from_items(vec![3])),
        vec![missing_range(2, 2), missing_range(4, 4)]
    );
    assert_graph_invariants(&graph);
}

#[test]
fn gate_headerless_non_complete_is_a_hole() {
    // No bloom ⇒ we cannot prove the block is clear, so (with pools watched) it must be fetched.
    let (graph, target) = gate_chain(&[(2, None, false)]);
    assert_eq!(
        graph.missing_complete_ranges(target, &watched(), &no_excludes()),
        vec![missing_range(2, 2)]
    );
    assert_graph_invariants(&graph);
}

#[test]
fn gate_wrapper_guards_mirror_finalization() {
    let verified = OrdSet::from_items(vec![watched_pool()]);
    let anchor = graph_hash(1);
    let graph = BlocksGraph::new(anchor)
        .with_block(graph_hash(2), anchor, 2, hit_bloom()).0
        .with_block(graph_hash(3), graph_hash(2), 3, hit_bloom()).0
        // Side fork off b2, connected but not canonical once the head sits on b3.
        .with_block(graph_hash(9), graph_hash(2), 3, hit_bloom()).0
        .with_observed_head(graph_hash(3));
    assert!(
        graph
            .missing_complete_ranges_to(graph_hash(7), &verified, None, &no_excludes())
            .is_empty()
    );
    assert!(
        graph
            .missing_complete_ranges_to(graph_hash(9), &verified, None, &no_excludes())
            .is_empty()
    );
    assert_eq!(
        graph.missing_complete_ranges_to(graph_hash(2), &verified, None, &no_excludes()),
        vec![missing_range(2, 2)]
    );
    assert_graph_invariants(&graph);
}

#[test]
fn gate_streamed_is_a_hole() {
    let anchor = graph_hash(1);
    let block = graph_hash(2);
    let graph = with_data(
        BlocksGraph::new(anchor),
        block,
        anchor,
        BlockData {
            number: 2,
            logs_bloom: Some(hit_bloom()),
            logs: BlockLogs::Streamed(OrdMap::new()),
        },
    )
    .with_observed_head(block);
    assert_eq!(
        graph.missing_complete_ranges(ConnectedHash(block), &watched(), &no_excludes()),
        vec![MissingRange {
            from: 2,
            to: 2,
            hashes: vec![block]
        }]
    );
    assert_graph_invariants(&graph);
}

#[test]
fn gate_empty_watched_yields_no_ranges() {
    // With no followed pools, no block's logs are ever needed — not even a headerless one.
    let (graph, target) = gate_chain(&[(2, Some(hit_bloom()), false), (3, None, false)]);
    assert!(
        graph
            .missing_complete_ranges(target, &OrdSet::new(), &no_excludes())
            .is_empty()
    );
    assert_graph_invariants(&graph);
}

// --- finalization fold (folded_pool_states) ------------------------------------------------

fn ps(sqrt: u128, tick: i32, liquidity: u128) -> PoolState {
    PoolState {
        sqrt_price_x96: u160(sqrt),
        tick: tick,
        liquidity,
    }
}

fn v3_pool(byte: u8) -> PoolRef {
    PoolRef::uniswap_v3(Address::with_last_byte(byte), ChainKey::Ethereum)
}

fn pool_log(pool: PoolRef, event: PoolLogEvent) -> PoolLog {
    PoolLog {
        pool: pool.key,
        log_index: 0,
        event,
    }
}

fn complete(logs: Vec<PoolLog>) -> BlockLogs {
    BlockLogs::Complete(keyed(logs))
}

fn streamed(logs: Vec<PoolLog>) -> BlockLogs {
    BlockLogs::Streamed(keyed(logs))
}

/// A pool log carrying an explicit intra-block `log_index` — the key the merge transition uses.
fn log_at(log_index: u64) -> PoolLog {
    PoolLog {
        pool: v3_pool(0xA1).key,
        log_index,
        event: sw(log_index),
    }
}

fn logs_at(indices: &[u64]) -> Vec<PoolLog> {
    indices.iter().map(|&index| log_at(index)).collect()
}

fn block_logs(graph: &BlocksGraph, hash: BlockHash) -> Option<(bool, Vec<u64>)> {
    log_keys(&graph.get(hash).expect("block present").logs)
}

/// A graph with a single connected block (`graph_hash(1)`) off the anchor, logs `Unknown`.
fn one_block_graph() -> BlocksGraph {
    BlocksGraph::new(graph_hash(0))
        .with_block(graph_hash(1), graph_hash(0), 1, hit_bloom()).0
}

#[test]
fn streamed_logs_promote_unknown_to_streamed() {
    let graph = one_block_graph().with_streamed_logs(graph_hash(1), logs_at(&[2, 5]));
    assert_eq!(block_logs(&graph, graph_hash(1)), Some((false, vec![2, 5])));
    assert_graph_invariants(&graph);
}

#[test]
fn streamed_logs_grow_by_union_on_log_index() {
    let graph = one_block_graph()
        .with_streamed_logs(graph_hash(1), logs_at(&[2, 5]))
        .with_streamed_logs(graph_hash(1), logs_at(&[3]));
    // Union on the true index — not positional, which would collide fragments at key 0.
    assert_eq!(block_logs(&graph, graph_hash(1)), Some((false, vec![2, 3, 5])));
}

#[test]
fn complete_logs_replace_prior_streamed() {
    // Replace semantics (chosen over union): `Complete` is authoritative and self-sufficient.
    let graph = one_block_graph()
        .with_streamed_logs(graph_hash(1), logs_at(&[2, 5]))
        .with_complete_logs(graph_hash(1), logs_at(&[7]));
    assert_eq!(block_logs(&graph, graph_hash(1)), Some((true, vec![7])));
}

#[test]
fn streamed_after_complete_is_a_noop() {
    let graph = one_block_graph()
        .with_complete_logs(graph_hash(1), logs_at(&[7]))
        .with_streamed_logs(graph_hash(1), logs_at(&[2]));
    assert_eq!(block_logs(&graph, graph_hash(1)), Some((true, vec![7])));
}

#[test]
fn complete_logs_are_idempotent() {
    let graph = one_block_graph()
        .with_complete_logs(graph_hash(1), logs_at(&[7, 9]))
        .with_complete_logs(graph_hash(1), logs_at(&[7, 9]));
    assert_eq!(block_logs(&graph, graph_hash(1)), Some((true, vec![7, 9])));
}

#[test]
fn logs_on_an_absent_block_are_a_noop() {
    let graph = one_block_graph()
        .with_streamed_logs(graph_hash(9), logs_at(&[1]))
        .with_complete_logs(graph_hash(9), logs_at(&[1]));
    assert_eq!(block_logs(&graph, graph_hash(1)), None); // admitted block untouched
    assert!(graph.get(graph_hash(9)).is_none()); // absent hash never materialized
    assert_graph_invariants(&graph);
}

#[test]
fn logs_apply_to_a_pending_block() {
    // Parent `graph_hash(1)` is absent, so `graph_hash(2)` lands pending; logs still attach
    // (`BlockData` is shared across the connectivity split).
    let graph = BlocksGraph::new(graph_hash(0))
        .with_block(graph_hash(2), graph_hash(1), 2, hit_bloom()).0
        .with_streamed_logs(graph_hash(2), logs_at(&[4]));
    assert!(matches!(graph.node(graph_hash(2)), Some(Node::Pending(_))));
    assert_eq!(block_logs(&graph, graph_hash(2)), Some((false, vec![4])));
    assert_graph_invariants(&graph);
}

// --- WS-miss detection (streamed vs authoritative divergence) -------------------------------

#[test]
fn streamed_mismatch_fires_only_on_key_set_divergence() {
    let graph = one_block_graph().with_streamed_logs(graph_hash(1), logs_at(&[3, 5]));
    assert!(!graph.streamed_log_mismatch(graph_hash(1), &logs_at(&[3, 5])));
    assert!(graph.streamed_log_mismatch(graph_hash(1), &logs_at(&[3]))); // spurious stream log
    assert!(graph.streamed_log_mismatch(graph_hash(1), &logs_at(&[3, 5, 7]))); // missed log
    assert!(graph.streamed_log_mismatch(graph_hash(1), &[])); // non-empty stream vs empty truth
}

#[test]
fn streamed_mismatch_ignores_unknown_complete_and_absent_blocks() {
    // Unknown = nothing streamed (the hole/backstop path, not a stream miss); Complete = an
    // idempotent authoritative re-receive; absent = pruned/never admitted. None are misses.
    let graph = one_block_graph();
    assert!(!graph.streamed_log_mismatch(graph_hash(1), &logs_at(&[3])));
    let graph = graph.with_complete_logs(graph_hash(1), logs_at(&[3]));
    assert!(!graph.streamed_log_mismatch(graph_hash(1), &logs_at(&[3, 4])));
    assert!(!graph.streamed_log_mismatch(graph_hash(9), &logs_at(&[3])));
}

#[test]
fn fold_empty_path_logs_returns_base() {
    let pool = v3_pool(0xA1);
    let base = OrdMap::from_entries(vec![(pool, ps(10, 5, 1000))]);
    let (graph, target) = fold_chain(vec![(2, complete(vec![]))]);
    assert_eq!(
        graph.folded_pool_states(&base, &verified_of(&base), target, Authority::RequireComplete),
        base
    );
    assert_graph_invariants(&graph);
}

#[test]
fn fold_swap_supersedes_base() {
    let pool = v3_pool(0xA1);
    let base = OrdMap::from_entries(vec![(pool, ps(10, 5, 1000))]);
    let (graph, target) = fold_chain(vec![(
        2,
        complete(vec![pool_log(
            pool,
            PoolLogEvent::Swap {
                sqrt_price_x96: u160(777u128),
                tick: 9,
                liquidity: 42,
            },
        )]),
    )]);
    assert_eq!(
        graph.folded_pool_states(&base, &verified_of(&base), target, Authority::RequireComplete),
        OrdMap::from_entries(vec![(pool, ps(777, 9, 42))])
    );
    assert_graph_invariants(&graph);
}

#[test]
fn fold_in_range_mint_adds_to_base_liquidity() {
    let pool = v3_pool(0xA1);
    let base = OrdMap::from_entries(vec![(pool, ps(10, 5, 1000))]);
    let (graph, target) = fold_chain(vec![(
        2,
        complete(vec![pool_log(
            pool,
            PoolLogEvent::Mint {
                tick_lower: 0,
                tick_upper: 10,
                amount: 500,
            },
        )]),
    )]);
    assert_eq!(
        graph.folded_pool_states(&base, &verified_of(&base), target, Authority::RequireComplete),
        OrdMap::from_entries(vec![(pool, ps(10, 5, 1500))])
    );
    assert_graph_invariants(&graph);
}

#[test]
fn fold_ignores_pool_absent_from_base_and_unverified() {
    // A Complete block carries a Swap for a pool that is neither in `base` nor `verified`: it is
    // not a seed candidate (only verified keys are seeded), so it must not appear in the result.
    let followed = v3_pool(0xA1);
    let untracked = v3_pool(0xB2);
    let base = OrdMap::from_entries(vec![(followed, ps(10, 5, 1000))]);
    let (graph, target) = fold_chain(vec![(
        2,
        complete(vec![pool_log(
            untracked,
            PoolLogEvent::Swap {
                sqrt_price_x96: u160(1u128),
                tick: 1,
                liquidity: 1,
            },
        )]),
    )]);
    // `verified_of(&base)` excludes `untracked`, so it is never seeded.
    assert_eq!(
        graph.folded_pool_states(&base, &verified_of(&base), target, Authority::RequireComplete),
        base
    );
    assert_graph_invariants(&graph);
}

#[test]
fn fold_seeds_verified_pool_absent_from_base_via_absolute_log() {
    let followed = v3_pool(0xA1);
    let new_pool = v3_pool(0xC1);
    let base = OrdMap::from_entries(vec![(followed, ps(10, 5, 1000))]);
    let verified = OrdSet::from_items(vec![followed, new_pool]);
    let (graph, target) = fold_chain(vec![(
        2,
        complete(vec![pool_log(
            new_pool,
            PoolLogEvent::Swap {
                sqrt_price_x96: u160(777u128),
                tick: 9,
                liquidity: 42,
            },
        )]),
    )]);
    assert_eq!(
        graph.folded_pool_states(&base, &verified, target, Authority::RequireComplete),
        OrdMap::from_entries(vec![(followed, ps(10, 5, 1000)), (new_pool, ps(777, 9, 42))])
    );
    assert_graph_invariants(&graph);
}

#[test]
fn fold_does_not_seed_verified_pool_from_delta_only_run() {
    // A verified new pool whose only log is a Mint has no absolute anchor, so
    // `derive_pool_state(None, [Mint])` is `None`: the fold leaves it unseeded here — its base
    // comes from the anchor-height seed path (`schedule_finalized_pool_seed_requests`) instead.
    let new_pool = v3_pool(0xC1);
    let base: OrdMap<PoolRef, PoolState> = OrdMap::new();
    let verified = OrdSet::from_items(vec![new_pool]);
    let (graph, target) = fold_chain(vec![(
        2,
        complete(vec![pool_log(
            new_pool,
            PoolLogEvent::Mint {
                tick_lower: 0,
                tick_upper: 10,
                amount: 500,
            },
        )]),
    )]);
    assert!(
        graph
            .folded_overlay(&base, &verified, target, Authority::RequireComplete)
            .is_empty()
    );
    assert_graph_invariants(&graph);
}

#[test]
fn finalization_waits_for_complete_before_seeding_new_pool() {
    // Watched-set widening: a verified pool absent from `base` whose Swap sits in a Streamed-only
    // (not yet Complete) bloom-touching block is a finalization hole — `finalized_to` must NOT
    // advance the anchor past it (which would drop the swap forever), it waits for Complete logs.
    // `watched_pool()` sits at `watched_addr()`, the one address `fold_chain`'s `hit_bloom` sets,
    // so the block's bloom actually touches it.
    let new_pool = watched_pool();
    let base: OrdMap<PoolRef, PoolState> = OrdMap::new();
    let verified = OrdSet::from_items(vec![new_pool]);
    let swap = PoolLogEvent::Swap {
        sqrt_price_x96: u160(777u128),
        tick: 9,
        liquidity: 42,
    };

    // Streamed: the block is a hole under RequireComplete, so the anchor stays put and nothing seeds.
    let (graph, target) = fold_chain(vec![(2, streamed(vec![pool_log(new_pool, swap.clone())]))]);
    let (graph, snapshot) = graph.finalized_to(target.0, &base, &verified, None);
    assert_eq!(graph.anchor_hash(), graph_hash(1));
    assert!(snapshot.is_empty());

    // Complete: the same block now folds — the anchor advances and the new pool is absolute-seeded.
    let (graph, target) = fold_chain(vec![(2, complete(vec![pool_log(new_pool, swap)]))]);
    let (graph, snapshot) = graph.finalized_to(target.0, &base, &verified, None);
    assert_eq!(graph.anchor_hash(), graph_hash(2));
    assert_eq!(snapshot.get(&new_pool), Some(&ps(777, 9, 42)));
}

#[test]
fn finalization_ignores_connected_side_fork_target() {
    let pool = v3_pool(0xA1);
    let base = OrdMap::from_entries(vec![(pool, ps(10, 5, 1000))]);
    let (graph, _tip) = fold_chain(vec![(2, complete(vec![]))]);
    // A second child of the anchor: connected and fully foldable, but the head is on block 2.
    let fork = graph_hash(3);
    let graph = with_data(
        graph,
        fork,
        graph_hash(1),
        BlockData {
            number: 2,
            logs_bloom: Some(hit_bloom()),
            logs: complete(vec![pool_log(
                pool,
                PoolLogEvent::Swap {
                    sqrt_price_x96: u160(777u128),
                    tick: 9,
                    liquidity: 42,
                },
            )]),
        },
    );

    let (graph, snapshot) = graph.finalized_to(fork, &base, &verified_of(&base), None);

    assert_eq!(graph.anchor_hash(), graph_hash(1));
    assert_eq!(graph.observed_head_hash(), graph_hash(2));
    assert!(graph.contains(graph_hash(2)));
    assert_eq!(snapshot, base);
    assert_graph_invariants(&graph);
}

#[test]
fn finalization_advances_to_mid_canonical_target() {
    let pool = v3_pool(0xA1);
    let base = OrdMap::from_entries(vec![(pool, ps(10, 5, 1000))]);
    let (graph, _tip) = fold_chain(vec![
        (
            2,
            complete(vec![pool_log(
                pool,
                PoolLogEvent::Swap {
                    sqrt_price_x96: u160(777u128),
                    tick: 9,
                    liquidity: 42,
                },
            )]),
        ),
        (3, complete(vec![])),
    ]);

    let (graph, snapshot) =
        graph.finalized_to(graph_hash(2), &base, &verified_of(&base), None);

    assert_eq!(graph.anchor_hash(), graph_hash(2));
    assert_eq!(graph.observed_head_hash(), graph_hash(3));
    assert_eq!(snapshot.get(&pool), Some(&ps(777, 9, 42)));
    assert_graph_invariants(&graph);
}

#[test]
fn fold_composes_across_blocks_in_path_order() {
    // Swap in the first block sets absolute state; mint in the second adjusts it.
    let pool = v3_pool(0xA1);
    let base = OrdMap::from_entries(vec![(pool, ps(10, 5, 1000))]);
    let (graph, target) = fold_chain(vec![
        (
            2,
            complete(vec![pool_log(
                pool,
                PoolLogEvent::Swap {
                    sqrt_price_x96: u160(50u128),
                    tick: 0,
                    liquidity: 100,
                },
            )]),
        ),
        (
            3,
            complete(vec![pool_log(
                pool,
                PoolLogEvent::Mint {
                    tick_lower: -10,
                    tick_upper: 10,
                    amount: 25,
                },
            )]),
        ),
    ]);
    assert_eq!(
        graph.folded_pool_states(&base, &verified_of(&base), target, Authority::RequireComplete),
        OrdMap::from_entries(vec![(pool, ps(50, 0, 125))])
    );
    assert_graph_invariants(&graph);
}

#[test]
fn fold_require_complete_ignores_streamed_logs() {
    // Under RequireComplete a Streamed block contributes nothing, so the pool keeps its base.
    let pool = v3_pool(0xA1);
    let base = OrdMap::from_entries(vec![(pool, ps(10, 5, 1000))]);
    let (graph, target) = fold_chain(vec![(
        2,
        streamed(vec![pool_log(
            pool,
            PoolLogEvent::Swap {
                sqrt_price_x96: u160(777u128),
                tick: 9,
                liquidity: 42,
            },
        )]),
    )]);
    assert_eq!(
        graph.folded_pool_states(&base, &verified_of(&base), target, Authority::RequireComplete),
        base
    );
    assert_graph_invariants(&graph);
}

#[test]
fn fold_allow_streamed_reads_streamed_logs() {
    // The authority seam: the same Streamed block IS read under AllowStreamed (optimization view).
    let pool = v3_pool(0xA1);
    let base = OrdMap::from_entries(vec![(pool, ps(10, 5, 1000))]);
    let (graph, target) = fold_chain(vec![(
        2,
        streamed(vec![pool_log(
            pool,
            PoolLogEvent::Swap {
                sqrt_price_x96: u160(777u128),
                tick: 9,
                liquidity: 42,
            },
        )]),
    )]);
    assert_eq!(
        graph.folded_pool_states(&base, &verified_of(&base), target, Authority::AllowStreamed),
        OrdMap::from_entries(vec![(pool, ps(777, 9, 42))])
    );
    assert_graph_invariants(&graph);
}

/// A `Swap` event, which sets absolute pool state (so the fold result is the last swap on the path).
fn swap_to(sqrt: u128, tick: i32, liquidity: u128) -> PoolLogEvent {
    PoolLogEvent::Swap {
        sqrt_price_x96: u160(sqrt),
        tick: tick,
        liquidity,
    }
}

/// A `Swap` for the watched pool, wrapped as `Complete` block logs.
fn complete_swap(sqrt: u128, tick: i32, liquidity: u128) -> BlockLogs {
    complete(vec![pool_log(watched_pool(), swap_to(sqrt, tick, liquidity))])
}

#[test]
fn optimization_stops_at_unknown_bloom_touching_block() {
    // [good][good][Unknown+hit][good]: fold the two good blocks, stop before the gap, and never
    // reach the post-gap block. Frontier is the last folded (2nd good) block.
    let pool = watched_pool();
    let base = OrdMap::from_entries(vec![(pool, ps(10, 5, 1000))]);
    let graph = opt_chain(vec![
        (Some(hit_bloom()), complete_swap(100, 1, 10)),
        (Some(hit_bloom()), complete_swap(200, 2, 20)),
        (Some(hit_bloom()), BlockLogs::Unknown),
        (Some(hit_bloom()), complete_swap(999, 9, 99)),
    ]);
    let (overlay, frontier) = graph.optimization_pool_states(&base, &verified_of(&base), None);
    assert_eq!(overlay, OrdMap::from_entries(vec![(pool, ps(200, 2, 20))]));
    assert_eq!(frontier, graph_hash(3));
    assert_graph_invariants(&graph);
}

#[test]
fn optimization_skips_unknown_with_clear_bloom() {
    // An Unknown block with a clear bloom is proven untouched, so the fold continues past it to the
    // head; the post-gap swap is applied.
    let pool = watched_pool();
    let base = OrdMap::from_entries(vec![(pool, ps(10, 5, 1000))]);
    let graph = opt_chain(vec![
        (Some(hit_bloom()), complete_swap(100, 1, 10)),
        (Some(clear_bloom()), BlockLogs::Unknown),
        (Some(hit_bloom()), complete_swap(200, 2, 20)),
    ]);
    let (overlay, frontier) = graph.optimization_pool_states(&base, &verified_of(&base), None);
    assert_eq!(overlay, OrdMap::from_entries(vec![(pool, ps(200, 2, 20))]));
    assert_eq!(frontier, graph_hash(4));
    assert_graph_invariants(&graph);
}

#[test]
fn optimization_folds_through_streamed_block() {
    // A Streamed (best-effort WS) block is readable under AllowStreamed, so it never stops the fold
    // and its swap contributes to the overlay.
    let pool = watched_pool();
    let base = OrdMap::from_entries(vec![(pool, ps(10, 5, 1000))]);
    let graph = opt_chain(vec![(
        Some(hit_bloom()),
        streamed(vec![pool_log(pool, swap_to(150, 3, 15))]),
    )]);
    let (overlay, frontier) = graph.optimization_pool_states(&base, &verified_of(&base), None);
    assert_eq!(overlay, OrdMap::from_entries(vec![(pool, ps(150, 3, 15))]));
    assert_eq!(frontier, graph_hash(2));
    assert_graph_invariants(&graph);
}

#[test]
fn optimization_stops_at_header_less_unknown_block() {
    // A header-less Unknown block (no bloom) conservatively may-touch, so it stops the fold; the
    // post-gap block is never reached.
    let pool = watched_pool();
    let base = OrdMap::from_entries(vec![(pool, ps(10, 5, 1000))]);
    let graph = opt_chain(vec![
        (Some(hit_bloom()), complete_swap(100, 1, 10)),
        (None, BlockLogs::Unknown),
        (Some(hit_bloom()), complete_swap(999, 9, 99)),
    ]);
    let (overlay, frontier) = graph.optimization_pool_states(&base, &verified_of(&base), None);
    assert_eq!(overlay, OrdMap::from_entries(vec![(pool, ps(100, 1, 10))]));
    assert_eq!(frontier, graph_hash(2));
    assert_graph_invariants(&graph);
}

#[test]
fn optimization_no_gap_folds_to_head() {
    // With no unknown blocks the fold spans the whole path; frontier is the observed head.
    let pool = watched_pool();
    let base = OrdMap::from_entries(vec![(pool, ps(10, 5, 1000))]);
    let graph = opt_chain(vec![
        (Some(hit_bloom()), complete_swap(100, 1, 10)),
        (Some(hit_bloom()), complete_swap(200, 2, 20)),
    ]);
    let (overlay, frontier) = graph.optimization_pool_states(&base, &verified_of(&base), None);
    assert_eq!(overlay, OrdMap::from_entries(vec![(pool, ps(200, 2, 20))]));
    assert_eq!(frontier, graph.observed_head_hash());
    assert_eq!(frontier, graph_hash(3));
    assert_graph_invariants(&graph);
}

#[test]
fn optimization_empty_graph_yields_empty_overlay_at_anchor() {
    // No recent blocks: nothing to fold, overlay empty, frontier is the anchor.
    let pool = watched_pool();
    let base = OrdMap::from_entries(vec![(pool, ps(10, 5, 1000))]);
    let graph = BlocksGraph::new(graph_hash(0));
    let (overlay, frontier) = graph.optimization_pool_states(&base, &verified_of(&base), None);
    assert!(overlay.is_empty());
    assert_eq!(frontier, graph_hash(0));
}

#[test]
fn optimization_non_connected_head_yields_empty_overlay_at_anchor() {
    // `observed_head` points at a Pending block (its parent never connected): there is no foldable
    // suffix, so the overlay is empty and the frontier is the anchor.
    let pool = watched_pool();
    let base = OrdMap::from_entries(vec![(pool, ps(10, 5, 1000))]);
    let graph = BlocksGraph::new(graph_hash(0))
        .with_block(graph_hash(3), graph_hash(2), 3, hit_bloom()).0
        .with_observed_head(graph_hash(3));
    assert!(matches!(graph.node(graph_hash(3)), Some(Node::Pending(_))));
    let (overlay, frontier) = graph.optimization_pool_states(&base, &verified_of(&base), None);
    assert!(overlay.is_empty());
    assert_eq!(frontier, graph_hash(0));
    assert_graph_invariants(&graph);
}

// --- finalization re-root (reanchored_to) ---------------------------------------------------

/// A followed pool whose v3 address is the watched address, so [`hit_bloom`] marks its blocks.
fn watched_pool() -> PoolRef {
    PoolRef::uniswap_v3(watched_addr(), ChainKey::Ethereum)
}

#[test]
fn blocks_graph_reanchor_to_anchor_is_noop() {
    let anchor = graph_hash(1);
    let graph = BlocksGraph::new(anchor)
        .with_block(graph_hash(2), anchor, 2, Bloom::repeat_byte(0)).0;
    let base = OrdMap::from_entries(vec![(v3_pool(0xA1), ps(1, 1, 1))]);
    // Reanchor to the current anchor is a base-clone no-op.
    let (graph, snapshot) = graph.reanchored_to(ConnectedHash(anchor), &base, &verified_of(&base));
    assert_eq!(graph.anchor_hash(), anchor);
    assert!(connected(&graph, graph_hash(2)).is_some());
    assert_eq!(snapshot, base);
    assert_graph_invariants(&graph);
}

#[test]
fn finalization_refuses_unknown_bloom_hit_block() {
    let pool = watched_pool();
    let base = OrdMap::from_entries(vec![(pool, ps(10, 5, 1000))]);
    let (graph, target) = fold_chain(vec![(7, BlockLogs::Unknown)]);
    let target_hash = target.0;
    let watched = watched_addresses(&verified_of(&base), None);
    assert_eq!(
        graph.missing_complete_ranges(target, &watched, &no_excludes()),
        vec![MissingRange {
            from: 7,
            to: 7,
            hashes: vec![target_hash]
        }]
    );
    let (graph, snapshot) = graph.finalized_to(target_hash, &base, &verified_of(&base), None);
    assert_eq!(graph.anchor_hash(), graph_hash(1));
    assert!(connected(&graph, graph_hash(2)).is_some());
    assert_eq!(snapshot, base);
    assert_graph_invariants(&graph);
}

#[test]
fn reanchor_advances_prunes_and_reclassifies() {
    // anchor → b2 → b3 → b4 (all Complete). Reanchor to b2: b2 becomes the anchor (removed from
    // nodes), b3 is reclassified to an Anchor parent, b4 keeps its Block(b3) parent.
    let (graph, _) = fold_chain(vec![
        (2, complete(vec![])),
        (3, complete(vec![])),
        (4, complete(vec![])),
    ]);
    let (b2, b3, b4) = (graph_hash(2), graph_hash(3), graph_hash(4));
    let (graph, snapshot) = graph.reanchored_to(ConnectedHash(b2), &OrdMap::new(), &OrdSet::new());
    assert!(snapshot.is_empty());
    assert_eq!(graph.anchor_hash(), b2);
    assert!(graph.node(b2).is_none());
    assert!(matches!(
        graph.node(b3),
        Some(Node::Connected(ConnectedNode {
            parent: AnchoredRef::Anchor,
            ..
        }))
    ));
    assert!(matches!(
        graph.node(b4),
        Some(Node::Connected(ConnectedNode {
            parent: AnchoredRef::Block(ConnectedHash(parent)),
            ..
        })) if *parent == b3
    ));
    assert_eq!(graph.observed_head_hash(), b4);
    assert_graph_invariants(&graph);
}

#[test]
fn reanchor_prunes_sibling_forks() {
    // anchor has two children b2 and b3; b2 has a child b4. Reanchor to b2 drops the b3 fork.
    let anchor = graph_hash(1);
    let (b2, b3, b4) = (graph_hash(2), graph_hash(3), graph_hash(4));
    let graph = BlocksGraph::new(anchor);
    let graph = with_clear_complete(graph, b2, anchor, 2);
    let graph = with_clear_complete(graph, b3, anchor, 2);
    let graph = with_clear_complete(graph, b4, b2, 3);
    let graph = graph.with_observed_head(b4);
    let (graph, _) = graph.reanchored_to(ConnectedHash(b2), &OrdMap::new(), &OrdSet::new());
    assert_eq!(graph.anchor_hash(), b2);
    assert!(graph.node(b3).is_none());
    assert!(graph.node(b2).is_none());
    assert!(matches!(
        graph.node(b4),
        Some(Node::Connected(ConnectedNode {
            parent: AnchoredRef::Anchor,
            ..
        }))
    ));
    assert_graph_invariants(&graph);
}

#[test]
fn reanchor_resets_observed_head_when_pruned() {
    // observed_head sits on the b3 sibling fork; reanchoring to b2 prunes it, so the head resets
    // to the new anchor.
    let anchor = graph_hash(1);
    let (b2, b3) = (graph_hash(2), graph_hash(3));
    let graph = BlocksGraph::new(anchor);
    let graph = with_clear_complete(graph, b2, anchor, 2);
    let graph = with_clear_complete(graph, b3, anchor, 2);
    let graph = graph.with_observed_head(b3);
    let (graph, _) = graph.reanchored_to(ConnectedHash(b2), &OrdMap::new(), &OrdSet::new());
    assert_eq!(graph.observed_head_hash(), b2);
    assert_graph_invariants(&graph);
}

#[test]
fn reanchor_to_observed_head_empties_chain() {
    // Finalizing right up to the head: the head becomes the anchor, no recent blocks remain, and
    // the canonical chain is empty.
    let (graph, target) = fold_chain(vec![(2, complete(vec![])), (3, complete(vec![]))]);
    let b3 = graph_hash(3);
    let (graph, _) = graph.reanchored_to(target, &OrdMap::new(), &OrdSet::new());
    assert_eq!(graph.anchor_hash(), b3);
    assert!(graph.is_empty());
    assert_eq!(graph.observed_head_hash(), b3);
    assert!(graph.canonical_hashes().is_empty());
    assert_graph_invariants(&graph);
}

#[test]
fn reanchor_folds_finalized_snapshot() {
    // A Complete swap on the finalized prefix advances the pool's snapshot at the new anchor.
    let pool = watched_pool();
    let base = OrdMap::from_entries(vec![(pool, ps(10, 5, 1000))]);
    let (graph, target) = fold_chain(vec![(
        2,
        complete(vec![pool_log(
            pool,
            PoolLogEvent::Swap {
                sqrt_price_x96: u160(777u128),
                tick: 9,
                liquidity: 42,
            },
        )]),
    )]);
    let (graph, snapshot) = graph.reanchored_to(target, &base, &verified_of(&base));
    assert_eq!(snapshot, OrdMap::from_entries(vec![(pool, ps(777, 9, 42))]));
    assert_eq!(graph.anchor_hash(), graph_hash(2));
    assert!(graph.is_empty());
    assert_graph_invariants(&graph);
}

#[test]
fn blocks_graph_starts_empty() {
    let graph = BlocksGraph::new(BlockHash::with_last_byte(0));

    assert!(graph.is_empty());
}

// --- bootstrap seed (from_seed) --------------------------------------------------------------

/// A pool log with an explicit intra-block index for a given pool — seed payloads are keyed by
/// `log_index` exactly like live ingestion.
fn seed_log(log_index: u64, pool: PoolRef, event: PoolLogEvent) -> PoolLog {
    PoolLog {
        pool: pool.key,
        log_index,
        event,
    }
}

/// The seed window under test: anchor(1) → s2 (absolute swap) → s3 (gap filler, proven-empty
/// logs) → s4 (in-range mint). Folding it for [`watched_pool`] from any base yields
/// `ps(500, 5, base_liquidity-agnostic 5_000 + 100)` since the swap is absolute.
fn seeded_graph() -> BlocksGraph {
    let pool = watched_pool();
    BlocksGraph::from_seed(
        graph_hash(1),
        vec![
            (
                graph_hash(2),
                graph_hash(1),
                2,
                vec![seed_log(
                    0,
                    pool,
                    PoolLogEvent::Swap {
                        sqrt_price_x96: u160(500),
                        tick: 5,
                        liquidity: 5_000,
                    },
                )],
            ),
            (graph_hash(3), graph_hash(2), 3, vec![]),
            (
                graph_hash(4),
                graph_hash(3),
                4,
                vec![seed_log(
                    1,
                    pool,
                    PoolLogEvent::Mint {
                        tick_lower: 0,
                        tick_upper: 10,
                        amount: 100,
                    },
                )],
            ),
        ],
    )
}

#[test]
fn seed_builds_connected_header_less_complete_chain() {
    let graph = seeded_graph();
    for index in 2..=4 {
        let node = connected(&graph, graph_hash(index))
            .expect("seed block must be connected");
        assert_eq!(node.data.logs_bloom, None, "seed blocks are header-less");
        assert!(matches!(node.data.logs, BlockLogs::Complete(_)));
    }
    assert_eq!(graph.observed_head_hash(), graph_hash(1));
    assert!(graph.canonical_hashes().is_empty());
    assert_graph_invariants(&graph);
}

#[test]
fn seed_window_folds_into_optimization_read_once_head_connects() {
    // The first live block lands on the seeded chain and the whole window folds immediately —
    // the warmup property: no header walk is needed before serving recent state.
    let pool = watched_pool();
    let base = OrdMap::from_entries(vec![(pool, ps(10, 0, 1_000))]);
    let graph = seeded_graph()
        .admitted(graph_hash(5), graph_hash(4), 5, clear_bloom())
        .with_observed_head(graph_hash(5));
    let (overlay, frontier) =
        graph.optimization_pool_states(&base, &verified_of(&base), None);
    assert_eq!(frontier, graph_hash(5));
    assert_eq!(overlay.get(&pool), Some(&ps(500, 5, 5_100)));
    assert_graph_invariants(&graph);
}

#[test]
fn seed_finalizes_through_header_less_window() {
    let pool = watched_pool();
    let base = OrdMap::from_entries(vec![(pool, ps(10, 0, 1_000))]);
    let (graph, snapshot) = seeded_graph()
        .with_observed_head(graph_hash(4))
        .finalized_to(graph_hash(4), &base, &verified_of(&base), None);
    assert_eq!(graph.anchor_hash(), graph_hash(4));
    assert_eq!(snapshot.get(&pool), Some(&ps(500, 5, 5_100)));
    assert_graph_invariants(&graph);
}

#[test]
fn seed_window_seeds_pool_verified_after_activation() {
    // Registry growth after activation: the seed stores logs registry-free, so a pool verified
    // only later folds out of the seeded window exactly as it would from live blocks.
    let pool = watched_pool();
    let base: OrdMap<PoolRef, PoolState> = OrdMap::new();
    let graph = seeded_graph().with_observed_head(graph_hash(4));

    let (before, _) = graph.optimization_pool_states(&base, &OrdSet::new(), None);
    assert!(before.is_empty(), "unverified pool must stay invisible");

    let (after, frontier) =
        graph.optimization_pool_states(&base, &OrdSet::from_items(vec![pool]), None);
    assert_eq!(frontier, graph_hash(4));
    assert_eq!(after.get(&pool), Some(&ps(500, 5, 5_100)));
    assert_graph_invariants(&graph);
}

#[test]
fn seed_skips_degenerate_entries_first_seen_kept() {
    let pool = watched_pool();
    let graph = BlocksGraph::from_seed(
        graph_hash(1),
        vec![
            (graph_hash(2), graph_hash(1), 2, vec![seed_log(0, pool, sw(7))]),
            // Self-parent, anchor re-admit, and a conflicting duplicate: skipped, first-seen kept.
            (graph_hash(9), graph_hash(9), 9, vec![]),
            (graph_hash(1), graph_hash(2), 1, vec![]),
            (graph_hash(2), graph_hash(4), 2, vec![]),
        ],
    );
    assert_eq!(graph.node_hashes(), OrdSet::from_items(vec![graph_hash(2)]));
    let node = connected(&graph, graph_hash(2))
        .expect("first-seen block must stay connected");
    assert!(matches!(&node.parent, AnchoredRef::Anchor));
    assert_graph_invariants(&graph);
}

// --- generated shapes ---------------------------------------------------------------------------

/// A small deterministic generator.
struct Dice(u64);

impl Dice {
    fn roll(&mut self, below: usize) -> usize {
        self.0 = self.0.wrapping_mul(6364136223846793005).wrapping_add(1442695040888963407);
        ((self.0 >> 33) as usize) % below
    }

    fn shuffled(&mut self, mut items: Vec<usize>) -> Vec<usize> {
        for i in (1..items.len()).rev() {
            let j = self.roll(i + 1);
            items.swap(i, j);
        }
        items
    }
}

struct AdmissionPlan {
    /// `parents[i]` is the parent node index of node `i`; node 0 is the anchor. Always strictly
    /// less than `i`, so the generated graph is rooted at the anchor and acyclic by construction.
    parents: Vec<usize>,
    /// Two independent admission permutations of nodes `1..node_count`.
    order_a: Vec<usize>,
    order_b: Vec<usize>,
}

fn admission_plans() -> Vec<AdmissionPlan> {
    let mut dice = Dice(7);
    (0..60)
        .map(|_| {
            let node_count = 2 + dice.roll(30);
            let parents =
                (0..node_count).map(|i| if i == 0 { 0 } else { dice.roll(i) }).collect();
            let order_a = dice.shuffled((1..node_count).collect());
            let order_b = dice.shuffled((1..node_count).collect());
            AdmissionPlan { parents, order_a, order_b }
        })
        .collect()
}

fn admit_in_order(plan: &AdmissionPlan, order: &[usize]) -> BlocksGraph {
    let mut graph = BlocksGraph::new(graph_hash(0));
    for &node in order {
        graph = graph
            .with_block(
                graph_hash(node),
                graph_hash(plan.parents[node]),
                node as u64,
                Bloom::repeat_byte(0),
            )
            .0;
    }
    graph
}

/// `(hash, is_connected, parent_hash)` of every node, independent of arrival order.
fn graph_fingerprint(graph: &BlocksGraph) -> Vec<(BlockHash, bool, BlockHash)> {
    graph
        .node_hashes()
        .items()
        .into_iter()
        .map(|hash| match graph.node(hash).unwrap() {
            Node::Connected(node) => {
                (hash, true, connected_parent_hash(&node.parent, graph.anchor_hash()))
            }
            Node::Pending(node) => (hash, false, node.parent),
        })
        .collect()
}

#[test]
fn with_block_preserves_graph_invariants_under_any_order() {
    for plan in admission_plans() {
        let mut graph = BlocksGraph::new(graph_hash(0));
        for &node in &plan.order_a {
            graph = graph
                .with_block(
                    graph_hash(node),
                    graph_hash(plan.parents[node]),
                    node as u64,
                    Bloom::repeat_byte(0),
                )
                .0;
            assert_graph_invariants(&graph);
        }
        for &node in &plan.order_a {
            assert!(connected(&graph, graph_hash(node)).is_some());
        }
    }
}

#[test]
fn with_block_is_order_independent() {
    for plan in admission_plans() {
        let fingerprint_a = graph_fingerprint(&admit_in_order(&plan, &plan.order_a));
        let fingerprint_b = graph_fingerprint(&admit_in_order(&plan, &plan.order_b));
        assert!(!fingerprint_a.is_empty());
        assert_eq!(fingerprint_a, fingerprint_b);
    }
}

#[test]
fn with_block_capped_never_exceeds_bound() {
    let max: usize = 3;
    for plan in admission_plans() {
        let mut graph = BlocksGraph::new(graph_hash(0));
        for &node in &plan.order_a {
            let (next, admission) = graph.with_block_capped(
                graph_hash(node),
                graph_hash(plan.parents[node]),
                node as u64,
                Bloom::repeat_byte(0),
                max,
            );
            assert!(
                matches!(admission, Admission::Admitted | Admission::PendingBufferFull),
                "unexpected admission outcome: {admission:?}"
            );
            graph = next;
            assert!(graph.pending_count() <= max);
            assert_graph_invariants(&graph);
        }
    }
}

#[test]
fn canonical_chain_is_connected_path_to_anchor() {
    let mut dice = Dice(11);
    for plan in admission_plans() {
        let node_count = plan.parents.len();
        let head = 1 + dice.roll(node_count - 1);
        let graph = admit_in_order(&plan, &plan.order_a).with_observed_head(graph_hash(head));

        // Independently recompute the parent path head -> anchor (node 0), oldest first.
        let mut expected = Vec::new();
        let mut current = head;
        while current != 0 {
            expected.push(graph_hash(current));
            current = plan.parents[current];
        }
        expected.reverse();

        let chain = graph.canonical_hashes();
        assert_eq!(chain, expected);
        for hash in &chain {
            assert!(connected(&graph, *hash).is_some());
        }
    }
}

#[test]
fn missing_parents_are_exactly_absent_referenced_parents() {
    for plan in admission_plans() {
        let mut graph = BlocksGraph::new(graph_hash(0));
        for &node in &plan.order_a {
            graph = graph
                .with_block(
                    graph_hash(node),
                    graph_hash(plan.parents[node]),
                    node as u64,
                    Bloom::repeat_byte(0),
                )
                .0;
            let missing = graph.missing_parents();

            // distinct + strictly ascending
            for pair in missing.windows(2) {
                assert!(pair[0] < pair[1]);
            }
            let mut awaited = HashSet::new();
            for hash in graph.node_hashes().items() {
                if let Some(Node::Pending(pending)) = graph.node(hash) {
                    awaited.insert(pending.parent);
                }
            }
            for &hash in &missing {
                assert!(hash != graph.anchor_hash());
                assert!(!graph.contains(hash));
                assert!(awaited.contains(&hash));
            }
            for parent in awaited {
                if parent != graph.anchor_hash() && !graph.contains(parent) {
                    assert!(missing.contains(&parent));
                }
            }
        }
    }
}

#[test]
fn log_holes_are_only_unknown_bloom_hit_blocks_at_depth() {
    let mut dice = Dice(13);
    for _ in 0..60 {
        let count = 1 + dice.roll(11);
        let specs: Vec<(usize, bool)> =
            (0..count).map(|_| (dice.roll(3), dice.roll(2) == 1)).collect();
        let min_depth = dice.roll(6);
        let anchor = graph_hash(1);
        let mut graph = BlocksGraph::new(anchor);
        let mut parent = anchor;
        for (index, (logs_kind, bloom_hit)) in specs.iter().enumerate() {
            let hash = graph_hash(index + 2);
            let bloom = if *bloom_hit { hit_bloom() } else { clear_bloom() };
            graph = graph.with_block(hash, parent, (index + 2) as u64, bloom).0;
            graph = match logs_kind {
                0 => graph,
                1 => graph.with_streamed_logs(hash, Vec::new()),
                _ => graph.with_complete_logs(hash, Vec::new()),
            };
            parent = hash;
        }
        let graph = graph.with_observed_head(parent);

        let holes = graph.unknown_log_hole_hashes(&watched(), &OrdSet::new(), min_depth);

        // Independently expected: Unknown + bloom-hit blocks at depth >= min_depth, newest first.
        let mut expected: Vec<BlockHash> = Vec::new();
        for (index, (logs_kind, bloom_hit)) in specs.iter().enumerate().rev() {
            let depth = specs.len() - 1 - index;
            if *logs_kind == 0 && *bloom_hit && depth >= min_depth {
                expected.push(graph_hash(index + 2));
            }
        }
        assert_eq!(holes, expected);
    }
}

#[test]
fn gate_ranges_exactly_cover_unresolved_bloom_hit_blocks() {
    let mut dice = Dice(17);
    for _ in 0..60 {
        let count = 1 + dice.roll(11);
        let specs: Vec<(bool, usize)> =
            (0..count).map(|_| (dice.roll(2) == 1, dice.roll(3))).collect();
        let chain: Vec<(u64, Option<Bloom>, bool)> = specs
            .iter()
            .enumerate()
            .map(|(index, (complete, kind))| {
                let bloom = match kind {
                    0 => Some(hit_bloom()),
                    1 => Some(clear_bloom()),
                    _ => None,
                };
                ((index + 2) as u64, bloom, *complete)
            })
            .collect();
        let (graph, target) = gate_chain(&chain);
        let ranges = graph.missing_complete_ranges(target, &watched(), &no_excludes());

        // Independently expected hole block numbers (ascending, since numbers are contiguous).
        let mut holes: Vec<u64> = Vec::new();
        for (number, bloom, complete) in &chain {
            let touches = match bloom {
                Some(bloom) => AlloyBloom::from(bloom.bytes).contains_input(BloomInput::Raw(
                    AlloyAddress::with_last_byte(0xAA).as_slice(),
                )),
                None => true,
            };
            if !complete && touches {
                holes.push(*number);
            }
        }

        let mut covered: Vec<u64> = Vec::new();
        for range in &ranges {
            assert!(range.from <= range.to);
            covered.extend(range.from..=range.to);
            // The covered hashes name exactly the range's blocks (hashes are keyed by number).
            let expected_hashes: Vec<BlockHash> =
                (range.from..=range.to).map(|number| graph_hash(number as usize)).collect();
            assert_eq!(range.hashes, expected_hashes);
        }
        // Exact match: only holes covered, and every hole covered.
        assert_eq!(covered, holes);
        // Properly coalesced: ranges are ascending with a real gap between them.
        for pair in ranges.windows(2) {
            assert!(pair[0].to + 1 < pair[1].from);
        }
    }
}

/// The expected authority and key set after a sequence of merges.
#[derive(Debug, Clone, PartialEq)]
enum ExpectedLogs {
    Unknown,
    Streamed(BTreeSet<u64>),
    Complete(BTreeSet<u64>),
}

#[test]
fn log_merge_upholds_l5() {
    let mut dice = Dice(19);
    for _ in 0..60 {
        let mut graph = one_block_graph();
        let mut expected = ExpectedLogs::Unknown;
        let mut prev_rank = 0u8;
        for _ in 0..(1 + dice.roll(11)) {
            let complete_op = dice.roll(2) == 1;
            let indices: Vec<u64> = (0..dice.roll(5)).map(|_| dice.roll(8) as u64).collect();
            let keys: BTreeSet<u64> = indices.iter().copied().collect();
            expected = match (complete_op, expected) {
                (false, ExpectedLogs::Unknown) => ExpectedLogs::Streamed(keys),
                (false, ExpectedLogs::Streamed(mut prev)) => {
                    prev.extend(keys);
                    ExpectedLogs::Streamed(prev)
                }
                // A streamed merge onto Complete is a no-op.
                (false, ExpectedLogs::Complete(prev)) => ExpectedLogs::Complete(prev),
                (true, _) => ExpectedLogs::Complete(keys),
            };
            graph = if complete_op {
                graph.with_complete_logs(graph_hash(1), logs_at(&indices))
            } else {
                graph.with_streamed_logs(graph_hash(1), logs_at(&indices))
            };

            let actual = match &graph.get(graph_hash(1)).unwrap().logs {
                BlockLogs::Unknown => ExpectedLogs::Unknown,
                BlockLogs::Streamed(map) => ExpectedLogs::Streamed(map.keys().into_iter().collect()),
                BlockLogs::Complete(map) => ExpectedLogs::Complete(map.keys().into_iter().collect()),
            };
            assert_eq!(&actual, &expected);

            let rank = match actual {
                ExpectedLogs::Unknown => 0,
                ExpectedLogs::Streamed(_) => 1,
                ExpectedLogs::Complete(_) => 2,
            };
            assert!(rank >= prev_rank, "authority must never step backward");
            prev_rank = rank;
        }
        assert_graph_invariants(&graph);
    }
}

#[test]
fn reanchor_preserves_invariants_and_prunes_to_descendants() {
    let mut dice = Dice(23);
    for plan in admission_plans() {
        let node_count = plan.parents.len();
        let new_anchor_idx = 1 + dice.roll(node_count - 1);
        let new_anchor_hash = graph_hash(new_anchor_idx);
        let graph = admit_in_order(&plan, &plan.order_a)
            .with_observed_head(graph_hash(node_count - 1));

        // Independently: the strict descendants of new_anchor by the generated parent links.
        let mut expected: BTreeSet<BlockHash> = BTreeSet::new();
        for node in 1..node_count {
            if node == new_anchor_idx {
                continue;
            }
            let mut current = node;
            while current != 0 {
                if current == new_anchor_idx {
                    expected.insert(graph_hash(node));
                    break;
                }
                current = plan.parents[current];
            }
        }

        let (regraphed, snapshot) =
            graph.reanchored_to(ConnectedHash(new_anchor_hash), &OrdMap::new(), &OrdSet::new());
        assert!(snapshot.is_empty());
        assert_eq!(regraphed.anchor_hash(), new_anchor_hash);
        assert_graph_invariants(&regraphed);
        let retained: BTreeSet<BlockHash> = regraphed.node_hashes().items().into_iter().collect();
        for hash in &retained {
            assert!(connected(&regraphed, *hash).is_some());
        }
        assert_eq!(retained, expected);
    }
}

#[test]
fn overlay_leaves_out_a_pool_that_ends_where_it_began() {
    let pool = watched_pool();
    let base = OrdMap::from_entries(vec![(pool, ps(100, 1, 10))]);

    // A swap to the base state.
    let graph = opt_chain(vec![(Some(hit_bloom()), complete_swap(100, 1, 10))]);
    let (overlay, frontier) = graph.optimization_pool_states(&base, &verified_of(&base), None);
    assert!(overlay.is_empty());
    assert_eq!(frontier, graph_hash(2));

    // A swap away and back.
    let (graph, target) =
        fold_chain(vec![(2, complete_swap(200, 2, 20)), (3, complete_swap(100, 1, 10))]);
    let overlay =
        graph.folded_overlay(&base, &verified_of(&base), target, Authority::RequireComplete);
    assert!(overlay.is_empty());
    assert_eq!(
        graph.folded_pool_states(&base, &verified_of(&base), target, Authority::RequireComplete),
        base
    );

    // Without a base state the same pool is seeded.
    assert_eq!(
        graph.folded_overlay(
            &OrdMap::new(),
            &verified_of(&base),
            target,
            Authority::RequireComplete
        ),
        base
    );
}

#[test]
fn overlay_holds_the_changed_pools_alone() {
    let (still, moved) = (v3_pool(0xA1), v3_pool(0xA2));
    let base = OrdMap::from_entries(vec![(still, ps(10, 5, 1000)), (moved, ps(20, 6, 2000))]);
    let (graph, target) = fold_chain(vec![(
        2,
        complete(vec![
            PoolLog { pool: still.key, log_index: 0, event: swap_to(10, 5, 1000) },
            PoolLog { pool: moved.key, log_index: 1, event: swap_to(21, 6, 2000) },
        ]),
    )]);
    assert_eq!(
        graph.folded_overlay(&base, &verified_of(&base), target, Authority::RequireComplete),
        OrdMap::from_entries(vec![(moved, ps(21, 6, 2000))])
    );
}

#[test]
fn a_cloned_range_is_the_same_range() {
    let range = MissingRange { from: 3, to: 4, hashes: vec![graph_hash(3), graph_hash(4)] };
    assert_eq!(range.clone(), range);
}
