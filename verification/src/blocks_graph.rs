//! The volatile block tree: recent, non-finalized blocks rooted at the finalized anchor.
use vstd::prelude::*;

use crate::graph_lemmas::{
    lemma_admitted_wf, lemma_awaits_parent, lemma_chain, lemma_circle_walks_forever, lemma_depth,
    lemma_depth_along, lemma_distance, lemma_present_chain, lemma_present_chain_present,
    lemma_reanchored_wf, lemma_survivor_parent, lemma_undecided, lemma_with_logs_wf,
};
use crate::graph_model::{
    keyed, may_touch, named_pools, pools_in, watched_by, Admission, Authority, BlockModel,
    DataModel, GraphModel, LogsModel, RangeModel,
};
use crate::ord_map::{lemma_map_finite, OrdMap, OrdSet};
use crate::order::{
    ascending, lemma_filter_next, lemma_filter_none, lemma_push_contains, lemma_take_next,
    lemma_walk, lists,
};
use crate::pool_state::{PoolLog, PoolRef, PoolState, ProtocolPoolKey};
use crate::primitives::{bloom_contains_address, Address, BlockHash, Bloom};

verus! {

/// Caps the pending blocks, so that blocks whose parents never connect cannot pile up.
pub const MAX_PENDING_BLOCKS: usize = 1024;

/// A hash that names a connected block, or the anchor where a walk starts there.
#[derive(Clone, Copy, Debug, PartialEq, Eq, Structural)]
pub struct ConnectedHash(pub BlockHash);

/// A reference into the connected tree. There is no "missing" variant: a connected block's parent is
/// the anchor or connected itself.
#[derive(Clone, Copy, Debug, PartialEq, Eq, Structural)]
pub enum AnchoredRef {
    Anchor,
    Block(ConnectedHash),
}

/// The logs known of a block, keyed by their index within it. Knowledge only grows:
/// `Unknown`, then `Streamed`, then `Complete`.
#[derive(Debug, PartialEq, Eq)]
pub enum BlockLogs {
    Unknown,
    Streamed(OrdMap<u64, PoolLog>),
    Complete(OrdMap<u64, PoolLog>),
}

impl View for BlockLogs {
    type V = LogsModel;

    open spec fn view(&self) -> LogsModel {
        match self {
            BlockLogs::Unknown => LogsModel::Unknown,
            BlockLogs::Streamed(m) => LogsModel::Streamed(m@),
            BlockLogs::Complete(m) => LogsModel::Complete(m@),
        }
    }
}

/// A block's payload, whatever its place in the tree.
#[derive(Debug, PartialEq, Eq)]
pub struct BlockData {
    pub number: u64,
    /// The header's bloom; `None` for a block that entered without a header.
    pub logs_bloom: Option<Bloom>,
    pub logs: BlockLogs,
}

impl View for BlockData {
    type V = DataModel;

    open spec fn view(&self) -> DataModel {
        DataModel {
            number: self.number,
            bloom: match self.logs_bloom {
                Some(bloom) => Some(bloom@),
                None => None,
            },
            logs: self.logs@,
        }
    }
}

/// A block on a complete path to the anchor.
#[derive(Debug, PartialEq, Eq)]
pub struct ConnectedNode {
    pub parent: AnchoredRef,
    pub data: BlockData,
}

/// A block whose parent is absent, or present but pending itself.
#[derive(Debug, PartialEq, Eq)]
pub struct PendingNode {
    pub parent: BlockHash,
    pub data: BlockData,
}

/// A block is connected or pending, never both.
#[derive(Debug, PartialEq, Eq)]
pub enum Node {
    Connected(ConnectedNode),
    Pending(PendingNode),
}

/// An inclusive range of block numbers whose logs must be fetched, with the blocks it was made of.
#[derive(Debug, PartialEq, Eq)]
pub struct MissingRange {
    pub from: u64,
    pub to: u64,
    pub hashes: Vec<BlockHash>,
}

impl View for MissingRange {
    type V = RangeModel;

    open spec fn view(&self) -> RangeModel {
        RangeModel { from: self.from, to: self.to, hashes: self.hashes@ }
    }
}

impl Clone for MissingRange {
    fn clone(&self) -> (r: MissingRange)
        ensures
            r@ == self@,
    {
        let hashes = self.hashes.clone();
        assert(hashes@ =~= self.hashes@);
        MissingRange { from: self.from, to: self.to, hashes }
    }
}

pub open spec fn ref_hash(parent: AnchoredRef, anchor: BlockHash) -> BlockHash {
    match parent {
        AnchoredRef::Anchor => anchor,
        AnchoredRef::Block(ConnectedHash(hash)) => hash,
    }
}

pub open spec fn node_model(node: Node, anchor: BlockHash) -> BlockModel {
    match node {
        Node::Connected(c) => BlockModel {
            connected: true,
            parent: ref_hash(c.parent, anchor),
            data: c.data@,
        },
        Node::Pending(p) => BlockModel { connected: false, parent: p.parent, data: p.data@ },
    }
}

/// A connected block refers to the anchor as such, never by its hash.
pub open spec fn node_ok(node: Node, anchor: BlockHash) -> bool {
    node matches Node::Connected(c) ==> c.parent != AnchoredRef::Block(ConnectedHash(anchor))
}

pub open spec fn nodes_model(nodes: Map<BlockHash, Node>, anchor: BlockHash) -> Map<
    BlockHash,
    BlockModel,
> {
    Map::new(|h: BlockHash| nodes.contains_key(h), |h: BlockHash| node_model(nodes[h], anchor))
}

pub open spec fn nodes_ok(nodes: Map<BlockHash, Node>, anchor: BlockHash) -> bool {
    forall|h: BlockHash| nodes.contains_key(h) ==> node_ok(#[trigger] nodes[h], anchor)
}

/// The block tree.
#[derive(Debug, PartialEq, Eq)]
pub struct BlocksGraph {
    anchor: BlockHash,
    nodes: OrdMap<BlockHash, Node>,
    /// The head that the feed reported last. It may name a pending block: the canonical chain is
    /// then empty until the block connects.
    observed_head: BlockHash,
}

impl View for BlocksGraph {
    type V = GraphModel;

    closed spec fn view(&self) -> GraphModel {
        GraphModel {
            anchor: self.anchor,
            blocks: nodes_model(self.nodes@, self.anchor),
            head: self.observed_head,
        }
    }
}

/// The raw hash that a connected block's parent reference points at.
pub fn connected_parent_hash(parent: &AnchoredRef, anchor: BlockHash) -> (r: BlockHash)
    ensures
        r == ref_hash(*parent, anchor),
{
    match *parent {
        AnchoredRef::Anchor => anchor,
        AnchoredRef::Block(ConnectedHash(hash)) => hash,
    }
}

impl BlocksGraph {
    /// The tree is well formed and every reference to the anchor is written as such.
    pub closed spec fn wf(self) -> bool {
        &&& self@.wf()
        &&& nodes_ok(self.nodes@, self.anchor)
    }

    /// A graph of the anchor alone.
    pub fn new(anchor: BlockHash) -> (r: BlocksGraph)
        ensures
            r.wf(),
            r@ == (GraphModel { anchor, blocks: Map::empty(), head: anchor }),
    {
        let r = BlocksGraph { anchor, nodes: OrdMap::new(), observed_head: anchor };
        proof {
            assert(r@.blocks =~= Map::empty());
        }
        r
    }

    /// The connected node of `hash`, if it is one.
    fn connected(&self, hash: BlockHash) -> (r: Option<&ConnectedNode>)
        ensures
            r is Some == self@.connected(hash),
            r matches Some(node) ==> self.nodes@[hash] == Node::Connected(*node),
    {
        match self.nodes.get(&hash) {
            Some(Node::Connected(node)) => Some(node),
            _ => None,
        }
    }

    /// How many blocks are pending.
    pub fn pending_count(&self) -> (n: usize)
        ensures
            n == self@.pending_blocks().len(),
            self@.pending_blocks().finite(),
    {
        let total: usize = self.nodes.len();
        let mut n: usize = 0;
        let ghost listed = ascending(self.nodes@.dom());
        proof {
            lemma_walk(self.nodes@.dom());
        }
        let ghost mut seen: Set<BlockHash> = Set::empty();
        for i in 0..total
            invariant
                total == self.nodes@.len(),
                listed == ascending(self.nodes@.dom()),
                lists(listed, self.nodes@.dom()),
                listed.len() == total,
                listed.no_duplicates(),
                n <= i,
                seen.finite(),
                seen.len() == n,
                forall|h: BlockHash| #[trigger]
                    seen.contains(h) <==> self@.pending(h) && listed.take(i as int).contains(h),
        {
            let ghost h = listed[i as int];
            proof {
                lemma_take_next(listed, i as int);
            }
            match self.nodes.value_at(i) {
                Node::Pending(_) => {
                    n = n + 1;
                    proof {
                        assert(!seen.contains(h));
                        seen = seen.insert(h);
                    }
                },
                Node::Connected(_) => {},
            }
        }
        proof {
            assert(listed.take(total as int) == listed);
            assert(seen =~= self@.pending_blocks()) by {
                assert forall|h: BlockHash| self@.pending(h) implies seen.contains(h) by {
                    assert(listed.contains(h));
                }
            }
        }
        n
    }

    /// The pending blocks whose parent is `parent`.
    fn pending_children(nodes: &OrdMap<BlockHash, Node>, parent: BlockHash) -> (r: Vec<BlockHash>)
        ensures
            r@.no_duplicates(),
            forall|h: BlockHash| #[trigger]
                r@.contains(h) <==> nodes@.contains_key(h) && (nodes@[h] matches Node::Pending(p)
                    && p.parent == parent),
    {
        let total: usize = nodes.len();
        let mut r: Vec<BlockHash> = Vec::new();
        let ghost listed = ascending(nodes@.dom());
        proof {
            lemma_walk(nodes@.dom());
        }
        for i in 0..total
            invariant
                total == nodes@.len(),
                listed == ascending(nodes@.dom()),
                lists(listed, nodes@.dom()),
                listed.len() == total,
                listed.no_duplicates(),
                r@.no_duplicates(),
                forall|h: BlockHash| #[trigger]
                    r@.contains(h) <==> listed.take(i as int).contains(h) && (
                    nodes@[h] matches Node::Pending(p) && p.parent == parent),
        {
            let ghost h = listed[i as int];
            proof {
                lemma_take_next(listed, i as int);
            }
            if let Node::Pending(pending) = nodes.value_at(i) {
                if pending.parent == parent {
                    let k = nodes.key_at(i);
                    let ghost held = r@;
                    r.push(k);
                    proof {
                        lemma_push_contains(held, h);
                    }
                }
            }
        }
        proof {
            assert(listed.take(total as int) =~= listed);
            assert forall|h: BlockHash| #[trigger] r@.contains(h) <==> nodes@.contains_key(h) && (
            nodes@[h] matches Node::Pending(p) && p.parent == parent) by {
                assert(listed.contains(h) <==> nodes@.dom().contains(h));
            }
        }
        r
    }

    /// Connects every pending block that waited for `newly_connected`, directly or through other
    /// pending blocks.
    fn promote_reachable(self, newly_connected: ConnectedHash) -> (r: BlocksGraph)
        requires
            self@.connected(newly_connected.0),
            !self@.has(self@.anchor),
            nodes_ok(self.nodes@, self.anchor),
        ensures
            r@ == self@.promoted(newly_connected.0),
            nodes_ok(r.nodes@, r.anchor),
    {
        let ghost m0 = self@;
        let ghost root = newly_connected.0;
        let anchor = self.anchor;
        let observed_head = self.observed_head;
        let mut nodes = self.nodes;
        let mut frontier: Vec<ConnectedHash> = Vec::new();
        frontier.push(newly_connected);
        proof {
            let m = model_of(anchor, nodes@, observed_head);
            assert(m == m0);
            assert(frontier@[0] == newly_connected);
            lemma_map_finite(nodes);
        }
        while frontier.len() > 0
            invariant
                m0.connected(root),
                m0.anchor == anchor,
                m0.head == observed_head,
                !m0.has(anchor),
                nodes_ok(nodes@, anchor),
                partly_promoted(m0, model_of(anchor, nodes@, observed_head), root),
                nodes@.dom().finite(),
                forall|x: BlockHash| #[trigger]
                    model_of(anchor, nodes@, observed_head).pending(x) && newly(
                        m0,
                        model_of(anchor, nodes@, observed_head),
                        root,
                        m0.parent_of(x),
                    ) ==> frontier@.contains(ConnectedHash(m0.parent_of(x))),
                forall|i: int|
                    0 <= i < frontier@.len() ==> newly(
                        m0,
                        model_of(anchor, nodes@, observed_head),
                        root,
                        (#[trigger] frontier@[i]).0,
                    ),
            decreases
                2 * model_of(anchor, nodes@, observed_head).pending_blocks().len()
                    + frontier@.len(),
        {
            let ghost held = frontier@;
            let parent = frontier.pop().unwrap();
            assert(held[held.len() - 1] == parent);
            let ghost m1 = model_of(anchor, nodes@, observed_head);
            let children = BlocksGraph::pending_children(&nodes, parent.0);
            let count: usize = children.len();
            proof {
                assert forall|x: BlockHash| #[trigger] m1.pending(x) && newly(
                    m0,
                    m1,
                    root,
                    m0.parent_of(x),
                ) implies (if m0.parent_of(x) == parent.0 {
                    children@.contains(x)
                } else {
                    frontier@.contains(ConnectedHash(m0.parent_of(x)))
                }) by {
                    let q = ConnectedHash(m0.parent_of(x));
                    let p = choose|p: int| 0 <= p < held.len() && held[p] == q;
                    if q != parent {
                        assert(frontier@[p] == q);
                    }
                }
                assert(children@.skip(0) =~= children@);
                assert forall|k: int| 0 <= k < count implies m1.pending(#[trigger] children@[k])
                    && m0.parent_of(children@[k]) == parent.0 by {
                    assert(children@.contains(children@[k]));
                }
            }
            for j in 0..count
                invariant
                    count == children@.len(),
                    children@.no_duplicates(),
                    m0.connected(root),
                    m0.anchor == anchor,
                    m0.head == observed_head,
                    !m0.has(anchor),
                    nodes_ok(nodes@, anchor),
                    nodes@.dom().finite(),
                    partly_promoted(m0, model_of(anchor, nodes@, observed_head), root),
                    newly(m0, model_of(anchor, nodes@, observed_head), root, parent.0),
                    forall|k: int|
                        j <= k < count ==> model_of(anchor, nodes@, observed_head).pending(
                            #[trigger] children@[k],
                        ) && m0.parent_of(children@[k]) == parent.0,
                    forall|x: BlockHash| #[trigger]
                        model_of(anchor, nodes@, observed_head).pending(x) && newly(
                            m0,
                            model_of(anchor, nodes@, observed_head),
                            root,
                            m0.parent_of(x),
                        ) ==> (if m0.parent_of(x) == parent.0 {
                            children@.skip(j as int).contains(x)
                        } else {
                            frontier@.contains(ConnectedHash(m0.parent_of(x)))
                        }),
                    forall|i: int|
                        0 <= i < frontier@.len() ==> newly(
                            m0,
                            model_of(anchor, nodes@, observed_head),
                            root,
                            (#[trigger] frontier@[i]).0,
                        ),
                    2 * model_of(anchor, nodes@, observed_head).pending_blocks().len()
                        + frontier@.len() < 2 * m1.pending_blocks().len() + held.len(),
            {
                let child = children[j];
                let ghost before = nodes@;
                let ghost mb = model_of(anchor, nodes@, observed_head);
                let ghost fb = frontier@;
                assert(mb.pending(child));
                let (rest, taken) = nodes.without(&child);
                nodes = rest;
                if let Some(Node::Pending(pending)) = taken {
                    nodes = nodes.with(
                        child,
                        Node::Connected(
                            ConnectedNode {
                                parent: AnchoredRef::Block(parent),
                                data: pending.data,
                            },
                        ),
                    );
                }
                frontier.push(ConnectedHash(child));
                proof {
                    let ma = model_of(anchor, nodes@, observed_head);
                    assert(nodes@.dom() =~= before.dom());
                    assert(mb.blocks.dom() =~= before.dom());
                    assert(ma.blocks =~= mb.blocks.insert(
                        child,
                        BlockModel { connected: true, ..mb.blocks[child] },
                    ));
                    lemma_promoted_one(m0, mb, ma, root, parent.0, child);
                    lemma_push_contains(fb, ConnectedHash(child));
                    assert forall|x: BlockHash| #[trigger] ma.pending(x) && newly(
                        m0,
                        ma,
                        root,
                        m0.parent_of(x),
                    ) implies (if m0.parent_of(x) == parent.0 {
                        children@.skip(j + 1).contains(x)
                    } else {
                        frontier@.contains(ConnectedHash(m0.parent_of(x)))
                    }) by {
                        assert(mb.pending(x) && x != child);
                        if m0.parent_of(x) == parent.0 {
                            let s = children@.skip(j as int);
                            let p = choose|p: int| 0 <= p < s.len() && s[p] == x;
                            assert(children@.skip(j + 1)[p - 1] == x);
                        } else if m0.parent_of(x) != child {
                            assert(newly(m0, mb, root, m0.parent_of(x)));
                        }
                    }
                    assert forall|k: int| j + 1 <= k < count implies ma.pending(
                        #[trigger] children@[k],
                    ) by {
                        assert(mb.pending(children@[k]));
                        assert(children@[k] != children@[j as int]);
                    }
                }
            }
            proof {
                assert(children@.skip(count as int).len() == 0);
            }
        }
        let r = BlocksGraph { anchor, nodes, observed_head };
        proof {
            lemma_promotion_done(m0, r@, root);
        }
        r
    }

    /// Admits a header's block, with the pending blocks capped at [`MAX_PENDING_BLOCKS`].
    pub fn with_block(self, hash: BlockHash, parent: BlockHash, number: u64, bloom: Bloom) -> (r: (
        BlocksGraph,
        Admission,
    ))
        requires
            self.wf(),
        ensures
            r.0.wf(),
            r.1 == self@.admission(hash, parent, MAX_PENDING_BLOCKS as nat),
            r.0@ == self@.with_offered(
                hash,
                parent,
                header_data(number, bloom@),
                MAX_PENDING_BLOCKS as nat,
            ),
    {
        self.with_block_capped(hash, parent, number, bloom, MAX_PENDING_BLOCKS)
    }

    /// Admits a header's block and drops the outcome: every refusal keeps the graph as it is.
    pub fn admitted(self, hash: BlockHash, parent: BlockHash, number: u64, bloom: Bloom) -> (r:
        BlocksGraph)
        requires
            self.wf(),
        ensures
            r.wf(),
            r@ == self@.with_offered(
                hash,
                parent,
                header_data(number, bloom@),
                MAX_PENDING_BLOCKS as nat,
            ),
    {
        self.with_block(hash, parent, number, bloom).0
    }

    /// Admits a header's block: its logs are unknown and its bloom is the header's.
    pub fn with_block_capped(
        self,
        hash: BlockHash,
        parent: BlockHash,
        number: u64,
        bloom: Bloom,
        max_pending: usize,
    ) -> (r: (BlocksGraph, Admission))
        requires
            self.wf(),
        ensures
            r.0.wf(),
            r.1 == self@.admission(hash, parent, max_pending as nat),
            r.0@ == self@.with_offered(
                hash,
                parent,
                header_data(number, bloom@),
                max_pending as nat,
            ),
    {
        let data = BlockData { number, logs_bloom: Some(bloom), logs: BlockLogs::Unknown };
        self.with_data_capped(hash, parent, data, max_pending)
    }

    /// Admits a block. It is connected when its parent is the anchor or connected, and everything
    /// that waited for it is connected with it; otherwise it is pending, unless the pending blocks
    /// are at their cap. A refused block leaves the graph unchanged.
    pub fn with_data_capped(
        self,
        hash: BlockHash,
        parent: BlockHash,
        data: BlockData,
        max_pending: usize,
    ) -> (r: (BlocksGraph, Admission))
        requires
            self.wf(),
        ensures
            r.0.wf(),
            r.1 == self@.admission(hash, parent, max_pending as nat),
            r.0@ == self@.with_offered(hash, parent, data@, max_pending as nat),
    {
        if hash == parent {
            return (self, Admission::SelfParent);
        }
        if hash == self.anchor {
            return (self, Admission::AnchorReadmit);
        }
        if let Some(existing) = self.nodes.get(&hash) {
            let existing_parent = self.node_parent_hash(existing);
            let admission = if existing_parent == parent {
                Admission::DuplicateBlock
            } else {
                Admission::ConflictingParent
            };
            return (self, admission);
        }
        let connects: bool = parent == self.anchor || self.connected(parent).is_some();
        if !connects && self.pending_count() >= max_pending {
            return (self, Admission::PendingBufferFull);
        }
        proof {
            lemma_admitted_wf(self@, hash, parent, data@);
        }
        let ghost before = self@;
        let ghost entered = self@.with_entry(hash, parent, data@);
        let anchor = self.anchor;
        let observed_head = self.observed_head;
        let nodes = self.nodes;
        if connects {
            let parent_ref = if parent == anchor {
                AnchoredRef::Anchor
            } else {
                AnchoredRef::Block(ConnectedHash(parent))
            };
            let nodes = nodes.with(
                hash,
                Node::Connected(ConnectedNode { parent: parent_ref, data }),
            );
            let graph = BlocksGraph { anchor, nodes, observed_head };
            assert(graph@.blocks =~= entered.blocks);
            assert(graph@ == entered);
            (graph.promote_reachable(ConnectedHash(hash)), Admission::Admitted)
        } else {
            let nodes = nodes.with(hash, Node::Pending(PendingNode { parent, data }));
            let graph = BlocksGraph { anchor, nodes, observed_head };
            assert(graph@.blocks =~= entered.blocks);
            assert(graph@ == entered);
            (graph, Admission::Admitted)
        }
    }

    /// The raw parent hash of a node.
    fn node_parent_hash(&self, node: &Node) -> (r: BlockHash)
        ensures
            r == node_model(*node, self.anchor).parent,
    {
        match node {
            Node::Connected(connected) => connected_parent_hash(&connected.parent, self.anchor),
            Node::Pending(pending) => pending.parent,
        }
    }

    /// A graph filled from a window of blocks that come without headers and with their full logs.
    /// Each block is admitted as a live one would be; refused ones are skipped.
    pub fn from_seed(
        anchor: BlockHash,
        blocks: Vec<(BlockHash, BlockHash, u64, Vec<PoolLog>)>,
    ) -> (r: BlocksGraph)
        ensures
            r.wf(),
            r@ == seeded(anchor, blocks@),
    {
        let mut graph = BlocksGraph::new(anchor);
        let n: usize = blocks.len();
        for i in 0..n
            invariant
                n == blocks@.len(),
                graph.wf(),
                graph@ == seeded(anchor, blocks@.take(i as int)),
        {
            proof {
                lemma_take_next(blocks@, i as int);
            }
            let block = &blocks[i];
            let data = BlockData {
                number: block.2,
                logs_bloom: None,
                logs: BlockLogs::Complete(key_by_log_index(block.3.as_slice())),
            };
            let (next, _) = graph.with_data_capped(block.0, block.1, data, MAX_PENDING_BLOCKS);
            graph = next;
        }
        assert(blocks@.take(n as int) =~= blocks@);
        graph
    }

    /// Records the head that the feed reported. A hash that is neither the anchor nor a block is
    /// ignored.
    pub fn with_observed_head(self, hash: BlockHash) -> (r: BlocksGraph)
        requires
            self.wf(),
        ensures
            r.wf(),
            r@ == self@.with_head(hash),
    {
        if hash == self.anchor || self.nodes.contains_key(&hash) {
            let ghost before = self@;
            let r = BlocksGraph { observed_head: hash, ..self };
            proof {
                assert(r@.blocks =~= before.blocks);
                crate::graph_lemmas::lemma_with_head_wf(before, hash);
            }
            r
        } else {
            self
        }
    }

    /// Replaces the logs of a present block.
    fn with_block_logs(self, hash: BlockHash, logs: BlockLogs) -> (r: BlocksGraph)
        requires
            self.wf(),
            self@.has(hash),
        ensures
            r.wf(),
            r@ == self@.with_logs(hash, logs@),
    {
        let ghost before = self@;
        proof {
            lemma_with_logs_wf(before, hash, logs@);
        }
        let anchor = self.anchor;
        let observed_head = self.observed_head;
        let (rest, taken) = self.nodes.without(&hash);
        let nodes = match taken {
            Some(Node::Connected(node)) => rest.with(
                hash,
                Node::Connected(
                    ConnectedNode {
                        parent: node.parent,
                        data: BlockData {
                            number: node.data.number,
                            logs_bloom: node.data.logs_bloom,
                            logs,
                        },
                    },
                ),
            ),
            Some(Node::Pending(node)) => rest.with(
                hash,
                Node::Pending(
                    PendingNode {
                        parent: node.parent,
                        data: BlockData {
                            number: node.data.number,
                            logs_bloom: node.data.logs_bloom,
                            logs,
                        },
                    },
                ),
            ),
            None => rest,
        };
        let r = BlocksGraph { anchor, nodes, observed_head };
        assert(r@.blocks =~= before.with_logs(hash, logs@).blocks);
        r
    }

    /// Merges best-effort logs into a present block: an unknown set becomes streamed, a streamed one
    /// grows, and an authoritative one stands.
    pub fn with_streamed_logs(self, hash: BlockHash, logs: Vec<PoolLog>) -> (r: BlocksGraph)
        requires
            self.wf(),
        ensures
            r.wf(),
            r@ == self@.with_streamed(hash, logs@),
    {
        let merged = match self.get(hash) {
            None => None,
            Some(data) => match &data.logs {
                BlockLogs::Complete(_) => None,
                BlockLogs::Streamed(existing) => Some(
                    BlockLogs::Streamed(extended(existing.copied(), logs.as_slice())),
                ),
                BlockLogs::Unknown => Some(BlockLogs::Streamed(key_by_log_index(logs.as_slice()))),
            },
        };
        match merged {
            Some(new_logs) => self.with_block_logs(hash, new_logs),
            None => {
                assert(self@.has(hash) ==> self@.with_streamed(hash, logs@).blocks
                    =~= self@.blocks);
                self
            },
        }
    }

    /// Records the authoritative logs of a present block, in place of whatever was known.
    pub fn with_complete_logs(self, hash: BlockHash, logs: Vec<PoolLog>) -> (r: BlocksGraph)
        requires
            self.wf(),
        ensures
            r.wf(),
            r@ == self@.with_complete(hash, logs@),
    {
        if self.nodes.contains_key(&hash) {
            let new_logs = BlockLogs::Complete(key_by_log_index(logs.as_slice()));
            self.with_block_logs(hash, new_logs)
        } else {
            self
        }
    }

    /// Whether authoritative logs name other indices than the streamed ones that a block holds.
    pub fn streamed_log_mismatch(&self, hash: BlockHash, logs: &[PoolLog]) -> (r: bool)
        ensures
            r == (self@.has(hash) && (self@.blocks[hash].data.logs matches LogsModel::Streamed(m)
                && m.dom() != keyed(logs@).dom())),
    {
        match self.get(hash) {
            None => false,
            Some(data) => match &data.logs {
                BlockLogs::Streamed(existing) => {
                    let incoming = key_by_log_index(logs);
                    !existing.same_keys(&incoming)
                },
                _ => false,
            },
        }
    }

    /// The canonical chain from the anchor's child to the head, oldest first; empty while the head
    /// is not connected.
    pub fn canonical_hashes(&self) -> (r: Vec<BlockHash>)
        requires
            self.wf(),
        ensures
            r@ == self@.canonical(),
    {
        self.connected_oldest_to_newest(self.observed_head)
    }

    /// The connected chain from the anchor's child to `target`, oldest first.
    pub fn connected_oldest_to_newest(&self, target: BlockHash) -> (r: Vec<BlockHash>)
        requires
            self.wf(),
        ensures
            r@ == self@.chain_to(target),
    {
        let ghost m = self@;
        if self.connected(target).is_none() {
            let r: Vec<BlockHash> = Vec::new();
            assert(r@ =~= m.chain_to(target));
            return r;
        }
        let mut newest_first: Vec<BlockHash> = Vec::new();
        let mut current = target;
        proof {
            lemma_depth(m, target);
        }
        while self.connected(current).is_some()
            invariant
                self.wf(),
                m == self@,
                m.connected(target),
                newest_first@.len() <= m.depth(target),
                current == m.ancestor(target, newest_first@.len()),
                m.connected(current) <==> newest_first@.len() < m.depth(target),
                forall|i: int|
                    0 <= i < newest_first@.len() ==> #[trigger] newest_first@[i] == m.ancestor(
                        target,
                        i as nat,
                    ),
            decreases m.depth(target) - newest_first@.len(),
        {
            newest_first.push(current);
            let ghost n = newest_first@.len();
            if let Some(node) = self.connected(current) {
                current = connected_parent_hash(&node.parent, self.anchor);
            }
            proof {
                assert(m.ancestor(target, n) == m.parent_of(m.ancestor(target, (n - 1) as nat)));
                lemma_depth(m, target);
                if n < m.depth(target) {
                    lemma_depth_along(m, target, n);
                } else {
                    assert(m.ancestor(target, n) == m.anchor);
                }
            }
        }
        let mut r: Vec<BlockHash> = Vec::new();
        let n: usize = newest_first.len();
        for i in 0..n
            invariant
                n == newest_first@.len(),
                n == m.depth(target),
                m.connected(target),
                r@.len() == i,
                forall|k: int|
                    0 <= k < n ==> #[trigger] newest_first@[k] == m.ancestor(target, k as nat),
                forall|k: int| 0 <= k < i ==> #[trigger] r@[k] == m.chain_to(target)[k],
        {
            r.push(newest_first[n - 1 - i]);
        }
        assert(r@ =~= m.chain_to(target));
        r
    }

    /// The parents that pending blocks wait for and that are not in the graph, in order.
    pub fn missing_parents(&self) -> (r: Vec<BlockHash>)
        ensures
            r@ == ascending(self@.absent_parents()),
            self@.absent_parents().finite(),
    {
        let ghost m = self@;
        let mut missing: OrdSet<BlockHash> = OrdSet::new();
        let total: usize = self.nodes.len();
        let ghost listed = ascending(self.nodes@.dom());
        proof {
            lemma_walk(self.nodes@.dom());
        }
        for i in 0..total
            invariant
                m == self@,
                total == self.nodes@.len(),
                listed == ascending(self.nodes@.dom()),
                lists(listed, self.nodes@.dom()),
                listed.len() == total,
                forall|p: BlockHash| #[trigger]
                    missing@.contains(p) <==> p != m.anchor && !m.has(p) && exists|h: BlockHash|
                        #[trigger] m.pending(h) && m.parent_of(h) == p && listed.take(
                            i as int,
                        ).contains(h),
        {
            let ghost h = listed[i as int];
            let ghost before = missing@;
            proof {
                lemma_take_next(listed, i as int);
            }
            if let Node::Pending(pending) = self.nodes.value_at(i) {
                if pending.parent != self.anchor && !self.nodes.contains_key(&pending.parent) {
                    missing = missing.with(pending.parent);
                }
            }
            proof {
                assert forall|p: BlockHash| #[trigger] missing@.contains(p) <==> p != m.anchor
                    && !m.has(p) && exists|x: BlockHash| #[trigger]
                    m.pending(x) && m.parent_of(x) == p && listed.take(i + 1).contains(x) by {
                    if before.contains(p) {
                        let x = choose|x: BlockHash| #[trigger]
                            m.pending(x) && m.parent_of(x) == p && listed.take(i as int).contains(
                                x,
                            );
                        assert(m.pending(x) && listed.take(i + 1).contains(x));
                    }
                    if missing@.contains(p) && !before.contains(p) {
                        assert(m.pending(h) && listed.take(i + 1).contains(h));
                    }
                    if p != m.anchor && !m.has(p) && exists|x: BlockHash| #[trigger]
                        m.pending(x) && m.parent_of(x) == p && listed.take(i + 1).contains(x) {
                        let x = choose|x: BlockHash| #[trigger]
                            m.pending(x) && m.parent_of(x) == p && listed.take(i + 1).contains(x);
                        if x != h {
                            assert(listed.take(i as int).contains(x));
                        }
                    }
                }
            }
        }
        proof {
            assert(listed.take(total as int) =~= listed);
            assert(missing@ =~= m.absent_parents()) by {
                assert forall|p: BlockHash| missing@.contains(p) <==> m.absent_parents().contains(
                    p,
                ) by {
                    if m.absent_parents().contains(p) {
                        let x = choose|x: BlockHash| #[trigger] m.pending(x) && m.parent_of(x) == p;
                        assert(listed.contains(x));
                    }
                }
            }
        }
        let _ = missing.len();
        missing.items()
    }

    /// The present blocks from the head downwards, newest first, connected or pending, up to the
    /// anchor or the first absent block. Pending parents may run in a circle; the walk is empty then.
    pub fn present_chain_from_head(&self) -> (r: Vec<BlockHash>)
        ensures
            r@ == self@.present_chain(),
    {
        let ghost m = self@;
        let mut chain: Vec<BlockHash> = Vec::new();
        let mut current = self.observed_head;
        let mut visited: OrdSet<BlockHash> = OrdSet::new();
        proof {
            lemma_map_finite(self.nodes);
        }
        while current != self.anchor
            invariant
                m == self@,
                self.nodes@.dom().finite(),
                current == m.ancestor(m.head, chain@.len()),
                chain@.len() == visited@.len(),
                visited@.finite(),
                visited@.subset_of(self.nodes@.dom()),
                forall|h: BlockHash| #[trigger] visited@.contains(h) <==> chain@.contains(h),
                forall|i: int|
                    0 <= i < chain@.len() ==> #[trigger] chain@[i] == m.ancestor(m.head, i as nat),
                forall|i: nat|
                    i < chain@.len() ==> !#[trigger] m.stops_at(m.ancestor(m.head, i)),
            decreases self.nodes@.dom().len() - visited@.len(),
        {
            let ghost n = chain@.len();
            if visited.contains(&current) {
                proof {
                    let i = choose|i: int| 0 <= i < chain@.len() && chain@[i] == current;
                    lemma_circle_walks_forever(m, m.head, i as nat, n);
                }
                return Vec::new();
            }
            match self.nodes.get(&current) {
                None => {
                    proof {
                        assert(m.walks(m.head, n));
                        lemma_present_chain(m, n);
                        assert(chain@ =~= m.present_chain());
                    }
                    return chain;
                },
                Some(node) => {
                    let ghost before = chain@;
                    chain.push(current);
                    visited = visited.with(current);
                    proof {
                        lemma_push_contains(before, current);
                        vstd::set_lib::lemma_len_subset(visited@, self.nodes@.dom());
                        assert(m.has(current));
                        assert(m.ancestor(m.head, n + 1) == m.parent_of(m.ancestor(m.head, n)));
                    }
                    current = self.node_parent_hash(node);
                },
            }
        }
        proof {
            assert(m.walks(m.head, chain@.len()));
            lemma_present_chain(m, chain@.len());
            assert(chain@ =~= m.present_chain());
        }
        chain
    }

    /// How many present blocks separate the head from `reference`, which is not counted; `None` when
    /// the walk down from the head does not come to it.
    pub fn distance_from_head(&self, reference: BlockHash) -> (r: Option<usize>)
        ensures
            match r {
                Some(n) => self@.distance(reference) == Some(n as nat),
                None => self@.distance(reference) is None,
            },
    {
        let ghost m = self@;
        let mut current = self.observed_head;
        let mut distance: usize = 0;
        let mut visited: OrdSet<BlockHash> = OrdSet::new();
        let ghost mut chain: Seq<BlockHash> = Seq::empty();
        let total: usize = self.nodes.len();
        while current != reference
            invariant
                m == self@,
                total == self.nodes@.dom().len(),
                self.nodes@.dom().finite(),
                distance == chain.len(),
                current == m.ancestor(m.head, chain.len()),
                chain.len() == visited@.len(),
                visited@.finite(),
                visited@.subset_of(self.nodes@.dom()),
                forall|h: BlockHash| #[trigger] visited@.contains(h) <==> chain.contains(h),
                forall|i: int|
                    0 <= i < chain.len() ==> #[trigger] chain[i] == m.ancestor(m.head, i as nat),
                forall|i: nat|
                    i < chain.len() ==> #[trigger] m.has(m.ancestor(m.head, i)) && m.ancestor(
                        m.head,
                        i,
                    ) != reference,
            decreases self.nodes@.dom().len() - visited@.len(),
        {
            let ghost n = chain.len();
            if visited.contains(&current) {
                proof {
                    let i = choose|i: int| 0 <= i < chain.len() && chain[i] == current;
                    assert forall|k: nat| !m.at_distance(reference, k) by {
                        let p = crate::graph_lemmas::lemma_circle(m, m.head, i as nat, n, k);
                        assert(m.has(m.ancestor(m.head, p)));
                    }
                }
                return None;
            }
            match self.nodes.get(&current) {
                None => {
                    proof {
                        assert forall|k: nat| !m.at_distance(reference, k) by {
                            if k < n {
                                assert(m.has(m.ancestor(m.head, k)));
                            } else if k > n {
                                assert(!m.has(m.ancestor(m.head, n)));
                            }
                        }
                    }
                    return None;
                },
                Some(node) => {
                    proof {
                        lemma_push_contains(chain, current);
                        assert(m.has(current));
                        assert(m.ancestor(m.head, n + 1) == m.parent_of(m.ancestor(m.head, n)));
                        vstd::set_lib::lemma_len_subset(
                            visited@.insert(current),
                            self.nodes@.dom(),
                        );
                        assert forall|i: nat| i < n + 1 implies #[trigger] m.has(
                            m.ancestor(m.head, i),
                        ) && m.ancestor(m.head, i) != reference by {
                            if i < n {
                                assert(chain[i as int] == m.ancestor(m.head, i));
                            }
                        }
                        chain = chain.push(current);
                    }
                    visited = visited.with(current);
                    distance = distance + 1;
                    current = self.node_parent_hash(node);
                },
            }
        }
        proof {
            let n = chain.len();
            assert(m.ancestor(m.head, n) == reference);
            assert forall|i: nat| i < n implies #[trigger] m.has(m.ancestor(m.head, i))
                && m.ancestor(m.head, i) != reference by {
                assert(chain[i as int] == m.ancestor(m.head, i));
            }
            assert(m.at_distance(reference, n));
            lemma_distance(m, reference, n);
        }
        Some(distance)
    }

    /// Every block of the graph.
    pub fn node_hashes(&self) -> (r: OrdSet<BlockHash>)
        ensures
            r@ == self@.blocks.dom(),
    {
        let keys = self.nodes.keys();
        let r = OrdSet::from_items(keys);
        proof {
            lemma_map_finite(self.nodes);
            lemma_walk(self.nodes@.dom());
            assert(r@ =~= self@.blocks.dom()) by {
                assert forall|h: BlockHash| r@.contains(h) <==> self@.blocks.dom().contains(h) by {
                    assert(keys@.contains(h) <==> self.nodes@.dom().contains(h));
                }
            }
        }
        r
    }

    /// The finalized anchor.
    pub fn anchor_hash(&self) -> (r: BlockHash)
        ensures
            r == self@.anchor,
    {
        self.anchor
    }

    /// The head that the feed reported last.
    pub fn observed_head_hash(&self) -> (r: BlockHash)
        ensures
            r == self@.head,
    {
        self.observed_head
    }

    /// Whether `hash` is a block of the graph; the anchor is none.
    pub fn contains(&self, hash: BlockHash) -> (r: bool)
        ensures
            r == self@.has(hash),
    {
        self.nodes.contains_key(&hash)
    }

    /// Whether the graph holds no block but the anchor.
    pub fn is_empty(&self) -> (r: bool)
        ensures
            r == (self@.blocks.dom() == Set::<BlockHash>::empty()),
    {
        proof {
            assert(self@.blocks.dom() =~= self.nodes@.dom());
        }
        self.nodes.is_empty()
    }

    /// The node of a present block.
    pub fn node(&self, hash: BlockHash) -> (r: Option<&Node>)
        ensures
            match r {
                Some(node) => self@.has(hash) && self@.blocks[hash] == node_model(
                    *node,
                    self@.anchor,
                ),
                None => !self@.has(hash),
            },
    {
        self.nodes.get(&hash)
    }

    /// The raw parent hash of a present block.
    pub fn parent_hash(&self, hash: BlockHash) -> (r: Option<BlockHash>)
        ensures
            r == (if self@.has(hash) {
                Some(self@.parent_of(hash))
            } else {
                None
            }),
    {
        match self.nodes.get(&hash) {
            Some(node) => Some(self.node_parent_hash(node)),
            None => None,
        }
    }

    /// The blocks without authoritative logs whose bloom may carry a log of a watched address. Of the
    /// other blocks no question depends on the bloom, so their blooms are not read.
    pub fn undecided_blocks(&self, watched: &OrdSet<Address>) -> (r: OrdSet<BlockHash>)
        ensures
            r@ == self@.undecided(self@.touching(watched@)),
    {
        let ghost m = self@;
        let mut r: OrdSet<BlockHash> = OrdSet::new();
        let total: usize = self.nodes.len();
        let ghost listed = ascending(self.nodes@.dom());
        proof {
            lemma_walk(self.nodes@.dom());
        }
        for i in 0..total
            invariant
                m == self@,
                total == self.nodes@.len(),
                listed == ascending(self.nodes@.dom()),
                lists(listed, self.nodes@.dom()),
                listed.len() == total,
                forall|h: BlockHash| #[trigger]
                    r@.contains(h) <==> listed.take(i as int).contains(h) && !(
                    m.blocks[h].data.logs is Complete) && may_touch(
                        m.blocks[h].data.bloom,
                        watched@,
                    ),
        {
            proof {
                lemma_take_next(listed, i as int);
            }
            let data = match self.nodes.value_at(i) {
                Node::Connected(node) => &node.data,
                Node::Pending(node) => &node.data,
            };
            if !matches!(data.logs, BlockLogs::Complete(_)) && bloom_may_touch(
                data.logs_bloom,
                watched,
            ) {
                r = r.with(self.nodes.key_at(i));
            }
        }
        proof {
            assert(listed.take(total as int) =~= listed);
            assert forall|h: BlockHash|
                r@.contains(h) <==> m.undecided(m.touching(watched@)).contains(h) by {
                assert(listed.contains(h) <==> self.nodes@.dom().contains(h));
            }
            assert(r@ =~= m.undecided(m.touching(watched@)));
        }
        r
    }

    /// The present blocks of which nothing was delivered and whose bloom may carry a log of a
    /// trusted address, newest first: at least `min_depth` below the head, and not excluded.
    pub fn unknown_log_hole_hashes(
        &self,
        trusted: &OrdSet<Address>,
        exclude: &OrdSet<BlockHash>,
        min_depth: usize,
    ) -> (r: Vec<BlockHash>)
        ensures
            r@ == self@.unknown_holes(self@.touching(trusted@), exclude@, min_depth as nat),
    {
        let undecided = self.undecided_blocks(trusted);
        proof {
            lemma_undecided(self@, self@.touching(trusted@), exclude@, Set::empty());
        }
        self.unknown_log_holes_among(&undecided, exclude, min_depth)
    }

    /// [`BlocksGraph::unknown_log_hole_hashes`] for a given set of blocks that may matter.
    pub fn unknown_log_holes_among(
        &self,
        touching: &OrdSet<BlockHash>,
        exclude: &OrdSet<BlockHash>,
        min_depth: usize,
    ) -> (r: Vec<BlockHash>)
        ensures
            r@ == self@.unknown_holes(touching@, exclude@, min_depth as nat),
    {
        let ghost m = self@;
        let chain = self.present_chain_from_head();
        let mut r: Vec<BlockHash> = Vec::new();
        let n: usize = chain.len();
        if min_depth > n {
            return r;
        }
        let ghost rest = chain@.skip(min_depth as int);
        let ghost test = m.unknown_test(touching@, exclude@);
        proof {
            lemma_present_chain_present(m);
            lemma_filter_none(rest, test);
        }
        for i in min_depth..n
            invariant
                m == self@,
                n == chain@.len(),
                min_depth <= n,
                rest == chain@.skip(min_depth as int),
                test == m.unknown_test(touching@, exclude@),
                forall|k: int| 0 <= k < chain@.len() ==> m.has(#[trigger] chain@[k]),
                r@ == rest.take(i - min_depth).filter(test),
        {
            let hash = chain[i];
            proof {
                assert(rest[i - min_depth] == hash);
                lemma_filter_next(rest, i - min_depth, test);
                assert(m.has(chain@[i as int]));
            }
            if let Some(data) = self.get(hash) {
                if matches!(data.logs, BlockLogs::Unknown) && !exclude.contains(&hash)
                    && touching.contains(&hash) {
                    r.push(hash);
                }
            }
        }
        assert(rest.take(n - min_depth) =~= rest);
        r
    }

    /// The present blocks that still lack authoritative logs, newest first, but for the excluded
    /// ones. With a trusted set, only those whose bloom may carry a log of a trusted address;
    /// without one, all of them.
    pub fn unresolved_log_request_hashes(
        &self,
        trusted: Option<&OrdSet<Address>>,
        exclude: &OrdSet<BlockHash>,
    ) -> (r: Vec<BlockHash>)
        ensures
            r@ == self@.unresolved(
                match trusted {
                    Some(addresses) => Some(self@.touching(addresses@)),
                    None => None,
                },
                exclude@,
            ),
    {
        match trusted {
            Some(addresses) => {
                let undecided = self.undecided_blocks(addresses);
                proof {
                    lemma_undecided(self@, self@.touching(addresses@), exclude@, Set::empty());
                }
                self.unresolved_logs_among(Some(&undecided), exclude)
            },
            None => self.unresolved_logs_among(None, exclude),
        }
    }

    /// [`BlocksGraph::unresolved_log_request_hashes`] for a given set of blocks that may matter.
    pub fn unresolved_logs_among(
        &self,
        touching: Option<&OrdSet<BlockHash>>,
        exclude: &OrdSet<BlockHash>,
    ) -> (r: Vec<BlockHash>)
        ensures
            r@ == self@.unresolved(
                match touching {
                    Some(blocks) => Some(blocks@),
                    None => None,
                },
                exclude@,
            ),
    {
        let ghost m = self@;
        let ghost touch = match touching {
            Some(blocks) => Some(blocks@),
            None => None,
        };
        let chain = self.present_chain_from_head();
        let mut r: Vec<BlockHash> = Vec::new();
        let n: usize = chain.len();
        let ghost test = m.unresolved_test(touch, exclude@);
        proof {
            lemma_present_chain_present(m);
            lemma_filter_none(chain@, test);
        }
        for i in 0..n
            invariant
                m == self@,
                n == chain@.len(),
                touch == (match touching {
                    Some(blocks) => Some(blocks@),
                    None => None,
                }),
                test == m.unresolved_test(touch, exclude@),
                forall|k: int| 0 <= k < chain@.len() ==> m.has(#[trigger] chain@[k]),
                r@ == chain@.take(i as int).filter(test),
        {
            let hash = chain[i];
            proof {
                lemma_filter_next(chain@, i as int, test);
                assert(m.has(chain@[i as int]));
            }
            let concerned: bool = match touching {
                Some(blocks) => blocks.contains(&hash),
                None => true,
            };
            if let Some(data) = self.get(hash) {
                if !matches!(data.logs, BlockLogs::Complete(_)) && !exclude.contains(&hash)
                    && concerned {
                    r.push(hash);
                }
            }
        }
        assert(chain@.take(n as int) =~= chain@);
        r
    }

    /// The pools named by stored logs on the present chain, newest block first, one set for each
    /// block that names any. Streamed logs count like authoritative ones.
    pub fn pool_log_candidates_from_head(&self) -> (r: Vec<(BlockHash, OrdSet<ProtocolPoolKey>)>)
        ensures
            candidates_view(r@) == self@.candidates(),
    {
        let ghost m = self@;
        let chain = self.present_chain_from_head();
        let mut r: Vec<(BlockHash, OrdSet<ProtocolPoolKey>)> = Vec::new();
        let n: usize = chain.len();
        proof {
            lemma_present_chain_present(m);
            assert(candidates_view(r@) =~= m.candidates_along(chain@.take(0)));
        }
        for i in 0..n
            invariant
                m == self@,
                n == chain@.len(),
                forall|k: int| 0 <= k < chain@.len() ==> m.has(#[trigger] chain@[k]),
                candidates_view(r@) == m.candidates_along(chain@.take(i as int)),
        {
            let hash = chain[i];
            proof {
                lemma_take_next(chain@, i as int);
                assert(m.has(chain@[i as int]));
            }
            if let Some(data) = self.get(hash) {
                let pools = data.logs.named();
                if !pools.is_empty() {
                    let ghost before = r@;
                    r.push((hash, pools));
                    assert(candidates_view(r@) =~= candidates_view(before).push((hash, pools@)));
                }
            }
        }
        assert(chain@.take(n as int) =~= chain@);
        r
    }

    /// The ranges of block numbers on the path to `target` whose logs must be fetched before the
    /// path can be folded: blocks without authoritative logs that may touch a watched address and
    /// whose number is not excluded, grouped into ranges of successive numbers.
    pub fn missing_complete_ranges(
        &self,
        target: ConnectedHash,
        watched: &OrdSet<Address>,
        exclude_numbers: &OrdSet<u64>,
    ) -> (r: Vec<MissingRange>)
        requires
            self.wf(),
        ensures
            ranges_view(r@) == self@.grouped(
                self@.holes(target.0, self@.touching(watched@), exclude_numbers@),
            ),
    {
        let undecided = self.undecided_blocks(watched);
        proof {
            lemma_undecided(self@, self@.touching(watched@), Set::empty(), exclude_numbers@);
        }
        self.missing_ranges_among(target, &undecided, exclude_numbers)
    }

    /// [`BlocksGraph::missing_complete_ranges`] for a given set of blocks that may matter.
    pub fn missing_ranges_among(
        &self,
        target: ConnectedHash,
        touching: &OrdSet<BlockHash>,
        exclude_numbers: &OrdSet<u64>,
    ) -> (r: Vec<MissingRange>)
        requires
            self.wf(),
        ensures
            ranges_view(r@) == self@.grouped(
                self@.holes(target.0, touching@, exclude_numbers@),
            ),
    {
        let ghost m = self@;
        let chain = self.connected_oldest_to_newest(target.0);
        let mut ranges: Vec<MissingRange> = Vec::new();
        let n: usize = chain.len();
        let ghost test = m.hole_test(touching@, exclude_numbers@);
        proof {
            lemma_chain(m, target.0);
            lemma_filter_none(chain@, test);
            assert(ranges_view(ranges@) =~= m.grouped(Seq::empty()));
        }
        for i in 0..n
            invariant
                m == self@,
                n == chain@.len(),
                test == m.hole_test(touching@, exclude_numbers@),
                forall|k: int| 0 <= k < chain@.len() ==> m.connected(#[trigger] chain@[k]),
                ranges_view(ranges@) == m.grouped(chain@.take(i as int).filter(test)),
        {
            let hash = chain[i];
            let ghost holes_before = chain@.take(i as int).filter(test);
            let ghost holes_after = chain@.take(i + 1).filter(test);
            proof {
                lemma_filter_next(chain@, i as int, test);
                assert(m.connected(chain@[i as int]));
            }
            if let Some(data) = self.get(hash) {
                let is_hole: bool = !matches!(data.logs, BlockLogs::Complete(_))
                    && touching.contains(&hash) && !exclude_numbers.contains(&data.number);
                if is_hole {
                    proof {
                        assert(holes_after.drop_last() =~= holes_before);
                    }
                    let ghost before = ranges@;
                    let extends: bool = match ranges.last() {
                        Some(last) => last.to < data.number && data.number - last.to == 1,
                        None => false,
                    };
                    if extends {
                        let last = ranges.pop().unwrap();
                        let from: u64 = last.from;
                        let mut hashes = last.hashes;
                        hashes.push(hash);
                        ranges.push(MissingRange { from, to: data.number, hashes });
                        proof {
                            assert(before.last()@ == ranges_view(before).last());
                            assert(ranges_view(ranges@) =~= m.grouped(holes_after));
                        }
                    } else {
                        let mut hashes: Vec<BlockHash> = Vec::new();
                        hashes.push(hash);
                        ranges.push(MissingRange { from: data.number, to: data.number, hashes });
                        proof {
                            assert(hashes@ =~= seq![hash]);
                            if before.len() > 0 {
                                assert(before.last()@ == ranges_view(before).last());
                            }
                            assert(ranges_view(ranges@) =~= m.grouped(holes_after));
                        }
                    }
                }
            }
        }
        assert(chain@.take(n as int) =~= chain@);
        ranges
    }

    /// The ranges to fetch before `target` can become the anchor; none when it is not on the
    /// canonical chain, so that a target that finalization ignores causes no fetches either.
    pub fn missing_complete_ranges_to(
        &self,
        target: BlockHash,
        verified: &OrdSet<PoolRef>,
        v4_manager: Option<Address>,
        exclude_numbers: &OrdSet<u64>,
    ) -> (r: Vec<MissingRange>)
        requires
            self.wf(),
        ensures
            ranges_view(r@) == (if self@.finalizable(target) {
                self@.grouped(
                    self@.holes(
                        target,
                        self@.touching(watched_by(verified@, v4_manager)),
                        exclude_numbers@,
                    ),
                )
            } else {
                Seq::empty()
            }),
    {
        if !self.is_finalizable(target) {
            let r: Vec<MissingRange> = Vec::new();
            assert(ranges_view(r@) =~= Seq::empty());
            return r;
        }
        let watched = watched_addresses(verified, v4_manager);
        self.missing_complete_ranges(ConnectedHash(target), &watched, exclude_numbers)
    }

    /// Whether `target` is a block of the canonical chain.
    pub(crate) fn is_finalizable(&self, target: BlockHash) -> (r: bool)
        requires
            self.wf(),
        ensures
            r == self@.finalizable(target),
    {
        if self.connected(target).is_none() {
            return false;
        }
        let canonical = self.canonical_hashes();
        let n: usize = canonical.len();
        for i in 0..n
            invariant
                n == canonical@.len(),
                canonical@ == self@.canonical(),
                self@.connected(target),
                forall|k: int| 0 <= k < i ==> canonical@[k] != target,
        {
            if canonical[i] == target {
                assert(canonical@.contains(target));
                return true;
            }
        }
        false
    }

    /// A well-formed graph has a well-formed model.
    pub proof fn lemma_wf(self)
        requires
            self.wf(),
        ensures
            self@.wf(),
    {
    }

    /// Whether `start` is connected and its connected ancestors come to `ancestor`.
    fn connected_descends_from(&self, start: BlockHash, ancestor: BlockHash) -> (r: bool)
        requires
            self.wf(),
            self@.connected(start),
            self@.connected(ancestor),
        ensures
            r == exists|n: nat| self@.descends_in(start, n, ancestor),
    {
        let ghost m = self@;
        let mut current = start;
        let ghost mut steps: nat = 0;
        proof {
            lemma_depth(m, start);
        }
        while current != ancestor
            invariant
                self.wf(),
                m == self@,
                m.connected(start),
                m.connected(ancestor),
                m.connected(current),
                steps < m.depth(start),
                current == m.ancestor(start, steps),
                forall|i: nat| i < steps ==> #[trigger] m.ancestor(start, i) != ancestor,
            decreases m.depth(start) - steps,
        {
            proof {
                lemma_depth(m, start);
                lemma_depth_along(m, start, steps);
                lemma_depth(m, current);
                assert(m.ancestor(start, steps + 1) == m.parent_of(m.ancestor(start, steps)));
            }
            match self.connected(current) {
                Some(node) => match node.parent {
                    AnchoredRef::Anchor => {
                        proof {
                            assert forall|n: nat| !m.descends_in(start, n, ancestor) by {
                                if n > steps + 1 {
                                    assert(!m.connected(m.ancestor(start, steps + 1)));
                                }
                            }
                        }
                        return false;
                    },
                    AnchoredRef::Block(ConnectedHash(parent)) => {
                        proof {
                            assert(self.nodes@.contains_key(current));
                            assert(parent != m.anchor);
                            steps = steps + 1;
                        }
                        current = parent;
                    },
                },
                None => {
                    return false;
                },
            }
        }
        proof {
            lemma_depth(m, start);
            assert(m.descends_in(start, steps, ancestor)) by {
                assert forall|i: nat| i < steps implies #[trigger] m.connected(
                    m.ancestor(start, i),
                ) by {
                    lemma_depth_along(m, start, i);
                }
            }
        }
        true
    }

    /// Moves the anchor to `new_anchor`: folds the path to it into the base, keeps its connected
    /// descendants and drops every other block. The caller picks a `new_anchor` whose path can be
    /// folded.
    pub fn reanchored_to(
        self,
        new_anchor: ConnectedHash,
        base: &OrdMap<PoolRef, PoolState>,
        verified: &OrdSet<PoolRef>,
    ) -> (r: (BlocksGraph, OrdMap<PoolRef, PoolState>))
        requires
            self.wf(),
            new_anchor.0 == self@.anchor || self@.connected(new_anchor.0),
        ensures
            r.0.wf(),
            r.0@ == self@.reanchored(new_anchor.0),
            r.1@ == (if new_anchor.0 == self@.anchor {
                base@
            } else {
                self@.folded(base@, verified@, new_anchor.0, Authority::RequireComplete)
            }),
    {
        let root = new_anchor.0;
        if root == self.anchor {
            return (self, base.copied());
        }
        let snapshot = self.folded_pool_states(
            base,
            verified,
            new_anchor,
            Authority::RequireComplete,
        );
        let ghost m = self@;
        let retained = self.surviving_blocks(root);
        let observed_head = self.observed_head;
        let ghost old_anchor = self.anchor;
        let mut rest = self.nodes;
        let ghost all = rest@;
        let mut nodes: OrdMap<BlockHash, Node> = OrdMap::new();
        let count: usize = retained.len();
        proof {
            assert forall|k: int| 0 <= k < count implies rest@.contains_key(
                #[trigger] retained@[k],
            ) by {
                assert(retained@.contains(retained@[k]));
            }
        }
        for i in 0..count
            invariant
                count == retained@.len(),
                retained@.no_duplicates(),
                m.wf(),
                m.anchor == old_anchor,
                m.connected(root),
                m.blocks == nodes_model(all, old_anchor),
                nodes_ok(all, old_anchor),
                forall|h: BlockHash| #[trigger] retained@.contains(h) <==> m.survives(h, root),
                forall|k: int|
                    i <= k < count ==> rest@.contains_key(#[trigger] retained@[k])
                        && rest@[retained@[k]] == all[retained@[k]],
                forall|h: BlockHash| #[trigger]
                    nodes@.contains_key(h) <==> retained@.take(i as int).contains(h),
                forall|h: BlockHash|
                    nodes@.contains_key(h) ==> node_model(#[trigger] nodes@[h], root)
                        == m.blocks[h] && node_ok(nodes@[h], root),
        {
            let hash = retained[i];
            let ghost before = nodes@;
            proof {
                lemma_take_next(retained@, i as int);
                assert(retained@.contains(hash));
                lemma_survivor_parent(m, hash, root);
                assert(rest@.contains_key(retained@[i as int]));
            }
            let (others, taken) = rest.without(&hash);
            rest = others;
            if let Some(Node::Connected(node)) = taken {
                let parent = match node.parent {
                    AnchoredRef::Block(ConnectedHash(parent)) => if parent == root {
                        AnchoredRef::Anchor
                    } else {
                        node.parent
                    },
                    AnchoredRef::Anchor => node.parent,
                };
                nodes = nodes.with(
                    hash,
                    Node::Connected(ConnectedNode { parent, data: node.data }),
                );
            }
            proof {
                assert forall|k: int| i + 1 <= k < count implies rest@.contains_key(
                    #[trigger] retained@[k],
                ) && rest@[retained@[k]] == all[retained@[k]] by {
                    assert(retained@[k] != retained@[i as int]);
                }
            }
        }
        proof {
            assert(retained@.take(count as int) =~= retained@);
            lemma_reanchored_wf(m, root);
        }
        let head = if observed_head == root || nodes.contains_key(&observed_head) {
            observed_head
        } else {
            root
        };
        let r = BlocksGraph { anchor: root, nodes, observed_head: head };
        proof {
            assert(r@.blocks =~= m.reanchored(root).blocks);
        }
        (r, snapshot)
    }

    /// The blocks that stay when the anchor moves to `root`.
    fn surviving_blocks(&self, root: BlockHash) -> (r: Vec<BlockHash>)
        requires
            self.wf(),
            self@.connected(root),
        ensures
            r@.no_duplicates(),
            forall|h: BlockHash| #[trigger] r@.contains(h) <==> self@.survives(h, root),
    {
        let ghost m = self@;
        let total: usize = self.nodes.len();
        let mut r: Vec<BlockHash> = Vec::new();
        let ghost listed = ascending(self.nodes@.dom());
        proof {
            lemma_walk(self.nodes@.dom());
        }
        for i in 0..total
            invariant
                self.wf(),
                m == self@,
                m.connected(root),
                total == self.nodes@.len(),
                listed == ascending(self.nodes@.dom()),
                lists(listed, self.nodes@.dom()),
                listed.len() == total,
                listed.no_duplicates(),
                r@.no_duplicates(),
                forall|h: BlockHash| #[trigger]
                    r@.contains(h) <==> listed.take(i as int).contains(h) && m.survives(h, root),
        {
            let hash = self.nodes.key_at(i);
            let ghost held = r@;
            proof {
                lemma_take_next(listed, i as int);
                lemma_push_contains(held, hash);
            }
            if hash != root && self.connected(hash).is_some() && self.connected_descends_from(
                hash,
                root,
            ) {
                r.push(hash);
            }
        }
        proof {
            assert(listed.take(total as int) =~= listed);
            assert forall|h: BlockHash| #[trigger] r@.contains(h) <==> m.survives(h, root) by {
                assert(listed.contains(h) <==> self.nodes@.dom().contains(h));
            }
        }
        r
    }

    /// A present block's payload.
    pub fn get(&self, hash: BlockHash) -> (r: Option<&BlockData>)
        ensures
            match r {
                Some(data) => self@.has(hash) && self@.blocks[hash].data == data@,
                None => !self@.has(hash),
            },
    {
        match self.nodes.get(&hash) {
            Some(Node::Connected(node)) => Some(&node.data),
            Some(Node::Pending(node)) => Some(&node.data),
            None => None,
        }
    }
}


pub open spec fn candidates_view(s: Seq<(BlockHash, OrdSet<ProtocolPoolKey>)>) -> Seq<
    (BlockHash, Set<ProtocolPoolKey>),
> {
    Seq::new(s.len(), |i: int| (s[i].0, s[i].1@))
}

pub open spec fn ranges_view(s: Seq<MissingRange>) -> Seq<RangeModel> {
    Seq::new(s.len(), |i: int| s[i]@)
}

impl BlockLogs {
    /// The pools that the logs name.
    pub fn named(&self) -> (r: OrdSet<ProtocolPoolKey>)
        ensures
            r@ == named_pools(self@),
    {
        match self {
            BlockLogs::Unknown => {
                let r: OrdSet<ProtocolPoolKey> = OrdSet::new();
                r
            },
            BlockLogs::Streamed(logs) => pools_named(logs),
            BlockLogs::Complete(logs) => pools_named(logs),
        }
    }
}

/// The pools that a block's logs name.
fn pools_named(logs: &OrdMap<u64, PoolLog>) -> (r: OrdSet<ProtocolPoolKey>)
    ensures
        r@ == pools_in(logs@),
{
    let mut r: OrdSet<ProtocolPoolKey> = OrdSet::new();
    let n: usize = logs.len();
    let ghost listed = ascending(logs@.dom());
    proof {
        lemma_walk(logs@.dom());
    }
    for i in 0..n
        invariant
            n == logs@.len(),
            listed == ascending(logs@.dom()),
            lists(listed, logs@.dom()),
            listed.len() == n,
            forall|k: ProtocolPoolKey| #[trigger]
                r@.contains(k) <==> exists|j: int|
                    0 <= j < i && logs@[#[trigger] listed[j]].pool == k,
    {
        let ghost before = r@;
        let pool = logs.value_at(i).pool;
        r = r.with(pool);
        proof {
            assert forall|k: ProtocolPoolKey| #[trigger] r@.contains(k) <==> exists|j: int|
                0 <= j < i + 1 && logs@[#[trigger] listed[j]].pool == k by {
                if before.contains(k) {
                    let j = choose|j: int| 0 <= j < i && logs@[#[trigger] listed[j]].pool == k;
                    assert(logs@[listed[j]].pool == k);
                }
                if k == pool {
                    assert(logs@[listed[i as int]].pool == k);
                }
                if exists|j: int| 0 <= j < i + 1 && logs@[#[trigger] listed[j]].pool == k {
                    let j = choose|j: int| 0 <= j < i + 1 && logs@[#[trigger] listed[j]].pool == k;
                    if j < i {
                        assert(before.contains(k));
                    }
                }
            }
        }
    }
    proof {
        assert forall|k: ProtocolPoolKey| r@.contains(k) <==> pools_in(logs@).contains(k) by {
            if r@.contains(k) {
                let j = choose|j: int| 0 <= j < n && logs@[#[trigger] listed[j]].pool == k;
                assert(listed.contains(listed[j]));
                assert(logs@.contains_key(listed[j]));
            }
            if pools_in(logs@).contains(k) {
                let x = choose|x: u64| #[trigger] logs@.contains_key(x) && logs@[x].pool == k;
                assert(listed.contains(x));
                let j = choose|j: int| 0 <= j < listed.len() && listed[j] == x;
                assert(logs@[listed[j]].pool == k);
            }
        }
        assert(r@ =~= pools_in(logs@));
    }
    r
}

/// Whether a block with this bloom may carry a log of a watched address. A missing bloom proves
/// nothing, and with nothing watched no block is needed.
pub fn bloom_may_touch(bloom: Option<Bloom>, watched: &OrdSet<Address>) -> (r: bool)
    ensures
        r == may_touch(
            match bloom {
                Some(b) => Some(b@),
                None => None,
            },
            watched@,
        ),
{
    if watched.is_empty() {
        return false;
    }
    match bloom {
        None => true,
        Some(filter) => {
            let n: usize = watched.len();
            let ghost listed = ascending(watched@);
            proof {
                lemma_walk(watched@);
            }
            for i in 0..n
                invariant
                    bloom == Some(filter),
                    watched@ != Set::<Address>::empty(),
                    n == watched@.len(),
                    listed == ascending(watched@),
                    lists(listed, watched@),
                    listed.len() == n,
                    forall|j: int|
                        0 <= j < i ==> !bloom_contains_address(
                            filter@,
                            (#[trigger] listed[j]).hi,
                            listed[j].lo,
                        ),
            {
                let address = watched.at(i);
                if filter.may_contain(address) {
                    assert(watched@.contains(address));
                    return true;
                }
            }
            proof {
                assert forall|a: Address| #[trigger]
                    watched@.contains(a) implies !bloom_contains_address(filter@, a.hi, a.lo) by {
                    assert(listed.contains(a));
                    let j = choose|j: int| 0 <= j < listed.len() && listed[j] == a;
                    assert(!bloom_contains_address(filter@, listed[j].hi, listed[j].lo));
                }
            }
            false
        },
    }
}

/// The addresses whose logs concern the tracked pools: each v3 pool's contract, and the v4 manager
/// when a v4 pool is tracked.
pub fn watched_addresses(verified: &OrdSet<PoolRef>, v4_manager: Option<Address>) -> (r: OrdSet<
    Address,
>)
    ensures
        r@ == watched_by(verified@, v4_manager),
{
    let mut r: OrdSet<Address> = OrdSet::new();
    let n: usize = verified.len();
    let ghost listed = ascending(verified@);
    proof {
        lemma_walk(verified@);
    }
    for i in 0..n
        invariant
            n == verified@.len(),
            listed == ascending(verified@),
            lists(listed, verified@),
            listed.len() == n,
            forall|a: Address| #[trigger]
                r@.contains(a) <==> exists|j: int|
                    0 <= j < i && watches(#[trigger] listed[j], v4_manager, a),
    {
        let ghost before = r@;
        let pool = verified.at(i);
        match pool.key {
            ProtocolPoolKey::UniswapV3(address) => {
                r = r.with(address);
            },
            ProtocolPoolKey::UniswapV4(_) => {
                if let Some(manager) = v4_manager {
                    r = r.with(manager);
                }
            },
        }
        proof {
            assert forall|a: Address| #[trigger] r@.contains(a) <==> exists|j: int|
                0 <= j < i + 1 && watches(#[trigger] listed[j], v4_manager, a) by {
                if before.contains(a) {
                    let j = choose|j: int|
                        0 <= j < i && watches(#[trigger] listed[j], v4_manager, a);
                    assert(watches(listed[j], v4_manager, a));
                }
                if watches(pool, v4_manager, a) {
                    assert(watches(listed[i as int], v4_manager, a));
                }
                if exists|j: int| 0 <= j < i + 1 && watches(#[trigger] listed[j], v4_manager, a) {
                    let j = choose|j: int|
                        0 <= j < i + 1 && watches(#[trigger] listed[j], v4_manager, a);
                    if j < i {
                        assert(before.contains(a));
                    }
                }
            }
        }
    }
    proof {
        assert forall|a: Address| r@.contains(a) <==> watched_by(verified@, v4_manager).contains(
            a,
        ) by {
            if r@.contains(a) {
                let j = choose|j: int| 0 <= j < n && watches(#[trigger] listed[j], v4_manager, a);
                assert(listed.contains(listed[j]));
                assert(verified@.contains(listed[j]));
            }
            if watched_by(verified@, v4_manager).contains(a) {
                let p = choose|p: PoolRef| #[trigger]
                    verified@.contains(p) && watches(p, v4_manager, a);
                assert(exists|p: PoolRef| #[trigger]
                    verified@.contains(p) && watches(p, v4_manager, a));
                assert(listed.contains(p));
                let j = choose|j: int| 0 <= j < listed.len() && listed[j] == p;
                assert(watches(listed[j], v4_manager, a));
            }
        }
        assert(r@ =~= watched_by(verified@, v4_manager));
    }
    r
}

spec fn watches(pool: PoolRef, v4_manager: Option<Address>, a: Address) -> bool {
    pool.key == ProtocolPoolKey::UniswapV3(a) || (pool.key is UniswapV4 && v4_manager == Some(a))
}

/// The payload of a block that came with its header.
pub open spec fn header_data(number: u64, bloom: Seq<u8>) -> DataModel {
    DataModel { number, bloom: Some(bloom), logs: LogsModel::Unknown }
}

/// The payload of a block that came with its full logs and without a header.
pub open spec fn seed_data(number: u64, logs: Seq<PoolLog>) -> DataModel {
    DataModel { number, bloom: None, logs: LogsModel::Complete(keyed(logs)) }
}

/// The graph of a window of blocks, offered one after the other.
pub open spec fn seeded(
    anchor: BlockHash,
    blocks: Seq<(BlockHash, BlockHash, u64, Vec<PoolLog>)>,
) -> GraphModel
    decreases blocks.len(),
{
    if blocks.len() == 0 {
        GraphModel { anchor, blocks: Map::empty(), head: anchor }
    } else {
        let b = blocks.last();
        seeded(anchor, blocks.drop_last()).with_offered(
            b.0,
            b.1,
            seed_data(b.2, b.3@),
            MAX_PENDING_BLOCKS as nat,
        )
    }
}

/// Adds logs to a map under their index: of two with the same index the later one stands.
fn extended(map: OrdMap<u64, PoolLog>, logs: &[PoolLog]) -> (r: OrdMap<u64, PoolLog>)
    ensures
        r@ == map@.union_prefer_right(keyed(logs@)),
{
    let ghost start = map@;
    let mut r = map;
    let n: usize = logs.len();
    assert(start.union_prefer_right(keyed(logs@.take(0))) =~= start);
    for i in 0..n
        invariant
            n == logs@.len(),
            r@ == start.union_prefer_right(keyed(logs@.take(i as int))),
    {
        proof {
            lemma_take_next(logs@, i as int);
        }
        let log = logs[i];
        r = r.with(log.log_index, log);
        assert(r@ =~= start.union_prefer_right(keyed(logs@.take(i + 1))));
    }
    assert(logs@.take(n as int) =~= logs@);
    r
}

/// Keys logs by their index within the block.
pub fn key_by_log_index(logs: &[PoolLog]) -> (r: OrdMap<u64, PoolLog>)
    ensures
        r@ == keyed(logs@),
{
    let r = extended(OrdMap::new(), logs);
    assert(r@ =~= keyed(logs@));
    r
}

spec fn model_of(anchor: BlockHash, nodes: Map<BlockHash, Node>, head: BlockHash) -> GraphModel {
    GraphModel { anchor, blocks: nodes_model(nodes, anchor), head }
}

/// `m` is `m0` with some of the blocks that await `root` connected.
spec fn partly_promoted(m0: GraphModel, m: GraphModel, root: BlockHash) -> bool {
    &&& m.anchor == m0.anchor
    &&& m.head == m0.head
    &&& m.blocks.dom() == m0.blocks.dom()
    &&& forall|h: BlockHash|
        m0.has(h) ==> (#[trigger] m.blocks[h]).parent == m0.blocks[h].parent && m.blocks[h].data
            == m0.blocks[h].data
    &&& forall|h: BlockHash| #[trigger] m0.connected(h) ==> m.connected(h)
    &&& forall|h: BlockHash| #[trigger] m.connected(h) && !m0.connected(h) ==> m0.awaits(h, root)
}

/// The block connected while promoting from `root`.
spec fn newly(m0: GraphModel, m: GraphModel, root: BlockHash, h: BlockHash) -> bool {
    h == root || (m.connected(h) && !m0.connected(h))
}

proof fn lemma_pending_finite(m: GraphModel)
    requires
        m.blocks.dom().finite(),
    ensures
        m.pending_blocks().finite(),
{
    vstd::set_lib::lemma_set_subset_finite(m.blocks.dom(), m.pending_blocks());
}

proof fn lemma_promoted_one(
    m0: GraphModel,
    mb: GraphModel,
    ma: GraphModel,
    root: BlockHash,
    parent: BlockHash,
    child: BlockHash,
)
    requires
        partly_promoted(m0, mb, root),
        newly(m0, mb, root, parent),
        mb.pending(child),
        mb.blocks.dom().finite(),
        m0.parent_of(child) == parent,
        m0.connected(root),
        ma.anchor == mb.anchor,
        ma.head == mb.head,
        ma.blocks == mb.blocks.insert(
            child,
            BlockModel { connected: true, ..mb.blocks[child] },
        ),
    ensures
        partly_promoted(m0, ma, root),
        newly(m0, ma, root, parent),
        newly(m0, ma, root, child),
        forall|x: BlockHash| #[trigger] newly(m0, ma, root, x) ==> newly(m0, mb, root, x) || x == child,
        forall|x: BlockHash| #[trigger] newly(m0, mb, root, x) ==> newly(m0, ma, root, x),
        forall|x: BlockHash| #[trigger] ma.pending(x) <==> mb.pending(x) && x != child,
        ma.pending_blocks().len() + 1 == mb.pending_blocks().len(),
{
    assert(ma.blocks.dom() =~= mb.blocks.dom());
    assert(!m0.connected(child));
    assert(m0.has(child));
    assert forall|h: BlockHash| #[trigger] m0.connected(h) implies ma.connected(h) by {
        assert(mb.connected(h));
    }
    if parent == root {
        reveal_with_fuel(GraphModel::ancestor, 2);
        assert(m0.ancestor(child, 1) == root);
        assert(m0.awaits_in(child, 1, root));
    } else {
        crate::graph_lemmas::lemma_awaits_step(m0, child, root);
    }
    assert(m0.awaits(child, root));
    assert forall|h: BlockHash| #[trigger] ma.connected(h) && !m0.connected(h) implies m0.awaits(
        h,
        root,
    ) by {
        if h != child {
            assert(mb.connected(h));
        }
    }
    lemma_pending_finite(mb);
    assert(ma.pending_blocks() =~= mb.pending_blocks().remove(child));
}

proof fn lemma_promotion_reaches(m0: GraphModel, m: GraphModel, root: BlockHash, h: BlockHash, n: nat)
    requires
        partly_promoted(m0, m, root),
        m0.connected(root),
        forall|x: BlockHash| #[trigger] m.pending(x) ==> !newly(m0, m, root, m0.parent_of(x)),
        m0.pending(h),
        m0.awaits_in(h, n, root),
    ensures
        m.connected(h),
    decreases n,
{
    if n > 0 {
        lemma_awaits_parent(m0, h, n, root);
        if n > 1 {
            lemma_promotion_reaches(m0, m, root, m0.parent_of(h), (n - 1) as nat);
        }
        assert(newly(m0, m, root, m0.parent_of(h)));
        if !m.connected(h) {
            assert(m.pending(h));
        }
    }
}

proof fn lemma_promotion_done(m0: GraphModel, m: GraphModel, root: BlockHash)
    requires
        partly_promoted(m0, m, root),
        m0.connected(root),
        forall|x: BlockHash| #[trigger] m.pending(x) ==> !newly(m0, m, root, m0.parent_of(x)),
    ensures
        m == m0.promoted(root),
{
    let w = m0.promoted(root);
    assert(m.blocks.dom() =~= w.blocks.dom());
    assert forall|h: BlockHash| m0.has(h) implies #[trigger] m.blocks[h] == w.blocks[h] by {
        if m0.awaits(h, root) {
            let n = choose|n: nat| m0.awaits_in(h, n, root);
            lemma_promotion_reaches(m0, m, root, h, n);
        }
        assert(m0.connected(h) ==> m.connected(h));
        assert(m.connected(h) && !m0.connected(h) ==> m0.awaits(h, root));
    }
    assert(m.blocks =~= w.blocks);
}

} // verus!
