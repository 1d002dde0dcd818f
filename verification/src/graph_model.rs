//! The block tree as mathematics: what a graph is, which chains it holds, and what admission and
//! re-rooting make of it.
use vstd::prelude::*;

use crate::order::ascending;
use crate::pool_state::{derived, PoolLog, PoolLogEvent, PoolRef, PoolState, ProtocolPoolKey};
use crate::primitives::{bloom_contains_address, Address, BlockHash};

verus! {

/// The logs known of a block, by their index within the block.
#[verifier::ext_equal]
pub enum LogsModel {
    /// Nothing was delivered yet.
    Unknown,
    /// Best-effort logs of the live subscription.
    Streamed(Map<u64, PoolLog>),
    /// The authoritative, full set.
    Complete(Map<u64, PoolLog>),
}

/// What a block carries besides its place in the tree.
#[verifier::ext_equal]
pub struct DataModel {
    pub number: u64,
    pub bloom: Option<Seq<u8>>,
    pub logs: LogsModel,
}

/// A block of the tree: whether it is on a complete path to the anchor, its parent, its payload.
#[verifier::ext_equal]
pub struct BlockModel {
    pub connected: bool,
    pub parent: BlockHash,
    pub data: DataModel,
}

/// A block tree above a finalized anchor, with the head that the feed reported last.
#[verifier::ext_equal]
pub struct GraphModel {
    pub anchor: BlockHash,
    pub blocks: Map<BlockHash, BlockModel>,
    pub head: BlockHash,
}

/// The outcome of an admission.
#[derive(Clone, Copy, Debug, PartialEq, Eq, Structural)]
pub enum Admission {
    /// The block entered the graph.
    Admitted,
    /// Refused: the block names itself as its parent.
    SelfParent,
    /// Refused: the block is the anchor.
    AnchorReadmit,
    /// Refused: the block is present with the same parent.
    DuplicateBlock,
    /// Refused: the block is present with another parent; the first one is kept.
    ConflictingParent,
    /// Refused: the block would be pending and the pending blocks are at their cap.
    PendingBufferFull,
}

/// Which logs a fold may read.
#[derive(Clone, Copy, Debug, PartialEq, Eq, Structural)]
pub enum Authority {
    /// Authoritative logs only.
    RequireComplete,
    /// Streamed logs as well.
    AllowStreamed,
}

/// An inclusive range of block numbers and the blocks in it, oldest first.
#[verifier::ext_equal]
pub struct RangeModel {
    pub from: u64,
    pub to: u64,
    pub hashes: Seq<BlockHash>,
}

/// Whether a block with this bloom may carry a log of a watched address. A missing bloom proves
/// nothing; with nothing watched no block is needed.
pub open spec fn may_touch(bloom: Option<Seq<u8>>, watched: Set<Address>) -> bool {
    &&& watched != Set::<Address>::empty()
    &&& match bloom {
        Some(bytes) => exists|a: Address| #[trigger]
            watched.contains(a) && bloom_contains_address(bytes, a.hi, a.lo),
        None => true,
    }
}

/// The addresses whose logs concern the tracked pools: each v3 pool's contract, and the v4 manager
/// when a v4 pool is tracked.
pub open spec fn watched_by(verified: Set<PoolRef>, v4_manager: Option<Address>) -> Set<Address> {
    Set::new(
        |a: Address|
            {
                ||| exists|p: PoolRef| #[trigger]
                    verified.contains(p) && p.key == ProtocolPoolKey::UniswapV3(a)
                ||| v4_manager == Some(a) && exists|p: PoolRef| #[trigger]
                    verified.contains(p) && p.key is UniswapV4
            },
    )
}

/// The logs that a fold may read of a block.
pub open spec fn readable(logs: LogsModel, authority: Authority) -> Option<Map<u64, PoolLog>> {
    match logs {
        LogsModel::Complete(m) => Some(m),
        LogsModel::Streamed(m) => if authority == Authority::AllowStreamed {
            Some(m)
        } else {
            None
        },
        LogsModel::Unknown => None,
    }
}

/// How much is known of a block's logs.
pub open spec fn log_level(logs: LogsModel) -> int {
    match logs {
        LogsModel::Unknown => 0,
        LogsModel::Streamed(_) => 1,
        LogsModel::Complete(_) => 2,
    }
}

/// Logs by their index; of two with the same index the later one stands.
pub open spec fn keyed(logs: Seq<PoolLog>) -> Map<u64, PoolLog>
    decreases logs.len(),
{
    if logs.len() == 0 {
        Map::empty()
    } else {
        keyed(logs.drop_last()).insert(logs.last().log_index, logs.last())
    }
}

/// Streamed logs merged into what is known: authoritative logs stand.
pub open spec fn merged_streamed(logs: LogsModel, new: Map<u64, PoolLog>) -> LogsModel {
    match logs {
        LogsModel::Unknown => LogsModel::Streamed(new),
        LogsModel::Streamed(old_logs) => LogsModel::Streamed(old_logs.union_prefer_right(new)),
        LogsModel::Complete(m) => LogsModel::Complete(m),
    }
}

/// The pools that a block's logs name.
pub open spec fn named_pools(logs: LogsModel) -> Set<ProtocolPoolKey> {
    match logs {
        LogsModel::Unknown => Set::empty(),
        LogsModel::Streamed(m) => pools_in(m),
        LogsModel::Complete(m) => pools_in(m),
    }
}

pub open spec fn pools_in(m: Map<u64, PoolLog>) -> Set<ProtocolPoolKey> {
    Set::new(|k: ProtocolPoolKey| exists|i: u64| #[trigger] m.contains_key(i) && m[i].pool == k)
}

/// A block's logs in log order.
pub open spec fn in_log_order(m: Map<u64, PoolLog>) -> Seq<PoolLog> {
    ascending(m.dom()).map_values(|i: u64| m[i])
}

/// The events of one pool among a sequence of logs, in order.
pub open spec fn events_of(logs: Seq<PoolLog>, key: ProtocolPoolKey) -> Seq<PoolLogEvent>
    decreases logs.len(),
{
    if logs.len() == 0 {
        Seq::empty()
    } else {
        let before = events_of(logs.drop_last(), key);
        if logs.last().pool == key {
            before.push(logs.last().event)
        } else {
            before
        }
    }
}

/// The state that a map gives a pool, if any.
pub open spec fn state_in(base: Map<PoolRef, PoolState>, pool: PoolRef) -> Option<PoolState> {
    if base.contains_key(pool) {
        Some(base[pool])
    } else {
        None
    }
}

impl GraphModel {
    pub open spec fn has(self, h: BlockHash) -> bool {
        self.blocks.contains_key(h)
    }

    pub open spec fn connected(self, h: BlockHash) -> bool {
        self.blocks.contains_key(h) && self.blocks[h].connected
    }

    pub open spec fn pending(self, h: BlockHash) -> bool {
        self.blocks.contains_key(h) && !self.blocks[h].connected
    }

    pub open spec fn parent_of(self, h: BlockHash) -> BlockHash {
        self.blocks[h].parent
    }

    /// The hash `n` parent steps below `h`.
    pub open spec fn ancestor(self, h: BlockHash, n: nat) -> BlockHash
        decreases n,
    {
        if n == 0 {
            h
        } else {
            self.parent_of(self.ancestor(h, (n - 1) as nat))
        }
    }

    /// `n` parent steps over connected blocks lead from `h` to `target`.
    pub open spec fn descends_in(self, h: BlockHash, n: nat, target: BlockHash) -> bool {
        &&& self.ancestor(h, n) == target
        &&& forall|i: nat| i < n ==> #[trigger] self.connected(self.ancestor(h, i))
    }

    /// `n` parent steps over pending blocks lead from `h` to `root`.
    pub open spec fn awaits_in(self, h: BlockHash, n: nat, root: BlockHash) -> bool {
        &&& self.ancestor(h, n) == root
        &&& forall|i: nat| i < n ==> #[trigger] self.pending(self.ancestor(h, i))
    }

    /// `h` is pending only because `root` is missing or pending.
    pub open spec fn awaits(self, h: BlockHash, root: BlockHash) -> bool {
        self.pending(h) && exists|n: nat| self.awaits_in(h, n, root)
    }

    /// A graph that admissions, log merges and re-rootings can produce: the anchor is no block, the
    /// head is the anchor or a block, every connected block is on a finite path of connected blocks
    /// to the anchor, and no pending block has a parent that is the anchor or connected.
    pub open spec fn wf(self) -> bool {
        &&& self.blocks.dom().finite()
        &&& !self.has(self.anchor)
        &&& self.head == self.anchor || self.has(self.head)
        &&& forall|h: BlockHash| #[trigger]
            self.connected(h) ==> exists|n: nat| self.descends_in(h, n, self.anchor)
        &&& forall|h: BlockHash| #[trigger]
            self.pending(h) ==> self.parent_of(h) != self.anchor && !self.connected(
                self.parent_of(h),
            )
    }

    /// The number of steps from a connected block to the anchor.
    pub open spec fn depth(self, h: BlockHash) -> nat {
        choose|n: nat| self.descends_in(h, n, self.anchor)
    }

    /// The connected blocks from the anchor's child up to `h`, oldest first; empty when `h` is not
    /// connected.
    pub open spec fn chain_to(self, h: BlockHash) -> Seq<BlockHash> {
        if self.connected(h) {
            Seq::new(
                self.depth(h),
                |i: int| self.ancestor(h, (self.depth(h) - 1 - i) as nat),
            )
        } else {
            Seq::empty()
        }
    }

    /// The canonical chain: from the anchor's child up to the head.
    pub open spec fn canonical(self) -> Seq<BlockHash> {
        self.chain_to(self.head)
    }

    /// A walk over present blocks ends here.
    pub open spec fn stops_at(self, h: BlockHash) -> bool {
        h == self.anchor || !self.has(h)
    }

    /// The walk down from `h` takes `n` steps before it ends at the anchor or an absent block.
    pub open spec fn walks(self, h: BlockHash, n: nat) -> bool {
        &&& self.stops_at(self.ancestor(h, n))
        &&& forall|i: nat| i < n ==> !#[trigger] self.stops_at(self.ancestor(h, i))
    }

    /// The present blocks from the head downwards, newest first, connected or pending, up to the
    /// anchor or the first absent block; empty when the parents run in a circle.
    pub open spec fn present_chain(self) -> Seq<BlockHash> {
        if exists|n: nat| self.walks(self.head, n) {
            Seq::new(
                choose|n: nat| self.walks(self.head, n),
                |i: int| self.ancestor(self.head, i as nat),
            )
        } else {
            Seq::empty()
        }
    }

    /// The present blocks whose logs are not authoritative, not excluded and, where `touch` says
    /// which blocks may matter, among those.
    pub open spec fn unresolved_test(
        self,
        touch: Option<Set<BlockHash>>,
        exclude: Set<BlockHash>,
    ) -> spec_fn(BlockHash) -> bool {
        |h: BlockHash|
            {
                &&& !(self.blocks[h].data.logs is Complete)
                &&& !exclude.contains(h)
                &&& (touch matches Some(t) ==> t.contains(h))
            }
    }

    pub open spec fn unresolved(self, touch: Option<Set<BlockHash>>, exclude: Set<BlockHash>) -> Seq<
        BlockHash,
    > {
        self.present_chain().filter(self.unresolved_test(touch, exclude))
    }

    /// The blocks of which nothing was delivered, that may matter and are not excluded.
    pub open spec fn unknown_test(
        self,
        touch: Set<BlockHash>,
        exclude: Set<BlockHash>,
    ) -> spec_fn(BlockHash) -> bool {
        |h: BlockHash|
            {
                &&& self.blocks[h].data.logs is Unknown
                &&& !exclude.contains(h)
                &&& touch.contains(h)
            }
    }

    /// Those of the present chain at least `min_depth` blocks below the head, newest first.
    pub open spec fn unknown_holes(
        self,
        touch: Set<BlockHash>,
        exclude: Set<BlockHash>,
        min_depth: nat,
    ) -> Seq<BlockHash> {
        if min_depth <= self.present_chain().len() {
            self.present_chain().skip(min_depth as int).filter(self.unknown_test(touch, exclude))
        } else {
            Seq::empty()
        }
    }

    /// The blocks whose logs name pools, in order, each with the pools it names.
    pub open spec fn candidates_along(self, hashes: Seq<BlockHash>) -> Seq<
        (BlockHash, Set<ProtocolPoolKey>),
    >
        decreases hashes.len(),
    {
        if hashes.len() == 0 {
            Seq::empty()
        } else {
            let before = self.candidates_along(hashes.drop_last());
            let pools = named_pools(self.blocks[hashes.last()].data.logs);
            if pools == Set::<ProtocolPoolKey>::empty() {
                before
            } else {
                before.push((hashes.last(), pools))
            }
        }
    }

    /// The candidate pools of the present chain, newest block first.
    pub open spec fn candidates(self) -> Seq<(BlockHash, Set<ProtocolPoolKey>)> {
        self.candidates_along(self.present_chain())
    }

    /// `reference` is `n` steps below the head, over present blocks, and no fewer.
    pub open spec fn at_distance(self, reference: BlockHash, n: nat) -> bool {
        &&& self.ancestor(self.head, n) == reference
        &&& forall|i: nat|
            i < n ==> #[trigger] self.has(self.ancestor(self.head, i)) && self.ancestor(
                self.head,
                i,
            ) != reference
    }

    /// How many blocks separate the head from `reference`; `None` when the walk down from the head
    /// does not come to it.
    pub open spec fn distance(self, reference: BlockHash) -> Option<nat> {
        if exists|n: nat| self.at_distance(reference, n) {
            Some(choose|n: nat| self.at_distance(reference, n))
        } else {
            None
        }
    }

    pub open spec fn pending_blocks(self) -> Set<BlockHash> {
        Set::new(|h: BlockHash| self.pending(h))
    }

    /// The parents that pending blocks wait for and that are not in the graph.
    pub open spec fn absent_parents(self) -> Set<BlockHash> {
        Set::new(
            |p: BlockHash|
                p != self.anchor && !self.has(p) && exists|h: BlockHash| #[trigger]
                    self.pending(h) && self.parent_of(h) == p,
        )
    }

    /// The blocks whose bloom may carry a log of a watched address.
    pub open spec fn touching(self, watched: Set<Address>) -> Set<BlockHash> {
        Set::new(|h: BlockHash| self.has(h) && may_touch(self.blocks[h].data.bloom, watched))
    }

    /// Those of `touch` whose logs are not authoritative: of the others it makes no difference
    /// whether they may matter.
    pub open spec fn undecided(self, touch: Set<BlockHash>) -> Set<BlockHash> {
        Set::new(|h: BlockHash| touch.contains(h) && !(self.blocks[h].data.logs is Complete))
    }

    // ---- admission ----

    /// A block with this parent is on a complete path to the anchor.
    pub open spec fn connects(self, parent: BlockHash) -> bool {
        parent == self.anchor || self.connected(parent)
    }

    pub open spec fn admission(self, hash: BlockHash, parent: BlockHash, max_pending: nat) -> Admission {
        if hash == parent {
            Admission::SelfParent
        } else if hash == self.anchor {
            Admission::AnchorReadmit
        } else if self.has(hash) {
            if self.parent_of(hash) == parent {
                Admission::DuplicateBlock
            } else {
                Admission::ConflictingParent
            }
        } else if !self.connects(parent) && self.pending_blocks().len() >= max_pending {
            Admission::PendingBufferFull
        } else {
            Admission::Admitted
        }
    }

    /// The graph with one more block, before anything that waited for it is connected.
    pub open spec fn with_entry(self, hash: BlockHash, parent: BlockHash, data: DataModel) -> GraphModel {
        GraphModel {
            blocks: self.blocks.insert(
                hash,
                BlockModel { connected: self.connects(parent), parent, data },
            ),
            ..self
        }
    }

    /// Everything that awaits `root` is connected.
    pub open spec fn promoted(self, root: BlockHash) -> GraphModel {
        GraphModel {
            blocks: Map::new(
                |h: BlockHash| self.has(h),
                |h: BlockHash|
                    BlockModel {
                        connected: self.blocks[h].connected || self.awaits(h, root),
                        ..self.blocks[h]
                    },
            ),
            ..self
        }
    }

    /// The graph after a block was admitted.
    pub open spec fn with_admitted(self, hash: BlockHash, parent: BlockHash, data: DataModel) -> GraphModel {
        let entered = self.with_entry(hash, parent, data);
        if self.connects(parent) {
            entered.promoted(hash)
        } else {
            entered
        }
    }

    /// The graph after a block was offered: a refused block leaves it unchanged.
    pub open spec fn with_offered(
        self,
        hash: BlockHash,
        parent: BlockHash,
        data: DataModel,
        max_pending: nat,
    ) -> GraphModel {
        if self.admission(hash, parent, max_pending) == Admission::Admitted {
            self.with_admitted(hash, parent, data)
        } else {
            self
        }
    }

    // ---- head and logs ----

    pub open spec fn with_head(self, hash: BlockHash) -> GraphModel {
        if hash == self.anchor || self.has(hash) {
            GraphModel { head: hash, ..self }
        } else {
            self
        }
    }

    pub open spec fn with_logs(self, hash: BlockHash, logs: LogsModel) -> GraphModel {
        GraphModel {
            blocks: self.blocks.insert(
                hash,
                BlockModel {
                    data: DataModel { logs, ..self.blocks[hash].data },
                    ..self.blocks[hash]
                },
            ),
            ..self
        }
    }

    pub open spec fn with_streamed(self, hash: BlockHash, logs: Seq<PoolLog>) -> GraphModel {
        if self.has(hash) {
            self.with_logs(hash, merged_streamed(self.blocks[hash].data.logs, keyed(logs)))
        } else {
            self
        }
    }

    pub open spec fn with_complete(self, hash: BlockHash, logs: Seq<PoolLog>) -> GraphModel {
        if self.has(hash) {
            self.with_logs(hash, LogsModel::Complete(keyed(logs)))
        } else {
            self
        }
    }

    // ---- folds ----

    /// The events of a pool along a path, oldest block first, each block in log order; blocks whose
    /// logs may not be read add nothing.
    pub open spec fn run_of(
        self,
        path: Seq<BlockHash>,
        authority: Authority,
        key: ProtocolPoolKey,
    ) -> Seq<PoolLogEvent>
        decreases path.len(),
    {
        if path.len() == 0 {
            Seq::empty()
        } else {
            self.run_of(path.drop_last(), authority, key) + self.block_run(
                path.last(),
                authority,
                key,
            )
        }
    }

    pub open spec fn block_run(
        self,
        h: BlockHash,
        authority: Authority,
        key: ProtocolPoolKey,
    ) -> Seq<PoolLogEvent> {
        match readable(self.blocks[h].data.logs, authority) {
            Some(m) => events_of(in_log_order(m), key),
            None => Seq::empty(),
        }
    }

    /// The state of a pool at `target`, when the path names it and its events have an outcome.
    pub open spec fn folded_state(
        self,
        base: Map<PoolRef, PoolState>,
        target: BlockHash,
        authority: Authority,
        pool: PoolRef,
    ) -> Option<PoolState> {
        let run = self.run_of(self.chain_to(target), authority, pool.key);
        if run.len() == 0 {
            None
        } else {
            derived(state_in(base, pool), run)
        }
    }

    /// The pools whose state at `target` differs from their base state, and the verified ones without
    /// a base state that the path seeds, with their states.
    pub open spec fn overlay(
        self,
        base: Map<PoolRef, PoolState>,
        verified: Set<PoolRef>,
        target: BlockHash,
        authority: Authority,
    ) -> Map<PoolRef, PoolState> {
        Map::new(
            |p: PoolRef|
                (base.contains_key(p) || verified.contains(p)) && self.folded_state(
                    base,
                    target,
                    authority,
                    p,
                ) is Some && !(base.contains_key(p) && self.folded_state(base, target, authority, p)
                    == Some(base[p])),
            |p: PoolRef| self.folded_state(base, target, authority, p)->0,
        )
    }

    /// The base with the path's changes applied.
    pub open spec fn folded(
        self,
        base: Map<PoolRef, PoolState>,
        verified: Set<PoolRef>,
        target: BlockHash,
        authority: Authority,
    ) -> Map<PoolRef, PoolState> {
        base.union_prefer_right(self.overlay(base, verified, target, authority))
    }

    /// A fold may not pass this block: its logs cannot be read and may matter.
    pub open spec fn blocks_fold(self, h: BlockHash, touch: Set<BlockHash>, authority: Authority) -> bool {
        readable(self.blocks[h].data.logs, authority) is None && touch.contains(h)
    }

    /// How many blocks of the path come before the first one that blocks the fold.
    pub open spec fn foldable_len(
        self,
        path: Seq<BlockHash>,
        touch: Set<BlockHash>,
        authority: Authority,
    ) -> nat
        decreases path.len(),
    {
        if path.len() == 0 || self.blocks_fold(path[0], touch, authority) {
            0
        } else {
            1 + self.foldable_len(path.drop_first(), touch, authority)
        }
    }

    /// The last block below `target` whose whole path can be folded, or the anchor.
    pub open spec fn frontier(
        self,
        target: BlockHash,
        touch: Set<BlockHash>,
        authority: Authority,
    ) -> BlockHash {
        let path = self.chain_to(target);
        let n = self.foldable_len(path, touch, authority);
        if n == 0 {
            self.anchor
        } else {
            path[n - 1]
        }
    }

    // ---- holes ----

    /// The block's authoritative logs are missing, may matter, and are not being fetched.
    pub open spec fn is_hole(self, h: BlockHash, touch: Set<BlockHash>, exclude: Set<u64>) -> bool {
        &&& !(self.blocks[h].data.logs is Complete)
        &&& touch.contains(h)
        &&& !exclude.contains(self.blocks[h].data.number)
    }

    pub open spec fn hole_test(self, touch: Set<BlockHash>, exclude: Set<u64>) -> spec_fn(
        BlockHash,
    ) -> bool {
        |h: BlockHash| self.is_hole(h, touch, exclude)
    }

    /// The holes below `target`, oldest first.
    pub open spec fn holes(self, target: BlockHash, touch: Set<BlockHash>, exclude: Set<u64>) -> Seq<
        BlockHash,
    > {
        self.chain_to(target).filter(self.hole_test(touch, exclude))
    }

    /// Blocks grouped, in order, into ranges of successive numbers.
    pub open spec fn grouped(self, hashes: Seq<BlockHash>) -> Seq<RangeModel>
        decreases hashes.len(),
    {
        if hashes.len() == 0 {
            Seq::empty()
        } else {
            let before = self.grouped(hashes.drop_last());
            let h = hashes.last();
            let number = self.blocks[h].data.number;
            if before.len() > 0 && number == before.last().to + 1 {
                before.drop_last().push(
                    RangeModel {
                        from: before.last().from,
                        to: number,
                        hashes: before.last().hashes.push(h),
                    },
                )
            } else {
                before.push(RangeModel { from: number, to: number, hashes: seq![h] })
            }
        }
    }

    // ---- re-rooting ----

    /// The block stays when the anchor moves to `root`.
    pub open spec fn survives(self, h: BlockHash, root: BlockHash) -> bool {
        self.connected(h) && h != root && exists|n: nat| self.descends_in(h, n, root)
    }

    /// The graph above `root`: its connected descendants and nothing else.
    pub open spec fn reanchored(self, root: BlockHash) -> GraphModel {
        if root == self.anchor {
            self
        } else {
            GraphModel {
                anchor: root,
                blocks: Map::new(
                    |h: BlockHash| self.survives(h, root),
                    |h: BlockHash| self.blocks[h],
                ),
                head: if self.survives(self.head, root) {
                    self.head
                } else {
                    root
                },
            }
        }
    }

    /// Only a block of the canonical chain can be finalized.
    pub open spec fn finalizable(self, target: BlockHash) -> bool {
        self.connected(target) && self.canonical().contains(target)
    }

    /// The block that the anchor moves to when `target` was reported final.
    pub open spec fn final_root(self, target: BlockHash, touch: Set<BlockHash>) -> BlockHash {
        if self.finalizable(target) {
            self.frontier(target, touch, Authority::RequireComplete)
        } else {
            self.anchor
        }
    }

    /// The snapshot at the anchor after `target` was reported final.
    pub open spec fn final_snapshot(
        self,
        target: BlockHash,
        touch: Set<BlockHash>,
        base: Map<PoolRef, PoolState>,
        verified: Set<PoolRef>,
    ) -> Map<PoolRef, PoolState> {
        let root = self.final_root(target, touch);
        if root == self.anchor {
            base
        } else {
            self.folded(base, verified, root, Authority::RequireComplete)
        }
    }
}

} // verus!
