//! The kernel's requests in flight, of every kind, under one sequence of identifiers.
use vstd::prelude::*;

use crate::ord_map::OrdSet;
use crate::order::{ascending, lemma_take_next, lemma_walk, lists, Key};
use crate::pool_state::{PoolRef, ProtocolPoolKey};
use crate::primitives::BlockHash;
use crate::request_tracking::{
    about, due, next_id, InFlight, IssuedRequest, Payload, PendingPayload, RequestCollection,
    RequestId, RequestIdSequence,
};
use crate::tick::Tick;
use crate::token_registry::TokenAddress;

verus! {

/// Asks for the pool logs of a block.
#[derive(Clone, Copy, Debug, PartialEq, Eq, Hash, Structural)]
pub struct GetBlockLogs {
    pub block_hash: BlockHash,
}

/// Asks for the header of a block.
#[derive(Clone, Copy, Debug, PartialEq, Eq, Hash, Structural)]
pub struct GetBlockHeader {
    pub block_hash: BlockHash,
}

/// Asks to validate candidate pools.
#[derive(Debug, PartialEq, Eq, Hash)]
pub struct GetPoolMetadata {
    pub at: BlockHash,
    pub candidates: OrdSet<ProtocolPoolKey>,
}

/// Asks for the metadata of tokens.
#[derive(Debug, PartialEq, Eq, Hash)]
pub struct GetTokenMetadata {
    pub at: BlockHash,
    pub tokens: OrdSet<TokenAddress>,
}

/// Asks for the states of pools at the finalized anchor, to seed the snapshot there.
#[derive(Debug, PartialEq, Eq, Hash)]
pub struct GetPoolData {
    pub at: BlockHash,
    pub pools: OrdSet<PoolRef>,
}

/// Things asked for together, at a block.
#[verifier::ext_equal]
#[verifier::reject_recursive_types(K)]
pub struct Batch<K> {
    pub at: BlockHash,
    pub items: Set<K>,
}

/// The identifier of a request of some kind.
#[derive(Clone, Copy, Debug, PartialEq, Eq, Hash)]
pub enum AnyRequestId {
    BlockHeader(RequestId<GetBlockHeader>),
    BlockLogs(RequestId<GetBlockLogs>),
    PoolMetadata(RequestId<GetPoolMetadata>),
    TokenMetadata(RequestId<GetTokenMetadata>),
    PoolData(RequestId<GetPoolData>),
}

/// A request of some kind that is to be sent.
#[derive(Debug, PartialEq, Eq)]
pub enum AnyIssuedRequest {
    BlockHeader(IssuedRequest<GetBlockHeader>),
    BlockLogs(IssuedRequest<GetBlockLogs>),
    PoolMetadata(IssuedRequest<GetPoolMetadata>),
    TokenMetadata(IssuedRequest<GetTokenMetadata>),
    PoolData(IssuedRequest<GetPoolData>),
}

/// An identifier of some kind, as mathematics.
pub enum AnyId {
    BlockHeader(u64),
    BlockLogs(u64),
    PoolMetadata(u64),
    TokenMetadata(u64),
    PoolData(u64),
}

/// A request to send, as mathematics.
#[verifier::ext_equal]
pub enum Issued {
    BlockHeader(u64, BlockHash),
    BlockLogs(u64, BlockHash),
    PoolMetadata(u64, Batch<ProtocolPoolKey>),
    TokenMetadata(u64, Batch<TokenAddress>),
    PoolData(u64, Batch<PoolRef>),
}

impl View for AnyRequestId {
    type V = AnyId;

    open spec fn view(&self) -> AnyId {
        match self {
            AnyRequestId::BlockHeader(id) => AnyId::BlockHeader(id@),
            AnyRequestId::BlockLogs(id) => AnyId::BlockLogs(id@),
            AnyRequestId::PoolMetadata(id) => AnyId::PoolMetadata(id@),
            AnyRequestId::TokenMetadata(id) => AnyId::TokenMetadata(id@),
            AnyRequestId::PoolData(id) => AnyId::PoolData(id@),
        }
    }
}

impl AnyRequestId {
    /// The name of the request's kind, for messages.
    pub fn label(&self) -> (r: &'static str)
        ensures
            r@ == (match self@ {
                AnyId::BlockHeader(_) => "block_header"@,
                AnyId::BlockLogs(_) => "block_logs"@,
                AnyId::PoolMetadata(_) => "pool_metadata"@,
                AnyId::TokenMetadata(_) => "token_metadata"@,
                AnyId::PoolData(_) => "pool_data"@,
            }),
    {
        match self {
            AnyRequestId::BlockHeader(_) => "block_header",
            AnyRequestId::BlockLogs(_) => "block_logs",
            AnyRequestId::PoolMetadata(_) => "pool_metadata",
            AnyRequestId::TokenMetadata(_) => "token_metadata",
            AnyRequestId::PoolData(_) => "pool_data",
        }
    }

    /// The number inside the identifier.
    pub fn raw(&self) -> (r: u64)
        ensures
            r == (match self@ {
                AnyId::BlockHeader(id) => id,
                AnyId::BlockLogs(id) => id,
                AnyId::PoolMetadata(id) => id,
                AnyId::TokenMetadata(id) => id,
                AnyId::PoolData(id) => id,
            }),
    {
        match self {
            AnyRequestId::BlockHeader(id) => id.raw(),
            AnyRequestId::BlockLogs(id) => id.raw(),
            AnyRequestId::PoolMetadata(id) => id.raw(),
            AnyRequestId::TokenMetadata(id) => id.raw(),
            AnyRequestId::PoolData(id) => id.raw(),
        }
    }
}

impl View for AnyIssuedRequest {
    type V = Issued;

    open spec fn view(&self) -> Issued {
        match self {
            AnyIssuedRequest::BlockHeader(i) => Issued::BlockHeader(
                i.request_id@,
                i.request_payload.model(),
            ),
            AnyIssuedRequest::BlockLogs(i) => Issued::BlockLogs(
                i.request_id@,
                i.request_payload.model(),
            ),
            AnyIssuedRequest::PoolMetadata(i) => Issued::PoolMetadata(
                i.request_id@,
                i.request_payload.model(),
            ),
            AnyIssuedRequest::TokenMetadata(i) => Issued::TokenMetadata(
                i.request_id@,
                i.request_payload.model(),
            ),
            AnyIssuedRequest::PoolData(i) => Issued::PoolData(
                i.request_id@,
                i.request_payload.model(),
            ),
        }
    }
}

impl Payload for GetBlockLogs {
    type Model = BlockHash;

    open spec fn model(&self) -> BlockHash {
        self.block_hash
    }

    open spec fn target(payload: BlockHash) -> BlockHash {
        payload
    }

    fn target_block(&self) -> (r: BlockHash) {
        self.block_hash
    }

    fn duplicate(&self) -> (r: GetBlockLogs) {
        GetBlockLogs { block_hash: self.block_hash }
    }
}

impl Payload for GetBlockHeader {
    type Model = BlockHash;

    open spec fn model(&self) -> BlockHash {
        self.block_hash
    }

    open spec fn target(payload: BlockHash) -> BlockHash {
        payload
    }

    fn target_block(&self) -> (r: BlockHash) {
        self.block_hash
    }

    fn duplicate(&self) -> (r: GetBlockHeader) {
        GetBlockHeader { block_hash: self.block_hash }
    }
}

impl Payload for GetPoolMetadata {
    type Model = Batch<ProtocolPoolKey>;

    open spec fn model(&self) -> Batch<ProtocolPoolKey> {
        Batch { at: self.at, items: self.candidates@ }
    }

    open spec fn target(payload: Batch<ProtocolPoolKey>) -> BlockHash {
        payload.at
    }

    fn target_block(&self) -> (r: BlockHash) {
        self.at
    }

    fn duplicate(&self) -> (r: GetPoolMetadata) {
        GetPoolMetadata { at: self.at, candidates: self.candidates.copied() }
    }
}

impl Payload for GetTokenMetadata {
    type Model = Batch<TokenAddress>;

    open spec fn model(&self) -> Batch<TokenAddress> {
        Batch { at: self.at, items: self.tokens@ }
    }

    open spec fn target(payload: Batch<TokenAddress>) -> BlockHash {
        payload.at
    }

    fn target_block(&self) -> (r: BlockHash) {
        self.at
    }

    fn duplicate(&self) -> (r: GetTokenMetadata) {
        GetTokenMetadata { at: self.at, tokens: self.tokens.copied() }
    }
}

impl Payload for GetPoolData {
    type Model = Batch<PoolRef>;

    open spec fn model(&self) -> Batch<PoolRef> {
        Batch { at: self.at, items: self.pools@ }
    }

    open spec fn target(payload: Batch<PoolRef>) -> BlockHash {
        payload.at
    }

    fn target_block(&self) -> (r: BlockHash) {
        self.at
    }

    fn duplicate(&self) -> (r: GetPoolData) {
        GetPoolData { at: self.at, pools: self.pools.copied() }
    }
}

impl Clone for GetPoolMetadata {
    fn clone(&self) -> (r: GetPoolMetadata)
        ensures
            r.model() == self.model(),
    {
        self.duplicate()
    }
}

impl Clone for GetTokenMetadata {
    fn clone(&self) -> (r: GetTokenMetadata)
        ensures
            r.model() == self.model(),
    {
        self.duplicate()
    }
}

impl Clone for GetPoolData {
    fn clone(&self) -> (r: GetPoolData)
        ensures
            r.model() == self.model(),
    {
        self.duplicate()
    }
}

/// A payload that asks for several things at once.
pub trait BatchPayload: Payload<Model = Batch<<Self as BatchPayload>::Item>> {
    type Item: Key;

    fn items(&self) -> (r: &OrdSet<Self::Item>)
        ensures
            r@ == self.model().items,
    ;
}

impl BatchPayload for GetPoolMetadata {
    type Item = ProtocolPoolKey;

    fn items(&self) -> (r: &OrdSet<ProtocolPoolKey>) {
        &self.candidates
    }
}

impl BatchPayload for GetTokenMetadata {
    type Item = TokenAddress;

    fn items(&self) -> (r: &OrdSet<TokenAddress>) {
        &self.tokens
    }
}

impl BatchPayload for GetPoolData {
    type Item = PoolRef;

    fn items(&self) -> (r: &OrdSet<PoolRef>) {
        &self.pools
    }
}

/// The requests in flight, of every kind, and the last identifier handed out.
#[verifier::ext_equal]
pub struct RequestsModel {
    pub last_id: u64,
    pub headers: Map<u64, InFlight<BlockHash>>,
    pub logs: Map<u64, InFlight<BlockHash>>,
    pub pool_metadata: Map<u64, InFlight<Batch<ProtocolPoolKey>>>,
    pub token_metadata: Map<u64, InFlight<Batch<TokenAddress>>>,
    pub pool_data: Map<u64, InFlight<Batch<PoolRef>>>,
}

/// The blocks that requests are about.
pub open spec fn asked_blocks(requests: Map<u64, InFlight<BlockHash>>) -> Set<BlockHash> {
    Set::new(
        |h: BlockHash| exists|id: u64| #[trigger]
            requests.contains_key(id) && requests[id].payload == h,
    )
}

/// The things that requests ask for.
pub open spec fn asked_items<K>(requests: Map<u64, InFlight<Batch<K>>>) -> Set<K> {
    Set::new(
        |k: K| exists|id: u64| #[trigger]
            requests.contains_key(id) && requests[id].payload.items.contains(k),
    )
}

/// Dispatch times in identifier order.
pub open spec fn dispatch_times<P>(requests: Map<u64, InFlight<P>>) -> Seq<Tick> {
    ascending(requests.dom()).map_values(|id: u64| requests[id].dispatched_at)
}

impl RequestsModel {
    pub open spec fn empty() -> RequestsModel {
        RequestsModel {
            last_id: 0,
            headers: Map::empty(),
            logs: Map::empty(),
            pool_metadata: Map::empty(),
            token_metadata: Map::empty(),
            pool_data: Map::empty(),
        }
    }

    pub open spec fn total(self) -> nat {
        self.headers.len() + self.logs.len() + self.pool_metadata.len() + self.token_metadata.len()
            + self.pool_data.len()
    }

    /// Whether a request with this identifier is in flight.
    pub open spec fn contains(self, id: AnyId) -> bool {
        match id {
            AnyId::BlockHeader(n) => self.headers.contains_key(n),
            AnyId::BlockLogs(n) => self.logs.contains_key(n),
            AnyId::PoolMetadata(n) => self.pool_metadata.contains_key(n),
            AnyId::TokenMetadata(n) => self.token_metadata.contains_key(n),
            AnyId::PoolData(n) => self.pool_data.contains_key(n),
        }
    }

    /// The requests whose block is kept.
    pub open spec fn keeping(self, kept: Set<BlockHash>) -> RequestsModel {
        RequestsModel {
            last_id: self.last_id,
            headers: about::<GetBlockHeader>(self.headers, kept),
            logs: about::<GetBlockLogs>(self.logs, kept),
            pool_metadata: about::<GetPoolMetadata>(self.pool_metadata, kept),
            token_metadata: about::<GetTokenMetadata>(self.token_metadata, kept),
            pool_data: about::<GetPoolData>(self.pool_data, kept),
        }
    }

    /// The requests without one of them.
    pub open spec fn without<R: Request>(self, id: u64) -> RequestsModel {
        R::with_lane(self, R::lane(self).remove(id))
    }

    /// The requests with a new one, under the next identifier.
    pub open spec fn issue<R: Request>(self, payload: R::Model, now: Tick) -> RequestsModel {
        let id = next_id(self.last_id);
        R::with_lane(
            RequestsModel { last_id: id, ..self },
            R::lane(self).insert(id, InFlight { payload, dispatched_at: now }),
        )
    }

    /// The requests after one was sent again: it has a new identifier and a new dispatch time.
    pub open spec fn reissue<R: Request>(self, id: u64, now: Tick) -> RequestsModel {
        if R::lane(self).contains_key(id) {
            self.without::<R>(id).issue::<R>(R::lane(self)[id].payload, now)
        } else {
            self
        }
    }

    /// What is sent when a request is sent again.
    pub open spec fn reissued<R: Request>(self, id: u64) -> Option<Issued> {
        if R::lane(self).contains_key(id) {
            Some(R::issued(next_id(self.last_id), R::lane(self)[id].payload))
        } else {
            None
        }
    }

    /// The requests after the one with this identifier, if it is in flight, was sent again.
    pub open spec fn retry(self, id: AnyId, now: Tick) -> RequestsModel {
        match id {
            AnyId::BlockHeader(n) => self.reissue::<GetBlockHeader>(n, now),
            AnyId::BlockLogs(n) => self.reissue::<GetBlockLogs>(n, now),
            AnyId::PoolMetadata(n) => self.reissue::<GetPoolMetadata>(n, now),
            AnyId::TokenMetadata(n) => self.reissue::<GetTokenMetadata>(n, now),
            AnyId::PoolData(n) => self.reissue::<GetPoolData>(n, now),
        }
    }

    pub open spec fn retry_sends(self, id: AnyId) -> Option<Issued> {
        match id {
            AnyId::BlockHeader(n) => self.reissued::<GetBlockHeader>(n),
            AnyId::BlockLogs(n) => self.reissued::<GetBlockLogs>(n),
            AnyId::PoolMetadata(n) => self.reissued::<GetPoolMetadata>(n),
            AnyId::TokenMetadata(n) => self.reissued::<GetTokenMetadata>(n),
            AnyId::PoolData(n) => self.reissued::<GetPoolData>(n),
        }
    }

    /// The requests that are due again: headers, logs, pool metadata, token metadata, pool data.
    pub open spec fn due_ids(self, now: Tick) -> Seq<AnyId> {
        due(self.headers, now).map_values(|n: u64| AnyId::BlockHeader(n)) + due(
            self.logs,
            now,
        ).map_values(|n: u64| AnyId::BlockLogs(n)) + due(self.pool_metadata, now).map_values(
            |n: u64| AnyId::PoolMetadata(n),
        ) + due(self.token_metadata, now).map_values(|n: u64| AnyId::TokenMetadata(n)) + due(
            self.pool_data,
            now,
        ).map_values(|n: u64| AnyId::PoolData(n))
    }

    /// The requests after several were sent again, one after the other.
    pub open spec fn retry_all(self, ids: Seq<AnyId>, now: Tick) -> RequestsModel
        decreases ids.len(),
    {
        if ids.len() == 0 {
            self
        } else {
            self.retry_all(ids.drop_last(), now).retry(ids.last(), now)
        }
    }

    pub open spec fn retry_all_sends(self, ids: Seq<AnyId>, now: Tick) -> Seq<Issued>
        decreases ids.len(),
    {
        if ids.len() == 0 {
            Seq::empty()
        } else {
            let before = self.retry_all_sends(ids.drop_last(), now);
            match self.retry_all(ids.drop_last(), now).retry_sends(ids.last()) {
                Some(issued) => before.push(issued),
                None => before,
            }
        }
    }
}

/// A kind of request: where its requests are kept, and how one is announced.
pub trait Request: Payload {
    spec fn lane(p: RequestsModel) -> Map<u64, InFlight<Self::Model>>;

    spec fn with_lane(p: RequestsModel, lane: Map<u64, InFlight<Self::Model>>) -> RequestsModel;

    spec fn issued(id: u64, payload: Self::Model) -> Issued;

    proof fn lane_laws(
        p: RequestsModel,
        a: Map<u64, InFlight<Self::Model>>,
        b: Map<u64, InFlight<Self::Model>>,
    )
        ensures
            Self::lane(Self::with_lane(p, a)) == a,
            Self::with_lane(Self::with_lane(p, a), b) == Self::with_lane(p, b),
            Self::with_lane(p, Self::lane(p)) == p,
            Self::with_lane(p, a).last_id == p.last_id,
            Self::lane(RequestsModel { last_id: 0, ..p }) == Self::lane(p),
    ;

    fn collection(p: &PendingRequests) -> (r: &RequestCollection<Self>)
        ensures
            r@ == Self::lane(p@),
    ;

    fn exchange(p: PendingRequests, lane: RequestCollection<Self>) -> (r: (
        PendingRequests,
        RequestCollection<Self>,
    ))
        ensures
            r.0@ == Self::with_lane(p@, lane@),
            r.1@ == Self::lane(p@),
    ;

    fn announce(issued: IssuedRequest<Self>) -> (r: AnyIssuedRequest)
        ensures
            r@ == Self::issued(issued.request_id@, issued.request_payload.model()),
    ;
}

impl Request for GetBlockHeader {
    open spec fn lane(p: RequestsModel) -> Map<u64, InFlight<BlockHash>> {
        p.headers
    }

    open spec fn with_lane(p: RequestsModel, lane: Map<u64, InFlight<BlockHash>>) -> RequestsModel {
        RequestsModel { headers: lane, ..p }
    }

    open spec fn issued(id: u64, payload: BlockHash) -> Issued {
        Issued::BlockHeader(id, payload)
    }

    proof fn lane_laws(
        p: RequestsModel,
        a: Map<u64, InFlight<BlockHash>>,
        b: Map<u64, InFlight<BlockHash>>,
    ) {
    }

    fn collection(p: &PendingRequests) -> (r: &RequestCollection<GetBlockHeader>) {
        &p.block_headers
    }

    fn exchange(p: PendingRequests, lane: RequestCollection<GetBlockHeader>) -> (r: (
        PendingRequests,
        RequestCollection<GetBlockHeader>,
    )) {
        let mut p = p;
        let old_lane = p.block_headers;
        p.block_headers = lane;
        (p, old_lane)
    }

    fn announce(issued: IssuedRequest<GetBlockHeader>) -> (r: AnyIssuedRequest) {
        AnyIssuedRequest::BlockHeader(issued)
    }
}

impl Request for GetBlockLogs {
    open spec fn lane(p: RequestsModel) -> Map<u64, InFlight<BlockHash>> {
        p.logs
    }

    open spec fn with_lane(p: RequestsModel, lane: Map<u64, InFlight<BlockHash>>) -> RequestsModel {
        RequestsModel { logs: lane, ..p }
    }

    open spec fn issued(id: u64, payload: BlockHash) -> Issued {
        Issued::BlockLogs(id, payload)
    }

    proof fn lane_laws(
        p: RequestsModel,
        a: Map<u64, InFlight<BlockHash>>,
        b: Map<u64, InFlight<BlockHash>>,
    ) {
    }

    fn collection(p: &PendingRequests) -> (r: &RequestCollection<GetBlockLogs>) {
        &p.block_logs
    }

    fn exchange(p: PendingRequests, lane: RequestCollection<GetBlockLogs>) -> (r: (
        PendingRequests,
        RequestCollection<GetBlockLogs>,
    )) {
        let mut p = p;
        let old_lane = p.block_logs;
        p.block_logs = lane;
        (p, old_lane)
    }

    fn announce(issued: IssuedRequest<GetBlockLogs>) -> (r: AnyIssuedRequest) {
        AnyIssuedRequest::BlockLogs(issued)
    }
}

impl Request for GetPoolMetadata {
    open spec fn lane(p: RequestsModel) -> Map<u64, InFlight<Batch<ProtocolPoolKey>>> {
        p.pool_metadata
    }

    open spec fn with_lane(
        p: RequestsModel,
        lane: Map<u64, InFlight<Batch<ProtocolPoolKey>>>,
    ) -> RequestsModel {
        RequestsModel { pool_metadata: lane, ..p }
    }

    open spec fn issued(id: u64, payload: Batch<ProtocolPoolKey>) -> Issued {
        Issued::PoolMetadata(id, payload)
    }

    proof fn lane_laws(
        p: RequestsModel,
        a: Map<u64, InFlight<Batch<ProtocolPoolKey>>>,
        b: Map<u64, InFlight<Batch<ProtocolPoolKey>>>,
    ) {
    }

    fn collection(p: &PendingRequests) -> (r: &RequestCollection<GetPoolMetadata>) {
        &p.pool_metadata
    }

    fn exchange(p: PendingRequests, lane: RequestCollection<GetPoolMetadata>) -> (r: (
        PendingRequests,
        RequestCollection<GetPoolMetadata>,
    )) {
        let mut p = p;
        let old_lane = p.pool_metadata;
        p.pool_metadata = lane;
        (p, old_lane)
    }

    fn announce(issued: IssuedRequest<GetPoolMetadata>) -> (r: AnyIssuedRequest) {
        AnyIssuedRequest::PoolMetadata(issued)
    }
}

impl Request for GetTokenMetadata {
    open spec fn lane(p: RequestsModel) -> Map<u64, InFlight<Batch<TokenAddress>>> {
        p.token_metadata
    }

    open spec fn with_lane(
        p: RequestsModel,
        lane: Map<u64, InFlight<Batch<TokenAddress>>>,
    ) -> RequestsModel {
        RequestsModel { token_metadata: lane, ..p }
    }

    open spec fn issued(id: u64, payload: Batch<TokenAddress>) -> Issued {
        Issued::TokenMetadata(id, payload)
    }

    proof fn lane_laws(
        p: RequestsModel,
        a: Map<u64, InFlight<Batch<TokenAddress>>>,
        b: Map<u64, InFlight<Batch<TokenAddress>>>,
    ) {
    }

    fn collection(p: &PendingRequests) -> (r: &RequestCollection<GetTokenMetadata>) {
        &p.token_metadata
    }

    fn exchange(p: PendingRequests, lane: RequestCollection<GetTokenMetadata>) -> (r: (
        PendingRequests,
        RequestCollection<GetTokenMetadata>,
    )) {
        let mut p = p;
        let old_lane = p.token_metadata;
        p.token_metadata = lane;
        (p, old_lane)
    }

    fn announce(issued: IssuedRequest<GetTokenMetadata>) -> (r: AnyIssuedRequest) {
        AnyIssuedRequest::TokenMetadata(issued)
    }
}

impl Request for GetPoolData {
    open spec fn lane(p: RequestsModel) -> Map<u64, InFlight<Batch<PoolRef>>> {
        p.pool_data
    }

    open spec fn with_lane(p: RequestsModel, lane: Map<u64, InFlight<Batch<PoolRef>>>) -> RequestsModel {
        RequestsModel { pool_data: lane, ..p }
    }

    open spec fn issued(id: u64, payload: Batch<PoolRef>) -> Issued {
        Issued::PoolData(id, payload)
    }

    proof fn lane_laws(
        p: RequestsModel,
        a: Map<u64, InFlight<Batch<PoolRef>>>,
        b: Map<u64, InFlight<Batch<PoolRef>>>,
    ) {
    }

    fn collection(p: &PendingRequests) -> (r: &RequestCollection<GetPoolData>) {
        &p.pool_data
    }

    fn exchange(p: PendingRequests, lane: RequestCollection<GetPoolData>) -> (r: (
        PendingRequests,
        RequestCollection<GetPoolData>,
    )) {
        let mut p = p;
        let old_lane = p.pool_data;
        p.pool_data = lane;
        (p, old_lane)
    }

    fn announce(issued: IssuedRequest<GetPoolData>) -> (r: AnyIssuedRequest) {
        AnyIssuedRequest::PoolData(issued)
    }
}

/// The requests in flight.
#[derive(Debug, PartialEq, Eq)]
pub struct PendingRequests {
    request_ids: RequestIdSequence,
    block_logs: RequestCollection<GetBlockLogs>,
    block_headers: RequestCollection<GetBlockHeader>,
    pool_metadata: RequestCollection<GetPoolMetadata>,
    token_metadata: RequestCollection<GetTokenMetadata>,
    pool_data: RequestCollection<GetPoolData>,
}

impl View for PendingRequests {
    type V = RequestsModel;

    closed spec fn view(&self) -> RequestsModel {
        RequestsModel {
            last_id: self.request_ids.last,
            headers: self.block_headers@,
            logs: self.block_logs@,
            pool_metadata: self.pool_metadata@,
            token_metadata: self.token_metadata@,
            pool_data: self.pool_data@,
        }
    }
}

pub open spec fn ids_view(s: Seq<AnyRequestId>) -> Seq<AnyId> {
    Seq::new(s.len(), |i: int| s[i]@)
}

pub open spec fn issued_view(s: Seq<AnyIssuedRequest>) -> Seq<Issued> {
    Seq::new(s.len(), |i: int| s[i]@)
}

impl PendingRequests {
    /// Nothing in flight.
    pub fn new() -> (r: PendingRequests)
        ensures
            r@ == RequestsModel::empty(),
    {
        PendingRequests {
            request_ids: RequestIdSequence::new(),
            block_logs: RequestCollection::new(),
            block_headers: RequestCollection::new(),
            pool_metadata: RequestCollection::new(),
            token_metadata: RequestCollection::new(),
            pool_data: RequestCollection::new(),
        }
    }

    /// Takes a request out, when it is answered.
    pub fn take<R: Request>(self, request_id: &RequestId<R>) -> (r: (
        PendingRequests,
        Option<PendingPayload<R>>,
    ))
        ensures
            r.0@ == self@.without::<R>(request_id@),
            match r.1 {
                Some(p) => R::lane(self@).contains_key(request_id@) && R::lane(self@)[request_id@]
                    == p@,
                None => !R::lane(self@).contains_key(request_id@),
            },
    {
        let empty: RequestCollection<R> = RequestCollection::new();
        proof {
            R::lane_laws(self@, empty@, R::lane(self@).remove(request_id@));
        }
        let (rest, lane) = R::exchange(self, empty);
        let (lane, taken) = lane.without(request_id.raw());
        let (requests, _) = R::exchange(rest, lane);
        (requests, taken)
    }

    /// Adds a request under the next identifier.
    pub fn with_new_request<R: Request>(self, payload: R, tick: Tick) -> (r: (
        PendingRequests,
        RequestId<R>,
    ))
        ensures
            r.0@ == self@.issue::<R>(payload.model(), tick),
            r.1@ == next_id(self@.last_id),
    {
        let ghost before = self@;
        let mut advanced = self;
        advanced.request_ids = advanced.request_ids.next();
        let id: u64 = advanced.request_ids.last;
        let empty: RequestCollection<R> = RequestCollection::new();
        let ghost middle = advanced@;
        proof {
            R::lane_laws(
                middle,
                empty@,
                R::lane(before).insert(
                    id,
                    InFlight { payload: payload.model(), dispatched_at: tick },
                ),
            );
            R::lane_laws(before, empty@, empty@);
            assert(RequestsModel { last_id: 0, ..before } == RequestsModel {
                last_id: 0,
                ..middle
            });
        }
        let (rest, lane) = R::exchange(advanced, empty);
        let lane = lane.with(id, PendingPayload { payload, dispatched_at: tick });
        let (requests, _) = R::exchange(rest, lane);
        (requests, RequestId::from_raw(id))
    }

    /// How many requests are in flight.
    pub fn len(&self) -> (n: usize)
        requires
            self@.total() <= usize::MAX,
        ensures
            n == self@.total(),
    {
        self.block_headers.len() + self.block_logs.len() + self.pool_metadata.len()
            + self.token_metadata.len() + self.pool_data.len()
    }

    /// The blocks whose logs are being fetched.
    pub fn pending_block_log_hashes(&self) -> (r: OrdSet<BlockHash>)
        ensures
            r@ == asked_blocks(self@.logs),
    {
        blocks_asked_for(&self.block_logs)
    }

    /// The blocks whose headers are being fetched.
    pub fn pending_header_hashes(&self) -> (r: OrdSet<BlockHash>)
        ensures
            r@ == asked_blocks(self@.headers),
    {
        blocks_asked_for(&self.block_headers)
    }

    /// Whether the header of `block_hash` is being fetched.
    pub fn has_pending_header_request(&self, block_hash: BlockHash) -> (r: bool)
        ensures
            r == asked_blocks(self@.headers).contains(block_hash),
    {
        self.pending_header_hashes().contains(&block_hash)
    }

    /// The candidates being validated.
    pub fn pending_pool_metadata_candidates(&self) -> (r: OrdSet<ProtocolPoolKey>)
        ensures
            r@ == asked_items(self@.pool_metadata),
    {
        items_asked_for(&self.pool_metadata)
    }

    /// The tokens being asked about.
    pub fn pending_token_metadata_tokens(&self) -> (r: OrdSet<TokenAddress>)
        ensures
            r@ == asked_items(self@.token_metadata),
    {
        items_asked_for(&self.token_metadata)
    }

    /// The pools whose anchor state is being read.
    pub fn pending_pool_data_pools(&self) -> (r: OrdSet<PoolRef>)
        ensures
            r@ == asked_items(self@.pool_data),
    {
        items_asked_for(&self.pool_data)
    }

    /// Whether a header or the logs of a block are being fetched.
    pub fn has_pending_block_backfill(&self) -> (r: bool)
        ensures
            r == (self@.headers.dom() != Set::<u64>::empty() || self@.logs.dom() != Set::<
                u64,
            >::empty()),
    {
        !self.block_headers.is_empty() || !self.block_logs.is_empty()
    }

    /// Drops every request that is about a block that is not kept.
    pub fn retaining_block_targets(self, retained_blocks: &OrdSet<BlockHash>) -> (r: PendingRequests)
        ensures
            r@ == self@.keeping(retained_blocks@),
    {
        PendingRequests {
            request_ids: self.request_ids,
            block_headers: self.block_headers.retaining(retained_blocks),
            block_logs: self.block_logs.retaining(retained_blocks),
            pool_metadata: self.pool_metadata.retaining(retained_blocks),
            token_metadata: self.token_metadata.retaining(retained_blocks),
            pool_data: self.pool_data.retaining(retained_blocks),
        }
    }

    /// The requests that are due again.
    pub fn expired_ids(&self, tick: Tick) -> (r: Vec<AnyRequestId>)
        ensures
            ids_view(r@) == self@.due_ids(tick),
    {
        let headers = self.block_headers.due_ids(tick);
        let logs = self.block_logs.due_ids(tick);
        let pool_metadata = self.pool_metadata.due_ids(tick);
        let token_metadata = self.token_metadata.due_ids(tick);
        let pool_data = self.pool_data.due_ids(tick);
        let mut r: Vec<AnyRequestId> = Vec::new();
        let ghost s1 = headers@.map_values(|n: u64| AnyId::BlockHeader(n));
        let ghost s2 = s1 + logs@.map_values(|n: u64| AnyId::BlockLogs(n));
        let ghost s3 = s2 + pool_metadata@.map_values(|n: u64| AnyId::PoolMetadata(n));
        let ghost s4 = s3 + token_metadata@.map_values(|n: u64| AnyId::TokenMetadata(n));
        let ghost s5 = s4 + pool_data@.map_values(|n: u64| AnyId::PoolData(n));
        for i in 0..headers.len()
            invariant
                s1 == headers@.map_values(|n: u64| AnyId::BlockHeader(n)),
                ids_view(r@) =~= s1.take(i as int),
        {
            let ghost before = r@;
            let id = AnyRequestId::BlockHeader(RequestId::from_raw(headers[i]));
            r.push(id);
            assert(ids_view(r@) =~= ids_view(before).push(id@));
            assert(s1[i as int] == id@);
        }
        for i in 0..logs.len()
            invariant
                s2 == s1 + logs@.map_values(|n: u64| AnyId::BlockLogs(n)),
                ids_view(r@) =~= s2.take(s1.len() + i),
        {
            let ghost before = r@;
            let id = AnyRequestId::BlockLogs(RequestId::from_raw(logs[i]));
            r.push(id);
            assert(ids_view(r@) =~= ids_view(before).push(id@));
            assert(s2[s1.len() + i] == id@);
        }
        for i in 0..pool_metadata.len()
            invariant
                s3 == s2 + pool_metadata@.map_values(|n: u64| AnyId::PoolMetadata(n)),
                ids_view(r@) =~= s3.take(s2.len() + i),
        {
            let ghost before = r@;
            let id = AnyRequestId::PoolMetadata(RequestId::from_raw(pool_metadata[i]));
            r.push(id);
            assert(ids_view(r@) =~= ids_view(before).push(id@));
            assert(s3[s2.len() + i] == id@);
        }
        for i in 0..token_metadata.len()
            invariant
                s4 == s3 + token_metadata@.map_values(|n: u64| AnyId::TokenMetadata(n)),
                ids_view(r@) =~= s4.take(s3.len() + i),
        {
            let ghost before = r@;
            let id = AnyRequestId::TokenMetadata(RequestId::from_raw(token_metadata[i]));
            r.push(id);
            assert(ids_view(r@) =~= ids_view(before).push(id@));
            assert(s4[s3.len() + i] == id@);
        }
        for i in 0..pool_data.len()
            invariant
                s5 == s4 + pool_data@.map_values(|n: u64| AnyId::PoolData(n)),
                ids_view(r@) =~= s5.take(s4.len() + i),
        {
            let ghost before = r@;
            let id = AnyRequestId::PoolData(RequestId::from_raw(pool_data[i]));
            r.push(id);
            assert(ids_view(r@) =~= ids_view(before).push(id@));
            assert(s5[s4.len() + i] == id@);
        }
        assert(ids_view(r@) =~= self@.due_ids(tick));
        r
    }

    /// Sends every request again that is due.
    pub fn retry_expired(self, tick: Tick) -> (r: (PendingRequests, Vec<AnyIssuedRequest>))
        ensures
            r.0@ == self@.retry_all(self@.due_ids(tick), tick),
            issued_view(r.1@) == self@.retry_all_sends(self@.due_ids(tick), tick),
    {
        let ghost start = self@;
        let ids = self.expired_ids(tick);
        let ghost all = ids_view(ids@);
        let mut requests = self;
        let mut sent: Vec<AnyIssuedRequest> = Vec::new();
        let n: usize = ids.len();
        assert(issued_view(sent@) =~= start.retry_all_sends(all.take(0), tick));
        for i in 0..n
            invariant
                n == ids@.len(),
                all == ids_view(ids@),
                requests@ == start.retry_all(all.take(i as int), tick),
                issued_view(sent@) == start.retry_all_sends(all.take(i as int), tick),
        {
            proof {
                lemma_take_next(all, i as int);
            }
            let (next, issued) = requests.retry(ids[i], tick);
            requests = next;
            if let Some(request) = issued {
                let ghost before = sent@;
                sent.push(request);
                assert(issued_view(sent@) =~= issued_view(before).push(request@));
            }
        }
        assert(all.take(n as int) =~= all);
        (requests, sent)
    }

    /// Sends a request again, if it is in flight: same payload, new identifier, new dispatch time.
    pub fn retry(self, request_id: AnyRequestId, tick: Tick) -> (r: (
        PendingRequests,
        Option<AnyIssuedRequest>,
    ))
        ensures
            r.0@ == self@.retry(request_id@, tick),
            match r.1 {
                Some(issued) => self@.retry_sends(request_id@) == Some(issued@),
                None => self@.retry_sends(request_id@) is None,
            },
    {
        match request_id {
            AnyRequestId::BlockHeader(id) => self.retry_typed(id, tick),
            AnyRequestId::BlockLogs(id) => self.retry_typed(id, tick),
            AnyRequestId::PoolMetadata(id) => self.retry_typed(id, tick),
            AnyRequestId::TokenMetadata(id) => self.retry_typed(id, tick),
            AnyRequestId::PoolData(id) => self.retry_typed(id, tick),
        }
    }

    fn retry_typed<R: Request>(self, request_id: RequestId<R>, tick: Tick) -> (r: (
        PendingRequests,
        Option<AnyIssuedRequest>,
    ))
        ensures
            r.0@ == self@.reissue::<R>(request_id@, tick),
            match r.1 {
                Some(issued) => self@.reissued::<R>(request_id@) == Some(issued@),
                None => self@.reissued::<R>(request_id@) is None,
            },
    {
        let ghost before = self@;
        proof {
            R::lane_laws(before, R::lane(before).remove(request_id@), R::lane(before));
        }
        let (requests, taken) = self.take(&request_id);
        match taken {
            None => {
                proof {
                    assert(R::lane(before).remove(request_id@) =~= R::lane(before));
                }
                (requests, None)
            },
            Some(pending) => {
                let payload = pending.payload.duplicate();
                let (requests, new_id) = requests.with_new_request(pending.payload, tick);
                (
                    requests,
                    Some(
                        R::announce(IssuedRequest { request_id: new_id, request_payload: payload }),
                    ),
                )
            },
        }
    }

    /// The last identifier handed out.
    pub fn last_request_id(&self) -> (r: u64)
        ensures
            r == self@.last_id,
    {
        self.request_ids.last
    }

    pub fn get<R: Request>(&self, request_id: &RequestId<R>) -> (r: Option<&PendingPayload<R>>)
        ensures
            match r {
                Some(p) => R::lane(self@).contains_key(request_id@) && R::lane(self@)[request_id@]
                    == p@,
                None => !R::lane(self@).contains_key(request_id@),
            },
    {
        R::collection(self).get(request_id.raw())
    }

    pub fn contains<R: Request>(&self, request_id: &RequestId<R>) -> (r: bool)
        ensures
            r == R::lane(self@).contains_key(request_id@),
    {
        self.get(request_id).is_some()
    }

    /// Whether the request is in flight.
    pub fn contains_any(&self, request_id: AnyRequestId) -> (r: bool)
        ensures
            r == self@.contains(request_id@),
    {
        match request_id {
            AnyRequestId::BlockHeader(id) => self.contains(&id),
            AnyRequestId::BlockLogs(id) => self.contains(&id),
            AnyRequestId::PoolMetadata(id) => self.contains(&id),
            AnyRequestId::TokenMetadata(id) => self.contains(&id),
            AnyRequestId::PoolData(id) => self.contains(&id),
        }
    }

    /// How many header requests are in flight, counting each one.
    pub fn pending_header_request_count(&self) -> (n: usize)
        ensures
            n == self@.headers.len(),
    {
        self.block_headers.len()
    }

    /// When every request in flight was dispatched, kind by kind.
    pub fn dispatch_ticks(&self) -> (r: Vec<Tick>)
        ensures
            r@ == dispatch_times(self@.headers) + dispatch_times(self@.logs) + dispatch_times(
                self@.pool_metadata,
            ) + dispatch_times(self@.token_metadata) + dispatch_times(self@.pool_data),
    {
        let mut r: Vec<Tick> = Vec::new();
        r = with_dispatch_times(r, &self.block_headers);
        r = with_dispatch_times(r, &self.block_logs);
        r = with_dispatch_times(r, &self.pool_metadata);
        r = with_dispatch_times(r, &self.token_metadata);
        r = with_dispatch_times(r, &self.pool_data);
        assert(r@ =~= dispatch_times(self@.headers) + dispatch_times(self@.logs) + dispatch_times(
            self@.pool_metadata,
        ) + dispatch_times(self@.token_metadata) + dispatch_times(self@.pool_data));
        r
    }
}

fn with_dispatch_times<R: Payload>(times: Vec<Tick>, c: &RequestCollection<R>) -> (r: Vec<Tick>)
    ensures
        r@ == times@ + dispatch_times(c@),
{
    let ghost start = times@;
    let mut r = times;
    let n: usize = c.len();
    let ghost all = dispatch_times(c@);
    proof {
        lemma_walk(c@.dom());
        assert(start + all.take(0) =~= start);
    }
    for i in 0..n
        invariant
            n == c@.len(),
            all == dispatch_times(c@),
            all.len() == n,
            r@ == start + all.take(i as int),
    {
        r.push(c.at(i).dispatched_at);
        assert(r@ =~= start + all.take(i + 1));
    }
    assert(all.take(n as int) =~= all);
    r
}

/// The blocks that requests for a block are about.
fn blocks_asked_for<R: Payload<Model = BlockHash>>(c: &RequestCollection<R>) -> (r: OrdSet<BlockHash>)
    requires
        forall|payload: BlockHash| #[trigger] R::target(payload) == payload,
    ensures
        r@ == asked_blocks(c@),
{
    let mut r: OrdSet<BlockHash> = OrdSet::new();
    let n: usize = c.len();
    let ghost listed = ascending(c@.dom());
    proof {
        lemma_walk(c@.dom());
    }
    for i in 0..n
        invariant
            n == c@.len(),
            listed == ascending(c@.dom()),
            lists(listed, c@.dom()),
            listed.len() == n,
            forall|payload: BlockHash| #[trigger] R::target(payload) == payload,
            forall|h: BlockHash| #[trigger]
                r@.contains(h) <==> exists|j: int| 0 <= j < i && c@[#[trigger] listed[j]].payload
                    == h,
    {
        let ghost before = r@;
        let request = c.at(i);
        let hash = request.payload.target_block();
        r = r.with(hash);
        proof {
            assert(R::target(request.payload.model()) == request.payload.model());
            assert(c@[listed[i as int]].payload == hash);
            assert forall|h: BlockHash| #[trigger] r@.contains(h) <==> exists|j: int|
                0 <= j < i + 1 && c@[#[trigger] listed[j]].payload == h by {
                if before.contains(h) {
                    let j = choose|j: int| 0 <= j < i && c@[#[trigger] listed[j]].payload == h;
                    assert(c@[listed[j]].payload == h);
                }
                if exists|j: int| 0 <= j < i + 1 && c@[#[trigger] listed[j]].payload == h {
                    let j = choose|j: int| 0 <= j < i + 1 && c@[#[trigger] listed[j]].payload == h;
                    if j < i {
                        assert(before.contains(h));
                    }
                }
            }
        }
    }
    proof {
        assert forall|h: BlockHash| r@.contains(h) <==> asked_blocks(c@).contains(h) by {
            if r@.contains(h) {
                let j = choose|j: int| 0 <= j < n && c@[#[trigger] listed[j]].payload == h;
                assert(listed.contains(listed[j]));
                assert(c@.contains_key(listed[j]));
            }
            if asked_blocks(c@).contains(h) {
                let id = choose|id: u64| #[trigger] c@.contains_key(id) && c@[id].payload == h;
                assert(listed.contains(id));
                let j = choose|j: int| 0 <= j < listed.len() && listed[j] == id;
                assert(c@[listed[j]].payload == h);
            }
        }
        assert(r@ =~= asked_blocks(c@));
    }
    r
}

/// Everything that batch requests ask for.
fn items_asked_for<R: BatchPayload>(c: &RequestCollection<R>) -> (r: OrdSet<R::Item>)
    ensures
        r@ == asked_items(c@),
{
    let mut r: OrdSet<R::Item> = OrdSet::new();
    let n: usize = c.len();
    let ghost listed = ascending(c@.dom());
    proof {
        lemma_walk(c@.dom());
    }
    for i in 0..n
        invariant
            n == c@.len(),
            listed == ascending(c@.dom()),
            lists(listed, c@.dom()),
            listed.len() == n,
            forall|k: R::Item| #[trigger]
                r@.contains(k) <==> exists|j: int|
                    0 <= j < i && c@[#[trigger] listed[j]].payload.items.contains(k),
    {
        let ghost before = r@;
        let request = c.at(i);
        r = r.with_all(request.payload.items());
        proof {
            assert(c@[listed[i as int]].payload.items == request.payload.model().items);
            assert forall|k: R::Item| #[trigger] r@.contains(k) <==> exists|j: int|
                0 <= j < i + 1 && c@[#[trigger] listed[j]].payload.items.contains(k) by {
                if before.contains(k) {
                    let j = choose|j: int|
                        0 <= j < i && c@[#[trigger] listed[j]].payload.items.contains(k);
                    assert(c@[listed[j]].payload.items.contains(k));
                }
                if request.payload.model().items.contains(k) {
                    assert(c@[listed[i as int]].payload.items.contains(k));
                }
                if exists|j: int|
                    0 <= j < i + 1 && c@[#[trigger] listed[j]].payload.items.contains(k) {
                    let j = choose|j: int|
                        0 <= j < i + 1 && c@[#[trigger] listed[j]].payload.items.contains(k);
                    if j < i {
                        assert(before.contains(k));
                    }
                }
            }
        }
    }
    proof {
        assert forall|k: R::Item| r@.contains(k) <==> asked_items(c@).contains(k) by {
            if r@.contains(k) {
                let j = choose|j: int|
                    0 <= j < n && c@[#[trigger] listed[j]].payload.items.contains(k);
                assert(listed.contains(listed[j]));
                assert(c@.contains_key(listed[j]));
            }
            if asked_items(c@).contains(k) {
                let id = choose|id: u64| #[trigger]
                    c@.contains_key(id) && c@[id].payload.items.contains(k);
                assert(listed.contains(id));
                let j = choose|j: int| 0 <= j < listed.len() && listed[j] == id;
                assert(c@[listed[j]].payload.items.contains(k));
            }
        }
        assert(r@ =~= asked_items(c@));
    }
    r
}

} // verus!
