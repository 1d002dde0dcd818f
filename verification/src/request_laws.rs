//! What holds of the requests in flight: identifiers are fresh, nothing sent is lost, retries keep
//! what was asked for.
use vstd::prelude::*;

use crate::kernel_model::Plan;
use crate::order::{ascending, lemma_ascending, lemma_no_duplicates};
use crate::pending_requests::{
    asked_blocks, asked_items, AnyId, Batch, GetBlockHeader, GetBlockLogs, GetPoolData,
    GetPoolMetadata, GetTokenMetadata, Issued, Request, RequestsModel,
};
use crate::pool_state::{PoolRef, ProtocolPoolKey};
use crate::primitives::BlockHash;
use crate::request_tracking::{due, due_test, next_id, InFlight};
use crate::tick::{expired, Tick};
use crate::token_registry::TokenAddress;

verus! {

/// What a request asks for, whatever its identifier.
#[verifier::ext_equal]
pub enum Ask {
    Header(BlockHash),
    Logs(BlockHash),
    Pools(Batch<ProtocolPoolKey>),
    Tokens(Batch<TokenAddress>),
    States(Batch<PoolRef>),
}

/// What is asked for, and since when.
#[verifier::ext_equal]
pub struct Flight {
    pub what: Ask,
    pub since: Tick,
}

/// The number inside an identifier.
pub open spec fn number_of(id: AnyId) -> u64 {
    match id {
        AnyId::BlockHeader(n) => n,
        AnyId::BlockLogs(n) => n,
        AnyId::PoolMetadata(n) => n,
        AnyId::TokenMetadata(n) => n,
        AnyId::PoolData(n) => n,
    }
}

/// The identifier of the same kind with another number.
pub open spec fn renumbered(id: AnyId, number: u64) -> AnyId {
    match id {
        AnyId::BlockHeader(_) => AnyId::BlockHeader(number),
        AnyId::BlockLogs(_) => AnyId::BlockLogs(number),
        AnyId::PoolMetadata(_) => AnyId::PoolMetadata(number),
        AnyId::TokenMetadata(_) => AnyId::TokenMetadata(number),
        AnyId::PoolData(_) => AnyId::PoolData(number),
    }
}

pub open spec fn id_of(issued: Issued) -> AnyId {
    match issued {
        Issued::BlockHeader(n, _) => AnyId::BlockHeader(n),
        Issued::BlockLogs(n, _) => AnyId::BlockLogs(n),
        Issued::PoolMetadata(n, _) => AnyId::PoolMetadata(n),
        Issued::TokenMetadata(n, _) => AnyId::TokenMetadata(n),
        Issued::PoolData(n, _) => AnyId::PoolData(n),
    }
}

pub open spec fn ask_of(issued: Issued) -> Ask {
    match issued {
        Issued::BlockHeader(_, h) => Ask::Header(h),
        Issued::BlockLogs(_, h) => Ask::Logs(h),
        Issued::PoolMetadata(_, b) => Ask::Pools(b),
        Issued::TokenMetadata(_, b) => Ask::Tokens(b),
        Issued::PoolData(_, b) => Ask::States(b),
    }
}

/// The request in flight under an identifier.
pub open spec fn flight(p: RequestsModel, id: AnyId) -> Flight {
    match id {
        AnyId::BlockHeader(n) => Flight {
            what: Ask::Header(p.headers[n].payload),
            since: p.headers[n].dispatched_at,
        },
        AnyId::BlockLogs(n) => Flight {
            what: Ask::Logs(p.logs[n].payload),
            since: p.logs[n].dispatched_at,
        },
        AnyId::PoolMetadata(n) => Flight {
            what: Ask::Pools(p.pool_metadata[n].payload),
            since: p.pool_metadata[n].dispatched_at,
        },
        AnyId::TokenMetadata(n) => Flight {
            what: Ask::Tokens(p.token_metadata[n].payload),
            since: p.token_metadata[n].dispatched_at,
        },
        AnyId::PoolData(n) => Flight {
            what: Ask::States(p.pool_data[n].payload),
            since: p.pool_data[n].dispatched_at,
        },
    }
}

/// No identifier in flight is later than the last one handed out.
pub open spec fn ids_handed_out(p: RequestsModel) -> bool {
    forall|id: AnyId| #[trigger] p.contains(id) ==> number_of(id) <= p.last_id
}

/// Everything in flight in `p` is in flight in `q`, unchanged.
pub open spec fn keeps_all(p: RequestsModel, q: RequestsModel) -> bool {
    forall|id: AnyId| #[trigger]
        p.contains(id) ==> q.contains(id) && flight(q, id) == flight(p, id)
}

/// What was sent is in flight, with what it asks for.
pub open spec fn recorded(p: RequestsModel, issued: Issued) -> bool {
    p.contains(id_of(issued)) && flight(p, id_of(issued)).what == ask_of(issued)
}

pub open spec fn all_recorded(plan: Plan) -> bool {
    forall|i: int| 0 <= i < plan.sent.len() ==> recorded(plan.requests, #[trigger] plan.sent[i])
}

/// One request to fetch a header for each header that is being fetched.
pub open spec fn one_request_per_header(p: RequestsModel) -> bool {
    forall|a: u64, b: u64|
        #![trigger p.headers[a], p.headers[b]]
        p.headers.contains_key(a) && p.headers.contains_key(b) && a != b ==> p.headers[a].payload
            != p.headers[b].payload
}

pub open spec fn requests_finite(p: RequestsModel) -> bool {
    &&& p.headers.dom().finite()
    &&& p.logs.dom().finite()
    &&& p.pool_metadata.dom().finite()
    &&& p.token_metadata.dom().finite()
    &&& p.pool_data.dom().finite()
}

/// Two plans that differ by requests added.
pub open spec fn added(from: Plan, to: Plan) -> bool {
    &&& ids_handed_out(to.requests)
    &&& keeps_all(from.requests, to.requests)
    &&& forall|id: AnyId| #[trigger]
        to.requests.contains(id) ==> from.requests.contains(id) || from.requests.last_id
            < number_of(id)
    &&& from.sent.len() <= to.sent.len()
    &&& to.requests.last_id - from.requests.last_id == to.sent.len() - from.sent.len()
    &&& forall|i: int| 0 <= i < from.sent.len() ==> #[trigger] to.sent[i] == from.sent[i]
    &&& forall|i: int|
        from.sent.len() <= i < to.sent.len() ==> recorded(to.requests, #[trigger] to.sent[i])
}

pub proof fn lemma_added_join(a: Plan, b: Plan, c: Plan)
    requires
        added(a, b),
        added(b, c),
    ensures
        added(a, c),
{
    assert forall|id: AnyId| #[trigger] a.requests.contains(id) implies c.requests.contains(id)
        && flight(c.requests, id) == flight(a.requests, id) by {
        assert(b.requests.contains(id));
    }
    assert forall|i: int| a.sent.len() <= i < c.sent.len() implies recorded(
        c.requests,
        #[trigger] c.sent[i],
    ) by {
        if i < b.sent.len() {
            assert(c.sent[i] == b.sent[i]);
            assert(recorded(b.requests, b.sent[i]));
            assert(b.requests.contains(id_of(b.sent[i])));
        }
    }
    assert forall|i: int| 0 <= i < a.sent.len() implies #[trigger] c.sent[i] == a.sent[i] by {
        assert(b.sent[i] == a.sent[i]);
    }
}

pub proof fn lemma_added_none(a: Plan)
    requires
        ids_handed_out(a.requests),
    ensures
        added(a, a),
{
}

pub proof fn lemma_added_recorded(a: Plan, b: Plan)
    requires
        added(a, b),
        all_recorded(a),
    ensures
        all_recorded(b),
{
    assert forall|i: int| 0 <= i < b.sent.len() implies recorded(
        b.requests,
        #[trigger] b.sent[i],
    ) by {
        if i < a.sent.len() {
            assert(recorded(a.requests, a.sent[i]));
            assert(a.requests.contains(id_of(a.sent[i])));
        }
    }
}

/// What is in flight in `to` and was not in `from` was dispatched now.
pub open spec fn new_since(from: RequestsModel, to: RequestsModel, now: Tick) -> bool {
    forall|id: AnyId| #[trigger]
        to.contains(id) && !from.contains(id) ==> flight(to, id).since == now
}

/// A kind of request as seen here: a new one is kept beside all others.
pub trait Fresh: Request {
    proof fn ask_adds(plan: Plan, payload: Self::Model, now: Tick)
        requires
            ids_handed_out(plan.requests),
            plan.requests.last_id < u64::MAX,
        ensures
            added(plan, plan.ask::<Self>(payload, now)),
            new_since(plan.requests, plan.ask::<Self>(payload, now).requests, now),
    ;
}

proof fn lemma_ask_adds(
    plan: Plan,
    after: Plan,
    issued: Issued,
    since: Tick,
)
    requires
        ids_handed_out(plan.requests),
        plan.requests.last_id < u64::MAX,
        number_of(id_of(issued)) == plan.requests.last_id + 1,
        after.requests.last_id == plan.requests.last_id + 1,
        after.sent == plan.sent.push(issued),
        forall|id: AnyId| #[trigger]
            after.requests.contains(id) <==> plan.requests.contains(id) || id == id_of(issued),
        forall|id: AnyId|
            id != id_of(issued) ==> #[trigger] flight(after.requests, id) == flight(
                plan.requests,
                id,
            ),
        flight(after.requests, id_of(issued)) == (Flight { what: ask_of(issued), since }),
    ensures
        added(plan, after),
        new_since(plan.requests, after.requests, since),
{
    assert forall|id: AnyId| #[trigger] plan.requests.contains(id) implies after.requests.contains(id)
        && flight(after.requests, id) == flight(plan.requests, id) by {
        assert(number_of(id) <= plan.requests.last_id);
    }
}

impl Fresh for GetBlockHeader {
    proof fn ask_adds(plan: Plan, payload: BlockHash, now: Tick) {
        let id = next_id(plan.requests.last_id);
        lemma_ask_adds(
            plan,
            plan.ask::<GetBlockHeader>(payload, now),
            Issued::BlockHeader(id, payload),
            now,
        );
    }
}

impl Fresh for GetBlockLogs {
    proof fn ask_adds(plan: Plan, payload: BlockHash, now: Tick) {
        let id = next_id(plan.requests.last_id);
        lemma_ask_adds(
            plan,
            plan.ask::<GetBlockLogs>(payload, now),
            Issued::BlockLogs(id, payload),
            now,
        );
    }
}

impl Fresh for GetPoolMetadata {
    proof fn ask_adds(plan: Plan, payload: Batch<ProtocolPoolKey>, now: Tick) {
        let id = next_id(plan.requests.last_id);
        lemma_ask_adds(
            plan,
            plan.ask::<GetPoolMetadata>(payload, now),
            Issued::PoolMetadata(id, payload),
            now,
        );
    }
}

impl Fresh for GetTokenMetadata {
    proof fn ask_adds(plan: Plan, payload: Batch<TokenAddress>, now: Tick) {
        let id = next_id(plan.requests.last_id);
        lemma_ask_adds(
            plan,
            plan.ask::<GetTokenMetadata>(payload, now),
            Issued::TokenMetadata(id, payload),
            now,
        );
    }
}

impl Fresh for GetPoolData {
    proof fn ask_adds(plan: Plan, payload: Batch<PoolRef>, now: Tick) {
        let id = next_id(plan.requests.last_id);
        lemma_ask_adds(
            plan,
            plan.ask::<GetPoolData>(payload, now),
            Issued::PoolData(id, payload),
            now,
        );
    }
}

/// Asking for several things adds one request for each, in order.
pub proof fn lemma_ask_all_adds<R: Fresh>(plan: Plan, payloads: Seq<R::Model>, now: Tick)
    requires
        ids_handed_out(plan.requests),
        plan.requests.last_id + payloads.len() <= u64::MAX,
    ensures
        added(plan, plan.ask_all::<R>(payloads, now)),
        new_since(plan.requests, plan.ask_all::<R>(payloads, now).requests, now),
        plan.ask_all::<R>(payloads, now).sent.len() == plan.sent.len() + payloads.len(),
        forall|i: int|
            0 <= i < payloads.len() ==> #[trigger] plan.ask_all::<R>(payloads, now).sent[plan.sent.len()
                + i] == R::issued((plan.requests.last_id + 1 + i) as u64, payloads[i]),
    decreases payloads.len(),
{
    if payloads.len() == 0 {
        lemma_added_none(plan);
    } else {
        let shorter = payloads.drop_last();
        lemma_ask_all_adds::<R>(plan, shorter, now);
        let middle = plan.ask_all::<R>(shorter, now);
        let end = plan.ask_all::<R>(payloads, now);
        R::ask_adds(middle, payloads.last(), now);
        lemma_added_join(plan, middle, end);
        assert forall|i: int| 0 <= i < payloads.len() implies #[trigger] end.sent[plan.sent.len()
            + i] == R::issued((plan.requests.last_id + 1 + i) as u64, payloads[i]) by {
            if i < shorter.len() {
                assert(end.sent[plan.sent.len() + i] == middle.sent[plan.sent.len() + i]);
                assert(shorter[i] == payloads[i]);
            }
        }
    }
}

/// Asking for headers adds at most one request for each, and afterwards each of them is being
/// fetched.
pub proof fn lemma_ask_headers_adds(plan: Plan, hashes: Seq<BlockHash>, now: Tick)
    requires
        ids_handed_out(plan.requests),
        plan.requests.last_id + plan.ask_headers(hashes, now).sent.len() - plan.sent.len()
            <= u64::MAX,
    ensures
        added(plan, plan.ask_headers(hashes, now)),
        new_since(plan.requests, plan.ask_headers(hashes, now).requests, now),
        forall|i: int|
            0 <= i < hashes.len() ==> asked_blocks(
                plan.ask_headers(hashes, now).requests.headers,
            ).contains(#[trigger] hashes[i]),
    decreases hashes.len(),
{
    if hashes.len() == 0 {
        lemma_added_none(plan);
    } else {
        let shorter = hashes.drop_last();
        let h = hashes.last();
        let middle = plan.ask_headers(shorter, now);
        let end = plan.ask_headers(hashes, now);
        assert(middle.sent.len() <= end.sent.len());
        lemma_ask_headers_adds(plan, shorter, now);
        if asked_blocks(middle.requests.headers).contains(h) {
            lemma_added_none(middle);
        } else {
            GetBlockHeader::ask_adds(middle, h, now);
            let id = next_id(middle.requests.last_id);
            assert(end.requests.headers.contains_key(id));
        }
        lemma_added_join(plan, middle, end);
        lemma_asked_monotone(middle.requests, end.requests);
        assert forall|i: int| 0 <= i < hashes.len() implies asked_blocks(
            end.requests.headers,
        ).contains(#[trigger] hashes[i]) by {
            if i < shorter.len() {
                assert(shorter[i] == hashes[i]);
            }
        }
    }
}

/// What is being asked for stays so while requests are kept.
pub proof fn lemma_asked_monotone(p: RequestsModel, q: RequestsModel)
    requires
        keeps_all(p, q),
    ensures
        asked_blocks(p.headers).subset_of(asked_blocks(q.headers)),
        asked_blocks(p.logs).subset_of(asked_blocks(q.logs)),
        asked_items(p.pool_metadata).subset_of(asked_items(q.pool_metadata)),
        asked_items(p.token_metadata).subset_of(asked_items(q.token_metadata)),
        asked_items(p.pool_data).subset_of(asked_items(q.pool_data)),
{
    assert forall|h: BlockHash| asked_blocks(p.headers).contains(h) implies asked_blocks(
        q.headers,
    ).contains(h) by {
        let n = choose|n: u64| #[trigger] p.headers.contains_key(n) && p.headers[n].payload == h;
        assert(p.contains(AnyId::BlockHeader(n)));
        assert(q.headers.contains_key(n));
        assert(flight(q, AnyId::BlockHeader(n)) == flight(p, AnyId::BlockHeader(n)));
    }
    assert forall|h: BlockHash| asked_blocks(p.logs).contains(h) implies asked_blocks(
        q.logs,
    ).contains(h) by {
        let n = choose|n: u64| #[trigger] p.logs.contains_key(n) && p.logs[n].payload == h;
        assert(p.contains(AnyId::BlockLogs(n)));
        assert(q.logs.contains_key(n));
        assert(flight(q, AnyId::BlockLogs(n)) == flight(p, AnyId::BlockLogs(n)));
    }
    assert forall|k: ProtocolPoolKey| asked_items(p.pool_metadata).contains(k) implies asked_items(
        q.pool_metadata,
    ).contains(k) by {
        let n = choose|n: u64| #[trigger]
            p.pool_metadata.contains_key(n) && p.pool_metadata[n].payload.items.contains(k);
        assert(p.contains(AnyId::PoolMetadata(n)));
        assert(q.pool_metadata.contains_key(n));
        assert(flight(q, AnyId::PoolMetadata(n)) == flight(p, AnyId::PoolMetadata(n)));
    }
    assert forall|k: TokenAddress| asked_items(p.token_metadata).contains(k) implies asked_items(
        q.token_metadata,
    ).contains(k) by {
        let n = choose|n: u64| #[trigger]
            p.token_metadata.contains_key(n) && p.token_metadata[n].payload.items.contains(k);
        assert(p.contains(AnyId::TokenMetadata(n)));
        assert(q.token_metadata.contains_key(n));
        assert(flight(q, AnyId::TokenMetadata(n)) == flight(p, AnyId::TokenMetadata(n)));
    }
    assert forall|k: PoolRef| asked_items(p.pool_data).contains(k) implies asked_items(
        q.pool_data,
    ).contains(k) by {
        let n = choose|n: u64| #[trigger]
            p.pool_data.contains_key(n) && p.pool_data[n].payload.items.contains(k);
        assert(p.contains(AnyId::PoolData(n)));
        assert(q.pool_data.contains_key(n));
        assert(flight(q, AnyId::PoolData(n)) == flight(p, AnyId::PoolData(n)));
    }
}

// ---- one request at a time ----

/// A new request gets an identifier that nothing else has, and nothing else changes.
pub proof fn law_new_request_is_added<R: Fresh>(plan: Plan, payload: R::Model, now: Tick)
    requires
        ids_handed_out(plan.requests),
        plan.requests.last_id < u64::MAX,
    ensures
        added(plan, plan.ask::<R>(payload, now)),
        new_since(plan.requests, plan.ask::<R>(payload, now).requests, now),
        plan.ask::<R>(payload, now).sent == plan.sent.push(
            R::issued((plan.requests.last_id + 1) as u64, payload),
        ),
{
    R::ask_adds(plan, payload, now);
}

/// A retry keeps what was asked for: the request moves to a new identifier and is dispatched now,
/// every other request stays, and exactly that is sent.
pub proof fn law_retry_keeps_payload(p: RequestsModel, id: AnyId, now: Tick)
    requires
        ids_handed_out(p),
        p.last_id < u64::MAX,
        p.contains(id),
    ensures
        ({
            let q = p.retry(id, now);
            let new_id = renumbered(id, (p.last_id + 1) as u64);
            &&& ids_handed_out(q)
            &&& q.last_id == p.last_id + 1
            &&& forall|x: AnyId| #[trigger]
                q.contains(x) <==> (p.contains(x) && x != id) || x == new_id
            &&& flight(q, new_id) == (Flight { what: flight(p, id).what, since: now })
            &&& forall|x: AnyId|
                p.contains(x) && x != id ==> #[trigger] flight(q, x) == flight(p, x)
            &&& p.retry_sends(id) is Some
            &&& id_of(p.retry_sends(id)->0) == new_id
            &&& ask_of(p.retry_sends(id)->0) == flight(p, id).what
        }),
{
    let q = p.retry(id, now);
    let new_id = renumbered(id, (p.last_id + 1) as u64);
    assert forall|x: AnyId| #[trigger] q.contains(x) implies number_of(x) <= q.last_id by {
        if x != new_id {
            assert(p.contains(x));
        }
    }
    assert forall|x: AnyId| p.contains(x) && x != id implies #[trigger] flight(q, x) == flight(
        p,
        x,
    ) by {
        assert(number_of(x) <= p.last_id);
    }
}

/// Retrying what is not in flight changes nothing and sends nothing.
pub proof fn law_retry_of_unknown_is_ignored(p: RequestsModel, id: AnyId, now: Tick)
    requires
        !p.contains(id),
    ensures
        p.retry(id, now) == p,
        p.retry_sends(id) is None,
{
}

/// A retry never makes two requests for one header.
pub proof fn lemma_retry_one_per_header(p: RequestsModel, id: AnyId, now: Tick)
    requires
        one_request_per_header(p),
    ensures
        one_request_per_header(p.retry(id, now)),
{
}

// ---- the clock ----

/// The request under an identifier is due.
pub open spec fn is_due(p: RequestsModel, id: AnyId, now: Tick) -> bool {
    p.contains(id) && expired(now, flight(p, id).since)
}

proof fn lemma_due<P>(requests: Map<u64, InFlight<P>>, now: Tick)
    requires
        requests.dom().finite(),
    ensures
        due(requests, now).no_duplicates(),
        forall|n: u64| #[trigger]
            due(requests, now).contains(n) <==> requests.contains_key(n) && expired(
                now,
                requests[n].dispatched_at,
            ),
{
    let keys = ascending(requests.dom());
    let test = due_test(requests, now);
    lemma_ascending(requests.dom());
    lemma_no_duplicates(keys);
    lemma_filter_facts(keys, test);
    assert forall|n: u64| #[trigger] due(requests, now).contains(n) <==> requests.contains_key(n)
        && expired(now, requests[n].dispatched_at) by {
        assert(keys.contains(n) <==> requests.dom().contains(n));
    }
}

/// What passes a test is what is in the sequence and passes it.
pub proof fn lemma_filter_facts<A>(s: Seq<A>, test: spec_fn(A) -> bool)
    ensures
        s.no_duplicates() ==> s.filter(test).no_duplicates(),
        forall|x: A| #[trigger] s.filter(test).contains(x) <==> s.contains(x) && test(x),
    decreases s.len(),
{
    reveal(Seq::filter);
    if s.len() > 0 {
        let t = s.drop_last();
        lemma_filter_facts(t, test);
        assert(s =~= t.push(s.last()));
        crate::order::lemma_push_contains(t, s.last());
        crate::order::lemma_push_contains(t.filter(test), s.last());
        if s.no_duplicates() {
            assert(t.no_duplicates());
            if t.contains(s.last()) {
                let i = choose|i: int| 0 <= i < t.len() && t[i] == s.last();
                assert(s[i] == s[s.len() - 1]);
            }
        }
    }
}

/// The due list names each due request once.
pub proof fn lemma_due_ids(p: RequestsModel, now: Tick)
    requires
        requests_finite(p),
    ensures
        p.due_ids(now).no_duplicates(),
        forall|id: AnyId| #[trigger] p.due_ids(now).contains(id) <==> is_due(p, id, now),
{
    let a = due(p.headers, now);
    let b = due(p.logs, now);
    let c = due(p.pool_metadata, now);
    let d = due(p.token_metadata, now);
    let e = due(p.pool_data, now);
    lemma_due(p.headers, now);
    lemma_due(p.logs, now);
    lemma_due(p.pool_metadata, now);
    lemma_due(p.token_metadata, now);
    lemma_due(p.pool_data, now);
    let all = p.due_ids(now);
    let n1 = a.len() as int;
    let n2 = n1 + b.len();
    let n3 = n2 + c.len();
    let n4 = n3 + d.len();
    assert(all.len() == n4 + e.len());
    assert forall|i: int| 0 <= i < all.len() implies #[trigger] all[i] == (if i < n1 {
        AnyId::BlockHeader(a[i])
    } else if i < n2 {
        AnyId::BlockLogs(b[i - n1])
    } else if i < n3 {
        AnyId::PoolMetadata(c[i - n2])
    } else if i < n4 {
        AnyId::TokenMetadata(d[i - n3])
    } else {
        AnyId::PoolData(e[i - n4])
    }) by {
    }
    assert(all.no_duplicates());
    assert forall|id: AnyId| #[trigger] all.contains(id) <==> is_due(p, id, now) by {
        if all.contains(id) {
            let i = choose|i: int| 0 <= i < all.len() && all[i] == id;
            if i < n1 {
                assert(a.contains(a[i]));
            } else if i < n2 {
                assert(b.contains(b[i - n1]));
            } else if i < n3 {
                assert(c.contains(c[i - n2]));
            } else if i < n4 {
                assert(d.contains(d[i - n3]));
            } else {
                assert(e.contains(e[i - n4]));
            }
        }
        if is_due(p, id, now) {
            match id {
                AnyId::BlockHeader(n) => {
                    assert(a.contains(n));
                    let i = choose|i: int| 0 <= i < a.len() && a[i] == n;
                    assert(all[i] == id);
                },
                AnyId::BlockLogs(n) => {
                    assert(b.contains(n));
                    let i = choose|i: int| 0 <= i < b.len() && b[i] == n;
                    assert(all[n1 + i] == id);
                },
                AnyId::PoolMetadata(n) => {
                    assert(c.contains(n));
                    let i = choose|i: int| 0 <= i < c.len() && c[i] == n;
                    assert(all[n2 + i] == id);
                },
                AnyId::TokenMetadata(n) => {
                    assert(d.contains(n));
                    let i = choose|i: int| 0 <= i < d.len() && d[i] == n;
                    assert(all[n3 + i] == id);
                },
                AnyId::PoolData(n) => {
                    assert(e.contains(n));
                    let i = choose|i: int| 0 <= i < e.len() && e[i] == n;
                    assert(all[n4 + i] == id);
                },
            }
        }
    }
}

/// Retrying distinct requests in flight, one after the other: each moves to an identifier of its
/// own, and nothing else changes.
pub proof fn lemma_retry_all(p: RequestsModel, ids: Seq<AnyId>, now: Tick)
    requires
        ids_handed_out(p),
        p.last_id + ids.len() <= u64::MAX,
        ids.no_duplicates(),
        forall|i: int| 0 <= i < ids.len() ==> p.contains(#[trigger] ids[i]),
    ensures
        ({
            let q = p.retry_all(ids, now);
            let sent = p.retry_all_sends(ids, now);
            &&& ids_handed_out(q)
            &&& q.last_id == p.last_id + ids.len()
            &&& sent.len() == ids.len()
            &&& forall|x: AnyId| number_of(x) <= p.last_id ==> (#[trigger] q.contains(x) <==> p.contains(x) && !ids.contains(x))
            &&& forall|x: AnyId|
                p.contains(x) && !ids.contains(x) ==> #[trigger] flight(q, x) == flight(p, x)
            &&& forall|x: AnyId|
                number_of(x) > p.last_id && #[trigger] q.contains(x) ==> flight(q, x).since == now
            &&& forall|i: int|
                0 <= i < ids.len() ==> id_of(#[trigger] sent[i]) == renumbered(
                    ids[i],
                    (p.last_id + 1 + i) as u64,
                ) && ask_of(sent[i]) == flight(p, ids[i]).what && recorded(q, sent[i])
        }),
    decreases ids.len(),
{
    let q = p.retry_all(ids, now);
    let sent = p.retry_all_sends(ids, now);
    if ids.len() > 0 {
        let shorter = ids.drop_last();
        let id = ids.last();
        assert(ids =~= shorter.push(id));
        crate::order::lemma_push_contains(shorter, id);
        assert(!shorter.contains(id)) by {
            if shorter.contains(id) {
                let i = choose|i: int| 0 <= i < shorter.len() && shorter[i] == id;
                assert(ids[i] == ids[ids.len() - 1]);
            }
        }
        assert forall|i: int| 0 <= i < shorter.len() implies p.contains(#[trigger] shorter[i]) by {
            assert(shorter[i] == ids[i]);
        }
        assert(shorter.no_duplicates());
        lemma_retry_all(p, shorter, now);
        let m = p.retry_all(shorter, now);
        let msent = p.retry_all_sends(shorter, now);
        assert(p.contains(ids[ids.len() - 1]));
        assert(number_of(id) <= p.last_id);
        assert(m.contains(id));
        law_retry_keeps_payload(m, id, now);
        let new_id = renumbered(id, (m.last_id + 1) as u64);
        assert(sent =~= msent.push(m.retry_sends(id)->0));
        assert forall|i: int| 0 <= i < ids.len() implies id_of(#[trigger] sent[i]) == renumbered(
            ids[i],
            (p.last_id + 1 + i) as u64,
        ) && ask_of(sent[i]) == flight(p, ids[i]).what && recorded(q, sent[i]) by {
            if i < shorter.len() {
                assert(sent[i] == msent[i]);
                assert(shorter[i] == ids[i]);
                assert(recorded(m, msent[i]));
                assert(id_of(msent[i]) != id);
                assert(m.contains(id_of(msent[i])));
                assert(flight(q, id_of(msent[i])) == flight(m, id_of(msent[i])));
            } else {
                assert(flight(m, id) == flight(p, id));
            }
        }
        assert forall|x: AnyId| p.contains(x) && !ids.contains(x) implies #[trigger] flight(q, x)
            == flight(p, x) by {
            assert(number_of(x) <= p.last_id);
            assert(m.contains(x));
            assert(flight(m, x) == flight(p, x));
        }
        assert forall|x: AnyId| number_of(x) > p.last_id && #[trigger] q.contains(x) implies flight(
            q,
            x,
        ).since == now by {
            if x != new_id {
                assert(m.contains(x));
            }
        }
    }
}

/// A retry leaves finitely many requests in flight.
pub proof fn lemma_retry_finite(p: RequestsModel, id: AnyId, now: Tick)
    requires
        requests_finite(p),
    ensures
        requests_finite(p.retry(id, now)),
{
}

/// So do several.
pub proof fn lemma_retry_all_finite(p: RequestsModel, ids: Seq<AnyId>, now: Tick)
    requires
        requests_finite(p),
    ensures
        requests_finite(p.retry_all(ids, now)),
    decreases ids.len(),
{
    if ids.len() > 0 {
        lemma_retry_all_finite(p, ids.drop_last(), now);
        lemma_retry_finite(p.retry_all(ids.drop_last(), now), ids.last(), now);
    }
}

/// A retry leaves as many requests in flight as there were.
proof fn lemma_retry_total(p: RequestsModel, id: AnyId, now: Tick)
    requires
        requests_finite(p),
        ids_handed_out(p),
        p.last_id < u64::MAX,
    ensures
        p.retry(id, now).total() == p.total(),
{
    let n = (p.last_id + 1) as u64;
    assert(!p.contains(renumbered(id, n)));
}

/// So do several.
proof fn lemma_retry_all_total(p: RequestsModel, ids: Seq<AnyId>, now: Tick)
    requires
        requests_finite(p),
        ids_handed_out(p),
        p.last_id + ids.len() <= u64::MAX,
        ids.no_duplicates(),
        forall|i: int| 0 <= i < ids.len() ==> p.contains(#[trigger] ids[i]),
    ensures
        p.retry_all(ids, now).total() == p.total(),
    decreases ids.len(),
{
    if ids.len() > 0 {
        let shorter = ids.drop_last();
        assert forall|i: int| 0 <= i < shorter.len() implies p.contains(#[trigger] shorter[i]) by {
            assert(shorter[i] == ids[i]);
        }
        lemma_retry_all_total(p, shorter, now);
        lemma_retry_all(p, shorter, now);
        lemma_retry_all_finite(p, shorter, now);
        lemma_retry_total(p.retry_all(shorter, now), ids.last(), now);
    }
}

/// When the clock advances, each request that is due is sent again once, with what it asks for, and
/// no others; afterwards as many are in flight as before and nothing is due, so that a second pass at
/// the same tick changes nothing and sends nothing.
pub proof fn law_clock_replaces_due_requests(p: RequestsModel, now: Tick)
    requires
        requests_finite(p),
        ids_handed_out(p),
        p.last_id + p.due_ids(now).len() <= u64::MAX,
    ensures
        ({
            let q = p.retry_all(p.due_ids(now), now);
            let sent = p.retry_all_sends(p.due_ids(now), now);
            &&& forall|x: AnyId| !#[trigger] is_due(q, x, now)
            &&& forall|x: AnyId| #[trigger] is_due(p, x, now) ==> !q.contains(x)
            &&& forall|x: AnyId|
                p.contains(x) && !#[trigger] is_due(p, x, now) ==> q.contains(x) && flight(q, x)
                    == flight(p, x)
            &&& sent.len() == p.due_ids(now).len()
            &&& forall|i: int|
                0 <= i < sent.len() ==> recorded(q, #[trigger] sent[i]) && ask_of(sent[i])
                    == flight(p, p.due_ids(now)[i]).what
            &&& ids_handed_out(q)
            &&& q.total() == p.total()
            &&& q.due_ids(now) == Seq::<AnyId>::empty()
            &&& q.retry_all(q.due_ids(now), now) == q
            &&& q.retry_all_sends(q.due_ids(now), now) == Seq::<Issued>::empty()
        }),
{
    let ids = p.due_ids(now);
    lemma_due_ids(p, now);
    assert forall|i: int| 0 <= i < ids.len() implies p.contains(#[trigger] ids[i]) by {
        assert(ids.contains(ids[i]));
        assert(is_due(p, ids[i], now));
    }
    lemma_retry_all(p, ids, now);
    let q = p.retry_all(ids, now);
    assert forall|x: AnyId| !#[trigger] is_due(q, x, now) by {
        if q.contains(x) {
            if number_of(x) <= p.last_id {
                assert(p.contains(x) && !ids.contains(x));
                assert(!is_due(p, x, now));
                assert(flight(q, x) == flight(p, x));
            } else {
                assert(flight(q, x).since == now);
            }
        }
    }
    assert forall|x: AnyId| #[trigger] is_due(p, x, now) implies !q.contains(x) by {
        assert(ids.contains(x));
        assert(number_of(x) <= p.last_id);
    }
    assert forall|x: AnyId| p.contains(x) && !#[trigger] is_due(p, x, now) implies q.contains(x)
        && flight(q, x) == flight(p, x) by {
        assert(!ids.contains(x));
        assert(number_of(x) <= p.last_id);
    }
    lemma_retry_all_total(p, ids, now);
    lemma_retry_all_finite(p, ids, now);
    lemma_due_ids(q, now);
    assert(q.due_ids(now).len() == 0) by {
        if q.due_ids(now).len() > 0 {
            assert(q.due_ids(now).contains(q.due_ids(now)[0]));
            assert(is_due(q, q.due_ids(now)[0], now));
        }
    }
}

/// Sending again what is due never makes two requests for one header.
pub proof fn lemma_retry_all_one_per_header(p: RequestsModel, ids: Seq<AnyId>, now: Tick)
    requires
        one_request_per_header(p),
    ensures
        one_request_per_header(p.retry_all(ids, now)),
    decreases ids.len(),
{
    if ids.len() > 0 {
        lemma_retry_all_one_per_header(p, ids.drop_last(), now);
        lemma_retry_one_per_header(p.retry_all(ids.drop_last(), now), ids.last(), now);
    }
}

/// A new request is kept among those of its kind under the next identifier, with what it asks for
/// and the time of its dispatch; those of the other kinds stay, and one more is in flight.
pub proof fn law_new_request_is_kept_with_its_kind(
    p: RequestsModel,
    h: BlockHash,
    pools: Batch<ProtocolPoolKey>,
    tokens: Batch<TokenAddress>,
    states: Batch<PoolRef>,
    now: Tick,
    id: u64,
)
    requires
        id == next_id(p.last_id),
    ensures
        ({
            let q = p.issue::<GetBlockHeader>(h, now);
            &&& q.last_id == id
            &&& q.headers == p.headers.insert(id, InFlight { payload: h, dispatched_at: now })
            &&& q.logs == p.logs
            &&& q.pool_metadata == p.pool_metadata
            &&& q.token_metadata == p.token_metadata
            &&& q.pool_data == p.pool_data
            &&& requests_finite(p) && !p.headers.contains_key(id) ==> q.total() == p.total() + 1
        }),
        ({
            let q = p.issue::<GetBlockLogs>(h, now);
            &&& q.last_id == id
            &&& q.logs == p.logs.insert(id, InFlight { payload: h, dispatched_at: now })
            &&& q.headers == p.headers
            &&& q.pool_metadata == p.pool_metadata
            &&& q.token_metadata == p.token_metadata
            &&& q.pool_data == p.pool_data
            &&& requests_finite(p) && !p.logs.contains_key(id) ==> q.total() == p.total() + 1
        }),
        ({
            let q = p.issue::<GetPoolMetadata>(pools, now);
            &&& q.last_id == id
            &&& q.pool_metadata == p.pool_metadata.insert(id, InFlight { payload: pools, dispatched_at: now })
            &&& q.headers == p.headers
            &&& q.logs == p.logs
            &&& q.token_metadata == p.token_metadata
            &&& q.pool_data == p.pool_data
            &&& requests_finite(p) && !p.pool_metadata.contains_key(id) ==> q.total() == p.total() + 1
        }),
        ({
            let q = p.issue::<GetTokenMetadata>(tokens, now);
            &&& q.last_id == id
            &&& q.token_metadata == p.token_metadata.insert(id, InFlight { payload: tokens, dispatched_at: now })
            &&& q.headers == p.headers
            &&& q.logs == p.logs
            &&& q.pool_metadata == p.pool_metadata
            &&& q.pool_data == p.pool_data
            &&& requests_finite(p) && !p.token_metadata.contains_key(id) ==> q.total() == p.total() + 1
        }),
        ({
            let q = p.issue::<GetPoolData>(states, now);
            &&& q.last_id == id
            &&& q.pool_data == p.pool_data.insert(id, InFlight { payload: states, dispatched_at: now })
            &&& q.headers == p.headers
            &&& q.logs == p.logs
            &&& q.pool_metadata == p.pool_metadata
            &&& q.token_metadata == p.token_metadata
            &&& requests_finite(p) && !p.pool_data.contains_key(id) ==> q.total() == p.total() + 1
        }),
{
}

/// A request that ended is taken from those of its kind; all others stay, and one less is in flight.
pub proof fn law_ended_request_is_taken_out(p: RequestsModel, n: u64)
    ensures
        ({
            let q = p.without::<GetBlockHeader>(n);
            &&& q.last_id == p.last_id
            &&& q.headers == p.headers.remove(n)
            &&& q.logs == p.logs
            &&& q.pool_metadata == p.pool_metadata
            &&& q.token_metadata == p.token_metadata
            &&& q.pool_data == p.pool_data
            &&& requests_finite(p) && p.headers.contains_key(n) ==> q.total() + 1 == p.total()
        }),
        ({
            let q = p.without::<GetBlockLogs>(n);
            &&& q.last_id == p.last_id
            &&& q.logs == p.logs.remove(n)
            &&& q.headers == p.headers
            &&& q.pool_metadata == p.pool_metadata
            &&& q.token_metadata == p.token_metadata
            &&& q.pool_data == p.pool_data
            &&& requests_finite(p) && p.logs.contains_key(n) ==> q.total() + 1 == p.total()
        }),
        ({
            let q = p.without::<GetPoolMetadata>(n);
            &&& q.last_id == p.last_id
            &&& q.pool_metadata == p.pool_metadata.remove(n)
            &&& q.headers == p.headers
            &&& q.logs == p.logs
            &&& q.token_metadata == p.token_metadata
            &&& q.pool_data == p.pool_data
            &&& requests_finite(p) && p.pool_metadata.contains_key(n) ==> q.total() + 1 == p.total()
        }),
        ({
            let q = p.without::<GetTokenMetadata>(n);
            &&& q.last_id == p.last_id
            &&& q.token_metadata == p.token_metadata.remove(n)
            &&& q.headers == p.headers
            &&& q.logs == p.logs
            &&& q.pool_metadata == p.pool_metadata
            &&& q.pool_data == p.pool_data
            &&& requests_finite(p) && p.token_metadata.contains_key(n) ==> q.total() + 1 == p.total()
        }),
        ({
            let q = p.without::<GetPoolData>(n);
            &&& q.last_id == p.last_id
            &&& q.pool_data == p.pool_data.remove(n)
            &&& q.headers == p.headers
            &&& q.logs == p.logs
            &&& q.pool_metadata == p.pool_metadata
            &&& q.token_metadata == p.token_metadata
            &&& requests_finite(p) && p.pool_data.contains_key(n) ==> q.total() + 1 == p.total()
        }),
        RequestsModel::empty().total() == 0,
{
}

} // verus!
