//! Requests in flight: typed identifiers, payloads, and when they were dispatched.
use vstd::prelude::*;

use crate::ord_map::OrdMap;
use crate::order::{ascending, lemma_filter_next, lemma_filter_none, lemma_walk, lists};
use crate::primitives::BlockHash;
use crate::tick::{expired, Tick};

verus! {

/// What a request asks for.
pub trait Payload: Sized {
    /// The payload as mathematics.
    type Model;

    spec fn model(&self) -> Self::Model;

    /// The block that the request is about.
    spec fn target(payload: Self::Model) -> BlockHash;

    fn target_block(&self) -> (r: BlockHash)
        ensures
            r == Self::target(self.model()),
    ;

    /// The same payload once more.
    fn duplicate(&self) -> (r: Self)
        ensures
            r.model() == self.model(),
    ;
}

/// The identifier of a request for an `R`.
#[derive(Debug, PartialEq, Eq, Hash)]
pub struct RequestId<R> {
    raw: u64,
    kind: core::marker::PhantomData<R>,
}

impl<R> View for RequestId<R> {
    type V = u64;

    closed spec fn view(&self) -> u64 {
        self.raw
    }
}

impl<R> Clone for RequestId<R> {
    fn clone(&self) -> (r: RequestId<R>)
        ensures
            r@ == self@,
    {
        RequestId { raw: self.raw, kind: core::marker::PhantomData }
    }
}

impl<R> Copy for RequestId<R> {

}

impl<R> RequestId<R> {
    pub fn from_raw(raw: u64) -> (r: RequestId<R>)
        ensures
            r@ == raw,
    {
        RequestId { raw, kind: core::marker::PhantomData }
    }

    pub fn raw(&self) -> (r: u64)
        ensures
            r == self@,
    {
        self.raw
    }
}

/// A request in flight.
#[derive(Debug, PartialEq, Eq)]
pub struct PendingPayload<R> {
    pub payload: R,
    pub dispatched_at: Tick,
}

/// A request that is to be sent.
#[derive(Debug, PartialEq, Eq)]
pub struct IssuedRequest<R> {
    pub request_id: RequestId<R>,
    pub request_payload: R,
}

/// A request in flight, as mathematics.
#[verifier::ext_equal]
pub struct InFlight<P> {
    pub payload: P,
    pub dispatched_at: Tick,
}

impl<R: Payload> View for PendingPayload<R> {
    type V = InFlight<R::Model>;

    open spec fn view(&self) -> InFlight<R::Model> {
        InFlight { payload: self.payload.model(), dispatched_at: self.dispatched_at }
    }
}

/// Hands out identifiers, one after the other; it holds the last one.
#[derive(Clone, Copy, Debug, PartialEq, Eq, Structural)]
pub struct RequestIdSequence {
    pub last: u64,
}

pub open spec fn next_id(last: u64) -> u64 {
    if last == u64::MAX {
        0
    } else {
        (last + 1) as u64
    }
}

impl RequestIdSequence {
    pub fn new() -> (r: RequestIdSequence)
        ensures
            r.last == 0,
    {
        RequestIdSequence { last: 0 }
    }

    pub fn next(self) -> (r: RequestIdSequence)
        ensures
            r.last == next_id(self.last),
    {
        RequestIdSequence { last: self.last.wrapping_add(1) }
    }
}

/// The requests of one kind in flight, by identifier.
#[derive(Debug, PartialEq, Eq)]
pub struct RequestCollection<R: Payload> {
    requests: OrdMap<u64, PendingPayload<R>>,
}

impl<R: Payload> View for RequestCollection<R> {
    type V = Map<u64, InFlight<R::Model>>;

    closed spec fn view(&self) -> Map<u64, InFlight<R::Model>> {
        Map::new(
            |id: u64| self.requests@.contains_key(id),
            |id: u64| self.requests@[id]@,
        )
    }
}

/// The identifiers of the requests that are due again, in order.
pub open spec fn due_test<P>(requests: Map<u64, InFlight<P>>, now: Tick) -> spec_fn(u64) -> bool {
    |id: u64| expired(now, requests[id].dispatched_at)
}

pub open spec fn due<P>(requests: Map<u64, InFlight<P>>, now: Tick) -> Seq<u64> {
    ascending(requests.dom()).filter(due_test(requests, now))
}

/// The requests whose block is kept.
pub open spec fn about<R: Payload>(
    requests: Map<u64, InFlight<R::Model>>,
    kept: Set<BlockHash>,
) -> Map<u64, InFlight<R::Model>> {
    Map::new(
        |id: u64| requests.contains_key(id) && kept.contains(R::target(requests[id].payload)),
        |id: u64| requests[id],
    )
}

impl<R: Payload> RequestCollection<R> {
    pub fn new() -> (r: RequestCollection<R>)
        ensures
            r@ == Map::<u64, InFlight<R::Model>>::empty(),
    {
        let r = RequestCollection { requests: OrdMap::new() };
        assert(r@ =~= Map::empty());
        r
    }

    pub fn len(&self) -> (n: usize)
        ensures
            n == self@.len(),
            self@.dom().finite(),
    {
        assert(self@.dom() =~= self.requests@.dom());
        self.requests.len()
    }

    pub fn is_empty(&self) -> (b: bool)
        ensures
            b == (self@.dom() == Set::<u64>::empty()),
    {
        assert(self@.dom() =~= self.requests@.dom());
        self.requests.is_empty()
    }

    pub fn get(&self, id: u64) -> (r: Option<&PendingPayload<R>>)
        ensures
            match r {
                Some(p) => self@.contains_key(id) && self@[id] == p@,
                None => !self@.contains_key(id),
            },
    {
        self.requests.get(&id)
    }

    /// The `i`-th request by identifier.
    pub fn at(&self, i: usize) -> (r: &PendingPayload<R>)
        requires
            i < self@.len(),
        ensures
            self@.contains_key(ascending(self@.dom())[i as int]),
            r@ == self@[ascending(self@.dom())[i as int]],
    {
        assert(self@.dom() =~= self.requests@.dom());
        self.requests.value_at(i)
    }

    pub fn with(self, id: u64, request: PendingPayload<R>) -> (r: RequestCollection<R>)
        ensures
            r@ == self@.insert(id, request@),
    {
        let r = RequestCollection { requests: self.requests.with(id, request) };
        assert(r@ =~= self@.insert(id, request@));
        r
    }

    pub fn without(self, id: u64) -> (r: (RequestCollection<R>, Option<PendingPayload<R>>))
        ensures
            r.0@ == self@.remove(id),
            match r.1 {
                Some(p) => self@.contains_key(id) && self@[id] == p@,
                None => !self@.contains_key(id),
            },
    {
        let (requests, taken) = self.requests.without(&id);
        let r = RequestCollection { requests };
        assert(r@ =~= self@.remove(id));
        (r, taken)
    }

    /// The identifiers of the requests that are due again, in order.
    pub fn due_ids(&self, now: Tick) -> (r: Vec<u64>)
        ensures
            r@ == due(self@, now),
    {
        let ids = self.requests.keys();
        let n: usize = ids.len();
        let mut r: Vec<u64> = Vec::new();
        let ghost test = due_test(self@, now);
        proof {
            assert(self@.dom() =~= self.requests@.dom());
            crate::ord_map::lemma_map_finite(self.requests);
            lemma_walk(self@.dom());
            lemma_filter_none(ids@, test);
        }
        for i in 0..n
            invariant
                n == ids@.len(),
                ids@ == ascending(self@.dom()),
                lists(ids@, self@.dom()),
                test == due_test(self@, now),
                r@ == ids@.take(i as int).filter(test),
        {
            let id: u64 = ids[i];
            proof {
                lemma_filter_next(ids@, i as int, test);
                assert(ids@.contains(id));
                assert(self@.dom().contains(id));
            }
            if let Some(request) = self.get(id) {
                if now.is_expired_since(request.dispatched_at) {
                    r.push(id);
                }
            }
        }
        assert(ids@.take(n as int) =~= ids@);
        r
    }

    /// Drops the requests whose block is not kept.
    pub fn retaining(self, kept: &crate::ord_map::OrdSet<BlockHash>) -> (r: RequestCollection<R>)
        ensures
            r@ == about::<R>(self@, kept@),
    {
        let ghost start = self@;
        let ids = self.requests.keys();
        let n: usize = ids.len();
        proof {
            assert(self@.dom() =~= self.requests@.dom());
            crate::ord_map::lemma_map_finite(self.requests);
            lemma_walk(self@.dom());
        }
        let mut r = self;
        for i in 0..n
            invariant
                n == ids@.len(),
                lists(ids@, start.dom()),
                ids@.no_duplicates(),
                forall|id: u64| #[trigger]
                    r@.contains_key(id) <==> start.contains_key(id) && (ids@.take(
                        i as int,
                    ).contains(id) ==> kept@.contains(R::target(start[id].payload))),
                forall|id: u64| r@.contains_key(id) ==> #[trigger] r@[id] == start[id],
        {
            let id: u64 = ids[i];
            proof {
                crate::order::lemma_take_next(ids@, i as int);
                assert(ids@.contains(id));
                assert(start.dom().contains(id));
            }
            let keep: bool = match r.get(id) {
                Some(request) => kept.contains(&request.payload.target_block()),
                None => true,
            };
            if !keep {
                let (rest, _) = r.without(id);
                r = rest;
            }
        }
        proof {
            assert(ids@.take(n as int) =~= ids@);
            assert forall|id: u64| r@.contains_key(id) <==> about::<R>(start, kept@).contains_key(
                id,
            ) by {
                assert(ids@.contains(id) <==> start.dom().contains(id));
            }
            assert(r@ =~= about::<R>(start, kept@));
        }
        r
    }
}

/// Identifiers count up by one, and from the largest one to zero.
pub proof fn law_identifiers_count_up(last: u64)
    ensures
        last < u64::MAX ==> next_id(last) == last + 1,
        last == u64::MAX ==> next_id(last) == 0,
{
}

} // verus!
