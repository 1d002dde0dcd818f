//! Keys with a total order, and the strictly ascending listing of a finite set of keys.
use vstd::prelude::*;

verus! {

/// A plain key, ordered and identified by an integer.
pub trait Key: Copy {
    /// The position of the key in the order.
    spec fn rank(self) -> int;

    /// Two keys of the same rank are the same key.
    proof fn rank_identifies(a: Self, b: Self)
        requires
            a.rank() == b.rank(),
        ensures
            a == b,
    ;

    /// Whether the key comes strictly before `other`.
    fn precedes(&self, other: &Self) -> (b: bool)
        ensures
            b == (self.rank() < other.rank()),
    ;
}

impl Key for u64 {
    open spec fn rank(self) -> int {
        self as int
    }

    proof fn rank_identifies(a: Self, b: Self) {
    }

    fn precedes(&self, other: &Self) -> (b: bool) {
        *self < *other
    }
}

/// Ranks strictly increase along the sequence.
pub open spec fn strictly_ascending<K: Key>(s: Seq<K>) -> bool {
    forall|i: int, j: int| 0 <= i < j < s.len() ==> (#[trigger] s[i]).rank() < (#[trigger] s[j]).rank()
}

/// `s` lists exactly the keys of `keys`, in order.
pub open spec fn lists<K: Key>(s: Seq<K>, keys: Set<K>) -> bool {
    &&& strictly_ascending(s)
    &&& forall|k: K| #[trigger] s.contains(k) <==> keys.contains(k)
}

/// The keys of a finite set, in order.
pub open spec fn ascending<K: Key>(keys: Set<K>) -> Seq<K> {
    choose|s: Seq<K>| lists(s, keys)
}

/// Two ascending sequences with the same members are equal.
pub proof fn lemma_listing_unique<K: Key>(a: Seq<K>, b: Seq<K>)
    requires
        strictly_ascending(a),
        strictly_ascending(b),
        forall|k: K| #[trigger] a.contains(k) <==> b.contains(k),
    ensures
        a == b,
    decreases a.len(),
{
    if a.len() == 0 {
        if b.len() > 0 {
            assert(b.contains(b[0]));
            assert(!a.contains(b[0]));
        }
        assert(a =~= b);
    } else {
        assert(a.contains(a.last()));
        assert(b.len() > 0);
        assert(b.contains(b.last()));
        assert(a.contains(b.last()));
        let i = choose|i: int| 0 <= i < b.len() && b[i] == a.last();
        let j = choose|j: int| 0 <= j < a.len() && a[j] == b.last();
        assert(a.last() == b.last()) by {
            if i < b.len() - 1 && j < a.len() - 1 {
                assert(b[i].rank() < b[b.len() - 1].rank());
                assert(a[j].rank() < a[a.len() - 1].rank());
            }
        }
        let a1 = a.drop_last();
        let b1 = b.drop_last();
        assert forall|k: K| #[trigger] a1.contains(k) <==> b1.contains(k) by {
            if a1.contains(k) {
                let p = choose|p: int| 0 <= p < a1.len() && a1[p] == k;
                assert(a[p] == k && a[p].rank() < a[a.len() - 1].rank());
                assert(a.contains(k));
                let q = choose|q: int| 0 <= q < b.len() && b[q] == k;
                assert(q < b.len() - 1);
                assert(b1[q] == k);
            }
            if b1.contains(k) {
                let p = choose|p: int| 0 <= p < b1.len() && b1[p] == k;
                assert(b[p] == k && b[p].rank() < b[b.len() - 1].rank());
                assert(b.contains(k));
                assert(a.contains(k));
                let q = choose|q: int| 0 <= q < a.len() && a[q] == k;
                assert(q < a.len() - 1);
                assert(a1[q] == k);
            }
        }
        lemma_listing_unique(a1, b1);
        assert(a =~= a1.push(a.last()));
        assert(b =~= b1.push(b.last()));
    }
}

/// A new key fits somewhere into an ascending sequence.
proof fn lemma_insertion<K: Key>(s: Seq<K>, k: K) -> (r: Seq<K>)
    requires
        strictly_ascending(s),
        !s.contains(k),
    ensures
        strictly_ascending(r),
        r.len() == s.len() + 1,
        forall|x: K| #[trigger] r.contains(x) <==> (x == k || s.contains(x)),
    decreases s.len(),
{
    if s.len() == 0 {
        let r = seq![k];
        assert(r[0] == k);
        r
    } else {
        let last = s.last();
        assert(s[s.len() - 1] == last);
        if last.rank() == k.rank() {
            K::rank_identifies(last, k);
        }
        if last.rank() < k.rank() {
            let r = s.push(k);
            assert forall|i: int, j: int| 0 <= i < j < r.len() implies (#[trigger] r[i]).rank() < (
            #[trigger] r[j]).rank() by {
                if j == s.len() && i < s.len() - 1 {
                    assert(s[i].rank() < s[s.len() - 1].rank());
                }
            }
            assert forall|x: K| #[trigger] r.contains(x) <==> (x == k || s.contains(x)) by {
                if s.contains(x) {
                    let p = choose|p: int| 0 <= p < s.len() && s[p] == x;
                    assert(r[p] == x);
                }
                assert(r[s.len() as int] == k);
            }
            r
        } else {
            let s1 = s.drop_last();
            assert(!s1.contains(k)) by {
                if s1.contains(k) {
                    let p = choose|p: int| 0 <= p < s1.len() && s1[p] == k;
                    assert(s[p] == k);
                }
            }
            let r1 = lemma_insertion(s1, k);
            let r = r1.push(last);
            assert forall|i: int, j: int| 0 <= i < j < r.len() implies (#[trigger] r[i]).rank() < (
            #[trigger] r[j]).rank() by {
                if j == r1.len() {
                    assert(r1.contains(r1[i]));
                    if r1[i] != k {
                        let p = choose|p: int| 0 <= p < s1.len() && s1[p] == r1[i];
                        assert(s[p].rank() < s[s.len() - 1].rank());
                    }
                }
            }
            assert forall|x: K| #[trigger] r.contains(x) <==> (x == k || s.contains(x)) by {
                if s.contains(x) {
                    let p = choose|p: int| 0 <= p < s.len() && s[p] == x;
                    if p < s.len() - 1 {
                        assert(s1[p] == x);
                        assert(r1.contains(x));
                        let q = choose|q: int| 0 <= q < r1.len() && r1[q] == x;
                        assert(r[q] == x);
                    } else {
                        assert(r[r1.len() as int] == x);
                    }
                }
                if x == k {
                    assert(r1.contains(k));
                    let q = choose|q: int| 0 <= q < r1.len() && r1[q] == k;
                    assert(r[q] == k);
                }
                if r.contains(x) && x != last {
                    let q = choose|q: int| 0 <= q < r.len() && r[q] == x;
                    assert(r1[q] == x);
                    assert(r1.contains(x));
                    if x != k {
                        let p = choose|p: int| 0 <= p < s1.len() && s1[p] == x;
                        assert(s[p] == x);
                    }
                }
            }
            r
        }
    }
}

/// Every finite set of keys has a listing, with one position for each member.
proof fn lemma_listing_exists<K: Key>(keys: Set<K>) -> (s: Seq<K>)
    requires
        keys.finite(),
    ensures
        lists(s, keys),
        s.len() == keys.len(),
    decreases keys.len(),
{
    if keys.len() == 0 {
        assert(keys =~= Set::empty());
        Seq::empty()
    } else {
        let k = keys.choose();
        let s1 = lemma_listing_exists(keys.remove(k));
        lemma_insertion(s1, k)
    }
}

/// The listing of a finite set is ascending, holds exactly its members, and is the only such
/// sequence.
pub proof fn lemma_ascending<K: Key>(keys: Set<K>)
    requires
        keys.finite(),
    ensures
        lists(ascending(keys), keys),
        ascending(keys).len() == keys.len(),
{
    let s = lemma_listing_exists(keys);
    assert(lists(ascending(keys), keys));
    lemma_listing_unique(s, ascending(keys));
}

/// A sequence that lists a set is that set's listing.
pub proof fn lemma_ascending_is<K: Key>(s: Seq<K>, keys: Set<K>)
    requires
        lists(s, keys),
    ensures
        ascending(keys) == s,
        keys.finite(),
        keys.len() == s.len(),
{
    lemma_listing_unique(s, ascending(keys));
    lemma_no_duplicates(s);
    s.unique_seq_to_set();
    assert(keys =~= s.to_set());
    vstd::seq_lib::seq_to_set_is_finite(s);
}

/// An ascending sequence holds no key twice.
pub proof fn lemma_no_duplicates<K: Key>(s: Seq<K>)
    requires
        strictly_ascending(s),
    ensures
        s.no_duplicates(),
{
    assert forall|i: int, j: int| 0 <= i < s.len() && 0 <= j < s.len() && i != j implies s[i]
        != s[j] by {
        if i < j {
            assert(s[i].rank() < s[j].rank());
        } else {
            assert(s[j].rank() < s[i].rank());
        }
    }
}

/// What one more position adds to a prefix.
pub proof fn lemma_take_next<A>(s: Seq<A>, i: int)
    requires
        0 <= i < s.len(),
    ensures
        s.take(i + 1) == s.take(i).push(s[i]),
        s.take(i + 1).drop_last() == s.take(i),
        forall|x: A| #[trigger]
            s.take(i + 1).contains(x) <==> s.take(i).contains(x) || x == s[i],
        s.no_duplicates() ==> !s.take(i).contains(s[i]),
{
    assert(s.take(i + 1) =~= s.take(i).push(s[i]));
    assert(s.take(i + 1).drop_last() =~= s.take(i));
    lemma_push_contains(s.take(i), s[i]);
    if s.no_duplicates() && s.take(i).contains(s[i]) {
        let p = choose|p: int| 0 <= p < i && s.take(i)[p] == s[i];
        assert(s[p] == s[i]);
    }
}

/// What one more position adds to the part of a prefix that passes a test.
pub proof fn lemma_filter_next<A>(s: Seq<A>, i: int, test: spec_fn(A) -> bool)
    requires
        0 <= i < s.len(),
    ensures
        s.take(i + 1).filter(test) == (if test(s[i]) {
            s.take(i).filter(test).push(s[i])
        } else {
            s.take(i).filter(test)
        }),
{
    reveal(Seq::filter);
    lemma_take_next(s, i);
}

/// An empty prefix has nothing that passes a test.
pub proof fn lemma_filter_none<A>(s: Seq<A>, test: spec_fn(A) -> bool)
    ensures
        s.take(0).filter(test) == Seq::<A>::empty(),
        Seq::<A>::empty().filter(test) == Seq::<A>::empty(),
{
    reveal(Seq::filter);
}

/// What a pushed item adds to a sequence.
pub proof fn lemma_push_contains<A>(s: Seq<A>, a: A)
    ensures
        forall|x: A| #[trigger] s.push(a).contains(x) <==> s.contains(x) || x == a,
        s.no_duplicates() && !s.contains(a) ==> s.push(a).no_duplicates(),
{
    assert forall|x: A| #[trigger] s.push(a).contains(x) <==> s.contains(x) || x == a by {
        if s.contains(x) {
            let p = choose|p: int| 0 <= p < s.len() && s[p] == x;
            assert(s.push(a)[p] == x);
        }
        assert(s.push(a)[s.len() as int] == a);
    }
}

/// The listing of a map's keys, ready to be walked position by position.
pub proof fn lemma_walk<K: Key>(keys: Set<K>)
    requires
        keys.finite(),
    ensures
        lists(ascending(keys), keys),
        ascending(keys).len() == keys.len(),
        ascending(keys).no_duplicates(),
        ascending(keys).take(ascending(keys).len() as int) == ascending(keys),
{
    lemma_ascending(keys);
    lemma_no_duplicates(ascending(keys));
    assert(ascending(keys).take(ascending(keys).len() as int) =~= ascending(keys));
}

/// The listing of a finite set holds each member once, from the lowest rank to the highest.
pub proof fn law_listing_is_in_order<K: Key>(keys: Set<K>, k: K)
    requires
        keys.finite(),
    ensures
        keys.contains(k) <==> exists|i: int|
            0 <= i < ascending(keys).len() && #[trigger] ascending(keys)[i] == k,
        forall|i: int, j: int|
            0 <= i < j < ascending(keys).len() ==> (#[trigger] ascending(keys)[i]).rank() < (
            #[trigger] ascending(keys)[j]).rank(),
        ascending(keys).len() == keys.len(),
{
    lemma_ascending(keys);
    assert(ascending(keys).contains(k) <==> keys.contains(k));
}

} // verus!
