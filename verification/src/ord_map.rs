//! Maps and sets over ordered keys, held as ascending vectors: lookups are binary searches and every
//! listing comes out in key order.
use vstd::prelude::*;

use crate::order::{
    ascending, lemma_ascending, lemma_ascending_is, lemma_take_next, lemma_walk, lists,
    strictly_ascending, Key,
};

verus! {

/// The map that a sequence of entries stands for when its keys are distinct.
pub open spec fn entries_map<K, V>(s: Seq<(K, V)>) -> Map<K, V> {
    Map::new(
        |k: K| exists|i: int| 0 <= i < s.len() && (#[trigger] s[i]).0 == k,
        |k: K| s[choose|i: int| 0 <= i < s.len() && (#[trigger] s[i]).0 == k].1,
    )
}

/// The map left by inserting the entries one after the other: a later entry replaces an earlier one.
pub open spec fn inserted_in_turn<K, V>(s: Seq<(K, V)>) -> Map<K, V>
    decreases s.len(),
{
    if s.len() == 0 {
        Map::empty()
    } else {
        inserted_in_turn(s.drop_last()).insert(s.last().0, s.last().1)
    }
}

pub open spec fn entry_keys<K, V>(s: Seq<(K, V)>) -> Seq<K> {
    Seq::new(s.len(), |i: int| s[i].0)
}

proof fn lemma_entries<K: Key, V>(s: Seq<(K, V)>)
    requires
        strictly_ascending(entry_keys(s)),
    ensures
        lists(entry_keys(s), entries_map(s).dom()),
        ascending(entries_map(s).dom()) == entry_keys(s),
        entries_map(s).dom().finite(),
        entries_map(s).len() == s.len(),
        forall|i: int| 0 <= i < s.len() ==> entries_map(s).contains_key((#[trigger] s[i]).0),
        forall|i: int| 0 <= i < s.len() ==> entries_map(s)[(#[trigger] s[i]).0] == s[i].1,
{
    let m = entries_map(s);
    let ks = entry_keys(s);
    assert forall|k: K| #[trigger] ks.contains(k) <==> m.dom().contains(k) by {
        if ks.contains(k) {
            let i = choose|i: int| 0 <= i < ks.len() && ks[i] == k;
            assert(s[i].0 == k);
        }
        if m.dom().contains(k) {
            let i = choose|i: int| 0 <= i < s.len() && (#[trigger] s[i]).0 == k;
            assert(ks[i] == k);
        }
    }
    lemma_ascending_is(ks, m.dom());
    assert forall|i: int| 0 <= i < s.len() implies m[(#[trigger] s[i]).0] == s[i].1 by {
        let k = s[i].0;
        let j = choose|j: int| 0 <= j < s.len() && (#[trigger] s[j]).0 == k;
        assert(ks[i] == ks[j]);
        if i < j {
            assert(ks[i].rank() < ks[j].rank());
        } else if j < i {
            assert(ks[j].rank() < ks[i].rank());
        }
    }
}

/// A map from ordered keys to values.
#[derive(Debug, PartialEq, Eq, Hash)]
pub struct OrdMap<K: Key, V> {
    entries: Vec<(K, V)>,
}

impl<K: Key, V> View for OrdMap<K, V> {
    type V = Map<K, V>;

    closed spec fn view(&self) -> Map<K, V> {
        entries_map(self.entries@)
    }
}

/// A map holds finitely many keys.
pub broadcast proof fn lemma_map_finite<K: Key, V>(m: OrdMap<K, V>)
    ensures
        #[trigger] m@.dom().finite(),
{
    let s = m.entries@;
    let ks = entry_keys(s);
    vstd::seq_lib::seq_to_set_is_finite(ks);
    assert(m@.dom() =~= ks.to_set()) by {
        assert forall|k: K| m@.dom().contains(k) implies ks.to_set().contains(k) by {
            let i = choose|i: int| 0 <= i < s.len() && (#[trigger] s[i]).0 == k;
            assert(ks[i] == k);
        }
        assert forall|k: K| ks.to_set().contains(k) implies m@.dom().contains(k) by {
            let i = choose|i: int| 0 <= i < ks.len() && ks[i] == k;
            assert(s[i].0 == k);
        }
    }
}

impl<K: Key, V> OrdMap<K, V> {
    #[verifier::type_invariant]
    spec fn in_order(self) -> bool {
        strictly_ascending(entry_keys(self.entries@))
    }

    /// The map without entries.
    pub fn new() -> (r: OrdMap<K, V>)
        ensures
            r@ == Map::<K, V>::empty(),
    {
        let r = OrdMap { entries: Vec::new() };
        assert(r@ =~= Map::empty());
        r
    }

    pub fn len(&self) -> (n: usize)
        ensures
            n == self@.len(),
            self@.dom().finite(),
    {
        proof {
            use_type_invariant(self);
            lemma_entries(self.entries@);
        }
        self.entries.len()
    }

    pub fn is_empty(&self) -> (b: bool)
        ensures
            b == (self@.len() == 0),
            b == (self@.dom() == Set::<K>::empty()),
            b == (self@ == Map::<K, V>::empty()),
    {
        let n: usize = self.len();
        proof {
            if n == 0 {
                assert(self@.dom() =~= Set::empty());
                assert(self@ =~= Map::empty());
            }
        }
        n == 0
    }

    /// The first position whose key does not come before `key`.
    fn position(&self, key: &K) -> (p: usize)
        ensures
            p <= self.entries@.len(),
            forall|i: int| 0 <= i < p ==> (#[trigger] self.entries@[i]).0.rank() < key.rank(),
            forall|i: int|
                p <= i < self.entries@.len() ==> (#[trigger] self.entries@[i]).0.rank()
                    >= key.rank(),
    {
        proof {
            use_type_invariant(self);
        }
        let mut low: usize = 0;
        let mut high: usize = self.entries.len();
        while low < high
            invariant
                low <= high <= self.entries@.len(),
                strictly_ascending(entry_keys(self.entries@)),
                forall|i: int| 0 <= i < low ==> (#[trigger] self.entries@[i]).0.rank() < key.rank(),
                forall|i: int|
                    high <= i < self.entries@.len() ==> (#[trigger] self.entries@[i]).0.rank()
                        >= key.rank(),
            decreases high - low,
        {
            let mid: usize = low + (high - low) / 2;
            let ghost ks = entry_keys(self.entries@);
            if self.entries[mid].0.precedes(key) {
                proof {
                    assert forall|i: int| 0 <= i <= mid implies (
                    #[trigger] self.entries@[i]).0.rank() < key.rank() by {
                        if i < mid {
                            assert(ks[i].rank() < ks[mid as int].rank());
                        }
                    }
                }
                low = mid + 1;
            } else {
                proof {
                    assert forall|i: int| mid <= i < self.entries@.len() implies (
                    #[trigger] self.entries@[i]).0.rank() >= key.rank() by {
                        if i > mid {
                            assert(ks[mid as int].rank() < ks[i].rank());
                        }
                    }
                }
                high = mid;
            }
        }
        low
    }

    /// The position of `key`, if it is present.
    fn find(&self, key: &K) -> (r: Option<usize>)
        ensures
            match r {
                Some(p) => p < self.entries@.len() && self.entries@[p as int].0 == *key
                    && self@.contains_key(*key) && self@[*key] == self.entries@[p as int].1,
                None => !self@.contains_key(*key),
            },
    {
        proof {
            use_type_invariant(self);
            lemma_entries(self.entries@);
        }
        let p: usize = self.position(key);
        if p < self.entries.len() && !key.precedes(&self.entries[p].0) {
            proof {
                K::rank_identifies(self.entries@[p as int].0, *key);
            }
            Some(p)
        } else {
            proof {
                if self@.contains_key(*key) {
                    let i = choose|i: int|
                        0 <= i < self.entries@.len() && (#[trigger] self.entries@[i]).0 == *key;
                    let ks = entry_keys(self.entries@);
                    if i > p {
                        assert(ks[p as int].rank() < ks[i].rank());
                    }
                }
            }
            None
        }
    }

    pub fn contains_key(&self, key: &K) -> (b: bool)
        ensures
            b == self@.contains_key(*key),
    {
        self.find(key).is_some()
    }

    pub fn get(&self, key: &K) -> (r: Option<&V>)
        ensures
            match r {
                Some(v) => self@.contains_key(*key) && self@[*key] == *v,
                None => !self@.contains_key(*key),
            },
    {
        match self.find(key) {
            Some(p) => Some(&self.entries[p].1),
            None => None,
        }
    }

    /// The `i`-th key in order.
    pub fn key_at(&self, i: usize) -> (k: K)
        requires
            i < self@.len(),
        ensures
            k == ascending(self@.dom())[i as int],
            self@.contains_key(k),
    {
        proof {
            use_type_invariant(self);
            lemma_entries(self.entries@);
        }
        self.entries[i].0
    }

    /// The value of the `i`-th key in order.
    pub fn value_at(&self, i: usize) -> (v: &V)
        requires
            i < self@.len(),
        ensures
            self@.contains_key(ascending(self@.dom())[i as int]),
            *v == self@[ascending(self@.dom())[i as int]],
    {
        proof {
            use_type_invariant(self);
            lemma_entries(self.entries@);
        }
        let e = &self.entries[i];
        &e.1
    }

    /// All keys in order.
    pub fn keys(&self) -> (r: Vec<K>)
        ensures
            r@ == ascending(self@.dom()),
    {
        proof {
            use_type_invariant(self);
            lemma_entries(self.entries@);
        }
        let mut r: Vec<K> = Vec::new();
        let n: usize = self.entries.len();
        for i in 0..n
            invariant
                n == self.entries@.len(),
                r@ =~= entry_keys(self.entries@).take(i as int),
        {
            r.push(self.entries[i].0);
        }
        assert(r@ =~= entry_keys(self.entries@));
        r
    }

    /// Whether both maps have the same keys.
    pub fn same_keys<W>(&self, other: &OrdMap<K, W>) -> (b: bool)
        ensures
            b == (self@.dom() == other@.dom()),
    {
        proof {
            lemma_map_finite(*self);
            lemma_map_finite(*other);
            lemma_ascending(self@.dom());
            lemma_ascending(other@.dom());
        }
        let n: usize = self.len();
        if n != other.len() {
            return false;
        }
        let ghost mine = ascending(self@.dom());
        let ghost theirs = ascending(other@.dom());
        for i in 0..n
            invariant
                n == self@.len(),
                n == other@.len(),
                mine == ascending(self@.dom()),
                theirs == ascending(other@.dom()),
                mine.len() == n,
                theirs.len() == n,
                forall|j: int| 0 <= j < i ==> mine[j] == theirs[j],
        {
            let a = self.key_at(i);
            let b = other.key_at(i);
            if a.precedes(&b) || b.precedes(&a) {
                return false;
            }
            proof {
                K::rank_identifies(a, b);
            }
        }
        proof {
            assert(mine =~= theirs);
            assert forall|k: K| self@.dom().contains(k) <==> other@.dom().contains(k) by {
                assert(mine.contains(k) <==> self@.dom().contains(k));
                assert(theirs.contains(k) <==> other@.dom().contains(k));
            }
            assert(self@.dom() =~= other@.dom());
        }
        true
    }

    /// The map with `value` under `key`.
    pub fn with(self, key: K, value: V) -> (r: OrdMap<K, V>)
        ensures
            r@ == self@.insert(key, value),
    {
        proof {
            use_type_invariant(&self);
            lemma_entries(self.entries@);
        }
        let p: usize = self.position(&key);
        let found: bool = p < self.entries.len() && !key.precedes(&self.entries[p].0);
        let ghost s = self.entries@;
        let ghost ks = entry_keys(s);
        let mut entries = self.entries;
        if found {
            proof {
                K::rank_identifies(s[p as int].0, key);
            }
            entries[p] = (key, value);
            assert(entry_keys(entries@) =~= ks);
        } else {
            entries.insert(p, (key, value));
            proof {
                let t = entries@;
                let kt = entry_keys(t);
                assert forall|i: int, j: int| 0 <= i < j < kt.len() implies (
                #[trigger] kt[i]).rank() < (#[trigger] kt[j]).rank() by {
                    let i0 = if i < p { i } else { i - 1 };
                    let j0 = if j < p { j } else { j - 1 };
                    if i != p && j != p {
                        assert(kt[i] == ks[i0] && kt[j] == ks[j0]);
                    } else if i == p {
                        assert(kt[j] == ks[j0] && s[j0].0 == ks[j0]);
                        if p < s.len() {
                            assert(s[p as int].0.rank() > key.rank());
                            if j0 > p {
                                assert(ks[p as int].rank() < ks[j0].rank());
                            }
                        }
                    } else {
                        assert(kt[i] == ks[i0] && s[i0].0 == ks[i0]);
                    }
                }
            }
        }
        let r = OrdMap { entries };
        proof {
            let t = r.entries@;
            lemma_entries(t);
            assert(t[p as int] == (key, value));
            assert forall|k: K| r@.contains_key(k) == self@.insert(key, value).contains_key(k) by {
                if r@.contains_key(k) && k != key {
                    let i = choose|i: int| 0 <= i < t.len() && (#[trigger] t[i]).0 == k;
                    if found {
                        assert(s[i].0 == k);
                    } else {
                        let i0 = if i < p { i } else { i - 1 };
                        assert(s[i0].0 == k);
                    }
                }
                if self@.contains_key(k) {
                    let i = choose|i: int| 0 <= i < s.len() && (#[trigger] s[i]).0 == k;
                    if found {
                        assert(t[i].0 == k);
                    } else {
                        let i1 = if i < p { i } else { i + 1 };
                        assert(t[i1].0 == k);
                    }
                }
            }
            assert forall|k: K| r@.contains_key(k) implies #[trigger] r@[k] == self@.insert(
                key,
                value,
            )[k] by {
                let i = choose|i: int| 0 <= i < t.len() && (#[trigger] t[i]).0 == k;
                if k == key {
                    assert(r@[t[p as int].0] == value);
                } else if found {
                    assert(s[i] == t[i]);
                } else {
                    let i0 = if i < p { i } else { i - 1 };
                    assert(s[i0] == t[i]);
                }
            }
            assert(r@ =~= self@.insert(key, value));
        }
        r
    }

    /// The map without `key`, and the value it had.
    pub fn without(self, key: &K) -> (r: (OrdMap<K, V>, Option<V>))
        ensures
            r.0@ == self@.remove(*key),
            match r.1 {
                Some(v) => self@.contains_key(*key) && self@[*key] == v,
                None => !self@.contains_key(*key),
            },
    {
        proof {
            use_type_invariant(&self);
            lemma_entries(self.entries@);
        }
        match self.find(key) {
            None => {
                assert(self@.remove(*key) =~= self@);
                (self, None)
            },
            Some(p) => {
                let ghost s = self.entries@;
                let ghost ks = entry_keys(s);
                let mut entries = self.entries;
                let e = entries.remove(p);
                proof {
                    let t = entries@;
                    let kt = entry_keys(t);
                    assert forall|i: int, j: int| 0 <= i < j < kt.len() implies (
                    #[trigger] kt[i]).rank() < (#[trigger] kt[j]).rank() by {
                        let i0 = if i < p { i } else { i + 1 };
                        let j0 = if j < p { j } else { j + 1 };
                        assert(kt[i] == ks[i0] && kt[j] == ks[j0]);
                    }
                }
                let r = OrdMap { entries };
                proof {
                    let t = r.entries@;
                    lemma_entries(t);
                    assert forall|k: K| r@.contains_key(k) == self@.remove(*key).contains_key(k) by {
                        if r@.contains_key(k) {
                            let i = choose|i: int| 0 <= i < t.len() && (#[trigger] t[i]).0 == k;
                            let i0 = if i < p { i } else { i + 1 };
                            assert(s[i0].0 == k);
                            assert(ks[i0] == k && ks[p as int] == *key);
                            if i0 < p {
                                assert(ks[i0].rank() < ks[p as int].rank());
                            } else {
                                assert(ks[p as int].rank() < ks[i0].rank());
                            }
                        }
                        if self@.contains_key(k) && k != *key {
                            let i = choose|i: int| 0 <= i < s.len() && (#[trigger] s[i]).0 == k;
                            let i1 = if i < p { i } else { i - 1 };
                            assert(t[i1].0 == k);
                        }
                    }
                    assert forall|k: K| r@.contains_key(k) implies #[trigger] r@[k]
                        == self@.remove(*key)[k] by {
                        let i = choose|i: int| 0 <= i < t.len() && (#[trigger] t[i]).0 == k;
                        let i0 = if i < p { i } else { i + 1 };
                        assert(s[i0] == t[i]);
                    }
                    assert(r@ =~= self@.remove(*key));
                }
                (r, Some(e.1))
            },
        }
    }
}

impl<K: Key, V: Copy> OrdMap<K, V> {
    /// The entries inserted in turn: a later entry replaces an earlier one with the same key.
    pub fn from_entries(entries: Vec<(K, V)>) -> (r: OrdMap<K, V>)
        ensures
            r@ == inserted_in_turn(entries@),
    {
        let mut r: OrdMap<K, V> = OrdMap::new();
        let n: usize = entries.len();
        for i in 0..n
            invariant
                n == entries@.len(),
                r@ == inserted_in_turn(entries@.take(i as int)),
        {
            assert(entries@.take(i + 1).drop_last() =~= entries@.take(i as int));
            r = r.with(entries[i].0, entries[i].1);
        }
        assert(entries@.take(n as int) =~= entries@);
        r
    }

    /// The map with the entries of `other` in place of its own.
    pub fn with_entries_of(self, other: &OrdMap<K, V>) -> (r: OrdMap<K, V>)
        ensures
            r@ == self@.union_prefer_right(other@),
    {
        let ghost start = self@;
        let mut r = self;
        let n: usize = other.len();
        let ghost listed = ascending(other@.dom());
        proof {
            lemma_walk(other@.dom());
        }
        for i in 0..n
            invariant
                n == other@.len(),
                listed == ascending(other@.dom()),
                lists(listed, other@.dom()),
                listed.len() == n,
                forall|k: K| #[trigger]
                    r@.contains_key(k) <==> start.contains_key(k) || listed.take(
                        i as int,
                    ).contains(k),
                forall|k: K|
                    r@.contains_key(k) ==> #[trigger] r@[k] == (if listed.take(i as int).contains(
                        k,
                    ) {
                        other@[k]
                    } else {
                        start[k]
                    }),
        {
            proof {
                lemma_take_next(listed, i as int);
            }
            r = r.with(other.key_at(i), *other.value_at(i));
        }
        proof {
            assert(listed.take(n as int) =~= listed);
            let whole = start.union_prefer_right(other@);
            assert forall|k: K| r@.contains_key(k) <==> whole.contains_key(k) by {
                assert(listed.contains(k) <==> other@.dom().contains(k));
            }
            assert forall|k: K| r@.contains_key(k) implies #[trigger] r@[k] == whole[k] by {
                assert(listed.contains(k) <==> other@.dom().contains(k));
            }
            assert(r@ =~= whole);
        }
        r
    }

    /// The entries whose key is in `keys`.
    pub fn restricted_to(&self, keys: &OrdSet<K>) -> (r: OrdMap<K, V>)
        ensures
            r@ == self@.restrict(keys@),
    {
        let mut r: OrdMap<K, V> = OrdMap::new();
        let n: usize = self.len();
        let ghost listed = ascending(self@.dom());
        proof {
            lemma_walk(self@.dom());
        }
        for i in 0..n
            invariant
                n == self@.len(),
                listed == ascending(self@.dom()),
                lists(listed, self@.dom()),
                listed.len() == n,
                forall|k: K| #[trigger]
                    r@.contains_key(k) <==> listed.take(i as int).contains(k) && keys@.contains(k),
                forall|k: K| r@.contains_key(k) ==> #[trigger] r@[k] == self@[k],
        {
            proof {
                lemma_take_next(listed, i as int);
            }
            let key = self.key_at(i);
            if keys.contains(&key) {
                r = r.with(key, *self.value_at(i));
            }
        }
        proof {
            assert(listed.take(n as int) =~= listed);
            assert forall|k: K| r@.contains_key(k) <==> self@.restrict(keys@).contains_key(k) by {
                assert(listed.contains(k) <==> self@.dom().contains(k));
            }
            assert(r@ =~= self@.restrict(keys@));
        }
        r
    }

    /// A copy with the same contents.
    pub fn copied(&self) -> (r: OrdMap<K, V>)
        ensures
            r@ == self@,
    {
        proof {
            use_type_invariant(self);
        }
        let mut entries: Vec<(K, V)> = Vec::new();
        let n: usize = self.entries.len();
        for i in 0..n
            invariant
                n == self.entries@.len(),
                entries@ =~= self.entries@.take(i as int),
        {
            let e = &self.entries[i];
            entries.push((e.0, e.1));
        }
        assert(entries@ =~= self.entries@);
        OrdMap { entries }
    }
}

impl<K: Key, V: Copy> Clone for OrdMap<K, V> {
    fn clone(&self) -> (r: OrdMap<K, V>)
        ensures
            r@ == self@,
    {
        self.copied()
    }
}

/// A set of ordered keys.
#[derive(Debug, PartialEq, Eq, Hash)]
pub struct OrdSet<K: Key> {
    map: OrdMap<K, ()>,
}

impl<K: Key> View for OrdSet<K> {
    type V = Set<K>;

    closed spec fn view(&self) -> Set<K> {
        self.map@.dom()
    }
}

impl<K: Key> OrdSet<K> {
    /// The set without members.
    pub fn new() -> (r: OrdSet<K>)
        ensures
            r@ == Set::<K>::empty(),
    {
        let r = OrdSet { map: OrdMap::new() };
        assert(r@ =~= Set::empty());
        r
    }

    pub fn len(&self) -> (n: usize)
        ensures
            n == self@.len(),
            self@.finite(),
    {
        self.map.len()
    }

    pub fn is_empty(&self) -> (b: bool)
        ensures
            b == (self@.len() == 0),
            b == (self@ == Set::<K>::empty()),
    {
        self.map.is_empty()
    }

    pub fn contains(&self, key: &K) -> (b: bool)
        ensures
            b == self@.contains(*key),
    {
        self.map.contains_key(key)
    }

    /// The `i`-th member in order.
    pub fn at(&self, i: usize) -> (k: K)
        requires
            i < self@.len(),
        ensures
            k == ascending(self@)[i as int],
            self@.contains(k),
    {
        self.map.key_at(i)
    }

    /// All members in order.
    pub fn items(&self) -> (r: Vec<K>)
        ensures
            r@ == ascending(self@),
    {
        self.map.keys()
    }

    /// The set with `key`.
    pub fn with(self, key: K) -> (r: OrdSet<K>)
        ensures
            r@ == self@.insert(key),
    {
        let r = OrdSet { map: self.map.with(key, ()) };
        assert(r@ =~= self@.insert(key));
        r
    }

    /// The set without `key`.
    pub fn without(self, key: &K) -> (r: OrdSet<K>)
        ensures
            r@ == self@.remove(*key),
    {
        let (map, _) = self.map.without(key);
        let r = OrdSet { map };
        assert(r@ =~= self@.remove(*key));
        r
    }

    /// The set with every member of `other`.
    pub fn with_all(self, other: &OrdSet<K>) -> (r: OrdSet<K>)
        ensures
            r@ == self@.union(other@),
    {
        let mut r: OrdSet<K> = self;
        let n: usize = other.len();
        let ghost start = r@;
        let ghost listed = ascending(other@);
        proof {
            lemma_ascending(other@);
        }
        for i in 0..n
            invariant
                n == other@.len(),
                listed == ascending(other@),
                lists(listed, other@),
                listed.len() == n,
                forall|k: K|
                    #[trigger] r@.contains(k) <==> (start.contains(k) || listed.take(
                        i as int,
                    ).contains(k)),
        {
            let k = other.at(i);
            proof {
                let before = listed.take(i as int);
                let after = listed.take(i + 1);
                assert(after =~= before.push(k));
                assert forall|x: K| #[trigger] after.contains(x) <==> (before.contains(x) || x
                    == k) by {
                    if before.contains(x) {
                        let p = choose|p: int| 0 <= p < before.len() && before[p] == x;
                        assert(after[p] == x);
                    }
                    assert(after[i as int] == k);
                }
            }
            r = r.with(k);
        }
        proof {
            assert(listed.take(n as int) =~= listed);
            assert(r@ =~= start.union(other@));
        }
        r
    }

    /// The members of a sequence.
    pub fn from_items(items: Vec<K>) -> (r: OrdSet<K>)
        ensures
            r@ == items@.to_set(),
    {
        let mut r: OrdSet<K> = OrdSet::new();
        let n: usize = items.len();
        for i in 0..n
            invariant
                n == items@.len(),
                r@ == items@.take(i as int).to_set(),
        {
            proof {
                let before = items@.take(i as int);
                let after = items@.take(i + 1);
                assert(after =~= before.push(items@[i as int]));
                assert(after.to_set() =~= before.to_set().insert(items@[i as int])) by {
                    assert forall|x: K| #[trigger] after.contains(x) <==> (before.contains(x) || x
                        == items@[i as int]) by {
                        if before.contains(x) {
                            let p = choose|p: int| 0 <= p < before.len() && before[p] == x;
                            assert(after[p] == x);
                        }
                        assert(after[i as int] == items@[i as int]);
                    }
                }
            }
            r = r.with(items[i]);
        }
        assert(items@.take(n as int) =~= items@);
        r
    }

    /// A copy with the same members.
    pub fn copied(&self) -> (r: OrdSet<K>)
        ensures
            r@ == self@,
    {
        OrdSet { map: self.map.copied() }
    }
}

impl<K: Key> Clone for OrdSet<K> {
    fn clone(&self) -> (r: OrdSet<K>)
        ensures
            r@ == self@,
    {
        self.copied()
    }
}

} // verus!
