//! Small ordered containers keyed by integers.
//!
//! The screen model is sparse: a line holds only the columns that were
//! written, the buffer holds only the rows that were touched, and a few sets
//! of integers (dirty rows, tab stops, modes) are kept as well. These are
//! stored as vectors sorted by key with no key occurring twice, in place of
//! hash maps and hash sets. The walks the screen makes over them (trimming
//! every line, reversing every line, listing dirty rows and modes in order)
//! then have a deterministic order that a contract can state, where a hash
//! map's iteration order is left open; Verus was not asked to take the std
//! hash containers for this.
use vstd::prelude::*;

verus! {

/// Whether the keys of `s` are strictly increasing (hence pairwise distinct).
pub open spec fn keys_sorted<V>(s: Seq<(i64, V)>) -> bool {
    forall|i: int, j: int| 0 <= i < j < s.len() ==> #[trigger] s[i].0 < #[trigger] s[j].0
}

/// The map described by an association sequence.
pub open spec fn assoc_map<V: View>(s: Seq<(i64, V)>) -> Map<int, V::V> {
    Map::new(
        |k: int| exists|i: int| 0 <= i < s.len() && s[i].0 == k,
        |k: int| s[choose|i: int| 0 <= i < s.len() && s[i].0 == k].1@,
    )
}

/// The keys of an association sequence, in order.
pub open spec fn assoc_keys<V>(s: Seq<(i64, V)>) -> Seq<i64> {
    s.map_values(|e: (i64, V)| e.0)
}

/// The entry at position `i` is what the described map holds for its key.
pub proof fn lemma_assoc_index<V: View>(s: Seq<(i64, V)>, i: int)
    requires
        keys_sorted(s),
        0 <= i < s.len(),
    ensures
        assoc_map(s).contains_key(s[i].0 as int),
        assoc_map(s)[s[i].0 as int] == s[i].1@,
{
    let k = s[i].0 as int;
    assert(0 <= i < s.len() && s[i].0 == k);
    let j = choose|j: int| 0 <= j < s.len() && s[j].0 == k;
    if j < i {
        assert(s[j].0 < s[i].0);
    } else if i < j {
        assert(s[i].0 < s[j].0);
    }
}

/// A finite map from `i64` keys, stored sorted by key.
pub struct IntMap<V> {
    pub entries: Vec<(i64, V)>,
}

impl<V: View> View for IntMap<V> {
    type V = Map<int, V::V>;

    open spec fn view(&self) -> Map<int, V::V> {
        assoc_map(self.entries@)
    }
}

impl<V: View> IntMap<V> {
    /// The stored keys are strictly increasing.
    pub open spec fn wf(&self) -> bool {
        keys_sorted(self.entries@)
    }

    /// The keys in increasing order.
    pub open spec fn key_seq(&self) -> Seq<i64> {
        assoc_keys(self.entries@)
    }

    /// The entry at position `i` is what the map holds for its key.
    pub proof fn lemma_view_index(&self, i: int)
        requires
            self.wf(),
            0 <= i < self.entries@.len(),
        ensures
            self@.contains_key(self.entries@[i].0 as int),
            self@[self.entries@[i].0 as int] == self.entries@[i].1@,
    {
        lemma_assoc_index(self.entries@, i);
    }

    /// An empty map.
    pub fn new() -> (m: Self)
        ensures
            m.wf(),
            m@ == Map::<int, V::V>::empty(),
            m.entries@.len() == 0,
    {
        let m = IntMap { entries: Vec::new() };
        assert(m@ =~= Map::<int, V::V>::empty());
        m
    }

    /// The number of keys.
    pub fn len(&self) -> (n: usize)
        requires
            self.wf(),
        ensures
            n == self.entries@.len(),
            n == self@.dom().len(),
    {
        proof {
            self.lemma_dom_len();
        }
        self.entries.len()
    }

    /// The map holds one key per stored entry.
    pub proof fn lemma_dom_len(&self)
        requires
            self.wf(),
        ensures
            self@.dom().finite(),
            self@.dom().len() == self.entries@.len(),
            self@.dom() == self.key_seq().map_values(|k: i64| k as int).to_set(),
        decreases self.entries@.len(),
    {
        let s = self.entries@;
        let ks = self.key_seq().map_values(|k: i64| k as int);
        assert(self@.dom() =~= ks.to_set()) by {
            assert forall|k: int| self@.dom().contains(k) implies ks.to_set().contains(k) by {
                let i = choose|i: int| 0 <= i < s.len() && s[i].0 == k;
                assert(ks[i] == k);
            }
            assert forall|k: int| ks.to_set().contains(k) implies self@.dom().contains(k) by {
                let i = choose|i: int| 0 <= i < ks.len() && ks[i] == k;
                assert(s[i].0 == k);
            }
        }
        assert(ks.no_duplicates()) by {
            assert forall|i: int, j: int| 0 <= i < ks.len() && 0 <= j < ks.len() && i != j
                implies ks[i] != ks[j] by {
                if i < j {
                    assert(s[i].0 < s[j].0);
                } else {
                    assert(s[j].0 < s[i].0);
                }
            }
        }
        ks.unique_seq_to_set();
    }

    /// Position of `k`, or the position at which it would be inserted.
    pub fn find(&self, k: i64) -> (r: Result<usize, usize>)
        requires
            self.wf(),
        ensures
            match r {
                Ok(i) => i < self.entries@.len() && self.entries@[i as int].0 == k,
                Err(i) => i <= self.entries@.len() && (forall|j: int|
                    0 <= j < i ==> #[trigger] self.entries@[j].0 < k) && (forall|j: int|
                    i <= j < self.entries@.len() ==> #[trigger] self.entries@[j].0 > k),
            },
            r is Ok <==> self@.contains_key(k as int),
    {
        let n = self.entries.len();
        let mut i: usize = 0;
        while i < n
            invariant
                n == self.entries@.len(),
                i <= n,
                self.wf(),
                forall|j: int| 0 <= j < i ==> #[trigger] self.entries@[j].0 < k,
            decreases n - i,
        {
            let key = self.entries[i].0;
            if key == k {
                proof {
                    self.lemma_view_index(i as int);
                }
                return Ok(i);
            }
            if key > k {
                assert forall|j: int| i <= j < n implies #[trigger] self.entries@[j].0 > k by {
                    if j > i {
                        assert(self.entries@[i as int].0 < self.entries@[j].0);
                    }
                }
                assert(!self@.contains_key(k as int)) by {
                    if self@.contains_key(k as int) {
                        let j = choose|j: int| 0 <= j < n && self.entries@[j].0 == k;
                        if j < i {
                        } else {
                            assert(self.entries@[j].0 > k);
                        }
                    }
                }
                return Err(i);
            }
            i = i + 1;
        }
        assert(!self@.contains_key(k as int)) by {
            if self@.contains_key(k as int) {
                let j = choose|j: int| 0 <= j < n && self.entries@[j].0 == k;
                assert(self.entries@[j].0 < k);
            }
        }
        Err(i)
    }

    /// Whether `k` is a key.
    pub fn contains_key(&self, k: i64) -> (b: bool)
        requires
            self.wf(),
        ensures
            b == self@.contains_key(k as int),
    {
        match self.find(k) {
            Ok(_) => true,
            Err(_) => false,
        }
    }

    /// The value under `k`, if any.
    pub fn get(&self, k: i64) -> (r: Option<&V>)
        requires
            self.wf(),
        ensures
            r is Some <==> self@.contains_key(k as int),
            r matches Some(v) ==> v@ == self@[k as int],
    {
        match self.find(k) {
            Ok(i) => {
                proof {
                    self.lemma_view_index(i as int);
                }
                Some(&self.entries[i].1)
            },
            Err(_) => None,
        }
    }

    /// Stores `v` under `k`, replacing any value there.
    pub fn insert(&mut self, k: i64, v: V)
        requires
            old(self).wf(),
        ensures
            final(self).wf(),
            final(self)@ == old(self)@.insert(k as int, v@),
            forall|j: int|
                0 <= j < final(self).entries@.len() ==> (#[trigger] final(self).entries@[j]) == (k, v)
                    || old(self).entries@.contains(final(self).entries@[j]),
    {
        let ghost vv = v@;
        let ghost ve = (k, v);
        match self.find(k) {
            Ok(i) => {
                let ghost s0 = self.entries@;
                self.entries.set(i, (k, v));
                proof {
                    let s = self.entries@;
                    assert(keys_sorted(s)) by {
                        assert forall|a: int, b: int| 0 <= a < b < s.len() implies #[trigger] s[a].0
                            < #[trigger] s[b].0 by {
                            assert(s0[a].0 < s0[b].0);
                        }
                    }
                    let target = old(self)@.insert(k as int, vv);
                    assert forall|key: int| self@.contains_key(key) <==> target.contains_key(key) by {
                        if self@.contains_key(key) {
                            let j = choose|j: int| 0 <= j < s.len() && s[j].0 == key;
                            assert(s0[j].0 == key || j == i);
                        }
                        if old(self)@.contains_key(key) {
                            let j = choose|j: int| 0 <= j < s0.len() && s0[j].0 == key;
                            assert(s[j].0 == key);
                        }
                        if key == k {
                            assert(s[i as int].0 == key);
                        }
                    }
                    assert forall|key: int| #[trigger] self@.contains_key(key) implies self@[key]
                        == target[key] by {
                        let j = choose|j: int| 0 <= j < s.len() && s[j].0 == key;
                        lemma_assoc_index(s, j);
                        if j != i {
                            lemma_assoc_index(s0, j);
                        }
                    }
                    assert(self@ =~= target);
                    assert forall|j: int| 0 <= j < s.len() implies (#[trigger] s[j]) == ve || s0.contains(s[j]) by {
                        if j != i {
                            assert(s0[j] == s[j]);
                        }
                    }
                }
            },
            Err(i) => {
                let ghost s0 = self.entries@;
                self.entries.insert(i, (k, v));
                proof {
                    let s = self.entries@;
                    assert(keys_sorted(s)) by {
                        assert forall|a: int, b: int| 0 <= a < b < s.len() implies #[trigger] s[a].0
                            < #[trigger] s[b].0 by {
                            if b < i {
                                assert(s0[a].0 < s0[b].0);
                            } else if b == i {
                                assert(s0[a].0 < k);
                            } else if a < i {
                                assert(s0[a].0 < k);
                                assert(s0[b - 1].0 > k);
                            } else if a == i {
                                assert(s0[b - 1].0 > k);
                            } else {
                                assert(s0[a - 1].0 < s0[b - 1].0);
                            }
                        }
                    }
                    let target = old(self)@.insert(k as int, vv);
                    assert forall|key: int| self@.contains_key(key) <==> target.contains_key(key) by {
                        if self@.contains_key(key) {
                            let j = choose|j: int| 0 <= j < s.len() && s[j].0 == key;
                            if j < i {
                                assert(s0[j].0 == key);
                            } else if j > i {
                                assert(s0[j - 1].0 == key);
                            }
                        }
                        if old(self)@.contains_key(key) {
                            let j = choose|j: int| 0 <= j < s0.len() && s0[j].0 == key;
                            if j < i {
                                assert(s[j].0 == key);
                            } else {
                                assert(s[j + 1].0 == key);
                            }
                        }
                        if key == k {
                            assert(s[i as int].0 == key);
                        }
                    }
                    assert forall|key: int| #[trigger] self@.contains_key(key) implies self@[key]
                        == target[key] by {
                        let j = choose|j: int| 0 <= j < s.len() && s[j].0 == key;
                        lemma_assoc_index(s, j);
                        if j < i {
                            lemma_assoc_index(s0, j);
                        } else if j > i {
                            lemma_assoc_index(s0, j - 1);
                        }
                    }
                    assert(self@ =~= target);
                    assert forall|j: int| 0 <= j < s.len() implies (#[trigger] s[j]) == ve || s0.contains(s[j]) by {
                        if j < i {
                            assert(s0[j] == s[j]);
                        } else if j > i {
                            assert(s0[j - 1] == s[j]);
                        }
                    }
                }
            },
        }
    }

    /// Removes `k`, returning its value if it had one.
    pub fn remove(&mut self, k: i64) -> (r: Option<V>)
        requires
            old(self).wf(),
        ensures
            final(self).wf(),
            final(self)@ == old(self)@.remove(k as int),
            r is Some <==> old(self)@.contains_key(k as int),
            r matches Some(v) ==> v@ == old(self)@[k as int] && old(self).entries@.contains((k, v)),
            forall|j: int|
                0 <= j < final(self).entries@.len() ==> old(self).entries@.contains(
                    #[trigger] final(self).entries@[j],
                ),
    {
        match self.find(k) {
            Ok(i) => {
                let ghost s0 = self.entries@;
                proof {
                    lemma_assoc_index(s0, i as int);
                }
                let e = self.entries.remove(i);
                proof {
                    let s = self.entries@;
                    assert(keys_sorted(s)) by {
                        assert forall|a: int, b: int| 0 <= a < b < s.len() implies #[trigger] s[a].0
                            < #[trigger] s[b].0 by {
                            if b < i {
                                assert(s0[a].0 < s0[b].0);
                            } else if a < i {
                                assert(s0[a].0 < s0[b + 1].0);
                            } else {
                                assert(s0[a + 1].0 < s0[b + 1].0);
                            }
                        }
                    }
                    let target = old(self)@.remove(k as int);
                    assert forall|key: int| self@.contains_key(key) <==> target.contains_key(key) by {
                        if self@.contains_key(key) {
                            let j = choose|j: int| 0 <= j < s.len() && s[j].0 == key;
                            if j < i {
                                assert(s0[j].0 == key);
                                assert(s0[j].0 < s0[i as int].0);
                            } else {
                                assert(s0[j + 1].0 == key);
                                assert(s0[i as int].0 < s0[j + 1].0);
                            }
                        }
                        if target.contains_key(key) {
                            let j = choose|j: int| 0 <= j < s0.len() && s0[j].0 == key;
                            if j < i {
                                assert(s[j].0 == key);
                            } else {
                                assert(j != i);
                                assert(s[j - 1].0 == key);
                            }
                        }
                    }
                    assert forall|key: int| #[trigger] self@.contains_key(key) implies self@[key]
                        == target[key] by {
                        let j = choose|j: int| 0 <= j < s.len() && s[j].0 == key;
                        lemma_assoc_index(s, j);
                        if j < i {
                            lemma_assoc_index(s0, j);
                        } else {
                            lemma_assoc_index(s0, j + 1);
                        }
                    }
                    assert(self@ =~= target);
                    assert forall|j: int| 0 <= j < s.len() implies s0.contains(#[trigger] s[j]) by {
                        if j < i {
                            assert(s0[j] == s[j]);
                        } else {
                            assert(s0[j + 1] == s[j]);
                        }
                    }
                    assert(s0[i as int] == e);
                    assert(s0[i as int].0 == k);
                }
                Some(e.1)
            },
            Err(_) => {
                assert(self@ =~= old(self)@.remove(k as int));
                assert forall|j: int| 0 <= j < self.entries@.len() implies old(self).entries@.contains(
                    #[trigger] self.entries@[j],
                ) by {
                    assert(old(self).entries@[j] == self.entries@[j]);
                }
                None
            },
        }
    }

    /// Removes everything.
    pub fn clear(&mut self)
        ensures
            final(self).wf(),
            final(self)@ == Map::<int, V::V>::empty(),
    {
        self.entries.clear();
        assert(self@ =~= Map::<int, V::V>::empty());
    }

    /// Drops every entry whose key is greater than `k`.
    pub fn remove_above(&mut self, k: i64)
        requires
            old(self).wf(),
        ensures
            final(self).wf(),
            final(self)@ == Map::new(
                |x: int| old(self)@.contains_key(x) && x <= k,
                |x: int| old(self)@[x],
            ),
    {
        let len = self.entries.len();
        let n = match self.find(k) {
            Ok(i) => i + 1,
            Err(i) => i,
        };
        let ghost s0 = self.entries@;
        self.entries.truncate(n);
        proof {
            let s = self.entries@;
            assert(s =~= s0.subrange(0, n as int));
            let target = Map::new(|x: int| old(self)@.contains_key(x) && x <= k, |x: int| old(self)@[x]);
            assert forall|x: int| #[trigger] self@.contains_key(x) <==> target.contains_key(x) by {
                if self@.contains_key(x) {
                    let j = choose|j: int| 0 <= j < s.len() && s[j].0 == x;
                    assert(s0[j].0 == x);
                    if j > 0 && n > 0 && x > k {
                        assert(s0[n - 1].0 <= k);
                    }
                }
                if target.contains_key(x) {
                    let j = choose|j: int| 0 <= j < s0.len() && s0[j].0 == x;
                    if j >= n {
                        assert(s0[j].0 > k);
                    }
                    assert(s[j].0 == x);
                }
            }
            assert forall|x: int| #[trigger] self@.contains_key(x) implies self@[x] == target[x] by {
                let j = choose|j: int| 0 <= j < s.len() && s[j].0 == x;
                lemma_assoc_index(s, j);
                lemma_assoc_index(s0, j);
            }
            assert(self@ =~= target);
        }
    }

    /// Number of stored entries (for walks by position).
    pub fn entry_count(&self) -> (n: usize)
        ensures
            n == self.entries@.len(),
    {
        self.entries.len()
    }

    /// The key of the entry at position `i`.
    pub fn key_at(&self, i: usize) -> (k: i64)
        requires
            i < self.entries@.len(),
        ensures
            k == self.entries@[i as int].0,
    {
        self.entries[i].0
    }

    /// The value of the entry at position `i`.
    pub fn value_at(&self, i: usize) -> (v: &V)
        requires
            i < self.entries@.len(),
        ensures
            *v == self.entries@[i as int].1,
    {
        &self.entries[i].1
    }

    /// Replace the value stored at position `i`, keeping its key.
    pub fn set_value_at(&mut self, i: usize, v: V)
        requires
            old(self).wf(),
            i < old(self).entries@.len(),
        ensures
            final(self).wf(),
            final(self).entries@ == old(self).entries@.update(i as int, (old(self).entries@[i as int].0, v)),
            final(self)@ == old(self)@.insert(old(self).entries@[i as int].0 as int, v@),
    {
        let k = self.entries[i].0;
        let ghost s0 = self.entries@;
        self.entries.set(i, (k, v));
        proof {
            let s = self.entries@;
            assert(keys_sorted(s)) by {
                assert forall|a: int, b: int| 0 <= a < b < s.len() implies #[trigger] s[a].0
                    < #[trigger] s[b].0 by {
                    assert(s0[a].0 < s0[b].0);
                }
            }
            let target = old(self)@.insert(k as int, v@);
            assert forall|key: int| self@.contains_key(key) <==> target.contains_key(key) by {
                if self@.contains_key(key) {
                    let j = choose|j: int| 0 <= j < s.len() && s[j].0 == key;
                    assert(s0[j].0 == key);
                }
                if old(self)@.contains_key(key) {
                    let j = choose|j: int| 0 <= j < s0.len() && s0[j].0 == key;
                    assert(s[j].0 == key);
                }
                if key == k {
                    assert(s[i as int].0 == key);
                }
            }
            assert forall|key: int| #[trigger] self@.contains_key(key) implies self@[key]
                == target[key] by {
                let j = choose|j: int| 0 <= j < s.len() && s[j].0 == key;
                lemma_assoc_index(s, j);
                if j != i {
                    lemma_assoc_index(s0, j);
                }
            }
            assert(self@ =~= target);
        }
    }
}

} // verus!

verus! {

/// Whether `s` is strictly increasing.
pub open spec fn strictly_sorted(s: Seq<i64>) -> bool {
    forall|i: int, j: int| 0 <= i < j < s.len() ==> #[trigger] s[i] < #[trigger] s[j]
}

/// A finite set of `i64` values, stored in increasing order.
pub struct IntSet {
    pub items: Vec<i64>,
}

impl View for IntSet {
    type V = Set<int>;

    open spec fn view(&self) -> Set<int> {
        Set::new(|k: int| exists|i: int| 0 <= i < self.items@.len() && self.items@[i] == k)
    }
}

impl IntSet {
    pub open spec fn wf(&self) -> bool {
        strictly_sorted(self.items@)
    }

    /// An empty set.
    pub fn new() -> (s: Self)
        ensures
            s.wf(),
            s@ == Set::<int>::empty(),
    {
        let s = IntSet { items: Vec::new() };
        assert(s@ =~= Set::<int>::empty());
        s
    }

    fn find(&self, k: i64) -> (r: Result<usize, usize>)
        requires
            self.wf(),
        ensures
            match r {
                Ok(i) => i < self.items@.len() && self.items@[i as int] == k,
                Err(i) => i <= self.items@.len() && (forall|j: int|
                    0 <= j < i ==> #[trigger] self.items@[j] < k) && (forall|j: int|
                    i <= j < self.items@.len() ==> #[trigger] self.items@[j] > k),
            },
            r is Ok <==> self@.contains(k as int),
    {
        let n = self.items.len();
        let mut i: usize = 0;
        while i < n
            invariant
                n == self.items@.len(),
                i <= n,
                self.wf(),
                forall|j: int| 0 <= j < i ==> #[trigger] self.items@[j] < k,
            decreases n - i,
        {
            let key = self.items[i];
            if key == k {
                return Ok(i);
            }
            if key > k {
                assert forall|j: int| i <= j < n implies #[trigger] self.items@[j] > k by {
                    if j > i {
                        assert(self.items@[i as int] < self.items@[j]);
                    }
                }
                return Err(i);
            }
            i = i + 1;
        }
        Err(i)
    }

    /// Whether `k` is in the set.
    pub fn contains(&self, k: i64) -> (b: bool)
        requires
            self.wf(),
        ensures
            b == self@.contains(k as int),
    {
        match self.find(k) {
            Ok(_) => true,
            Err(_) => false,
        }
    }

    /// Adds `k`.
    pub fn insert(&mut self, k: i64)
        requires
            old(self).wf(),
        ensures
            final(self).wf(),
            final(self)@ == old(self)@.insert(k as int),
    {
        match self.find(k) {
            Ok(_) => {
                assert(self@ =~= old(self)@.insert(k as int));
            },
            Err(i) => {
                let ghost s0 = self.items@;
                self.items.insert(i, k);
                proof {
                    let s = self.items@;
                    assert(strictly_sorted(s)) by {
                        assert forall|a: int, b: int| 0 <= a < b < s.len() implies #[trigger] s[a]
                            < #[trigger] s[b] by {
                            if b < i {
                                assert(s0[a] < s0[b]);
                            } else if b == i {
                                assert(s0[a] < k);
                            } else if a < i {
                                assert(s0[a] < k);
                                assert(s0[b - 1] > k);
                            } else if a == i {
                                assert(s0[b - 1] > k);
                            } else {
                                assert(s0[a - 1] < s0[b - 1]);
                            }
                        }
                    }
                    assert forall|key: int| self@.contains(key) <==> old(self)@.insert(
                        k as int,
                    ).contains(key) by {
                        if self@.contains(key) {
                            let j = choose|j: int| 0 <= j < s.len() && s[j] == key;
                            if j < i {
                                assert(s0[j] == key);
                            } else if j > i {
                                assert(s0[j - 1] == key);
                            }
                        }
                        if old(self)@.contains(key) {
                            let j = choose|j: int| 0 <= j < s0.len() && s0[j] == key;
                            if j < i {
                                assert(s[j] == key);
                            } else {
                                assert(s[j + 1] == key);
                            }
                        }
                        if key == k {
                            assert(s[i as int] == key);
                        }
                    }
                    assert(self@ =~= old(self)@.insert(k as int));
                }
            },
        }
    }

    /// Removes `k`.
    pub fn remove(&mut self, k: i64)
        requires
            old(self).wf(),
        ensures
            final(self).wf(),
            final(self)@ == old(self)@.remove(k as int),
    {
        match self.find(k) {
            Ok(i) => {
                let ghost s0 = self.items@;
                self.items.remove(i);
                proof {
                    let s = self.items@;
                    assert(strictly_sorted(s)) by {
                        assert forall|a: int, b: int| 0 <= a < b < s.len() implies #[trigger] s[a]
                            < #[trigger] s[b] by {
                            if b < i {
                                assert(s0[a] < s0[b]);
                            } else if a < i {
                                assert(s0[a] < s0[b + 1]);
                            } else {
                                assert(s0[a + 1] < s0[b + 1]);
                            }
                        }
                    }
                    assert forall|key: int| self@.contains(key) <==> old(self)@.remove(
                        k as int,
                    ).contains(key) by {
                        if self@.contains(key) {
                            let j = choose|j: int| 0 <= j < s.len() && s[j] == key;
                            if j < i {
                                assert(s0[j] == key);
                                assert(s0[j] < s0[i as int]);
                            } else {
                                assert(s0[j + 1] == key);
                                assert(s0[i as int] < s0[j + 1]);
                            }
                        }
                        if old(self)@.remove(k as int).contains(key) {
                            let j = choose|j: int| 0 <= j < s0.len() && s0[j] == key;
                            if j < i {
                                assert(s[j] == key);
                            } else {
                                assert(j != i);
                                assert(s[j - 1] == key);
                            }
                        }
                    }
                    assert(self@ =~= old(self)@.remove(k as int));
                }
            },
            Err(_) => {
                assert(self@ =~= old(self)@.remove(k as int));
            },
        }
    }

    /// Removes everything.
    pub fn clear(&mut self)
        ensures
            final(self).wf(),
            final(self)@ == Set::<int>::empty(),
    {
        self.items.clear();
        assert(self@ =~= Set::<int>::empty());
    }

    /// Add every integer of `lo..hi`.
    pub fn insert_range(&mut self, lo: i64, hi: i64)
        requires
            old(self).wf(),
        ensures
            final(self).wf(),
            final(self)@ == old(self)@.union(Set::new(|k: int| lo <= k < hi)),
    {
        let mut y = lo;
        while y < hi
            invariant
                self.wf(),
                lo <= hi ==> lo <= y <= hi,
                hi < lo ==> y == lo,
                self@ == old(self)@.union(Set::new(|k: int| lo <= k < y)),
            decreases hi - y,
        {
            self.insert(y);
            assert(self@ =~= old(self)@.union(Set::new(|k: int| lo <= k < y + 1)));
            y = y + 1;
        }
        assert(self@ =~= old(self)@.union(Set::new(|k: int| lo <= k < hi)));
    }

    /// The members in increasing order.
    pub fn to_vec(&self) -> (v: Vec<i64>)
        ensures
            v@ == self.items@,
    {
        self.items.clone()
    }
}

} // verus!
