use vstd::prelude::*;

verus! {

/// The index of the first entry of `s` whose key reads `key`, or `s.len()`
/// when no entry does.
pub open spec fn first_key_index<V>(s: Seq<(String, V)>, key: Seq<char>) -> int
    decreases s.len(),
{
    if s.len() == 0 {
        0
    } else if s[0].0@ == key {
        0
    } else {
        1 + first_key_index(s.subrange(1, s.len() as int), key)
    }
}

pub proof fn lemma_first_key_index_bounds<V>(s: Seq<(String, V)>, key: Seq<char>)
    ensures
        0 <= first_key_index(s, key) <= s.len(),
        first_key_index(s, key) < s.len() ==> s[first_key_index(s, key)].0@ == key,
        forall|j: int| 0 <= j < first_key_index(s, key) ==> s[j].0@ != key,
    decreases s.len(),
{
    if s.len() > 0 && s[0].0@ != key {
        let t = s.subrange(1, s.len() as int);
        lemma_first_key_index_bounds(t, key);
        assert forall|j: int| 0 <= j < first_key_index(s, key) implies s[j].0@ != key by {
            if j > 0 {
                assert(t[j - 1] == s[j]);
            }
        }
    }
}

/// A scan that found `key` first at `i` agrees with [`first_key_index`].
pub proof fn lemma_first_key_index_found<V>(s: Seq<(String, V)>, key: Seq<char>, i: int)
    requires
        0 <= i < s.len(),
        s[i].0@ == key,
        forall|j: int| 0 <= j < i ==> s[j].0@ != key,
    ensures
        first_key_index(s, key) == i,
    decreases i,
{
    if i > 0 {
        let t = s.subrange(1, s.len() as int);
        assert forall|j: int| 0 <= j < i - 1 implies t[j].0@ != key by {
            assert(t[j] == s[j + 1]);
        }
        assert(t[i - 1] == s[i]);
        lemma_first_key_index_found(t, key, i - 1);
    }
}

/// A scan that found `key` nowhere agrees with [`first_key_index`].
pub proof fn lemma_first_key_index_absent<V>(s: Seq<(String, V)>, key: Seq<char>)
    requires
        forall|j: int| 0 <= j < s.len() ==> s[j].0@ != key,
    ensures
        first_key_index(s, key) == s.len(),
    decreases s.len(),
{
    if s.len() > 0 {
        let t = s.subrange(1, s.len() as int);
        assert forall|j: int| 0 <= j < t.len() implies t[j].0@ != key by {
            assert(t[j] == s[j + 1]);
        }
        lemma_first_key_index_absent(t, key);
    }
}

/// Two entry sequences with the same keys position any key identically.
pub proof fn lemma_first_key_index_same_keys<V>(
    s1: Seq<(String, V)>,
    s2: Seq<(String, V)>,
    key: Seq<char>,
)
    requires
        s1.len() == s2.len(),
        forall|j: int| 0 <= j < s1.len() ==> (#[trigger] s1[j]).0@ == s2[j].0@,
    ensures
        first_key_index(s1, key) == first_key_index(s2, key),
    decreases s1.len(),
{
    if s1.len() > 0 {
        let t1 = s1.subrange(1, s1.len() as int);
        let t2 = s2.subrange(1, s2.len() as int);
        assert forall|j: int| 0 <= j < t1.len() implies (#[trigger] t1[j]).0@ == t2[j].0@ by {
            assert(t1[j] == s1[j + 1]);
            assert(t2[j] == s2[j + 1]);
        }
        lemma_first_key_index_same_keys(t1, t2, key);
        assert(s1[0].0@ == s2[0].0@);
    }
}

/// Where an insertion under `key` lands: the first entry holding the
/// key, or one past the end when the key is fresh.
pub open spec fn insert_slot<V>(pre: Seq<(String, V)>, key: Seq<char>) -> int {
    if first_key_index(pre, key) < pre.len() {
        first_key_index(pre, key)
    } else {
        pre.len() as int
    }
}

/// The view of a map after inserting under `key`: the entry at the
/// insertion slot holds the key, and every other entry is untouched.
pub open spec fn map_after_insert<V>(
    pre: Seq<(String, V)>,
    post: Seq<(String, V)>,
    key: Seq<char>,
) -> bool {
    let k = insert_slot(pre, key);
    &&& post.len() == (if first_key_index(pre, key) < pre.len() {
        pre.len() as int
    } else {
        (pre.len() + 1) as int
    })
    &&& post[k].0@ == key
    &&& forall|j: int| 0 <= j < pre.len() && j != k ==> post[j] == pre[j]
}

/// A map from `String` keys to values that keeps its entries in insertion
/// order. Inserting an existing key replaces its value in place; looking a
/// key up scans the entries from the front.
#[derive(Debug)]
pub struct InsertOrderMap<V> {
    entries: Vec<(String, V)>,
}

impl<V> InsertOrderMap<V> {
    /// The entries in insertion order.
    pub closed spec fn view(&self) -> Seq<(String, V)> {
        self.entries@
    }

    /// The position of the first entry holding `key`, or the entry count
    /// when the key is absent.
    pub open spec fn spec_index_of(&self, key: Seq<char>) -> int {
        first_key_index(self@, key)
    }

    /// Whether some entry holds `key`.
    pub open spec fn spec_contains(&self, key: Seq<char>) -> bool {
        self.spec_index_of(key) < self@.len()
    }

    /// The value stored under `key`, if any.
    pub open spec fn spec_get(&self, key: Seq<char>) -> Option<V> {
        if self.spec_contains(key) {
            Some(self@[self.spec_index_of(key)].1)
        } else {
            None
        }
    }

    /// No two entries hold the same key.
    pub open spec fn wf(&self) -> bool {
        forall|i: int, j: int|
            0 <= i < j < self@.len() ==> (#[trigger] self@[i]).0@ != (#[trigger] self@[j]).0@
    }

    /// An entry of the map sits below the map in the well-founded order
    /// that `decreases` clauses use.
    pub proof fn lemma_entry_decreases(m: InsertOrderMap<V>, i: int)
        requires
            0 <= i < m@.len(),
        ensures
            decreases_to!(m => m@[i].1),
    {
        assert(decreases_to!(m => m.entries));
        assert(decreases_to!(m.entries => m.entries@));
        assert(decreases_to!(m.entries@ => m.entries@[i]));
        assert(decreases_to!(m.entries@[i] => m.entries@[i].1));
    }

    /// The entry sequence of the map sits below the map in the well-founded
    /// order that `decreases` clauses use.
    pub proof fn lemma_view_decreases(m: InsertOrderMap<V>)
        ensures
            decreases_to!(m => m@),
    {
        assert(decreases_to!(m => m.entries));
        assert(decreases_to!(m.entries => m.entries@));
    }

    /// Creates an empty map.
    pub fn new() -> (r: InsertOrderMap<V>)
        ensures
            r@ == Seq::<(String, V)>::empty(),
    {
        InsertOrderMap { entries: Vec::new() }
    }

    /// The number of entries.
    pub fn len(&self) -> (r: usize)
        ensures
            r == self@.len(),
    {
        self.entries.len()
    }

    /// True when the map has no entries.
    pub fn is_empty(&self) -> (r: bool)
        ensures
            r == (self@.len() == 0),
    {
        self.entries.is_empty()
    }

    /// The position of the first entry whose key equals `key`, or `None`.
    pub fn index_of(&self, key: &String) -> (r: Option<usize>)
        ensures
            match r {
                Some(i) => i < self@.len() && self.spec_index_of(key@) == i as int,
                None => self.spec_index_of(key@) == self@.len(),
            },
    {
        let n = self.entries.len();
        for i in 0..n
            invariant
                n == self@.len(),
                forall|j: int| 0 <= j < i ==> self@[j].0@ != key@,
        {
            if self.entries[i].0 == *key {
                proof {
                    lemma_first_key_index_found(self@, key@, i as int);
                }
                return Some(i);
            }
        }
        proof {
            lemma_first_key_index_absent(self@, key@);
        }
        None
    }

    /// Inserts `value` under `key`: replaces the value of the first entry
    /// already holding `key`, keeping its position, or appends a new entry.
    pub fn insert(&mut self, key: String, value: V)
        ensures
            old(self).spec_contains(key@) ==> final(self)@ == old(self)@.update(
                old(self).spec_index_of(key@),
                (key, value),
            ),
            !old(self).spec_contains(key@) ==> final(self)@ == old(self)@.push((key, value)),
            old(self).wf() ==> final(self).wf(),
            final(self).spec_get(key@) == Some(value),
            map_after_insert(old(self)@, final(self)@, key@),
            final(self)@[insert_slot(old(self)@, key@)].1 == value,
            forall|k: Seq<char>|
                old(self).spec_contains(k) ==> #[trigger] final(self).spec_contains(k),
    {
        proof {
            lemma_first_key_index_bounds(self@, key@);
        }
        let ghost pre = *self;
        let idx = self.index_of(&key);
        match idx {
            Some(i) => {
                let ghost kview = key@;
                self.entries.set(i, (key, value));
                proof {
                    if pre.wf() {
                        assert forall|p: int, q: int| 0 <= p < q < self@.len() implies (
                        #[trigger] self@[p]).0@ != (#[trigger] self@[q]).0@ by {
                            assert(pre@[i as int].0@ == kview);
                            assert(pre@[p].0@ != pre@[q].0@);
                        }
                    }
                    assert forall|j: int| 0 <= j < i implies self@[j].0@ != kview by {
                        assert(self@[j] == pre@[j]);
                    }
                    lemma_first_key_index_found(self@, kview, i as int);
                    assert forall|k: Seq<char>| pre.spec_contains(k) implies self.spec_contains(
                        k,
                    ) by {
                        assert forall|j: int| 0 <= j < pre@.len() implies (
                        #[trigger] self@[j]).0@ == pre@[j].0@ by {
                            if j != i as int {
                                assert(self@[j] == pre@[j]);
                            } else {
                                assert(pre@[i as int].0@ == kview);
                            }
                        }
                        lemma_first_key_index_same_keys(pre@, self@, k);
                    }
                }
            }
            None => {
                let ghost kview = key@;
                self.entries.push((key, value));
                proof {
                    if pre.wf() {
                        assert forall|p: int, q: int| 0 <= p < q < self@.len() implies (
                        #[trigger] self@[p]).0@ != (#[trigger] self@[q]).0@ by {
                            if q < pre@.len() {
                                assert(pre@[p].0@ != pre@[q].0@);
                            } else {
                                assert(pre@[p].0@ != kview);
                            }
                        }
                    }
                    assert forall|j: int| 0 <= j < pre@.len() implies self@[j].0@ != kview by {
                        assert(self@[j] == pre@[j]);
                    }
                    lemma_first_key_index_found(self@, kview, pre@.len() as int);
                    assert forall|k: Seq<char>| pre.spec_contains(k) implies self.spec_contains(
                        k,
                    ) by {
                        lemma_first_key_index_bounds(pre@, k);
                        let w = first_key_index(pre@, k);
                        assert(self@[w] == pre@[w]);
                        assert forall|j: int| 0 <= j < w implies (#[trigger] self@[j]).0@
                            != k by {
                            assert(self@[j] == pre@[j]);
                        }
                        lemma_first_key_index_found(self@, k, w);
                    }
                }
            }
        }
    }

    /// Returns a reference to the value stored under `key`, or `None`.
    pub fn get(&self, key: &String) -> (r: Option<&V>)
        ensures
            match r {
                Some(v) => self.spec_get(key@) == Some(*v),
                None => self.spec_get(key@) is None,
            },
    {
        proof {
            lemma_first_key_index_bounds(self@, key@);
        }
        let idx = self.index_of(key);
        match idx {
            Some(i) => Some(&self.entries[i].1),
            None => None,
        }
    }

    /// Removes the first entry holding `key`, keeping the order of the
    /// remaining entries, and returns its value.
    pub fn remove(&mut self, key: &String) -> (r: Option<V>)
        ensures
            old(self).spec_contains(key@) ==> r == Some(
                old(self)@[old(self).spec_index_of(key@)].1,
            ) && final(self)@ == old(self)@.remove(old(self).spec_index_of(key@)),
            !old(self).spec_contains(key@) ==> r is None && final(self)@ == old(self)@,
            old(self).wf() ==> final(self).wf(),
    {
        proof {
            lemma_first_key_index_bounds(self@, key@);
        }
        let ghost pre = *self;
        let idx = self.index_of(key);
        match idx {
            Some(i) => {
                let entry = self.entries.remove(i);
                proof {
                    if pre.wf() {
                        assert forall|p: int, q: int| 0 <= p < q < self@.len() implies (
                        #[trigger] self@[p]).0@ != (#[trigger] self@[q]).0@ by {
                            let pp = if p < i as int { p } else { p + 1 };
                            let qq = if q < i as int { q } else { q + 1 };
                            assert(self@[p] == pre@[pp]);
                            assert(self@[q] == pre@[qq]);
                            assert(pre@[pp].0@ != pre@[qq].0@);
                        }
                    }
                }
                Some(entry.1)
            }
            None => None,
        }
    }

    /// Removes the entry at position `i`, keeping the order of the rest,
    /// and returns its value.
    pub fn remove_at(&mut self, i: usize) -> (r: V)
        requires
            i < old(self)@.len(),
        ensures
            r == old(self)@[i as int].1,
            final(self)@ == old(self)@.remove(i as int),
            old(self).wf() ==> final(self).wf(),
    {
        let ghost pre = *self;
        let entry = self.entries.remove(i);
        proof {
            if pre.wf() {
                assert forall|p: int, q: int| 0 <= p < q < self@.len() implies (
                #[trigger] self@[p]).0@ != (#[trigger] self@[q]).0@ by {
                    let pp = if p < i as int { p } else { p + 1 };
                    let qq = if q < i as int { q } else { q + 1 };
                    assert(self@[p] == pre@[pp]);
                    assert(self@[q] == pre@[qq]);
                    assert(pre@[pp].0@ != pre@[qq].0@);
                }
            }
        }
        entry.1
    }

    /// Swaps the value at position `i` for another, returning the old
    /// value; the key and the order stay.
    pub fn replace_value_at(&mut self, i: usize, value: V) -> (r: V)
        requires
            i < old(self)@.len(),
        ensures
            r == old(self)@[i as int].1,
            final(self)@ == old(self)@.update(
                i as int,
                (old(self)@[i as int].0, value),
            ),
            old(self).wf() ==> final(self).wf(),
    {
        let ghost pre = *self;
        let pair = self.entries.remove(i);
        self.entries.insert(i, (pair.0, value));
        proof {
            assert(final(self)@ =~= pre@.update(i as int, (pre@[i as int].0, value)));
            if pre.wf() {
                assert forall|p: int, q: int| 0 <= p < q < self@.len() implies (
                #[trigger] self@[p]).0@ != (#[trigger] self@[q]).0@ by {
                    assert(self@[p].0 == pre@[p].0);
                    assert(self@[q].0 == pre@[q].0);
                    assert(pre@[p].0@ != pre@[q].0@);
                }
            }
        }
        pair.1
    }

    /// A borrowing cursor over the entries, in insertion order.
    pub fn iter(&self) -> (r: InsertOrderIteratorRef<'_, V>)
        ensures
            r@ == self@,
    {
        let r = InsertOrderIteratorRef { map: self, at: 0 };
        proof {
            assert(r@ =~= self@);
        }
        r
    }

    /// Returns the entry at position `i` in insertion order.
    pub fn entry_at(&self, i: usize) -> (r: (&String, &V))
        requires
            i < self@.len(),
        ensures
            *r.0 == self@[i as int].0,
            *r.1 == self@[i as int].1,
    {
        let pair = &self.entries[i];
        (&pair.0, &pair.1)
    }
}


/// An owning cursor over a map's entries, in insertion order.
pub struct InsertOrderIterator<V> {
    items: Vec<(String, V)>,
}

impl<V> InsertOrderIterator<V> {
    /// The entries not yet yielded.
    pub closed spec fn view(&self) -> Seq<(String, V)> {
        self.items@
    }

    /// Yields the next entry, front first.
    pub fn next(&mut self) -> (r: Option<(String, V)>)
        ensures
            old(self)@.len() == 0 ==> r is None && final(self)@ == old(self)@,
            old(self)@.len() > 0 ==> r == Some(old(self)@[0]) && final(self)@ == old(
                self,
            )@.subrange(1, old(self)@.len() as int),
    {
        if self.items.is_empty() {
            None
        } else {
            Some(self.items.remove(0))
        }
    }
}

/// A borrowing cursor over a map's entries, in insertion order.
pub struct InsertOrderIteratorRef<'a, V> {
    map: &'a InsertOrderMap<V>,
    at: usize,
}

impl<'a, V> InsertOrderIteratorRef<'a, V> {
    /// The entries not yet yielded.
    pub closed spec fn view(&self) -> Seq<(String, V)> {
        if self.at <= self.map@.len() {
            self.map@.subrange(self.at as int, self.map@.len() as int)
        } else {
            Seq::empty()
        }
    }

    /// Yields the next entry, front first.
    pub fn next(&mut self) -> (r: Option<(&'a String, &'a V)>)
        ensures
            r is Some <==> old(self)@.len() > 0,
            r matches Some(p) ==> *p.0 == old(self)@[0].0,
            r matches Some(p) ==> *p.1 == old(self)@[0].1,
            r is Some ==> final(self)@ == old(self)@.subrange(1, old(self)@.len() as int),
            r is None ==> final(self)@ == old(self)@,
    {
        let ghost pre = *self;
        if self.at >= self.map.len() {
            None
        } else {
            let entry = self.map.entry_at(self.at);
            self.at = self.at + 1;
            proof {
                assert(pre@.len() > 0);
                assert(pre@[0] == pre.map@[pre.at as int]);
                assert(*entry.0 == pre@[0].0);
                assert(*entry.1 == pre@[0].1);
                assert(self@ =~= pre@.subrange(1, pre@.len() as int));
            }
            Some(entry)
        }
    }
}

} // verus!
