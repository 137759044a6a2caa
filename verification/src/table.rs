//! A small keyed table: a list of entries in ascending order of their keys.
//!
//! Entities own a handful of such tables (a belief's perceptions, an agent's
//! friends, one row of activations per tick). They stay short, are walked in
//! full more often than they are searched, and must come out in the same
//! order on every run, whatever the order in which they were filled, so a
//! sorted list serves better than a hash map.

use vstd::prelude::*;

verus! {

/// The index of the entry of `s` stored under `key`, if there is one (the
/// last one, should a list hold several).
pub open spec fn find<V>(s: Seq<(u32, V)>, key: u32) -> Option<int>
    decreases s.len(),
{
    if s.len() == 0 {
        None
    } else if s.last().0 == key {
        Some(s.len() - 1)
    } else {
        find(s.drop_last(), key)
    }
}

/// No two entries of `s` share a key.
pub open spec fn distinct_keys<V>(s: Seq<(u32, V)>) -> bool {
    forall|i: int, j: int|
        0 <= i < s.len() && 0 <= j < s.len() && i != j ==> (#[trigger] s[i]).0 != (#[trigger] s[j]).0
}

/// The keys of `s` ascend.
pub open spec fn ascending_keys<V>(s: Seq<(u32, V)>) -> bool {
    forall|i: int, j: int| 0 <= i < j < s.len() ==> (#[trigger] s[i]).0 < (#[trigger] s[j]).0
}

/// The mapping that a list of entries stands for; of several entries under
/// one key the last one counts.
pub open spec fn entries_map<V>(s: Seq<(u32, V)>) -> Map<u32, V> {
    Map::new(|k: u32| find(s, k).is_some(), |k: u32| s[find(s, k).unwrap()].1)
}

/// What `find` returns is an index of `s` that holds the key, and it returns
/// nothing only if no entry holds it.
pub proof fn lemma_find<V>(s: Seq<(u32, V)>, key: u32)
    ensures
        match find(s, key) {
            Some(i) => 0 <= i < s.len() && s[i].0 == key && forall|j: int|
                i < j < s.len() ==> (#[trigger] s[j]).0 != key,
            None => forall|j: int| 0 <= j < s.len() ==> (#[trigger] s[j]).0 != key,
        },
    decreases s.len(),
{
    if s.len() > 0 && s.last().0 != key {
        let t = s.drop_last();
        lemma_find(t, key);
        assert(forall|j: int| 0 <= j < t.len() ==> t[j] == s[j]);
    }
}

/// In a list without repeated keys every entry is the one found under its key.
pub proof fn lemma_find_distinct<V>(s: Seq<(u32, V)>, i: int)
    requires
        distinct_keys(s),
        0 <= i < s.len(),
    ensures
        find(s, s[i].0) == Some(i),
{
    lemma_find(s, s[i].0);
}

/// Appending an entry stores its value under its key.
pub proof fn lemma_entries_map_push<V>(s: Seq<(u32, V)>, e: (u32, V))
    ensures
        entries_map(s.push(e)) == entries_map(s).insert(e.0, e.1),
{
    let t = s.push(e);
    let target = entries_map(s).insert(e.0, e.1);
    assert(t.drop_last() =~= s);
    assert forall|k: u32|
        #![trigger entries_map(t).dom().contains(k)]
        #![trigger target.dom().contains(k)]
        entries_map(t).dom().contains(k) == target.dom().contains(k) && (entries_map(
            t,
        ).dom().contains(k) ==> entries_map(t)[k] == target[k]) by {
        lemma_find(s, k);
        lemma_find(t, k);
        if k != e.0 {
            assert(find(t, k) == find(s, k));
        }
    }
    assert(entries_map(t) =~= target);
}

/// A key is mapped exactly if some entry holds it.
pub proof fn lemma_key_in_dom<V>(s: Seq<(u32, V)>, key: u32)
    ensures
        entries_map(s).dom().contains(key) <==> exists|i: int|
            0 <= i < s.len() && (#[trigger] s[i]).0 == key,
{
    lemma_find(s, key);
    if find(s, key).is_some() {
        let i = find(s, key).unwrap();
        assert(0 <= i < s.len() && s[i].0 == key);
    }
}

/// Two ascending lists that map the same keys hold the same keys, place by
/// place.
pub proof fn lemma_ascending_same_keys<V, W>(a: Seq<(u32, V)>, b: Seq<(u32, W)>)
    requires
        ascending_keys(a),
        ascending_keys(b),
        entries_map(a).dom() == entries_map(b).dom(),
    ensures
        a.len() == b.len(),
        forall|i: int| 0 <= i < a.len() ==> (#[trigger] a[i]).0 == b[i].0,
    decreases a.len(),
{
    if a.len() == 0 {
        if b.len() > 0 {
            lemma_key_in_dom(b, b[0].0);
            assert(0 <= 0 < b.len() && b[0].0 == b[0].0);
            lemma_key_in_dom(a, b[0].0);
        }
    } else {
        let ka = a.last().0;
        lemma_key_in_dom(a, ka);
        assert(0 <= a.len() - 1 < a.len() && a[a.len() - 1].0 == ka);
        lemma_key_in_dom(b, ka);
        let jb = choose|j: int| 0 <= j < b.len() && (#[trigger] b[j]).0 == ka;
        let kb = b.last().0;
        lemma_key_in_dom(b, kb);
        assert(0 <= b.len() - 1 < b.len() && b[b.len() - 1].0 == kb);
        lemma_key_in_dom(a, kb);
        let ja = choose|j: int| 0 <= j < a.len() && (#[trigger] a[j]).0 == kb;
        if jb < b.len() - 1 {
            assert(b[jb].0 < b[b.len() - 1].0);
        }
        if ja < a.len() - 1 {
            assert(a[ja].0 < a[a.len() - 1].0);
        }
        assert(ka == kb);
        let a0 = a.drop_last();
        let b0 = b.drop_last();
        assert(forall|i: int| 0 <= i < a0.len() ==> a0[i] == a[i]);
        assert(forall|i: int| 0 <= i < b0.len() ==> b0[i] == b[i]);
        assert forall|k: u32| entries_map(a0).dom().contains(k) == entries_map(b0).dom().contains(
            k,
        ) by {
            lemma_key_in_dom(a0, k);
            lemma_key_in_dom(b0, k);
            lemma_key_in_dom(a, k);
            lemma_key_in_dom(b, k);
            if entries_map(a0).dom().contains(k) {
                let i = choose|i: int| 0 <= i < a0.len() && (#[trigger] a0[i]).0 == k;
                assert(a[i].0 == k);
                assert(a[i].0 < a[a.len() - 1].0);
                let j = choose|j: int| 0 <= j < b.len() && (#[trigger] b[j]).0 == k;
                assert(j < b.len() - 1);
                assert(b0[j].0 == k);
            }
            if entries_map(b0).dom().contains(k) {
                let i = choose|i: int| 0 <= i < b0.len() && (#[trigger] b0[i]).0 == k;
                assert(b[i].0 == k);
                assert(b[i].0 < b[b.len() - 1].0);
                let j = choose|j: int| 0 <= j < a.len() && (#[trigger] a[j]).0 == k;
                assert(j < a.len() - 1);
                assert(a0[j].0 == k);
            }
        }
        assert(entries_map(a0).dom() =~= entries_map(b0).dom());
        lemma_ascending_same_keys(a0, b0);
        assert forall|i: int| 0 <= i < a.len() implies (#[trigger] a[i]).0 == b[i].0 by {
            if i < a.len() - 1 {
                assert(a0[i].0 == b0[i].0);
            }
        }
    }
}

/// A table from `u32` keys to values of type `V`.
pub struct Table<V> {
    entries: Vec<(u32, V)>,
}

impl<V> Table<V> {
    /// The entries, in the order of their keys.
    pub closed spec fn entries(&self) -> Seq<(u32, V)> {
        self.entries@
    }

    /// The keys ascend, so that no key occurs twice.
    pub open spec fn wf(&self) -> bool {
        &&& distinct_keys(self.entries())
        &&& ascending_keys(self.entries())
    }

    /// The table as a mapping from keys to values.
    pub open spec fn view(&self) -> Map<u32, V> {
        entries_map(self.entries())
    }

    /// A table is determined by what it maps: two tables that map the same
    /// keys to the same values hold the same entries in the same order.
    pub proof fn lemma_canonical(self, other: Table<V>)
        requires
            self.wf(),
            other.wf(),
            self@ == other@,
        ensures
            self.entries() == other.entries(),
    {
        let a = self.entries();
        let b = other.entries();
        lemma_ascending_same_keys(a, b);
        assert forall|i: int| 0 <= i < a.len() implies a[i] == b[i] by {
            lemma_find_distinct(a, i);
            lemma_find_distinct(b, i);
            assert(a[i].0 == b[i].0);
            assert(self@[a[i].0] == a[i].1);
            assert(other@[b[i].0] == b[i].1);
        }
        assert(a =~= b);
    }

    /// An empty table.
    pub fn new() -> (t: Table<V>)
        ensures
            t.wf(),
            t.entries() == Seq::<(u32, V)>::empty(),
            t@ == Map::<u32, V>::empty(),
    {
        let t = Table { entries: Vec::new() };
        assert(t@ =~= Map::<u32, V>::empty());
        t
    }

    /// The number of entries.
    pub fn len(&self) -> (n: usize)
        ensures
            n == self.entries().len(),
    {
        self.entries.len()
    }

    /// The key of the `i`-th entry.
    pub fn key_at(&self, i: usize) -> (k: u32)
        requires
            i < self.entries().len(),
        ensures
            k == self.entries()[i as int].0,
    {
        self.entries[i].0
    }

    /// The value of the `i`-th entry.
    pub fn value_at(&self, i: usize) -> (v: &V)
        requires
            i < self.entries().len(),
        ensures
            *v == self.entries()[i as int].1,
    {
        &self.entries[i].1
    }

    /// Where `key` is stored, or else where it would have to be stored: the
    /// place of the first entry with a larger key.
    fn search(&self, key: u32) -> (r: (bool, usize))
        requires
            self.wf(),
        ensures
            r.1 <= self.entries().len(),
            r.0 ==> r.1 < self.entries().len() && self.entries()[r.1 as int].0 == key,
            !r.0 ==> forall|j: int| 0 <= j < r.1 ==> (#[trigger] self.entries()[j]).0 < key,
            !r.0 ==> forall|j: int|
                r.1 <= j < self.entries().len() ==> (#[trigger] self.entries()[j]).0 > key,
    {
        let mut lo: usize = 0;
        let mut hi: usize = self.entries.len();
        while lo < hi
            invariant
                self.wf(),
                lo <= hi <= self.entries@.len(),
                forall|j: int| 0 <= j < lo ==> (#[trigger] self.entries@[j]).0 < key,
                forall|j: int| hi <= j < self.entries@.len() ==> (#[trigger] self.entries@[j]).0 > key,
            decreases hi - lo,
        {
            let mid: usize = lo + (hi - lo) / 2;
            let here = self.entries[mid].0;
            if here == key {
                return (true, mid);
            }
            if here < key {
                proof {
                    assert forall|j: int| 0 <= j < mid + 1 implies (#[trigger] self.entries@[j]).0
                        < key by {
                        if j < mid {
                            assert(self.entries@[j].0 < self.entries@[mid as int].0);
                        }
                    }
                }
                lo = mid + 1;
            } else {
                proof {
                    assert forall|j: int| mid <= j < self.entries@.len() implies (
                    #[trigger] self.entries@[j]).0 > key by {
                        if j > mid {
                            assert(self.entries@[mid as int].0 < self.entries@[j].0);
                        }
                    }
                }
                hi = mid;
            }
        }
        (false, lo)
    }

    /// Where `key` is stored, if it is.
    pub fn position(&self, key: u32) -> (r: Option<usize>)
        requires
            self.wf(),
        ensures
            match r {
                Some(i) => i < self.entries().len() && self.entries()[i as int].0 == key && find(
                    self.entries(),
                    key,
                ) == Some(i as int),
                None => find(self.entries(), key).is_none(),
            },
    {
        let (found, at) = self.search(key);
        proof {
            lemma_find(self.entries@, key);
            if found {
                lemma_find_distinct(self.entries@, at as int);
            }
        }
        if found {
            Some(at)
        } else {
            None
        }
    }

    /// Whether `key` has an entry.
    pub fn contains_key(&self, key: u32) -> (b: bool)
        requires
            self.wf(),
        ensures
            b == self@.dom().contains(key),
    {
        self.position(key).is_some()
    }

    /// The value stored under `key`, if there is one.
    pub fn get(&self, key: u32) -> (r: Option<&V>)
        requires
            self.wf(),
        ensures
            match r {
                Some(v) => self@.dom().contains(key) && *v == self@[key],
                None => !self@.dom().contains(key),
            },
    {
        match self.position(key) {
            Some(i) => Some(&self.entries[i].1),
            None => None,
        }
    }

    /// Stores `value` under `key`, in place of any value already there.
    pub fn insert(&mut self, key: u32, value: V)
        requires
            old(self).wf(),
        ensures
            final(self).wf(),
            final(self)@ == old(self)@.insert(key, value),
    {
        let ghost before = self.entries@;
        let (found, at) = self.search(key);
        proof {
            lemma_find(before, key);
            if found {
                lemma_find_distinct(before, at as int);
            }
        }
        if found {
            self.entries.set(at, (key, value));
            proof {
                let after = self.entries@;
                assert(forall|j: int|
                    0 <= j < after.len() ==> (#[trigger] after[j]).0 == before[j].0);
                assert(distinct_keys(after));
                assert(ascending_keys(after));
                let target = entries_map(before).insert(key, value);
                assert forall|k: u32|
                    #![trigger self@.dom().contains(k)]
                    #![trigger target.dom().contains(k)]
                    self@.dom().contains(k) == target.dom().contains(k) && (self@.dom().contains(
                        k,
                    ) ==> self@[k] == target[k]) by {
                    lemma_find(before, k);
                    lemma_find(after, k);
                    if find(before, k).is_some() {
                        let j = find(before, k).unwrap();
                        assert(after[j].0 == k);
                        lemma_find_distinct(after, j);
                        lemma_find_distinct(before, at as int);
                    } else {
                        if find(after, k).is_some() {
                            let j = find(after, k).unwrap();
                            assert(before[j].0 == k);
                        }
                    }
                }
                assert(self@ =~= target);
            }
        } else {
            self.entries.insert(at, (key, value));
            proof {
                let after = self.entries@;
                assert(after == before.insert(at as int, (key, value)));
                assert forall|j: int| 0 <= j < after.len() implies (#[trigger] after[j]) == (if j
                    < at {
                    before[j]
                } else if j == at {
                    (key, value)
                } else {
                    before[j - 1]
                }) by {}
                assert forall|a: int, b: int| 0 <= a < b < after.len() implies (
                #[trigger] after[a]).0 < (#[trigger] after[b]).0 by {
                    let a0 = if a < at { a } else { a - 1 };
                    let b0 = if b < at { b } else { b - 1 };
                    if a != at && b != at {
                        assert(before[a0].0 < before[b0].0);
                    } else if a == at {
                        assert(before[b0].0 > key);
                    } else {
                        assert(before[a0].0 < key);
                    }
                }
                assert(distinct_keys(after)) by {
                    assert forall|a: int, b: int|
                        0 <= a < after.len() && 0 <= b < after.len() && a != b implies (
                    #[trigger] after[a]).0 != (#[trigger] after[b]).0 by {
                        if a < b {
                            assert(after[a].0 < after[b].0);
                        } else {
                            assert(after[b].0 < after[a].0);
                        }
                    }
                }
                let target = entries_map(before).insert(key, value);
                assert forall|k: u32|
                    #![trigger self@.dom().contains(k)]
                    #![trigger target.dom().contains(k)]
                    self@.dom().contains(k) == target.dom().contains(k) && (self@.dom().contains(
                        k,
                    ) ==> self@[k] == target[k]) by {
                    lemma_find(before, k);
                    lemma_find(after, k);
                    if k == key {
                        lemma_find_distinct(after, at as int);
                    } else if find(before, k).is_some() {
                        let j0 = find(before, k).unwrap();
                        let j = if j0 < at { j0 } else { j0 + 1 };
                        assert(after[j] == before[j0]);
                        lemma_find_distinct(after, j);
                    } else if find(after, k).is_some() {
                        let j = find(after, k).unwrap();
                        let j0 = if j < at { j } else { j - 1 };
                        assert(after[j] == before[j0]);
                    }
                }
                assert(self@ =~= target);
            }
        }
    }

    /// Removes the entry under `key` and returns its value, if there was one.
    pub fn remove(&mut self, key: u32) -> (r: Option<V>)
        requires
            old(self).wf(),
        ensures
            final(self).wf(),
            final(self)@ == old(self)@.remove(key),
            r == (if old(self)@.dom().contains(key) {
                Some(old(self)@[key])
            } else {
                None
            }),
    {
        let ghost before = self.entries@;
        match self.position(key) {
            Some(i) => {
                let removed = self.entries.remove(i);
                proof {
                    let after = self.entries@;
                    assert(after == before.remove(i as int));
                    assert forall|a: int, b: int| 0 <= a < b < after.len() implies (
                    #[trigger] after[a]).0 < (#[trigger] after[b]).0 by {
                        let a0 = if a < i { a } else { a + 1 };
                        let b0 = if b < i { b } else { b + 1 };
                        assert(after[a] == before[a0]);
                        assert(after[b] == before[b0]);
                        assert(before[a0].0 < before[b0].0);
                    }
                    assert(distinct_keys(after)) by {
                        assert forall|a: int, b: int|
                            0 <= a < after.len() && 0 <= b < after.len() && a != b implies (
                        #[trigger] after[a]).0 != (#[trigger] after[b]).0 by {
                            let a0 = if a < i { a } else { a + 1 };
                            let b0 = if b < i { b } else { b + 1 };
                            assert(after[a] == before[a0]);
                            assert(after[b] == before[b0]);
                        }
                    }
                    assert forall|k: u32|
                        (#[trigger] find(after, k)).is_some() == (k != key && find(
                            before,
                            k,
                        ).is_some()) && (find(after, k).is_some() ==> after[find(after, k).unwrap()].1
                            == before[find(before, k).unwrap()].1) by {
                        lemma_find(before, k);
                        lemma_find(after, k);
                        if find(after, k).is_some() {
                            let j = find(after, k).unwrap();
                            let j0 = if j < i { j } else { j + 1 };
                            assert(after[j] == before[j0]);
                            lemma_find_distinct(before, j0);
                            lemma_find_distinct(before, i as int);
                        } else if k != key && find(before, k).is_some() {
                            let j0 = find(before, k).unwrap();
                            let j = if j0 < i { j0 } else { j0 - 1 };
                            assert(after[j] == before[j0]);
                        }
                    }
                    assert(self@ =~= entries_map(before).remove(key));
                }
                Some(removed.1)
            },
            None => {
                proof {
                    assert(self@ =~= entries_map(before).remove(key));
                }
                None
            },
        }
    }
}

impl<V: Copy> Table<V> {
    /// Stores every entry of `other`, in place of any value already there
    /// under its key; entries under other keys stay.
    pub fn merge(&mut self, other: &Table<V>)
        requires
            old(self).wf(),
            other.wf(),
        ensures
            final(self).wf(),
            final(self)@ == old(self)@.union_prefer_right(other@),
    {
        let ghost before = self@;
        let n = other.len();
        let mut i: usize = 0;
        proof {
            assert(entries_map(other.entries().take(0)) =~= Map::<u32, V>::empty());
            assert(self@ =~= before.union_prefer_right(entries_map(other.entries().take(0))));
        }
        while i < n
            invariant
                i <= n,
                n == other.entries().len(),
                self.wf(),
                other.wf(),
                self@ == before.union_prefer_right(entries_map(other.entries().take(i as int))),
            decreases n - i,
        {
            let key = other.key_at(i);
            let value = *other.value_at(i);
            proof {
                let done = other.entries().take(i as int);
                assert(done.push((key, value)) =~= other.entries().take(i + 1));
                lemma_entries_map_push(done, (key, value));
            }
            self.insert(key, value);
            proof {
                assert(self@ =~= before.union_prefer_right(
                    entries_map(other.entries().take(i + 1)),
                ));
            }
            i = i + 1;
        }
        proof {
            assert(other.entries().take(n as int) =~= other.entries());
        }
    }
}

} // verus!
