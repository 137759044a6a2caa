//! From an entity's identifier to its handle.

use crate::error::Error;
use std::collections::HashMap;
use vstd::prelude::*;

verus! {

broadcast use vstd::std_specs::hash::group_hash_axioms;

/// `index` maps each identifier of `ids` to its position, and nothing else
/// to anything. Such a mapping exists only if no identifier occurs twice.
pub open spec fn indexes(index: Map<u128, u32>, ids: Seq<u128>) -> bool {
    &&& ids.len() <= u32::MAX
    &&& forall|i: int|
        0 <= i < ids.len() ==> index.dom().contains(#[trigger] ids[i]) && index[ids[i]] == i
    &&& forall|u: u128|
        index.dom().contains(u) ==> (#[trigger] index[u]) < ids.len() && ids[index[u] as int] == u
}

/// The mapping from each identifier of `ids` to a position at which it
/// stands.
pub open spec fn the_index(ids: Seq<u128>) -> Map<u128, u32> {
    Map::new(
        |u: u128| exists|i: int| 0 <= i < ids.len() && ids[i] == u,
        |u: u128| (choose|i: int| 0 <= i < ids.len() && ids[i] == u) as u32,
    )
}

/// Identifiers of which none occurs twice have an index.
pub proof fn lemma_the_index(ids: Seq<u128>)
    requires
        distinct(ids),
        ids.len() <= u32::MAX,
    ensures
        indexes(the_index(ids), ids),
{
    let index = the_index(ids);
    assert forall|i: int| 0 <= i < ids.len() implies index.dom().contains(#[trigger] ids[i])
        && index[ids[i]] == i by {
        let j = choose|j: int| 0 <= j < ids.len() && ids[j] == ids[i];
        if j < i {
            assert(ids[j] != ids[i]);
        }
        if i < j {
            assert(ids[i] != ids[j]);
        }
    }
    assert forall|u: u128| index.dom().contains(u) implies (#[trigger] index[u]) < ids.len()
        && ids[index[u] as int] == u by {
        let j = choose|j: int| 0 <= j < ids.len() && ids[j] == u;
    }
}

/// An arena has at most one index.
pub proof fn lemma_index_unique(index: Map<u128, u32>, ids: Seq<u128>)
    requires
        indexes(index, ids),
    ensures
        index == the_index(ids),
{
    let other = the_index(ids);
    assert forall|u: u128| index.dom().contains(u) == other.dom().contains(u) by {
        if index.dom().contains(u) {
            assert(ids[index[u] as int] == u);
        }
        if other.dom().contains(u) {
            let i = choose|i: int| 0 <= i < ids.len() && ids[i] == u;
            assert(index.dom().contains(ids[i]));
        }
    }
    assert forall|u: u128| index.dom().contains(u) implies index[u] == other[u] by {
        let i = choose|i: int| 0 <= i < ids.len() && ids[i] == u;
        assert(ids[index[u] as int] == u);
        assert(index[ids[i]] == i);
    }
    assert(index =~= other);
}

/// No identifier occurs twice in `ids`.
pub open spec fn distinct(ids: Seq<u128>) -> bool {
    forall|i: int, j: int| 0 <= i < j < ids.len() ==> #[trigger] ids[i] != #[trigger] ids[j]
}

/// The first identifier of `ids` that has occurred before it, if there is
/// one.
pub open spec fn first_duplicate(ids: Seq<u128>) -> Option<u128>
    decreases ids.len(),
{
    if ids.len() == 0 {
        None
    } else {
        match first_duplicate(ids.drop_last()) {
            Some(u) => Some(u),
            None => if ids.drop_last().contains(ids.last()) {
                Some(ids.last())
            } else {
                None
            },
        }
    }
}

/// What keeps `ids` from being indexed, if anything: there are more of them
/// than handles, or one occurs twice.
pub open spec fn index_error(ids: Seq<u128>) -> Option<Error> {
    if ids.len() > u32::MAX {
        Some(Error::Internal)
    } else {
        match first_duplicate(ids) {
            Some(key) => Some(Error::DuplicateKey { key }),
            None => None,
        }
    }
}

/// Identifiers have a duplicate exactly if one of them occurs twice.
pub proof fn lemma_first_duplicate(ids: Seq<u128>)
    ensures
        first_duplicate(ids).is_none() <==> distinct(ids),
    decreases ids.len(),
{
    if ids.len() > 0 {
        let front = ids.drop_last();
        lemma_first_duplicate(front);
        assert(forall|i: int| 0 <= i < front.len() ==> front[i] == ids[i]);
        if first_duplicate(ids).is_none() {
            assert forall|i: int, j: int| 0 <= i < j < ids.len() implies #[trigger] ids[i]
                != #[trigger] ids[j] by {
                if j == ids.len() - 1 {
                    if ids[i] == ids[j] {
                        assert(front[i] == ids.last());
                        assert(front.contains(ids.last()));
                    }
                } else {
                    assert(front[i] != front[j]);
                }
            }
        }
        if distinct(ids) {
            assert(distinct(front)) by {
                assert forall|i: int, j: int| 0 <= i < j < front.len() implies #[trigger] front[i]
                    != #[trigger] front[j] by {
                    assert(ids[i] != ids[j]);
                }
            }
            if front.contains(ids.last()) {
                let i = choose|i: int| 0 <= i < front.len() && front[i] == ids.last();
                assert(ids[i] != ids[ids.len() - 1]);
            }
        }
    }
}

/// A duplicate among the first identifiers is the duplicate of them all.
pub proof fn lemma_duplicate_extends(ids: Seq<u128>, k: int)
    requires
        0 <= k <= ids.len(),
        first_duplicate(ids.take(k)).is_some(),
    ensures
        first_duplicate(ids) == first_duplicate(ids.take(k)),
    decreases ids.len() - k,
{
    if k < ids.len() {
        assert(ids.take(k + 1).drop_last() =~= ids.take(k));
        lemma_duplicate_extends(ids, k + 1);
    } else {
        assert(ids.take(k) =~= ids);
    }
}

/// An arena that has an index holds no identifier twice.
pub proof fn lemma_indexed_distinct(index: Map<u128, u32>, ids: Seq<u128>)
    requires
        indexes(index, ids),
    ensures
        distinct(ids),
{
    assert forall|i: int, j: int| 0 <= i < j < ids.len() implies ids[i] != ids[j] by {
        assert(index[ids[i]] == i);
        assert(index[ids[j]] == j);
    }
}

/// The handles of the entities of one arena, by identifier.
pub struct IdIndex {
    map: HashMap<u128, u32>,
}

impl IdIndex {
    /// The index as a mapping.
    pub closed spec fn view(&self) -> Map<u128, u32> {
        self.map@
    }

    /// Indexes the identifiers `ids`, an entity's handle being its position.
    /// Fails with [`Error::Internal`] if there are more of them than
    /// handles, and with [`Error::DuplicateKey`] on the first identifier
    /// that has occurred before.
    pub fn build(ids: &Vec<u128>) -> (r: Result<IdIndex, Error>)
        ensures
            match index_error(ids@) {
                Some(e) => r matches Err(x) && x == e,
                None => r matches Ok(index) && indexes(index@, ids@) && index@ == the_index(ids@)
                    && distinct(ids@),
            },
    {
        if ids.len() > u32::MAX as usize {
            return Err(Error::Internal);
        }
        let mut map: HashMap<u128, u32> = HashMap::new();
        let n: u32 = ids.len() as u32;
        let mut i: u32 = 0;
        while i < n
            invariant
                i <= n,
                n == ids@.len(),
                indexes(map@, ids@.take(i as int)),
            decreases n - i,
        {
            let id = ids[i as usize];
            if map.contains_key(&id) {
                proof {
                    let prefix = ids@.take(i as int);
                    let next = ids@.take(i + 1);
                    let j = map@[id] as int;
                    assert(prefix[j] == id);
                    assert(prefix.contains(id));
                    lemma_indexed_distinct(map@, prefix);
                    lemma_first_duplicate(prefix);
                    assert(next.drop_last() =~= prefix);
                    assert(next.last() == id);
                    assert(first_duplicate(next) == Some(id));
                    lemma_duplicate_extends(ids@, i + 1);
                }
                return Err(Error::DuplicateKey { key: id });
            }
            let ghost before = map@;
            map.insert(id, i);
            proof {
                let prefix = ids@.take(i as int);
                let next = ids@.take(i + 1);
                assert forall|k: int| 0 <= k < next.len() implies map@.dom().contains(
                    #[trigger] next[k],
                ) && map@[next[k]] == k by {
                    if k < i {
                        assert(prefix[k] == next[k]);
                        assert(before.dom().contains(prefix[k]));
                    }
                }
                assert forall|u: u128| map@.dom().contains(u) implies (#[trigger] map@[u])
                    < next.len() && next[map@[u] as int] == u by {
                    if u != id {
                        assert(before.dom().contains(u));
                        assert(prefix[before[u] as int] == u);
                    }
                }
            }
            i = i + 1;
        }
        proof {
            assert(ids@.take(n as int) =~= ids@);
            lemma_index_unique(map@, ids@);
            lemma_indexed_distinct(map@, ids@);
            lemma_first_duplicate(ids@);
        }
        Ok(IdIndex { map })
    }

    /// The handle of the entity known by `id`, if there is one.
    pub fn get(&self, id: u128) -> (r: Option<u32>)
        ensures
            r == (if self@.dom().contains(id) {
                Some(self@[id])
            } else {
                None
            }),
    {
        match self.map.get(&id) {
            Some(h) => Some(*h),
            None => None,
        }
    }
}

} // verus!
