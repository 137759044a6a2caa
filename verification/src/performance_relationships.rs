//! Performance relationships: how much someone who holds a belief would
//! like to perform a behaviour.

use crate::entity::{keys_below, lookup, row_at, row_maps};
use crate::error::Error;
use crate::index::{indexes, IdIndex};
use crate::json::PerformanceRelationshipSpec;
use crate::table::Table;
use vstd::prelude::*;

verus! {

/// The number of (belief, behaviour) pairs in a list of rows.
pub open spec fn pair_count(rows: Seq<(u32, Table<i64>)>) -> nat
    decreases rows.len(),
{
    if rows.len() == 0 {
        0
    } else {
        pair_count(rows.drop_last()) + rows.last().1.entries().len()
    }
}

/// A weight for some pairs of a belief and a behaviour. A pair without one
/// counts as zero.
pub struct PerformanceRelationships {
    rows: Table<Table<i64>>,
}

impl PerformanceRelationships {
    /// By belief, then by behaviour: the weight.
    pub closed spec fn table(&self) -> Table<Table<i64>> {
        self.rows
    }

    /// The weights as nested mappings.
    pub open spec fn weights(&self) -> Map<u32, Map<u32, i64>> {
        row_maps(self.table())
    }

    /// The weight of the pair, if it has one.
    pub open spec fn weight(&self, belief: u32, behaviour: u32) -> Option<i64> {
        lookup(row_at(self.weights(), belief), behaviour)
    }

    /// Every table is well formed.
    pub open spec fn wf(&self) -> bool {
        &&& self.table().wf()
        &&& forall|belief: u32| #[trigger]
            self.table()@.dom().contains(belief) ==> self.table()@[belief].wf()
    }

    /// No pair has a weight.
    pub fn new() -> (p: PerformanceRelationships)
        ensures
            p.wf(),
            p.weights() == Map::<u32, Map<u32, i64>>::empty(),
            pair_count(p.table().entries()) == 0,
    {
        let p = PerformanceRelationships { rows: Table::new() };
        assert(p.weights() =~= Map::<u32, Map<u32, i64>>::empty());
        p
    }

    /// The weight of the pair, if it has one.
    pub fn get(&self, belief: u32, behaviour: u32) -> (r: Option<i64>)
        requires
            self.wf(),
        ensures
            r == self.weight(belief, behaviour),
    {
        match self.rows.get(belief) {
            Some(row) => {
                assert(self.weights().dom().contains(belief));
                match row.get(behaviour) {
                    Some(v) => Some(*v),
                    None => None,
                }
            },
            None => None,
        }
    }

    /// Gives the pair the weight `value` and returns the weight it had.
    pub fn set(&mut self, belief: u32, behaviour: u32, value: i64) -> (previous: Option<i64>)
        requires
            old(self).wf(),
        ensures
            final(self).wf(),
            previous == old(self).weight(belief, behaviour),
            final(self).weights() == old(self).weights().insert(
                belief,
                row_at(old(self).weights(), belief).insert(behaviour, value),
            ),
    {
        let ghost before = self.weights();
        let mut row = match self.rows.remove(belief) {
            Some(row) => row,
            None => Table::new(),
        };
        assert(row@ == row_at(before, belief));
        let previous = match row.get(behaviour) {
            Some(v) => Some(*v),
            None => None,
        };
        row.insert(behaviour, value);
        self.rows.insert(belief, row);
        proof {
            assert(self.weights() =~= before.insert(
                belief,
                row_at(before, belief).insert(behaviour, value),
            ));
        }
        previous
    }

    /// The number of pairs that have a weight.
    pub fn len(&self) -> (n: u128)
        ensures
            n == pair_count(self.table().entries()),
    {
        let rows = self.rows.len();
        let mut n: u128 = 0;
        let mut i: usize = 0;
        while i < rows
            invariant
                i <= rows,
                rows == self.rows.entries().len(),
                n == pair_count(self.rows.entries().take(i as int)),
                n <= i * usize::MAX,
            decreases rows - i,
        {
            proof {
                let next = self.rows.entries().take(i + 1);
                assert(next.drop_last() =~= self.rows.entries().take(i as int));
                assert(next.last() == self.rows.entries()[i as int]);
                assert((i + 1) * usize::MAX == i * usize::MAX + usize::MAX) by (nonlinear_arith);
                assert(i * usize::MAX <= usize::MAX * usize::MAX) by (nonlinear_arith)
                    requires
                        i <= usize::MAX,
                ;
                assert(usize::MAX * usize::MAX + usize::MAX <= u128::MAX) by (nonlinear_arith)
                    requires
                        usize::MAX <= 0xffff_ffff_ffff_ffff,
                ;
            }
            let here = self.rows.value_at(i).len();
            n = n + here as u128;
            i = i + 1;
        }
        assert(self.rows.entries().take(rows as int) =~= self.rows.entries());
        n
    }
}

/// What is wrong with one record, if anything: its belief matches no entity
/// (reported against the behaviour it was paired with), or its behaviour
/// matches none (reported against the belief).
pub open spec fn record_error(
    beliefs: Map<u128, u32>,
    behaviours: Map<u128, u32>,
    r: PerformanceRelationshipSpec,
) -> Option<Error> {
    if !beliefs.dom().contains(r.belief_uuid) {
        Some(Error::UnresolvedReference { referrer: r.behaviour_uuid, target: r.belief_uuid })
    } else if !behaviours.dom().contains(r.behaviour_uuid) {
        Some(Error::UnresolvedReference { referrer: r.belief_uuid, target: r.behaviour_uuid })
    } else {
        None
    }
}

/// What is wrong with the first record that has something wrong.
pub open spec fn first_record_error(
    beliefs: Map<u128, u32>,
    behaviours: Map<u128, u32>,
    records: Seq<PerformanceRelationshipSpec>,
) -> Option<Error>
    decreases records.len(),
{
    if records.len() == 0 {
        None
    } else {
        match record_error(beliefs, behaviours, records.first()) {
            Some(e) => Some(e),
            None => first_record_error(beliefs, behaviours, records.drop_first()),
        }
    }
}

/// The weights that `records` stand for, by handle. Of several records for
/// one pair the last counts.
pub open spec fn resolved_weights(
    beliefs: Map<u128, u32>,
    behaviours: Map<u128, u32>,
    records: Seq<PerformanceRelationshipSpec>,
) -> Map<u32, Map<u32, i64>>
    decreases records.len(),
{
    if records.len() == 0 {
        Map::empty()
    } else {
        let before = resolved_weights(beliefs, behaviours, records.drop_last());
        let r = records.last();
        let belief = beliefs[r.belief_uuid];
        before.insert(belief, row_at(before, belief).insert(behaviours[r.behaviour_uuid], r.value))
    }
}

/// An error among the first records is the error of the whole list.
pub proof fn lemma_first_record_error_skip(
    beliefs: Map<u128, u32>,
    behaviours: Map<u128, u32>,
    records: Seq<PerformanceRelationshipSpec>,
    i: int,
)
    requires
        0 <= i < records.len(),
        forall|j: int|
            0 <= j < i ==> record_error(beliefs, behaviours, #[trigger] records[j]).is_none(),
    ensures
        first_record_error(beliefs, behaviours, records) == (match record_error(
            beliefs,
            behaviours,
            records[i],
        ) {
            Some(e) => Some(e),
            None => first_record_error(beliefs, behaviours, records.skip(i + 1)),
        }),
    decreases i,
{
    if i == 0 {
        assert(records.drop_first() =~= records.skip(1));
    } else {
        let rest = records.drop_first();
        assert(record_error(beliefs, behaviours, records[0]).is_none());
        assert forall|j: int| 0 <= j < i - 1 implies record_error(
            beliefs,
            behaviours,
            #[trigger] rest[j],
        ).is_none() by {
            assert(rest[j] == records[j + 1]);
        }
        lemma_first_record_error_skip(beliefs, behaviours, rest, i - 1);
        assert(rest.skip(i) =~= records.skip(i + 1));
    }
}

/// Makes the table of performance relationships that `prss` describe,
/// resolving every identifier through the indexes of the beliefs and of the
/// behaviours. Fails on the first record that names an unknown entity.
pub fn vec_prs_to_performance_relationships(
    prss: &Vec<PerformanceRelationshipSpec>,
    beliefs: &IdIndex,
    behaviours: &IdIndex,
) -> (r: Result<PerformanceRelationships, Error>)
    ensures
        match first_record_error(beliefs@, behaviours@, prss@) {
            Some(e) => r == Err::<PerformanceRelationships, Error>(e),
            None => r matches Ok(p) && p.wf() && p.weights() == resolved_weights(
                beliefs@,
                behaviours@,
                prss@,
            ),
        },
{
    let mut table = PerformanceRelationships::new();
    let n = prss.len();
    let mut i: usize = 0;
    while i < n
        invariant
            i <= n,
            n == prss@.len(),
            table.wf(),
            table.weights() == resolved_weights(beliefs@, behaviours@, prss@.take(i as int)),
            forall|j: int|
                0 <= j < i ==> record_error(beliefs@, behaviours@, #[trigger] prss@[j]).is_none(),
        decreases n - i,
    {
        proof {
            lemma_first_record_error_skip(beliefs@, behaviours@, prss@, i as int);
        }
        let belief = match beliefs.get(prss[i].belief_uuid) {
            Some(h) => h,
            None => {
                return Err(
                    Error::UnresolvedReference {
                        referrer: prss[i].behaviour_uuid,
                        target: prss[i].belief_uuid,
                    },
                );
            },
        };
        let behaviour = match behaviours.get(prss[i].behaviour_uuid) {
            Some(h) => h,
            None => {
                return Err(
                    Error::UnresolvedReference {
                        referrer: prss[i].belief_uuid,
                        target: prss[i].behaviour_uuid,
                    },
                );
            },
        };
        table.set(belief, behaviour, prss[i].value);
        proof {
            let next = prss@.take(i + 1);
            assert(next.drop_last() =~= prss@.take(i as int));
            assert(next.last() == prss@[i as int]);
        }
        i = i + 1;
    }
    proof {
        assert(prss@.take(n as int) =~= prss@);
        if n > 0 {
            lemma_first_record_error_skip(beliefs@, behaviours@, prss@, n - 1);
            assert(prss@.skip(n as int).len() == 0);
        }
    }
    Ok(table)
}

/// Whether a record before the `i`-th is for the same pair as the `i`-th.
pub open spec fn repeats(records: Seq<PerformanceRelationshipSpec>, i: int) -> bool {
    exists|j: int|
        0 <= j < i && (#[trigger] records[j]).belief_uuid == records[i].belief_uuid
            && records[j].behaviour_uuid == records[i].behaviour_uuid
}

/// The positions of the records that are for a pair that an earlier record
/// was for already, in ascending order. Such a record replaces the earlier
/// one; a caller may want to warn of it.
pub fn duplicate_keys(prss: &Vec<PerformanceRelationshipSpec>) -> (found: Vec<usize>)
    ensures
        forall|k: int| 0 <= k < found@.len() ==> (#[trigger] found@[k]) < prss@.len() && repeats(
            prss@,
            found@[k] as int,
        ),
        forall|i: int| 0 <= i < prss@.len() && repeats(prss@, i) ==> found@.contains(i as usize),
        forall|k: int, l: int| 0 <= k < l < found@.len() ==> found@[k] < found@[l],
{
    let mut found: Vec<usize> = Vec::new();
    let n = prss.len();
    let mut i: usize = 0;
    while i < n
        invariant
            i <= n,
            n == prss@.len(),
            forall|k: int|
                0 <= k < found@.len() ==> (#[trigger] found@[k]) < i && repeats(
                    prss@,
                    found@[k] as int,
                ),
            forall|m: int| 0 <= m < i && repeats(prss@, m) ==> found@.contains(m as usize),
            forall|k: int, l: int| 0 <= k < l < found@.len() ==> found@[k] < found@[l],
        decreases n - i,
    {
        let mut j: usize = 0;
        let mut seen = false;
        while j < i && !seen
            invariant
                j <= i,
                i < n,
                n == prss@.len(),
                seen ==> repeats(prss@, i as int),
                !seen ==> forall|m: int|
                    0 <= m < j ==> !((#[trigger] prss@[m]).belief_uuid == prss@[i as int].belief_uuid
                        && prss@[m].behaviour_uuid == prss@[i as int].behaviour_uuid),
            decreases i - j + (if seen { 0int } else { 1int }),
        {
            if prss[j].belief_uuid == prss[i].belief_uuid && prss[j].behaviour_uuid
                == prss[i].behaviour_uuid {
                seen = true;
            } else {
                j = j + 1;
            }
        }
        let ghost before = found@;
        if seen {
            found.push(i);
            proof {
                assert(found@[found@.len() - 1] == i);
                assert forall|m: int| 0 <= m < i + 1 && repeats(prss@, m) implies found@.contains(
                    m as usize,
                ) by {
                    if m < i {
                        let k = choose|k: int| 0 <= k < before.len() && before[k] == m as usize;
                        assert(found@[k] == m as usize);
                    }
                }
            }
        }
        i = i + 1;
    }
    found
}

} // verus!
