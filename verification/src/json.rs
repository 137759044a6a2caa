//! The records that a model is read from and written to, and how entities
//! are made from them.
//!
//! A record names other entities by identifier. Making an entity resolves
//! each identifier to a handle and fails on the first that matches nothing.
//! Where a record lists a key twice, the last entry counts.

use crate::entity::{
    agent_ids, all_in_unit, belief_ids, keys_below, row_maps, BasicAgent, BasicBehaviour,
    BasicBelief, SimTime,
};
use crate::error::Error;
use crate::fixed::{in_unit, ONE};
use crate::index::{indexes, IdIndex};
use crate::table::{distinct_keys, entries_map, lemma_entries_map_push, lemma_find_distinct, Table};
use vstd::prelude::*;

verus! {

/// What is wrong with one entry of a table of weights, if anything: its
/// identifier matches no entity, or its value lies outside `[-1, 1]` where
/// the table is `bounded`.
pub open spec fn entry_error(index: Map<u128, u32>, owner: u128, e: (u128, i64), bounded: bool) -> Option<
    Error,
> {
    if !index.dom().contains(e.0) {
        Some(Error::UnresolvedReference { referrer: owner, target: e.0 })
    } else if bounded && !in_unit(e.1 as int) {
        Some(Error::OutOfRange { owner, found: e.1 })
    } else {
        None
    }
}

/// What is wrong with the first entry of `entries` that has something wrong.
pub open spec fn first_error(
    index: Map<u128, u32>,
    owner: u128,
    entries: Seq<(u128, i64)>,
    bounded: bool,
) -> Option<Error>
    decreases entries.len(),
{
    if entries.len() == 0 {
        None
    } else {
        match entry_error(index, owner, entries.first(), bounded) {
            Some(e) => Some(e),
            None => first_error(index, owner, entries.drop_first(), bounded),
        }
    }
}

/// The table that `entries` stand for, by handle.
pub open spec fn resolved(index: Map<u128, u32>, entries: Seq<(u128, i64)>) -> Map<u32, i64>
    decreases entries.len(),
{
    if entries.len() == 0 {
        Map::empty()
    } else {
        resolved(index, entries.drop_last()).insert(index[entries.last().0], entries.last().1)
    }
}

/// What is wrong with the first recorded action whose behaviour matches no
/// entity.
pub open spec fn first_action_error(
    index: Map<u128, u32>,
    owner: u128,
    entries: Seq<(u32, u128)>,
) -> Option<Error>
    decreases entries.len(),
{
    if entries.len() == 0 {
        None
    } else if !index.dom().contains(entries.first().1) {
        Some(Error::UnresolvedReference { referrer: owner, target: entries.first().1 })
    } else {
        first_action_error(index, owner, entries.drop_first())
    }
}

/// The table of actions that `entries` stand for, by tick.
pub open spec fn resolved_actions(index: Map<u128, u32>, entries: Seq<(u32, u128)>) -> Map<u32, u32>
    decreases entries.len(),
{
    if entries.len() == 0 {
        Map::empty()
    } else {
        resolved_actions(index, entries.drop_last()).insert(
            entries.last().0,
            index[entries.last().1],
        )
    }
}

/// What is wrong with the first row of activations that has something wrong.
pub open spec fn first_row_error(
    index: Map<u128, u32>,
    owner: u128,
    rows: Seq<(u32, Vec<(u128, i64)>)>,
) -> Option<Error>
    decreases rows.len(),
{
    if rows.len() == 0 {
        None
    } else {
        match first_error(index, owner, rows.first().1@, true) {
            Some(e) => Some(e),
            None => first_row_error(index, owner, rows.drop_first()),
        }
    }
}

/// The rows of activations that `rows` stand for, by tick.
pub open spec fn resolved_rows(index: Map<u128, u32>, rows: Seq<(u32, Vec<(u128, i64)>)>) -> Map<
    u32,
    Map<u32, i64>,
>
    decreases rows.len(),
{
    if rows.len() == 0 {
        Map::empty()
    } else {
        resolved_rows(index, rows.drop_last()).insert(
            rows.last().0,
            resolved(index, rows.last().1@),
        )
    }
}

/// An error among the first entries is the error of the whole list.
pub proof fn lemma_first_error_skip(
    index: Map<u128, u32>,
    owner: u128,
    entries: Seq<(u128, i64)>,
    bounded: bool,
    i: int,
)
    requires
        0 <= i < entries.len(),
        forall|j: int| 0 <= j < i ==> entry_error(index, owner, #[trigger] entries[j], bounded).is_none(),
    ensures
        first_error(index, owner, entries, bounded) == (match entry_error(
            index,
            owner,
            entries[i],
            bounded,
        ) {
            Some(e) => Some(e),
            None => first_error(index, owner, entries.skip(i + 1), bounded),
        }),
    decreases i,
{
    if i == 0 {
        assert(entries.drop_first() =~= entries.skip(1));
    } else {
        let rest = entries.drop_first();
        assert(entry_error(index, owner, entries[0], bounded).is_none());
        assert forall|j: int| 0 <= j < i - 1 implies entry_error(
            index,
            owner,
            #[trigger] rest[j],
            bounded,
        ).is_none() by {
            assert(rest[j] == entries[j + 1]);
        }
        lemma_first_error_skip(index, owner, rest, bounded, i - 1);
        assert(rest.skip(i) =~= entries.skip(i + 1));
    }
}

/// Resolves a table of weights: each identifier to its handle in `index`.
pub fn resolve_entries(owner: u128, entries: &Vec<(u128, i64)>, index: &IdIndex, bounded: bool) -> (r:
    Result<Table<i64>, Error>)
    ensures
        match first_error(index@, owner, entries@, bounded) {
            Some(e) => r == Err::<Table<i64>, Error>(e),
            None => r matches Ok(t) && t.wf() && t@ == resolved(index@, entries@) && (bounded
                ==> all_in_unit(t@)),
        },
{
    let mut table: Table<i64> = Table::new();
    let n = entries.len();
    let mut i: usize = 0;
    while i < n
        invariant
            i <= n,
            n == entries@.len(),
            table.wf(),
            table@ == resolved(index@, entries@.take(i as int)),
            bounded ==> all_in_unit(table@),
            forall|j: int|
                0 <= j < i ==> entry_error(index@, owner, #[trigger] entries@[j], bounded).is_none(),
        decreases n - i,
    {
        let id = entries[i].0;
        let value = entries[i].1;
        proof {
            lemma_first_error_skip(index@, owner, entries@, bounded, i as int);
        }
        match index.get(id) {
            None => {
                return Err(Error::UnresolvedReference { referrer: owner, target: id });
            },
            Some(handle) => {
                if bounded && (value < -ONE || value > ONE) {
                    return Err(Error::OutOfRange { owner, found: value });
                }
                table.insert(handle, value);
                proof {
                    let next = entries@.take(i + 1);
                    assert(next.drop_last() =~= entries@.take(i as int));
                    assert(next.last() == entries@[i as int]);
                }
            },
        }
        i = i + 1;
    }
    proof {
        assert(entries@.take(n as int) =~= entries@);
        if n > 0 {
            lemma_first_error_skip(index@, owner, entries@, bounded, n - 1);
            assert(entries@.skip(n as int).len() == 0);
        }
    }
    Ok(table)
}

/// An error among the first actions is the error of the whole list.
pub proof fn lemma_first_action_error_skip(
    index: Map<u128, u32>,
    owner: u128,
    entries: Seq<(u32, u128)>,
    i: int,
)
    requires
        0 <= i < entries.len(),
        forall|j: int| 0 <= j < i ==> index.dom().contains((#[trigger] entries[j]).1),
    ensures
        first_action_error(index, owner, entries) == (if !index.dom().contains(entries[i].1) {
            Some(Error::UnresolvedReference { referrer: owner, target: entries[i].1 })
        } else {
            first_action_error(index, owner, entries.skip(i + 1))
        }),
    decreases i,
{
    if i == 0 {
        assert(entries.drop_first() =~= entries.skip(1));
    } else {
        let rest = entries.drop_first();
        assert(index.dom().contains(entries[0].1));
        assert forall|j: int| 0 <= j < i - 1 implies index.dom().contains((#[trigger] rest[j]).1) by {
            assert(rest[j] == entries[j + 1]);
        }
        lemma_first_action_error_skip(index, owner, rest, i - 1);
        assert(rest.skip(i) =~= entries.skip(i + 1));
    }
}

/// Resolves a table of actions: each behaviour's identifier to its handle.
pub fn resolve_actions(owner: u128, entries: &Vec<(SimTime, u128)>, index: &IdIndex) -> (r: Result<
    Table<u32>,
    Error,
>)
    ensures
        match first_action_error(index@, owner, entries@) {
            Some(e) => r == Err::<Table<u32>, Error>(e),
            None => r matches Ok(t) && t.wf() && t@ == resolved_actions(index@, entries@),
        },
{
    let mut table: Table<u32> = Table::new();
    let n = entries.len();
    let mut i: usize = 0;
    while i < n
        invariant
            i <= n,
            n == entries@.len(),
            table.wf(),
            table@ == resolved_actions(index@, entries@.take(i as int)),
            forall|j: int| 0 <= j < i ==> index@.dom().contains((#[trigger] entries@[j]).1),
        decreases n - i,
    {
        let time = entries[i].0;
        let id = entries[i].1;
        proof {
            lemma_first_action_error_skip(index@, owner, entries@, i as int);
        }
        match index.get(id) {
            None => {
                return Err(Error::UnresolvedReference { referrer: owner, target: id });
            },
            Some(handle) => {
                table.insert(time, handle);
                proof {
                    let next = entries@.take(i + 1);
                    assert(next.drop_last() =~= entries@.take(i as int));
                    assert(next.last() == entries@[i as int]);
                }
            },
        }
        i = i + 1;
    }
    proof {
        assert(entries@.take(n as int) =~= entries@);
        if n > 0 {
            lemma_first_action_error_skip(index@, owner, entries@, n - 1);
            assert(entries@.skip(n as int).len() == 0);
        }
    }
    Ok(table)
}

/// An error among the first rows is the error of the whole list.
pub proof fn lemma_first_row_error_skip(
    index: Map<u128, u32>,
    owner: u128,
    rows: Seq<(u32, Vec<(u128, i64)>)>,
    i: int,
)
    requires
        0 <= i < rows.len(),
        forall|j: int|
            0 <= j < i ==> first_error(index, owner, (#[trigger] rows[j]).1@, true).is_none(),
    ensures
        first_row_error(index, owner, rows) == (match first_error(index, owner, rows[i].1@, true) {
            Some(e) => Some(e),
            None => first_row_error(index, owner, rows.skip(i + 1)),
        }),
    decreases i,
{
    if i == 0 {
        assert(rows.drop_first() =~= rows.skip(1));
    } else {
        let rest = rows.drop_first();
        assert(first_error(index, owner, rows[0].1@, true).is_none());
        assert forall|j: int| 0 <= j < i - 1 implies first_error(
            index,
            owner,
            (#[trigger] rest[j]).1@,
            true,
        ).is_none() by {
            assert(rest[j] == rows[j + 1]);
        }
        lemma_first_row_error_skip(index, owner, rest, i - 1);
        assert(rest.skip(i) =~= rows.skip(i + 1));
    }
}

/// Resolves the rows of activations: each belief's identifier to its handle.
pub fn resolve_rows(owner: u128, rows: &Vec<(SimTime, Vec<(u128, i64)>)>, index: &IdIndex) -> (r:
    Result<Table<Table<i64>>, Error>)
    ensures
        match first_row_error(index@, owner, rows@) {
            Some(e) => r == Err::<Table<Table<i64>>, Error>(e),
            None => {
                &&& r matches Ok(t)
                &&& t.wf()
                &&& row_maps(t) == resolved_rows(index@, rows@)
                &&& forall|time: u32| #[trigger] t@.dom().contains(time) ==> t@[time].wf()
                &&& forall|time: u32| #[trigger]
                    row_maps(t).dom().contains(time) ==> all_in_unit(row_maps(t)[time])
            },
        },
{
    let mut table: Table<Table<i64>> = Table::new();
    let n = rows.len();
    let mut i: usize = 0;
    proof {
        assert(row_maps(table) =~= Map::<u32, Map<u32, i64>>::empty());
    }
    while i < n
        invariant
            i <= n,
            n == rows@.len(),
            table.wf(),
            row_maps(table) == resolved_rows(index@, rows@.take(i as int)),
            forall|time: u32| #[trigger] table@.dom().contains(time) ==> table@[time].wf(),
            forall|time: u32| #[trigger]
                row_maps(table).dom().contains(time) ==> all_in_unit(row_maps(table)[time]),
            forall|j: int|
                0 <= j < i ==> first_error(index@, owner, (#[trigger] rows@[j]).1@, true).is_none(),
        decreases n - i,
    {
        let time = rows[i].0;
        proof {
            lemma_first_row_error_skip(index@, owner, rows@, i as int);
        }
        let ghost before = row_maps(table);
        match resolve_entries(owner, &rows[i].1, index, true) {
            Err(e) => {
                return Err(e);
            },
            Ok(row) => {
                let ghost r = row@;
                table.insert(time, row);
                proof {
                    let next = rows@.take(i + 1);
                    assert(next.drop_last() =~= rows@.take(i as int));
                    assert(next.last() == rows@[i as int]);
                    assert(row_maps(table) =~= before.insert(time, r));
                    assert forall|t: u32| #[trigger]
                        row_maps(table).dom().contains(t) implies all_in_unit(row_maps(table)[t]) by {
                        if t != time {
                            assert(before.dom().contains(t));
                        }
                    }
                }
            },
        }
        i = i + 1;
    }
    proof {
        assert(rows@.take(n as int) =~= rows@);
        if n > 0 {
            lemma_first_row_error_skip(index@, owner, rows@, n - 1);
            assert(rows@.skip(n as int).len() == 0);
        }
    }
    Ok(table)
}

/// A table resolved without error holds only handles of the indexed arena.
pub proof fn lemma_resolved_linked(
    index: Map<u128, u32>,
    ids: Seq<u128>,
    owner: u128,
    entries: Seq<(u128, i64)>,
    bounded: bool,
)
    requires
        indexes(index, ids),
        first_error(index, owner, entries, bounded).is_none(),
    ensures
        keys_below(resolved(index, entries), ids.len()),
        forall|i: int| 0 <= i < entries.len() ==> index.dom().contains((#[trigger] entries[i]).0),
    decreases entries.len(),
{
    if entries.len() > 0 {
        lemma_no_error_everywhere(index, owner, entries, bounded);
        let rest = entries.drop_last();
        assert forall|i: int| 0 <= i < rest.len() implies entry_error(
            index,
            owner,
            #[trigger] rest[i],
            bounded,
        ).is_none() by {
            assert(rest[i] == entries[i]);
        }
        lemma_no_error_anywhere(index, owner, rest, bounded);
        lemma_resolved_linked(index, ids, owner, rest, bounded);
        assert(entry_error(index, owner, entries[entries.len() - 1], bounded).is_none());
    }
}

/// A list has no error exactly if none of its entries has one.
pub proof fn lemma_no_error_everywhere(
    index: Map<u128, u32>,
    owner: u128,
    entries: Seq<(u128, i64)>,
    bounded: bool,
)
    requires
        first_error(index, owner, entries, bounded).is_none(),
    ensures
        forall|i: int|
            0 <= i < entries.len() ==> entry_error(index, owner, #[trigger] entries[i], bounded).is_none(),
    decreases entries.len(),
{
    if entries.len() > 0 {
        let rest = entries.drop_first();
        lemma_no_error_everywhere(index, owner, rest, bounded);
        assert forall|i: int| 0 <= i < entries.len() implies entry_error(
            index,
            owner,
            #[trigger] entries[i],
            bounded,
        ).is_none() by {
            if i > 0 {
                assert(rest[i - 1] == entries[i]);
            }
        }
    }
}

/// A list none of whose entries has an error has no error.
pub proof fn lemma_no_error_anywhere(
    index: Map<u128, u32>,
    owner: u128,
    entries: Seq<(u128, i64)>,
    bounded: bool,
)
    requires
        forall|i: int|
            0 <= i < entries.len() ==> entry_error(index, owner, #[trigger] entries[i], bounded).is_none(),
    ensures
        first_error(index, owner, entries, bounded).is_none(),
    decreases entries.len(),
{
    if entries.len() > 0 {
        let rest = entries.drop_first();
        assert forall|i: int| 0 <= i < rest.len() implies entry_error(
            index,
            owner,
            #[trigger] rest[i],
            bounded,
        ).is_none() by {
            assert(rest[i] == entries[i + 1]);
        }
        lemma_no_error_anywhere(index, owner, rest, bounded);
        assert(entry_error(index, owner, entries[0], bounded).is_none());
    }
}

/// Actions resolved without error are handles of the indexed arena.
pub proof fn lemma_resolved_actions_linked(
    index: Map<u128, u32>,
    ids: Seq<u128>,
    owner: u128,
    entries: Seq<(u32, u128)>,
)
    requires
        indexes(index, ids),
        first_action_error(index, owner, entries).is_none(),
    ensures
        forall|t: u32| #[trigger]
            resolved_actions(index, entries).dom().contains(t) ==> resolved_actions(
                index,
                entries,
            )[t] < ids.len(),
        forall|i: int| 0 <= i < entries.len() ==> index.dom().contains((#[trigger] entries[i]).1),
    decreases entries.len(),
{
    if entries.len() > 0 {
        let rest = entries.drop_first();
        lemma_actions_all_known(index, owner, entries);
        let front = entries.drop_last();
        assert forall|i: int| 0 <= i < front.len() implies index.dom().contains(
            (#[trigger] front[i]).1,
        ) by {
            assert(front[i] == entries[i]);
        }
        lemma_actions_known_no_error(index, owner, front);
        lemma_resolved_actions_linked(index, ids, owner, front);
        let last = entries[entries.len() - 1];
        assert(index.dom().contains(last.1));
        assert(index[last.1] < ids.len());
        let before = resolved_actions(index, front);
        let all = resolved_actions(index, entries);
        assert(all == before.insert(last.0, index[last.1]));
        assert forall|t: u32| #[trigger] all.dom().contains(t) implies all[t] < ids.len() by {
            if t != last.0 {
                assert(before.dom().contains(t));
            }
        }
    }
}

/// A list of actions has no error exactly if every behaviour is known.
pub proof fn lemma_actions_all_known(index: Map<u128, u32>, owner: u128, entries: Seq<(u32, u128)>)
    requires
        first_action_error(index, owner, entries).is_none(),
    ensures
        forall|i: int| 0 <= i < entries.len() ==> index.dom().contains((#[trigger] entries[i]).1),
    decreases entries.len(),
{
    if entries.len() > 0 {
        let rest = entries.drop_first();
        lemma_actions_all_known(index, owner, rest);
        assert forall|i: int| 0 <= i < entries.len() implies index.dom().contains(
            (#[trigger] entries[i]).1,
        ) by {
            if i > 0 {
                assert(rest[i - 1] == entries[i]);
            }
        }
    }
}

/// A list of actions whose behaviours are all known has no error.
pub proof fn lemma_actions_known_no_error(
    index: Map<u128, u32>,
    owner: u128,
    entries: Seq<(u32, u128)>,
)
    requires
        forall|i: int| 0 <= i < entries.len() ==> index.dom().contains((#[trigger] entries[i]).1),
    ensures
        first_action_error(index, owner, entries).is_none(),
    decreases entries.len(),
{
    if entries.len() > 0 {
        let rest = entries.drop_first();
        assert forall|i: int| 0 <= i < rest.len() implies index.dom().contains(
            (#[trigger] rest[i]).1,
        ) by {
            assert(rest[i] == entries[i + 1]);
        }
        lemma_actions_known_no_error(index, owner, rest);
        assert(index.dom().contains(entries[0].1));
    }
}

/// Rows have no error exactly if none of them has one.
pub proof fn lemma_rows_no_error_everywhere(
    index: Map<u128, u32>,
    owner: u128,
    rows: Seq<(u32, Vec<(u128, i64)>)>,
)
    requires
        first_row_error(index, owner, rows).is_none(),
    ensures
        forall|i: int|
            0 <= i < rows.len() ==> first_error(index, owner, (#[trigger] rows[i]).1@, true).is_none(),
    decreases rows.len(),
{
    if rows.len() > 0 {
        let rest = rows.drop_first();
        lemma_rows_no_error_everywhere(index, owner, rest);
        assert forall|i: int| 0 <= i < rows.len() implies first_error(
            index,
            owner,
            (#[trigger] rows[i]).1@,
            true,
        ).is_none() by {
            if i > 0 {
                assert(rest[i - 1] == rows[i]);
            }
        }
    }
}

/// Rows none of which has an error have no error.
pub proof fn lemma_rows_no_error_anywhere(
    index: Map<u128, u32>,
    owner: u128,
    rows: Seq<(u32, Vec<(u128, i64)>)>,
)
    requires
        forall|i: int|
            0 <= i < rows.len() ==> first_error(index, owner, (#[trigger] rows[i]).1@, true).is_none(),
    ensures
        first_row_error(index, owner, rows).is_none(),
    decreases rows.len(),
{
    if rows.len() > 0 {
        let rest = rows.drop_first();
        assert forall|i: int| 0 <= i < rest.len() implies first_error(
            index,
            owner,
            (#[trigger] rest[i]).1@,
            true,
        ).is_none() by {
            assert(rest[i] == rows[i + 1]);
        }
        lemma_rows_no_error_anywhere(index, owner, rest);
        assert(first_error(index, owner, rows[0].1@, true).is_none());
    }
}

/// Rows resolved without error hold only handles of the indexed arena.
pub proof fn lemma_resolved_rows_linked(
    index: Map<u128, u32>,
    ids: Seq<u128>,
    owner: u128,
    rows: Seq<(u32, Vec<(u128, i64)>)>,
)
    requires
        indexes(index, ids),
        first_row_error(index, owner, rows).is_none(),
    ensures
        forall|t: u32| #[trigger]
            resolved_rows(index, rows).dom().contains(t) ==> keys_below(
                resolved_rows(index, rows)[t],
                ids.len(),
            ),
    decreases rows.len(),
{
    if rows.len() > 0 {
        lemma_rows_no_error_everywhere(index, owner, rows);
        let front = rows.drop_last();
        assert forall|i: int| 0 <= i < front.len() implies first_error(
            index,
            owner,
            (#[trigger] front[i]).1@,
            true,
        ).is_none() by {
            assert(front[i] == rows[i]);
        }
        lemma_rows_no_error_anywhere(index, owner, front);
        lemma_resolved_rows_linked(index, ids, owner, front);
        let last = rows[rows.len() - 1];
        assert(first_error(index, owner, last.1@, true).is_none());
        lemma_resolved_linked(index, ids, owner, last.1@, true);
        let before = resolved_rows(index, front);
        let all = resolved_rows(index, rows);
        assert(all == before.insert(last.0, resolved(index, last.1@)));
        assert forall|t: u32| #[trigger] all.dom().contains(t) implies keys_below(
            all[t],
            ids.len(),
        ) by {
            if t != last.0 {
                assert(before.dom().contains(t));
            }
        }
    }
}

/// The record of a behaviour.
#[derive(Debug, PartialEq, Eq)]
pub struct BehaviourSpec {
    /// The name of the behaviour.
    pub name: String,
    /// The identifier of the behaviour.
    pub uuid: u128,
}

impl BehaviourSpec {
    /// The behaviour that the record describes.
    pub fn to_basic_behaviour(&self) -> (b: BasicBehaviour)
        ensures
            b.id() == self.uuid,
            b.label() == self.name@,
    {
        BasicBehaviour::new_with_uuid(self.name.clone(), self.uuid)
    }
}

/// The record of a belief.
#[derive(Debug, PartialEq, Eq)]
pub struct BeliefSpec {
    /// The name of the belief.
    pub name: String,
    /// The identifier of the belief.
    pub uuid: u128,
    /// By behaviour: how strongly seeing it performed speaks for the belief.
    pub perceptions: Vec<(u128, i64)>,
    /// By belief: how strongly holding that one bears on holding this one.
    pub relationships: Vec<(u128, i64)>,
}

impl BeliefSpec {
    /// What keeps the record's relationships from being linked, if anything:
    /// the belief itself is not among the beliefs, or an entry is wrong.
    pub open spec fn link_error(&self, beliefs: Map<u128, u32>) -> Option<Error> {
        if !beliefs.dom().contains(self.uuid) {
            Some(Error::UnresolvedReference { referrer: self.uuid, target: self.uuid })
        } else {
            first_error(beliefs, self.uuid, self.relationships@, true)
        }
    }

    /// The belief that the record describes, with its perceptions and
    /// without its relationships: those may name beliefs that do not exist
    /// yet (see [`BeliefSpec::link_belief_relationships`]).
    pub fn to_basic_belief(&self, behaviours: &IdIndex) -> (r: Result<BasicBelief, Error>)
        ensures
            match first_error(behaviours@, self.uuid, self.perceptions@, true) {
                Some(e) => r == Err::<BasicBelief, Error>(e),
                None => {
                    &&& r matches Ok(b)
                    &&& b.wf()
                    &&& b.id() == self.uuid
                    &&& b.label() == self.name@
                    &&& b.perceptions()@ == resolved(behaviours@, self.perceptions@)
                    &&& b.relationships()@ == Map::<u32, i64>::empty()
                },
            },
    {
        match resolve_entries(self.uuid, &self.perceptions, behaviours, true) {
            Err(e) => Err(e),
            Ok(table) => {
                let mut b = BasicBelief::new_with_uuid(self.name.clone(), self.uuid);
                b.replace_perceptions(table);
                Ok(b)
            },
        }
    }

    /// Gives the belief of this record, among `beliefs`, the relationships
    /// that the record lists, each in place of any it had to the same
    /// belief. Its relationships to beliefs that the record does not name
    /// stay as they are. On an error nothing changes.
    pub fn link_belief_relationships(&self, beliefs: &mut Vec<BasicBelief>, index: &IdIndex) -> (r:
        Result<(), Error>)
        requires
            indexes(index@, belief_ids(old(beliefs)@)),
            forall|j: int| 0 <= j < old(beliefs)@.len() ==> (#[trigger] old(beliefs)@[j]).wf(),
        ensures
            final(beliefs)@.len() == old(beliefs)@.len(),
            belief_ids(final(beliefs)@) == belief_ids(old(beliefs)@),
            forall|j: int| 0 <= j < final(beliefs)@.len() ==> (#[trigger] final(beliefs)@[j]).wf(),
            match self.link_error(index@) {
                Some(e) => r == Err::<(), Error>(e) && final(beliefs)@ == old(beliefs)@,
                None => {
                    let me = index@[self.uuid] as int;
                    &&& r == Ok::<(), Error>(())
                    &&& forall|j: int|
                        0 <= j < old(beliefs)@.len() && j != me ==> (#[trigger] final(beliefs)@[j])
                            == old(beliefs)@[j]
                    &&& final(beliefs)@[me].label() == old(beliefs)@[me].label()
                    &&& final(beliefs)@[me].perceptions() == old(beliefs)@[me].perceptions()
                    &&& final(beliefs)@[me].relationships()@ == old(
                        beliefs,
                    )@[me].relationships()@.union_prefer_right(
                        resolved(index@, self.relationships@),
                    )
                },
            },
    {
        let me = match index.get(self.uuid) {
            Some(me) => me,
            None => {
                return Err(Error::UnresolvedReference { referrer: self.uuid, target: self.uuid });
            },
        };
        match resolve_entries(self.uuid, &self.relationships, index, true) {
            Err(e) => Err(e),
            Ok(table) => {
                beliefs[me as usize].add_relationships(&table);
                assert(belief_ids(beliefs@) =~= belief_ids(old(beliefs)@));
                Ok(())
            },
        }
    }
}

/// The record of an agent.
#[derive(Debug, PartialEq, Eq)]
pub struct AgentSpec {
    /// The identifier of the agent.
    pub uuid: u128,
    /// By tick: the behaviour performed.
    pub actions: Vec<(SimTime, u128)>,
    /// By tick and belief: how strongly the belief is held.
    pub activations: Vec<(SimTime, Vec<(u128, i64)>)>,
    /// By belief: the agent's smoothing coefficient.
    pub deltas: Vec<(u128, i64)>,
    /// By agent: the signed weight of the tie.
    pub friends: Vec<(u128, i64)>,
}

impl AgentSpec {
    /// What keeps the record from becoming an agent, if anything: the first
    /// wrong entry among the actions, then the activations, then the deltas.
    pub open spec fn agent_error(&self, behaviours: Map<u128, u32>, beliefs: Map<u128, u32>) -> Option<
        Error,
    > {
        match first_action_error(behaviours, self.uuid, self.actions@) {
            Some(e) => Some(e),
            None => match first_row_error(beliefs, self.uuid, self.activations@) {
                Some(e) => Some(e),
                None => first_error(beliefs, self.uuid, self.deltas@, false),
            },
        }
    }

    /// What keeps the record's friends from being linked, if anything: the
    /// agent itself is not among the agents, or an entry is wrong.
    pub open spec fn link_error(&self, agents: Map<u128, u32>) -> Option<Error> {
        if !agents.dom().contains(self.uuid) {
            Some(Error::UnresolvedReference { referrer: self.uuid, target: self.uuid })
        } else {
            first_error(agents, self.uuid, self.friends@, true)
        }
    }

    /// The agent that the record describes, with its actions, activations
    /// and deltas and without its friends: those may name agents that do not
    /// exist yet (see [`AgentSpec::link_friends`]).
    pub fn to_basic_agent(&self, behaviours: &IdIndex, beliefs: &IdIndex) -> (r: Result<
        BasicAgent,
        Error,
    >)
        ensures
            match self.agent_error(behaviours@, beliefs@) {
                Some(e) => r == Err::<BasicAgent, Error>(e),
                None => {
                    &&& r matches Ok(a)
                    &&& a.wf()
                    &&& a.id() == self.uuid
                    &&& a.actions()@ == resolved_actions(behaviours@, self.actions@)
                    &&& a.rows() == resolved_rows(beliefs@, self.activations@)
                    &&& a.deltas()@ == resolved(beliefs@, self.deltas@)
                    &&& a.friends()@ == Map::<u32, i64>::empty()
                },
            },
    {
        let actions = match resolve_actions(self.uuid, &self.actions, behaviours) {
            Ok(t) => t,
            Err(e) => {
                return Err(e);
            },
        };
        let activations = match resolve_rows(self.uuid, &self.activations, beliefs) {
            Ok(t) => t,
            Err(e) => {
                return Err(e);
            },
        };
        let deltas = match resolve_entries(self.uuid, &self.deltas, beliefs, false) {
            Ok(t) => t,
            Err(e) => {
                return Err(e);
            },
        };
        let mut a = BasicAgent::new_with_uuid(self.uuid);
        a.replace_actions(actions);
        a.replace_activations(activations);
        a.replace_deltas(deltas);
        Ok(a)
    }

    /// Gives the agent of this record, among `agents`, the friends that the
    /// record lists, each in place of any tie it had to the same agent. Its
    /// ties to agents that the record does not name stay as they are. On an
    /// error nothing changes.
    pub fn link_friends(&self, agents: &mut Vec<BasicAgent>, index: &IdIndex) -> (r: Result<
        (),
        Error,
    >)
        requires
            indexes(index@, agent_ids(old(agents)@)),
            forall|j: int| 0 <= j < old(agents)@.len() ==> (#[trigger] old(agents)@[j]).wf(),
        ensures
            final(agents)@.len() == old(agents)@.len(),
            agent_ids(final(agents)@) == agent_ids(old(agents)@),
            forall|j: int| 0 <= j < final(agents)@.len() ==> (#[trigger] final(agents)@[j]).wf(),
            match self.link_error(index@) {
                Some(e) => r == Err::<(), Error>(e) && final(agents)@ == old(agents)@,
                None => {
                    let me = index@[self.uuid] as int;
                    &&& r == Ok::<(), Error>(())
                    &&& forall|j: int|
                        0 <= j < old(agents)@.len() && j != me ==> (#[trigger] final(agents)@[j])
                            == old(agents)@[j]
                    &&& final(agents)@[me].actions() == old(agents)@[me].actions()
                    &&& final(agents)@[me].activations() == old(agents)@[me].activations()
                    &&& final(agents)@[me].deltas() == old(agents)@[me].deltas()
                    &&& final(agents)@[me].friends()@ == old(
                        agents,
                    )@[me].friends()@.union_prefer_right(resolved(index@, self.friends@))
                },
            },
    {
        let me = match index.get(self.uuid) {
            Some(me) => me,
            None => {
                return Err(Error::UnresolvedReference { referrer: self.uuid, target: self.uuid });
            },
        };
        match resolve_entries(self.uuid, &self.friends, index, true) {
            Err(e) => Err(e),
            Ok(table) => {
                agents[me as usize].add_friends(&table);
                assert(agent_ids(agents@) =~= agent_ids(old(agents)@));
                Ok(())
            },
        }
    }
}

/// The record of a performance relationship.
#[derive(Debug, PartialEq, Eq)]
pub struct PerformanceRelationshipSpec {
    /// The identifier of the behaviour.
    pub behaviour_uuid: u128,
    /// The identifier of the belief.
    pub belief_uuid: u128,
    /// How much someone who holds the belief would like to perform the
    /// behaviour.
    pub value: i64,
}

/// The entries of a table of weights with each handle replaced by the
/// identifier of the entity it numbers.
pub open spec fn named(ids: Seq<u128>, entries: Seq<(u32, i64)>) -> Seq<(u128, i64)> {
    Seq::new(entries.len(), |i: int| (ids[entries[i].0 as int], entries[i].1))
}

/// The entries of a table of actions with each behaviour's handle replaced
/// by its identifier.
pub open spec fn named_actions(ids: Seq<u128>, entries: Seq<(u32, u32)>) -> Seq<(u32, u128)> {
    Seq::new(entries.len(), |i: int| (entries[i].0, ids[entries[i].1 as int]))
}

/// `out` lists the rows `entries`, each belief's handle replaced by its
/// identifier.
pub open spec fn rows_named(
    ids: Seq<u128>,
    entries: Seq<(u32, Table<i64>)>,
    out: Seq<(u32, Vec<(u128, i64)>)>,
) -> bool {
    &&& out.len() == entries.len()
    &&& forall|i: int|
        0 <= i < entries.len() ==> (#[trigger] out[i]).0 == entries[i].0 && out[i].1@ == named(
            ids,
            entries[i].1.entries(),
        )
}

/// `spec` is the record of `agent` in a model whose behaviours, beliefs and
/// agents are known by these identifiers.
pub open spec fn agent_recorded(
    agent: BasicAgent,
    spec: AgentSpec,
    behaviours: Seq<u128>,
    beliefs: Seq<u128>,
    agents: Seq<u128>,
) -> bool {
    &&& spec.uuid == agent.id()
    &&& spec.actions@ == named_actions(behaviours, agent.actions().entries())
    &&& rows_named(beliefs, agent.activations().entries(), spec.activations@)
    &&& spec.deltas@ == named(beliefs, agent.deltas().entries())
    &&& spec.friends@ == named(agents, agent.friends().entries())
}

/// Lists a table of weights by identifier.
pub fn name_entries(table: &Table<i64>, ids: &Vec<u128>) -> (out: Vec<(u128, i64)>)
    requires
        table.wf(),
        keys_below(table@, ids@.len()),
    ensures
        out@ == named(ids@, table.entries()),
{
    let mut out: Vec<(u128, i64)> = Vec::new();
    let n = table.len();
    let mut i: usize = 0;
    while i < n
        invariant
            i <= n,
            n == table.entries().len(),
            table.wf(),
            keys_below(table@, ids@.len()),
            out@.len() == i,
            forall|j: int| 0 <= j < i ==> #[trigger] out@[j] == named(ids@, table.entries())[j],
        decreases n - i,
    {
        let key = table.key_at(i);
        proof {
            lemma_find_distinct(table.entries(), i as int);
            assert(table@.dom().contains(key));
        }
        out.push((ids[key as usize], *table.value_at(i)));
        i = i + 1;
    }
    assert(out@ =~= named(ids@, table.entries()));
    out
}

/// Lists a table of actions by identifier.
pub fn name_actions(table: &Table<u32>, ids: &Vec<u128>) -> (out: Vec<(SimTime, u128)>)
    requires
        table.wf(),
        forall|t: u32| #[trigger] table@.dom().contains(t) ==> table@[t] < ids@.len(),
    ensures
        out@ == named_actions(ids@, table.entries()),
{
    let mut out: Vec<(SimTime, u128)> = Vec::new();
    let n = table.len();
    let mut i: usize = 0;
    while i < n
        invariant
            i <= n,
            n == table.entries().len(),
            table.wf(),
            forall|t: u32| #[trigger] table@.dom().contains(t) ==> table@[t] < ids@.len(),
            out@.len() == i,
            forall|j: int|
                0 <= j < i ==> #[trigger] out@[j] == named_actions(ids@, table.entries())[j],
        decreases n - i,
    {
        let time = table.key_at(i);
        let behaviour = *table.value_at(i);
        proof {
            lemma_find_distinct(table.entries(), i as int);
            assert(table@.dom().contains(time));
            assert(table@[time] == behaviour);
        }
        out.push((time, ids[behaviour as usize]));
        i = i + 1;
    }
    assert(out@ =~= named_actions(ids@, table.entries()));
    out
}

/// Lists the rows of a table of activations by identifier.
pub fn name_rows(table: &Table<Table<i64>>, ids: &Vec<u128>) -> (out: Vec<
    (SimTime, Vec<(u128, i64)>),
>)
    requires
        table.wf(),
        forall|t: u32| #[trigger] table@.dom().contains(t) ==> table@[t].wf(),
        forall|t: u32| #[trigger]
            row_maps(*table).dom().contains(t) ==> keys_below(row_maps(*table)[t], ids@.len()),
    ensures
        rows_named(ids@, table.entries(), out@),
{
    let mut out: Vec<(SimTime, Vec<(u128, i64)>)> = Vec::new();
    let n = table.len();
    let mut i: usize = 0;
    while i < n
        invariant
            i <= n,
            n == table.entries().len(),
            table.wf(),
            forall|t: u32| #[trigger] table@.dom().contains(t) ==> table@[t].wf(),
            forall|t: u32| #[trigger]
                row_maps(*table).dom().contains(t) ==> keys_below(row_maps(*table)[t], ids@.len()),
            out@.len() == i,
            forall|j: int|
                0 <= j < i ==> (#[trigger] out@[j]).0 == table.entries()[j].0 && out@[j].1@
                    == named(ids@, table.entries()[j].1.entries()),
        decreases n - i,
    {
        let time = table.key_at(i);
        let row = table.value_at(i);
        proof {
            lemma_find_distinct(table.entries(), i as int);
            assert(table@.dom().contains(time));
            assert(table@[time] == *row);
            assert(row_maps(*table).dom().contains(time));
        }
        let listed = name_entries(row, ids);
        out.push((time, listed));
        i = i + 1;
    }
    out
}

impl AgentSpec {
    /// The record of `agent`, every handle replaced by the identifier that
    /// the entity is known by.
    pub fn from_agent(
        agent: &BasicAgent,
        behaviours: &Vec<u128>,
        beliefs: &Vec<u128>,
        agents: &Vec<u128>,
    ) -> (spec: AgentSpec)
        requires
            agent.wf(),
            agent.linked(behaviours@.len(), beliefs@.len(), agents@.len()),
        ensures
            agent_recorded(*agent, spec, behaviours@, beliefs@, agents@),
    {
        let rows = agent.get_activations();
        proof {
            assert forall|t: u32| #[trigger] row_maps(*rows).dom().contains(t) implies keys_below(
                row_maps(*rows)[t],
                beliefs@.len(),
            ) by {
                assert(agent.rows().dom().contains(t));
            }
            assert forall|t: u32| #[trigger] rows@.dom().contains(t) implies rows@[t].wf() by {
                assert(agent.activations()@.dom().contains(t));
            }
        }
        AgentSpec {
            uuid: agent.uuid(),
            actions: name_actions(agent.get_actions(), behaviours),
            activations: name_rows(rows, beliefs),
            deltas: name_entries(agent.get_deltas(), beliefs),
            friends: name_entries(agent.get_friends(), agents),
        }
    }
}

/// A table written out by identifier and read back is the same table.
pub proof fn lemma_entries_round_trip(
    index: Map<u128, u32>,
    ids: Seq<u128>,
    owner: u128,
    entries: Seq<(u32, i64)>,
    bounded: bool,
)
    requires
        indexes(index, ids),
        forall|i: int| 0 <= i < entries.len() ==> (#[trigger] entries[i]).0 < ids.len(),
        bounded ==> forall|i: int| 0 <= i < entries.len() ==> in_unit((#[trigger] entries[i]).1 as int),
    ensures
        first_error(index, owner, named(ids, entries), bounded).is_none(),
        resolved(index, named(ids, entries)) == entries_map(entries),
    decreases entries.len(),
{
    let out = named(ids, entries);
    assert forall|i: int| 0 <= i < out.len() implies entry_error(
        index,
        owner,
        #[trigger] out[i],
        bounded,
    ).is_none() by {
        assert(entries[i].0 < ids.len());
        assert(index.dom().contains(ids[entries[i].0 as int]));
    }
    lemma_no_error_anywhere(index, owner, out, bounded);
    if entries.len() > 0 {
        let front = entries.drop_last();
        let last = entries.last();
        assert forall|i: int| 0 <= i < front.len() implies (#[trigger] front[i]).0 < ids.len() by {
            assert(front[i] == entries[i]);
        }
        if bounded {
            assert forall|i: int| 0 <= i < front.len() implies in_unit(
                (#[trigger] front[i]).1 as int,
            ) by {
                assert(front[i] == entries[i]);
            }
        }
        lemma_entries_round_trip(index, ids, owner, front, bounded);
        assert(out.drop_last() =~= named(ids, front));
        assert(index[ids[last.0 as int]] == last.0);
        assert(front.push(last) =~= entries);
        lemma_entries_map_push(front, last);
    } else {
        assert(entries_map(entries) =~= Map::<u32, i64>::empty());
    }
}

/// A table of actions written out by identifier and read back is the same
/// table.
pub proof fn lemma_actions_round_trip(
    index: Map<u128, u32>,
    ids: Seq<u128>,
    owner: u128,
    entries: Seq<(u32, u32)>,
)
    requires
        indexes(index, ids),
        forall|i: int| 0 <= i < entries.len() ==> (#[trigger] entries[i]).1 < ids.len(),
    ensures
        first_action_error(index, owner, named_actions(ids, entries)).is_none(),
        resolved_actions(index, named_actions(ids, entries)) == entries_map(entries),
    decreases entries.len(),
{
    let out = named_actions(ids, entries);
    assert forall|i: int| 0 <= i < out.len() implies index.dom().contains((#[trigger] out[i]).1) by {
        assert(entries[i].1 < ids.len());
        assert(index.dom().contains(ids[entries[i].1 as int]));
    }
    lemma_actions_known_no_error(index, owner, out);
    if entries.len() > 0 {
        let front = entries.drop_last();
        let last = entries.last();
        assert forall|i: int| 0 <= i < front.len() implies (#[trigger] front[i]).1 < ids.len() by {
            assert(front[i] == entries[i]);
        }
        lemma_actions_round_trip(index, ids, owner, front);
        assert(out.drop_last() =~= named_actions(ids, front));
        assert(index[ids[last.1 as int]] == last.1);
        assert(front.push(last) =~= entries);
        lemma_entries_map_push(front, last);
    } else {
        assert(entries_map(entries) =~= Map::<u32, u32>::empty());
    }
}

/// The rows of a list of entries, each as a mapping.
pub open spec fn entry_rows(entries: Seq<(u32, Table<i64>)>) -> Map<u32, Map<u32, i64>> {
    Map::new(
        |t: u32| entries_map(entries).dom().contains(t),
        |t: u32| entries_map(entries)[t]@,
    )
}

/// Rows of activations written out by identifier and read back are the same
/// rows.
pub proof fn lemma_rows_round_trip(
    index: Map<u128, u32>,
    ids: Seq<u128>,
    owner: u128,
    entries: Seq<(u32, Table<i64>)>,
    out: Seq<(u32, Vec<(u128, i64)>)>,
)
    requires
        indexes(index, ids),
        rows_named(ids, entries, out),
        forall|i: int|
            0 <= i < entries.len() ==> keys_below((#[trigger] entries[i]).1@, ids.len())
                && entries[i].1.wf() && all_in_unit(entries[i].1@),
    ensures
        first_row_error(index, owner, out).is_none(),
        resolved_rows(index, out) == entry_rows(entries),
    decreases entries.len(),
{
    assert forall|i: int| 0 <= i < out.len() implies first_error(
        index,
        owner,
        (#[trigger] out[i]).1@,
        true,
    ).is_none() by {
        lemma_row_bounds(ids, entries[i].1);
        lemma_entries_round_trip(index, ids, owner, entries[i].1.entries(), true);
    }
    lemma_rows_no_error_anywhere(index, owner, out);
    if entries.len() > 0 {
        let front = entries.drop_last();
        let last = entries.last();
        let out_front = out.drop_last();
        assert(rows_named(ids, front, out_front)) by {
            assert forall|i: int| 0 <= i < front.len() implies (#[trigger] out_front[i]).0
                == front[i].0 && out_front[i].1@ == named(ids, front[i].1.entries()) by {
                assert(out_front[i] == out[i]);
                assert(front[i] == entries[i]);
            }
        }
        assert forall|i: int| 0 <= i < front.len() implies keys_below(
            (#[trigger] front[i]).1@,
            ids.len(),
        ) && front[i].1.wf() && all_in_unit(front[i].1@) by {
            assert(front[i] == entries[i]);
        }
        lemma_rows_round_trip(index, ids, owner, front, out_front);
        lemma_row_bounds(ids, last.1);
        lemma_entries_round_trip(index, ids, owner, last.1.entries(), true);
        assert(front.push(last) =~= entries);
        lemma_entries_map_push(front, last);
        assert(out.last().0 == last.0);
        assert(resolved_rows(index, out) =~= entry_rows(entries));
    } else {
        assert(entry_rows(entries) =~= Map::<u32, Map<u32, i64>>::empty());
    }
}

/// What holds of every value and key of a table holds of every entry.
pub proof fn lemma_row_bounds(ids: Seq<u128>, row: Table<i64>)
    requires
        row.wf(),
    ensures
        keys_below(row@, ids.len()) ==> forall|i: int|
            0 <= i < row.entries().len() ==> (#[trigger] row.entries()[i]).0 < ids.len(),
        all_in_unit(row@) ==> forall|i: int|
            0 <= i < row.entries().len() ==> in_unit((#[trigger] row.entries()[i]).1 as int),
{
    let entries = row.entries();
    assert forall|i: int| 0 <= i < entries.len() implies row@.dom().contains(
        (#[trigger] entries[i]).0,
    ) && row@[entries[i].0] == entries[i].1 by {
        lemma_find_distinct(entries, i);
    }
}

/// Writing an agent out and reading the record back gives the same agent:
/// the record has no error, and what it describes is what the agent holds.
pub proof fn lemma_agent_round_trip(
    agent: BasicAgent,
    spec: AgentSpec,
    by_behaviour: Map<u128, u32>,
    behaviours: Seq<u128>,
    by_belief: Map<u128, u32>,
    beliefs: Seq<u128>,
    by_agent: Map<u128, u32>,
    agents: Seq<u128>,
)
    requires
        agent.wf(),
        agent.linked(behaviours.len(), beliefs.len(), agents.len()),
        indexes(by_behaviour, behaviours),
        indexes(by_belief, beliefs),
        indexes(by_agent, agents),
        by_agent.dom().contains(agent.id()),
        agent_recorded(agent, spec, behaviours, beliefs, agents),
    ensures
        spec.agent_error(by_behaviour, by_belief).is_none(),
        spec.link_error(by_agent).is_none(),
        spec.uuid == agent.id(),
        resolved_actions(by_behaviour, spec.actions@) == agent.actions()@,
        resolved_rows(by_belief, spec.activations@) == agent.rows(),
        resolved(by_belief, spec.deltas@) == agent.deltas()@,
        resolved(by_agent, spec.friends@) == agent.friends()@,
{
    let actions = agent.actions().entries();
    assert forall|i: int| 0 <= i < actions.len() implies (#[trigger] actions[i]).1
        < behaviours.len() by {
        lemma_find_distinct(actions, i);
        assert(agent.actions()@.dom().contains(actions[i].0));
    }
    lemma_actions_round_trip(by_behaviour, behaviours, spec.uuid, actions);
    lemma_row_bounds(beliefs, agent.deltas());
    lemma_entries_round_trip(by_belief, beliefs, spec.uuid, agent.deltas().entries(), false);
    lemma_row_bounds(agents, agent.friends());
    lemma_entries_round_trip(by_agent, agents, spec.uuid, agent.friends().entries(), true);
    let rows = agent.activations().entries();
    assert forall|i: int| 0 <= i < rows.len() implies keys_below(
        (#[trigger] rows[i]).1@,
        beliefs.len(),
    ) && rows[i].1.wf() && all_in_unit(rows[i].1@) by {
        lemma_find_distinct(rows, i);
        let t = rows[i].0;
        assert(agent.activations()@.dom().contains(t));
        assert(agent.activations()@[t] == rows[i].1);
        assert(agent.rows().dom().contains(t));
        assert(agent.rows()[t] == rows[i].1@);
    }
    lemma_rows_round_trip(by_belief, beliefs, spec.uuid, rows, spec.activations@);
    assert(entry_rows(rows) =~= agent.rows());
}

} // verus!
