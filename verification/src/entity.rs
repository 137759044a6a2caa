//! The entities of a model: behaviours, beliefs and agents.
//!
//! Entities live in arenas (plain vectors) and refer to one another by
//! handle, the position of the other entity in its arena. Weights are fixed
//! point numbers (see [`crate::fixed`]).

use crate::error::Error;
use crate::fixed::in_unit;
use crate::ident::{fresh_id, is_random_id};
use crate::table::Table;
use vstd::prelude::*;

verus! {

/// A tick of simulated time.
pub type SimTime = u32;

/// Every value of `m` lies in `[-1, 1]`.
pub open spec fn all_in_unit(m: Map<u32, i64>) -> bool {
    forall|k: u32| m.dom().contains(k) ==> in_unit(#[trigger] m[k] as int)
}

/// The value of `m` at `k`, if it has one.
pub open spec fn lookup<V>(m: Map<u32, V>, k: u32) -> Option<V> {
    if m.dom().contains(k) {
        Some(m[k])
    } else {
        None
    }
}

/// Something an agent can do.
pub struct BasicBehaviour {
    name: String,
    uuid: u128,
}

impl BasicBehaviour {
    /// The behaviour's identifier.
    pub closed spec fn id(&self) -> u128 {
        self.uuid
    }

    /// The behaviour's display name.
    pub closed spec fn label(&self) -> Seq<char> {
        self.name@
    }

    /// A behaviour called `name`, known by a fresh random identifier.
    pub fn new(name: String) -> (b: BasicBehaviour)
        ensures
            is_random_id(b.id()),
            b.label() == name@,
    {
        BasicBehaviour::new_with_uuid(name, fresh_id())
    }

    /// A behaviour called `name`, known by `uuid`.
    pub fn new_with_uuid(name: String, uuid: u128) -> (b: BasicBehaviour)
        ensures
            b.id() == uuid,
            b.label() == name@,
    {
        BasicBehaviour { name, uuid }
    }

    /// The behaviour's display name.
    pub fn name(&self) -> (s: &str)
        ensures
            s@ == self.label(),
    {
        self.name.as_str()
    }

    /// The behaviour's identifier.
    pub fn uuid(&self) -> (u: u128)
        ensures
            u == self.id(),
    {
        self.uuid
    }
}

/// Something an agent can hold to be true, more or less strongly.
pub struct BasicBelief {
    name: String,
    uuid: u128,
    perception: Table<i64>,
    relationship: Table<i64>,
}

impl BasicBelief {
    /// The belief's identifier.
    pub closed spec fn id(&self) -> u128 {
        self.uuid
    }

    /// The belief's display name.
    pub closed spec fn label(&self) -> Seq<char> {
        self.name@
    }

    /// By behaviour: how strongly seeing it performed speaks for this belief.
    pub closed spec fn perceptions(&self) -> Table<i64> {
        self.perception
    }

    /// By belief: how strongly holding that one bears on holding this one.
    pub closed spec fn relationships(&self) -> Table<i64> {
        self.relationship
    }

    /// Both tables are well formed and every weight lies in `[-1, 1]`.
    pub open spec fn wf(&self) -> bool {
        &&& self.perceptions().wf()
        &&& self.relationships().wf()
        &&& all_in_unit(self.perceptions()@)
        &&& all_in_unit(self.relationships()@)
    }

    /// A belief called `name`, known by a fresh random identifier, with both
    /// tables empty.
    pub fn new(name: String) -> (b: BasicBelief)
        ensures
            b.wf(),
            is_random_id(b.id()),
            b.label() == name@,
            b.perceptions()@ == Map::<u32, i64>::empty(),
            b.relationships()@ == Map::<u32, i64>::empty(),
    {
        BasicBelief::new_with_uuid(name, fresh_id())
    }

    /// A belief called `name`, known by `uuid`, with both tables empty.
    pub fn new_with_uuid(name: String, uuid: u128) -> (b: BasicBelief)
        ensures
            b.wf(),
            b.id() == uuid,
            b.label() == name@,
            b.perceptions()@ == Map::<u32, i64>::empty(),
            b.relationships()@ == Map::<u32, i64>::empty(),
    {
        BasicBelief { name, uuid, perception: Table::new(), relationship: Table::new() }
    }

    /// The belief's display name.
    pub fn name(&self) -> (s: &str)
        ensures
            s@ == self.label(),
    {
        self.name.as_str()
    }

    /// The belief's identifier.
    pub fn uuid(&self) -> (u: u128)
        ensures
            u == self.id(),
    {
        self.uuid
    }

    /// The table of perceptions.
    pub fn get_perceptions(&self) -> (t: &Table<i64>)
        ensures
            *t == self.perceptions(),
    {
        &self.perception
    }

    /// The table of relationships.
    pub fn get_relationships(&self) -> (t: &Table<i64>)
        ensures
            *t == self.relationships(),
    {
        &self.relationship
    }

    /// Puts `table` in place of the perceptions.
    pub fn replace_perceptions(&mut self, table: Table<i64>)
        requires
            old(self).wf(),
            table.wf(),
            all_in_unit(table@),
        ensures
            final(self).wf(),
            final(self).id() == old(self).id(),
            final(self).label() == old(self).label(),
            final(self).relationships() == old(self).relationships(),
            final(self).perceptions() == table,
    {
        self.perception = table;
    }

    /// Puts `table` in place of the relationships.
    pub fn replace_relationships(&mut self, table: Table<i64>)
        requires
            old(self).wf(),
            table.wf(),
            all_in_unit(table@),
        ensures
            final(self).wf(),
            final(self).id() == old(self).id(),
            final(self).label() == old(self).label(),
            final(self).perceptions() == old(self).perceptions(),
            final(self).relationships() == table,
    {
        self.relationship = table;
    }

    /// Gives the belief the relationships of `table`, each in place of any
    /// relationship it had to the same belief; its relationships to other
    /// beliefs stay.
    pub fn add_relationships(&mut self, table: &Table<i64>)
        requires
            old(self).wf(),
            table.wf(),
            all_in_unit(table@),
        ensures
            final(self).wf(),
            final(self).id() == old(self).id(),
            final(self).label() == old(self).label(),
            final(self).perceptions() == old(self).perceptions(),
            final(self).relationships()@ == old(self).relationships()@.union_prefer_right(table@),
    {
        self.relationship.merge(table);
    }

    /// The perception of `behaviour`, if one is set.
    pub fn get_perception(&self, behaviour: u32) -> (r: Option<i64>)
        requires
            self.wf(),
        ensures
            r == lookup(self.perceptions()@, behaviour),
            r matches Some(x) ==> in_unit(x as int),
    {
        match self.perception.get(behaviour) {
            Some(v) => Some(*v),
            None => None,
        }
    }

    /// Sets the perception of `behaviour`, or clears it when given `None`.
    /// A value outside `[-1, 1]` is refused and nothing changes.
    pub fn set_perception(&mut self, behaviour: u32, perception: Option<i64>) -> (r: Result<
        (),
        Error,
    >)
        requires
            old(self).wf(),
        ensures
            final(self).wf(),
            final(self).id() == old(self).id(),
            final(self).label() == old(self).label(),
            final(self).relationships() == old(self).relationships(),
            match perception {
                Some(x) => if in_unit(x as int) {
                    r == Ok::<(), Error>(()) && final(self).perceptions()@ == old(
                        self,
                    ).perceptions()@.insert(behaviour, x)
                } else {
                    r == Err::<(), Error>(Error::OutOfRange { owner: old(self).id(), found: x })
                        && final(self).perceptions() == old(self).perceptions()
                },
                None => r == Ok::<(), Error>(()) && final(self).perceptions()@ == old(
                    self,
                ).perceptions()@.remove(behaviour),
            },
    {
        match perception {
            Some(x) => {
                if x < -crate::fixed::ONE || x > crate::fixed::ONE {
                    Err(Error::OutOfRange { owner: self.uuid, found: x })
                } else {
                    self.perception.insert(behaviour, x);
                    Ok(())
                }
            },
            None => {
                self.perception.remove(behaviour);
                Ok(())
            },
        }
    }

    /// The relationship to `belief`, if one is set.
    pub fn get_relationship(&self, belief: u32) -> (r: Option<i64>)
        requires
            self.wf(),
        ensures
            r == lookup(self.relationships()@, belief),
            r matches Some(x) ==> in_unit(x as int),
    {
        match self.relationship.get(belief) {
            Some(v) => Some(*v),
            None => None,
        }
    }

    /// Sets the relationship to `belief`, or clears it when given `None`.
    /// A value outside `[-1, 1]` is refused and nothing changes.
    pub fn set_relationship(&mut self, belief: u32, relationship: Option<i64>) -> (r: Result<
        (),
        Error,
    >)
        requires
            old(self).wf(),
        ensures
            final(self).wf(),
            final(self).id() == old(self).id(),
            final(self).label() == old(self).label(),
            final(self).perceptions() == old(self).perceptions(),
            match relationship {
                Some(x) => if in_unit(x as int) {
                    r == Ok::<(), Error>(()) && final(self).relationships()@ == old(
                        self,
                    ).relationships()@.insert(belief, x)
                } else {
                    r == Err::<(), Error>(Error::OutOfRange { owner: old(self).id(), found: x })
                        && final(self).relationships() == old(self).relationships()
                },
                None => r == Ok::<(), Error>(()) && final(self).relationships()@ == old(
                    self,
                ).relationships()@.remove(belief),
            },
    {
        match relationship {
            Some(x) => {
                if x < -crate::fixed::ONE || x > crate::fixed::ONE {
                    Err(Error::OutOfRange { owner: self.uuid, found: x })
                } else {
                    self.relationship.insert(belief, x);
                    Ok(())
                }
            },
            None => {
                self.relationship.remove(belief);
                Ok(())
            },
        }
    }
}

/// The rows of a table of activations, each as a mapping.
pub open spec fn row_maps(t: Table<Table<i64>>) -> Map<u32, Map<u32, i64>> {
    Map::new(|time: u32| t@.dom().contains(time), |time: u32| t@[time]@)
}

/// The row of `rows` at `time`; the empty row if there is none.
pub open spec fn row_at(rows: Map<u32, Map<u32, i64>>, time: u32) -> Map<u32, i64> {
    if rows.dom().contains(time) {
        rows[time]
    } else {
        Map::empty()
    }
}

/// Someone who holds beliefs, has friends, and acts once per tick.
pub struct BasicAgent {
    uuid: u128,
    actions: Table<u32>,
    activations: Table<Table<i64>>,
    deltas: Table<i64>,
    friends: Table<i64>,
}

impl BasicAgent {
    /// The agent's identifier.
    pub closed spec fn id(&self) -> u128 {
        self.uuid
    }

    /// By tick: the behaviour performed.
    pub closed spec fn actions(&self) -> Table<u32> {
        self.actions
    }

    /// By tick and belief: how strongly the belief is held.
    pub closed spec fn activations(&self) -> Table<Table<i64>> {
        self.activations
    }

    /// By belief: the agent's smoothing coefficient.
    pub closed spec fn deltas(&self) -> Table<i64> {
        self.deltas
    }

    /// By agent: the signed weight of the tie.
    pub closed spec fn friends(&self) -> Table<i64> {
        self.friends
    }

    /// The activations as nested mappings.
    pub open spec fn rows(&self) -> Map<u32, Map<u32, i64>> {
        row_maps(self.activations())
    }

    /// The activation of `belief` at `time`, if it is set.
    pub open spec fn activation(&self, time: u32, belief: u32) -> Option<i64> {
        lookup(row_at(self.rows(), time), belief)
    }

    /// All tables are well formed, and every activation and every friend's
    /// weight lies in `[-1, 1]`.
    pub open spec fn wf(&self) -> bool {
        &&& self.actions().wf()
        &&& self.deltas().wf()
        &&& self.friends().wf()
        &&& self.activations().wf()
        &&& forall|time: u32| #[trigger]
            self.activations()@.dom().contains(time) ==> self.activations()@[time].wf()
        &&& forall|time: u32| #[trigger]
            self.rows().dom().contains(time) ==> all_in_unit(self.rows()[time])
        &&& all_in_unit(self.friends()@)
    }

    /// An agent known by a fresh random identifier, with every table empty.
    pub fn new() -> (a: BasicAgent)
        ensures
            a.wf(),
            is_random_id(a.id()),
            a.actions()@ == Map::<u32, u32>::empty(),
            a.rows() == Map::<u32, Map<u32, i64>>::empty(),
            a.deltas()@ == Map::<u32, i64>::empty(),
            a.friends()@ == Map::<u32, i64>::empty(),
    {
        BasicAgent::new_with_uuid(fresh_id())
    }

    /// An agent known by `uuid`, with every table empty.
    pub fn new_with_uuid(uuid: u128) -> (a: BasicAgent)
        ensures
            a.wf(),
            a.id() == uuid,
            a.actions()@ == Map::<u32, u32>::empty(),
            a.rows() == Map::<u32, Map<u32, i64>>::empty(),
            a.deltas()@ == Map::<u32, i64>::empty(),
            a.friends()@ == Map::<u32, i64>::empty(),
            a.friends().entries() == Seq::<(u32, i64)>::empty(),
    {
        let a = BasicAgent {
            uuid,
            actions: Table::new(),
            activations: Table::new(),
            deltas: Table::new(),
            friends: Table::new(),
        };
        assert(a.rows() =~= Map::<u32, Map<u32, i64>>::empty());
        a
    }

    /// The agent's identifier.
    pub fn uuid(&self) -> (u: u128)
        ensures
            u == self.id(),
    {
        self.uuid
    }

    /// The table of actions.
    pub fn get_actions(&self) -> (t: &Table<u32>)
        ensures
            *t == self.actions(),
    {
        &self.actions
    }

    /// The table of activations, one row per tick.
    pub fn get_activations(&self) -> (t: &Table<Table<i64>>)
        ensures
            *t == self.activations(),
    {
        &self.activations
    }

    /// The table of deltas.
    pub fn get_deltas(&self) -> (t: &Table<i64>)
        ensures
            *t == self.deltas(),
    {
        &self.deltas
    }

    /// The table of friends.
    pub fn get_friends(&self) -> (t: &Table<i64>)
        ensures
            *t == self.friends(),
    {
        &self.friends
    }

    /// Puts `table` in place of the actions.
    pub fn replace_actions(&mut self, table: Table<u32>)
        requires
            old(self).wf(),
            table.wf(),
        ensures
            final(self).wf(),
            final(self).id() == old(self).id(),
            final(self).activations() == old(self).activations(),
            final(self).deltas() == old(self).deltas(),
            final(self).friends() == old(self).friends(),
            final(self).actions() == table,
    {
        self.actions = table;
        assert(self.rows() == old(self).rows());
    }

    /// Puts `table` in place of the activations.
    pub fn replace_activations(&mut self, table: Table<Table<i64>>)
        requires
            old(self).wf(),
            table.wf(),
            forall|time: u32| #[trigger] table@.dom().contains(time) ==> table@[time].wf(),
            forall|time: u32| #[trigger]
                row_maps(table).dom().contains(time) ==> all_in_unit(row_maps(table)[time]),
        ensures
            final(self).wf(),
            final(self).id() == old(self).id(),
            final(self).actions() == old(self).actions(),
            final(self).deltas() == old(self).deltas(),
            final(self).friends() == old(self).friends(),
            final(self).activations() == table,
    {
        self.activations = table;
    }

    /// Puts `table` in place of the deltas.
    pub fn replace_deltas(&mut self, table: Table<i64>)
        requires
            old(self).wf(),
            table.wf(),
        ensures
            final(self).wf(),
            final(self).id() == old(self).id(),
            final(self).actions() == old(self).actions(),
            final(self).activations() == old(self).activations(),
            final(self).friends() == old(self).friends(),
            final(self).deltas() == table,
    {
        self.deltas = table;
        assert(self.rows() == old(self).rows());
    }

    /// Puts `table` in place of the friends.
    pub fn replace_friends(&mut self, table: Table<i64>)
        requires
            old(self).wf(),
            table.wf(),
            all_in_unit(table@),
        ensures
            final(self).wf(),
            final(self).id() == old(self).id(),
            final(self).actions() == old(self).actions(),
            final(self).activations() == old(self).activations(),
            final(self).deltas() == old(self).deltas(),
            final(self).friends() == table,
    {
        self.friends = table;
        assert(self.rows() == old(self).rows());
    }

    /// Gives the agent the friends of `table`, each in place of any tie it
    /// had to the same agent; its ties to other agents stay.
    pub fn add_friends(&mut self, table: &Table<i64>)
        requires
            old(self).wf(),
            table.wf(),
            all_in_unit(table@),
        ensures
            final(self).wf(),
            final(self).id() == old(self).id(),
            final(self).actions() == old(self).actions(),
            final(self).activations() == old(self).activations(),
            final(self).deltas() == old(self).deltas(),
            final(self).friends()@ == old(self).friends()@.union_prefer_right(table@),
    {
        self.friends.merge(table);
        assert(self.rows() == old(self).rows());
    }

    /// The activation of `belief` at `time`, if it is set.
    pub fn get_activation(&self, time: SimTime, belief: u32) -> (r: Option<i64>)
        requires
            self.wf(),
        ensures
            r == self.activation(time, belief),
            r matches Some(x) ==> in_unit(x as int),
    {
        match self.activations.get(time) {
            Some(row) => {
                assert(self.rows().dom().contains(time));
                match row.get(belief) {
                    Some(v) => Some(*v),
                    None => None,
                }
            },
            None => None,
        }
    }

    /// Sets the activation of `belief` at `time`, or clears it when given
    /// `None`. A value outside `[-1, 1]` is refused and nothing changes.
    pub fn set_activation(&mut self, time: SimTime, belief: u32, activation: Option<i64>) -> (r:
        Result<(), Error>)
        requires
            old(self).wf(),
        ensures
            final(self).wf(),
            final(self).id() == old(self).id(),
            final(self).actions() == old(self).actions(),
            final(self).deltas() == old(self).deltas(),
            final(self).friends() == old(self).friends(),
            match activation {
                Some(x) => if in_unit(x as int) {
                    r == Ok::<(), Error>(()) && final(self).rows() == old(self).rows().insert(
                        time,
                        row_at(old(self).rows(), time).insert(belief, x),
                    )
                } else {
                    r == Err::<(), Error>(Error::OutOfRange { owner: old(self).id(), found: x })
                        && final(self).activations() == old(self).activations()
                },
                None => r == Ok::<(), Error>(()) && final(self).rows() == (if old(
                    self,
                ).rows().dom().contains(time) {
                    old(self).rows().insert(time, old(self).rows()[time].remove(belief))
                } else {
                    old(self).rows()
                }),
            },
    {
        let ghost before = self.rows();
        match activation {
            Some(x) => {
                if x < -crate::fixed::ONE || x > crate::fixed::ONE {
                    return Err(Error::OutOfRange { owner: self.uuid, found: x });
                }
                assert(before.dom().contains(time) ==> all_in_unit(before[time]));
                let mut row = match self.activations.remove(time) {
                    Some(row) => row,
                    None => Table::new(),
                };
                assert(row@ == row_at(before, time));
                row.insert(belief, x);
                self.activations.insert(time, row);
                proof {
                    let target = before.insert(time, row_at(before, time).insert(belief, x));
                    assert(self.rows() =~= target);
                    assert forall|t: u32| #[trigger]
                        self.rows().dom().contains(t) implies all_in_unit(self.rows()[t]) by {
                        if t != time {
                            assert(before.dom().contains(t));
                        }
                    }
                }
                Ok(())
            },
            None => {
                assert(before.dom().contains(time) ==> all_in_unit(before[time]));
                match self.activations.remove(time) {
                    Some(row) => {
                        let mut row = row;
                        row.remove(belief);
                        self.activations.insert(time, row);
                        proof {
                            let target = before.insert(time, before[time].remove(belief));
                            assert(self.rows() =~= target);
                            assert forall|t: u32| #[trigger]
                                self.rows().dom().contains(t) implies all_in_unit(
                                self.rows()[t],
                            ) by {
                                if t != time {
                                    assert(before.dom().contains(t));
                                }
                            }
                        }
                    },
                    None => {
                        assert(self.rows() =~= before);
                    },
                }
                Ok(())
            },
        }
    }

    /// The behaviour performed at `time`, if one is recorded.
    pub fn get_action(&self, time: SimTime) -> (r: Option<u32>)
        requires
            self.wf(),
        ensures
            r == lookup(self.actions()@, time),
    {
        match self.actions.get(time) {
            Some(b) => Some(*b),
            None => None,
        }
    }

    /// Records the behaviour performed at `time`, or clears the record when
    /// given `None`.
    pub fn set_action(&mut self, time: SimTime, behaviour: Option<u32>)
        requires
            old(self).wf(),
        ensures
            final(self).wf(),
            final(self).id() == old(self).id(),
            final(self).activations() == old(self).activations(),
            final(self).deltas() == old(self).deltas(),
            final(self).friends() == old(self).friends(),
            final(self).actions()@ == (match behaviour {
                Some(b) => old(self).actions()@.insert(time, b),
                None => old(self).actions()@.remove(time),
            }),
    {
        match behaviour {
            Some(b) => {
                self.actions.insert(time, b);
                assert(self.rows() == old(self).rows());
            },
            None => {
                self.actions.remove(time);
                assert(self.rows() == old(self).rows());
            },
        }
    }

    /// The delta of `belief`, if one is set.
    pub fn get_delta(&self, belief: u32) -> (r: Option<i64>)
        requires
            self.wf(),
        ensures
            r == lookup(self.deltas()@, belief),
    {
        match self.deltas.get(belief) {
            Some(v) => Some(*v),
            None => None,
        }
    }

    /// Sets the delta of `belief`, or clears it when given `None`.
    pub fn set_delta(&mut self, belief: u32, delta: Option<i64>)
        requires
            old(self).wf(),
        ensures
            final(self).wf(),
            final(self).id() == old(self).id(),
            final(self).activations() == old(self).activations(),
            final(self).actions() == old(self).actions(),
            final(self).friends() == old(self).friends(),
            final(self).deltas()@ == (match delta {
                Some(d) => old(self).deltas()@.insert(belief, d),
                None => old(self).deltas()@.remove(belief),
            }),
    {
        match delta {
            Some(d) => {
                self.deltas.insert(belief, d);
                assert(self.rows() == old(self).rows());
            },
            None => {
                self.deltas.remove(belief);
                assert(self.rows() == old(self).rows());
            },
        }
    }

    /// The weight of the tie to `friend`, if there is one.
    pub fn get_friend_weight(&self, friend: u32) -> (r: Option<i64>)
        requires
            self.wf(),
        ensures
            r == lookup(self.friends()@, friend),
            r matches Some(x) ==> in_unit(x as int),
    {
        match self.friends.get(friend) {
            Some(v) => Some(*v),
            None => None,
        }
    }

    /// Sets the weight of the tie to `friend`, or cuts the tie when given
    /// `None`. A value outside `[-1, 1]` is refused and nothing changes.
    pub fn set_friend_weight(&mut self, friend: u32, weight: Option<i64>) -> (r: Result<
        (),
        Error,
    >)
        requires
            old(self).wf(),
        ensures
            final(self).wf(),
            final(self).id() == old(self).id(),
            final(self).activations() == old(self).activations(),
            final(self).actions() == old(self).actions(),
            final(self).deltas() == old(self).deltas(),
            match weight {
                Some(x) => if in_unit(x as int) {
                    r == Ok::<(), Error>(()) && final(self).friends()@ == old(
                        self,
                    ).friends()@.insert(friend, x)
                } else {
                    r == Err::<(), Error>(Error::OutOfRange { owner: old(self).id(), found: x })
                        && final(self).friends() == old(self).friends()
                },
                None => r == Ok::<(), Error>(()) && final(self).friends()@ == old(
                    self,
                ).friends()@.remove(friend),
            },
    {
        match weight {
            Some(x) => {
                if x < -crate::fixed::ONE || x > crate::fixed::ONE {
                    Err(Error::OutOfRange { owner: self.uuid, found: x })
                } else {
                    self.friends.insert(friend, x);
                    assert(self.rows() == old(self).rows());
                    Ok(())
                }
            },
            None => {
                self.friends.remove(friend);
                assert(self.rows() == old(self).rows());
                Ok(())
            },
        }
    }
}

/// The identifiers of the behaviours of an arena, by handle.
pub open spec fn behaviour_ids(s: Seq<BasicBehaviour>) -> Seq<u128> {
    Seq::new(s.len(), |i: int| s[i].id())
}

/// The identifiers of the beliefs of an arena, by handle.
pub open spec fn belief_ids(s: Seq<BasicBelief>) -> Seq<u128> {
    Seq::new(s.len(), |i: int| s[i].id())
}

/// The identifiers of the agents of an arena, by handle.
pub open spec fn agent_ids(s: Seq<BasicAgent>) -> Seq<u128> {
    Seq::new(s.len(), |i: int| s[i].id())
}

/// Every key of `m` is a handle below `bound`.
pub open spec fn keys_below<V>(m: Map<u32, V>, bound: nat) -> bool {
    forall|k: u32| #[trigger] m.dom().contains(k) ==> k < bound
}

impl BasicBelief {
    /// Every handle in the belief's tables is one of an arena of
    /// `behaviours` behaviours or `beliefs` beliefs.
    pub open spec fn linked(&self, behaviours: nat, beliefs: nat) -> bool {
        &&& keys_below(self.perceptions()@, behaviours)
        &&& keys_below(self.relationships()@, beliefs)
    }
}

impl BasicAgent {
    /// Every handle in the agent's tables is one of an arena of that many
    /// behaviours, beliefs or agents.
    pub open spec fn linked(&self, behaviours: nat, beliefs: nat, agents: nat) -> bool {
        &&& forall|t: u32| #[trigger]
            self.actions()@.dom().contains(t) ==> self.actions()@[t] < behaviours
        &&& forall|t: u32| #[trigger]
            self.rows().dom().contains(t) ==> keys_below(self.rows()[t], beliefs)
        &&& keys_below(self.deltas()@, beliefs)
        &&& keys_below(self.friends()@, agents)
    }
}

/// The identifiers of the behaviours of an arena, by handle.
pub fn ids_of_behaviours(arena: &Vec<BasicBehaviour>) -> (ids: Vec<u128>)
    ensures
        ids@ == behaviour_ids(arena@),
{
    let mut ids: Vec<u128> = Vec::new();
    let n = arena.len();
    let mut i: usize = 0;
    while i < n
        invariant
            i <= n,
            n == arena@.len(),
            ids@.len() == i,
            forall|j: int| 0 <= j < i ==> #[trigger] ids@[j] == arena@[j].id(),
        decreases n - i,
    {
        ids.push(arena[i].uuid());
        i = i + 1;
    }
    assert(ids@ =~= behaviour_ids(arena@));
    ids
}

/// The identifiers of the beliefs of an arena, by handle.
pub fn ids_of_beliefs(arena: &Vec<BasicBelief>) -> (ids: Vec<u128>)
    ensures
        ids@ == belief_ids(arena@),
{
    let mut ids: Vec<u128> = Vec::new();
    let n = arena.len();
    let mut i: usize = 0;
    while i < n
        invariant
            i <= n,
            n == arena@.len(),
            ids@.len() == i,
            forall|j: int| 0 <= j < i ==> #[trigger] ids@[j] == arena@[j].id(),
        decreases n - i,
    {
        ids.push(arena[i].uuid());
        i = i + 1;
    }
    assert(ids@ =~= belief_ids(arena@));
    ids
}

/// The identifiers of the agents of an arena, by handle.
pub fn ids_of_agents(arena: &Vec<BasicAgent>) -> (ids: Vec<u128>)
    ensures
        ids@ == agent_ids(arena@),
{
    let mut ids: Vec<u128> = Vec::new();
    let n = arena.len();
    let mut i: usize = 0;
    while i < n
        invariant
            i <= n,
            n == arena@.len(),
            ids@.len() == i,
            forall|j: int| 0 <= j < i ==> #[trigger] ids@[j] == arena@[j].id(),
        decreases n - i,
    {
        ids.push(arena[i].uuid());
        i = i + 1;
    }
    assert(ids@ =~= agent_ids(arena@));
    ids
}

impl PartialEq for BasicBehaviour {
    /// Two behaviours are the same if they are known by the same identifier.
    fn eq(&self, other: &BasicBehaviour) -> (same: bool) {
        self.uuid == other.uuid
    }
}

impl vstd::std_specs::cmp::PartialEqSpecImpl for BasicBehaviour {
    open spec fn obeys_eq_spec() -> bool {
        true
    }

    open spec fn eq_spec(&self, other: &BasicBehaviour) -> bool {
        self.id() == other.id()
    }
}

impl PartialEq for BasicBelief {
    /// Two beliefs are the same if they are known by the same identifier.
    fn eq(&self, other: &BasicBelief) -> (same: bool) {
        self.uuid == other.uuid
    }
}

impl vstd::std_specs::cmp::PartialEqSpecImpl for BasicBelief {
    open spec fn obeys_eq_spec() -> bool {
        true
    }

    open spec fn eq_spec(&self, other: &BasicBelief) -> bool {
        self.id() == other.id()
    }
}

impl PartialEq for BasicAgent {
    /// Two agents are the same if they are known by the same identifier.
    fn eq(&self, other: &BasicAgent) -> (same: bool) {
        self.uuid == other.uuid
    }
}

impl vstd::std_specs::cmp::PartialEqSpecImpl for BasicAgent {
    open spec fn obeys_eq_spec() -> bool {
        true
    }

    open spec fn eq_spec(&self, other: &BasicAgent) -> bool {
        self.id() == other.id()
    }
}

} // verus!
