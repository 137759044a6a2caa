//! Putting a model together from its records.
//!
//! Entities are made in the order behaviours, beliefs, agents. Beliefs may
//! name one another and so may agents, so each kind is first made without
//! those references and linked once all of the kind exist.

use crate::entity::{
    agent_ids, behaviour_ids, belief_ids, BasicAgent, BasicBehaviour, BasicBelief, SimTime,
};
use crate::error::Error;
use crate::index::{
    distinct, index_error, indexes, lemma_first_duplicate, lemma_indexed_distinct,
    lemma_the_index, the_index, IdIndex,
};
use crate::json::{
    agent_recorded, first_error, lemma_agent_round_trip, lemma_resolved_actions_linked, lemma_resolved_linked, lemma_resolved_rows_linked,
    resolved, resolved_actions, resolved_rows, AgentSpec, BehaviourSpec, BeliefSpec,
    PerformanceRelationshipSpec,
};
use crate::performance_relationships::{
    first_record_error, resolved_weights, vec_prs_to_performance_relationships,
};
use crate::runner::{agents_recorded, Configuration};
use vstd::prelude::*;

verus! {

/// What `f` finds wrong with the first element of `s` with which it finds
/// something wrong.
pub open spec fn first_some<T>(s: Seq<T>, f: spec_fn(T) -> Option<Error>) -> Option<Error>
    decreases s.len(),
{
    if s.len() == 0 {
        None
    } else {
        match f(s.first()) {
            Some(e) => Some(e),
            None => first_some(s.drop_first(), f),
        }
    }
}

/// An error among the first elements is the error of the whole list.
pub proof fn lemma_first_some_skip<T>(s: Seq<T>, f: spec_fn(T) -> Option<Error>, i: int)
    requires
        0 <= i < s.len(),
        forall|j: int| 0 <= j < i ==> (#[trigger] f(s[j])).is_none(),
    ensures
        first_some(s, f) == (match f(s[i]) {
            Some(e) => Some(e),
            None => first_some(s.skip(i + 1), f),
        }),
    decreases i,
{
    if i == 0 {
        assert(s.drop_first() =~= s.skip(1));
    } else {
        let rest = s.drop_first();
        assert(f(s[0]).is_none());
        assert forall|j: int| 0 <= j < i - 1 implies (#[trigger] f(rest[j])).is_none() by {
            assert(rest[j] == s[j + 1]);
        }
        lemma_first_some_skip(rest, f, i - 1);
        assert(rest.skip(i) =~= s.skip(i + 1));
    }
}

/// A list with nothing wrong anywhere has no error.
pub proof fn lemma_first_some_none<T>(s: Seq<T>, f: spec_fn(T) -> Option<Error>)
    requires
        forall|j: int| 0 <= j < s.len() ==> (#[trigger] f(s[j])).is_none(),
    ensures
        first_some(s, f).is_none(),
{
    if s.len() > 0 {
        lemma_first_some_skip(s, f, s.len() - 1);
        assert(s.skip(s.len() as int).len() == 0);
    }
}

/// A list without error has nothing wrong anywhere.
pub proof fn lemma_first_some_everywhere<T>(s: Seq<T>, f: spec_fn(T) -> Option<Error>)
    requires
        first_some(s, f).is_none(),
    ensures
        forall|j: int| 0 <= j < s.len() ==> (#[trigger] f(s[j])).is_none(),
    decreases s.len(),
{
    if s.len() > 0 {
        let rest = s.drop_first();
        lemma_first_some_everywhere(rest, f);
        assert forall|j: int| 0 <= j < s.len() implies (#[trigger] f(s[j])).is_none() by {
            if j > 0 {
                assert(rest[j - 1] == s[j]);
            }
        }
    }
}

/// The identifiers of the records of behaviours.
pub open spec fn behaviour_uuids(specs: Seq<BehaviourSpec>) -> Seq<u128> {
    Seq::new(specs.len(), |i: int| specs[i].uuid)
}

/// The identifiers of the records of beliefs.
pub open spec fn belief_uuids(specs: Seq<BeliefSpec>) -> Seq<u128> {
    Seq::new(specs.len(), |i: int| specs[i].uuid)
}

/// The identifiers of the records of agents.
pub open spec fn agent_uuids(specs: Seq<AgentSpec>) -> Seq<u128> {
    Seq::new(specs.len(), |i: int| specs[i].uuid)
}

/// The identifiers may number an arena: none occurs twice, and there are no
/// more of them than handles.
pub open spec fn numberable(ids: Seq<u128>) -> bool {
    distinct(ids) && ids.len() <= u32::MAX
}

/// What is wrong with the perceptions of a record of a belief.
pub open spec fn belief_check(behaviours: Map<u128, u32>) -> spec_fn(BeliefSpec) -> Option<Error> {
    |s: BeliefSpec| first_error(behaviours, s.uuid, s.perceptions@, true)
}

/// What keeps the relationships of a record of a belief from being linked.
pub open spec fn belief_link_check(beliefs: Map<u128, u32>) -> spec_fn(BeliefSpec) -> Option<Error> {
    |s: BeliefSpec| s.link_error(beliefs)
}

/// What keeps a record of an agent from becoming an agent.
pub open spec fn agent_check(behaviours: Map<u128, u32>, beliefs: Map<u128, u32>) -> spec_fn(
    AgentSpec,
) -> Option<Error> {
    |s: AgentSpec| s.agent_error(behaviours, beliefs)
}

/// What keeps the friends of a record of an agent from being linked.
pub open spec fn agent_link_check(agents: Map<u128, u32>) -> spec_fn(AgentSpec) -> Option<Error> {
    |s: AgentSpec| s.link_error(agents)
}

/// What keeps the records of behaviours from becoming an arena, if anything.
pub open spec fn behaviours_error(specs: Seq<BehaviourSpec>) -> Option<Error> {
    index_error(behaviour_uuids(specs))
}

/// What keeps the records of beliefs from becoming an arena, if anything:
/// their identifiers, else the first wrong perception, else the first wrong
/// relationship.
pub open spec fn beliefs_error(specs: Seq<BeliefSpec>, behaviours: Map<u128, u32>) -> Option<Error> {
    let ids = belief_uuids(specs);
    match index_error(ids) {
        Some(e) => Some(e),
        None => match first_some(specs, belief_check(behaviours)) {
            Some(e) => Some(e),
            None => first_some(specs, belief_link_check(the_index(ids))),
        },
    }
}

/// What keeps the records of agents from becoming an arena, if anything:
/// their identifiers, else the first wrong action, activation or delta, else
/// the first wrong friend.
pub open spec fn agents_error(
    specs: Seq<AgentSpec>,
    behaviours: Map<u128, u32>,
    beliefs: Map<u128, u32>,
) -> Option<Error> {
    let ids = agent_uuids(specs);
    match index_error(ids) {
        Some(e) => Some(e),
        None => match first_some(specs, agent_check(behaviours, beliefs)) {
            Some(e) => Some(e),
            None => first_some(specs, agent_link_check(the_index(ids))),
        },
    }
}

/// `b` is the belief that `spec` describes.
pub open spec fn belief_built(
    spec: BeliefSpec,
    b: BasicBelief,
    behaviours: Map<u128, u32>,
    beliefs: Map<u128, u32>,
) -> bool {
    &&& b.wf()
    &&& b.id() == spec.uuid
    &&& b.label() == spec.name@
    &&& b.perceptions()@ == resolved(behaviours, spec.perceptions@)
    &&& b.relationships()@ == resolved(beliefs, spec.relationships@)
}

/// `a` is the agent that `spec` describes.
pub open spec fn agent_built(
    spec: AgentSpec,
    a: BasicAgent,
    behaviours: Map<u128, u32>,
    beliefs: Map<u128, u32>,
    agents: Map<u128, u32>,
) -> bool {
    &&& a.wf()
    &&& a.id() == spec.uuid
    &&& a.actions()@ == resolved_actions(behaviours, spec.actions@)
    &&& a.rows() == resolved_rows(beliefs, spec.activations@)
    &&& a.deltas()@ == resolved(beliefs, spec.deltas@)
    &&& a.friends()@ == resolved(agents, spec.friends@)
}

/// Makes the arena of behaviours and its index: one behaviour per record, in
/// the order of the records.
pub fn build_behaviours(specs: &Vec<BehaviourSpec>) -> (r: Result<
    (Vec<BasicBehaviour>, IdIndex),
    Error,
>)
    ensures
        match behaviours_error(specs@) {
            Some(e) => r matches Err(x) && x == e,
            None => {
                &&& r matches Ok((arena, index))
                &&& arena@.len() == specs@.len()
                &&& behaviour_ids(arena@) == behaviour_uuids(specs@)
                &&& index@ == the_index(behaviour_uuids(specs@))
                &&& indexes(index@, behaviour_ids(arena@))
                &&& forall|i: int|
                    0 <= i < specs@.len() ==> (#[trigger] arena@[i]).label() == specs@[i].name@
            },
        },
{
    let mut arena: Vec<BasicBehaviour> = Vec::new();
    let mut ids: Vec<u128> = Vec::new();
    let n = specs.len();
    let mut i: usize = 0;
    while i < n
        invariant
            i <= n,
            n == specs@.len(),
            arena@.len() == i,
            ids@.len() == i,
            forall|j: int| 0 <= j < i ==> #[trigger] ids@[j] == specs@[j].uuid,
            forall|j: int|
                0 <= j < i ==> (#[trigger] arena@[j]).id() == specs@[j].uuid && arena@[j].label()
                    == specs@[j].name@,
        decreases n - i,
    {
        arena.push(specs[i].to_basic_behaviour());
        ids.push(specs[i].uuid);
        i = i + 1;
    }
    assert(ids@ =~= behaviour_uuids(specs@));
    assert(behaviour_ids(arena@) =~= behaviour_uuids(specs@));
    match IdIndex::build(&ids) {
        Ok(index) => Ok((arena, index)),
        Err(e) => Err(e),
    }
}

/// Makes the arena of beliefs and its index: one belief per record, in the
/// order of the records, each with its perceptions and relationships.
pub fn build_beliefs(specs: &Vec<BeliefSpec>, behaviours: &IdIndex) -> (r: Result<
    (Vec<BasicBelief>, IdIndex),
    Error,
>)
    ensures
        match beliefs_error(specs@, behaviours@) {
            Some(e) => r matches Err(x) && x == e,
            None => {
                &&& r matches Ok((arena, index))
                &&& arena@.len() == specs@.len()
                &&& belief_ids(arena@) == belief_uuids(specs@)
                &&& index@ == the_index(belief_uuids(specs@))
                &&& indexes(index@, belief_ids(arena@))
                &&& forall|i: int|
                    0 <= i < specs@.len() ==> belief_built(
                        specs@[i],
                        #[trigger] arena@[i],
                        behaviours@,
                        index@,
                    )
            },
        },
{
    let ghost made = belief_check(behaviours@);
    let n = specs.len();
    let mut ids: Vec<u128> = Vec::new();
    let mut i: usize = 0;
    while i < n
        invariant
            i <= n,
            n == specs@.len(),
            ids@.len() == i,
            forall|j: int| 0 <= j < i ==> #[trigger] ids@[j] == specs@[j].uuid,
        decreases n - i,
    {
        ids.push(specs[i].uuid);
        i = i + 1;
    }
    assert(ids@ =~= belief_uuids(specs@));
    let index = match IdIndex::build(&ids) {
        Ok(index) => index,
        Err(e) => {
            return Err(e);
        },
    };
    let ghost linked = belief_link_check(index@);
    let mut arena: Vec<BasicBelief> = Vec::new();
    i = 0;
    while i < n
        invariant
            i <= n,
            n == specs@.len(),
            arena@.len() == i,
            made == belief_check(behaviours@),
            index_error(belief_uuids(specs@)).is_none(),
            forall|j: int| 0 <= j < i ==> (#[trigger] made(specs@[j])).is_none(),
            forall|j: int|
                0 <= j < i ==> {
                    &&& (#[trigger] arena@[j]).wf()
                    &&& arena@[j].id() == specs@[j].uuid
                    &&& arena@[j].label() == specs@[j].name@
                    &&& arena@[j].perceptions()@ == resolved(behaviours@, specs@[j].perceptions@)
                    &&& arena@[j].relationships()@ == Map::<u32, i64>::empty()
                },
        decreases n - i,
    {
        proof {
            lemma_first_some_skip(specs@, made, i as int);
        }
        match specs[i].to_basic_belief(behaviours) {
            Ok(b) => {
                arena.push(b);
            },
            Err(e) => {
                return Err(e);
            },
        }
        i = i + 1;
    }
    proof {
        lemma_first_some_none(specs@, made);
        assert(belief_ids(arena@) =~= belief_uuids(specs@));
    }
    i = 0;
    while i < n
        invariant
            i <= n,
            n == specs@.len(),
            arena@.len() == n,
            belief_ids(arena@) == belief_uuids(specs@),
            indexes(index@, belief_uuids(specs@)),
            linked == belief_link_check(index@),
            index_error(belief_uuids(specs@)).is_none(),
            index@ == the_index(belief_uuids(specs@)),
            first_some(specs@, belief_check(behaviours@)).is_none(),
            forall|j: int| 0 <= j < i ==> (#[trigger] linked(specs@[j])).is_none(),
            forall|j: int|
                0 <= j < n ==> {
                    &&& (#[trigger] arena@[j]).wf()
                    &&& arena@[j].id() == specs@[j].uuid
                    &&& arena@[j].label() == specs@[j].name@
                    &&& arena@[j].perceptions()@ == resolved(behaviours@, specs@[j].perceptions@)
                },
            forall|j: int|
                0 <= j < i ==> (#[trigger] arena@[j]).relationships()@ == resolved(
                    index@,
                    specs@[j].relationships@,
                ),
            forall|j: int|
                i <= j < n ==> (#[trigger] arena@[j]).relationships()@ == Map::<u32, i64>::empty(),
        decreases n - i,
    {
        let ghost before = arena@;
        proof {
            lemma_first_some_skip(specs@, linked, i as int);
            assert(belief_uuids(specs@)[i as int] == specs@[i as int].uuid);
            assert(index@[specs@[i as int].uuid] == i);
        }
        match specs[i].link_belief_relationships(&mut arena, &index) {
            Ok(()) => {},
            Err(e) => {
                return Err(e);
            },
        }
        proof {
            assert forall|j: int| 0 <= j < n implies {
                &&& (#[trigger] arena@[j]).wf()
                &&& arena@[j].id() == specs@[j].uuid
                &&& arena@[j].label() == specs@[j].name@
                &&& arena@[j].perceptions()@ == resolved(behaviours@, specs@[j].perceptions@)
            } by {
                assert(belief_ids(arena@)[j] == belief_uuids(specs@)[j]);
                if j != i {
                    assert(arena@[j] == before[j]);
                }
            }
            assert forall|j: int| 0 <= j < i + 1 implies (#[trigger] arena@[j]).relationships()@
                == resolved(index@, specs@[j].relationships@) by {
                if j != i {
                    assert(arena@[j] == before[j]);
                } else {
                    assert(before[j].relationships()@ == Map::<u32, i64>::empty());
                    assert(arena@[j].relationships()@ =~= resolved(
                        index@,
                        specs@[j].relationships@,
                    ));
                }
            }
            assert forall|j: int| i + 1 <= j < n implies (#[trigger] arena@[j]).relationships()@
                == Map::<u32, i64>::empty() by {
                assert(arena@[j] == before[j]);
            }
        }
        i = i + 1;
    }
    proof {
        lemma_first_some_none(specs@, linked);
    }
    Ok((arena, index))
}

/// Makes the arena of agents and its index: one agent per record, in the
/// order of the records, each with its tables and friends.
pub fn build_agents(specs: &Vec<AgentSpec>, behaviours: &IdIndex, beliefs: &IdIndex) -> (r: Result<
    (Vec<BasicAgent>, IdIndex),
    Error,
>)
    ensures
        match agents_error(specs@, behaviours@, beliefs@) {
            Some(e) => r matches Err(x) && x == e,
            None => {
                &&& r matches Ok((arena, index))
                &&& arena@.len() == specs@.len()
                &&& agent_ids(arena@) == agent_uuids(specs@)
                &&& index@ == the_index(agent_uuids(specs@))
                &&& indexes(index@, agent_ids(arena@))
                &&& forall|i: int|
                    0 <= i < specs@.len() ==> agent_built(
                        specs@[i],
                        #[trigger] arena@[i],
                        behaviours@,
                        beliefs@,
                        index@,
                    )
            },
        },
{
    let ghost made = agent_check(behaviours@, beliefs@);
    let n = specs.len();
    let mut ids: Vec<u128> = Vec::new();
    let mut i: usize = 0;
    while i < n
        invariant
            i <= n,
            n == specs@.len(),
            ids@.len() == i,
            forall|j: int| 0 <= j < i ==> #[trigger] ids@[j] == specs@[j].uuid,
        decreases n - i,
    {
        ids.push(specs[i].uuid);
        i = i + 1;
    }
    assert(ids@ =~= agent_uuids(specs@));
    let index = match IdIndex::build(&ids) {
        Ok(index) => index,
        Err(e) => {
            return Err(e);
        },
    };
    let ghost linked = agent_link_check(index@);
    let mut arena: Vec<BasicAgent> = Vec::new();
    i = 0;
    while i < n
        invariant
            i <= n,
            n == specs@.len(),
            arena@.len() == i,
            made == agent_check(behaviours@, beliefs@),
            index_error(agent_uuids(specs@)).is_none(),
            forall|j: int| 0 <= j < i ==> (#[trigger] made(specs@[j])).is_none(),
            forall|j: int|
                0 <= j < i ==> {
                    &&& (#[trigger] arena@[j]).wf()
                    &&& arena@[j].id() == specs@[j].uuid
                    &&& arena@[j].actions()@ == resolved_actions(behaviours@, specs@[j].actions@)
                    &&& arena@[j].rows() == resolved_rows(beliefs@, specs@[j].activations@)
                    &&& arena@[j].deltas()@ == resolved(beliefs@, specs@[j].deltas@)
                    &&& arena@[j].friends()@ == Map::<u32, i64>::empty()
                },
        decreases n - i,
    {
        proof {
            lemma_first_some_skip(specs@, made, i as int);
        }
        match specs[i].to_basic_agent(behaviours, beliefs) {
            Ok(a) => {
                arena.push(a);
            },
            Err(e) => {
                return Err(e);
            },
        }
        i = i + 1;
    }
    proof {
        lemma_first_some_none(specs@, made);
        assert(agent_ids(arena@) =~= agent_uuids(specs@));
    }
    i = 0;
    while i < n
        invariant
            i <= n,
            n == specs@.len(),
            arena@.len() == n,
            agent_ids(arena@) == agent_uuids(specs@),
            indexes(index@, agent_uuids(specs@)),
            linked == agent_link_check(index@),
            index_error(agent_uuids(specs@)).is_none(),
            index@ == the_index(agent_uuids(specs@)),
            first_some(specs@, agent_check(behaviours@, beliefs@)).is_none(),
            forall|j: int| 0 <= j < i ==> (#[trigger] linked(specs@[j])).is_none(),
            forall|j: int|
                0 <= j < n ==> {
                    &&& (#[trigger] arena@[j]).wf()
                    &&& arena@[j].id() == specs@[j].uuid
                    &&& arena@[j].actions()@ == resolved_actions(behaviours@, specs@[j].actions@)
                    &&& arena@[j].rows() == resolved_rows(beliefs@, specs@[j].activations@)
                    &&& arena@[j].deltas()@ == resolved(beliefs@, specs@[j].deltas@)
                },
            forall|j: int|
                0 <= j < i ==> (#[trigger] arena@[j]).friends()@ == resolved(
                    index@,
                    specs@[j].friends@,
                ),
            forall|j: int|
                i <= j < n ==> (#[trigger] arena@[j]).friends()@ == Map::<u32, i64>::empty(),
        decreases n - i,
    {
        let ghost before = arena@;
        proof {
            lemma_first_some_skip(specs@, linked, i as int);
            assert(agent_uuids(specs@)[i as int] == specs@[i as int].uuid);
            assert(index@[specs@[i as int].uuid] == i);
        }
        match specs[i].link_friends(&mut arena, &index) {
            Ok(()) => {},
            Err(e) => {
                return Err(e);
            },
        }
        proof {
            assert forall|j: int| 0 <= j < n implies {
                &&& (#[trigger] arena@[j]).wf()
                &&& arena@[j].id() == specs@[j].uuid
                &&& arena@[j].actions()@ == resolved_actions(behaviours@, specs@[j].actions@)
                &&& arena@[j].rows() == resolved_rows(beliefs@, specs@[j].activations@)
                &&& arena@[j].deltas()@ == resolved(beliefs@, specs@[j].deltas@)
            } by {
                assert(agent_ids(arena@)[j] == agent_uuids(specs@)[j]);
                if j != i {
                    assert(arena@[j] == before[j]);
                }
            }
            assert forall|j: int| 0 <= j < i + 1 implies (#[trigger] arena@[j]).friends()@
                == resolved(index@, specs@[j].friends@) by {
                if j != i {
                    assert(arena@[j] == before[j]);
                } else {
                    assert(before[j].friends()@ == Map::<u32, i64>::empty());
                    assert(arena@[j].friends()@ =~= resolved(index@, specs@[j].friends@));
                }
            }
            assert forall|j: int| i + 1 <= j < n implies (#[trigger] arena@[j]).friends()@
                == Map::<u32, i64>::empty() by {
                assert(arena@[j] == before[j]);
            }
        }
        i = i + 1;
    }
    proof {
        lemma_first_some_none(specs@, linked);
    }
    Ok((arena, index))
}

/// What keeps the records from becoming a model, if anything: the first
/// thing wrong with the behaviours, else with the beliefs, else with the
/// agents, else with the performance relationships.
pub open spec fn load_error(
    behaviours: Seq<BehaviourSpec>,
    beliefs: Seq<BeliefSpec>,
    agents: Seq<AgentSpec>,
    prss: Seq<PerformanceRelationshipSpec>,
) -> Option<Error> {
    let by_behaviour = the_index(behaviour_uuids(behaviours));
    let by_belief = the_index(belief_uuids(beliefs));
    match behaviours_error(behaviours) {
        Some(e) => Some(e),
        None => match beliefs_error(beliefs, by_behaviour) {
            Some(e) => Some(e),
            None => match agents_error(agents, by_behaviour, by_belief) {
                Some(e) => Some(e),
                None => first_record_error(by_belief, by_behaviour, prss),
            },
        },
    }
}

/// `c` is the model that the records describe: entity for record, in the
/// order of the records, every identifier resolved to the handle of the
/// entity that it names.
pub open spec fn describes(
    behaviours: Seq<BehaviourSpec>,
    beliefs: Seq<BeliefSpec>,
    agents: Seq<AgentSpec>,
    prss: Seq<PerformanceRelationshipSpec>,
    c: Configuration,
) -> bool {
    let by_behaviour = the_index(behaviour_uuids(behaviours));
    let by_belief = the_index(belief_uuids(beliefs));
    let by_agent = the_index(agent_uuids(agents));
    &&& c.behaviours@.len() == behaviours.len()
    &&& c.beliefs@.len() == beliefs.len()
    &&& c.agents@.len() == agents.len()
    &&& forall|i: int|
        0 <= i < behaviours.len() ==> (#[trigger] c.behaviours@[i]).id() == behaviours[i].uuid
            && c.behaviours@[i].label() == behaviours[i].name@
    &&& forall|i: int|
        0 <= i < beliefs.len() ==> belief_built(
            beliefs[i],
            #[trigger] c.beliefs@[i],
            by_behaviour,
            by_belief,
        )
    &&& forall|i: int|
        0 <= i < agents.len() ==> agent_built(
            agents[i],
            #[trigger] c.agents@[i],
            by_behaviour,
            by_belief,
            by_agent,
        )
    &&& c.prs.weights() == resolved_weights(by_belief, by_behaviour, prss)
}

/// Within each kind no two entities of `c` share an identifier.
pub open spec fn identified(c: Configuration) -> bool {
    &&& numberable(behaviour_ids(c.behaviours@))
    &&& numberable(belief_ids(c.beliefs@))
    &&& numberable(agent_ids(c.agents@))
}

/// Puts a model together from its records, to be run from `start_time` to
/// `end_time`.
pub fn load(
    behaviours: &Vec<BehaviourSpec>,
    beliefs: &Vec<BeliefSpec>,
    agents: &Vec<AgentSpec>,
    prss: &Vec<PerformanceRelationshipSpec>,
    start_time: SimTime,
    end_time: SimTime,
) -> (r: Result<Configuration, Error>)
    ensures
        match load_error(behaviours@, beliefs@, agents@, prss@) {
            Some(e) => r matches Err(x) && x == e,
            None => {
                &&& r matches Ok(c)
                &&& c.wf()
                &&& c.linked()
                &&& identified(c)
                &&& c.start_time == start_time
                &&& c.end_time == end_time
                &&& describes(behaviours@, beliefs@, agents@, prss@, c)
            },
        },
{
    let (behaviour_arena, by_behaviour) = match build_behaviours(behaviours) {
        Ok(pair) => pair,
        Err(e) => {
            return Err(e);
        },
    };
    let (belief_arena, by_belief) = match build_beliefs(beliefs, &by_behaviour) {
        Ok(pair) => pair,
        Err(e) => {
            return Err(e);
        },
    };
    let (agent_arena, by_agent) = match build_agents(agents, &by_behaviour, &by_belief) {
        Ok(pair) => pair,
        Err(e) => {
            return Err(e);
        },
    };
    let prs = match vec_prs_to_performance_relationships(prss, &by_belief, &by_behaviour) {
        Ok(prs) => prs,
        Err(e) => {
            return Err(e);
        },
    };
    proof {
        lemma_indexed_distinct(by_behaviour@, behaviour_ids(behaviour_arena@));
        lemma_indexed_distinct(by_belief@, belief_ids(belief_arena@));
        lemma_indexed_distinct(by_agent@, agent_ids(agent_arena@));
        let bi = by_behaviour@;
        let li = by_belief@;
        let ai = by_agent@;
        let b_ids = behaviour_uuids(behaviours@);
        let l_ids = belief_uuids(beliefs@);
        let a_ids = agent_uuids(agents@);
        lemma_first_some_everywhere(beliefs@, belief_check(bi));
        lemma_first_some_everywhere(beliefs@, belief_link_check(li));
        lemma_first_some_everywhere(agents@, agent_check(bi, li));
        lemma_first_some_everywhere(agents@, agent_link_check(ai));
        assert forall|i: int| 0 <= i < belief_arena@.len() implies (#[trigger] belief_arena@[i]).linked(
            behaviour_arena@.len(),
            belief_arena@.len(),
        ) by {
            let s = beliefs@[i];
            assert(belief_built(s, belief_arena@[i], bi, li));
            assert(belief_check(bi)(s).is_none());
            assert(belief_link_check(li)(s).is_none());
            lemma_resolved_linked(bi, b_ids, s.uuid, s.perceptions@, true);
            lemma_resolved_linked(li, l_ids, s.uuid, s.relationships@, true);
        }
        assert forall|i: int| 0 <= i < agent_arena@.len() implies (#[trigger] agent_arena@[i]).linked(
            behaviour_arena@.len(),
            belief_arena@.len(),
            agent_arena@.len(),
        ) by {
            let s = agents@[i];
            assert(agent_built(s, agent_arena@[i], bi, li, ai));
            assert(agent_check(bi, li)(s).is_none());
            assert(agent_link_check(ai)(s).is_none());
            lemma_resolved_actions_linked(bi, b_ids, s.uuid, s.actions@);
            lemma_resolved_rows_linked(li, l_ids, s.uuid, s.activations@);
            lemma_resolved_linked(li, l_ids, s.uuid, s.deltas@, false);
            lemma_resolved_linked(ai, a_ids, s.uuid, s.friends@, true);
        }
        assert forall|i: int| 0 <= i < behaviours@.len() implies (#[trigger] behaviour_arena@[i]).id()
            == behaviours@[i].uuid by {
            assert(behaviour_ids(behaviour_arena@)[i] == b_ids[i]);
        }
    }
    Ok(
        Configuration {
            behaviours: behaviour_arena,
            beliefs: belief_arena,
            agents: agent_arena,
            prs,
            start_time,
            end_time,
        },
    )
}

/// Writing the agents of a model out and reading the records back gives the
/// same agents: the records have no error, and the agent that each of them
/// describes holds, table by table, what the agent it was written from
/// holds.
pub proof fn lemma_model_round_trip(c: Configuration, records: Seq<AgentSpec>)
    requires
        c.wf(),
        c.linked(),
        identified(c),
        agents_recorded(
            c.agents@,
            records,
            behaviour_ids(c.behaviours@),
            belief_ids(c.beliefs@),
        ),
    ensures
        agents_error(
            records,
            the_index(behaviour_ids(c.behaviours@)),
            the_index(belief_ids(c.beliefs@)),
        ).is_none(),
        forall|i: int|
            0 <= i < records.len() ==> agent_built(
                #[trigger] records[i],
                c.agents@[i],
                the_index(behaviour_ids(c.behaviours@)),
                the_index(belief_ids(c.beliefs@)),
                the_index(agent_uuids(records)),
            ),
{
    let b_ids = behaviour_ids(c.behaviours@);
    let l_ids = belief_ids(c.beliefs@);
    let a_ids = agent_ids(c.agents@);
    let bi = the_index(b_ids);
    let li = the_index(l_ids);
    let ai = the_index(a_ids);
    lemma_the_index(b_ids);
    lemma_the_index(l_ids);
    lemma_the_index(a_ids);
    lemma_first_duplicate(a_ids);
    assert(index_error(a_ids).is_none());
    assert(agent_uuids(records) =~= a_ids) by {
        assert forall|i: int| 0 <= i < records.len() implies agent_uuids(records)[i] == a_ids[i] by {
            assert(agent_recorded(c.agents@[i], records[i], b_ids, l_ids, a_ids));
        }
    }
    assert forall|i: int| 0 <= i < records.len() implies agent_check(bi, li)(
        #[trigger] records[i],
    ).is_none() && agent_link_check(ai)(records[i]).is_none() && agent_built(
        records[i],
        c.agents@[i],
        bi,
        li,
        ai,
    ) by {
        let a = c.agents@[i];
        assert(a.wf());
        assert(a.linked(c.behaviours@.len(), c.beliefs@.len(), c.agents@.len()));
        assert(agent_recorded(a, records[i], b_ids, l_ids, a_ids));
        assert(a_ids[i] == a.id());
        assert(ai.dom().contains(a_ids[i]));
        lemma_agent_round_trip(a, records[i], bi, b_ids, li, l_ids, ai, a_ids);
    }
    lemma_first_some_none(records, agent_check(bi, li));
    lemma_first_some_none(records, agent_link_check(ai));
}

} // verus!
