use belief_sim::error::Error;
use belief_sim::fixed::ONE;
use belief_sim::index::IdIndex;
use belief_sim::json::{
    name_actions, name_entries, name_rows, resolve_actions, resolve_entries, resolve_rows,
    AgentSpec, BehaviourSpec, BeliefSpec, PerformanceRelationshipSpec,
};
use belief_sim::loader::{build_agents, build_behaviours, build_beliefs, load};
use belief_sim::runner::Runner;

fn behaviour(name: &str, uuid: u128) -> BehaviourSpec {
    BehaviourSpec { name: name.to_string(), uuid }
}

fn belief(uuid: u128) -> BeliefSpec {
    BeliefSpec {
        name: "Q".to_string(),
        uuid,
        perceptions: Vec::new(),
        relationships: Vec::new(),
    }
}

fn agent(uuid: u128) -> AgentSpec {
    AgentSpec {
        uuid,
        actions: Vec::new(),
        activations: Vec::new(),
        deltas: Vec::new(),
        friends: Vec::new(),
    }
}

fn error_of<T>(r: Result<T, Error>) -> Error {
    match r {
        Ok(_) => panic!("no error"),
        Err(e) => e,
    }
}

#[test]
fn index_numbers_identifiers_by_position() {
    let index = IdIndex::build(&vec![30, 10, 20]).unwrap();
    assert_eq!(index.get(30), Some(0));
    assert_eq!(index.get(10), Some(1));
    assert_eq!(index.get(20), Some(2));
    assert_eq!(index.get(40), None);
    let empty = IdIndex::build(&Vec::new()).unwrap();
    assert_eq!(empty.get(0), None);
}

#[test]
fn index_refuses_a_repeated_identifier() {
    assert_eq!(
        error_of(IdIndex::build(&vec![1, 2, 1])),
        Error::DuplicateKey { key: 1 }
    );
    // the first identifier that has occurred before is named
    assert_eq!(
        error_of(IdIndex::build(&vec![1, 2, 3, 3, 2, 1])),
        Error::DuplicateKey { key: 3 }
    );
    assert_eq!(
        error_of(IdIndex::build(&vec![7, 7, 7])),
        Error::DuplicateKey { key: 7 }
    );
}

#[test]
fn entries_resolve_with_the_last_entry_winning() {
    let index = IdIndex::build(&vec![30, 10, 20]).unwrap();
    let t = resolve_entries(7, &vec![(10, 5), (20, 6), (10, 8)], &index, true).unwrap();
    assert_eq!(t.len(), 2);
    assert_eq!(t.get(1), Some(&8));
    assert_eq!(t.get(2), Some(&6));
    assert_eq!(t.get(0), None);
}

#[test]
fn entries_report_the_first_error() {
    let index = IdIndex::build(&vec![30, 10, 20]).unwrap();
    assert_eq!(
        error_of(resolve_entries(7, &vec![(10, 5), (99, 2 * ONE), (10, 3 * ONE)], &index, true)),
        Error::UnresolvedReference { referrer: 7, target: 99 }
    );
    assert_eq!(
        error_of(resolve_entries(7, &vec![(10, 3 * ONE), (99, 0)], &index, true)),
        Error::OutOfRange { owner: 7, found: 3 * ONE }
    );
    assert_eq!(
        error_of(resolve_entries(7, &vec![(10, -ONE - 1)], &index, true)),
        Error::OutOfRange { owner: 7, found: -ONE - 1 }
    );
    // an unbounded table takes any value
    let t = resolve_entries(7, &vec![(10, 3 * ONE)], &index, false).unwrap();
    assert_eq!(t.get(1), Some(&(3 * ONE)));
    assert_eq!(
        error_of(resolve_entries(7, &vec![(10, 3 * ONE), (98, 0)], &index, false)),
        Error::UnresolvedReference { referrer: 7, target: 98 }
    );
}

#[test]
fn actions_and_rows_resolve() {
    let behaviours = IdIndex::build(&vec![30, 10]).unwrap();
    let actions = resolve_actions(7, &vec![(0, 10), (1, 30), (0, 30)], &behaviours).unwrap();
    assert_eq!(actions.get(0), Some(&0));
    assert_eq!(actions.get(1), Some(&0));
    assert_eq!(
        error_of(resolve_actions(7, &vec![(0, 10), (1, 31)], &behaviours)),
        Error::UnresolvedReference { referrer: 7, target: 31 }
    );
    let rows =
        resolve_rows(7, &vec![(0, vec![(30, 1), (10, 2)]), (4, vec![]), (0, vec![(10, 3)])], &behaviours)
            .unwrap();
    assert_eq!(rows.len(), 2);
    assert_eq!(rows.get(0).unwrap().get(1), Some(&3));
    assert_eq!(rows.get(0).unwrap().get(0), None);
    assert_eq!(rows.get(4).unwrap().len(), 0);
    assert_eq!(
        error_of(resolve_rows(7, &vec![(0, vec![(30, 1)]), (1, vec![(30, ONE + 1)])], &behaviours)),
        Error::OutOfRange { owner: 7, found: ONE + 1 }
    );
    assert_eq!(
        error_of(resolve_rows(7, &vec![(0, vec![(33, 1)]), (1, vec![(30, ONE + 1)])], &behaviours)),
        Error::UnresolvedReference { referrer: 7, target: 33 }
    );
}

#[test]
fn tables_are_listed_by_identifier() {
    let ids = vec![30u128, 10, 20];
    let index = IdIndex::build(&ids).unwrap();
    let t = resolve_entries(7, &vec![(10, 5), (20, 6)], &index, true).unwrap();
    assert_eq!(name_entries(&t, &ids), vec![(10, 5), (20, 6)]);
    let a = resolve_actions(7, &vec![(3, 20), (4, 30)], &index).unwrap();
    assert_eq!(name_actions(&a, &ids), vec![(3, 20), (4, 30)]);
    let r = resolve_rows(7, &vec![(3, vec![(20, 1)]), (4, vec![])], &index).unwrap();
    assert_eq!(name_rows(&r, &ids), vec![(3, vec![(20, 1)]), (4, vec![])]);
}

#[test]
fn behaviours_are_built_in_order() {
    let (arena, index) = build_behaviours(&vec![behaviour("x", 5), behaviour("y", 3)]).unwrap();
    assert_eq!(arena.len(), 2);
    assert_eq!(arena[0].name(), "x");
    assert_eq!(arena[0].uuid(), 5);
    assert_eq!(arena[1].name(), "y");
    assert_eq!(index.get(3), Some(1));
    assert_eq!(
        error_of(build_behaviours(&vec![behaviour("x", 5), behaviour("y", 5)])),
        Error::DuplicateKey { key: 5 }
    );
}

#[test]
fn beliefs_may_name_later_beliefs() {
    let (_, behaviours) = build_behaviours(&vec![behaviour("x", 5)]).unwrap();
    let mut q = belief(10);
    q.perceptions = vec![(5, ONE)];
    q.relationships = vec![(11, ONE / 2), (10, -ONE)];
    let r = belief(11);
    let (arena, index) = build_beliefs(&vec![q, r], &behaviours).unwrap();
    assert_eq!(arena.len(), 2);
    assert_eq!(arena[0].uuid(), 10);
    assert_eq!(arena[0].name(), "Q");
    assert_eq!(arena[0].get_perception(0), Some(ONE));
    assert_eq!(arena[0].get_relationship(1), Some(ONE / 2));
    assert_eq!(arena[0].get_relationship(0), Some(-ONE));
    assert_eq!(arena[1].get_relationships().len(), 0);
    assert_eq!(index.get(11), Some(1));
}

#[test]
fn beliefs_report_errors_in_order() {
    let (_, behaviours) = build_behaviours(&vec![behaviour("x", 5)]).unwrap();
    assert_eq!(
        error_of(build_beliefs(&vec![belief(10), belief(10)], &behaviours)),
        Error::DuplicateKey { key: 10 }
    );
    let mut q = belief(10);
    q.relationships = vec![(12, ONE)];
    let mut r = belief(11);
    r.perceptions = vec![(6, ONE)];
    // perceptions of every belief are made before any relationship is linked
    assert_eq!(
        error_of(build_beliefs(&vec![q, r], &behaviours)),
        Error::UnresolvedReference { referrer: 11, target: 6 }
    );
    let mut q = belief(10);
    q.relationships = vec![(12, ONE)];
    assert_eq!(
        error_of(build_beliefs(&vec![q, belief(11)], &behaviours)),
        Error::UnresolvedReference { referrer: 10, target: 12 }
    );
    let mut q = belief(10);
    q.relationships = vec![(11, ONE + 1)];
    assert_eq!(
        error_of(build_beliefs(&vec![q, belief(11)], &behaviours)),
        Error::OutOfRange { owner: 10, found: ONE + 1 }
    );
    let mut q = belief(10);
    q.perceptions = vec![(5, -2 * ONE)];
    assert_eq!(
        error_of(build_beliefs(&vec![q], &behaviours)),
        Error::OutOfRange { owner: 10, found: -2 * ONE }
    );
}

#[test]
fn agents_are_built_and_linked() {
    let (_, behaviours) = build_behaviours(&vec![behaviour("x", 5)]).unwrap();
    let (_, beliefs) = build_beliefs(&vec![belief(10)], &behaviours).unwrap();
    let mut a = agent(20);
    a.actions = vec![(0, 5)];
    a.activations = vec![(0, vec![(10, ONE / 2)])];
    a.deltas = vec![(10, 7 * ONE)];
    a.friends = vec![(21, -ONE), (20, ONE)];
    let b = agent(21);
    let (arena, index) = build_agents(&vec![a, b], &behaviours, &beliefs).unwrap();
    assert_eq!(arena[0].uuid(), 20);
    assert_eq!(arena[0].get_action(0), Some(0));
    assert_eq!(arena[0].get_activation(0, 0), Some(ONE / 2));
    assert_eq!(arena[0].get_delta(0), Some(7 * ONE));
    assert_eq!(arena[0].get_friend_weight(1), Some(-ONE));
    assert_eq!(arena[0].get_friend_weight(0), Some(ONE));
    assert_eq!(arena[1].get_friends().len(), 0);
    assert_eq!(index.get(21), Some(1));
}

#[test]
fn agents_report_errors_in_order() {
    let (_, behaviours) = build_behaviours(&vec![behaviour("x", 5)]).unwrap();
    let (_, beliefs) = build_beliefs(&vec![belief(10)], &behaviours).unwrap();
    assert_eq!(
        error_of(build_agents(&vec![agent(20), agent(20)], &behaviours, &beliefs)),
        Error::DuplicateKey { key: 20 }
    );
    let mut a = agent(20);
    a.actions = vec![(0, 6)];
    a.activations = vec![(0, vec![(11, 0)])];
    assert_eq!(
        error_of(build_agents(&vec![a], &behaviours, &beliefs)),
        Error::UnresolvedReference { referrer: 20, target: 6 }
    );
    let mut a = agent(20);
    a.activations = vec![(0, vec![(11, 0)])];
    a.deltas = vec![(12, 0)];
    assert_eq!(
        error_of(build_agents(&vec![a], &behaviours, &beliefs)),
        Error::UnresolvedReference { referrer: 20, target: 11 }
    );
    let mut a = agent(20);
    a.activations = vec![(0, vec![(10, ONE + 1)])];
    assert_eq!(
        error_of(build_agents(&vec![a], &behaviours, &beliefs)),
        Error::OutOfRange { owner: 20, found: ONE + 1 }
    );
    let mut a = agent(20);
    a.deltas = vec![(12, 0)];
    assert_eq!(
        error_of(build_agents(&vec![a], &behaviours, &beliefs)),
        Error::UnresolvedReference { referrer: 20, target: 12 }
    );
    let mut a = agent(20);
    a.friends = vec![(22, 0)];
    assert_eq!(
        error_of(build_agents(&vec![a, agent(21)], &behaviours, &beliefs)),
        Error::UnresolvedReference { referrer: 20, target: 22 }
    );
    let mut a = agent(20);
    a.friends = vec![(21, ONE + 1)];
    assert_eq!(
        error_of(build_agents(&vec![a, agent(21)], &behaviours, &beliefs)),
        Error::OutOfRange { owner: 20, found: ONE + 1 }
    );
}

#[test]
fn scenario_unresolved_reference() {
    let behaviours = vec![behaviour("B", 5)];
    let beliefs = vec![belief(10)];
    let prs = vec![PerformanceRelationshipSpec { behaviour_uuid: 6, belief_uuid: 10, value: ONE }];
    assert_eq!(
        error_of(load(&behaviours, &beliefs, &vec![agent(20)], &prs, 1, 1)),
        Error::UnresolvedReference { referrer: 10, target: 6 }
    );
}

#[test]
fn load_reports_the_first_kind_that_fails() {
    let behaviours = vec![behaviour("B", 5), behaviour("C", 5)];
    let mut q = belief(10);
    q.perceptions = vec![(99, 0)];
    assert_eq!(
        error_of(load(&behaviours, &vec![q], &Vec::new(), &Vec::new(), 1, 1)),
        Error::DuplicateKey { key: 5 }
    );
    let behaviours = vec![behaviour("B", 5)];
    let mut q = belief(10);
    q.perceptions = vec![(99, 0)];
    let mut a = agent(20);
    a.actions = vec![(0, 98)];
    assert_eq!(
        error_of(load(&behaviours, &vec![q], &vec![a], &Vec::new(), 1, 1)),
        Error::UnresolvedReference { referrer: 10, target: 99 }
    );
    let mut a = agent(20);
    a.actions = vec![(0, 98)];
    let prs = vec![PerformanceRelationshipSpec { behaviour_uuid: 6, belief_uuid: 10, value: ONE }];
    assert_eq!(
        error_of(load(&behaviours, &vec![belief(10)], &vec![a], &prs, 1, 1)),
        Error::UnresolvedReference { referrer: 20, target: 98 }
    );
}

#[test]
fn load_keeps_the_interval() {
    let c = load(&Vec::new(), &Vec::new(), &Vec::new(), &Vec::new(), 4, 9).unwrap();
    assert_eq!(c.start_time, 4);
    assert_eq!(c.end_time, 9);
    assert_eq!(c.agents.len(), 0);
    assert_eq!(c.prs.len(), 0);
    let mut r = Runner { config: c };
    assert_eq!(r.run().len(), 0);
}

fn sorted<T: Ord + Clone>(v: &Vec<T>) -> Vec<T> {
    let mut w = v.clone();
    w.sort();
    w
}

#[test]
fn agents_survive_a_round_trip() {
    let behaviours = vec![behaviour("x", 5), behaviour("y", 6)];
    let beliefs = vec![belief(10), belief(11)];
    let mut a = agent(20);
    a.actions = vec![(0, 5), (3, 6)];
    a.activations = vec![(0, vec![(10, ONE / 2), (11, -ONE)]), (2, vec![(11, 1)])];
    a.deltas = vec![(11, 7 * ONE), (10, -1)];
    a.friends = vec![(21, -ONE), (22, ONE)];
    let mut b = agent(21);
    b.friends = vec![(20, ONE / 3)];
    let c = agent(22);
    let written = vec![a, b, c];
    let first = load(&behaviours, &beliefs, &written, &Vec::new(), 1, 1).unwrap();
    let records = Runner { config: first }.serialize_agents();
    assert_eq!(records.len(), 3);
    for (w, r) in written.iter().zip(records.iter()) {
        assert_eq!(w.uuid, r.uuid);
        assert_eq!(sorted(&w.actions), sorted(&r.actions));
        assert_eq!(sorted(&w.deltas), sorted(&r.deltas));
        assert_eq!(sorted(&w.friends), sorted(&r.friends));
        let rows_w: Vec<(u32, Vec<(u128, i64)>)> =
            sorted(&w.activations).iter().map(|(t, row)| (*t, sorted(row))).collect();
        let rows_r: Vec<(u32, Vec<(u128, i64)>)> =
            sorted(&r.activations).iter().map(|(t, row)| (*t, sorted(row))).collect();
        assert_eq!(rows_w, rows_r);
    }
    let second = load(&behaviours, &beliefs, &records, &Vec::new(), 1, 1).unwrap();
    let again = Runner { config: second }.serialize_agents();
    assert_eq!(records, again);
}

#[test]
fn records_come_out_in_the_order_of_the_arenas() {
    let behaviours = vec![behaviour("x", 5), behaviour("y", 6)];
    let beliefs = vec![belief(11), belief(10)];
    let mut a = agent(20);
    a.actions = vec![(3, 6), (0, 5)];
    a.activations = vec![(2, vec![(10, 1)]), (0, vec![(10, 2), (11, 3)])];
    a.deltas = vec![(10, -1), (11, 7)];
    a.friends = vec![(22, ONE), (21, -ONE)];
    let config =
        load(&behaviours, &beliefs, &vec![a, agent(21), agent(22)], &Vec::new(), 1, 1).unwrap();
    let records = Runner { config }.serialize_agents();
    assert_eq!(records[0].actions, vec![(0, 5), (3, 6)]);
    assert_eq!(
        records[0].activations,
        vec![(0, vec![(11, 3), (10, 2)]), (2, vec![(10, 1)])]
    );
    assert_eq!(records[0].deltas, vec![(11, 7), (10, -1)]);
    assert_eq!(records[0].friends, vec![(21, -ONE), (22, ONE)]);
}

#[test]
fn linking_relationships_keeps_those_not_named() {
    let (_, behaviours) = build_behaviours(&vec![behaviour("x", 5)]).unwrap();
    let mut q = belief(10);
    q.perceptions = vec![(5, ONE / 2)];
    q.relationships = vec![(11, ONE / 2), (12, -ONE)];
    let (mut arena, index) =
        build_beliefs(&vec![q, belief(11), belief(12)], &behaviours).unwrap();
    let mut more = belief(10);
    more.relationships = vec![(12, ONE / 4), (10, ONE)];
    assert_eq!(more.link_belief_relationships(&mut arena, &index), Ok(()));
    // named before and not now: kept
    assert_eq!(arena[0].get_relationship(1), Some(ONE / 2));
    // named before and now: replaced
    assert_eq!(arena[0].get_relationship(2), Some(ONE / 4));
    // named now only: added
    assert_eq!(arena[0].get_relationship(0), Some(ONE));
    assert_eq!(arena[0].get_relationships().len(), 3);
    assert_eq!(arena[0].get_perception(0), Some(ONE / 2));
    // the link is one-way
    assert_eq!(arena[1].get_relationships().len(), 0);
    assert_eq!(arena[2].get_relationships().len(), 0);
}

#[test]
fn linking_relationships_changes_nothing_on_an_error() {
    let (_, behaviours) = build_behaviours(&vec![behaviour("x", 5)]).unwrap();
    let mut q = belief(10);
    q.relationships = vec![(11, ONE / 2)];
    let (mut arena, index) = build_beliefs(&vec![q, belief(11)], &behaviours).unwrap();
    let mut wrong = belief(10);
    wrong.relationships = vec![(10, ONE), (13, 0)];
    assert_eq!(
        wrong.link_belief_relationships(&mut arena, &index),
        Err(Error::UnresolvedReference { referrer: 10, target: 13 })
    );
    let mut far = belief(10);
    far.relationships = vec![(10, ONE), (11, 2 * ONE)];
    assert_eq!(
        far.link_belief_relationships(&mut arena, &index),
        Err(Error::OutOfRange { owner: 10, found: 2 * ONE })
    );
    let stranger = belief(14);
    assert_eq!(
        stranger.link_belief_relationships(&mut arena, &index),
        Err(Error::UnresolvedReference { referrer: 14, target: 14 })
    );
    assert_eq!(arena[0].get_relationship(1), Some(ONE / 2));
    assert_eq!(arena[0].get_relationship(0), None);
    assert_eq!(arena[0].get_relationships().len(), 1);
}

#[test]
fn linking_friends_keeps_those_not_named() {
    let (_, behaviours) = build_behaviours(&vec![behaviour("x", 5)]).unwrap();
    let (_, beliefs) = build_beliefs(&vec![belief(10)], &behaviours).unwrap();
    let mut a = agent(20);
    a.actions = vec![(0, 5)];
    a.activations = vec![(0, vec![(10, ONE / 2)])];
    a.deltas = vec![(10, 7 * ONE)];
    a.friends = vec![(21, -ONE), (22, ONE / 2)];
    let (mut arena, index) =
        build_agents(&vec![a, agent(21), agent(22)], &behaviours, &beliefs).unwrap();
    let mut more = agent(20);
    more.friends = vec![(22, ONE), (20, ONE / 4)];
    assert_eq!(more.link_friends(&mut arena, &index), Ok(()));
    assert_eq!(arena[0].get_friend_weight(1), Some(-ONE));
    assert_eq!(arena[0].get_friend_weight(2), Some(ONE));
    assert_eq!(arena[0].get_friend_weight(0), Some(ONE / 4));
    assert_eq!(arena[0].get_friends().len(), 3);
    assert_eq!(arena[0].get_action(0), Some(0));
    assert_eq!(arena[0].get_activation(0, 0), Some(ONE / 2));
    assert_eq!(arena[0].get_delta(0), Some(7 * ONE));
    // the tie is not made symmetric
    assert_eq!(arena[1].get_friends().len(), 0);
    assert_eq!(arena[2].get_friends().len(), 0);
}

#[test]
fn linking_friends_changes_nothing_on_an_error() {
    let (_, behaviours) = build_behaviours(&vec![behaviour("x", 5)]).unwrap();
    let (_, beliefs) = build_beliefs(&vec![belief(10)], &behaviours).unwrap();
    let mut a = agent(20);
    a.friends = vec![(21, -ONE)];
    let (mut arena, index) = build_agents(&vec![a, agent(21)], &behaviours, &beliefs).unwrap();
    let mut wrong = agent(20);
    wrong.friends = vec![(20, ONE), (23, 0)];
    assert_eq!(
        wrong.link_friends(&mut arena, &index),
        Err(Error::UnresolvedReference { referrer: 20, target: 23 })
    );
    let mut far = agent(20);
    far.friends = vec![(20, ONE), (21, -2 * ONE)];
    assert_eq!(
        far.link_friends(&mut arena, &index),
        Err(Error::OutOfRange { owner: 20, found: -2 * ONE })
    );
    assert_eq!(arena[0].get_friend_weight(1), Some(-ONE));
    assert_eq!(arena[0].get_friend_weight(0), None);
    assert_eq!(arena[0].get_friends().len(), 1);
}
