use belief_sim::entity::{
    ids_of_agents, ids_of_behaviours, ids_of_beliefs, BasicAgent, BasicBehaviour, BasicBelief,
};
use belief_sim::error::Error;
use belief_sim::fixed::ONE;
use belief_sim::ident::{KIND_MASK, KIND_RANDOM};
use belief_sim::table::Table;

#[test]
fn behaviour_keeps_name_and_uuid() {
    let b = BasicBehaviour::new_with_uuid("walk".to_string(), 42);
    assert_eq!(b.name(), "walk");
    assert_eq!(b.uuid(), 42);
}

#[test]
fn fresh_identifiers_are_random_uuids() {
    let a = BasicBehaviour::new("a".to_string());
    let b = BasicBehaviour::new("b".to_string());
    assert_ne!(a.uuid(), b.uuid());
    assert_eq!(a.uuid() & KIND_MASK, KIND_RANDOM);
    assert_eq!(b.uuid() & KIND_MASK, KIND_RANDOM);
    let parsed = uuid::Uuid::from_u128(a.uuid());
    assert_eq!(parsed.get_version_num(), 4);
    assert_eq!(a.name(), "a");
    let q = BasicBelief::new("q".to_string());
    assert_eq!(q.uuid() & KIND_MASK, KIND_RANDOM);
    assert_eq!(q.name(), "q");
    let x = BasicAgent::new();
    let y = BasicAgent::new();
    assert_ne!(x.uuid(), y.uuid());
    assert_eq!(x.uuid() & KIND_MASK, KIND_RANDOM);
}

#[test]
fn belief_perception_set_get_clear() {
    let mut q = BasicBelief::new_with_uuid("q".to_string(), 1);
    assert_eq!(q.get_perception(0), None);
    assert_eq!(q.set_perception(0, Some(ONE)), Ok(()));
    assert_eq!(q.set_perception(3, Some(-ONE)), Ok(()));
    assert_eq!(q.get_perception(0), Some(ONE));
    assert_eq!(q.get_perception(3), Some(-ONE));
    assert_eq!(q.set_perception(0, None), Ok(()));
    assert_eq!(q.get_perception(0), None);
    assert_eq!(q.get_perceptions().len(), 1);
    assert_eq!(q.get_relationships().len(), 0);
}

#[test]
fn belief_perception_out_of_range() {
    let mut q = BasicBelief::new_with_uuid("q".to_string(), 9);
    assert_eq!(q.set_perception(0, Some(300_000_000)), Ok(()));
    assert_eq!(
        q.set_perception(0, Some(ONE + 1)),
        Err(Error::OutOfRange { owner: 9, found: ONE + 1 })
    );
    assert_eq!(
        q.set_perception(0, Some(-ONE - 1)),
        Err(Error::OutOfRange { owner: 9, found: -ONE - 1 })
    );
    assert_eq!(q.get_perception(0), Some(300_000_000));
}

#[test]
fn belief_relationship_set_get_clear() {
    let mut q = BasicBelief::new_with_uuid("q".to_string(), 1);
    assert_eq!(q.get_relationship(2), None);
    assert_eq!(q.set_relationship(2, Some(500_000_000)), Ok(()));
    assert_eq!(q.get_relationship(2), Some(500_000_000));
    assert_eq!(
        q.set_relationship(2, Some(2 * ONE)),
        Err(Error::OutOfRange { owner: 1, found: 2 * ONE })
    );
    assert_eq!(q.get_relationship(2), Some(500_000_000));
    assert_eq!(q.set_relationship(2, None), Ok(()));
    assert_eq!(q.get_relationship(2), None);
}

#[test]
fn belief_tables_can_be_replaced() {
    let mut q = BasicBelief::new_with_uuid("q".to_string(), 1);
    let mut t: Table<i64> = Table::new();
    t.insert(4, 5);
    q.replace_perceptions(t);
    let mut r: Table<i64> = Table::new();
    r.insert(6, -7);
    q.replace_relationships(r);
    assert_eq!(q.get_perception(4), Some(5));
    assert_eq!(q.get_relationship(6), Some(-7));
    assert_eq!(q.name(), "q");
    assert_eq!(q.uuid(), 1);
}

#[test]
fn agent_activation_set_get_clear() {
    let mut a = BasicAgent::new_with_uuid(5);
    assert_eq!(a.get_activation(0, 0), None);
    assert_eq!(a.set_activation(0, 0, Some(500_000_000)), Ok(()));
    assert_eq!(a.set_activation(0, 1, Some(-ONE)), Ok(()));
    assert_eq!(a.set_activation(1, 0, Some(ONE)), Ok(()));
    assert_eq!(a.get_activation(0, 0), Some(500_000_000));
    assert_eq!(a.get_activation(0, 1), Some(-ONE));
    assert_eq!(a.get_activation(1, 0), Some(ONE));
    assert_eq!(a.get_activation(1, 1), None);
    assert_eq!(a.set_activation(0, 0, None), Ok(()));
    assert_eq!(a.get_activation(0, 0), None);
    assert_eq!(a.get_activation(0, 1), Some(-ONE));
    assert_eq!(a.set_activation(7, 0, None), Ok(()));
    assert_eq!(a.get_activations().len(), 2);
}

#[test]
fn agent_activation_out_of_range() {
    let mut a = BasicAgent::new_with_uuid(5);
    assert_eq!(
        a.set_activation(0, 0, Some(ONE + 1)),
        Err(Error::OutOfRange { owner: 5, found: ONE + 1 })
    );
    assert_eq!(
        a.set_activation(0, 0, Some(-ONE - 1)),
        Err(Error::OutOfRange { owner: 5, found: -ONE - 1 })
    );
    assert_eq!(a.get_activation(0, 0), None);
    assert_eq!(a.get_activations().len(), 0);
}

#[test]
fn agent_action_set_get_clear() {
    let mut a = BasicAgent::new_with_uuid(5);
    assert_eq!(a.get_action(3), None);
    a.set_action(3, Some(2));
    assert_eq!(a.get_action(3), Some(2));
    a.set_action(3, Some(1));
    assert_eq!(a.get_action(3), Some(1));
    a.set_action(3, None);
    assert_eq!(a.get_action(3), None);
    assert_eq!(a.get_actions().len(), 0);
}

#[test]
fn agent_delta_is_unbounded() {
    let mut a = BasicAgent::new_with_uuid(5);
    assert_eq!(a.get_delta(0), None);
    a.set_delta(0, Some(5 * ONE));
    a.set_delta(1, Some(-3 * ONE));
    assert_eq!(a.get_delta(0), Some(5 * ONE));
    assert_eq!(a.get_delta(1), Some(-3 * ONE));
    a.set_delta(0, None);
    assert_eq!(a.get_delta(0), None);
    assert_eq!(a.get_deltas().len(), 1);
}

#[test]
fn agent_friend_weight_is_signed_and_bounded() {
    let mut a = BasicAgent::new_with_uuid(5);
    assert_eq!(a.get_friend_weight(1), None);
    assert_eq!(a.set_friend_weight(1, Some(-ONE)), Ok(()));
    assert_eq!(a.set_friend_weight(2, Some(ONE)), Ok(()));
    assert_eq!(a.get_friend_weight(1), Some(-ONE));
    assert_eq!(
        a.set_friend_weight(1, Some(ONE + 1)),
        Err(Error::OutOfRange { owner: 5, found: ONE + 1 })
    );
    assert_eq!(a.get_friend_weight(1), Some(-ONE));
    assert_eq!(a.set_friend_weight(1, None), Ok(()));
    assert_eq!(a.get_friend_weight(1), None);
    assert_eq!(a.get_friends().len(), 1);
}

#[test]
fn agent_tables_can_be_replaced() {
    let mut a = BasicAgent::new_with_uuid(5);
    let mut actions: Table<u32> = Table::new();
    actions.insert(0, 1);
    a.replace_actions(actions);
    let mut row: Table<i64> = Table::new();
    row.insert(2, 100);
    let mut rows: Table<Table<i64>> = Table::new();
    rows.insert(0, row);
    a.replace_activations(rows);
    let mut deltas: Table<i64> = Table::new();
    deltas.insert(2, 9 * ONE);
    a.replace_deltas(deltas);
    let mut friends: Table<i64> = Table::new();
    friends.insert(1, ONE);
    a.replace_friends(friends);
    assert_eq!(a.get_action(0), Some(1));
    assert_eq!(a.get_activation(0, 2), Some(100));
    assert_eq!(a.get_delta(2), Some(9 * ONE));
    assert_eq!(a.get_friend_weight(1), Some(ONE));
    assert_eq!(a.uuid(), 5);
}

#[test]
fn relationships_and_friends_can_be_added_to() {
    let mut q = BasicBelief::new_with_uuid("q".to_string(), 1);
    q.set_relationship(1, Some(10)).unwrap();
    q.set_relationship(2, Some(20)).unwrap();
    let mut more: Table<i64> = Table::new();
    more.insert(2, 22);
    more.insert(3, 33);
    q.add_relationships(&more);
    assert_eq!(q.get_relationship(1), Some(10));
    assert_eq!(q.get_relationship(2), Some(22));
    assert_eq!(q.get_relationship(3), Some(33));
    let mut a = BasicAgent::new_with_uuid(5);
    a.set_friend_weight(1, Some(10)).unwrap();
    a.add_friends(&more);
    assert_eq!(a.get_friend_weight(1), Some(10));
    assert_eq!(a.get_friend_weight(2), Some(22));
    assert_eq!(a.get_friend_weight(3), Some(33));
    assert_eq!(a.get_friends().len(), 3);
}

#[test]
fn entities_are_the_same_by_identifier_alone() {
    let a = BasicBehaviour::new_with_uuid("a".to_string(), 3);
    let b = BasicBehaviour::new_with_uuid("b".to_string(), 3);
    let c = BasicBehaviour::new_with_uuid("a".to_string(), 4);
    assert!(a == b);
    assert!(a != c);
    let mut p = BasicBelief::new_with_uuid("p".to_string(), 3);
    p.set_perception(0, Some(ONE)).unwrap();
    let q = BasicBelief::new_with_uuid("q".to_string(), 3);
    let r = BasicBelief::new_with_uuid("p".to_string(), 5);
    assert!(p == q);
    assert!(p != r);
    let mut x = BasicAgent::new_with_uuid(3);
    x.set_action(0, Some(1));
    let y = BasicAgent::new_with_uuid(3);
    let z = BasicAgent::new_with_uuid(6);
    assert!(x == y);
    assert!(x != z);
}

#[test]
fn arenas_list_their_identifiers() {
    let behaviours = vec![
        BasicBehaviour::new_with_uuid("a".to_string(), 3),
        BasicBehaviour::new_with_uuid("b".to_string(), 1),
    ];
    let beliefs = vec![BasicBelief::new_with_uuid("q".to_string(), 8)];
    let agents = vec![BasicAgent::new_with_uuid(6), BasicAgent::new_with_uuid(4)];
    assert_eq!(ids_of_behaviours(&behaviours), vec![3, 1]);
    assert_eq!(ids_of_beliefs(&beliefs), vec![8]);
    assert_eq!(ids_of_agents(&agents), vec![6, 4]);
}
