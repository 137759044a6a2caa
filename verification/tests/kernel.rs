use belief_sim::entity::{BasicAgent, BasicBelief};
use belief_sim::fixed::ONE;
use belief_sim::kernel::{
    change_of_activation, compute_activation, contextualise, pressure_on,
    update_activation_for_agent, update_activation_for_all_beliefs_for_agent,
};

fn belief(uuid: u128) -> BasicBelief {
    BasicBelief::new_with_uuid("q".to_string(), uuid)
}

#[test]
fn context_of_no_beliefs_is_zero() {
    let a = BasicAgent::new_with_uuid(1);
    let q = belief(2);
    assert_eq!(contextualise(&a, 0, &q, 0), 0);
}

#[test]
fn context_divides_by_all_beliefs() {
    let mut a = BasicAgent::new_with_uuid(1);
    a.set_activation(0, 0, Some(ONE)).unwrap();
    a.set_activation(0, 1, Some(ONE / 2)).unwrap();
    a.set_activation(0, 2, Some(ONE)).unwrap();
    let mut q = belief(2);
    q.set_relationship(0, Some(ONE / 2)).unwrap();
    q.set_relationship(1, Some(-ONE)).unwrap();
    // belief 2 has no relationship, belief 3 neither activation nor relationship:
    // (0.5 - 0.5 + 0 + 0) / 4
    assert_eq!(contextualise(&a, 0, &q, 4), 0);
    q.set_relationship(1, Some(ONE)).unwrap();
    // (0.5 + 0.5) / 4
    assert_eq!(contextualise(&a, 0, &q, 4), 250_000_000);
    // the mean is over the count that is given, not over what contributes
    assert_eq!(contextualise(&a, 0, &q, 2), 500_000_000);
    assert_eq!(contextualise(&a, 1, &q, 4), 0);
}

#[test]
fn context_rounds_toward_zero() {
    let mut a = BasicAgent::new_with_uuid(1);
    a.set_activation(0, 0, Some(-ONE)).unwrap();
    let mut q = belief(2);
    q.set_relationship(0, Some(ONE)).unwrap();
    // -1 / 3 = -0.333333333...
    assert_eq!(contextualise(&a, 0, &q, 3), -333_333_333);
    a.set_activation(0, 0, Some(ONE)).unwrap();
    assert_eq!(contextualise(&a, 0, &q, 3), 333_333_333);
}

#[test]
fn pressure_without_friends_is_zero() {
    let agents = vec![BasicAgent::new_with_uuid(1)];
    let mut q = belief(2);
    q.set_perception(0, Some(ONE)).unwrap();
    assert_eq!(pressure_on(&agents, 0, 0, &q), 0);
}

#[test]
fn pressure_is_the_mean_over_friends_who_acted() {
    let mut me = BasicAgent::new_with_uuid(1);
    me.set_friend_weight(1, Some(ONE)).unwrap();
    me.set_friend_weight(2, Some(ONE / 2)).unwrap();
    me.set_friend_weight(3, Some(-ONE)).unwrap();
    let mut f1 = BasicAgent::new_with_uuid(2);
    f1.set_action(0, Some(0));
    let mut f2 = BasicAgent::new_with_uuid(3);
    f2.set_action(0, Some(1));
    let f3 = BasicAgent::new_with_uuid(4);
    let agents = vec![me, f1, f2, f3];
    let mut q = belief(9);
    q.set_perception(0, Some(ONE)).unwrap();
    q.set_perception(1, Some(-ONE / 2)).unwrap();
    // f1: 1 * 1, f2: 0.5 * -0.5, f3 did nothing and is not counted
    assert_eq!(pressure_on(&agents, 0, 0, &q), (ONE - ONE / 4) / 2);
    // nobody did anything at tick 5
    assert_eq!(pressure_on(&agents, 0, 5, &q), 0);
}

#[test]
fn pressure_counts_a_friend_whose_action_is_not_perceived() {
    let mut me = BasicAgent::new_with_uuid(1);
    me.set_friend_weight(1, Some(ONE)).unwrap();
    me.set_friend_weight(2, Some(ONE)).unwrap();
    let mut f1 = BasicAgent::new_with_uuid(2);
    f1.set_action(0, Some(0));
    let mut f2 = BasicAgent::new_with_uuid(3);
    f2.set_action(0, Some(7));
    let agents = vec![me, f1, f2];
    let mut q = belief(9);
    q.set_perception(0, Some(ONE)).unwrap();
    assert_eq!(pressure_on(&agents, 0, 0, &q), ONE / 2);
}

#[test]
fn pressure_ignores_self_and_strangers() {
    let mut me = BasicAgent::new_with_uuid(1);
    me.set_action(0, Some(0));
    me.set_friend_weight(0, Some(ONE)).unwrap();
    me.set_friend_weight(9, Some(ONE)).unwrap();
    me.set_friend_weight(1, Some(ONE / 2)).unwrap();
    let mut f = BasicAgent::new_with_uuid(2);
    f.set_action(0, Some(0));
    let agents = vec![me, f];
    let mut q = belief(9);
    q.set_perception(0, Some(ONE)).unwrap();
    assert_eq!(pressure_on(&agents, 0, 0, &q), ONE / 2);
}

#[test]
fn change_blends_with_context() {
    // (1 + 0) / 2 * 1
    assert_eq!(change_of_activation(0, ONE), ONE / 2);
    // (1 + 1) / 2 * 1
    assert_eq!(change_of_activation(ONE, ONE), ONE);
    // (1 - 1) / 2 * 1
    assert_eq!(change_of_activation(-ONE, ONE), 0);
    // (1 - 0) / 2 * -1
    assert_eq!(change_of_activation(0, -ONE), -ONE / 2);
    // (1 - 1) / 2 * -1: pressure against a belief in full context is damped away
    assert_eq!(change_of_activation(ONE, -ONE), 0);
    // (1 + 1) / 2 * -1
    assert_eq!(change_of_activation(-ONE, -ONE), -ONE);
    // (1 + 0.5) / 2 * 0.4
    assert_eq!(change_of_activation(ONE / 2, 400_000_000), 300_000_000);
    assert_eq!(change_of_activation(ONE / 2, 0), 0);
    assert_eq!(change_of_activation(-ONE / 2, 0), 0);
}

fn pair(prior: i64, friends: usize) -> (Vec<BasicAgent>, Vec<BasicBelief>) {
    let mut me = BasicAgent::new_with_uuid(1);
    me.set_activation(0, 0, Some(prior)).unwrap();
    let mut agents = Vec::new();
    for k in 0..friends {
        me.set_friend_weight((k + 1) as u32, Some(ONE)).unwrap();
    }
    agents.push(me);
    for k in 0..friends {
        let mut f = BasicAgent::new_with_uuid(100 + k as u128);
        f.set_action(0, Some(0));
        agents.push(f);
    }
    let mut q = belief(9);
    q.set_perception(0, Some(ONE)).unwrap();
    (agents, vec![q])
}

#[test]
fn friend_pressure_moves_the_activation_half_way() {
    let (mut agents, beliefs) = pair(0, 1);
    assert_eq!(compute_activation(&agents, &beliefs, 0, 1, 0), ONE / 2);
    update_activation_for_agent(&mut agents, &beliefs, 0, 1, 0);
    assert_eq!(agents[0].get_activation(1, 0), Some(ONE / 2));
    assert_eq!(agents[0].get_activation(0, 0), Some(0));
    assert_eq!(agents[1].get_activation(1, 0), None);
}

#[test]
fn activation_saturates_at_one() {
    let (mut agents, beliefs) = pair(800_000_000, 2);
    update_activation_for_agent(&mut agents, &beliefs, 0, 1, 0);
    assert_eq!(agents[0].get_activation(1, 0), Some(ONE));
}

#[test]
fn activation_saturates_at_minus_one() {
    let (mut agents, mut beliefs) = pair(-800_000_000, 2);
    beliefs[0].set_perception(0, Some(-ONE)).unwrap();
    update_activation_for_agent(&mut agents, &beliefs, 0, 1, 0);
    assert_eq!(agents[0].get_activation(1, 0), Some(-ONE));
}

#[test]
fn no_friends_leaves_the_activation() {
    let (mut agents, beliefs) = pair(500_000_000, 0);
    update_activation_for_agent(&mut agents, &beliefs, 0, 1, 0);
    assert_eq!(agents[0].get_activation(1, 0), Some(500_000_000));
}

#[test]
fn nothing_held_and_nothing_perceived_stays_nothing() {
    let (mut agents, mut beliefs) = pair(0, 3);
    beliefs[0].set_perception(0, Some(0)).unwrap();
    update_activation_for_agent(&mut agents, &beliefs, 0, 1, 0);
    assert_eq!(agents[0].get_activation(1, 0), Some(0));
    beliefs[0].set_perception(0, None).unwrap();
    update_activation_for_agent(&mut agents, &beliefs, 0, 2, 0);
    assert_eq!(agents[0].get_activation(2, 0), Some(0));
}

#[test]
fn all_beliefs_of_one_agent_are_updated() {
    let mut me = BasicAgent::new_with_uuid(1);
    me.set_activation(0, 0, Some(200_000_000)).unwrap();
    me.set_activation(0, 1, Some(-200_000_000)).unwrap();
    me.set_activation(1, 5, Some(1)).unwrap();
    me.set_friend_weight(1, Some(ONE)).unwrap();
    let mut f = BasicAgent::new_with_uuid(2);
    f.set_action(0, Some(0));
    let mut agents = vec![me, f];
    let mut q0 = belief(10);
    q0.set_perception(0, Some(ONE)).unwrap();
    let mut q1 = belief(11);
    q1.set_perception(0, Some(-ONE)).unwrap();
    let beliefs = vec![q0, q1];
    update_activation_for_all_beliefs_for_agent(&mut agents, &beliefs, 0, 1);
    assert_eq!(agents[0].get_activation(1, 0), Some(700_000_000));
    assert_eq!(agents[0].get_activation(1, 1), Some(-700_000_000));
    assert_eq!(agents[0].get_activation(1, 5), Some(1));
    assert_eq!(agents[0].get_activation(0, 0), Some(200_000_000));
    assert_eq!(agents[1].get_activations().len(), 0);
}
