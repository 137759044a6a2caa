use belief_sim::entity::{BasicAgent, BasicBehaviour, BasicBelief};
use belief_sim::fixed::ONE;
use belief_sim::output::{
    belief_stats, collect_held, count_performers, isqrt, summarise_tick, OutputSpecs,
};

#[test]
fn square_roots_round_down() {
    assert_eq!(isqrt(0), 0);
    assert_eq!(isqrt(1), 1);
    assert_eq!(isqrt(3), 1);
    assert_eq!(isqrt(4), 2);
    assert_eq!(isqrt(99), 9);
    assert_eq!(isqrt(100), 10);
    assert_eq!(isqrt(8_000_000_000_000_000_000), 2_828_427_124);
    assert_eq!(isqrt(u64::MAX), 4_294_967_295);
}

#[test]
fn stats_of_a_mixed_population() {
    let held = vec![Some(200_000_000), Some(400_000_000), None, Some(900_000_000)];
    let s = belief_stats(&held);
    assert_eq!(s.holders, 3);
    assert_eq!(s.nonzero, 3);
    assert_eq!(s.mean, 375_000_000);
    assert_eq!(s.median, 400_000_000);
    assert_eq!(s.sd, Some(319_830_683));
}

#[test]
fn stats_of_opposites() {
    let s = belief_stats(&vec![Some(-ONE), Some(ONE)]);
    assert_eq!(s.holders, 2);
    assert_eq!(s.mean, 0);
    // the upper of the two in the middle
    assert_eq!(s.median, ONE);
    assert_eq!(s.sd, Some(1_414_213_562));
}

#[test]
fn stats_round_toward_zero() {
    let s = belief_stats(&vec![Some(333_333_333), Some(-333_333_333), Some(333_333_333)]);
    assert_eq!(s.mean, 111_111_111);
    assert_eq!(s.median, 333_333_333);
    assert_eq!(s.sd, Some(384_900_176));
    let t = belief_stats(&vec![Some(-333_333_333), Some(-1), Some(0)]);
    assert_eq!(t.mean, -111_111_111);
    assert_eq!(t.nonzero, 2);
    assert_eq!(t.holders, 3);
    assert_eq!(t.median, -1);
}

#[test]
fn stats_of_one_agent_have_no_deviation() {
    let s = belief_stats(&vec![Some(700_000_000)]);
    assert_eq!(s.holders, 1);
    assert_eq!(s.mean, 700_000_000);
    assert_eq!(s.median, 700_000_000);
    assert_eq!(s.sd, None);
    let t = belief_stats(&vec![None]);
    assert_eq!(t.holders, 0);
    assert_eq!(t.nonzero, 0);
    assert_eq!(t.mean, 0);
    assert_eq!(t.median, 0);
    assert_eq!(t.sd, None);
}

#[test]
fn stats_of_agents_who_agree() {
    let s = belief_stats(&vec![Some(ONE), Some(ONE), Some(ONE), Some(ONE)]);
    assert_eq!(s.mean, ONE);
    assert_eq!(s.median, ONE);
    assert_eq!(s.sd, Some(0));
    assert_eq!(s.nonzero, 4);
}

fn population() -> Vec<BasicAgent> {
    let mut a = BasicAgent::new_with_uuid(1);
    a.set_activation(1, 0, Some(200_000_000)).unwrap();
    a.set_activation(1, 1, Some(0)).unwrap();
    a.set_action(1, Some(0));
    let mut b = BasicAgent::new_with_uuid(2);
    b.set_activation(1, 0, Some(400_000_000)).unwrap();
    b.set_action(1, Some(2));
    let c = BasicAgent::new_with_uuid(3);
    let mut d = BasicAgent::new_with_uuid(4);
    d.set_activation(1, 0, Some(900_000_000)).unwrap();
    d.set_activation(2, 2, Some(-ONE)).unwrap();
    d.set_action(1, Some(0));
    d.set_action(2, Some(1));
    vec![a, b, c, d]
}

#[test]
fn what_is_held_and_done_is_collected() {
    let agents = population();
    assert_eq!(
        collect_held(&agents, 1, 0),
        vec![Some(200_000_000), Some(400_000_000), None, Some(900_000_000)]
    );
    assert_eq!(collect_held(&agents, 1, 1), vec![Some(0), None, None, None]);
    assert_eq!(collect_held(&agents, 3, 0), vec![None, None, None, None]);
    assert_eq!(count_performers(&agents, 1, 0), 2);
    assert_eq!(count_performers(&agents, 1, 1), 0);
    assert_eq!(count_performers(&agents, 1, 2), 1);
    assert_eq!(count_performers(&agents, 2, 1), 1);
    assert_eq!(count_performers(&Vec::new(), 2, 1), 0);
}

#[test]
fn a_tick_is_summarised_by_identifier() {
    let agents = population();
    let beliefs = vec![70u128, 71, 72];
    let behaviours = vec![80u128, 81, 82];
    let out = summarise_tick(&agents, &beliefs, &behaviours, 1);
    assert_eq!(out.mean_activation, vec![(70, 375_000_000), (71, 0)]);
    assert_eq!(out.sd_activation, vec![(70, 319_830_683), (71, 0)]);
    assert_eq!(out.median_activation, vec![(70, 400_000_000), (71, 0), (72, 0)]);
    assert_eq!(out.nonzero_activation_count, vec![(70, 3)]);
    assert_eq!(out.n_performers, vec![(80, 2), (82, 1)]);
    let later = summarise_tick(&agents, &beliefs, &behaviours, 2);
    assert_eq!(later.mean_activation, vec![(72, -250_000_000)]);
    assert_eq!(later.median_activation, vec![(70, 0), (71, 0), (72, 0)]);
    assert_eq!(later.nonzero_activation_count, vec![(72, 1)]);
    assert_eq!(later.n_performers, vec![(81, 1)]);
}

#[test]
fn nobody_gives_an_empty_summary() {
    let out = summarise_tick(&Vec::new(), &vec![70, 71], &vec![80], 1);
    assert_eq!(out.mean_activation, Vec::new());
    assert_eq!(out.sd_activation, Vec::new());
    assert_eq!(out.median_activation, Vec::new());
    assert_eq!(out.nonzero_activation_count, Vec::new());
    assert_eq!(out.n_performers, Vec::new());
}

#[test]
fn a_run_is_summarised_tick_by_tick() {
    let agents = population();
    let beliefs = vec![
        BasicBelief::new_with_uuid("p".to_string(), 70),
        BasicBelief::new_with_uuid("q".to_string(), 71),
        BasicBelief::new_with_uuid("r".to_string(), 72),
    ];
    let behaviours = vec![
        BasicBehaviour::new_with_uuid("x".to_string(), 80),
        BasicBehaviour::new_with_uuid("y".to_string(), 81),
        BasicBehaviour::new_with_uuid("z".to_string(), 82),
    ];
    let out = OutputSpecs::from_agents(&agents, &beliefs, &behaviours, 1, 3);
    assert_eq!(out.data.len(), 3);
    assert_eq!(out.data[0].0, 1);
    assert_eq!(out.data[1].0, 2);
    assert_eq!(out.data[2].0, 3);
    assert_eq!(out.data[0].1.mean_activation, vec![(70, 375_000_000), (71, 0)]);
    assert_eq!(out.data[1].1.n_performers, vec![(81, 1)]);
    assert_eq!(out.data[2].1.mean_activation, Vec::new());
    assert_eq!(out.data[2].1.median_activation, vec![(70, 0), (71, 0), (72, 0)]);
    let none = OutputSpecs::from_agents(&agents, &beliefs, &behaviours, 3, 1);
    assert_eq!(none.data.len(), 0);
    let last = OutputSpecs::from_agents(&agents, &beliefs, &behaviours, u32::MAX, u32::MAX);
    assert_eq!(last.data.len(), 1);
    assert_eq!(last.data[0].0, u32::MAX);
}
