use belief_sim::entity::{BasicAgent, BasicBehaviour, BasicBelief};
use belief_sim::fixed::ONE;
use belief_sim::json::{AgentSpec, BehaviourSpec, BeliefSpec, PerformanceRelationshipSpec};
use belief_sim::loader::load;
use belief_sim::performance_relationships::PerformanceRelationships;
use belief_sim::error::Error;
use belief_sim::runner::{Configuration, Phase, Runner};

const B1: u128 = 0xb1;
const B2: u128 = 0xb2;
const Q: u128 = 0xc1;
const A: u128 = 0xa1;
const F: u128 = 0xa2;
const G: u128 = 0xa3;

fn behaviour(name: &str, uuid: u128) -> BehaviourSpec {
    BehaviourSpec { name: name.to_string(), uuid }
}

fn agent(uuid: u128) -> AgentSpec {
    AgentSpec {
        uuid,
        actions: Vec::new(),
        activations: Vec::new(),
        deltas: Vec::new(),
        friends: Vec::new(),
    }
}

fn trivial() -> Runner {
    let behaviours = vec![behaviour("B", B1)];
    let beliefs = vec![BeliefSpec {
        name: "Q".to_string(),
        uuid: Q,
        perceptions: Vec::new(),
        relationships: Vec::new(),
    }];
    let mut a = agent(A);
    a.activations = vec![(0, vec![(Q, ONE / 2)])];
    let prs = vec![PerformanceRelationshipSpec { behaviour_uuid: B1, belief_uuid: Q, value: ONE }];
    Runner { config: load(&behaviours, &beliefs, &vec![a], &prs, 1, 1).unwrap() }
}

fn pressured(prior: i64, friends: &[u128]) -> Runner {
    let behaviours = vec![behaviour("B1", B1)];
    let beliefs = vec![BeliefSpec {
        name: "Q".to_string(),
        uuid: Q,
        perceptions: vec![(B1, ONE)],
        relationships: Vec::new(),
    }];
    let mut a = agent(A);
    a.activations = vec![(0, vec![(Q, prior)])];
    a.friends = friends.iter().map(|f| (*f, ONE)).collect();
    let mut agents = vec![a];
    for f in friends {
        let mut friend = agent(*f);
        friend.actions = vec![(0, B1)];
        friend.activations = vec![(0, vec![(Q, 0)])];
        agents.push(friend);
    }
    Runner { config: load(&behaviours, &beliefs, &agents, &Vec::new(), 1, 1).unwrap() }
}

#[test]
fn scenario_trivial() {
    let mut r = trivial();
    let records = r.run();
    assert_eq!(r.config.agents[0].get_activation(1, 0), Some(ONE / 2));
    assert_eq!(r.config.agents[0].get_action(1), Some(0));
    assert_eq!(records.len(), 1);
    assert_eq!(records[0].uuid, A);
    assert_eq!(records[0].actions, vec![(1, B1)]);
    assert_eq!(
        records[0].activations,
        vec![(0, vec![(Q, ONE / 2)]), (1, vec![(Q, ONE / 2)])]
    );
}

#[test]
fn scenario_friend_pressure() {
    let mut r = pressured(0, &[F]);
    r.run();
    assert_eq!(r.config.agents[0].get_activation(1, 0), Some(ONE / 2));
}

#[test]
fn scenario_clamping() {
    let mut r = pressured(800_000_000, &[F, G]);
    r.run();
    assert_eq!(r.config.agents[0].get_activation(1, 0), Some(ONE));
}

fn two_behaviours() -> Runner {
    let behaviours = vec![behaviour("B1", B1), behaviour("B2", B2)];
    let beliefs = vec![BeliefSpec {
        name: "Q".to_string(),
        uuid: Q,
        perceptions: Vec::new(),
        relationships: Vec::new(),
    }];
    let mut a = agent(A);
    a.activations = vec![(1, vec![(Q, ONE)])];
    let prs = vec![
        PerformanceRelationshipSpec { behaviour_uuid: B1, belief_uuid: Q, value: ONE / 4 },
        PerformanceRelationshipSpec { behaviour_uuid: B2, belief_uuid: Q, value: 3 * (ONE / 4) },
    ];
    Runner { config: load(&behaviours, &beliefs, &vec![a], &prs, 1, 1).unwrap() }
}

#[test]
fn scenario_multi_behaviour_sampling() {
    let mut r = two_behaviours();
    let n = 10_000;
    let mut second = 0;
    for _ in 0..n {
        r.agent_perform_action(0, 1);
        let chosen = r.config.agents[0].get_action(1).unwrap();
        assert!(chosen < 2);
        if chosen == 1 {
            second += 1;
        }
    }
    let frequency = second as f64 / n as f64;
    assert!(frequency >= 0.73 && frequency <= 0.77, "frequency {}", frequency);
}

#[test]
fn sampling_on_given_draws_is_by_share() {
    let mut r = two_behaviours();
    r.agent_perform_action_with(0, 1, 0);
    assert_eq!(r.config.agents[0].get_action(1), Some(0));
    r.agent_perform_action_with(0, 1, ONE / 4);
    assert_eq!(r.config.agents[0].get_action(1), Some(0));
    r.agent_perform_action_with(0, 1, ONE / 4 + 1);
    assert_eq!(r.config.agents[0].get_action(1), Some(1));
    r.agent_perform_action_with(0, 1, ONE - 1);
    assert_eq!(r.config.agents[0].get_action(1), Some(1));
    let mut second = 0;
    let n: i64 = 10_000;
    for k in 0..n {
        r.agent_perform_action_with(0, 1, k * (ONE / n));
        if r.config.agents[0].get_action(1) == Some(1) {
            second += 1;
        }
    }
    assert_eq!(second, 7_499);
}

#[test]
fn nonpositive_scores_need_no_draw() {
    let behaviours = vec![behaviour("B1", B1), behaviour("B2", B2)];
    let beliefs = vec![BeliefSpec {
        name: "Q".to_string(),
        uuid: Q,
        perceptions: Vec::new(),
        relationships: Vec::new(),
    }];
    let mut a = agent(A);
    a.activations = vec![(1, vec![(Q, ONE)])];
    let prs = vec![
        PerformanceRelationshipSpec { behaviour_uuid: B1, belief_uuid: Q, value: -ONE / 4 },
        PerformanceRelationshipSpec { behaviour_uuid: B2, belief_uuid: Q, value: -ONE },
    ];
    let mut r = Runner { config: load(&behaviours, &beliefs, &vec![a], &prs, 1, 1).unwrap() };
    for _ in 0..100 {
        r.agent_perform_action(0, 1);
        assert_eq!(r.config.agents[0].get_action(1), Some(0));
    }
    r.agent_perform_action_with(0, 1, ONE - 1);
    assert_eq!(r.config.agents[0].get_action(1), Some(0));
}

#[test]
fn without_behaviours_nobody_acts() {
    let beliefs = vec![BeliefSpec {
        name: "Q".to_string(),
        uuid: Q,
        perceptions: Vec::new(),
        relationships: Vec::new(),
    }];
    let mut a = agent(A);
    a.activations = vec![(0, vec![(Q, 0)])];
    let mut r = Runner {
        config: load(&Vec::new(), &beliefs, &vec![a], &Vec::new(), 1, 2).unwrap(),
    };
    let records = r.run();
    assert_eq!(r.config.agents[0].get_action(1), None);
    assert_eq!(r.config.agents[0].get_activation(1, 0), Some(0));
    assert_eq!(r.config.agents[0].get_activation(2, 0), Some(0));
    assert_eq!(records[0].actions, Vec::new());
}

#[test]
fn every_tick_of_the_interval_is_completed() {
    let mut r = pressured(100_000_000, &[F, G]);
    r.config.start_time = 1;
    r.config.end_time = 5;
    r.run();
    for agent in r.config.agents.iter() {
        for t in 1..=5 {
            let v = agent.get_activation(t, 0).unwrap();
            assert!(-ONE <= v && v <= ONE);
            assert_eq!(agent.get_action(t), Some(0));
        }
        assert_eq!(agent.get_activation(6, 0), None);
        assert_eq!(agent.get_action(6), None);
    }
    // tick 1: +0.5, tick 2: the friends go on performing B1, +0.5 and saturated
    assert_eq!(r.config.agents[0].get_activation(1, 0), Some(600_000_000));
    assert_eq!(r.config.agents[0].get_activation(2, 0), Some(ONE));
    assert_eq!(r.config.agents[0].get_activation(5, 0), Some(ONE));
    // the friends have no friends and held nothing
    assert_eq!(r.config.agents[1].get_activation(5, 0), Some(0));
}

#[test]
fn an_empty_interval_runs_no_tick() {
    let mut r = trivial();
    r.config.start_time = 3;
    r.config.end_time = 2;
    let records = r.run();
    assert_eq!(r.config.agents[0].get_activation(3, 0), None);
    assert_eq!(r.config.agents[0].get_action(3), None);
    assert_eq!(records[0].actions, Vec::new());
    assert_eq!(records[0].activations, vec![(0, vec![(Q, ONE / 2)])]);
}

#[test]
fn the_last_representable_tick_can_be_run() {
    let mut r = trivial();
    r.config.agents[0]
        .set_activation(u32::MAX - 1, 0, Some(ONE / 4))
        .unwrap();
    r.tick_between(u32::MAX, u32::MAX);
    assert_eq!(r.config.agents[0].get_activation(u32::MAX, 0), Some(ONE / 4));
    assert_eq!(r.config.agents[0].get_action(u32::MAX), Some(0));
}

#[test]
fn perceiving_reads_the_tick_before_and_acting_reads_the_tick_itself() {
    // the agent holds nothing at tick 0 and so would not choose; its friend's
    // action gives it the belief in tick 1, and with it a positive score
    let behaviours = vec![behaviour("B1", B1), behaviour("B2", B2)];
    let beliefs = vec![BeliefSpec {
        name: "Q".to_string(),
        uuid: Q,
        perceptions: vec![(B1, ONE)],
        relationships: Vec::new(),
    }];
    let mut a = agent(A);
    a.activations = vec![(0, vec![(Q, 0)])];
    a.friends = vec![(F, ONE)];
    let mut f = agent(F);
    f.actions = vec![(0, B1)];
    f.activations = vec![(0, vec![(Q, 0)])];
    let prs = vec![
        PerformanceRelationshipSpec { behaviour_uuid: B1, belief_uuid: Q, value: ONE },
        PerformanceRelationshipSpec { behaviour_uuid: B2, belief_uuid: Q, value: -ONE },
    ];
    let mut r = Runner { config: load(&behaviours, &beliefs, &vec![a, f], &prs, 1, 1).unwrap() };
    r.tick(1);
    assert_eq!(r.config.agents[0].get_activation(1, 0), Some(ONE / 2));
    assert_eq!(r.config.agents[0].get_action(1), Some(0));
    // the friend holds nothing: both scores are zero, the last of them wins
    assert_eq!(r.config.agents[1].get_activation(1, 0), Some(0));
    assert_eq!(r.config.agents[1].get_action(1), Some(1));
}

fn crowd() -> Configuration {
    let behaviours = vec![behaviour("B1", B1), behaviour("B2", B2)];
    let beliefs = vec![
        BeliefSpec {
            name: "Q".to_string(),
            uuid: Q,
            perceptions: vec![(B1, ONE), (B2, -ONE / 2)],
            relationships: vec![(Q + 1, ONE / 2)],
        },
        BeliefSpec {
            name: "R".to_string(),
            uuid: Q + 1,
            perceptions: vec![(B2, ONE)],
            relationships: vec![(Q, -ONE / 4), (Q + 1, ONE)],
        },
    ];
    let mut agents = Vec::new();
    for k in 0..5u128 {
        let mut a = agent(A + k);
        a.actions = vec![(0, if k % 2 == 0 { B1 } else { B2 })];
        a.activations = vec![(0, vec![(Q, (k as i64) * 100_000_000), (Q + 1, -(k as i64) * 50_000_000)])];
        a.friends = vec![(A + (k + 1) % 5, ONE / 2), (A + (k + 2) % 5, -ONE / 4)];
        agents.push(a);
    }
    let prs = vec![
        PerformanceRelationshipSpec { behaviour_uuid: B1, belief_uuid: Q, value: ONE },
        PerformanceRelationshipSpec { behaviour_uuid: B2, belief_uuid: Q, value: ONE / 2 },
        PerformanceRelationshipSpec { behaviour_uuid: B2, belief_uuid: Q + 1, value: 2 * ONE },
    ];
    load(&behaviours, &beliefs, &agents, &prs, 1, 4).unwrap()
}

#[test]
fn the_same_draws_give_the_same_run() {
    let draws: Vec<Vec<i64>> = (0..4)
        .map(|t| (0..5).map(|j| ((t * 5 + j) as i64 * 123_456_789) % ONE).collect())
        .collect();
    let mut first = Runner { config: crowd() };
    let mut second = Runner { config: crowd() };
    for t in 1..=4u32 {
        first.tick_with(t, &draws[(t - 1) as usize]);
        second.tick_with(t, &draws[(t - 1) as usize]);
    }
    assert_eq!(first.serialize_agents(), second.serialize_agents());

    let mut third = Runner { config: crowd() };
    let replayed = third.run_with(&draws);
    assert_eq!(replayed, first.serialize_agents());

    let mut fourth = Runner { config: crowd() };
    fourth.tick_between_with(1, 4, &draws);
    assert_eq!(fourth.serialize_agents(), replayed);
}

#[test]
fn other_draws_may_give_another_run() {
    let low: Vec<Vec<i64>> = (0..4).map(|_| vec![0; 5]).collect();
    let high: Vec<Vec<i64>> = (0..4).map(|_| vec![ONE - 1; 5]).collect();
    let mut first = Runner { config: crowd() };
    let mut second = Runner { config: crowd() };
    assert_ne!(first.run_with(&low), second.run_with(&high));
}

#[test]
fn a_run_on_no_ticks_takes_no_draws() {
    let mut r = Runner { config: crowd() };
    r.config.start_time = 2;
    r.config.end_time = 1;
    let before = r.serialize_agents();
    assert_eq!(r.run_with(&Vec::new()), before);
}

#[test]
fn the_order_of_agents_within_a_phase_does_not_matter() {
    let draws: Vec<i64> = vec![1, 999_999_999, 500_000_000, 250_000_000, 750_000_000];
    let mut canonical = Runner { config: crowd() };
    canonical.tick_with(1, &draws);

    let mut shuffled = Runner { config: crowd() };
    for me in [3u32, 0, 4, 2, 1] {
        belief_sim::kernel::update_activation_for_all_beliefs_for_agent(
            &mut shuffled.config.agents,
            &shuffled.config.beliefs,
            me,
            1,
        );
    }
    for me in [2u32, 4, 1, 0, 3] {
        shuffled.agent_perform_action_with(me, 1, draws[me as usize]);
    }
    for j in 0..5 {
        for b in 0..2 {
            assert_eq!(
                canonical.config.agents[j].get_activation(1, b),
                shuffled.config.agents[j].get_activation(1, b)
            );
        }
        assert_eq!(
            canonical.config.agents[j].get_action(1),
            shuffled.config.agents[j].get_action(1)
        );
    }
}

#[test]
fn phases_can_be_run_apart() {
    let mut r = Runner { config: crowd() };
    r.perceive_beliefs(1);
    for agent in r.config.agents.iter() {
        assert!(agent.get_activation(1, 0).is_some());
        assert!(agent.get_activation(1, 1).is_some());
        assert_eq!(agent.get_action(1), None);
    }
    r.perform_actions(1);
    for agent in r.config.agents.iter() {
        assert!(agent.get_action(1).unwrap() < 2);
    }
    let mut s = Runner { config: crowd() };
    s.perceive_beliefs(1);
    s.perform_actions_with(1, &vec![0, 0, 0, 0, 0]);
    for j in 0..5 {
        assert_eq!(
            s.config.agents[j].get_activation(1, 0),
            r.config.agents[j].get_activation(1, 0)
        );
    }
}

#[test]
fn a_model_can_be_put_together_by_hand() {
    let mut q = BasicBelief::new_with_uuid("Q".to_string(), Q);
    q.set_perception(0, Some(ONE)).unwrap();
    let mut a = BasicAgent::new_with_uuid(A);
    a.set_activation(0, 0, Some(0)).unwrap();
    a.set_friend_weight(1, Some(ONE)).unwrap();
    let mut f = BasicAgent::new_with_uuid(F);
    f.set_activation(0, 0, Some(0)).unwrap();
    f.set_action(0, Some(0));
    let mut prs = PerformanceRelationships::new();
    prs.set(0, 0, ONE);
    let mut r = Runner {
        config: Configuration {
            behaviours: vec![BasicBehaviour::new_with_uuid("B".to_string(), B1)],
            beliefs: vec![q],
            agents: vec![a, f],
            prs,
            start_time: 1,
            end_time: 2,
        },
    };
    let records = r.run();
    assert_eq!(r.config.agents[0].get_activation(1, 0), Some(ONE / 2));
    assert_eq!(r.config.agents[0].get_activation(2, 0), Some(ONE));
    assert_eq!(records[0].friends, vec![(F, ONE)]);
    assert_eq!(records[1].actions, vec![(0, B1), (1, B1), (2, B1)]);
}

#[test]
fn a_run_from_tick_zero_is_refused() {
    let mut r = trivial();
    r.config.start_time = 0;
    r.config.end_time = 3;
    assert_eq!(r.config.check(), Err(Error::TickOutOfRange { time: 0 }));
    let before = r.serialize_agents();
    assert_eq!(r.try_run(), Err(Error::TickOutOfRange { time: 0 }));
    assert_eq!(r.serialize_agents(), before);
    // what was supplied for tick 0 is still there
    assert_eq!(r.config.agents[0].get_activation(0, 0), Some(ONE / 2));
}

#[test]
fn a_run_without_the_row_before_its_first_tick_is_refused() {
    let mut r = trivial();
    r.config.start_time = 2;
    r.config.end_time = 3;
    assert_eq!(
        r.config.check(),
        Err(Error::MissingActivation { agent: A, time: 1, belief: Q })
    );
    assert_eq!(
        r.try_run(),
        Err(Error::MissingActivation { agent: A, time: 1, belief: Q })
    );
    assert_eq!(r.config.agents[0].get_activation(2, 0), None);
}

#[test]
fn the_first_agent_and_belief_without_an_activation_are_named() {
    let mut config = crowd();
    assert_eq!(config.check(), Ok(()));
    config.agents[3].set_activation(0, 1, None).unwrap();
    config.agents[1].set_activation(0, 1, None).unwrap();
    config.agents[1].set_activation(0, 0, None).unwrap();
    config.agents[4].set_activation(0, 0, None).unwrap();
    assert_eq!(
        config.check(),
        Err(Error::MissingActivation { agent: A + 1, time: 0, belief: Q })
    );
    config.agents[1].set_activation(0, 0, Some(0)).unwrap();
    assert_eq!(
        config.check(),
        Err(Error::MissingActivation { agent: A + 1, time: 0, belief: Q + 1 })
    );
}

#[test]
fn an_empty_interval_can_always_be_run() {
    let mut r = trivial();
    r.config.start_time = 5;
    r.config.end_time = 4;
    assert_eq!(r.config.check(), Ok(()));
    let before = r.serialize_agents();
    assert_eq!(r.try_run(), Ok(before));
    r.config.start_time = 0;
    r.config.end_time = 0;
    assert_eq!(r.config.check(), Err(Error::TickOutOfRange { time: 0 }));
}

#[test]
fn a_checked_run_is_a_run() {
    let mut r = pressured(800_000_000, &[F, G]);
    let records = r.try_run().unwrap();
    assert_eq!(r.config.agents[0].get_activation(1, 0), Some(ONE));
    assert_eq!(records, r.serialize_agents());
}

#[test]
fn phases_follow_one_another() {
    let draws: Vec<Vec<i64>> = (0..4).map(|_| vec![0; 5]).collect();
    let mut whole = Runner { config: crowd() };
    whole.tick_between_with(1, 4, &draws);

    let mut r = Runner { config: crowd() };
    assert_eq!(r.config.check(), Ok(()));
    let mut phase = Phase::Initialised;
    let mut seen = Vec::new();
    while phase != Phase::Done {
        seen.push(phase);
        if phase == Phase::Acting(2) {
            // every agent has perceived in tick 2 and none has acted in it
            for agent in r.config.agents.iter() {
                assert!(agent.get_activation(2, 0).is_some());
                assert!(agent.get_activation(2, 1).is_some());
                assert_eq!(agent.get_action(2), None);
            }
        }
        phase = r.advance(phase);
    }
    assert_eq!(
        seen,
        vec![
            Phase::Initialised,
            Phase::Perceiving(1),
            Phase::Acting(1),
            Phase::Perceiving(2),
            Phase::Acting(2),
            Phase::Perceiving(3),
            Phase::Acting(3),
            Phase::Perceiving(4),
            Phase::Acting(4),
            Phase::Finalising,
        ]
    );
    assert_eq!(r.advance(Phase::Done), Phase::Done);
    for j in 0..5 {
        for t in 1..=4 {
            for b in 0..2 {
                assert!(r.config.agents[j].get_activation(t, b).is_some());
            }
            assert!(r.config.agents[j].get_action(t).unwrap() < 2);
        }
        // what is perceived in tick 1 does not depend on the draws
        for b in 0..2 {
            assert_eq!(
                r.config.agents[j].get_activation(1, b),
                whole.config.agents[j].get_activation(1, b)
            );
        }
    }
}

#[test]
fn phases_of_an_empty_interval() {
    let mut r = trivial();
    r.config.start_time = 2;
    r.config.end_time = 1;
    assert_eq!(r.advance(Phase::Initialised), Phase::Finalising);
    assert_eq!(r.advance(Phase::Finalising), Phase::Done);
    assert_eq!(r.config.agents[0].get_action(1), None);
}
