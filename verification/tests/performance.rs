use belief_sim::entity::{BasicBehaviour, BasicBelief};
use belief_sim::error::Error;
use belief_sim::index::IdIndex;
use belief_sim::json::PerformanceRelationshipSpec;
use belief_sim::performance_relationships::{
    duplicate_keys, vec_prs_to_performance_relationships, PerformanceRelationships,
};

#[test]
fn test_vec_prs_to_performance_relationships_works() {
    let mut prss: Vec<PerformanceRelationshipSpec> = Vec::new();
    let belief = BasicBelief::new("b1".to_string());
    let behaviour = BasicBehaviour::new("b1".to_string());
    prss.push(PerformanceRelationshipSpec {
        behaviour_uuid: behaviour.uuid(),
        belief_uuid: belief.uuid(),
        value: 200_000_000,
    });
    let beliefs = IdIndex::build(&vec![belief.uuid()]).unwrap();
    let behaviours = IdIndex::build(&vec![behaviour.uuid()]).unwrap();

    let result = vec_prs_to_performance_relationships(&prss, &beliefs, &behaviours).unwrap();
    assert_eq!(result.len(), 1);
    assert_eq!(result.get(0, 0).unwrap(), 200_000_000)
}

#[test]
fn prs_unknown_behaviour_is_unresolved() {
    let beliefs = IdIndex::build(&vec![10]).unwrap();
    let behaviours = IdIndex::build(&vec![20]).unwrap();
    let prss = vec![
        PerformanceRelationshipSpec { behaviour_uuid: 20, belief_uuid: 10, value: 5 },
        PerformanceRelationshipSpec { behaviour_uuid: 21, belief_uuid: 10, value: 6 },
    ];
    let r = vec_prs_to_performance_relationships(&prss, &beliefs, &behaviours);
    assert!(matches!(
        r,
        Err(Error::UnresolvedReference { referrer: 10, target: 21 })
    ));
}

#[test]
fn prs_unknown_belief_is_unresolved() {
    let beliefs = IdIndex::build(&vec![10]).unwrap();
    let behaviours = IdIndex::build(&vec![20]).unwrap();
    let prss = vec![PerformanceRelationshipSpec { behaviour_uuid: 20, belief_uuid: 11, value: 5 }];
    let r = vec_prs_to_performance_relationships(&prss, &beliefs, &behaviours);
    assert!(matches!(
        r,
        Err(Error::UnresolvedReference { referrer: 20, target: 11 })
    ));
}

#[test]
fn prs_duplicate_takes_last() {
    let beliefs = IdIndex::build(&vec![10, 11]).unwrap();
    let behaviours = IdIndex::build(&vec![20, 21]).unwrap();
    let prss = vec![
        PerformanceRelationshipSpec { behaviour_uuid: 20, belief_uuid: 10, value: 1 },
        PerformanceRelationshipSpec { behaviour_uuid: 21, belief_uuid: 11, value: 2 },
        PerformanceRelationshipSpec { behaviour_uuid: 20, belief_uuid: 10, value: 3 },
        PerformanceRelationshipSpec { behaviour_uuid: 20, belief_uuid: 11, value: 4 },
        PerformanceRelationshipSpec { behaviour_uuid: 20, belief_uuid: 10, value: 5 },
    ];
    let table = vec_prs_to_performance_relationships(&prss, &beliefs, &behaviours).unwrap();
    assert_eq!(table.len(), 3);
    assert_eq!(table.get(0, 0), Some(5));
    assert_eq!(table.get(1, 1), Some(2));
    assert_eq!(table.get(1, 0), Some(4));
    assert_eq!(table.get(0, 1), None);
    assert_eq!(duplicate_keys(&prss), vec![2, 4]);
}

#[test]
fn prs_no_duplicates_no_warnings() {
    let prss = vec![
        PerformanceRelationshipSpec { behaviour_uuid: 20, belief_uuid: 10, value: 1 },
        PerformanceRelationshipSpec { behaviour_uuid: 20, belief_uuid: 11, value: 1 },
    ];
    assert_eq!(duplicate_keys(&prss), Vec::<usize>::new());
    assert_eq!(duplicate_keys(&Vec::new()), Vec::<usize>::new());
}

#[test]
fn prs_set_returns_previous() {
    let mut table = PerformanceRelationships::new();
    assert_eq!(table.len(), 0);
    assert_eq!(table.set(3, 4, 7), None);
    assert_eq!(table.set(3, 4, 9), Some(7));
    assert_eq!(table.set(3, 5, -1), None);
    assert_eq!(table.get(3, 4), Some(9));
    assert_eq!(table.get(3, 5), Some(-1));
    assert_eq!(table.get(4, 4), None);
    assert_eq!(table.len(), 2);
}
