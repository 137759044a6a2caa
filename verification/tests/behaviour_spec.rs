use belief_sim::json::BehaviourSpec;
use uuid::Uuid;

#[test]
fn to_basic_behaviour_works() {
    let u = Uuid::new_v4();
    let bi = BehaviourSpec {
        name: "b1".to_string(),
        uuid: u.as_u128(),
    };
    let bo = bi.to_basic_behaviour();
    assert_eq!(bo.name(), "b1");
    assert_eq!(bo.uuid(), u.as_u128());
}
