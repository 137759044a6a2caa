use belief_sim::entity::BasicAgent;
use belief_sim::fixed::ONE;
use belief_sim::performance_relationships::PerformanceRelationships;
use belief_sim::select::{
    behaviour_scores, choose_behaviour, needs_draw, score_behaviour, survey, SCORE_LIMIT,
};

#[test]
fn survey_finds_the_last_maximum() {
    let s = survey(&vec![3, 9, -2, 9, 0]);
    assert_eq!(s.best, 3);
    assert_eq!(s.positives, 3);
    assert_eq!(s.total, 21);
    assert_eq!(s.last, 3);
    let t = survey(&vec![-5, -1, -1, -7]);
    assert_eq!(t.best, 2);
    assert_eq!(t.positives, 0);
    assert_eq!(t.total, 0);
    let u = survey(&vec![0]);
    assert_eq!(u.best, 0);
    assert_eq!(u.positives, 0);
}

#[test]
fn nonpositive_scores_choose_the_largest_whatever_the_draw() {
    let scores = vec![-30, -10, -20];
    assert!(!needs_draw(&scores));
    assert_eq!(choose_behaviour(&scores, 0), 1);
    assert_eq!(choose_behaviour(&scores, ONE - 1), 1);
    assert_eq!(choose_behaviour(&scores, ONE / 2), 1);
    let zeros = vec![0, 0, 0];
    assert_eq!(choose_behaviour(&zeros, 0), 2);
    assert_eq!(choose_behaviour(&zeros, ONE - 1), 2);
    let mixed = vec![-1, 0, -3];
    assert_eq!(choose_behaviour(&mixed, 123), 1);
}

#[test]
fn a_single_positive_score_is_chosen_whatever_the_draw() {
    let scores = vec![-30, 5, 0, -20];
    assert!(!needs_draw(&scores));
    assert_eq!(choose_behaviour(&scores, 0), 1);
    assert_eq!(choose_behaviour(&scores, ONE - 1), 1);
    assert_eq!(choose_behaviour(&vec![7], 999), 0);
}

#[test]
fn several_positive_scores_are_sampled_by_share() {
    let scores = vec![250, -5, 750];
    assert!(needs_draw(&scores));
    assert_eq!(choose_behaviour(&scores, 0), 0);
    assert_eq!(choose_behaviour(&scores, 250_000_000), 0);
    assert_eq!(choose_behaviour(&scores, 250_000_001), 2);
    assert_eq!(choose_behaviour(&scores, ONE - 1), 2);
}

#[test]
fn rounding_falls_back_to_the_last_positive() {
    // three equal shares of 0.333333333 leave one billionth over
    let scores = vec![1, 1, 1, -4];
    assert_eq!(choose_behaviour(&scores, 333_333_333), 0);
    assert_eq!(choose_behaviour(&scores, 666_666_666), 1);
    assert_eq!(choose_behaviour(&scores, 999_999_999), 2);
    // a draw beyond the range still ends at the last positive score
    assert_eq!(choose_behaviour(&scores, ONE), 2);
    assert_eq!(choose_behaviour(&scores, i64::MAX), 2);
}

#[test]
fn scores_at_the_limit_do_not_overflow() {
    let scores = vec![SCORE_LIMIT, SCORE_LIMIT, -SCORE_LIMIT];
    assert_eq!(choose_behaviour(&scores, ONE / 2), 0);
    assert_eq!(choose_behaviour(&scores, ONE / 2 + 1), 1);
    let s = survey(&scores);
    assert_eq!(s.total, 2 * SCORE_LIMIT);
}

#[test]
fn score_sums_weight_times_activation() {
    let mut prs = PerformanceRelationships::new();
    prs.set(0, 0, 2 * ONE);
    prs.set(1, 0, -ONE);
    prs.set(1, 1, ONE / 2);
    prs.set(5, 1, ONE);
    let mut a = BasicAgent::new_with_uuid(1);
    a.set_activation(3, 0, Some(ONE / 2)).unwrap();
    a.set_activation(3, 1, Some(-ONE)).unwrap();
    a.set_activation(3, 2, Some(ONE)).unwrap();
    // 2 * 0.5 + -1 * -1 + 0
    assert_eq!(score_behaviour(&prs, &a, 3, 0, 3), 2 * ONE as i128);
    // 0 + 0.5 * -1 + 0
    assert_eq!(score_behaviour(&prs, &a, 3, 1, 3), -(ONE as i128) / 2);
    assert_eq!(score_behaviour(&prs, &a, 3, 2, 3), 0);
    // only the first belief counts
    assert_eq!(score_behaviour(&prs, &a, 3, 0, 1), ONE as i128);
    // nothing is held at tick 4
    assert_eq!(score_behaviour(&prs, &a, 4, 0, 3), 0);
    assert_eq!(
        behaviour_scores(&prs, &a, 3, 3, 3),
        vec![2 * ONE as i128, -(ONE as i128) / 2, 0]
    );
    assert_eq!(behaviour_scores(&prs, &a, 3, 0, 3), Vec::<i128>::new());
}
