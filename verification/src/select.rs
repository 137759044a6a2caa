//! The action selector: which behaviour an agent performs, given how much
//! each behaviour would please it.

use crate::entity::{all_in_unit, row_at, BasicAgent, SimTime};
use crate::fixed::{
    div_toward_zero, div_trunc, fx_mul, in_unit, lemma_div_trunc_bound, lemma_div_trunc_sign,
    mul_fixed, ONE,
};
use crate::kernel::value_or_zero;
use crate::performance_relationships::PerformanceRelationships;
use vstd::prelude::*;

verus! {

/// No score is larger in magnitude than this: `2^32` beliefs, each adding at
/// most `2^63`.
pub const SCORE_LIMIT: i128 = 0x8000_0000_0000_0000_0000_0000;

/// Every score lies within [`SCORE_LIMIT`].
pub open spec fn scores_bounded(s: Seq<i128>) -> bool {
    forall|i: int| 0 <= i < s.len() ==> -SCORE_LIMIT <= #[trigger] s[i] <= SCORE_LIMIT
}

/// The index of the largest score; of several equal ones, the last. This is
/// the tail of the scores once they are sorted in ascending order by a sort
/// that keeps equal scores in place.
pub open spec fn last_max(s: Seq<i128>) -> int
    decreases s.len(),
{
    if s.len() <= 1 {
        0
    } else {
        let m = last_max(s.drop_last());
        if s.last() >= s[m] {
            s.len() - 1
        } else {
            m
        }
    }
}

/// How many scores are strictly positive.
pub open spec fn count_positive(s: Seq<i128>) -> nat
    decreases s.len(),
{
    if s.len() == 0 {
        0
    } else {
        count_positive(s.drop_last()) + (if s.last() > 0 {
            1nat
        } else {
            0nat
        })
    }
}

/// The sum of the strictly positive scores.
pub open spec fn positive_total(s: Seq<i128>) -> int
    decreases s.len(),
{
    if s.len() == 0 {
        0
    } else {
        positive_total(s.drop_last()) + (if s.last() > 0 {
            s.last() as int
        } else {
            0
        })
    }
}

/// The index of the last strictly positive score (zero if there is none).
pub open spec fn last_positive(s: Seq<i128>) -> int
    decreases s.len(),
{
    if s.len() == 0 {
        0
    } else if s.last() > 0 {
        s.len() - 1
    } else {
        last_positive(s.drop_last())
    }
}

/// The probability of a positive score `p` among scores that sum to `total`.
pub open spec fn share(p: int, total: int) -> int {
    div_trunc(p * ONE, total)
}

/// Walks the positive scores from index `i` on, in order, taking the share of
/// each from `rest`, and stops at the first where nothing is left. If
/// rounding leaves something after the last one, that last one is taken.
pub open spec fn walk(s: Seq<i128>, total: int, i: int, rest: int) -> int
    decreases s.len() - i,
{
    if i < 0 || i >= s.len() {
        last_positive(s)
    } else if s[i] > 0 {
        let left = rest - share(s[i] as int, total);
        if left <= 0 {
            i
        } else {
            walk(s, total, i + 1, left)
        }
    } else {
        walk(s, total, i + 1, rest)
    }
}

/// Whether the choice among scores `s` is left to chance: it is when more
/// than one of them is positive.
pub open spec fn by_chance(s: Seq<i128>) -> bool {
    count_positive(s) >= 2
}

/// The index of the behaviour that is chosen for scores `s` and a draw `u`
/// from `[0, 1)`.
///
/// If no score is positive, the largest one wins. If exactly one is, it
/// wins. Otherwise each positive score wins with the probability of its
/// share of their sum.
pub open spec fn chosen(s: Seq<i128>, u: int) -> int {
    if by_chance(s) {
        walk(s, positive_total(s), 0, u)
    } else {
        last_max(s)
    }
}

/// The largest score is at `last_max`, and any equal to it stands before.
pub proof fn lemma_last_max(s: Seq<i128>)
    requires
        s.len() > 0,
    ensures
        0 <= last_max(s) < s.len(),
        forall|i: int| 0 <= i < s.len() ==> #[trigger] s[i] <= s[last_max(s)],
        forall|i: int| last_max(s) < i < s.len() ==> #[trigger] s[i] < s[last_max(s)],
    decreases s.len(),
{
    if s.len() > 1 {
        let t = s.drop_last();
        lemma_last_max(t);
        assert(forall|i: int| 0 <= i < t.len() ==> t[i] == s[i]);
    }
}

/// Counts and sums of positive scores, and where the last of them stands.
pub proof fn lemma_positive(s: Seq<i128>)
    requires
        scores_bounded(s),
    ensures
        count_positive(s) <= s.len(),
        0 <= positive_total(s) <= count_positive(s) * SCORE_LIMIT,
        count_positive(s) == 0 <==> forall|i: int| 0 <= i < s.len() ==> #[trigger] s[i] <= 0,
        count_positive(s) > 0 ==> 0 <= last_positive(s) < s.len() && s[last_positive(s)] > 0,
        forall|i: int| 0 <= i < s.len() && #[trigger] s[i] > 0 ==> s[i] <= positive_total(s),
        count_positive(s) > 0 ==> positive_total(s) > 0,
    decreases s.len(),
{
    if s.len() > 0 {
        let t = s.drop_last();
        assert(forall|i: int| 0 <= i < t.len() ==> t[i] == s[i]);
        lemma_positive(t);
        let c = count_positive(t);
        assert((c + 1) * SCORE_LIMIT == c * SCORE_LIMIT + SCORE_LIMIT) by (nonlinear_arith);
        if count_positive(s) == 0 {
            assert forall|i: int| 0 <= i < s.len() implies #[trigger] s[i] <= 0 by {
                if i < t.len() {
                    assert(t[i] <= 0);
                }
            }
        }
    }
}

/// With a single positive score, that score is the largest.
pub proof fn lemma_single_positive(s: Seq<i128>)
    requires
        scores_bounded(s),
        count_positive(s) == 1,
    ensures
        s[last_max(s)] > 0,
        forall|i: int| 0 <= i < s.len() && i != last_max(s) ==> #[trigger] s[i] <= 0,
    decreases s.len(),
{
    lemma_positive(s);
    lemma_last_max(s);
    let t = s.drop_last();
    assert(forall|i: int| 0 <= i < t.len() ==> t[i] == s[i]);
    lemma_positive(t);
    if s.last() > 0 {
        assert(count_positive(t) == 0);
        if t.len() > 0 {
            lemma_last_max(t);
        }
    } else {
        lemma_single_positive(t);
        lemma_last_max(t);
    }
}

/// A walk ends at a positive score.
pub proof fn lemma_walk(s: Seq<i128>, total: int, i: int, rest: int)
    requires
        scores_bounded(s),
        count_positive(s) > 0,
        0 <= i,
    ensures
        0 <= walk(s, total, i, rest) < s.len(),
        s[walk(s, total, i, rest)] > 0,
    decreases s.len() - i,
{
    lemma_positive(s);
    if i < s.len() {
        if s[i] > 0 {
            let left = rest - share(s[i] as int, total);
            if left > 0 {
                lemma_walk(s, total, i + 1, left);
            }
        } else {
            lemma_walk(s, total, i + 1, rest);
        }
    }
}

/// Whatever is drawn, the chosen behaviour is one of those scored, and none
/// with a positive score is passed over for one without.
pub proof fn lemma_chosen_in_range(s: Seq<i128>, u: int)
    requires
        scores_bounded(s),
        s.len() > 0,
    ensures
        0 <= chosen(s, u) < s.len(),
        count_positive(s) > 0 ==> s[chosen(s, u)] > 0,
{
    lemma_last_max(s);
    lemma_positive(s);
    if by_chance(s) {
        lemma_walk(s, positive_total(s), 0, u);
    } else if count_positive(s) == 1 {
        lemma_single_positive(s);
    }
}

/// Where no score is positive the draw does not matter: the behaviour with
/// the largest score is chosen, the last of them if several are equal.
pub proof fn lemma_nonpositive_choice(s: Seq<i128>, u: int, v: int)
    requires
        scores_bounded(s),
        s.len() > 0,
        forall|i: int| 0 <= i < s.len() ==> #[trigger] s[i] <= 0,
    ensures
        !by_chance(s),
        chosen(s, u) == chosen(s, v),
        chosen(s, u) == last_max(s),
        forall|i: int| 0 <= i < s.len() ==> #[trigger] s[i] <= s[chosen(s, u)],
{
    lemma_positive(s);
    lemma_last_max(s);
}

/// Where exactly one score is positive the draw does not matter either: that
/// behaviour is chosen.
pub proof fn lemma_single_choice(s: Seq<i128>, u: int, v: int)
    requires
        scores_bounded(s),
        count_positive(s) == 1,
    ensures
        !by_chance(s),
        chosen(s, u) == chosen(s, v),
        s[chosen(s, u)] > 0,
        forall|i: int| 0 <= i < s.len() && i != chosen(s, u) ==> #[trigger] s[i] <= 0,
{
    lemma_single_positive(s);
}

/// What the selector learns from one pass over the scores.
#[derive(Debug, Clone, Copy, PartialEq, Eq)]
pub struct Survey {
    /// Index of the largest score, the last of several equal ones.
    pub best: u32,
    /// Number of strictly positive scores.
    pub positives: u32,
    /// Sum of the strictly positive scores.
    pub total: i128,
    /// Index of the last strictly positive score.
    pub last: u32,
}

/// Looks over the scores once.
pub fn survey(scores: &Vec<i128>) -> (r: Survey)
    requires
        0 < scores@.len() <= u32::MAX,
        scores_bounded(scores@),
    ensures
        r.best == last_max(scores@),
        r.positives == count_positive(scores@),
        r.total == positive_total(scores@),
        r.last == last_positive(scores@),
{
    let n = scores.len();
    let mut best: usize = 0;
    let mut positives: u32 = 0;
    let mut total: i128 = 0;
    let mut last: usize = 0;
    let mut i: usize = 0;
    proof {
        assert(scores@.take(0).len() == 0);
    }
    while i < n
        invariant
            i <= n,
            n == scores@.len(),
            n <= u32::MAX,
            scores_bounded(scores@),
            best == last_max(scores@.take(i as int)),
            i > 0 ==> best < i,
            i == 0 ==> best == 0,
            positives == count_positive(scores@.take(i as int)),
            total == positive_total(scores@.take(i as int)),
            last == last_positive(scores@.take(i as int)),
            last <= i,
        decreases n - i,
    {
        proof {
            let before = scores@.take(i as int);
            let after = scores@.take(i + 1);
            assert(after.drop_last() =~= before);
            assert(after.last() == scores@[i as int]);
            assert(forall|j: int| 0 <= j < before.len() ==> before[j] == scores@[j]);
            assert(forall|j: int| 0 <= j < after.len() ==> after[j] == scores@[j]);
            lemma_positive(before);
            lemma_positive(after);
            if i > 0 {
                lemma_last_max(before);
            }
            assert(count_positive(after) * SCORE_LIMIT <= 0xffff_ffff * SCORE_LIMIT)
                by (nonlinear_arith)
                requires
                    count_positive(after) <= 0xffff_ffff,
            ;
        }
        let x = scores[i];
        if i == 0 || x >= scores[best] {
            best = i;
        }
        if x > 0 {
            positives = positives + 1;
            total = total + x;
            last = i;
        }
        i = i + 1;
    }
    proof {
        assert(scores@.take(n as int) =~= scores@);
        lemma_last_max(scores@);
        lemma_positive(scores@);
    }
    Survey { best: best as u32, positives, total, last: last as u32 }
}

/// Whether the choice among `scores` is left to chance.
pub fn needs_draw(scores: &Vec<i128>) -> (b: bool)
    requires
        0 < scores@.len() <= u32::MAX,
        scores_bounded(scores@),
    ensures
        b == by_chance(scores@),
{
    survey(scores).positives >= 2
}

/// Chooses a behaviour for `scores` and a draw `u`.
pub fn choose_behaviour(scores: &Vec<i128>, u: i64) -> (b: u32)
    requires
        0 < scores@.len() <= u32::MAX,
        scores_bounded(scores@),
    ensures
        b == chosen(scores@, u as int),
        b < scores@.len(),
{
    proof {
        lemma_chosen_in_range(scores@, u as int);
        lemma_positive(scores@);
    }
    let found = survey(scores);
    if found.positives < 2 {
        return found.best;
    }
    let total = found.total;
    let n = scores.len();
    let mut rest: i128 = u as i128;
    let mut i: usize = 0;
    while i < n
        invariant
            i <= n,
            n == scores@.len(),
            n <= u32::MAX,
            scores_bounded(scores@),
            total == positive_total(scores@),
            total > 0,
            count_positive(scores@) >= 2,
            u - i * ONE <= rest <= u,
            walk(scores@, total as int, 0, u as int) == walk(scores@, total as int, i as int, rest as int),
        decreases n - i,
    {
        let p = scores[i];
        if p > 0 {
            proof {
                lemma_positive(scores@);
                assert(0 <= p * ONE <= SCORE_LIMIT * ONE) by (nonlinear_arith)
                    requires
                        0 < p <= SCORE_LIMIT,
                ;
                assert(p * ONE <= ONE * total) by (nonlinear_arith)
                    requires
                        0 < p <= total,
                ;
                lemma_div_trunc_bound(p * ONE, total as int, ONE as int);
                lemma_div_trunc_sign(p * ONE, total as int);
            }
            let q = div_toward_zero(p * (ONE as i128), total);
            let left = rest - q;
            if left <= 0 {
                return i as u32;
            }
            rest = left;
        }
        proof {
            assert((i + 1) * ONE == i * ONE + ONE) by (nonlinear_arith);
        }
        i = i + 1;
    }
    found.last
}

/// The weight of the pair in `weights`; zero where it has none.
pub open spec fn weight_or_zero(weights: Map<u32, Map<u32, i64>>, belief: u32, behaviour: u32) -> int {
    value_or_zero(row_at(weights, belief), behaviour)
}

/// The score of `behaviour`: the sum, over the beliefs `0 .. n`, of the
/// weight of the pair times the activation of the belief in `row`.
pub open spec fn score(
    weights: Map<u32, Map<u32, i64>>,
    row: Map<u32, i64>,
    behaviour: u32,
    n: nat,
) -> int
    decreases n,
{
    if n == 0 {
        0
    } else {
        score(weights, row, behaviour, (n - 1) as nat) + fx_mul(
            weight_or_zero(weights, (n - 1) as u32, behaviour),
            value_or_zero(row, (n - 1) as u32),
        )
    }
}

/// The scores of the behaviours `0 .. behaviours`.
pub open spec fn scores(
    weights: Map<u32, Map<u32, i64>>,
    row: Map<u32, i64>,
    behaviours: nat,
    beliefs: nat,
) -> Seq<i128> {
    Seq::new(behaviours, |h: int| score(weights, row, h as u32, beliefs) as i128)
}

/// A score is bounded by the number of beliefs that add to it.
pub proof fn lemma_score_bound(
    weights: Map<u32, Map<u32, i64>>,
    row: Map<u32, i64>,
    behaviour: u32,
    n: nat,
)
    requires
        all_in_unit(row),
        n <= u32::MAX,
    ensures
        -(n * 0x8000_0000_0000_0000) <= score(weights, row, behaviour, n) <= n
            * 0x8000_0000_0000_0000,
        -SCORE_LIMIT <= score(weights, row, behaviour, n) <= SCORE_LIMIT,
    decreases n,
{
    let big = 0x8000_0000_0000_0000int;
    if n > 0 {
        lemma_score_bound(weights, row, behaviour, (n - 1) as nat);
        let w = weight_or_zero(weights, (n - 1) as u32, behaviour);
        let a = value_or_zero(row, (n - 1) as u32);
        assert(-(big * ONE) <= w * a <= big * ONE) by (nonlinear_arith)
            requires
                -big <= w <= big,
                -ONE <= a <= ONE,
        ;
        lemma_div_trunc_bound(w * a, ONE as int, big);
        assert(n * big == (n - 1) * big + big) by (nonlinear_arith);
    }
    assert(n * big <= SCORE_LIMIT) by (nonlinear_arith)
        requires
            n <= 0xffff_ffff,
            big == 0x8000_0000_0000_0000int,
    ;
}

/// All scores lie within [`SCORE_LIMIT`].
pub proof fn lemma_scores_bounded(
    weights: Map<u32, Map<u32, i64>>,
    row: Map<u32, i64>,
    behaviours: nat,
    beliefs: nat,
)
    requires
        all_in_unit(row),
        beliefs <= u32::MAX,
    ensures
        scores_bounded(scores(weights, row, behaviours, beliefs)),
        scores(weights, row, behaviours, beliefs).len() == behaviours,
{
    let s = scores(weights, row, behaviours, beliefs);
    assert forall|i: int| 0 <= i < s.len() implies -SCORE_LIMIT <= #[trigger] s[i]
        <= SCORE_LIMIT by {
        lemma_score_bound(weights, row, i as u32, beliefs);
    }
}

/// The score of `behaviour` for `agent` at tick `time`, among `n` beliefs.
pub fn score_behaviour(
    prs: &PerformanceRelationships,
    agent: &BasicAgent,
    time: SimTime,
    behaviour: u32,
    n: u32,
) -> (s: i128)
    requires
        prs.wf(),
        agent.wf(),
    ensures
        s == score(prs.weights(), row_at(agent.rows(), time), behaviour, n as nat),
        -SCORE_LIMIT <= s <= SCORE_LIMIT,
{
    let ghost weights = prs.weights();
    let ghost row = row_at(agent.rows(), time);
    proof {
        assert(agent.rows().dom().contains(time) ==> all_in_unit(agent.rows()[time]));
        lemma_score_bound(weights, row, behaviour, n as nat);
    }
    let mut sum: i128 = 0;
    let mut belief: u32 = 0;
    while belief < n
        invariant
            belief <= n,
            prs.wf(),
            agent.wf(),
            weights == prs.weights(),
            row == row_at(agent.rows(), time),
            all_in_unit(row),
            sum == score(weights, row, behaviour, belief as nat),
        decreases n - belief,
    {
        proof {
            lemma_score_bound(weights, row, behaviour, belief as nat);
            lemma_score_bound(weights, row, behaviour, (belief + 1) as nat);
        }
        let w: i64 = match prs.get(belief, behaviour) {
            Some(v) => v,
            None => 0,
        };
        let a: i64 = match agent.get_activation(time, belief) {
            Some(v) => v,
            None => 0,
        };
        let term = mul_fixed(w, a);
        sum = sum + term;
        belief = belief + 1;
    }
    sum
}

/// The scores of all `behaviours` for `agent` at tick `time`.
pub fn behaviour_scores(
    prs: &PerformanceRelationships,
    agent: &BasicAgent,
    time: SimTime,
    behaviours: u32,
    beliefs: u32,
) -> (v: Vec<i128>)
    requires
        prs.wf(),
        agent.wf(),
    ensures
        v@ == scores(
            prs.weights(),
            row_at(agent.rows(), time),
            behaviours as nat,
            beliefs as nat,
        ),
        scores_bounded(v@),
{
    let ghost weights = prs.weights();
    let ghost row = row_at(agent.rows(), time);
    let mut v: Vec<i128> = Vec::new();
    let mut h: u32 = 0;
    while h < behaviours
        invariant
            h <= behaviours,
            prs.wf(),
            agent.wf(),
            weights == prs.weights(),
            row == row_at(agent.rows(), time),
            v@.len() == h,
            forall|i: int| 0 <= i < h ==> #[trigger] v@[i] == score(
                weights,
                row,
                i as u32,
                beliefs as nat,
            ) as i128,
            scores_bounded(v@),
        decreases behaviours - h,
    {
        let s = score_behaviour(prs, agent, time, h, beliefs);
        v.push(s);
        h = h + 1;
    }
    assert(v@ =~= scores(weights, row, behaviours as nat, beliefs as nat));
    v
}

} // verus!
