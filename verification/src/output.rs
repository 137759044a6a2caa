//! A summary of a run, tick by tick: how strongly the population holds each
//! belief, and how many agents perform each behaviour.

use crate::entity::{
    behaviour_ids, belief_ids, ids_of_behaviours, ids_of_beliefs, lookup, BasicAgent,
    BasicBehaviour, BasicBelief, SimTime,
};
use crate::fixed::{
    div_toward_zero, div_trunc, fx_mul, in_unit, lemma_div_trunc_bound, lemma_div_trunc_sign,
    mul_fixed, ONE,
};
use vstd::prelude::*;

verus! {

/// `r` is the square root of `x`, rounded down.
pub open spec fn is_root(x: int, r: int) -> bool {
    0 <= r && r * r <= x < (r + 1) * (r + 1)
}

/// The square root of `x`, rounded down.
pub fn isqrt(x: u64) -> (r: u64)
    ensures
        is_root(x as int, r as int),
{
    let mut lo: u64 = 0;
    let mut hi: u64 = 0x1_0000_0000;
    while hi - lo > 1
        invariant
            lo < hi <= 0x1_0000_0000,
            lo * lo <= x < hi * hi,
        decreases hi - lo,
    {
        let mid: u64 = lo + (hi - lo) / 2;
        assert(mid * mid <= 0x1_0000_0000 * 0x1_0000_0000) by (nonlinear_arith)
            requires
                0 <= mid <= 0x1_0000_0000,
        ;
        if (mid as u128) * (mid as u128) <= x as u128 {
            lo = mid;
        } else {
            hi = mid;
        }
    }
    lo
}

/// A number has one square root rounded down.
pub proof fn lemma_root_unique(x: int, r: int, q: int)
    requires
        is_root(x, r),
        is_root(x, q),
    ensures
        r == q,
{
    if r < q {
        assert((r + 1) * (r + 1) <= q * q) by (nonlinear_arith)
            requires
                0 <= r + 1 <= q,
        ;
    }
    if q < r {
        assert((q + 1) * (q + 1) <= r * r) by (nonlinear_arith)
            requires
                0 <= q + 1 <= r,
        ;
    }
}

/// The square root of `x`, rounded down.
pub open spec fn root_of(x: int) -> int {
    choose|r: int| is_root(x, r)
}

/// `s` ascends.
pub open spec fn ascending(s: Seq<i64>) -> bool {
    forall|i: int, j: int| 0 <= i < j < s.len() ==> s[i] <= s[j]
}

/// The order by which values are sorted.
pub open spec fn at_most() -> spec_fn(i64, i64) -> bool {
    |a: i64, b: i64| a <= b
}

/// Sorts `v` in ascending order.
///
/// Trusted: calls `sort_unstable` of the standard library's slices, which
/// rearranges the elements into ascending order: afterwards the slice holds
/// what it held, each value as often as before, and ascends.
#[verifier::external_body]
fn sort_ascending(v: &mut Vec<i64>)
    ensures
        final(v)@.to_multiset() == old(v)@.to_multiset(),
        ascending(final(v)@),
{
    v.sort_unstable();
}

/// How many agents hold something.
pub open spec fn holders(held: Seq<Option<i64>>) -> nat
    decreases held.len(),
{
    if held.len() == 0 {
        0
    } else {
        holders(held.drop_last()) + (if held.last().is_some() {
            1nat
        } else {
            0nat
        })
    }
}

/// How many agents hold something other than zero.
pub open spec fn nonzero(held: Seq<Option<i64>>) -> nat
    decreases held.len(),
{
    if held.len() == 0 {
        0
    } else {
        nonzero(held.drop_last()) + (if held.last() matches Some(v) && v != 0 {
            1nat
        } else {
            0nat
        })
    }
}

/// The sum of what is held.
pub open spec fn total(held: Seq<Option<i64>>) -> int
    decreases held.len(),
{
    if held.len() == 0 {
        0
    } else {
        total(held.drop_last()) + (match held.last() {
            Some(v) => v as int,
            None => 0,
        })
    }
}

/// The mean of what is held, over all agents, those who hold nothing
/// counting as zero.
pub open spec fn mean(held: Seq<Option<i64>>) -> int {
    div_trunc(total(held), held.len() as int)
}

/// The sum, over those who hold something, of the squared distance to `m`.
pub open spec fn squares(held: Seq<Option<i64>>, m: int) -> int
    decreases held.len(),
{
    if held.len() == 0 {
        0
    } else {
        squares(held.drop_last(), m) + (match held.last() {
            Some(v) => fx_mul(v - m, v - m),
            None => 0,
        })
    }
}

/// The variance of what is held about its mean, one degree of freedom taken
/// off.
pub open spec fn variance(held: Seq<Option<i64>>) -> int {
    div_trunc(squares(held, mean(held)), held.len() - 1)
}

/// What each agent holds, nothing counting as zero.
pub open spec fn values(held: Seq<Option<i64>>) -> Seq<i64> {
    Seq::new(
        held.len(),
        |j: int|
            match held[j] {
                Some(v) => v,
                None => 0i64,
            },
    )
}

/// The median of what is held: the value in the middle of the ascending
/// order, the upper of the two in the middle where the agents are even in
/// number.
pub open spec fn median(held: Seq<Option<i64>>) -> i64 {
    values(held).sort_by(at_most())[held.len() as int / 2]
}

/// Every value held lies in `[-1, 1]`.
pub open spec fn held_in_unit(held: Seq<Option<i64>>) -> bool {
    forall|j: int| 0 <= j < held.len() ==> (#[trigger] held[j] matches Some(v) ==> in_unit(v as int))
}

/// Sums and counts are bounded by the number of agents.
pub proof fn lemma_held_bounds(held: Seq<Option<i64>>, m: int)
    requires
        held_in_unit(held),
        in_unit(m),
    ensures
        holders(held) <= held.len(),
        nonzero(held) <= holders(held),
        -(ONE * held.len()) <= total(held) <= ONE * held.len(),
        0 <= squares(held, m) <= 4 * ONE * holders(held),
        held.len() > 0 ==> in_unit(mean(held)),
    decreases held.len(),
{
    if held.len() > 0 {
        let rest = held.drop_last();
        assert(forall|j: int| 0 <= j < rest.len() ==> rest[j] == held[j]);
        lemma_held_bounds(rest, m);
        assert(ONE * held.len() == ONE * rest.len() + ONE) by (nonlinear_arith)
            requires
                held.len() == rest.len() + 1,
        ;
        match held.last() {
            Some(v) => {
                assert(in_unit(v as int));
                let d = v - m;
                assert(0 <= d * d <= 4 * ONE * ONE) by (nonlinear_arith)
                    requires
                        -2 * ONE <= d <= 2 * ONE,
                ;
                lemma_div_trunc_bound(d * d, ONE as int, 4 * ONE);
                lemma_div_trunc_sign(d * d, ONE as int);
                assert(4 * ONE * holders(held) == 4 * ONE * holders(rest) + 4 * ONE)
                    by (nonlinear_arith)
                    requires
                        holders(held) == holders(rest) + 1,
                ;
            },
            None => {},
        }
        assert(ONE * held.len() == held.len() * ONE) by (nonlinear_arith);
        lemma_div_trunc_bound(total(held), held.len() as int, ONE as int);
    }
}

/// The standard deviation of what is held, in fixed point.
pub open spec fn deviation(held: Seq<Option<i64>>) -> int {
    root_of(variance(held) * ONE)
}

/// What the agents hold of one belief at one tick, in figures.
#[derive(Debug, Clone, Copy, PartialEq, Eq)]
pub struct BeliefStats {
    /// How many agents hold the belief at all.
    pub holders: usize,
    /// The mean activation over all agents.
    pub mean: i64,
    /// The standard deviation of the activation; none for fewer than two
    /// agents.
    pub sd: Option<i64>,
    /// The median activation.
    pub median: i64,
    /// How many agents hold the belief with an activation other than zero.
    pub nonzero: usize,
}

/// `s` are the figures of `held`.
pub open spec fn stats_of(held: Seq<Option<i64>>, s: BeliefStats) -> bool {
    &&& s.holders == holders(held)
    &&& s.nonzero == nonzero(held)
    &&& s.mean == mean(held)
    &&& s.median == median(held)
    &&& match s.sd {
        Some(sd) => held.len() >= 2 && sd == deviation(held) && is_root(
            variance(held) * ONE,
            sd as int,
        ),
        None => held.len() < 2,
    }
}

/// The figures of what a population of at least one agent holds.
pub fn belief_stats(held: &Vec<Option<i64>>) -> (s: BeliefStats)
    requires
        held@.len() > 0,
        held_in_unit(held@),
    ensures
        stats_of(held@, s),
{
    let n = held.len();
    let mut count: usize = 0;
    let mut other: usize = 0;
    let mut sum: i128 = 0;
    let mut sorted: Vec<i64> = Vec::new();
    let mut i: usize = 0;
    while i < n
        invariant
            i <= n,
            n == held@.len(),
            held_in_unit(held@),
            count == holders(held@.take(i as int)),
            other == nonzero(held@.take(i as int)),
            sum == total(held@.take(i as int)),
            sorted@ == values(held@.take(i as int)),
        decreases n - i,
    {
        proof {
            let before = held@.take(i as int);
            let after = held@.take(i + 1);
            assert(after.drop_last() =~= before);
            assert(after.last() == held@[i as int]);
            assert(forall|j: int| 0 <= j < before.len() ==> before[j] == held@[j]);
            assert(forall|j: int| 0 <= j < after.len() ==> after[j] == held@[j]);
            lemma_held_bounds(before, 0);
            lemma_held_bounds(after, 0);
            assert(ONE * after.len() <= ONE * usize::MAX) by (nonlinear_arith)
                requires
                    after.len() <= usize::MAX,
            ;
        }
        match held[i] {
            Some(v) => {
                count = count + 1;
                if v != 0 {
                    other = other + 1;
                }
                sum = sum + v as i128;
                sorted.push(v);
            },
            None => {
                sorted.push(0);
            },
        }
        proof {
            assert(sorted@ =~= values(held@.take(i + 1)));
        }
        i = i + 1;
    }
    proof {
        assert(held@.take(n as int) =~= held@);
        lemma_held_bounds(held@, 0);
    }
    let m = div_toward_zero(sum, n as i128);
    let m: i64 = m as i64;
    let ghost unsorted = sorted@;
    sort_ascending(&mut sorted);
    proof {
        let leq = at_most();
        assert(vstd::relations::total_ordering(leq));
        unsorted.lemma_sort_by_ensures(leq);
        assert(vstd::relations::sorted_by(sorted@, leq));
        vstd::seq_lib::lemma_sorted_unique(sorted@, unsorted.sort_by(leq), leq);
        unsorted.to_multiset_ensures();
        sorted@.to_multiset_ensures();
        assert(sorted@.len() == n);
    }
    let middle = sorted[n / 2];
    let sd = if n < 2 {
        None
    } else {
        let mut sq: i128 = 0;
        let mut j: usize = 0;
        while j < n
            invariant
                j <= n,
                n == held@.len(),
                held_in_unit(held@),
                in_unit(m as int),
                sq == squares(held@.take(j as int), m as int),
            decreases n - j,
        {
            proof {
                let before = held@.take(j as int);
                let after = held@.take(j + 1);
                assert(after.drop_last() =~= before);
                assert(after.last() == held@[j as int]);
                assert(forall|k: int| 0 <= k < before.len() ==> before[k] == held@[k]);
                assert(forall|k: int| 0 <= k < after.len() ==> after[k] == held@[k]);
                lemma_held_bounds(before, m as int);
                lemma_held_bounds(after, m as int);
                assert(4 * ONE * holders(after) <= 4 * ONE * usize::MAX) by (nonlinear_arith)
                    requires
                        holders(after) <= usize::MAX,
                ;
            }
            match held[j] {
                Some(v) => {
                    let d: i64 = v - m;
                    sq = sq + mul_fixed(d, d);
                },
                None => {},
            }
            j = j + 1;
        }
        proof {
            assert(held@.take(n as int) =~= held@);
            lemma_held_bounds(held@, m as int);
            assert(squares(held@, m as int) <= (8 * ONE) * (n - 1)) by (nonlinear_arith)
                requires
                    squares(held@, m as int) <= 4 * ONE * holders(held@),
                    holders(held@) <= n,
                    n >= 2,
            ;
            lemma_div_trunc_bound(squares(held@, m as int), n - 1, 8 * ONE);
            lemma_div_trunc_sign(squares(held@, m as int), n - 1);
        }
        let var = div_toward_zero(sq, (n - 1) as i128);
        assert(0 <= var * ONE <= 8_000_000_000_000_000_000) by (nonlinear_arith)
            requires
                0 <= var <= 8 * ONE,
                ONE == 1_000_000_000,
        ;
        let root = isqrt((var * ONE as i128) as u64);
        proof {
            assert(root * root <= 8 * ONE * ONE);
            assert(root <= 0x1_0000_0000) by (nonlinear_arith)
                requires
                    root * root <= 8_000_000_000_000_000_000,
                    root >= 0,
            ;
            lemma_root_unique(variance(held@) * ONE, root as int, deviation(held@));
        }
        Some(root as i64)
    };
    BeliefStats { holders: count, mean: m, sd, median: middle, nonzero: other }
}

/// What each agent holds of `belief` at `time`.
pub open spec fn held_by(agents: Seq<BasicAgent>, time: u32, belief: u32) -> Seq<Option<i64>> {
    Seq::new(agents.len(), |j: int| agents[j].activation(time, belief))
}

/// What each agent holds of `belief` at `time`.
pub fn collect_held(agents: &Vec<BasicAgent>, time: SimTime, belief: u32) -> (held: Vec<Option<i64>>)
    requires
        forall|j: int| 0 <= j < agents@.len() ==> (#[trigger] agents@[j]).wf(),
    ensures
        held@ == held_by(agents@, time, belief),
        held_in_unit(held@),
{
    let mut held: Vec<Option<i64>> = Vec::new();
    let n = agents.len();
    let mut j: usize = 0;
    while j < n
        invariant
            j <= n,
            n == agents@.len(),
            forall|k: int| 0 <= k < agents@.len() ==> (#[trigger] agents@[k]).wf(),
            held@.len() == j,
            forall|k: int| 0 <= k < j ==> #[trigger] held@[k] == agents@[k].activation(time, belief),
            held_in_unit(held@),
        decreases n - j,
    {
        held.push(agents[j].get_activation(time, belief));
        j = j + 1;
    }
    assert(held@ =~= held_by(agents@, time, belief));
    held
}

/// How many of `acts` are the behaviour `behaviour`.
pub open spec fn performers(acts: Seq<Option<u32>>, behaviour: u32) -> nat
    decreases acts.len(),
{
    if acts.len() == 0 {
        0
    } else {
        performers(acts.drop_last(), behaviour) + (if acts.last() == Some(behaviour) {
            1nat
        } else {
            0nat
        })
    }
}

/// There are no more performers than agents.
pub proof fn lemma_performers_bound(acts: Seq<Option<u32>>, behaviour: u32)
    ensures
        performers(acts, behaviour) <= acts.len(),
    decreases acts.len(),
{
    if acts.len() > 0 {
        lemma_performers_bound(acts.drop_last(), behaviour);
    }
}

/// What each agent did at `time`.
pub open spec fn done_by(agents: Seq<BasicAgent>, time: u32) -> Seq<Option<u32>> {
    Seq::new(agents.len(), |j: int| lookup(agents[j].actions()@, time))
}

/// How many agents performed `behaviour` at `time`.
pub fn count_performers(agents: &Vec<BasicAgent>, time: SimTime, behaviour: u32) -> (n: usize)
    requires
        forall|j: int| 0 <= j < agents@.len() ==> (#[trigger] agents@[j]).wf(),
    ensures
        n == performers(done_by(agents@, time), behaviour),
{
    let ghost acts = done_by(agents@, time);
    let len = agents.len();
    let mut n: usize = 0;
    let mut j: usize = 0;
    while j < len
        invariant
            j <= len,
            len == agents@.len(),
            acts == done_by(agents@, time),
            forall|k: int| 0 <= k < agents@.len() ==> (#[trigger] agents@[k]).wf(),
            n == performers(acts.take(j as int), behaviour),
        decreases len - j,
    {
        proof {
            let after = acts.take(j + 1);
            assert(after.drop_last() =~= acts.take(j as int));
            assert(after.last() == acts[j as int]);
            lemma_performers_bound(after, behaviour);
        }
        match agents[j].get_action(time) {
            Some(b) => {
                if b == behaviour {
                    n = n + 1;
                }
            },
            None => {},
        }
        j = j + 1;
    }
    assert(acts.take(len as int) =~= acts);
    n
}

/// The summary of one tick. Each list is in the order of the arena it
/// speaks of and names an entity by its identifier.
#[derive(Debug, PartialEq, Eq)]
pub struct OutputSpec {
    /// By belief that some agent holds: the mean activation over all agents.
    pub mean_activation: Vec<(u128, i64)>,
    /// By belief that some agent holds, where there are two agents or more:
    /// the standard deviation of the activation.
    pub sd_activation: Vec<(u128, i64)>,
    /// By belief, where there is an agent: the median activation.
    pub median_activation: Vec<(u128, i64)>,
    /// By belief that some agent holds other than at zero: how many do.
    pub nonzero_activation_count: Vec<(u128, usize)>,
    /// By behaviour that some agent performs: how many do.
    pub n_performers: Vec<(u128, usize)>,
}

/// The summaries of the ticks of a run.
#[derive(Debug, PartialEq, Eq)]
pub struct OutputSpecs {
    /// The summary of each tick, in the order of time.
    pub data: Vec<(SimTime, OutputSpec)>,
}

/// The means of the beliefs `0 .. n` at `time`.
pub open spec fn mean_entries(agents: Seq<BasicAgent>, ids: Seq<u128>, time: u32, n: nat) -> Seq<
    (u128, i64),
>
    decreases n,
{
    if n == 0 {
        Seq::empty()
    } else {
        let rest = mean_entries(agents, ids, time, (n - 1) as nat);
        let held = held_by(agents, time, (n - 1) as u32);
        if holders(held) > 0 {
            rest.push((ids[n - 1], mean(held) as i64))
        } else {
            rest
        }
    }
}

/// The standard deviations of the beliefs `0 .. n` at `time`.
pub open spec fn sd_entries(agents: Seq<BasicAgent>, ids: Seq<u128>, time: u32, n: nat) -> Seq<
    (u128, i64),
>
    decreases n,
{
    if n == 0 {
        Seq::empty()
    } else {
        let rest = sd_entries(agents, ids, time, (n - 1) as nat);
        let held = held_by(agents, time, (n - 1) as u32);
        if holders(held) > 0 && agents.len() >= 2 {
            rest.push((ids[n - 1], deviation(held) as i64))
        } else {
            rest
        }
    }
}

/// The medians of the beliefs `0 .. n` at `time`.
pub open spec fn median_entries(agents: Seq<BasicAgent>, ids: Seq<u128>, time: u32, n: nat) -> Seq<
    (u128, i64),
>
    decreases n,
{
    if n == 0 {
        Seq::empty()
    } else {
        let rest = median_entries(agents, ids, time, (n - 1) as nat);
        let held = held_by(agents, time, (n - 1) as u32);
        if agents.len() > 0 {
            rest.push((ids[n - 1], median(held)))
        } else {
            rest
        }
    }
}

/// How many agents hold each of the beliefs `0 .. n` other than at zero at
/// `time`.
pub open spec fn nonzero_entries(agents: Seq<BasicAgent>, ids: Seq<u128>, time: u32, n: nat) -> Seq<
    (u128, usize),
>
    decreases n,
{
    if n == 0 {
        Seq::empty()
    } else {
        let rest = nonzero_entries(agents, ids, time, (n - 1) as nat);
        let held = held_by(agents, time, (n - 1) as u32);
        if nonzero(held) > 0 {
            rest.push((ids[n - 1], nonzero(held) as usize))
        } else {
            rest
        }
    }
}

/// How many agents perform each of the behaviours `0 .. n` at `time`.
pub open spec fn performer_entries(agents: Seq<BasicAgent>, ids: Seq<u128>, time: u32, n: nat) -> Seq<
    (u128, usize),
>
    decreases n,
{
    if n == 0 {
        Seq::empty()
    } else {
        let rest = performer_entries(agents, ids, time, (n - 1) as nat);
        let count = performers(done_by(agents, time), (n - 1) as u32);
        if count > 0 {
            rest.push((ids[n - 1], count as usize))
        } else {
            rest
        }
    }
}

/// `out` is the summary of tick `time`.
pub open spec fn summarises(
    agents: Seq<BasicAgent>,
    beliefs: Seq<u128>,
    behaviours: Seq<u128>,
    time: u32,
    out: OutputSpec,
) -> bool {
    &&& out.mean_activation@ == mean_entries(agents, beliefs, time, beliefs.len())
    &&& out.sd_activation@ == sd_entries(agents, beliefs, time, beliefs.len())
    &&& out.median_activation@ == median_entries(agents, beliefs, time, beliefs.len())
    &&& out.nonzero_activation_count@ == nonzero_entries(agents, beliefs, time, beliefs.len())
    &&& out.n_performers@ == performer_entries(agents, behaviours, time, behaviours.len())
}

/// The summary of tick `time`, the beliefs and behaviours being known by
/// the given identifiers.
pub fn summarise_tick(
    agents: &Vec<BasicAgent>,
    beliefs: &Vec<u128>,
    behaviours: &Vec<u128>,
    time: SimTime,
) -> (out: OutputSpec)
    requires
        forall|j: int| 0 <= j < agents@.len() ==> (#[trigger] agents@[j]).wf(),
        beliefs@.len() <= u32::MAX,
        behaviours@.len() <= u32::MAX,
    ensures
        summarises(agents@, beliefs@, behaviours@, time, out),
{
    let mut means: Vec<(u128, i64)> = Vec::new();
    let mut sds: Vec<(u128, i64)> = Vec::new();
    let mut medians: Vec<(u128, i64)> = Vec::new();
    let mut nonzeros: Vec<(u128, usize)> = Vec::new();
    let n: u32 = beliefs.len() as u32;
    let mut b: u32 = 0;
    while b < n
        invariant
            b <= n,
            n == beliefs@.len(),
            forall|j: int| 0 <= j < agents@.len() ==> (#[trigger] agents@[j]).wf(),
            means@ == mean_entries(agents@, beliefs@, time, b as nat),
            sds@ == sd_entries(agents@, beliefs@, time, b as nat),
            medians@ == median_entries(agents@, beliefs@, time, b as nat),
            nonzeros@ == nonzero_entries(agents@, beliefs@, time, b as nat),
        decreases n - b,
    {
        if agents.len() > 0 {
            let held = collect_held(agents, time, b);
            let stats = belief_stats(&held);
            let id = beliefs[b as usize];
            if stats.holders > 0 {
                means.push((id, stats.mean));
                match stats.sd {
                    Some(sd) => {
                        sds.push((id, sd));
                    },
                    None => {},
                }
            }
            medians.push((id, stats.median));
            if stats.nonzero > 0 {
                nonzeros.push((id, stats.nonzero));
            }
        } else {
            proof {
                let held = held_by(agents@, time, b);
                assert(held.len() == 0);
            }
        }
        b = b + 1;
    }
    let mut counts: Vec<(u128, usize)> = Vec::new();
    let m: u32 = behaviours.len() as u32;
    let mut h: u32 = 0;
    while h < m
        invariant
            h <= m,
            m == behaviours@.len(),
            forall|j: int| 0 <= j < agents@.len() ==> (#[trigger] agents@[j]).wf(),
            counts@ == performer_entries(agents@, behaviours@, time, h as nat),
        decreases m - h,
    {
        let count = count_performers(agents, time, h);
        if count > 0 {
            counts.push((behaviours[h as usize], count));
        }
        h = h + 1;
    }
    OutputSpec {
        mean_activation: means,
        sd_activation: sds,
        median_activation: medians,
        nonzero_activation_count: nonzeros,
        n_performers: counts,
    }
}

impl OutputSpecs {
    /// The summaries of the ticks from `start_time` to `end_time`, both
    /// included, of what `agents` hold and do.
    pub fn from_agents(
        agents: &Vec<BasicAgent>,
        beliefs: &Vec<BasicBelief>,
        behaviours: &Vec<BasicBehaviour>,
        start_time: SimTime,
        end_time: SimTime,
    ) -> (out: OutputSpecs)
        requires
            forall|j: int| 0 <= j < agents@.len() ==> (#[trigger] agents@[j]).wf(),
            beliefs@.len() <= u32::MAX,
            behaviours@.len() <= u32::MAX,
        ensures
            out.data@.len() == (if start_time <= end_time {
                end_time - start_time + 1
            } else {
                0
            }),
            forall|i: int|
                0 <= i < out.data@.len() ==> (#[trigger] out.data@[i]).0 == start_time + i
                    && summarises(
                    agents@,
                    belief_ids(beliefs@),
                    behaviour_ids(behaviours@),
                    out.data@[i].0,
                    out.data@[i].1,
                ),
    {
        let belief_names = ids_of_beliefs(beliefs);
        let behaviour_names = ids_of_behaviours(behaviours);
        let mut data: Vec<(SimTime, OutputSpec)> = Vec::new();
        let mut t: u64 = start_time as u64;
        while t <= end_time as u64
            invariant
                start_time <= t,
                start_time <= end_time ==> t <= end_time + 1,
                start_time > end_time ==> t == start_time,
                forall|j: int| 0 <= j < agents@.len() ==> (#[trigger] agents@[j]).wf(),
                belief_names@ == belief_ids(beliefs@),
                behaviour_names@ == behaviour_ids(behaviours@),
                belief_names@.len() <= u32::MAX,
                behaviour_names@.len() <= u32::MAX,
                data@.len() == t - start_time,
                forall|i: int|
                    0 <= i < data@.len() ==> (#[trigger] data@[i]).0 == start_time + i
                        && summarises(
                        agents@,
                        belief_names@,
                        behaviour_names@,
                        data@[i].0,
                        data@[i].1,
                    ),
            decreases end_time + 1 - t,
        {
            let summary = summarise_tick(agents, &belief_names, &behaviour_names, t as u32);
            data.push((t as u32, summary));
            t = t + 1;
        }
        OutputSpecs { data }
    }
}

} // verus!
