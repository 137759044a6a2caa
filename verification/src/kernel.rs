//! The activation kernel: how strongly an agent holds a belief at one tick,
//! given what it held and what its friends did at the tick before.
//!
//! The kernel reads only the previous tick and writes only the current one,
//! so within a tick it may be applied to agents and beliefs in any order.

use crate::entity::{lookup, row_at, BasicAgent, BasicBelief, SimTime};
use crate::fixed::{
    clamp_to_unit, clamp_unit, div_toward_zero, div_trunc, fx_mul, in_unit, lemma_div_trunc_bound,
    lemma_div_trunc_sign, lemma_fx_mul_unit, mul_fixed, ONE,
};
use vstd::prelude::*;

verus! {

/// The value of `m` at `k`; zero where it has none.
pub open spec fn value_or_zero(m: Map<u32, i64>, k: u32) -> int {
    if m.dom().contains(k) {
        m[k] as int
    } else {
        0
    }
}

/// Sum, over the beliefs `0 .. n`, of the agent's previous activation of that
/// belief times the target belief's relationship to it.
pub open spec fn context_sum(prev: Map<u32, i64>, rel: Map<u32, i64>, n: nat) -> int
    decreases n,
{
    if n == 0 {
        0
    } else {
        context_sum(prev, rel, (n - 1) as nat) + fx_mul(
            value_or_zero(prev, (n - 1) as u32),
            value_or_zero(rel, (n - 1) as u32),
        )
    }
}

/// The context of a belief: the mean of [`context_sum`] over all `n` beliefs
/// (over all of them, not only those with a relationship); zero if there are
/// none.
pub open spec fn context(prev: Map<u32, i64>, rel: Map<u32, i64>, n: nat) -> int {
    if n == 0 {
        0
    } else {
        div_trunc(context_sum(prev, rel, n), n as int)
    }
}

/// What one friend contributes to the pressure on a belief: the weight of the
/// tie times the perception of what the friend last did. A friend who did
/// nothing at that tick contributes nothing and is not counted; neither is a
/// tie of the agent to itself, nor one to no agent of the model.
pub open spec fn friend_term(
    entry: (u32, i64),
    me: u32,
    acts: Seq<Option<u32>>,
    perc: Map<u32, i64>,
) -> Option<int> {
    if entry.0 == me || entry.0 >= acts.len() {
        None
    } else {
        match acts[entry.0 as int] {
            Some(b) => Some(fx_mul(entry.1 as int, value_or_zero(perc, b))),
            None => None,
        }
    }
}

/// Sum of the contributions of `friends`.
pub open spec fn pressure_sum(
    friends: Seq<(u32, i64)>,
    me: u32,
    acts: Seq<Option<u32>>,
    perc: Map<u32, i64>,
) -> int
    decreases friends.len(),
{
    if friends.len() == 0 {
        0
    } else {
        pressure_sum(friends.drop_last(), me, acts, perc) + (match friend_term(
            friends.last(),
            me,
            acts,
            perc,
        ) {
            Some(v) => v,
            None => 0,
        })
    }
}

/// Number of `friends` that contribute.
pub open spec fn pressure_count(
    friends: Seq<(u32, i64)>,
    me: u32,
    acts: Seq<Option<u32>>,
    perc: Map<u32, i64>,
) -> nat
    decreases friends.len(),
{
    if friends.len() == 0 {
        0
    } else {
        pressure_count(friends.drop_last(), me, acts, perc) + (if friend_term(
            friends.last(),
            me,
            acts,
            perc,
        ).is_some() {
            1nat
        } else {
            0nat
        })
    }
}

/// The pressure on a belief: the mean contribution of the friends that
/// contribute; zero if none does.
pub open spec fn pressure(
    friends: Seq<(u32, i64)>,
    me: u32,
    acts: Seq<Option<u32>>,
    perc: Map<u32, i64>,
) -> int {
    let count = pressure_count(friends, me, acts, perc);
    if count == 0 {
        0
    } else {
        div_trunc(pressure_sum(friends, me, acts, perc), count as int)
    }
}

/// The change of an activation under `pressure` in a given `context`:
/// pressure that agrees with the context passes in full, pressure against it
/// is damped.
pub open spec fn activation_change(context: int, pressure: int) -> int {
    if pressure >= 0 {
        fx_mul(div_trunc(ONE + context, 2), pressure)
    } else {
        fx_mul(div_trunc(ONE - context, 2), pressure)
    }
}

/// The activation that follows `prior`.
pub open spec fn next_activation(prior: int, context: int, pressure: int) -> int {
    clamp_unit(prior + activation_change(context, pressure))
}

/// What each agent did at `time`.
pub open spec fn actions_at(agents: Seq<BasicAgent>, time: u32) -> Seq<Option<u32>> {
    Seq::new(agents.len(), |j: int| lookup(agents[j].actions()@, time))
}

/// The activation of belief `belief` that agent `me` arrives at in tick
/// `time`, for `time >= 1`. Tick zero has no tick before it and is never
/// run; the function is zero there only so as to be total.
pub open spec fn updated_activation(
    agents: Seq<BasicAgent>,
    beliefs: Seq<BasicBelief>,
    me: u32,
    time: u32,
    belief: u32,
) -> int
    recommends
        me < agents.len(),
        belief < beliefs.len(),
{
    if time == 0 {
        0
    } else {
        let before = (time - 1) as u32;
        let prev = row_at(agents[me as int].rows(), before);
        next_activation(
            value_or_zero(prev, belief),
            context(prev, beliefs[belief as int].relationships()@, beliefs.len()),
            pressure(
                agents[me as int].friends().entries(),
                me,
                actions_at(agents, before),
                beliefs[belief as int].perceptions()@,
            ),
        )
    }
}

/// The agent holds, at the tick before `time`, each of the beliefs
/// `0 .. beliefs`: what the kernel goes on from.
pub open spec fn has_prior(agent: BasicAgent, time: u32, beliefs: nat) -> bool {
    forall|b: u32| b < beliefs ==> (#[trigger] agent.activation((time - 1) as u32, b)).is_some()
}

/// The pressure of the empty list of friends is zero.
pub proof fn lemma_no_friends_no_pressure(me: u32, acts: Seq<Option<u32>>, perc: Map<u32, i64>)
    ensures
        pressure(Seq::<(u32, i64)>::empty(), me, acts, perc) == 0,
{
}

/// Where the agent held nothing, the context is zero.
pub proof fn lemma_context_of_nothing(prev: Map<u32, i64>, rel: Map<u32, i64>, n: nat)
    requires
        forall|k: u32| #[trigger] value_or_zero(prev, k) == 0,
    ensures
        context_sum(prev, rel, n) == 0,
        context(prev, rel, n) == 0,
    decreases n,
{
    if n > 0 {
        lemma_context_of_nothing(prev, rel, (n - 1) as nat);
        let r = value_or_zero(rel, (n - 1) as u32);
        assert(value_or_zero(prev, (n - 1) as u32) == 0);
        assert(0 * r == 0);
        lemma_div_trunc_sign(0, ONE as int);
        lemma_div_trunc_sign(0, n as int);
    }
}

/// Where no behaviour speaks for the belief, there is no pressure on it.
pub proof fn lemma_pressure_of_nothing(
    friends: Seq<(u32, i64)>,
    me: u32,
    acts: Seq<Option<u32>>,
    perc: Map<u32, i64>,
)
    requires
        forall|k: u32| #[trigger] value_or_zero(perc, k) == 0,
    ensures
        pressure_sum(friends, me, acts, perc) == 0,
        pressure(friends, me, acts, perc) == 0,
    decreases friends.len(),
{
    if friends.len() > 0 {
        lemma_pressure_of_nothing(friends.drop_last(), me, acts, perc);
        let e = friends.last();
        if friend_term(e, me, acts, perc).is_some() {
            let b = acts[e.0 as int].unwrap();
            assert(value_or_zero(perc, b) == 0);
            assert((e.1 as int) * 0 == 0);
            lemma_div_trunc_sign(0, ONE as int);
        }
    }
    let count = pressure_count(friends, me, acts, perc);
    if count > 0 {
        lemma_div_trunc_sign(0, count as int);
    }
}

/// An agent that held nothing at the tick before, in a belief for which no
/// behaviour speaks, holds the belief as before: not at all.
pub proof fn lemma_quiescent(
    agents: Seq<BasicAgent>,
    beliefs: Seq<BasicBelief>,
    me: u32,
    time: u32,
    belief: u32,
)
    requires
        time > 0,
        me < agents.len(),
        belief < beliefs.len(),
        forall|k: u32| #[trigger]
            value_or_zero(row_at(agents[me as int].rows(), (time - 1) as u32), k) == 0,
        forall|k: u32| #[trigger] value_or_zero(beliefs[belief as int].perceptions()@, k) == 0,
    ensures
        updated_activation(agents, beliefs, me, time, belief) == value_or_zero(
            row_at(agents[me as int].rows(), (time - 1) as u32),
            belief,
        ),
        updated_activation(agents, beliefs, me, time, belief) == 0,
{
    let before = (time - 1) as u32;
    let prev = row_at(agents[me as int].rows(), before);
    let rel = beliefs[belief as int].relationships()@;
    let perc = beliefs[belief as int].perceptions()@;
    lemma_context_of_nothing(prev, rel, beliefs.len());
    lemma_pressure_of_nothing(
        agents[me as int].friends().entries(),
        me,
        actions_at(agents, before),
        perc,
    );
    lemma_change_bounds(0, 0);
    assert(value_or_zero(prev, belief) == 0);
}

/// Sums and counts of contributions are bounded by the number of friends.
pub proof fn lemma_pressure_bounds(
    friends: Seq<(u32, i64)>,
    me: u32,
    acts: Seq<Option<u32>>,
    perc: Map<u32, i64>,
)
    requires
        forall|i: int| 0 <= i < friends.len() ==> in_unit((#[trigger] friends[i]).1 as int),
        forall|k: u32| perc.dom().contains(k) ==> in_unit(#[trigger] perc[k] as int),
    ensures
        pressure_count(friends, me, acts, perc) <= friends.len(),
        -(ONE * pressure_count(friends, me, acts, perc)) <= pressure_sum(friends, me, acts, perc)
            <= ONE * pressure_count(friends, me, acts, perc),
        in_unit(pressure(friends, me, acts, perc)),
    decreases friends.len(),
{
    if friends.len() > 0 {
        let rest = friends.drop_last();
        assert(forall|i: int| 0 <= i < rest.len() ==> rest[i] == friends[i]);
        lemma_pressure_bounds(rest, me, acts, perc);
        let e = friends.last();
        if friend_term(e, me, acts, perc).is_some() {
            let b = acts[e.0 as int].unwrap();
            lemma_fx_mul_unit(e.1 as int, value_or_zero(perc, b));
        }
    }
    let count = pressure_count(friends, me, acts, perc);
    if count > 0 {
        assert(ONE * count == count * ONE) by (nonlinear_arith);
        lemma_div_trunc_bound(pressure_sum(friends, me, acts, perc), count as int, ONE as int);
    }
}

/// Sums of context terms are bounded by the number of beliefs.
pub proof fn lemma_context_bounds(prev: Map<u32, i64>, rel: Map<u32, i64>, n: nat)
    requires
        forall|k: u32| prev.dom().contains(k) ==> in_unit(#[trigger] prev[k] as int),
        forall|k: u32| rel.dom().contains(k) ==> in_unit(#[trigger] rel[k] as int),
    ensures
        -(ONE * n) <= context_sum(prev, rel, n) <= ONE * n,
        in_unit(context(prev, rel, n)),
    decreases n,
{
    if n > 0 {
        lemma_context_bounds(prev, rel, (n - 1) as nat);
        lemma_fx_mul_unit(value_or_zero(prev, (n - 1) as u32), value_or_zero(rel, (n - 1) as u32));
        assert(ONE * n == n * ONE) by (nonlinear_arith);
        lemma_div_trunc_bound(context_sum(prev, rel, n), n as int, ONE as int);
    }
}

/// A change of activation never exceeds one unit either way.
pub proof fn lemma_change_bounds(context: int, pressure: int)
    requires
        in_unit(context),
        in_unit(pressure),
    ensures
        in_unit(activation_change(context, pressure)),
        in_unit(div_trunc(ONE + context, 2)),
        in_unit(div_trunc(ONE - context, 2)),
        pressure == 0 ==> activation_change(context, pressure) == 0,
{
    lemma_div_trunc_bound(ONE + context, 2, ONE as int);
    lemma_div_trunc_bound(ONE - context, 2, ONE as int);
    lemma_fx_mul_unit(div_trunc(ONE + context, 2), pressure);
    lemma_fx_mul_unit(div_trunc(ONE - context, 2), pressure);
    if pressure == 0 {
        assert(div_trunc(ONE + context, 2) * 0 == 0);
        lemma_div_trunc_sign(0, ONE as int);
    }
}

/// The context of `belief` for `agent` at tick `time`, among `n` beliefs.
pub fn contextualise(agent: &BasicAgent, time: SimTime, belief: &BasicBelief, n: u32) -> (c: i64)
    requires
        agent.wf(),
        belief.wf(),
    ensures
        c == context(row_at(agent.rows(), time), belief.relationships()@, n as nat),
        in_unit(c as int),
{
    let ghost prev = row_at(agent.rows(), time);
    let ghost rel = belief.relationships()@;
    proof {
        assert(agent.rows().dom().contains(time) ==> crate::entity::all_in_unit(agent.rows()[time]));
        lemma_context_bounds(prev, rel, n as nat);
    }
    if n == 0 {
        return 0;
    }
    let mut sum: i128 = 0;
    let mut other: u32 = 0;
    while other < n
        invariant
            other <= n,
            agent.wf(),
            belief.wf(),
            prev == row_at(agent.rows(), time),
            rel == belief.relationships()@,
            forall|k: u32| prev.dom().contains(k) ==> in_unit(#[trigger] prev[k] as int),
            forall|k: u32| rel.dom().contains(k) ==> in_unit(#[trigger] rel[k] as int),
            sum == context_sum(prev, rel, other as nat),
        decreases n - other,
    {
        proof {
            lemma_context_bounds(prev, rel, other as nat);
            lemma_context_bounds(prev, rel, (other + 1) as nat);
        }
        let a: i64 = match agent.get_activation(time, other) {
            Some(v) => v,
            None => 0,
        };
        let r: i64 = match belief.get_relationship(other) {
            Some(v) => v,
            None => 0,
        };
        let term = mul_fixed(a, r);
        sum = sum + term;
        other = other + 1;
    }
    let mean = div_toward_zero(sum, n as i128);
    mean as i64
}

/// The pressure on `belief` that agent `me` feels from what its friends did
/// at tick `time`.
pub fn pressure_on(agents: &Vec<BasicAgent>, me: u32, time: SimTime, belief: &BasicBelief) -> (p:
    i64)
    requires
        me < agents@.len(),
        forall|j: int| 0 <= j < agents@.len() ==> (#[trigger] agents@[j]).wf(),
        belief.wf(),
    ensures
        p == pressure(
            agents@[me as int].friends().entries(),
            me,
            actions_at(agents@, time),
            belief.perceptions()@,
        ),
        in_unit(p as int),
{
    let friends = agents[me as usize].get_friends();
    let ghost entries = friends.entries();
    let ghost acts = actions_at(agents@, time);
    let ghost perc = belief.perceptions()@;
    proof {
        assert forall|i: int| 0 <= i < entries.len() implies in_unit(
            (#[trigger] entries[i]).1 as int,
        ) by {
            crate::table::lemma_find_distinct(entries, i);
            assert(friends@.dom().contains(entries[i].0));
            assert(friends@[entries[i].0] == entries[i].1);
        }
        lemma_pressure_bounds(entries, me, acts, perc);
    }
    let n = friends.len();
    let mut sum: i128 = 0;
    let mut count: usize = 0;
    let mut i: usize = 0;
    while i < n
        invariant
            i <= n,
            n == entries.len(),
            me < agents@.len(),
            *friends == agents@[me as int].friends(),
            entries == friends.entries(),
            acts == actions_at(agents@, time),
            perc == belief.perceptions()@,
            forall|j: int| 0 <= j < agents@.len() ==> (#[trigger] agents@[j]).wf(),
            belief.wf(),
            forall|j: int| 0 <= j < entries.len() ==> in_unit((#[trigger] entries[j]).1 as int),
            forall|k: u32| perc.dom().contains(k) ==> in_unit(#[trigger] perc[k] as int),
            sum == pressure_sum(entries.take(i as int), me, acts, perc),
            count == pressure_count(entries.take(i as int), me, acts, perc),
        decreases n - i,
    {
        let friend = friends.key_at(i);
        let weight = *friends.value_at(i);
        proof {
            let next = entries.take(i + 1);
            assert(next.drop_last() =~= entries.take(i as int));
            assert(next.last() == entries[i as int]);
            assert(forall|j: int| 0 <= j < next.len() ==> next[j] == entries[j]);
            lemma_pressure_bounds(entries.take(i as int), me, acts, perc);
            lemma_pressure_bounds(next, me, acts, perc);
        }
        if friend != me && (friend as usize) < agents.len() {
            match agents[friend as usize].get_action(time) {
                Some(behaviour) => {
                    let seen: i64 = match belief.get_perception(behaviour) {
                        Some(v) => v,
                        None => 0,
                    };
                    let term = mul_fixed(weight, seen);
                    sum = sum + term;
                    count = count + 1;
                },
                None => {},
            }
        }
        i = i + 1;
    }
    assert(entries.take(n as int) =~= entries);
    if count == 0 {
        0
    } else {
        let mean = div_toward_zero(sum, count as i128);
        mean as i64
    }
}

/// The change of an activation under `pressure` in a given `context`.
pub fn change_of_activation(context: i64, pressure: i64) -> (d: i64)
    requires
        in_unit(context as int),
        in_unit(pressure as int),
    ensures
        d == activation_change(context as int, pressure as int),
        in_unit(d as int),
{
    proof {
        lemma_change_bounds(context as int, pressure as int);
    }
    let blend: i128 = if pressure >= 0 {
        div_toward_zero(ONE as i128 + context as i128, 2)
    } else {
        div_toward_zero(ONE as i128 - context as i128, 2)
    };
    let d = mul_fixed(blend as i64, pressure);
    d as i64
}

/// Computes the activation of belief `belief` that agent `me` arrives at in
/// tick `time`, without storing it. There must be a tick before `time`, and
/// the agent must hold the belief at it.
pub fn compute_activation(
    agents: &Vec<BasicAgent>,
    beliefs: &Vec<BasicBelief>,
    me: u32,
    time: SimTime,
    belief: u32,
) -> (v: i64)
    requires
        time >= 1,
        me < agents@.len(),
        belief < beliefs@.len(),
        beliefs@.len() <= u32::MAX,
        forall|j: int| 0 <= j < agents@.len() ==> (#[trigger] agents@[j]).wf(),
        forall|j: int| 0 <= j < beliefs@.len() ==> (#[trigger] beliefs@[j]).wf(),
        agents@[me as int].activation((time - 1) as u32, belief).is_some(),
    ensures
        v == updated_activation(agents@, beliefs@, me, time, belief),
        in_unit(v as int),
{
    let before: SimTime = time - 1;
    let agent = &agents[me as usize];
    let target = &beliefs[belief as usize];
    let prior: i64 = agent.get_activation(before, belief).unwrap();
    let c = contextualise(agent, before, target, beliefs.len() as u32);
    let p = pressure_on(agents, me, before, target);
    let d = change_of_activation(c, p);
    clamp_to_unit(prior as i128 + d as i128)
}

/// Two populations agree on everything the kernel reads in tick `time`: the
/// friends of every agent, and what every agent held and did one tick
/// earlier.
pub open spec fn same_past(a: Seq<BasicAgent>, b: Seq<BasicAgent>, time: u32) -> bool {
    &&& a.len() == b.len()
    &&& forall|j: int|
        0 <= j < a.len() ==> {
            &&& (#[trigger] a[j]).friends() == b[j].friends()
            &&& time > 0 ==> lookup(a[j].actions()@, (time - 1) as u32) == lookup(
                b[j].actions()@,
                (time - 1) as u32,
            )
            &&& time > 0 ==> row_at(a[j].rows(), (time - 1) as u32) == row_at(
                b[j].rows(),
                (time - 1) as u32,
            )
        }
}

/// The kernel reads nothing but the past: on populations that agree on it,
/// it arrives at the same activation.
pub proof fn lemma_kernel_reads_past(
    a: Seq<BasicAgent>,
    b: Seq<BasicAgent>,
    beliefs: Seq<BasicBelief>,
    me: u32,
    time: u32,
    belief: u32,
)
    requires
        same_past(a, b, time),
        me < a.len(),
    ensures
        updated_activation(a, beliefs, me, time, belief) == updated_activation(
            b,
            beliefs,
            me,
            time,
            belief,
        ),
{
    if time > 0 {
        let before = (time - 1) as u32;
        assert(a[me as int].friends() == b[me as int].friends());
        assert(actions_at(a, before) =~= actions_at(b, before)) by {
            assert forall|j: int| 0 <= j < a.len() implies actions_at(a, before)[j] == actions_at(
                b,
                before,
            )[j] by {
                assert(a[j].friends() == b[j].friends());
            }
        }
    }
}

/// The row of activations that agent `me` holds at `time` once the kernel
/// has run for the beliefs `0 .. done`: those beliefs at their new
/// activation, any other entry as it was.
pub open spec fn perceived_row(
    agents: Seq<BasicAgent>,
    beliefs: Seq<BasicBelief>,
    me: u32,
    time: u32,
    done: nat,
) -> Map<u32, i64> {
    let was = row_at(agents[me as int].rows(), time);
    Map::new(
        |b: u32| b < done || was.dom().contains(b),
        |b: u32|
            if b < done {
                updated_activation(agents, beliefs, me, time, b) as i64
            } else {
                was[b]
            },
    )
}

/// Runs the kernel for one agent and one belief and stores the result:
/// `activations[time][belief]` of agent `me` becomes
/// [`updated_activation`]; nothing else changes. There must be a tick
/// before `time`, and the agent must hold the belief at it.
pub fn update_activation_for_agent(
    agents: &mut Vec<BasicAgent>,
    beliefs: &Vec<BasicBelief>,
    me: u32,
    time: SimTime,
    belief: u32,
)
    requires
        time >= 1,
        old(agents)@[me as int].activation((time - 1) as u32, belief).is_some(),
        me < old(agents)@.len(),
        belief < beliefs@.len(),
        beliefs@.len() <= u32::MAX,
        forall|j: int| 0 <= j < old(agents)@.len() ==> (#[trigger] old(agents)@[j]).wf(),
        forall|j: int| 0 <= j < beliefs@.len() ==> (#[trigger] beliefs@[j]).wf(),
    ensures
        final(agents)@.len() == old(agents)@.len(),
        forall|j: int|
            0 <= j < old(agents)@.len() && j != me ==> (#[trigger] final(agents)@[j]) == old(
                agents,
            )@[j],
        final(agents)@[me as int].wf(),
        final(agents)@[me as int].id() == old(agents)@[me as int].id(),
        final(agents)@[me as int].actions() == old(agents)@[me as int].actions(),
        final(agents)@[me as int].deltas() == old(agents)@[me as int].deltas(),
        final(agents)@[me as int].friends() == old(agents)@[me as int].friends(),
        final(agents)@[me as int].rows() == old(agents)@[me as int].rows().insert(
            time,
            row_at(old(agents)@[me as int].rows(), time).insert(
                belief,
                updated_activation(old(agents)@, beliefs@, me, time, belief) as i64,
            ),
        ),
{
    let v = compute_activation(agents, beliefs, me, time, belief);
    let stored = agents[me as usize].set_activation(time, belief, Some(v));
    assert(stored is Ok);
}

/// Runs the kernel for one agent and every belief: the agent's row at `time`
/// becomes [`perceived_row`] for all beliefs; nothing else changes. There
/// must be a tick before `time`, and the agent must hold every belief at it.
pub fn update_activation_for_all_beliefs_for_agent(
    agents: &mut Vec<BasicAgent>,
    beliefs: &Vec<BasicBelief>,
    me: u32,
    time: SimTime,
)
    requires
        time >= 1,
        has_prior(old(agents)@[me as int], time, beliefs@.len()),
        me < old(agents)@.len(),
        beliefs@.len() <= u32::MAX,
        forall|j: int| 0 <= j < old(agents)@.len() ==> (#[trigger] old(agents)@[j]).wf(),
        forall|j: int| 0 <= j < beliefs@.len() ==> (#[trigger] beliefs@[j]).wf(),
    ensures
        final(agents)@.len() == old(agents)@.len(),
        forall|j: int|
            0 <= j < old(agents)@.len() && j != me ==> (#[trigger] final(agents)@[j]) == old(
                agents,
            )@[j],
        final(agents)@[me as int].wf(),
        final(agents)@[me as int].id() == old(agents)@[me as int].id(),
        final(agents)@[me as int].actions() == old(agents)@[me as int].actions(),
        final(agents)@[me as int].deltas() == old(agents)@[me as int].deltas(),
        final(agents)@[me as int].friends() == old(agents)@[me as int].friends(),
        beliefs@.len() > 0 ==> final(agents)@[me as int].rows() == old(
            agents,
        )@[me as int].rows().insert(
            time,
            perceived_row(old(agents)@, beliefs@, me, time, beliefs@.len()),
        ),
        beliefs@.len() == 0 ==> final(agents)@[me as int].activations() == old(
            agents,
        )@[me as int].activations(),
{
    let n: u32 = beliefs.len() as u32;
    let ghost start = agents@;
    let mut belief: u32 = 0;
    while belief < n
        invariant
            belief <= n,
            n == beliefs@.len(),
            me < start.len(),
            agents@.len() == start.len(),
            forall|j: int| 0 <= j < start.len() ==> (#[trigger] start[j]).wf(),
            forall|j: int| 0 <= j < agents@.len() ==> (#[trigger] agents@[j]).wf(),
            forall|j: int| 0 <= j < beliefs@.len() ==> (#[trigger] beliefs@[j]).wf(),
            forall|j: int| 0 <= j < start.len() && j != me ==> (#[trigger] agents@[j]) == start[j],
            agents@[me as int].id() == start[me as int].id(),
            agents@[me as int].actions() == start[me as int].actions(),
            agents@[me as int].deltas() == start[me as int].deltas(),
            agents@[me as int].friends() == start[me as int].friends(),
            time >= 1,
            has_prior(start[me as int], time, beliefs@.len()),
            belief == 0 ==> agents@[me as int].activations() == start[me as int].activations(),
            belief > 0 ==> agents@[me as int].rows() == start[me as int].rows().insert(
                time,
                perceived_row(start, beliefs@, me, time, belief as nat),
            ),
        decreases n - belief,
    {
        let ghost mid = agents@;
        proof {
            assert(same_past(mid, start, time)) by {
                assert forall|j: int| 0 <= j < mid.len() implies {
                    &&& (#[trigger] mid[j]).friends() == start[j].friends()
                    &&& time > 0 ==> lookup(mid[j].actions()@, (time - 1) as u32) == lookup(
                        start[j].actions()@,
                        (time - 1) as u32,
                    )
                    &&& time > 0 ==> row_at(mid[j].rows(), (time - 1) as u32) == row_at(
                        start[j].rows(),
                        (time - 1) as u32,
                    )
                } by {
                    if j != me {
                        assert(mid[j] == start[j]);
                    }
                }
            }
            lemma_kernel_reads_past(mid, start, beliefs@, me, time, belief);
            assert(start[me as int].activation((time - 1) as u32, belief).is_some());
            assert(row_at(mid[me as int].rows(), (time - 1) as u32) == row_at(
                start[me as int].rows(),
                (time - 1) as u32,
            ));
        }
        update_activation_for_agent(agents, beliefs, me, time, belief);
        proof {
            let v = updated_activation(start, beliefs@, me, time, belief) as i64;
            let was = row_at(mid[me as int].rows(), time);
            assert(was =~= perceived_row(start, beliefs@, me, time, belief as nat)) by {
                if belief == 0 {
                    assert(mid[me as int].rows() == start[me as int].rows());
                }
            }
            assert(was.insert(belief, v) =~= perceived_row(
                start,
                beliefs@,
                me,
                time,
                (belief + 1) as nat,
            ));
            assert(agents@[me as int].rows() =~= start[me as int].rows().insert(
                time,
                perceived_row(start, beliefs@, me, time, (belief + 1) as nat),
            ));
        }
        belief = belief + 1;
    }
}

} // verus!
