//! What holds of every run: the same draws give the same run, and within a
//! phase of a tick the order in which agents are taken does not matter.

use crate::entity::{agent_ids, lookup, row_at, BasicAgent, BasicBelief};
use crate::json::{agent_recorded, AgentSpec};
use crate::table::{lemma_ascending_same_keys, lemma_find_distinct};
use crate::kernel::{lemma_kernel_reads_past, perceived_row, same_past, updated_activation};
use crate::runner::{
    acted, agent_acted, agent_perceived, agents_recorded, is_run, perceived, step_ok, ticked,
    History,
};
use vstd::prelude::*;

verus! {

/// Two agents hold the same: same identifier, same tables.
pub open spec fn same_views(a: BasicAgent, b: BasicAgent) -> bool {
    &&& a.id() == b.id()
    &&& a.actions()@ == b.actions()@
    &&& a.rows() == b.rows()
    &&& a.deltas() == b.deltas()
    &&& a.friends() == b.friends()
}

/// Two populations hold the same, agent by agent.
pub open spec fn same_population(a: Seq<BasicAgent>, b: Seq<BasicAgent>) -> bool {
    &&& a.len() == b.len()
    &&& forall|j: int| 0 <= j < a.len() ==> same_views(#[trigger] a[j], b[j])
}

/// One tick is determined by the population it starts from and the draws:
/// from populations that hold the same, on the same draws, it leads to
/// populations that hold the same.
pub proof fn lemma_tick_deterministic(
    before1: Seq<BasicAgent>,
    mid1: Seq<BasicAgent>,
    after1: Seq<BasicAgent>,
    before2: Seq<BasicAgent>,
    mid2: Seq<BasicAgent>,
    after2: Seq<BasicAgent>,
    beliefs: Seq<BasicBelief>,
    weights: Map<u32, Map<u32, i64>>,
    behaviours: nat,
    time: u32,
    draws: Seq<int>,
)
    requires
        before1.len() <= u32::MAX,
        same_population(before1, before2),
        ticked(before1, mid1, after1, beliefs, weights, behaviours, time, draws),
        ticked(before2, mid2, after2, beliefs, weights, behaviours, time, draws),
    ensures
        same_population(after1, after2),
{
    assert(same_past(before1, before2, time)) by {
        assert forall|j: int| 0 <= j < before1.len() implies {
            &&& (#[trigger] before1[j]).friends() == before2[j].friends()
            &&& time > 0 ==> lookup(before1[j].actions()@, (time - 1) as u32) == lookup(
                before2[j].actions()@,
                (time - 1) as u32,
            )
            &&& time > 0 ==> row_at(before1[j].rows(), (time - 1) as u32) == row_at(
                before2[j].rows(),
                (time - 1) as u32,
            )
        } by {
            assert(same_views(before1[j], before2[j]));
        }
    }
    assert forall|j: int| 0 <= j < after1.len() implies same_views(#[trigger] after1[j], after2[j]) by {
        assert(same_views(before1[j], before2[j]));
        assert(agent_perceived(before1, beliefs, j as u32, time, mid1[j]));
        assert(agent_perceived(before2, beliefs, j as u32, time, mid2[j]));
        assert(agent_acted(mid1[j], after1[j], weights, behaviours, beliefs.len(), time, draws[j]));
        assert(agent_acted(mid2[j], after2[j], weights, behaviours, beliefs.len(), time, draws[j]));
        if beliefs.len() > 0 {
            assert(perceived_row(before1, beliefs, j as u32, time, beliefs.len()) =~= perceived_row(
                before2,
                beliefs,
                j as u32,
                time,
                beliefs.len(),
            )) by {
                assert forall|b: u32| #[trigger]
                    updated_activation(before1, beliefs, j as u32, time, b) == updated_activation(
                        before2,
                        beliefs,
                        j as u32,
                        time,
                        b,
                    ) by {
                    lemma_kernel_reads_past(before1, before2, beliefs, j as u32, time, b);
                }
            }
        }
        assert(mid1[j].rows() == mid2[j].rows());
        assert(after1[j].rows() == mid1[j].rows());
        assert(after2[j].rows() == mid2[j].rows());
    }
}

/// A run is determined by the population it starts from and the draws: two
/// runs of one model over the same ticks, from populations that hold the
/// same and on the same draws, end in populations that hold the same.
pub proof fn lemma_run_deterministic(
    h1: History,
    h2: History,
    beliefs: Seq<BasicBelief>,
    weights: Map<u32, Map<u32, i64>>,
    behaviours: nat,
    start: u32,
)
    requires
        is_run(h1, beliefs, weights, behaviours, start),
        is_run(h2, beliefs, weights, behaviours, start),
        h1.draws == h2.draws,
        h1.states[0].len() <= u32::MAX,
        same_population(h1.states[0], h2.states[0]),
    ensures
        same_population(h1.states.last(), h2.states.last()),
{
    lemma_run_deterministic_upto(h1, h2, beliefs, weights, behaviours, start, h1.mids.len() as int);
}

/// Two runs on the same draws hold the same after each tick.
pub proof fn lemma_run_deterministic_upto(
    h1: History,
    h2: History,
    beliefs: Seq<BasicBelief>,
    weights: Map<u32, Map<u32, i64>>,
    behaviours: nat,
    start: u32,
    k: int,
)
    requires
        is_run(h1, beliefs, weights, behaviours, start),
        is_run(h2, beliefs, weights, behaviours, start),
        h1.draws == h2.draws,
        h1.states[0].len() <= u32::MAX,
        same_population(h1.states[0], h2.states[0]),
        0 <= k <= h1.mids.len(),
    ensures
        same_population(h1.states[k], h2.states[k]),
        h1.states[k].len() == h1.states[0].len(),
    decreases k,
{
    if k > 0 {
        lemma_run_deterministic_upto(h1, h2, beliefs, weights, behaviours, start, k - 1);
        assert(step_ok(h1, beliefs, weights, behaviours, start, k - 1));
        assert(step_ok(h2, beliefs, weights, behaviours, start, k - 1));
        lemma_tick_deterministic(
            h1.states[k - 1],
            h1.mids[k - 1],
            h1.states[k],
            h2.states[k - 1],
            h2.mids[k - 1],
            h2.states[k],
            beliefs,
            weights,
            behaviours,
            (start + (k - 1)) as u32,
            h1.draws[k - 1],
        );
    }
}

/// Two records say the same, entry by entry.
pub open spec fn same_record(a: AgentSpec, b: AgentSpec) -> bool {
    &&& a.uuid == b.uuid
    &&& a.actions@ == b.actions@
    &&& a.deltas@ == b.deltas@
    &&& a.friends@ == b.friends@
    &&& a.activations@.len() == b.activations@.len()
    &&& forall|i: int|
        0 <= i < a.activations@.len() ==> (#[trigger] a.activations@[i]).0 == b.activations@[i].0
            && a.activations@[i].1@ == b.activations@[i].1@
}

/// Agents that hold the same are written out the same: their records agree
/// entry by entry, in the same order.
pub proof fn lemma_same_views_same_record(
    a: BasicAgent,
    b: BasicAgent,
    ra: AgentSpec,
    rb: AgentSpec,
    behaviours: Seq<u128>,
    beliefs: Seq<u128>,
    agents: Seq<u128>,
)
    requires
        a.wf(),
        b.wf(),
        same_views(a, b),
        agent_recorded(a, ra, behaviours, beliefs, agents),
        agent_recorded(b, rb, behaviours, beliefs, agents),
    ensures
        same_record(ra, rb),
{
    a.actions().lemma_canonical(b.actions());
    let rows_a = a.activations().entries();
    let rows_b = b.activations().entries();
    assert(a.activations()@.dom() =~= b.activations()@.dom()) by {
        assert forall|t: u32| a.activations()@.dom().contains(t) == b.activations()@.dom().contains(
            t,
        ) by {
            assert(a.rows().dom().contains(t) == a.activations()@.dom().contains(t));
            assert(b.rows().dom().contains(t) == b.activations()@.dom().contains(t));
        }
    }
    lemma_ascending_same_keys(rows_a, rows_b);
    assert forall|i: int| 0 <= i < ra.activations@.len() implies (#[trigger] ra.activations@[i]).0
        == rb.activations@[i].0 && ra.activations@[i].1@ == rb.activations@[i].1@ by {
        lemma_find_distinct(rows_a, i);
        lemma_find_distinct(rows_b, i);
        let t = rows_a[i].0;
        assert(rows_b[i].0 == t);
        assert(a.activations()@[t] == rows_a[i].1);
        assert(b.activations()@[t] == rows_b[i].1);
        assert(a.rows().dom().contains(t));
        assert(a.rows()[t] == rows_a[i].1@);
        assert(b.rows()[t] == rows_b[i].1@);
        rows_a[i].1.lemma_canonical(rows_b[i].1);
    }
}

/// What is written out after a run is determined by the population it
/// starts from and the draws: two runs of one model over the same ticks,
/// from populations that hold the same and on the same draws, are written
/// out the same, record by record and entry by entry.
pub proof fn lemma_run_records_deterministic(
    h1: History,
    h2: History,
    beliefs: Seq<BasicBelief>,
    weights: Map<u32, Map<u32, i64>>,
    behaviours: nat,
    start: u32,
    records1: Seq<AgentSpec>,
    records2: Seq<AgentSpec>,
    behaviour_names: Seq<u128>,
    belief_names: Seq<u128>,
)
    requires
        is_run(h1, beliefs, weights, behaviours, start),
        is_run(h2, beliefs, weights, behaviours, start),
        h1.draws == h2.draws,
        h1.states[0].len() <= u32::MAX,
        same_population(h1.states[0], h2.states[0]),
        forall|j: int| 0 <= j < h1.states.last().len() ==> (#[trigger] h1.states.last()[j]).wf(),
        forall|j: int| 0 <= j < h2.states.last().len() ==> (#[trigger] h2.states.last()[j]).wf(),
        agents_recorded(h1.states.last(), records1, behaviour_names, belief_names),
        agents_recorded(h2.states.last(), records2, behaviour_names, belief_names),
    ensures
        records1.len() == records2.len(),
        forall|j: int| 0 <= j < records1.len() ==> same_record(#[trigger] records1[j], records2[j]),
{
    lemma_run_deterministic(h1, h2, beliefs, weights, behaviours, start);
    let end1 = h1.states.last();
    let end2 = h2.states.last();
    assert(agent_ids(end1) =~= agent_ids(end2)) by {
        assert forall|j: int| 0 <= j < end1.len() implies agent_ids(end1)[j] == agent_ids(end2)[j] by {
            assert(same_views(end1[j], end2[j]));
        }
    }
    assert forall|j: int| 0 <= j < records1.len() implies same_record(
        #[trigger] records1[j],
        records2[j],
    ) by {
        assert(same_views(end1[j], end2[j]));
        lemma_same_views_same_record(
            end1[j],
            end2[j],
            records1[j],
            records2[j],
            behaviour_names,
            belief_names,
            agent_ids(end1),
        );
    }
}

/// `order` takes every agent of a population of `n` exactly once.
pub open spec fn is_order(order: Seq<int>, n: nat) -> bool {
    &&& order.len() == n
    &&& forall|k: int| 0 <= k < order.len() ==> 0 <= #[trigger] order[k] < n
    &&& forall|k: int, l: int| 0 <= k < l < order.len() ==> #[trigger] order[k] != #[trigger] order[l]
}

/// `next` is `cur` after agent `me` alone has perceived in tick `time`,
/// having read the population as it is now.
pub open spec fn perceive_step(
    cur: Seq<BasicAgent>,
    next: Seq<BasicAgent>,
    beliefs: Seq<BasicBelief>,
    me: int,
    time: u32,
) -> bool {
    &&& next.len() == cur.len()
    &&& forall|j: int| 0 <= j < cur.len() && j != me ==> #[trigger] next[j] == cur[j]
    &&& agent_perceived(cur, beliefs, me as u32, time, next[me])
}

/// `states` are the populations as the agents perceive one after the other
/// in the given order, each reading what those before it have left.
pub open spec fn perceived_in_order(
    states: Seq<Seq<BasicAgent>>,
    order: Seq<int>,
    beliefs: Seq<BasicBelief>,
    time: u32,
) -> bool {
    &&& states.len() == order.len() + 1
    &&& forall|k: int|
        0 <= k < order.len() ==> perceive_step(
            #[trigger] states[k],
            states[k + 1],
            beliefs,
            order[k],
            time,
        )
}

/// `next` is `cur` after agent `me` alone has acted in tick `time` on the
/// draw `u`.
pub open spec fn act_step(
    cur: Seq<BasicAgent>,
    next: Seq<BasicAgent>,
    weights: Map<u32, Map<u32, i64>>,
    behaviours: nat,
    beliefs: nat,
    me: int,
    time: u32,
    u: int,
) -> bool {
    &&& next.len() == cur.len()
    &&& forall|j: int| 0 <= j < cur.len() && j != me ==> #[trigger] next[j] == cur[j]
    &&& agent_acted(cur[me], next[me], weights, behaviours, beliefs, time, u)
}

/// `states` are the populations as the agents act one after the other in
/// the given order, agent `j` on the draw `draws[j]`.
pub open spec fn acted_in_order(
    states: Seq<Seq<BasicAgent>>,
    order: Seq<int>,
    weights: Map<u32, Map<u32, i64>>,
    behaviours: nat,
    beliefs: nat,
    time: u32,
    draws: Seq<int>,
) -> bool {
    &&& states.len() == order.len() + 1
    &&& forall|k: int|
        0 <= k < order.len() ==> act_step(
            #[trigger] states[k],
            states[k + 1],
            weights,
            behaviours,
            beliefs,
            order[k],
            time,
            draws[order[k]],
        )
}

/// Agent `j` is among the first `k` of `order`.
pub open spec fn taken(order: Seq<int>, k: int, j: int) -> bool {
    exists|l: int| 0 <= l < k && #[trigger] order[l] == j
}

/// Who is among the first `k + 1` of an order: the `k`-th, and those among
/// the first `k`; the `k`-th itself is not among the first `k`.
pub proof fn lemma_taken_step(order: Seq<int>, n: nat, k: int, j: int)
    requires
        is_order(order, n),
        0 <= k < order.len(),
    ensures
        taken(order, k + 1, j) == (order[k] == j || taken(order, k, j)),
        !taken(order, k, order[k]),
{
    if taken(order, k + 1, j) {
        let l = choose|l: int| 0 <= l < k + 1 && #[trigger] order[l] == j;
        if l < k {
            assert(taken(order, k, j));
        }
    }
    if taken(order, k, j) {
        let l = choose|l: int| 0 <= l < k && #[trigger] order[l] == j;
        assert(0 <= l < k + 1 && order[l] == j);
    }
    if order[k] == j {
        assert(0 <= k < k + 1 && order[k] == j);
    }
    if taken(order, k, order[k]) {
        let l = choose|l: int| 0 <= l < k && #[trigger] order[l] == order[k];
        assert(order[l] != order[k]);
    }
}

/// Populations in which some agents have perceived in tick `time` and the
/// others are as they were agree on the past of that tick.
pub proof fn lemma_partly_perceived_same_past(
    start: Seq<BasicAgent>,
    cur: Seq<BasicAgent>,
    beliefs: Seq<BasicBelief>,
    time: u32,
)
    requires
        cur.len() == start.len(),
        start.len() <= u32::MAX,
        forall|j: int|
            0 <= j < start.len() ==> agent_perceived(start, beliefs, j as u32, time, #[trigger] cur[j])
                || cur[j] == start[j],
    ensures
        same_past(cur, start, time),
{
    assert forall|j: int| 0 <= j < cur.len() implies {
        &&& (#[trigger] cur[j]).friends() == start[j].friends()
        &&& time > 0 ==> lookup(cur[j].actions()@, (time - 1) as u32) == lookup(
            start[j].actions()@,
            (time - 1) as u32,
        )
        &&& time > 0 ==> row_at(cur[j].rows(), (time - 1) as u32) == row_at(
            start[j].rows(),
            (time - 1) as u32,
        )
    } by {
        if cur[j] != start[j] {
            assert(agent_perceived(start, beliefs, j as u32, time, cur[j]));
        }
    }
}

/// An agent that perceives after others have, having read what they left,
/// arrives at what it would have arrived at from the population at the
/// outset.
pub proof fn lemma_perceive_reads_outset(
    start: Seq<BasicAgent>,
    cur: Seq<BasicAgent>,
    beliefs: Seq<BasicBelief>,
    me: int,
    time: u32,
    after: BasicAgent,
)
    requires
        0 <= me < start.len(),
        start.len() <= u32::MAX,
        same_past(cur, start, time),
        cur[me] == start[me],
        agent_perceived(cur, beliefs, me as u32, time, after),
    ensures
        agent_perceived(start, beliefs, me as u32, time, after),
{
    if beliefs.len() > 0 {
        assert(perceived_row(cur, beliefs, me as u32, time, beliefs.len()) =~= perceived_row(
            start,
            beliefs,
            me as u32,
            time,
            beliefs.len(),
        )) by {
            assert forall|b: u32| #[trigger]
                updated_activation(cur, beliefs, me as u32, time, b) == updated_activation(
                    start,
                    beliefs,
                    me as u32,
                    time,
                    b,
                ) by {
                lemma_kernel_reads_past(cur, start, beliefs, me as u32, time, b);
            }
        }
    }
}

/// The first `k` agents of `order` have perceived, each as the kernel gives
/// for the population `start`, and the others are as in `start`.
pub open spec fn partly_perceived(
    start: Seq<BasicAgent>,
    cur: Seq<BasicAgent>,
    order: Seq<int>,
    k: int,
    beliefs: Seq<BasicBelief>,
    time: u32,
) -> bool {
    &&& cur.len() == start.len()
    &&& forall|j: int|
        0 <= j < start.len() ==> (if taken(order, k, j) {
            agent_perceived(start, beliefs, j as u32, time, #[trigger] cur[j])
        } else {
            cur[j] == start[j]
        })
}

/// After the first `k` agents of `order` have perceived, they hold what the
/// kernel gives for the population at the outset, and the others hold what
/// they held.
pub proof fn lemma_perceived_prefix(
    states: Seq<Seq<BasicAgent>>,
    order: Seq<int>,
    beliefs: Seq<BasicBelief>,
    time: u32,
    k: int,
)
    requires
        states[0].len() <= u32::MAX,
        is_order(order, states[0].len()),
        perceived_in_order(states, order, beliefs, time),
        0 <= k <= order.len(),
    ensures
        partly_perceived(states[0], states[k], order, k, beliefs, time),
    decreases k,
{
    if k > 0 {
        lemma_perceived_prefix(states, order, beliefs, time, k - 1);
        let start = states[0];
        let cur = states[k - 1];
        let next = states[k];
        let me = order[k - 1];
        assert(perceive_step(cur, next, beliefs, me, time));
        lemma_taken_step(order, start.len(), k - 1, me);
        assert(cur[me] == start[me]);
        assert forall|j: int| 0 <= j < start.len() implies agent_perceived(
            start,
            beliefs,
            j as u32,
            time,
            #[trigger] cur[j],
        ) || cur[j] == start[j] by {}
        lemma_partly_perceived_same_past(start, cur, beliefs, time);
        lemma_perceive_reads_outset(start, cur, beliefs, me, time, next[me]);
        assert forall|j: int| 0 <= j < start.len() implies (if taken(order, k, j) {
            agent_perceived(start, beliefs, j as u32, time, #[trigger] next[j])
        } else {
            next[j] == start[j]
        }) by {
            lemma_taken_step(order, start.len(), k - 1, j);
            if j != me {
                assert(next[j] == cur[j]);
            }
        }
    }
}

/// An order that takes every agent once takes each at some position.
pub proof fn lemma_order_covers(order: Seq<int>, n: nat, j: int)
    requires
        is_order(order, n),
        0 <= j < n,
    ensures
        taken(order, order.len() as int, j),
{
    let seen = order.to_set();
    let all = Set::new(|x: int| 0 <= x < n);
    assert(order.no_duplicates());
    order.unique_seq_to_set();
    assert(seen.subset_of(all)) by {
        assert forall|x: int| seen.contains(x) implies all.contains(x) by {
            let l = choose|l: int| 0 <= l < order.len() && order[l] == x;
        }
    }
    vstd::set_lib::lemma_int_range(0, n as int);
    assert(all =~= vstd::set_lib::set_int_range(0, n as int));
    vstd::set_lib::lemma_subset_equality(seen, all);
    assert(seen.contains(j));
    let l = choose|l: int| 0 <= l < order.len() && order[l] == j;
    assert(0 <= l < order.len() && order[l] == j);
}

/// In the perceive phase the order of the agents does not matter: taken one
/// after the other in any order, each reading what those before it have
/// left, the agents arrive at the population that the phase is defined to
/// give.
pub proof fn lemma_perceive_order_free(
    states: Seq<Seq<BasicAgent>>,
    order: Seq<int>,
    beliefs: Seq<BasicBelief>,
    time: u32,
)
    requires
        states[0].len() <= u32::MAX,
        is_order(order, states[0].len()),
        perceived_in_order(states, order, beliefs, time),
    ensures
        perceived(states[0], states.last(), beliefs, time),
{
    let n = order.len() as int;
    lemma_perceived_prefix(states, order, beliefs, time, n);
    let start = states[0];
    let end = states[n];
    assert forall|j: int| 0 <= j < start.len() implies agent_perceived(
        start,
        beliefs,
        j as u32,
        time,
        #[trigger] end[j],
    ) by {
        lemma_order_covers(order, start.len(), j);
    }
}

/// The first `k` agents of `order` have acted on their draws, and the
/// others are as in `start`.
pub open spec fn partly_acted(
    start: Seq<BasicAgent>,
    cur: Seq<BasicAgent>,
    order: Seq<int>,
    k: int,
    weights: Map<u32, Map<u32, i64>>,
    behaviours: nat,
    beliefs: nat,
    time: u32,
    draws: Seq<int>,
) -> bool {
    &&& cur.len() == start.len()
    &&& forall|j: int|
        0 <= j < start.len() ==> (if taken(order, k, j) {
            agent_acted(start[j], #[trigger] cur[j], weights, behaviours, beliefs, time, draws[j])
        } else {
            cur[j] == start[j]
        })
}

/// After the first `k` agents of `order` have acted, they have acted on
/// their draws, and the others are as they were.
pub proof fn lemma_acted_prefix(
    states: Seq<Seq<BasicAgent>>,
    order: Seq<int>,
    weights: Map<u32, Map<u32, i64>>,
    behaviours: nat,
    beliefs: nat,
    time: u32,
    draws: Seq<int>,
    k: int,
)
    requires
        is_order(order, states[0].len()),
        acted_in_order(states, order, weights, behaviours, beliefs, time, draws),
        0 <= k <= order.len(),
    ensures
        partly_acted(states[0], states[k], order, k, weights, behaviours, beliefs, time, draws),
    decreases k,
{
    if k > 0 {
        lemma_acted_prefix(states, order, weights, behaviours, beliefs, time, draws, k - 1);
        let start = states[0];
        let cur = states[k - 1];
        let next = states[k];
        let me = order[k - 1];
        assert(act_step(cur, next, weights, behaviours, beliefs, me, time, draws[me]));
        lemma_taken_step(order, start.len(), k - 1, me);
        assert(cur[me] == start[me]);
        assert forall|j: int| 0 <= j < start.len() implies (if taken(order, k, j) {
            agent_acted(start[j], #[trigger] next[j], weights, behaviours, beliefs, time, draws[j])
        } else {
            next[j] == start[j]
        }) by {
            lemma_taken_step(order, start.len(), k - 1, j);
            if j != me {
                assert(next[j] == cur[j]);
            }
        }
    }
}

/// In the act phase the order of the agents does not matter either: taken
/// one after the other in any order, each on its own draw, the agents
/// arrive at the population that the phase is defined to give.
pub proof fn lemma_act_order_free(
    states: Seq<Seq<BasicAgent>>,
    order: Seq<int>,
    weights: Map<u32, Map<u32, i64>>,
    behaviours: nat,
    beliefs: nat,
    time: u32,
    draws: Seq<int>,
)
    requires
        is_order(order, states[0].len()),
        acted_in_order(states, order, weights, behaviours, beliefs, time, draws),
        draws.len() == states[0].len(),
    ensures
        acted(states[0], states.last(), weights, behaviours, beliefs, time, draws),
{
    let n = order.len() as int;
    lemma_acted_prefix(states, order, weights, behaviours, beliefs, time, draws, n);
    let start = states[0];
    let end = states[n];
    assert forall|j: int| 0 <= j < start.len() implies agent_acted(
        start[j],
        #[trigger] end[j],
        weights,
        behaviours,
        beliefs,
        time,
        draws[j],
    ) by {
        lemma_order_covers(order, start.len(), j);
    }
}

} // verus!
