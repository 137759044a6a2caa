//! The runner: tick by tick, every agent first updates what it believes and
//! then chooses what to do.

use crate::entity::{
    agent_ids, behaviour_ids, belief_ids, ids_of_agents, ids_of_behaviours, ids_of_beliefs,
    keys_below, lookup, row_at, BasicAgent, BasicBehaviour, BasicBelief, SimTime,
};
use crate::json::{agent_recorded, AgentSpec};
use crate::fixed::{in_unit, ONE};
use crate::error::Error;
use crate::kernel::{
    has_prior, lemma_kernel_reads_past, perceived_row, same_past,
    update_activation_for_all_beliefs_for_agent, updated_activation,
};
use crate::performance_relationships::PerformanceRelationships;
use crate::rng::uniform_below;
use crate::select::{
    behaviour_scores, chosen, choose_behaviour, lemma_chosen_in_range, lemma_scores_bounded,
    needs_draw, scores,
};
use vstd::prelude::*;

verus! {

/// A model and the ticks to run it for.
pub struct Configuration {
    /// The behaviours; a behaviour's handle is its position here.
    pub behaviours: Vec<BasicBehaviour>,
    /// The beliefs; a belief's handle is its position here.
    pub beliefs: Vec<BasicBelief>,
    /// The agents; an agent's handle is its position here.
    pub agents: Vec<BasicAgent>,
    /// The performance relationships.
    pub prs: PerformanceRelationships,
    /// The first tick to run.
    pub start_time: SimTime,
    /// The last tick to run.
    pub end_time: SimTime,
}

impl Configuration {
    /// Every entity is well formed, and each arena is small enough for a
    /// handle to number its entities.
    pub open spec fn wf(&self) -> bool {
        &&& self.behaviours@.len() <= u32::MAX
        &&& self.beliefs@.len() <= u32::MAX
        &&& self.agents@.len() <= u32::MAX
        &&& forall|j: int| 0 <= j < self.beliefs@.len() ==> (#[trigger] self.beliefs@[j]).wf()
        &&& forall|j: int| 0 <= j < self.agents@.len() ==> (#[trigger] self.agents@[j]).wf()
        &&& self.prs.wf()
    }

    /// Every handle in a table of a belief or of an agent is one of an
    /// entity of the model.
    pub open spec fn linked(&self) -> bool {
        &&& forall|j: int|
            0 <= j < self.beliefs@.len() ==> (#[trigger] self.beliefs@[j]).linked(
                self.behaviours@.len(),
                self.beliefs@.len(),
            )
        &&& agents_linked(
            self.agents@,
            self.behaviours@.len(),
            self.beliefs@.len(),
        )
    }

    /// The model can be run: unless its interval is empty, there is a tick
    /// before the first one, and every agent holds every belief at it.
    pub open spec fn ready(&self) -> bool {
        self.start_time <= self.end_time ==> prepared(
            self.agents@,
            self.beliefs@.len(),
            self.start_time,
        )
    }

    /// `other` is the same model in the same interval, whatever its agents
    /// have come to hold and do.
    pub open spec fn same_model(&self, other: &Configuration) -> bool {
        &&& self.behaviours@ == other.behaviours@
        &&& self.beliefs@ == other.beliefs@
        &&& self.prs == other.prs
        &&& self.start_time == other.start_time
        &&& self.end_time == other.end_time
        &&& self.agents@.len() == other.agents@.len()
    }
}

/// `records` are the records of `agents`, one for each and in their order,
/// in a model whose entities are known by these identifiers.
pub open spec fn agents_recorded(
    agents: Seq<BasicAgent>,
    records: Seq<AgentSpec>,
    behaviours: Seq<u128>,
    beliefs: Seq<u128>,
) -> bool {
    &&& records.len() == agents.len()
    &&& forall|i: int|
        0 <= i < agents.len() ==> agent_recorded(
            agents[i],
            #[trigger] records[i],
            behaviours,
            beliefs,
            agent_ids(agents),
        )
}

/// Every handle in a table of an agent is one of an entity of a model with
/// these agents and that many behaviours and beliefs.
pub open spec fn agents_linked(agents: Seq<BasicAgent>, behaviours: nat, beliefs: nat) -> bool {
    forall|j: int|
        0 <= j < agents.len() ==> (#[trigger] agents[j]).linked(behaviours, beliefs, agents.len())
}

/// Tick `time` can be run: there is a tick before it, and every agent holds
/// each of the beliefs `0 .. beliefs` at that tick.
pub open spec fn prepared(agents: Seq<BasicAgent>, beliefs: nat, time: u32) -> bool {
    &&& time >= 1
    &&& forall|j: int| 0 <= j < agents.len() ==> has_prior(#[trigger] agents[j], time, beliefs)
}

/// `after` is agent `me` of `agents` once the kernel has run for it in tick
/// `time`: its row at `time` holds the new activation of every belief, and
/// nothing else has changed.
pub open spec fn agent_perceived(
    agents: Seq<BasicAgent>,
    beliefs: Seq<BasicBelief>,
    me: u32,
    time: u32,
    after: BasicAgent,
) -> bool {
    let before = agents[me as int];
    &&& after.wf()
    &&& after.id() == before.id()
    &&& after.actions() == before.actions()
    &&& after.deltas() == before.deltas()
    &&& after.friends() == before.friends()
    &&& beliefs.len() > 0 ==> after.rows() == before.rows().insert(
        time,
        perceived_row(agents, beliefs, me, time, beliefs.len()),
    )
    &&& beliefs.len() == 0 ==> after.activations() == before.activations()
}

/// `after` is the population `before` once every agent has perceived in tick
/// `time`. Each agent's new row is computed from `before`, so the relation
/// does not depend on the order in which agents are taken.
pub open spec fn perceived(
    before: Seq<BasicAgent>,
    after: Seq<BasicAgent>,
    beliefs: Seq<BasicBelief>,
    time: u32,
) -> bool {
    &&& after.len() == before.len()
    &&& forall|j: int|
        0 <= j < before.len() ==> agent_perceived(before, beliefs, j as u32, time, #[trigger] after[j])
}

/// `after` is the agent `before` once it has acted in tick `time` on the
/// draw `u`: its action at `time` is the chosen behaviour, and nothing else
/// has changed. Without behaviours there is nothing to choose.
pub open spec fn agent_acted(
    before: BasicAgent,
    after: BasicAgent,
    weights: Map<u32, Map<u32, i64>>,
    behaviours: nat,
    beliefs: nat,
    time: u32,
    u: int,
) -> bool {
    &&& after.wf()
    &&& after.id() == before.id()
    &&& after.activations() == before.activations()
    &&& after.deltas() == before.deltas()
    &&& after.friends() == before.friends()
    &&& behaviours > 0 ==> after.actions()@ == before.actions()@.insert(
        time,
        chosen(scores(weights, row_at(before.rows(), time), behaviours, beliefs), u) as u32,
    )
    &&& behaviours == 0 ==> after.actions() == before.actions()
}

/// `after` is the population `before` once every agent has acted in tick
/// `time`, agent `j` on the draw `draws[j]`.
pub open spec fn acted(
    before: Seq<BasicAgent>,
    after: Seq<BasicAgent>,
    weights: Map<u32, Map<u32, i64>>,
    behaviours: nat,
    beliefs: nat,
    time: u32,
    draws: Seq<int>,
) -> bool {
    &&& after.len() == before.len()
    &&& draws.len() == before.len()
    &&& forall|j: int|
        0 <= j < before.len() ==> agent_acted(
            before[j],
            #[trigger] after[j],
            weights,
            behaviours,
            beliefs,
            time,
            draws[j],
        )
}

/// Stored draws as numbers.
pub open spec fn as_draws(draws: Seq<i64>) -> Seq<int> {
    Seq::new(draws.len(), |j: int| draws[j] as int)
}

/// Every draw is a number of `[0, 1)`.
pub open spec fn draws_in_range(draws: Seq<int>) -> bool {
    forall|j: int| 0 <= j < draws.len() ==> 0 <= #[trigger] draws[j] < ONE
}

/// `after` is the population `before` one tick later: all agents perceived,
/// which gave `mid`, and then all agents acted on `draws`.
pub open spec fn ticked(
    before: Seq<BasicAgent>,
    mid: Seq<BasicAgent>,
    after: Seq<BasicAgent>,
    beliefs: Seq<BasicBelief>,
    weights: Map<u32, Map<u32, i64>>,
    behaviours: nat,
    time: u32,
    draws: Seq<int>,
) -> bool {
    &&& perceived(before, mid, beliefs, time)
    &&& acted(mid, after, weights, behaviours, beliefs.len(), time, draws)
}

/// The agent holds, at `time`, an activation in `[-1, 1]` of each of the
/// beliefs `0 .. beliefs`.
pub open spec fn holds_all(agent: BasicAgent, time: u32, beliefs: nat) -> bool {
    forall|b: u32|
        b < beliefs ==> ((#[trigger] agent.activation(time, b)) matches Some(v) && in_unit(v as int))
}

/// The agent has, at `time`, performed one of the behaviours
/// `0 .. behaviours`.
pub open spec fn has_acted(agent: BasicAgent, time: u32, behaviours: nat) -> bool {
    (lookup(agent.actions()@, time) matches Some(h) && h < behaviours)
}

/// Every agent holds every belief and, where there are behaviours, has acted
/// at every tick from `start` up to, but not including, `until`.
pub open spec fn completed(
    agents: Seq<BasicAgent>,
    start: u32,
    until: int,
    beliefs: nat,
    behaviours: nat,
) -> bool {
    forall|j: int, t: u32|
        0 <= j < agents.len() && start <= t < until ==> #[trigger] holds_all(agents[j], t, beliefs)
            && (behaviours > 0 ==> has_acted(agents[j], t, behaviours))
}

/// The course of a run: the population before the first tick and after each
/// tick, the population between the two phases of each tick, and the draws
/// on which the agents acted in each tick.
pub struct History {
    /// `states[0]` is the population at the outset, `states[i + 1]` the one
    /// after the `i`-th tick of the run.
    pub states: Seq<Seq<BasicAgent>>,
    /// `mids[i]` is the population in the `i`-th tick after all agents
    /// perceived and before any acted.
    pub mids: Seq<Seq<BasicAgent>>,
    /// `draws[i][j]` is the draw on which agent `j` acted in the `i`-th tick.
    pub draws: Seq<Seq<int>>,
}

/// The `i`-th tick of `h` is a tick of the model at time `start + i`.
pub open spec fn step_ok(
    h: History,
    beliefs: Seq<BasicBelief>,
    weights: Map<u32, Map<u32, i64>>,
    behaviours: nat,
    start: u32,
    i: int,
) -> bool {
    &&& ticked(
        h.states[i],
        h.mids[i],
        h.states[i + 1],
        beliefs,
        weights,
        behaviours,
        (start + i) as u32,
        h.draws[i],
    )
}

/// `h` is the course of a run of the model over the ticks
/// `start, start + 1, ...`, one tick after the other.
pub open spec fn is_run(
    h: History,
    beliefs: Seq<BasicBelief>,
    weights: Map<u32, Map<u32, i64>>,
    behaviours: nat,
    start: u32,
) -> bool {
    &&& h.states.len() == h.mids.len() + 1
    &&& h.draws.len() == h.mids.len()
    &&& forall|i: int|
        0 <= i < h.mids.len() ==> #[trigger] step_ok(h, beliefs, weights, behaviours, start, i)
}

/// Every draw of every tick is a number of `[0, 1)`.
pub open spec fn rows_in_range(draws: Seq<Seq<int>>) -> bool {
    forall|i: int| 0 <= i < draws.len() ==> draws_in_range(#[trigger] draws[i])
}

/// Stored draws of several ticks as numbers.
pub open spec fn as_draw_rows(draws: Seq<Vec<i64>>) -> Seq<Seq<int>> {
    Seq::new(draws.len(), |i: int| as_draws(draws[i]@))
}

/// A run goes on by one tick: if `g` is the course of a run and the
/// population it ends in goes through one more tick, `g` with that tick
/// appended is the course of a run.
pub proof fn lemma_run_extends(
    g: History,
    mid: Seq<BasicAgent>,
    after: Seq<BasicAgent>,
    draws: Seq<int>,
    beliefs: Seq<BasicBelief>,
    weights: Map<u32, Map<u32, i64>>,
    behaviours: nat,
    start: u32,
)
    requires
        is_run(g, beliefs, weights, behaviours, start),
        ticked(
            g.states.last(),
            mid,
            after,
            beliefs,
            weights,
            behaviours,
            (start + g.mids.len()) as u32,
            draws,
        ),
    ensures
        is_run(
            History {
                states: g.states.push(after),
                mids: g.mids.push(mid),
                draws: g.draws.push(draws),
            },
            beliefs,
            weights,
            behaviours,
            start,
        ),
{
    let h = History {
        states: g.states.push(after),
        mids: g.mids.push(mid),
        draws: g.draws.push(draws),
    };
    assert forall|i: int| 0 <= i < h.mids.len() implies #[trigger] step_ok(
        h,
        beliefs,
        weights,
        behaviours,
        start,
        i,
    ) by {
        if i < g.mids.len() {
            assert(step_ok(g, beliefs, weights, behaviours, start, i));
            assert(h.states[i] == g.states[i]);
            assert(h.states[i + 1] == g.states[i + 1]);
            assert(h.mids[i] == g.mids[i]);
            assert(h.draws[i] == g.draws[i]);
        } else {
            assert(h.states[i] == g.states.last());
        }
    }
}

/// The number of ticks from `start` to `end`, both included.
pub open spec fn ticks(start: u32, end: u32) -> nat {
    if start <= end {
        (end - start + 1) as nat
    } else {
        0
    }
}

/// What one tick does to one agent. At the tick's time the agent comes to
/// hold the kernel's activation of every belief and to perform the chosen
/// behaviour, which is one of the model's; what it held and did at any other
/// time stays as it was.
pub proof fn lemma_tick_effects(
    before: Seq<BasicAgent>,
    mid: Seq<BasicAgent>,
    after: Seq<BasicAgent>,
    beliefs: Seq<BasicBelief>,
    weights: Map<u32, Map<u32, i64>>,
    behaviours: nat,
    time: u32,
    draws: Seq<int>,
    j: int,
)
    requires
        ticked(before, mid, after, beliefs, weights, behaviours, time, draws),
        0 <= j < before.len(),
        before.len() <= u32::MAX,
        beliefs.len() <= u32::MAX,
    ensures
        after.len() == before.len(),
        after[j].wf(),
        after[j].id() == before[j].id(),
        after[j].friends() == before[j].friends(),
        after[j].deltas() == before[j].deltas(),
        forall|b: u32|
            b < beliefs.len() ==> #[trigger] after[j].activation(time, b) == Some(
                updated_activation(before, beliefs, j as u32, time, b) as i64,
            ),
        holds_all(after[j], time, beliefs.len()),
        forall|t: u32, b: u32|
            t != time ==> #[trigger] after[j].activation(t, b) == before[j].activation(t, b),
        behaviours > 0 ==> lookup(after[j].actions()@, time) == Some(
            chosen(scores(weights, row_at(mid[j].rows(), time), behaviours, beliefs.len()), draws[j]) as u32,
        ),
        behaviours > 0 ==> has_acted(after[j], time, behaviours),
        forall|t: u32|
            t != time ==> #[trigger] lookup(after[j].actions()@, t) == lookup(before[j].actions()@, t),
        before[j].linked(behaviours, beliefs.len(), before.len()) ==> after[j].linked(
            behaviours,
            beliefs.len(),
            after.len(),
        ),
{
    assert(agent_perceived(before, beliefs, j as u32, time, mid[j]));
    assert(agent_acted(mid[j], after[j], weights, behaviours, beliefs.len(), time, draws[j]));
    assert(after[j].rows() == mid[j].rows());
    if beliefs.len() > 0 {
        assert(mid[j].rows().dom().contains(time));
        assert(mid[j].rows()[time] == perceived_row(before, beliefs, j as u32, time, beliefs.len()));
    }
    assert forall|b: u32| b < beliefs.len() implies ((#[trigger] after[j].activation(time, b))
        matches Some(v) && in_unit(v as int)) by {
        assert(crate::entity::all_in_unit(after[j].rows()[time]));
        assert(after[j].rows()[time].dom().contains(b));
    }
    if behaviours > 0 {
        let row = row_at(mid[j].rows(), time);
        assert(mid[j].rows().dom().contains(time) ==> crate::entity::all_in_unit(
            mid[j].rows()[time],
        ));
        lemma_scores_bounded(weights, row, behaviours, beliefs.len());
        lemma_chosen_in_range(scores(weights, row, behaviours, beliefs.len()), draws[j]);
    }
    if before[j].linked(behaviours, beliefs.len(), before.len()) {
        assert forall|t: u32| #[trigger] after[j].actions()@.dom().contains(t) implies after[j].actions()@[t]
            < behaviours by {
            if behaviours > 0 && t != time {
                assert(before[j].actions()@.dom().contains(t));
            }
        }
        assert forall|t: u32| #[trigger] after[j].rows().dom().contains(t) implies keys_below(
            after[j].rows()[t],
            beliefs.len(),
        ) by {
            if beliefs.len() > 0 {
                if t != time {
                    assert(before[j].rows().dom().contains(t));
                } else {
                    if before[j].rows().dom().contains(time) {
                        assert(keys_below(before[j].rows()[time], beliefs.len()));
                    }
                }
            } else {
                assert(after[j].rows() == before[j].rows());
            }
        }
    }
}

/// An agent that has perceived names no entity that it did not name before,
/// other than the beliefs of the model.
pub proof fn lemma_perceived_keeps_links(
    agents: Seq<BasicAgent>,
    beliefs: Seq<BasicBelief>,
    me: u32,
    time: u32,
    after: BasicAgent,
    behaviours: nat,
)
    requires
        me < agents.len(),
        beliefs.len() <= u32::MAX,
        agent_perceived(agents, beliefs, me, time, after),
        agents[me as int].linked(behaviours, beliefs.len(), agents.len()),
    ensures
        after.linked(behaviours, beliefs.len(), agents.len()),
{
    let before = agents[me as int];
    assert forall|t: u32| #[trigger] after.rows().dom().contains(t) implies keys_below(
        after.rows()[t],
        beliefs.len(),
    ) by {
        if beliefs.len() > 0 {
            if t != time {
                assert(before.rows().dom().contains(t));
            } else {
                if before.rows().dom().contains(time) {
                    assert(keys_below(before.rows()[time], beliefs.len()));
                }
            }
        } else {
            assert(after.rows() == before.rows());
        }
    }
}

/// An agent that has acted names no entity that it did not name before,
/// other than a behaviour of the model.
pub proof fn lemma_acted_keeps_links(
    before: BasicAgent,
    after: BasicAgent,
    weights: Map<u32, Map<u32, i64>>,
    behaviours: nat,
    beliefs: nat,
    agents: nat,
    time: u32,
    u: int,
)
    requires
        before.wf(),
        beliefs <= u32::MAX,
        agent_acted(before, after, weights, behaviours, beliefs, time, u),
        before.linked(behaviours, beliefs, agents),
    ensures
        after.linked(behaviours, beliefs, agents),
{
    assert(after.rows() == before.rows());
    if behaviours > 0 {
        let row = row_at(before.rows(), time);
        assert(before.rows().dom().contains(time) ==> crate::entity::all_in_unit(
            before.rows()[time],
        ));
        lemma_scores_bounded(weights, row, behaviours, beliefs);
        lemma_chosen_in_range(scores(weights, row, behaviours, beliefs), u);
    }
    assert forall|t: u32| #[trigger] after.actions()@.dom().contains(t) implies after.actions()@[t]
        < behaviours by {
        if behaviours > 0 && t != time {
            assert(before.actions()@.dom().contains(t));
        }
    }
}

/// A tick completes its own time and leaves earlier ones complete.
pub proof fn lemma_tick_completes(
    before: Seq<BasicAgent>,
    mid: Seq<BasicAgent>,
    after: Seq<BasicAgent>,
    beliefs: Seq<BasicBelief>,
    weights: Map<u32, Map<u32, i64>>,
    behaviours: nat,
    start: u32,
    time: u32,
    draws: Seq<int>,
)
    requires
        ticked(before, mid, after, beliefs, weights, behaviours, time, draws),
        before.len() <= u32::MAX,
        beliefs.len() <= u32::MAX,
        completed(before, start, time as int, beliefs.len(), behaviours),
    ensures
        completed(after, start, time + 1, beliefs.len(), behaviours),
        agents_linked(before, behaviours, beliefs.len()) ==> agents_linked(
            after,
            behaviours,
            beliefs.len(),
        ),
{
    assert forall|j: int, t: u32|
        0 <= j < after.len() && start <= t < time + 1 implies #[trigger] holds_all(
        after[j],
        t,
        beliefs.len(),
    ) && (behaviours > 0 ==> has_acted(after[j], t, behaviours)) by {
        lemma_tick_effects(before, mid, after, beliefs, weights, behaviours, time, draws, j);
        if t != time {
            assert(holds_all(before[j], t, beliefs.len()));
            assert forall|b: u32| b < beliefs.len() implies ((#[trigger] after[j].activation(t, b))
                matches Some(v) && in_unit(v as int)) by {
                assert(after[j].activation(t, b) == before[j].activation(t, b));
            }
            if behaviours > 0 {
                assert(has_acted(before[j], t, behaviours));
                assert(lookup(after[j].actions()@, t) == lookup(before[j].actions()@, t));
            }
        }
    }
    if agents_linked(before, behaviours, beliefs.len()) {
        assert forall|j: int| 0 <= j < after.len() implies (#[trigger] after[j]).linked(
            behaviours,
            beliefs.len(),
            after.len(),
        ) by {
            assert(before[j].linked(behaviours, beliefs.len(), before.len()));
            lemma_tick_effects(before, mid, after, beliefs, weights, behaviours, time, draws, j);
        }
    }
}

/// Once a tick is complete, the next one can be run.
pub proof fn lemma_completed_prepares(
    agents: Seq<BasicAgent>,
    start: u32,
    time: u32,
    beliefs: nat,
    behaviours: nat,
)
    requires
        start <= time < u32::MAX,
        completed(agents, start, time + 1, beliefs, behaviours),
    ensures
        prepared(agents, beliefs, (time + 1) as u32),
{
    assert forall|j: int| 0 <= j < agents.len() implies has_prior(
        #[trigger] agents[j],
        (time + 1) as u32,
        beliefs,
    ) by {
        assert(holds_all(agents[j], time, beliefs));
    }
}

/// The first of the beliefs `0 .. n` that the agent does not hold at
/// `time`, if there is one.
pub open spec fn first_gap_in(agent: BasicAgent, time: u32, n: nat) -> Option<u32>
    decreases n,
{
    if n == 0 {
        None
    } else {
        match first_gap_in(agent, time, (n - 1) as nat) {
            Some(b) => Some(b),
            None => if agent.activation(time, (n - 1) as u32).is_none() {
                Some((n - 1) as u32)
            } else {
                None
            },
        }
    }
}

/// The first of the first `k` agents that does not hold each of the beliefs
/// `0 .. n` at `time`, with the first belief that it does not hold, if there
/// is such an agent.
pub open spec fn first_gap(agents: Seq<BasicAgent>, time: u32, n: nat, k: nat) -> Option<
    (int, u32),
>
    decreases k,
{
    if k == 0 {
        None
    } else {
        match first_gap(agents, time, n, (k - 1) as nat) {
            Some(g) => Some(g),
            None => match first_gap_in(agents[k - 1], time, n) {
                Some(b) => Some((k - 1, b)),
                None => None,
            },
        }
    }
}

/// The first gap of an agent is a belief that it does not hold, and it
/// holds every belief before that one.
pub proof fn lemma_gap_in(agent: BasicAgent, time: u32, n: nat)
    requires
        n <= u32::MAX,
    ensures
        match first_gap_in(agent, time, n) {
            Some(b) => b < n && agent.activation(time, b).is_none() && forall|c: u32|
                c < b ==> (#[trigger] agent.activation(time, c)).is_some(),
            None => forall|c: u32| c < n ==> (#[trigger] agent.activation(time, c)).is_some(),
        },
    decreases n,
{
    if n > 0 {
        lemma_gap_in(agent, time, (n - 1) as nat);
    }
}

/// The first gap of a population is at its first agent that has one.
pub proof fn lemma_gap(agents: Seq<BasicAgent>, time: u32, n: nat, k: nat)
    requires
        k <= agents.len(),
    ensures
        match first_gap(agents, time, n, k) {
            Some(g) => 0 <= g.0 < k && first_gap_in(agents[g.0], time, n) == Some(g.1)
                && forall|i: int|
                0 <= i < g.0 ==> first_gap_in(#[trigger] agents[i], time, n).is_none(),
            None => forall|i: int|
                0 <= i < k ==> first_gap_in(#[trigger] agents[i], time, n).is_none(),
        },
    decreases k,
{
    if k > 0 {
        lemma_gap(agents, time, n, (k - 1) as nat);
    }
}

impl Configuration {
    /// What keeps the model from being run, if anything: its first tick has
    /// no tick before it, or an agent does not hold a belief at the tick
    /// before the first (the first such agent, and its first such belief).
    /// An empty interval can always be run.
    pub open spec fn ready_error(&self) -> Option<Error> {
        if self.start_time > self.end_time {
            None
        } else if self.start_time == 0 {
            Some(Error::TickOutOfRange { time: 0 })
        } else {
            let before = (self.start_time - 1) as u32;
            match first_gap(self.agents@, before, self.beliefs@.len(), self.agents@.len()) {
                Some(g) => Some(
                    Error::MissingActivation {
                        agent: self.agents@[g.0].id(),
                        time: before,
                        belief: self.beliefs@[g.1 as int].id(),
                    },
                ),
                None => None,
            }
        }
    }

    /// Whether the model can be run, and if not, why not.
    pub fn check(&self) -> (r: Result<(), Error>)
        requires
            self.wf(),
        ensures
            match self.ready_error() {
                Some(e) => r == Err::<(), Error>(e) && !self.ready(),
                None => r == Ok::<(), Error>(()) && self.ready(),
            },
    {
        if self.start_time > self.end_time {
            return Ok(());
        }
        if self.start_time == 0 {
            return Err(Error::TickOutOfRange { time: 0 });
        }
        let before: SimTime = self.start_time - 1;
        let beliefs: u32 = self.beliefs.len() as u32;
        let agents: usize = self.agents.len();
        let mut j: usize = 0;
        while j < agents
            invariant
                j <= agents,
                agents == self.agents@.len(),
                beliefs == self.beliefs@.len(),
                self.wf(),
                1 <= self.start_time <= self.end_time,
                before == self.start_time - 1,
                forall|i: int|
                    0 <= i < j ==> first_gap_in(
                        #[trigger] self.agents@[i],
                        before,
                        beliefs as nat,
                    ).is_none(),
            decreases agents - j,
        {
            let mut b: u32 = 0;
            while b < beliefs
                invariant
                    b <= beliefs,
                    j < agents,
                    agents == self.agents@.len(),
                    beliefs == self.beliefs@.len(),
                    self.wf(),
                    1 <= self.start_time <= self.end_time,
                    before == self.start_time - 1,
                    forall|i: int|
                        0 <= i < j ==> first_gap_in(
                            #[trigger] self.agents@[i],
                            before,
                            beliefs as nat,
                        ).is_none(),
                    forall|c: u32|
                        c < b ==> (#[trigger] self.agents@[j as int].activation(before, c)).is_some(),
                decreases beliefs - b,
            {
                if self.agents[j].get_activation(before, b).is_none() {
                    proof {
                        let agent = self.agents@[j as int];
                        lemma_gap_in(agent, before, beliefs as nat);
                        assert(first_gap_in(agent, before, beliefs as nat) == Some(b));
                        lemma_gap(self.agents@, before, beliefs as nat, agents as nat);
                        let g = first_gap(self.agents@, before, beliefs as nat, agents as nat);
                        assert(g == Some((j as int, b)));
                        assert(!has_prior(agent, self.start_time, beliefs as nat));
                    }
                    return Err(
                        Error::MissingActivation {
                            agent: self.agents[j].uuid(),
                            time: before,
                            belief: self.beliefs[b as usize].uuid(),
                        },
                    );
                }
                b = b + 1;
            }
            proof {
                lemma_gap_in(self.agents@[j as int], before, beliefs as nat);
            }
            j = j + 1;
        }
        proof {
            lemma_gap(self.agents@, before, beliefs as nat, agents as nat);
            assert forall|i: int| 0 <= i < self.agents@.len() implies has_prior(
                #[trigger] self.agents@[i],
                self.start_time,
                beliefs as nat,
            ) by {
                lemma_gap_in(self.agents@[i], before, beliefs as nat);
            }
        }
        Ok(())
    }
}

/// Where a run stands: what is to be done next.
#[derive(Debug, Clone, Copy, PartialEq, Eq)]
pub enum Phase {
    /// Nothing has been done yet.
    Initialised,
    /// The agents are to perceive in this tick.
    Perceiving(SimTime),
    /// The agents have perceived in this tick and are to act in it.
    Acting(SimTime),
    /// All ticks have been run; the agents are to be written out.
    Finalising,
    /// Nothing is left to do.
    Done,
}

/// The phase that follows `phase` in a run from `start` to `end`: within a
/// tick acting follows perceiving, the next tick follows acting, and after
/// the last tick the run is brought to its end.
pub open spec fn next_phase(phase: Phase, start: u32, end: u32) -> Phase {
    match phase {
        Phase::Initialised => if start <= end {
            Phase::Perceiving(start)
        } else {
            Phase::Finalising
        },
        Phase::Perceiving(t) => Phase::Acting(t),
        Phase::Acting(t) => if t < end {
            Phase::Perceiving((t + 1) as u32)
        } else {
            Phase::Finalising
        },
        Phase::Finalising => Phase::Done,
        Phase::Done => Phase::Done,
    }
}

/// The population is where `phase` takes it up: before a run it is ready to
/// be run, before perceiving in a tick every agent holds every belief at the
/// tick before, before acting in a tick every agent holds every belief at
/// that tick.
pub open spec fn phase_ready(
    agents: Seq<BasicAgent>,
    beliefs: nat,
    phase: Phase,
    start: u32,
    end: u32,
) -> bool {
    match phase {
        Phase::Initialised => start <= end ==> prepared(agents, beliefs, start),
        Phase::Perceiving(t) => start <= t <= end && prepared(agents, beliefs, t),
        Phase::Acting(t) => start <= t <= end && forall|j: int|
            0 <= j < agents.len() ==> holds_all(#[trigger] agents[j], t, beliefs),
        Phase::Finalising => true,
        Phase::Done => true,
    }
}

/// The two phases of a tick, one after the other, are the tick: what
/// [`Runner::advance`] does for [`Phase::Perceiving`] and then for
/// [`Phase::Acting`] of one tick is what [`Runner::tick`] does.
pub proof fn lemma_phases_make_a_tick(
    before: Seq<BasicAgent>,
    mid: Seq<BasicAgent>,
    after: Seq<BasicAgent>,
    beliefs: Seq<BasicBelief>,
    weights: Map<u32, Map<u32, i64>>,
    behaviours: nat,
    time: u32,
    draws: Seq<int>,
)
    requires
        perceived(before, mid, beliefs, time),
        acted(mid, after, weights, behaviours, beliefs.len(), time, draws),
    ensures
        ticked(before, mid, after, beliefs, weights, behaviours, time, draws),
{
}

/// An agent that has perceived in a tick holds every belief at that tick.
pub proof fn lemma_perceived_holds(
    agents: Seq<BasicAgent>,
    beliefs: Seq<BasicBelief>,
    me: u32,
    time: u32,
    after: BasicAgent,
)
    requires
        me < agents.len(),
        beliefs.len() <= u32::MAX,
        agent_perceived(agents, beliefs, me, time, after),
    ensures
        holds_all(after, time, beliefs.len()),
{
    if beliefs.len() > 0 {
        assert(after.rows().dom().contains(time));
        assert(after.rows()[time] == perceived_row(agents, beliefs, me, time, beliefs.len()));
        assert forall|b: u32| b < beliefs.len() implies ((#[trigger] after.activation(time, b))
            matches Some(v) && in_unit(v as int)) by {
            assert(crate::entity::all_in_unit(after.rows()[time]));
            assert(after.rows()[time].dom().contains(b));
        }
    }
}

/// Drives a model through its ticks.
pub struct Runner {
    /// The model that is run.
    pub config: Configuration,
}

impl Runner {
    /// Once one agent of a linked model has acted, the model is linked.
    proof fn lemma_one_acted_keeps_links(&self, before: &Runner, agent: u32, time: u32, u: int)
        requires
            before.config.wf(),
            self.config.same_model(&before.config),
            agent < before.config.agents@.len(),
            forall|j: int|
                0 <= j < before.config.agents@.len() && j != agent ==> (
                #[trigger] self.config.agents@[j]) == before.config.agents@[j],
            agent_acted(
                before.config.agents@[agent as int],
                self.config.agents@[agent as int],
                before.config.prs.weights(),
                before.config.behaviours@.len(),
                before.config.beliefs@.len(),
                time,
                u,
            ),
        ensures
            before.config.linked() ==> self.config.linked(),
    {
        if before.config.linked() {
            let was = before.config.agents@;
            let now = self.config.agents@;
            assert forall|j: int| 0 <= j < now.len() implies (#[trigger] now[j]).linked(
                self.config.behaviours@.len(),
                self.config.beliefs@.len(),
                now.len(),
            ) by {
                assert(was[j].linked(
                    before.config.behaviours@.len(),
                    before.config.beliefs@.len(),
                    was.len(),
                ));
                if j == agent {
                    lemma_acted_keeps_links(
                        was[j],
                        now[j],
                        before.config.prs.weights(),
                        before.config.behaviours@.len(),
                        before.config.beliefs@.len(),
                        was.len(),
                        time,
                        u,
                    );
                } else {
                    assert(now[j] == was[j]);
                }
            }
            assert forall|j: int| 0 <= j < self.config.beliefs@.len() implies (
            #[trigger] self.config.beliefs@[j]).linked(
                self.config.behaviours@.len(),
                self.config.beliefs@.len(),
            ) by {
                assert(before.config.beliefs@[j].linked(
                    before.config.behaviours@.len(),
                    before.config.beliefs@.len(),
                ));
            }
        }
    }

    /// Lets every agent update its activation of every belief for tick
    /// `time`.
    pub fn perceive_beliefs(&mut self, time: SimTime)
        requires
            old(self).config.wf(),
            prepared(old(self).config.agents@, old(self).config.beliefs@.len(), time),
        ensures
            final(self).config.wf(),
            final(self).config.same_model(&old(self).config),
            perceived(
                old(self).config.agents@,
                final(self).config.agents@,
                old(self).config.beliefs@,
                time,
            ),
            old(self).config.linked() ==> final(self).config.linked(),
    {
        let ghost start = self.config.agents@;
        let ghost beliefs = self.config.beliefs@;
        let n: u32 = self.config.agents.len() as u32;
        let mut me: u32 = 0;
        while me < n
            invariant
                me <= n,
                n == start.len(),
                self.config.wf(),
                self.config.same_model(&old(self).config),
                self.config.agents@.len() == start.len(),
                start == old(self).config.agents@,
                beliefs == self.config.beliefs@,
                prepared(start, beliefs.len(), time),
                forall|j: int| 0 <= j < start.len() ==> (#[trigger] start[j]).wf(),
                forall|j: int|
                    0 <= j < me ==> agent_perceived(
                        start,
                        beliefs,
                        j as u32,
                        time,
                        #[trigger] self.config.agents@[j],
                    ),
                forall|j: int| me <= j < start.len() ==> (#[trigger] self.config.agents@[j]) == start[j],
            decreases n - me,
        {
            let ghost mid = self.config.agents@;
            assert(mid[me as int] == start[me as int]);
            assert(has_prior(start[me as int], time, beliefs.len()));
            update_activation_for_all_beliefs_for_agent(
                &mut self.config.agents,
                &self.config.beliefs,
                me,
                time,
            );
            proof {
                let now = self.config.agents@;
                assert(same_past(mid, start, time)) by {
                    assert forall|j: int| 0 <= j < mid.len() implies {
                        &&& (#[trigger] mid[j]).friends() == start[j].friends()
                        &&& time > 0 ==> crate::entity::lookup(
                            mid[j].actions()@,
                            (time - 1) as u32,
                        ) == crate::entity::lookup(start[j].actions()@, (time - 1) as u32)
                        &&& time > 0 ==> row_at(mid[j].rows(), (time - 1) as u32) == row_at(
                            start[j].rows(),
                            (time - 1) as u32,
                        )
                    } by {
                        if j < me {
                            assert(agent_perceived(start, beliefs, j as u32, time, mid[j]));
                        } else {
                            assert(mid[j] == start[j]);
                        }
                    }
                }
                assert(mid[me as int] == start[me as int]);
                if beliefs.len() > 0 {
                    assert(perceived_row(mid, beliefs, me, time, beliefs.len()) =~= perceived_row(
                        start,
                        beliefs,
                        me,
                        time,
                        beliefs.len(),
                    )) by {
                        assert forall|b: u32|
                            updated_activation(mid, beliefs, me, time, b) == updated_activation(
                                start,
                                beliefs,
                                me,
                                time,
                                b,
                            ) by {
                            lemma_kernel_reads_past(mid, start, beliefs, me, time, b);
                        }
                    }
                }
                assert(agent_perceived(start, beliefs, me, time, now[me as int]));
                assert forall|j: int| 0 <= j < me + 1 implies agent_perceived(
                    start,
                    beliefs,
                    j as u32,
                    time,
                    #[trigger] now[j],
                ) by {
                    if j < me {
                        assert(now[j] == mid[j]);
                    }
                }
                assert forall|j: int| me + 1 <= j < start.len() implies (#[trigger] now[j])
                    == start[j] by {
                    assert(now[j] == mid[j]);
                }
                assert forall|j: int| 0 <= j < now.len() implies (#[trigger] now[j]).wf() by {
                    if j != me {
                        assert(now[j] == mid[j]);
                    }
                }
            }
            me = me + 1;
        }
        proof {
            if old(self).config.linked() {
                let now = self.config.agents@;
                assert forall|j: int| 0 <= j < now.len() implies (#[trigger] now[j]).linked(
                    self.config.behaviours@.len(),
                    self.config.beliefs@.len(),
                    now.len(),
                ) by {
                    assert(agent_perceived(start, beliefs, j as u32, time, now[j]));
                    assert(start[j].linked(
                        self.config.behaviours@.len(),
                        self.config.beliefs@.len(),
                        start.len(),
                    ));
                    lemma_perceived_keeps_links(
                        start,
                        beliefs,
                        j as u32,
                        time,
                        now[j],
                        self.config.behaviours@.len(),
                    );
                }
            }
        }
    }

    /// Lets agent `agent` choose its behaviour for tick `time` on the draw
    /// `u`.
    pub fn agent_perform_action_with(&mut self, agent: u32, time: SimTime, u: i64)
        requires
            old(self).config.wf(),
            agent < old(self).config.agents@.len(),
        ensures
            final(self).config.wf(),
            final(self).config.same_model(&old(self).config),
            old(self).config.linked() ==> final(self).config.linked(),
            forall|j: int|
                0 <= j < old(self).config.agents@.len() && j != agent ==> (
                #[trigger] final(self).config.agents@[j]) == old(self).config.agents@[j],
            agent_acted(
                old(self).config.agents@[agent as int],
                final(self).config.agents@[agent as int],
                old(self).config.prs.weights(),
                old(self).config.behaviours@.len(),
                old(self).config.beliefs@.len(),
                time,
                u as int,
            ),
    {
        let behaviours: u32 = self.config.behaviours.len() as u32;
        let beliefs: u32 = self.config.beliefs.len() as u32;
        if behaviours == 0 {
            return ;
        }
        let found = behaviour_scores(
            &self.config.prs,
            &self.config.agents[agent as usize],
            time,
            behaviours,
            beliefs,
        );
        let pick = choose_behaviour(&found, u);
        self.config.agents[agent as usize].set_action(time, Some(pick));
        proof {
            self.lemma_one_acted_keeps_links(old(self), agent, time, u as int);
        }
    }

    /// Lets agent `agent` choose its behaviour for tick `time`, drawing a
    /// number if the choice is left to chance. Whatever is drawn, the agent
    /// has acted on some draw from `[0, 1)`.
    pub fn agent_perform_action(&mut self, agent: u32, time: SimTime)
        requires
            old(self).config.wf(),
            agent < old(self).config.agents@.len(),
        ensures
            final(self).config.wf(),
            final(self).config.same_model(&old(self).config),
            old(self).config.linked() ==> final(self).config.linked(),
            forall|j: int|
                0 <= j < old(self).config.agents@.len() && j != agent ==> (
                #[trigger] final(self).config.agents@[j]) == old(self).config.agents@[j],
            exists|u: int|
                0 <= u < ONE && #[trigger] agent_acted(
                    old(self).config.agents@[agent as int],
                    final(self).config.agents@[agent as int],
                    old(self).config.prs.weights(),
                    old(self).config.behaviours@.len(),
                    old(self).config.beliefs@.len(),
                    time,
                    u,
                ),
    {
        let behaviours: u32 = self.config.behaviours.len() as u32;
        let beliefs: u32 = self.config.beliefs.len() as u32;
        if behaviours == 0 {
            assert(agent_acted(
                old(self).config.agents@[agent as int],
                self.config.agents@[agent as int],
                old(self).config.prs.weights(),
                old(self).config.behaviours@.len(),
                old(self).config.beliefs@.len(),
                time,
                0,
            ));
            return ;
        }
        let found = behaviour_scores(
            &self.config.prs,
            &self.config.agents[agent as usize],
            time,
            behaviours,
            beliefs,
        );
        let u: i64 = if needs_draw(&found) {
            uniform_below(ONE as u64) as i64
        } else {
            0
        };
        let pick = choose_behaviour(&found, u);
        self.config.agents[agent as usize].set_action(time, Some(pick));
        assert(agent_acted(
            old(self).config.agents@[agent as int],
            self.config.agents@[agent as int],
            old(self).config.prs.weights(),
            old(self).config.behaviours@.len(),
            old(self).config.beliefs@.len(),
            time,
            u as int,
        ));
        proof {
            self.lemma_one_acted_keeps_links(old(self), agent, time, u as int);
        }
    }

    /// Lets every agent choose its behaviour for tick `time`, agent `j` on
    /// the draw `draws[j]`.
    pub fn perform_actions_with(&mut self, time: SimTime, draws: &Vec<i64>)
        requires
            old(self).config.wf(),
            draws@.len() == old(self).config.agents@.len(),
        ensures
            final(self).config.wf(),
            final(self).config.same_model(&old(self).config),
            old(self).config.linked() ==> final(self).config.linked(),
            acted(
                old(self).config.agents@,
                final(self).config.agents@,
                old(self).config.prs.weights(),
                old(self).config.behaviours@.len(),
                old(self).config.beliefs@.len(),
                time,
                as_draws(draws@),
            ),
    {
        let ghost start = self.config.agents@;
        let ghost us = as_draws(draws@);
        let n: u32 = self.config.agents.len() as u32;
        let mut me: u32 = 0;
        while me < n
            invariant
                me <= n,
                n == start.len(),
                draws@.len() == start.len(),
                us == as_draws(draws@),
                self.config.wf(),
                self.config.same_model(&old(self).config),
                old(self).config.linked() ==> self.config.linked(),
                start == old(self).config.agents@,
                forall|j: int|
                    0 <= j < me ==> agent_acted(
                        start[j],
                        #[trigger] self.config.agents@[j],
                        self.config.prs.weights(),
                        self.config.behaviours@.len(),
                        self.config.beliefs@.len(),
                        time,
                        us[j],
                    ),
                forall|j: int| me <= j < start.len() ==> (#[trigger] self.config.agents@[j]) == start[j],
            decreases n - me,
        {
            let ghost mid = self.config.agents@;
            self.agent_perform_action_with(me, time, draws[me as usize]);
            proof {
                let now = self.config.agents@;
                assert forall|j: int| 0 <= j < me + 1 implies agent_acted(
                    start[j],
                    #[trigger] now[j],
                    self.config.prs.weights(),
                    self.config.behaviours@.len(),
                    self.config.beliefs@.len(),
                    time,
                    us[j],
                ) by {
                    if j < me {
                        assert(now[j] == mid[j]);
                    }
                }
                assert forall|j: int| me + 1 <= j < start.len() implies (#[trigger] now[j])
                    == start[j] by {
                    assert(now[j] == mid[j]);
                }
            }
            me = me + 1;
        }
    }

    /// Lets every agent choose its behaviour for tick `time`, each drawing
    /// for itself where its choice is left to chance. Whatever is drawn, the
    /// agents have acted on some draws from `[0, 1)`.
    pub fn perform_actions(&mut self, time: SimTime)
        requires
            old(self).config.wf(),
        ensures
            final(self).config.wf(),
            final(self).config.same_model(&old(self).config),
            old(self).config.linked() ==> final(self).config.linked(),
            exists|draws: Seq<int>|
                draws_in_range(draws) && #[trigger] acted(
                    old(self).config.agents@,
                    final(self).config.agents@,
                    old(self).config.prs.weights(),
                    old(self).config.behaviours@.len(),
                    old(self).config.beliefs@.len(),
                    time,
                    draws,
                ),
    {
        let ghost start = self.config.agents@;
        let ghost mut us: Seq<int> = Seq::empty();
        let n: u32 = self.config.agents.len() as u32;
        let mut me: u32 = 0;
        while me < n
            invariant
                me <= n,
                n == start.len(),
                us.len() == me,
                draws_in_range(us),
                self.config.wf(),
                self.config.same_model(&old(self).config),
                old(self).config.linked() ==> self.config.linked(),
                start == old(self).config.agents@,
                forall|j: int|
                    0 <= j < me ==> agent_acted(
                        start[j],
                        #[trigger] self.config.agents@[j],
                        self.config.prs.weights(),
                        self.config.behaviours@.len(),
                        self.config.beliefs@.len(),
                        time,
                        us[j],
                    ),
                forall|j: int| me <= j < start.len() ==> (#[trigger] self.config.agents@[j]) == start[j],
            decreases n - me,
        {
            let ghost mid = self.config.agents@;
            self.agent_perform_action(me, time);
            proof {
                let now = self.config.agents@;
                let u = choose|u: int|
                    0 <= u < ONE && #[trigger] agent_acted(
                        mid[me as int],
                        now[me as int],
                        self.config.prs.weights(),
                        self.config.behaviours@.len(),
                        self.config.beliefs@.len(),
                        time,
                        u,
                    );
                let before = us;
                us = us.push(u);
                assert forall|j: int| 0 <= j < me + 1 implies agent_acted(
                    start[j],
                    #[trigger] now[j],
                    self.config.prs.weights(),
                    self.config.behaviours@.len(),
                    self.config.beliefs@.len(),
                    time,
                    us[j],
                ) by {
                    if j < me {
                        assert(now[j] == mid[j]);
                        assert(us[j] == before[j]);
                    }
                }
                assert forall|j: int| me + 1 <= j < start.len() implies (#[trigger] now[j])
                    == start[j] by {
                    assert(now[j] == mid[j]);
                }
            }
            me = me + 1;
        }
        assert(acted(
            start,
            self.config.agents@,
            self.config.prs.weights(),
            self.config.behaviours@.len(),
            self.config.beliefs@.len(),
            time,
            us,
        ));
    }

    /// Runs tick `time` on given draws: every agent perceives, and only then
    /// every agent acts, agent `j` on the draw `draws[j]`.
    pub fn tick_with(&mut self, time: SimTime, draws: &Vec<i64>)
        requires
            old(self).config.wf(),
            prepared(old(self).config.agents@, old(self).config.beliefs@.len(), time),
            draws@.len() == old(self).config.agents@.len(),
        ensures
            final(self).config.wf(),
            final(self).config.same_model(&old(self).config),
            old(self).config.linked() ==> final(self).config.linked(),
            exists|mid: Seq<BasicAgent>| #[trigger]
                ticked(
                    old(self).config.agents@,
                    mid,
                    final(self).config.agents@,
                    old(self).config.beliefs@,
                    old(self).config.prs.weights(),
                    old(self).config.behaviours@.len(),
                    time,
                    as_draws(draws@),
                ),
    {
        self.perceive_beliefs(time);
        let ghost mid = self.config.agents@;
        self.perform_actions_with(time, draws);
        assert(ticked(
            old(self).config.agents@,
            mid,
            self.config.agents@,
            old(self).config.beliefs@,
            old(self).config.prs.weights(),
            old(self).config.behaviours@.len(),
            time,
            as_draws(draws@),
        ));
    }

    /// Runs tick `time`: every agent perceives, and only then every agent
    /// acts, drawing for itself where its choice is left to chance.
    pub fn tick(&mut self, time: SimTime)
        requires
            old(self).config.wf(),
            prepared(old(self).config.agents@, old(self).config.beliefs@.len(), time),
        ensures
            final(self).config.wf(),
            final(self).config.same_model(&old(self).config),
            old(self).config.linked() ==> final(self).config.linked(),
            exists|mid: Seq<BasicAgent>, draws: Seq<int>|
                draws_in_range(draws) && #[trigger] ticked(
                    old(self).config.agents@,
                    mid,
                    final(self).config.agents@,
                    old(self).config.beliefs@,
                    old(self).config.prs.weights(),
                    old(self).config.behaviours@.len(),
                    time,
                    draws,
                ),
    {
        self.perceive_beliefs(time);
        let ghost mid = self.config.agents@;
        self.perform_actions(time);
        proof {
            let draws = choose|draws: Seq<int>|
                draws_in_range(draws) && #[trigger] acted(
                    mid,
                    self.config.agents@,
                    self.config.prs.weights(),
                    self.config.behaviours@.len(),
                    self.config.beliefs@.len(),
                    time,
                    draws,
                );
            assert(ticked(
                old(self).config.agents@,
                mid,
                self.config.agents@,
                old(self).config.beliefs@,
                old(self).config.prs.weights(),
                old(self).config.behaviours@.len(),
                time,
                draws,
            ));
        }
    }

    /// Runs the ticks from `start` to `end`, both included, one after the
    /// other; none if `start > end`.
    ///
    /// Afterwards every agent holds, at each of these ticks, an activation
    /// in `[-1, 1]` of every belief, and has performed one of the model's
    /// behaviours, if it has any. The population is the last state of a run
    /// whose ticks each followed the model on some draws from `[0, 1)`.
    pub fn tick_between(&mut self, start: SimTime, end: SimTime)
        requires
            old(self).config.wf(),
            start <= end ==> prepared(
                old(self).config.agents@,
                old(self).config.beliefs@.len(),
                start,
            ),
        ensures
            final(self).config.wf(),
            final(self).config.same_model(&old(self).config),
            completed(
                final(self).config.agents@,
                start,
                end + 1,
                old(self).config.beliefs@.len(),
                old(self).config.behaviours@.len(),
            ),
            old(self).config.linked() ==> final(self).config.linked(),
            exists|h: History|
                {
                    &&& #[trigger] is_run(
                        h,
                        old(self).config.beliefs@,
                        old(self).config.prs.weights(),
                        old(self).config.behaviours@.len(),
                        start,
                    )
                    &&& rows_in_range(h.draws)
                    &&& h.mids.len() == ticks(start, end)
                    &&& h.states[0] == old(self).config.agents@
                    &&& h.states.last() == final(self).config.agents@
                },
    {
        let ghost beliefs = self.config.beliefs@;
        let ghost weights = self.config.prs.weights();
        let ghost behaviours = self.config.behaviours@.len();
        let ghost mut h = History {
            states: seq![self.config.agents@],
            mids: Seq::empty(),
            draws: Seq::empty(),
        };
        let mut t: u64 = start as u64;
        while t <= end as u64
            invariant
                start <= t,
                start <= end ==> t <= end + 1,
                start > end ==> t == start,
                self.config.wf(),
                self.config.same_model(&old(self).config),
                beliefs == self.config.beliefs@,
                weights == self.config.prs.weights(),
                behaviours == self.config.behaviours@.len(),
                completed(self.config.agents@, start, t as int, beliefs.len(), behaviours),
                t <= end ==> prepared(self.config.agents@, beliefs.len(), t as u32),
                old(self).config.linked() ==> self.config.linked(),
                is_run(h, beliefs, weights, behaviours, start),
                rows_in_range(h.draws),
                h.mids.len() == t - start,
                h.states[0] == old(self).config.agents@,
                h.states.last() == self.config.agents@,
            decreases end + 1 - t,
        {
            let ghost before = self.config.agents@;
            self.tick(t as u32);
            proof {
                let after = self.config.agents@;
                let (mid, draws) = choose|mid: Seq<BasicAgent>, draws: Seq<int>|
                    draws_in_range(draws) && #[trigger] ticked(
                        before,
                        mid,
                        after,
                        beliefs,
                        weights,
                        behaviours,
                        t as u32,
                        draws,
                    );
                let g = h;
                lemma_run_extends(g, mid, after, draws, beliefs, weights, behaviours, start);
                h = History {
                    states: g.states.push(after),
                    mids: g.mids.push(mid),
                    draws: g.draws.push(draws),
                };
                assert forall|i: int| 0 <= i < h.draws.len() implies draws_in_range(
                    #[trigger] h.draws[i],
                ) by {
                    if i < g.draws.len() {
                        assert(h.draws[i] == g.draws[i]);
                    }
                }
                lemma_tick_completes(
                    before,
                    mid,
                    after,
                    beliefs,
                    weights,
                    behaviours,
                    start,
                    t as u32,
                    draws,
                );
                if t < end {
                    lemma_completed_prepares(after, start, t as u32, beliefs.len(), behaviours);
                }
            }
            t = t + 1;
        }
    }

    /// Runs the ticks from `start` to `end`, both included, on given draws:
    /// in the `i`-th of these ticks agent `j` acts on `draws[i][j]`. What
    /// comes of it is determined by the population at the outset and the
    /// draws.
    pub fn tick_between_with(&mut self, start: SimTime, end: SimTime, draws: &Vec<Vec<i64>>)
        requires
            old(self).config.wf(),
            start <= end ==> prepared(
                old(self).config.agents@,
                old(self).config.beliefs@.len(),
                start,
            ),
            draws@.len() == ticks(start, end),
            forall|i: int|
                0 <= i < draws@.len() ==> (#[trigger] draws@[i])@.len() == old(
                    self,
                ).config.agents@.len(),
        ensures
            final(self).config.wf(),
            final(self).config.same_model(&old(self).config),
            completed(
                final(self).config.agents@,
                start,
                end + 1,
                old(self).config.beliefs@.len(),
                old(self).config.behaviours@.len(),
            ),
            old(self).config.linked() ==> final(self).config.linked(),
            exists|h: History|
                {
                    &&& #[trigger] is_run(
                        h,
                        old(self).config.beliefs@,
                        old(self).config.prs.weights(),
                        old(self).config.behaviours@.len(),
                        start,
                    )
                    &&& h.draws == as_draw_rows(draws@)
                    &&& h.states[0] == old(self).config.agents@
                    &&& h.states.last() == final(self).config.agents@
                },
    {
        let ghost beliefs = self.config.beliefs@;
        let ghost weights = self.config.prs.weights();
        let ghost behaviours = self.config.behaviours@.len();
        let ghost mut h = History {
            states: seq![self.config.agents@],
            mids: Seq::empty(),
            draws: Seq::empty(),
        };
        let mut t: u64 = start as u64;
        let mut i: usize = 0;
        while t <= end as u64
            invariant
                start <= t,
                start <= end ==> t <= end + 1,
                start > end ==> t == start,
                i == t - start,
                draws@.len() == ticks(start, end),
                forall|k: int|
                    0 <= k < draws@.len() ==> (#[trigger] draws@[k])@.len()
                        == self.config.agents@.len(),
                self.config.wf(),
                self.config.same_model(&old(self).config),
                beliefs == self.config.beliefs@,
                weights == self.config.prs.weights(),
                behaviours == self.config.behaviours@.len(),
                completed(self.config.agents@, start, t as int, beliefs.len(), behaviours),
                t <= end ==> prepared(self.config.agents@, beliefs.len(), t as u32),
                old(self).config.linked() ==> self.config.linked(),
                is_run(h, beliefs, weights, behaviours, start),
                h.mids.len() == i,
                h.draws == as_draw_rows(draws@).take(i as int),
                h.states[0] == old(self).config.agents@,
                h.states.last() == self.config.agents@,
            decreases end + 1 - t,
        {
            let ghost before = self.config.agents@;
            assert(i < draws@.len());
            self.tick_with(t as u32, &draws[i]);
            proof {
                let after = self.config.agents@;
                let us = as_draws(draws@[i as int]@);
                let mid = choose|mid: Seq<BasicAgent>| #[trigger]
                    ticked(before, mid, after, beliefs, weights, behaviours, t as u32, us);
                let g = h;
                lemma_run_extends(g, mid, after, us, beliefs, weights, behaviours, start);
                h = History {
                    states: g.states.push(after),
                    mids: g.mids.push(mid),
                    draws: g.draws.push(us),
                };
                assert(h.draws =~= as_draw_rows(draws@).take(i + 1));
                lemma_tick_completes(
                    before,
                    mid,
                    after,
                    beliefs,
                    weights,
                    behaviours,
                    start,
                    t as u32,
                    us,
                );
                if t < end {
                    lemma_completed_prepares(after, start, t as u32, beliefs.len(), behaviours);
                }
            }
            t = t + 1;
            assert(i < draws.len());
            i = i + 1;
        }
        proof {
            assert(as_draw_rows(draws@).take(i as int) =~= as_draw_rows(draws@));
        }
    }

    /// The records of the agents as they are now, one for each and in their
    /// order, with all five tables in full.
    pub fn serialize_agents(&self) -> (records: Vec<AgentSpec>)
        requires
            self.config.wf(),
            self.config.linked(),
        ensures
            agents_recorded(
                self.config.agents@,
                records@,
                behaviour_ids(self.config.behaviours@),
                belief_ids(self.config.beliefs@),
            ),
    {
        let behaviours = ids_of_behaviours(&self.config.behaviours);
        let beliefs = ids_of_beliefs(&self.config.beliefs);
        let agents = ids_of_agents(&self.config.agents);
        let mut records: Vec<AgentSpec> = Vec::new();
        let n = self.config.agents.len();
        let mut i: usize = 0;
        while i < n
            invariant
                i <= n,
                n == self.config.agents@.len(),
                self.config.wf(),
                self.config.linked(),
                behaviours@ == behaviour_ids(self.config.behaviours@),
                beliefs@ == belief_ids(self.config.beliefs@),
                agents@ == agent_ids(self.config.agents@),
                records@.len() == i,
                forall|j: int|
                    0 <= j < i ==> agent_recorded(
                        self.config.agents@[j],
                        #[trigger] records@[j],
                        behaviours@,
                        beliefs@,
                        agents@,
                    ),
            decreases n - i,
        {
            let agent = &self.config.agents[i];
            assert(agent.linked(
                self.config.behaviours@.len(),
                self.config.beliefs@.len(),
                self.config.agents@.len(),
            ));
            records.push(AgentSpec::from_agent(agent, &behaviours, &beliefs, &agents));
            i = i + 1;
        }
        records
    }

    /// Runs the model from its first tick to its last and returns the
    /// records of the agents as they are then.
    ///
    /// Afterwards every agent holds, at each tick of the interval, an
    /// activation in `[-1, 1]` of every belief, and has performed one of the
    /// model's behaviours, if it has any. The population is the last state
    /// of a run whose ticks each followed the model on some draws from
    /// `[0, 1)`.
    pub fn run(&mut self) -> (records: Vec<AgentSpec>)
        requires
            old(self).config.wf(),
            old(self).config.linked(),
            old(self).config.ready(),
        ensures
            final(self).config.wf(),
            final(self).config.linked(),
            final(self).config.same_model(&old(self).config),
            completed(
                final(self).config.agents@,
                old(self).config.start_time,
                old(self).config.end_time + 1,
                old(self).config.beliefs@.len(),
                old(self).config.behaviours@.len(),
            ),
            exists|h: History|
                {
                    &&& #[trigger] is_run(
                        h,
                        old(self).config.beliefs@,
                        old(self).config.prs.weights(),
                        old(self).config.behaviours@.len(),
                        old(self).config.start_time,
                    )
                    &&& rows_in_range(h.draws)
                    &&& h.mids.len() == ticks(old(self).config.start_time, old(self).config.end_time)
                    &&& h.states[0] == old(self).config.agents@
                    &&& h.states.last() == final(self).config.agents@
                },
            agents_recorded(
                final(self).config.agents@,
                records@,
                behaviour_ids(old(self).config.behaviours@),
                belief_ids(old(self).config.beliefs@),
            ),
    {
        let start = self.config.start_time;
        let end = self.config.end_time;
        self.tick_between(start, end);
        self.serialize_agents()
    }

    /// Runs the model from its first tick to its last on given draws (see
    /// [`Runner::tick_between_with`]) and returns the records of the agents
    /// as they are then.
    pub fn run_with(&mut self, draws: &Vec<Vec<i64>>) -> (records: Vec<AgentSpec>)
        requires
            old(self).config.wf(),
            old(self).config.linked(),
            old(self).config.ready(),
            draws@.len() == ticks(old(self).config.start_time, old(self).config.end_time),
            forall|i: int|
                0 <= i < draws@.len() ==> (#[trigger] draws@[i])@.len() == old(
                    self,
                ).config.agents@.len(),
        ensures
            final(self).config.wf(),
            final(self).config.linked(),
            final(self).config.same_model(&old(self).config),
            completed(
                final(self).config.agents@,
                old(self).config.start_time,
                old(self).config.end_time + 1,
                old(self).config.beliefs@.len(),
                old(self).config.behaviours@.len(),
            ),
            exists|h: History|
                {
                    &&& #[trigger] is_run(
                        h,
                        old(self).config.beliefs@,
                        old(self).config.prs.weights(),
                        old(self).config.behaviours@.len(),
                        old(self).config.start_time,
                    )
                    &&& h.draws == as_draw_rows(draws@)
                    &&& h.states[0] == old(self).config.agents@
                    &&& h.states.last() == final(self).config.agents@
                },
            agents_recorded(
                final(self).config.agents@,
                records@,
                behaviour_ids(old(self).config.behaviours@),
                belief_ids(old(self).config.beliefs@),
            ),
    {
        let start = self.config.start_time;
        let end = self.config.end_time;
        self.tick_between_with(start, end, draws);
        self.serialize_agents()
    }

    /// Runs the model if it can be run (see [`Configuration::check`]) and
    /// returns the records of the agents as they are then; otherwise says
    /// why it cannot be run, and changes nothing.
    pub fn try_run(&mut self) -> (r: Result<Vec<AgentSpec>, Error>)
        requires
            old(self).config.wf(),
            old(self).config.linked(),
        ensures
            final(self).config.wf(),
            final(self).config.linked(),
            final(self).config.same_model(&old(self).config),
            match old(self).config.ready_error() {
                Some(e) => r matches Err(x) && x == e && final(self).config.agents@ == old(
                    self,
                ).config.agents@,
                None => {
                    &&& r matches Ok(records)
                    &&& completed(
                        final(self).config.agents@,
                        old(self).config.start_time,
                        old(self).config.end_time + 1,
                        old(self).config.beliefs@.len(),
                        old(self).config.behaviours@.len(),
                    )
                    &&& exists|h: History|
                        {
                            &&& #[trigger] is_run(
                                h,
                                old(self).config.beliefs@,
                                old(self).config.prs.weights(),
                                old(self).config.behaviours@.len(),
                                old(self).config.start_time,
                            )
                            &&& rows_in_range(h.draws)
                            &&& h.mids.len() == ticks(
                                old(self).config.start_time,
                                old(self).config.end_time,
                            )
                            &&& h.states[0] == old(self).config.agents@
                            &&& h.states.last() == final(self).config.agents@
                        }
                    &&& agents_recorded(
                        final(self).config.agents@,
                        records@,
                        behaviour_ids(old(self).config.behaviours@),
                        belief_ids(old(self).config.beliefs@),
                    )
                },
            },
    {
        match self.config.check() {
            Err(e) => Err(e),
            Ok(()) => Ok(self.run()),
        }
    }

    /// Does what `phase` asks for and says which phase follows.
    ///
    /// A caller that starts from [`Phase::Initialised`] on a model that can
    /// be run and hands each phase it is given back in, until
    /// [`Phase::Done`], has run the model tick by tick: in each tick every
    /// agent has perceived before any has acted. Between two calls it may
    /// report where the run stands; after [`Phase::Finalising`] is handed
    /// out, the population is final and may be written out.
    pub fn advance(&mut self, phase: Phase) -> (next: Phase)
        requires
            old(self).config.wf(),
            phase_ready(
                old(self).config.agents@,
                old(self).config.beliefs@.len(),
                phase,
                old(self).config.start_time,
                old(self).config.end_time,
            ),
        ensures
            final(self).config.wf(),
            final(self).config.same_model(&old(self).config),
            old(self).config.linked() ==> final(self).config.linked(),
            next == next_phase(phase, old(self).config.start_time, old(self).config.end_time),
            phase_ready(
                final(self).config.agents@,
                old(self).config.beliefs@.len(),
                next,
                old(self).config.start_time,
                old(self).config.end_time,
            ),
            match phase {
                Phase::Perceiving(t) => perceived(
                    old(self).config.agents@,
                    final(self).config.agents@,
                    old(self).config.beliefs@,
                    t,
                ),
                Phase::Acting(t) => exists|draws: Seq<int>|
                    draws_in_range(draws) && #[trigger] acted(
                        old(self).config.agents@,
                        final(self).config.agents@,
                        old(self).config.prs.weights(),
                        old(self).config.behaviours@.len(),
                        old(self).config.beliefs@.len(),
                        t,
                        draws,
                    ),
                _ => final(self).config.agents@ == old(self).config.agents@,
            },
    {
        let start = self.config.start_time;
        let end = self.config.end_time;
        match phase {
            Phase::Initialised => {
                if start <= end {
                    Phase::Perceiving(start)
                } else {
                    Phase::Finalising
                }
            },
            Phase::Perceiving(t) => {
                self.perceive_beliefs(t);
                proof {
                    let before = old(self).config.agents@;
                    let after = self.config.agents@;
                    assert forall|j: int| 0 <= j < after.len() implies holds_all(
                        #[trigger] after[j],
                        t,
                        self.config.beliefs@.len(),
                    ) by {
                        assert(agent_perceived(before, self.config.beliefs@, j as u32, t, after[j]));
                        lemma_perceived_holds(before, self.config.beliefs@, j as u32, t, after[j]);
                    }
                }
                Phase::Acting(t)
            },
            Phase::Acting(t) => {
                self.perform_actions(t);
                proof {
                    let before = old(self).config.agents@;
                    let after = self.config.agents@;
                    let beliefs = self.config.beliefs@.len();
                    let draws = choose|draws: Seq<int>|
                        draws_in_range(draws) && #[trigger] acted(
                            before,
                            after,
                            self.config.prs.weights(),
                            self.config.behaviours@.len(),
                            beliefs,
                            t,
                            draws,
                        );
                    if t < end {
                        assert forall|j: int| 0 <= j < after.len() implies has_prior(
                            #[trigger] after[j],
                            (t + 1) as u32,
                            beliefs,
                        ) by {
                            assert(agent_acted(
                                before[j],
                                after[j],
                                self.config.prs.weights(),
                                self.config.behaviours@.len(),
                                beliefs,
                                t,
                                draws[j],
                            ));
                            assert(holds_all(before[j], t, beliefs));
                            assert(after[j].rows() == before[j].rows());
                            assert(((t + 1) as u32 - 1) as u32 == t);
                            assert forall|b: u32| b < beliefs implies (
                            #[trigger] after[j].activation(t, b)).is_some() by {
                                assert(before[j].activation(t, b).is_some());
                            }
                        }
                    }
                }
                if t < end {
                    Phase::Perceiving(t + 1)
                } else {
                    Phase::Finalising
                }
            },
            Phase::Finalising => Phase::Done,
            Phase::Done => Phase::Done,
        }
    }
}

} // verus!
