//! The planner: a backward search from the goal for the cheapest plan that
//! the start state can run.

use vstd::prelude::*;
use crate::action::{rules_of, Action};
use crate::route::{
    admissible, chosen, follows, is_cheapest_link, lemma_admissible,
    lemma_shortest_connection_is_cheapest, lemma_shortest_connection_is_linked,
    lemma_unconnected_admits_none, linked, links, shortest_connection, unconnected,
};
use crate::state::{Context, Fact, StateFlag};
use crate::theory::{
    achieves, cheapest_admitted, focused, lemma_admitted_plan_achieves,
    lemma_cheapest_beats_focused_plans, lemma_none_admitted_no_focused_plan, none_admitted,
    reached_by, regress, total_cost, Rule,
};

verus! {

/// A node of the backward search: the facts required at that point, and the
/// place in the list of actions of the action that leads there. The goal,
/// where the search begins, has no such action.
#[derive(Debug, Clone, Copy)]
pub struct Step {
    pub state: StateFlag,
    pub action: Option<usize>,
}

/// A sequence of actions, each by its place in the list of actions and in
/// the order in which they are to run, with what running them costs.
#[derive(Debug, PartialEq, Eq)]
pub struct Plan {
    pub actions: Vec<usize>,
    pub cost: u64,
}

/// The search for plans. It keeps nothing between calls.
#[derive(Debug)]
pub struct Planner {}

/// The places that `v` holds, as integers.
pub open spec fn places(v: Seq<usize>) -> Seq<int> {
    v.map_values(|i: usize| i as int)
}

/// The facts of each context of `route`.
pub open spec fn facts_of(route: Seq<Context>) -> Seq<Set<Fact>> {
    route.map_values(|c: Context| c@)
}

impl Plan {
    /// Whether every place that the plan names is a place in a list of
    /// `len` actions.
    pub open spec fn fits(&self, len: nat) -> bool {
        forall|j: int| 0 <= j < self.actions@.len() ==> (#[trigger] self.actions@[j]) < len
    }

    /// The rules that the plan runs, in the order in which it runs them,
    /// where its places are places in `rules`.
    pub open spec fn steps(&self, rules: Seq<Rule>) -> Seq<Rule> {
        chosen(rules, places(self.actions@))
    }
}

/// Whether `v` lists, for each rule that leads backward out of `n` and in
/// the order of `rules`, the step that the rule regresses `n` to and the
/// rule's cost.
pub open spec fn is_expansion(n: Set<Fact>, rules: Seq<Rule>, v: Seq<(Step, u32)>) -> bool {
    &&& v.len() == admissible(n, rules).len()
    &&& forall|k: int|
        0 <= k < v.len() ==> {
            let at = admissible(n, rules)[k];
            &&& (#[trigger] v[k]).0.action == Some(at as usize)
            &&& v[k].0.state@ == regress(n, rules[at])
            &&& v[k].1 == rules[at].cost
        }
}

/// Whether `e` lists, for each rule that leads backward out of `n` and in
/// the order of `rules`, the facts that the rule regresses `n` to and the
/// rule's cost.
pub open spec fn is_edge_list(n: Set<Fact>, rules: Seq<Rule>, e: Seq<(Context, u64)>) -> bool {
    &&& e.len() == admissible(n, rules).len()
    &&& forall|k: int|
        0 <= k < e.len() ==> {
            let at = admissible(n, rules)[k];
            &&& (#[trigger] e[k]).0@ == regress(n, rules[at])
            &&& e[k].1 == rules[at].cost
        }
}

/// An expansion stays one when a further rule is seen that does not lead
/// backward out of `n`.
proof fn lemma_expansion_passes(n: Set<Fact>, seen: Seq<Rule>, rule: Rule, v: Seq<(Step, u32)>)
    requires
        is_expansion(n, seen, v),
        !reached_by(n, rule),
    ensures
        is_expansion(n, seen.push(rule), v),
{
    let rules = seen.push(rule);
    assert(rules.drop_last() =~= seen);
    lemma_admissible(n, seen);
    assert forall|k: int| 0 <= k < v.len() implies {
        let at = admissible(n, rules)[k];
        &&& (#[trigger] v[k]).0.action == Some(at as usize)
        &&& v[k].0.state@ == regress(n, rules[at])
        &&& v[k].1 == rules[at].cost
    } by {
        assert(rules[admissible(n, seen)[k]] == seen[admissible(n, seen)[k]]);
    }
}

/// An expansion grows by one step when a further rule is seen that leads
/// backward out of `n`.
proof fn lemma_expansion_grows(
    n: Set<Fact>,
    seen: Seq<Rule>,
    rule: Rule,
    v: Seq<(Step, u32)>,
    step: Step,
    cost: u32,
)
    requires
        is_expansion(n, seen, v),
        reached_by(n, rule),
        step.action == Some(seen.len() as usize),
        step.state@ == regress(n, rule),
        cost == rule.cost,
    ensures
        is_expansion(n, seen.push(rule), v.push((step, cost))),
{
    let rules = seen.push(rule);
    let grown = v.push((step, cost));
    assert(rules.drop_last() =~= seen);
    lemma_admissible(n, seen);
    assert forall|k: int| 0 <= k < grown.len() implies {
        let at = admissible(n, rules)[k];
        &&& (#[trigger] grown[k]).0.action == Some(at as usize)
        &&& grown[k].0.state@ == regress(n, rules[at])
        &&& grown[k].1 == rules[at].cost
    } by {
        if k < v.len() {
            assert(grown[k] == v[k]);
            assert(rules[admissible(n, seen)[k]] == seen[admissible(n, seen)[k]]);
        }
    }
}

impl Planner {
    /// The places in `actions` of those that `ctx` would be reached by, in
    /// ascending order.
    pub fn find_actions_to<A: Action>(ctx: &Context, actions: &[A]) -> (found: Vec<usize>)
        ensures
            places(found@) == admissible(ctx@, rules_of(actions@)),
    {
        let ghost rules = rules_of(actions@);
        let mut found: Vec<usize> = Vec::new();
        let mut i: usize = 0;
        while i < actions.len()
            invariant
                i <= actions@.len(),
                rules == rules_of(actions@),
                places(found@) == admissible(ctx@, rules.take(i as int)),
            decreases actions@.len() - i,
        {
            proof {
                assert(rules.take(i + 1).drop_last() =~= rules.take(i as int));
            }
            if ctx.would_be_reached_by(&actions[i]) {
                let ghost before = found@;
                found.push(i);
                proof {
                    assert(places(found@) =~= places(before).push(i as int));
                }
            }
            i = i + 1;
        }
        proof {
            assert(rules.take(i as int) =~= rules);
        }
        found
    }

    /// The steps that lead backward out of `n`: for each action that `n`
    /// would be reached by, in the order of `actions`, the facts required
    /// before it, the place of the action, and its cost.
    pub fn predecessors<A: Action>(n: &Context, actions: &[A]) -> (v: Vec<(Step, u32)>)
        ensures
            is_expansion(n@, rules_of(actions@), v@),
    {
        let ghost rules = rules_of(actions@);
        let mut v: Vec<(Step, u32)> = Vec::with_capacity(actions.len());
        let mut i: usize = 0;
        while i < actions.len()
            invariant
                i <= actions@.len(),
                rules == rules_of(actions@),
                is_expansion(n@, rules.take(i as int), v@),
            decreases actions@.len() - i,
        {
            let a = &actions[i];
            proof {
                assert(rules.take(i + 1) =~= rules.take(i as int).push(a.rule()));
            }
            if n.would_be_reached_by(a) {
                let step = Step { state: n.regress(a).state, action: Some(i) };
                let cost = a.cost();
                proof {
                    lemma_expansion_grows(n@, rules.take(i as int), a.rule(), v@, step, cost);
                }
                v.push((step, cost));
            } else {
                proof {
                    lemma_expansion_passes(n@, rules.take(i as int), a.rule(), v@);
                }
            }
            i = i + 1;
        }
        proof {
            assert(rules.take(i as int) =~= rules);
        }
        v
    }

    /// The edges that lead backward out of `n`: for each step of
    /// `predecessors`, in the same order, the context it requires and its
    /// cost.
    pub fn edges<A: Action>(n: &Context, actions: &[A]) -> (e: Vec<(Context, u64)>)
        ensures
            is_edge_list(n@, rules_of(actions@), e@),
    {
        let steps = Self::predecessors(n, actions);
        let mut e: Vec<(Context, u64)> = Vec::with_capacity(steps.len());
        let mut k: usize = 0;
        while k < steps.len()
            invariant
                k <= steps@.len(),
                e@.len() == k,
                is_expansion(n@, rules_of(actions@), steps@),
                forall|j: int|
                    0 <= j < k ==> (#[trigger] e@[j]).0.state == steps@[j].0.state && e@[j].1
                        == steps@[j].1,
            decreases steps@.len() - k,
        {
            let (step, cost) = steps[k];
            e.push((Context::with_state(step.state), cost as u64));
            k = k + 1;
        }
        e
    }

    /// The place of the cheapest action that leads backward from `from` to
    /// `to`, the first of them where several cost the same; `None` where no
    /// action leads from the one to the other.
    pub fn cheapest_hop<A: Action>(from: &Context, to: &Context, actions: &[A]) -> (r: Option<usize>)
        ensures
            match r {
                Some(at) => is_cheapest_link(rules_of(actions@), at as int, from@, to@),
                None => !linked(rules_of(actions@), from@, to@),
            },
    {
        let ghost rules = rules_of(actions@);
        let mut best: Option<(usize, u32)> = None;
        let mut i: usize = 0;
        while i < actions.len()
            invariant
                i <= actions@.len(),
                rules == rules_of(actions@),
                match best {
                    Some((at, least)) => {
                        &&& at < i
                        &&& links(rules, at as int, from@, to@)
                        &&& least == rules[at as int].cost
                        &&& forall|j: int|
                            0 <= j < i && #[trigger] links(rules, j, from@, to@) ==> least
                                < rules[j].cost || (least == rules[j].cost && at <= j)
                    },
                    None => forall|j: int| 0 <= j < i ==> !#[trigger] links(rules, j, from@, to@),
                },
            decreases actions@.len() - i,
        {
            let a = &actions[i];
            if from.would_be_reached_by(a) && from.regress(a).same_as(to) {
                let cost = a.cost();
                let better = match best {
                    Some((_, least)) => cost < least,
                    None => true,
                };
                if better {
                    best = Some((i, cost));
                }
            }
            i = i + 1;
        }
        match best {
            Some((at, _)) => Some(at),
            None => None,
        }
    }

    /// The plan that follows `route` from its last context to its first:
    /// for each context but the first, last context first, the cheapest
    /// action that leads backward to it from the context before it. `None`
    /// where no action leads from some context of the route to the next.
    pub fn plan_along<A: Action>(route: &Vec<Context>, actions: &[A]) -> (r: Option<Vec<usize>>)
        ensures
            match r {
                Some(plan) => follows(rules_of(actions@), facts_of(route@), places(plan@)),
                None => exists|i: int|
                    0 <= i < route@.len() - 1 && !linked(
                        rules_of(actions@),
                        #[trigger] facts_of(route@)[i],
                        facts_of(route@)[i + 1],
                    ),
            },
    {
        let ghost rules = rules_of(actions@);
        let ghost nodes = facts_of(route@);
        let mut plan: Vec<usize> = Vec::new();
        if route.len() == 0 {
            return Some(plan);
        }
        let mut i: usize = route.len() - 1;
        while i > 0
            invariant
                i < route@.len(),
                rules == rules_of(actions@),
                nodes == facts_of(route@),
                plan@.len() == route@.len() - 1 - i,
                forall|j: int|
                    0 <= j < plan@.len() ==> is_cheapest_link(
                        rules,
                        #[trigger] places(plan@)[j],
                        nodes[nodes.len() - 2 - j],
                        nodes[nodes.len() - 1 - j],
                    ),
            decreases i,
        {
            match Self::cheapest_hop(&route[i - 1], &route[i], actions) {
                Some(at) => {
                    let ghost before = plan@;
                    plan.push(at);
                    proof {
                        assert forall|j: int| 0 <= j < plan@.len() implies is_cheapest_link(
                            rules,
                            #[trigger] places(plan@)[j],
                            nodes[nodes.len() - 2 - j],
                            nodes[nodes.len() - 1 - j],
                        ) by {
                            if j < before.len() {
                                assert(places(plan@)[j] == places(before)[j]);
                            }
                        }
                    }
                },
                None => {
                    proof {
                        assert(!linked(rules, nodes[i - 1], nodes[i - 1 + 1]));
                    }
                    return None;
                },
            }
            i = i - 1;
        }
        Some(plan)
    }

    /// The cheapest plan that takes `start` to a state in which every fact
    /// of `end` holds, found by a search that goes backward from `end`;
    /// `None` where that search finds no plan.
    ///
    /// The search steps backward through an action only where the facts
    /// required at that point hold all that the action establishes. Every
    /// plan that it finds runs from `start` and achieves `end`. Among the
    /// plans it can find, the one returned is a cheapest; which of several
    /// cheapest plans is returned is left open. A plan that the search
    /// cannot find may be cheaper still: one with a step that establishes a
    /// required fact together with a fact that is not required.
    pub fn find_path<A: Action>(start: &Context, end: &Context, actions: &[A]) -> (r: Option<Plan>)
        ensures
            match r {
                Some(plan) => {
                    &&& plan.fits(actions@.len())
                    &&& cheapest_admitted(
                        rules_of(actions@),
                        start@,
                        end@,
                        plan.steps(rules_of(actions@)),
                        plan.cost as nat,
                    )
                    &&& achieves(rules_of(actions@), start@, end@, plan.steps(rules_of(actions@)))
                },
                None => none_admitted(rules_of(actions@), start@, end@),
            },
            (forall|steps: Seq<Rule>| !#[trigger] achieves(rules_of(actions@), start@, end@, steps))
                ==> r is None,
            forall|other: Seq<Rule>|
                #![trigger achieves(rules_of(actions@), start@, end@, other)]
                achieves(rules_of(actions@), start@, end@, other) && focused(end@, other) ==> (r
                    matches Some(plan) && plan.cost <= total_cost(other)),
    {
        let ghost rules = rules_of(actions@);
        match shortest_route(start, end, actions) {
            Some((route, total)) => {
                proof {
                    lemma_shortest_connection_is_linked(
                        rules,
                        start@,
                        end@,
                        facts_of(route@),
                        total as nat,
                    );
                }
                match Self::plan_along(&route, actions) {
                    Some(found) => {
                        proof {
                            let steps = chosen(rules, places(found@));
                            lemma_shortest_connection_is_cheapest(
                                rules,
                                start@,
                                end@,
                                facts_of(route@),
                                total as nat,
                                places(found@),
                            );
                            lemma_admitted_plan_achieves(rules, start@, end@, steps);
                            assert forall|j: int| 0 <= j < found@.len() implies (#[trigger] found@[j])
                                < actions@.len() by {
                                assert(places(found@)[j] == found@[j]);
                            }
                            assert forall|other: Seq<Rule>|
                                achieves(rules, start@, end@, other) && focused(
                                    end@,
                                    other,
                                ) implies total <= total_cost(other) by {
                                lemma_cheapest_beats_focused_plans(
                                    rules,
                                    start@,
                                    end@,
                                    steps,
                                    total as nat,
                                    other,
                                );
                            }
                        }
                        Some(Plan { actions: found, cost: total })
                    },
                    None => None,
                }
            },
            None => {
                proof {
                    lemma_unconnected_admits_none(rules, start@, end@);
                    assert forall|other: Seq<Rule>|
                        focused(end@, other) implies !achieves(rules, start@, end@, other) by {
                        lemma_none_admitted_no_focused_plan(rules, start@, end@, other);
                    }
                }
                None
            },
        }
    }
}

/// A cheapest backward route from `end` to a context whose facts all hold in
/// `start`, with its cost.
///
/// This calls `pathfinding::directed::dijkstra::dijkstra`, and its contract
/// is believed, not proved. The search begins at `end`, takes
/// `Planner::edges` for the successors of a node and their costs, and has
/// arrived at a node where `start` holds every fact of it. The contract
/// claims what that function documents of the path it returns: the path
/// begins at `end`, each node follows the one before it along one of its
/// edges, the last node is one where the search has arrived, the cost is
/// the sum of the costs of the edges taken, and no path from `end` to such
/// a node costs less; `None` comes back only where there is no such path.
/// The search adds an edge's cost to the cost of a cheapest path to a node;
/// there are eight contexts and an edge costs less than 2^32, so the sums
/// fit a `u64`.
#[verifier::external_body]
fn shortest_route<A: Action>(start: &Context, end: &Context, actions: &[A]) -> (r: Option<
    (Vec<Context>, u64),
>)
    ensures
        r matches Some((route, total)) ==> shortest_connection(
            rules_of(actions@),
            start@,
            end@,
            facts_of(route@),
            total as nat,
        ),
        r is None ==> unconnected(rules_of(actions@), start@, end@),
{
    pathfinding::directed::dijkstra::dijkstra(
        end,
        |n| Planner::edges(n, actions),
        |n| start.state.contains(n.state),
    )
}

} // verus!
