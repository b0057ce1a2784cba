//! The graph that the backward search walks: its nodes are sets of required
//! facts, and an edge leads from a node through a rule to the facts
//! required before that rule.

use vstd::prelude::*;
use crate::state::Fact;
use crate::theory::{
    admits, cheapest_admitted, drawn_from, lemma_total_cost_reverse, lemma_total_cost_stepwise,
    none_admitted, reached_by, regress, regressable, regressed, total_cost, Rule,
};

verus! {

/// The places in `rules` of the rules that lead backward out of `n`, in
/// ascending order.
pub open spec fn admissible(n: Set<Fact>, rules: Seq<Rule>) -> Seq<int>
    decreases rules.len(),
{
    if rules.len() == 0 {
        Seq::empty()
    } else if reached_by(n, rules.last()) {
        admissible(n, rules.drop_last()).push(rules.len() - 1)
    } else {
        admissible(n, rules.drop_last())
    }
}

/// `admissible` lists places of `rules`, each of a rule that leads backward
/// out of `n`; it lists them in ascending order and leaves none out.
pub proof fn lemma_admissible(n: Set<Fact>, rules: Seq<Rule>)
    ensures
        forall|k: int|
            0 <= k < admissible(n, rules).len() ==> 0 <= (#[trigger] admissible(n, rules)[k])
                < rules.len() && reached_by(n, rules[admissible(n, rules)[k]]),
        forall|k: int, l: int|
            0 <= k < l < admissible(n, rules).len() ==> (#[trigger] admissible(n, rules)[k])
                < #[trigger] admissible(n, rules)[l],
        forall|i: int|
            0 <= i < rules.len() && reached_by(n, #[trigger] rules[i]) ==> admissible(
                n,
                rules,
            ).contains(i),
    decreases rules.len(),
{
    if rules.len() > 0 {
        let before = rules.drop_last();
        let found = admissible(n, rules);
        let found_before = admissible(n, before);
        lemma_admissible(n, before);
        assert forall|i: int| 0 <= i < rules.len() && reached_by(n, #[trigger] rules[i]) implies found.contains(
            i,
        ) by {
            if i < before.len() {
                assert(before[i] == rules[i]);
                let k = choose|k: int| 0 <= k < found_before.len() && found_before[k] == i;
                assert(found[k] == i);
            } else {
                assert(found.last() == i);
            }
        }
        assert forall|k: int| 0 <= k < found.len() implies 0 <= (#[trigger] found[k]) < rules.len()
            && reached_by(n, rules[found[k]]) by {
            if k < found_before.len() {
                assert(before[found_before[k]] == rules[found_before[k]]);
            }
        }
        assert forall|k: int, l: int| 0 <= k < l < found.len() implies (#[trigger] found[k])
            < #[trigger] found[l] by {
            if l < found_before.len() {
                assert(found[l] == found_before[l]);
            }
        }
    }
}

/// Whether the rule at place `at` of `rules` leads backward from `from` to
/// `to`.
pub open spec fn links(rules: Seq<Rule>, at: int, from: Set<Fact>, to: Set<Fact>) -> bool {
    &&& 0 <= at < rules.len()
    &&& reached_by(from, rules[at])
    &&& regress(from, rules[at]) == to
}

/// Whether the rule at place `at` is the cheapest of those that lead
/// backward from `from` to `to`, and the first of the cheapest.
pub open spec fn is_cheapest_link(rules: Seq<Rule>, at: int, from: Set<Fact>, to: Set<Fact>) -> bool {
    &&& links(rules, at, from, to)
    &&& forall|other: int| #[trigger]
        links(rules, other, from, to) ==> rules[at].cost < rules[other].cost || (rules[at].cost
            == rules[other].cost && at <= other)
}

/// Whether some rule leads backward from `from` to `to`.
pub open spec fn linked(rules: Seq<Rule>, from: Set<Fact>, to: Set<Fact>) -> bool {
    exists|at: int| links(rules, at, from, to)
}

/// The rules at the places that `plan` names.
pub open spec fn chosen(rules: Seq<Rule>, plan: Seq<int>) -> Seq<Rule> {
    Seq::new(plan.len(), |j: int| rules[plan[j]])
}

/// Whether `plan` names, step by step in the order of execution, the
/// cheapest link between each node of `nodes` and the node before it: its
/// first step links the last two nodes, its last step the first two.
pub open spec fn follows(rules: Seq<Rule>, nodes: Seq<Set<Fact>>, plan: Seq<int>) -> bool {
    &&& plan.len() == if nodes.len() == 0 {
        0
    } else {
        nodes.len() - 1
    }
    &&& forall|j: int|
        0 <= j < plan.len() ==> is_cheapest_link(
            rules,
            #[trigger] plan[j],
            nodes[nodes.len() - 2 - j],
            nodes[nodes.len() - 1 - j],
        )
}

/// Whether `nodes` is a backward route along `hops`: each hop leads backward
/// out of the node before it and regresses that node to the node after it.
pub open spec fn is_route(nodes: Seq<Set<Fact>>, hops: Seq<Rule>) -> bool {
    &&& nodes.len() == hops.len() + 1
    &&& forall|i: int|
        0 <= i < hops.len() ==> reached_by(nodes[i], #[trigger] hops[i]) && nodes[i + 1] == regress(
            nodes[i],
            hops[i],
        )
}

/// Whether `nodes` is a backward route along hops taken from `rules` that
/// begins at `goal` and ends at facts that all hold in `start`.
pub open spec fn connects(
    rules: Seq<Rule>,
    start: Set<Fact>,
    goal: Set<Fact>,
    nodes: Seq<Set<Fact>>,
    hops: Seq<Rule>,
) -> bool {
    &&& drawn_from(rules, hops)
    &&& is_route(nodes, hops)
    &&& nodes[0] == goal
    &&& nodes.last().subset_of(start)
}

/// Whether `nodes` is a backward route of cost `total` from `goal` to facts
/// that hold in `start`, and no such route costs less.
pub open spec fn shortest_connection(
    rules: Seq<Rule>,
    start: Set<Fact>,
    goal: Set<Fact>,
    nodes: Seq<Set<Fact>>,
    total: nat,
) -> bool {
    &&& exists|hops: Seq<Rule>| #[trigger]
        connects(rules, start, goal, nodes, hops) && total_cost(hops) == total
    &&& forall|others: Seq<Set<Fact>>, hops: Seq<Rule>| #[trigger]
        connects(rules, start, goal, others, hops) ==> total <= total_cost(hops)
}

/// Whether no backward route leads from `goal` to facts that hold in `start`.
pub open spec fn unconnected(rules: Seq<Rule>, start: Set<Fact>, goal: Set<Fact>) -> bool {
    forall|nodes: Seq<Set<Fact>>, hops: Seq<Rule>| !#[trigger] connects(rules, start, goal, nodes, hops)
}

/// The nodes that taking `goal` backward through `steps` passes, `goal` first.
pub open spec fn trail(goal: Set<Fact>, steps: Seq<Rule>) -> Seq<Set<Fact>>
    decreases steps.len(),
{
    if steps.len() == 0 {
        seq![goal]
    } else {
        seq![goal] + trail(regress(goal, steps.last()), steps.drop_last())
    }
}

/// Along a backward route the first node can be taken backward through the
/// hops, read in the order of execution, and what is then required is the
/// last node.
proof fn lemma_route_regresses(nodes: Seq<Set<Fact>>, hops: Seq<Rule>)
    requires
        is_route(nodes, hops),
    ensures
        regressable(nodes[0], hops.reverse()),
        regressed(nodes[0], hops.reverse()) == nodes.last(),
    decreases hops.len(),
{
    let steps = hops.reverse();
    if hops.len() > 0 {
        assert(steps.drop_last() =~= hops.drop_first().reverse());
        let rest_nodes = nodes.drop_first();
        let rest_hops = hops.drop_first();
        assert forall|i: int| 0 <= i < rest_hops.len() implies reached_by(
            rest_nodes[i],
            #[trigger] rest_hops[i],
        ) && rest_nodes[i + 1] == regress(rest_nodes[i], rest_hops[i]) by {
            assert(rest_hops[i] == hops[i + 1]);
        }
        lemma_route_regresses(rest_nodes, rest_hops);
    }
}

/// A backward route read in the order of execution is a plan that the
/// backward search admits, at the cost of the route.
pub proof fn lemma_route_is_admitted(
    rules: Seq<Rule>,
    start: Set<Fact>,
    goal: Set<Fact>,
    nodes: Seq<Set<Fact>>,
    hops: Seq<Rule>,
)
    requires
        connects(rules, start, goal, nodes, hops),
    ensures
        admits(rules, start, goal, hops.reverse()),
        total_cost(hops.reverse()) == total_cost(hops),
{
    lemma_total_cost_reverse(hops);
    lemma_route_regresses(nodes, hops);
    let steps = hops.reverse();
    assert forall|i: int| 0 <= i < steps.len() implies rules.contains(#[trigger] steps[i]) by {
        assert(steps[i] == hops[hops.len() - 1 - i]);
    }
}

/// The trail of a goal through steps that it can be taken backward through
/// is a backward route along those steps, read from the last to the first,
/// and ends at what is required before them.
proof fn lemma_trail_is_route(goal: Set<Fact>, steps: Seq<Rule>)
    requires
        regressable(goal, steps),
    ensures
        is_route(trail(goal, steps), steps.reverse()),
        trail(goal, steps)[0] == goal,
        trail(goal, steps).last() == regressed(goal, steps),
    decreases steps.len(),
{
    let hops = steps.reverse();
    let nodes = trail(goal, steps);
    if steps.len() > 0 {
        let next = regress(goal, steps.last());
        let rest = trail(next, steps.drop_last());
        lemma_trail_is_route(next, steps.drop_last());
        assert(hops.drop_first() =~= steps.drop_last().reverse());
        assert forall|i: int| 0 <= i < hops.len() implies reached_by(nodes[i], #[trigger] hops[i])
            && nodes[i + 1] == regress(nodes[i], hops[i]) by {
            if i > 0 {
                assert(hops[i] == hops.drop_first()[i - 1]);
            } else {
                assert(nodes[1] == rest[0]);
            }
        }
    }
}

/// A plan that the backward search admits, read from its last step to its
/// first, is a backward route from the goal to facts that hold at the start.
pub proof fn lemma_admitted_is_route(
    rules: Seq<Rule>,
    start: Set<Fact>,
    goal: Set<Fact>,
    steps: Seq<Rule>,
)
    requires
        admits(rules, start, goal, steps),
    ensures
        connects(rules, start, goal, trail(goal, steps), steps.reverse()),
        total_cost(steps.reverse()) == total_cost(steps),
{
    lemma_total_cost_reverse(steps);
    lemma_trail_is_route(goal, steps);
    let hops = steps.reverse();
    assert forall|i: int| 0 <= i < hops.len() implies rules.contains(#[trigger] hops[i]) by {
        assert(hops[i] == steps[steps.len() - 1 - i]);
    }
}

/// Where no backward route leads from the goal to facts that hold at the
/// start, the backward search admits no plan.
pub proof fn lemma_unconnected_admits_none(rules: Seq<Rule>, start: Set<Fact>, goal: Set<Fact>)
    requires
        unconnected(rules, start, goal),
    ensures
        none_admitted(rules, start, goal),
{
    assert forall|other: Seq<Rule>| !#[trigger] admits(rules, start, goal, other) by {
        if admits(rules, start, goal, other) {
            lemma_admitted_is_route(rules, start, goal, other);
        }
    }
}

/// Along a shortest backward route, some rule links every node to the next.
pub proof fn lemma_shortest_connection_is_linked(
    rules: Seq<Rule>,
    start: Set<Fact>,
    goal: Set<Fact>,
    nodes: Seq<Set<Fact>>,
    total: nat,
)
    requires
        shortest_connection(rules, start, goal, nodes, total),
    ensures
        forall|i: int| 0 <= i < nodes.len() - 1 ==> linked(rules, #[trigger] nodes[i], nodes[i + 1]),
{
    let hops = choose|hops: Seq<Rule>| #[trigger]
        connects(rules, start, goal, nodes, hops) && total_cost(hops) == total;
    assert forall|i: int| 0 <= i < nodes.len() - 1 implies linked(
        rules,
        #[trigger] nodes[i],
        nodes[i + 1],
    ) by {
        let hop = hops[i];
        let at = choose|at: int| 0 <= at < rules.len() && rules[at] == hop;
        assert(links(rules, at, nodes[i], nodes[i + 1]));
    }
}

/// The plan that follows a shortest backward route is a cheapest admitted
/// plan, and its cost is the cost of the route.
pub proof fn lemma_shortest_connection_is_cheapest(
    rules: Seq<Rule>,
    start: Set<Fact>,
    goal: Set<Fact>,
    nodes: Seq<Set<Fact>>,
    total: nat,
    plan: Seq<int>,
)
    requires
        shortest_connection(rules, start, goal, nodes, total),
        follows(rules, nodes, plan),
    ensures
        forall|j: int| 0 <= j < plan.len() ==> 0 <= #[trigger] plan[j] < rules.len(),
        cheapest_admitted(rules, start, goal, chosen(rules, plan), total),
{
    let hops = choose|hops: Seq<Rule>| #[trigger]
        connects(rules, start, goal, nodes, hops) && total_cost(hops) == total;
    let steps = chosen(rules, plan);
    let taken = steps.reverse();
    assert forall|i: int| 0 <= i < taken.len() implies rules.contains(#[trigger] taken[i])
        && reached_by(nodes[i], taken[i]) && nodes[i + 1] == regress(nodes[i], taken[i])
        && taken[i].cost <= hops[i].cost by {
        let j = plan.len() - 1 - i;
        assert(taken[i] == rules[plan[j]]);
        let at = choose|at: int| 0 <= at < rules.len() && rules[at] == hops[i];
        assert(links(rules, at, nodes[i], nodes[i + 1]));
    }
    lemma_total_cost_stepwise(taken, hops);
    lemma_route_is_admitted(rules, start, goal, nodes, taken);
    assert(taken.reverse() =~= steps);
    assert forall|other: Seq<Rule>| #[trigger] admits(rules, start, goal, other) implies total
        <= total_cost(other) by {
        lemma_admitted_is_route(rules, start, goal, other);
    }
    assert forall|j: int| 0 <= j < plan.len() implies 0 <= #[trigger] plan[j] < rules.len() by {
        assert(is_cheapest_link(rules, plan[j], nodes[nodes.len() - 2 - j], nodes[nodes.len() - 1 - j]));
    }
}

} // verus!
