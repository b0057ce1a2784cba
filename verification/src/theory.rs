//! The planning problem in plain mathematics: states are sets of facts, an
//! action is a rule over such sets, and a plan is a sequence of rules.

use vstd::prelude::*;
use crate::state::Fact;

verus! {

/// What an action requires, what it establishes and what it costs.
pub struct Rule {
    pub preconditions: Set<Fact>,
    pub effects: Set<Fact>,
    pub cost: nat,
}

/// Whether `rule` can run in state `s`: every precondition holds there.
pub open spec fn applicable(s: Set<Fact>, rule: Rule) -> bool {
    rule.preconditions.subset_of(s)
}

/// The state after `rule` has run in `s`: its effects hold in addition.
pub open spec fn apply(s: Set<Fact>, rule: Rule) -> Set<Fact> {
    s.union(rule.effects)
}

/// Whether `rule` leads backward out of the required facts `n`: it
/// establishes nothing but facts that `n` requires.
pub open spec fn reached_by(n: Set<Fact>, rule: Rule) -> bool {
    rule.effects.subset_of(n)
}

/// The facts required before `rule` runs so that `n` holds after it: those
/// of `n` that the rule does not establish, and what the rule requires.
pub open spec fn regress(n: Set<Fact>, rule: Rule) -> Set<Fact> {
    n.difference(rule.effects).union(rule.preconditions)
}

/// Whether the rules of `steps` can run one after the other from `s`, each
/// finding its preconditions in the state its forerunners left.
pub open spec fn runs(s: Set<Fact>, steps: Seq<Rule>) -> bool
    decreases steps.len(),
{
    steps.len() == 0 || (runs(s, steps.drop_last()) && applicable(
        outcome(s, steps.drop_last()),
        steps.last(),
    ))
}

/// The state after the rules of `steps` have run one after the other from `s`.
pub open spec fn outcome(s: Set<Fact>, steps: Seq<Rule>) -> Set<Fact>
    decreases steps.len(),
{
    if steps.len() == 0 {
        s
    } else {
        apply(outcome(s, steps.drop_last()), steps.last())
    }
}

/// What running every rule of `steps` once costs.
pub open spec fn total_cost(steps: Seq<Rule>) -> nat
    decreases steps.len(),
{
    if steps.len() == 0 {
        0
    } else {
        total_cost(steps.drop_last()) + steps.last().cost
    }
}

/// Whether `goal` can be taken backward through all of `steps`, last step
/// first, each step leading backward out of what is required after it.
pub open spec fn regressable(goal: Set<Fact>, steps: Seq<Rule>) -> bool
    decreases steps.len(),
{
    steps.len() == 0 || (reached_by(goal, steps.last()) && regressable(
        regress(goal, steps.last()),
        steps.drop_last(),
    ))
}

/// The facts required before `steps` so that `goal` holds after them, found
/// by taking `goal` backward through the steps, last step first.
pub open spec fn regressed(goal: Set<Fact>, steps: Seq<Rule>) -> Set<Fact>
    decreases steps.len(),
{
    if steps.len() == 0 {
        goal
    } else {
        regressed(regress(goal, steps.last()), steps.drop_last())
    }
}

/// Whether every step is one of `rules`.
pub open spec fn drawn_from(rules: Seq<Rule>, steps: Seq<Rule>) -> bool {
    forall|i: int| 0 <= i < steps.len() ==> rules.contains(#[trigger] steps[i])
}

/// Whether `steps`, taken from `rules`, run from `start` and leave a state in
/// which every fact of `goal` holds.
pub open spec fn achieves(rules: Seq<Rule>, start: Set<Fact>, goal: Set<Fact>, steps: Seq<Rule>) -> bool {
    &&& drawn_from(rules, steps)
    &&& runs(start, steps)
    &&& goal.subset_of(outcome(start, steps))
}

/// Whether the backward search admits `steps`: they are taken from `rules`,
/// `goal` can be taken backward through them, and `start` holds every fact
/// that is then required.
pub open spec fn admits(rules: Seq<Rule>, start: Set<Fact>, goal: Set<Fact>, steps: Seq<Rule>) -> bool {
    &&& drawn_from(rules, steps)
    &&& regressable(goal, steps)
    &&& regressed(goal, steps).subset_of(start)
}

/// Whether `steps` is an admitted plan of cost `cost` and no admitted plan
/// costs less.
pub open spec fn cheapest_admitted(
    rules: Seq<Rule>,
    start: Set<Fact>,
    goal: Set<Fact>,
    steps: Seq<Rule>,
    cost: nat,
) -> bool {
    &&& admits(rules, start, goal, steps)
    &&& total_cost(steps) == cost
    &&& forall|other: Seq<Rule>| #[trigger]
        admits(rules, start, goal, other) ==> cost <= total_cost(other)
}

/// Whether the backward search admits no plan at all.
pub open spec fn none_admitted(rules: Seq<Rule>, start: Set<Fact>, goal: Set<Fact>) -> bool {
    forall|other: Seq<Rule>| !#[trigger] admits(rules, start, goal, other)
}

/// Whether a step that establishes a fact `goal` requires establishes only
/// such facts, at every step as `goal` is taken backward through `steps`. A
/// step that establishes nothing required is passed over.
pub open spec fn focused(goal: Set<Fact>, steps: Seq<Rule>) -> bool
    decreases steps.len(),
{
    steps.len() == 0 || if steps.last().effects.disjoint(goal) {
        focused(goal, steps.drop_last())
    } else {
        reached_by(goal, steps.last()) && focused(regress(goal, steps.last()), steps.drop_last())
    }
}

/// Whether `facts` holds one fact at most.
pub open spec fn at_most_one(facts: Set<Fact>) -> bool {
    forall|f: Fact, g: Fact| facts.contains(f) && facts.contains(g) ==> f == g
}

/// Whether every step establishes one fact at most.
pub open spec fn single_effects(steps: Seq<Rule>) -> bool {
    forall|i: int| 0 <= i < steps.len() ==> at_most_one(#[trigger] steps[i].effects)
}

/// Regressing through a rule and then running it gives back what was
/// required: the rule can run in the regressed state, and every fact
/// required before the regression holds afterwards.
pub proof fn lemma_regress_then_apply(s: Set<Fact>, rule: Rule)
    ensures
        applicable(regress(s, rule), rule),
        s.subset_of(apply(regress(s, rule), rule)),
{
}

/// The cost of a plan is the cost of its first step, and of the others.
pub proof fn lemma_total_cost_first(steps: Seq<Rule>)
    requires
        steps.len() > 0,
    ensures
        total_cost(steps) == steps[0].cost + total_cost(steps.drop_first()),
    decreases steps.len(),
{
    if steps.len() == 1 {
        assert(steps.drop_last() =~= steps.drop_first());
    } else {
        lemma_total_cost_first(steps.drop_last());
        assert(steps.drop_last().drop_first() =~= steps.drop_first().drop_last());
    }
}

/// A plan costs the same read backward.
pub proof fn lemma_total_cost_reverse(steps: Seq<Rule>)
    ensures
        total_cost(steps.reverse()) == total_cost(steps),
    decreases steps.len(),
{
    if steps.len() > 0 {
        let r = steps.reverse();
        assert(r.drop_last() =~= steps.drop_first().reverse());
        lemma_total_cost_reverse(steps.drop_first());
        lemma_total_cost_first(steps);
    } else {
        assert(steps.reverse() =~= steps);
    }
}

/// Of two plans of one length, the one whose every step costs no more costs
/// no more in all.
pub proof fn lemma_total_cost_stepwise(a: Seq<Rule>, b: Seq<Rule>)
    requires
        a.len() == b.len(),
        forall|i: int| 0 <= i < a.len() ==> (#[trigger] a[i]).cost <= b[i].cost,
    ensures
        total_cost(a) <= total_cost(b),
    decreases a.len(),
{
    if a.len() > 0 {
        lemma_total_cost_stepwise(a.drop_last(), b.drop_last());
    }
}

/// Soundness of regression: where `start` holds all that `goal` requires
/// once taken backward through `steps`, the steps run from `start` and
/// leave every fact of `goal` in place.
pub proof fn lemma_regressed_plan_runs(start: Set<Fact>, goal: Set<Fact>, steps: Seq<Rule>)
    requires
        regressable(goal, steps),
        regressed(goal, steps).subset_of(start),
    ensures
        runs(start, steps),
        goal.subset_of(outcome(start, steps)),
    decreases steps.len(),
{
    if steps.len() > 0 {
        lemma_regressed_plan_runs(start, regress(goal, steps.last()), steps.drop_last());
    }
}

/// Every plan that the backward search admits achieves the goal.
pub proof fn lemma_admitted_plan_achieves(
    rules: Seq<Rule>,
    start: Set<Fact>,
    goal: Set<Fact>,
    steps: Seq<Rule>,
)
    requires
        admits(rules, start, goal, steps),
    ensures
        achieves(rules, start, goal, steps),
{
    lemma_regressed_plan_runs(start, goal, steps);
}

/// Where no plan achieves the goal, the backward search admits none.
pub proof fn lemma_unachievable_goal_admits_none(rules: Seq<Rule>, start: Set<Fact>, goal: Set<Fact>)
    requires
        forall|steps: Seq<Rule>| !#[trigger] achieves(rules, start, goal, steps),
    ensures
        none_admitted(rules, start, goal),
{
    assert forall|other: Seq<Rule>| !#[trigger] admits(rules, start, goal, other) by {
        if admits(rules, start, goal, other) {
            lemma_admitted_plan_achieves(rules, start, goal, other);
        }
    }
}

/// The cost of the cheapest admitted plan is determined by the problem:
/// two cheapest admitted plans cost the same, and where there is one the
/// search does not come back empty.
pub proof fn lemma_cheapest_cost_is_determined(
    rules: Seq<Rule>,
    start: Set<Fact>,
    goal: Set<Fact>,
    first: Seq<Rule>,
    first_cost: nat,
    second: Seq<Rule>,
    second_cost: nat,
)
    requires
        cheapest_admitted(rules, start, goal, first, first_cost),
        cheapest_admitted(rules, start, goal, second, second_cost),
    ensures
        first_cost == second_cost,
        !none_admitted(rules, start, goal),
{
}

/// Steps that establish one fact at most are focused on any goal.
pub proof fn lemma_single_effects_are_focused(goal: Set<Fact>, steps: Seq<Rule>)
    requires
        single_effects(steps),
    ensures
        focused(goal, steps),
    decreases steps.len(),
{
    if steps.len() > 0 {
        let last = steps.last();
        assert forall|i: int| 0 <= i < steps.drop_last().len() implies at_most_one(
            #[trigger] steps.drop_last()[i].effects,
        ) by {
            assert(steps.drop_last()[i] == steps[i]);
        }
        lemma_single_effects_are_focused(goal, steps.drop_last());
        lemma_single_effects_are_focused(regress(goal, last), steps.drop_last());
    }
}

/// Completeness of regression for focused plans: from a focused plan that
/// runs from `start` and leaves the facts of `goal` in place, passing over
/// the steps that establish nothing required leaves a plan that the backward
/// search admits, and that costs no more.
pub proof fn lemma_focused_plan_is_admitted(
    rules: Seq<Rule>,
    start: Set<Fact>,
    goal: Set<Fact>,
    steps: Seq<Rule>,
) -> (kept: Seq<Rule>)
    requires
        drawn_from(rules, steps),
        runs(start, steps),
        goal.subset_of(outcome(start, steps)),
        focused(goal, steps),
    ensures
        admits(rules, start, goal, kept),
        total_cost(kept) <= total_cost(steps),
    decreases steps.len(),
{
    if steps.len() == 0 {
        steps
    } else {
        let last = steps.last();
        let before = steps.drop_last();
        assert forall|i: int| 0 <= i < before.len() implies rules.contains(#[trigger] before[i]) by {
            assert(before[i] == steps[i]);
        }
        if last.effects.disjoint(goal) {
            lemma_focused_plan_is_admitted(rules, start, goal, before)
        } else {
            let kept_before = lemma_focused_plan_is_admitted(
                rules,
                start,
                regress(goal, last),
                before,
            );
            let kept = kept_before.push(last);
            assert(kept.drop_last() =~= kept_before);
            assert forall|i: int| 0 <= i < kept.len() implies rules.contains(#[trigger] kept[i]) by {
                if i < kept_before.len() {
                    assert(kept[i] == kept_before[i]);
                } else {
                    assert(kept[i] == steps[steps.len() - 1]);
                }
            }
            kept
        }
    }
}

/// Optimality: the cheapest admitted plan costs no more than any focused
/// plan that achieves the goal.
pub proof fn lemma_cheapest_beats_focused_plans(
    rules: Seq<Rule>,
    start: Set<Fact>,
    goal: Set<Fact>,
    steps: Seq<Rule>,
    cost: nat,
    other: Seq<Rule>,
)
    requires
        cheapest_admitted(rules, start, goal, steps, cost),
        achieves(rules, start, goal, other),
        focused(goal, other),
    ensures
        cost <= total_cost(other),
{
    let kept = lemma_focused_plan_is_admitted(rules, start, goal, other);
}

/// Where the backward search admits no plan, no focused plan achieves the
/// goal.
pub proof fn lemma_none_admitted_no_focused_plan(
    rules: Seq<Rule>,
    start: Set<Fact>,
    goal: Set<Fact>,
    other: Seq<Rule>,
)
    requires
        none_admitted(rules, start, goal),
        focused(goal, other),
    ensures
        !achieves(rules, start, goal, other),
{
    if achieves(rules, start, goal, other) {
        let kept = lemma_focused_plan_is_admitted(rules, start, goal, other);
    }
}

/// Where every rule establishes one fact at most, the cheapest admitted
/// plan costs no more than any plan that achieves the goal.
pub proof fn lemma_cheapest_beats_all_plans_of_single_effects(
    rules: Seq<Rule>,
    start: Set<Fact>,
    goal: Set<Fact>,
    steps: Seq<Rule>,
    cost: nat,
    other: Seq<Rule>,
)
    requires
        single_effects(rules),
        cheapest_admitted(rules, start, goal, steps, cost),
        achieves(rules, start, goal, other),
    ensures
        cost <= total_cost(other),
{
    assert forall|i: int| 0 <= i < other.len() implies at_most_one(#[trigger] other[i].effects) by {
        let at = choose|at: int| 0 <= at < rules.len() && rules[at] == other[i];
        assert(at_most_one(rules[at].effects));
    }
    lemma_single_effects_are_focused(goal, other);
    lemma_cheapest_beats_focused_plans(rules, start, goal, steps, cost, other);
}

} // verus!
