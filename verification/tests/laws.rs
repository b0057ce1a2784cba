use goap::{Action, ChopWood, CollectBranches, Context, GetAxe, Operator, Planner, StateFlag};

fn states() -> Vec<StateFlag> {
    let axe = StateFlag::has_axe();
    let wood = StateFlag::has_wood();
    let avail = StateFlag::axe_available();
    vec![
        StateFlag::none(),
        axe,
        wood,
        avail,
        axe | wood,
        axe | avail,
        wood | avail,
        axe | wood | avail,
    ]
}

/// The least cost at which running actions forward from `start` reaches a
/// state that holds `goal`, by trying every state in turn until nothing
/// improves.
fn least_forward_cost(start: StateFlag, goal: StateFlag, actions: &[&dyn Action]) -> Option<u64> {
    let all = states();
    let mut best: Vec<Option<u64>> = all.iter().map(|s| if *s == start { Some(0) } else { None }).collect();
    let mut changed = true;
    while changed {
        changed = false;
        for i in 0..all.len() {
            if let Some(cost) = best[i] {
                for a in actions {
                    if all[i].contains(a.preconditions()) {
                        let next = all[i] | a.effects();
                        let j = all.iter().position(|s| *s == next).unwrap();
                        let there = cost + a.cost() as u64;
                        if best[j].map_or(true, |c| there < c) {
                            best[j] = Some(there);
                            changed = true;
                        }
                    }
                }
            }
        }
    }
    let mut least: Option<u64> = None;
    for i in 0..all.len() {
        if all[i].contains(goal) {
            if let Some(c) = best[i] {
                if least.map_or(true, |l| c < l) {
                    least = Some(c);
                }
            }
        }
    }
    least
}

fn run_plan(start: StateFlag, goal: StateFlag, actions: &[&dyn Action], steps: &[usize], cost: u64) {
    let mut state = start;
    let mut sum: u64 = 0;
    for &at in steps {
        assert!(at < actions.len());
        assert!(state.contains(actions[at].preconditions()));
        state = state | actions[at].effects();
        sum += actions[at].cost() as u64;
    }
    assert!(state.contains(goal));
    assert_eq!(sum, cost);
}

#[test]
fn regressing_and_then_applying_gives_back_what_was_required() {
    let actions: [&dyn Action; 3] = [&ChopWood, &CollectBranches, &GetAxe];
    for s in states() {
        for a in actions {
            if s.contains(a.effects()) {
                let before = (s - a.effects()) | a.preconditions();
                assert!(before.contains(a.preconditions()));
                assert!((before | a.effects()).contains(s));
            }
        }
    }
}

#[test]
fn every_plan_found_runs_and_achieves_the_goal() {
    let actions: [&dyn Action; 3] = [&ChopWood, &CollectBranches, &GetAxe];
    let mut found = 0;
    for start in states() {
        for goal in states() {
            let plan =
                Planner::find_path(&Context::with_state(start), &Context::with_state(goal), &actions);
            if let Some(plan) = plan {
                run_plan(start, goal, &actions, &plan.actions, plan.cost);
                found += 1;
            }
        }
    }
    assert!(found > 0);
}

#[test]
fn plans_with_single_effects_are_as_cheap_as_any_forward_plan() {
    let actions: [&dyn Action; 3] = [&ChopWood, &CollectBranches, &GetAxe];
    for start in states() {
        for goal in states() {
            let plan =
                Planner::find_path(&Context::with_state(start), &Context::with_state(goal), &actions);
            assert_eq!(plan.map(|p| p.cost), least_forward_cost(start, goal, &actions));
        }
    }
}

#[test]
fn no_plan_is_found_where_none_exists() {
    let actions: [&dyn Action; 3] = [&ChopWood, &CollectBranches, &GetAxe];
    let mut none = 0;
    for start in states() {
        for goal in states() {
            if least_forward_cost(start, goal, &actions).is_none() {
                let plan = Planner::find_path(
                    &Context::with_state(start),
                    &Context::with_state(goal),
                    &actions,
                );
                assert_eq!(plan, None);
                none += 1;
            }
        }
    }
    assert!(none > 0);
}

#[test]
fn every_plan_found_with_wider_effects_still_runs() {
    let both = Operator {
        preconditions: StateFlag::axe_available(),
        effects: StateFlag::has_axe() | StateFlag::has_wood(),
        cost: 1,
    };
    let lose = Operator { preconditions: StateFlag::has_wood(), effects: StateFlag::none(), cost: 2 };
    let actions: [&dyn Action; 5] = [&both, &ChopWood, &lose, &CollectBranches, &GetAxe];
    for start in states() {
        for goal in states() {
            let plan =
                Planner::find_path(&Context::with_state(start), &Context::with_state(goal), &actions);
            let least = least_forward_cost(start, goal, &actions);
            match plan {
                Some(plan) => {
                    run_plan(start, goal, &actions, &plan.actions, plan.cost);
                    assert!(least.unwrap() <= plan.cost);
                },
                None => {},
            }
        }
    }
}

#[test]
fn cost_does_not_change_from_call_to_call() {
    let actions: [&dyn Action; 3] = [&ChopWood, &CollectBranches, &GetAxe];
    for start in states() {
        for goal in states() {
            let s = Context::with_state(start);
            let g = Context::with_state(goal);
            let first = Planner::find_path(&s, &g, &actions).map(|p| p.cost);
            let second = Planner::find_path(&s, &g, &actions).map(|p| p.cost);
            assert_eq!(first, second);
        }
    }
}
