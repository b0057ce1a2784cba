use goap::{ChopWood, CollectBranches, Context, GetAxe, Operator, StateFlag};

fn every_state() -> Vec<StateFlag> {
    let axe = StateFlag::has_axe();
    let wood = StateFlag::has_wood();
    let avail = StateFlag::axe_available();
    vec![
        StateFlag::none(),
        axe,
        wood,
        avail,
        axe | wood,
        axe | avail,
        wood | avail,
        axe | wood | avail,
    ]
}

#[test]
fn none_holds_no_fact() {
    let none = StateFlag::none();
    assert!(!none.contains(StateFlag::has_axe()));
    assert!(!none.contains(StateFlag::has_wood()));
    assert!(!none.contains(StateFlag::axe_available()));
    assert!(none.contains(StateFlag::none()));
}

#[test]
fn single_facts_are_distinct() {
    let singles = [StateFlag::has_axe(), StateFlag::has_wood(), StateFlag::axe_available()];
    for (i, a) in singles.iter().enumerate() {
        for (j, b) in singles.iter().enumerate() {
            assert_eq!(a.contains(*b), i == j);
            assert_eq!(a == b, i == j);
        }
    }
}

#[test]
fn every_state_is_listed_once() {
    let all = every_state();
    assert_eq!(all.len(), 8);
    for (i, a) in all.iter().enumerate() {
        for (j, b) in all.iter().enumerate() {
            assert_eq!(a == b, i == j);
        }
    }
}

#[test]
fn union_holds_the_facts_of_both() {
    let s = StateFlag::has_axe() | StateFlag::has_wood();
    assert!(s.contains(StateFlag::has_axe()));
    assert!(s.contains(StateFlag::has_wood()));
    assert!(!s.contains(StateFlag::axe_available()));
    assert_eq!(s, StateFlag::has_axe().union(StateFlag::has_wood()));
    assert_eq!(s | s, s);
    assert_eq!(s | StateFlag::none(), s);
}

#[test]
fn difference_clears_the_facts_of_the_other() {
    let s = StateFlag::has_axe() | StateFlag::has_wood();
    assert_eq!(s - StateFlag::has_axe(), StateFlag::has_wood());
    assert_eq!(s - StateFlag::axe_available(), s);
    assert_eq!(s - s, StateFlag::none());
    assert_eq!(s.difference(StateFlag::has_wood()), StateFlag::has_axe());
    assert_eq!(StateFlag::none() - s, StateFlag::none());
}

#[test]
fn contains_is_the_subset_test() {
    for a in every_state() {
        for b in every_state() {
            assert_eq!(a.contains(b), (a | b) == a);
            assert_eq!(a.contains(b), (b - a) == StateFlag::none());
        }
    }
}

#[test]
fn set_algebra_on_every_pair() {
    let singles = [StateFlag::has_axe(), StateFlag::has_wood(), StateFlag::axe_available()];
    for a in every_state() {
        for b in every_state() {
            for f in singles {
                assert_eq!((a | b).contains(f), a.contains(f) || b.contains(f));
                assert_eq!((a - b).contains(f), a.contains(f) && !b.contains(f));
            }
        }
    }
}

#[test]
fn new_context_is_empty() {
    let ctx = Context::new();
    assert_eq!(ctx.state, StateFlag::none());
    assert_eq!(ctx, Context::with_state(StateFlag::none()));
}

#[test]
fn with_state_keeps_the_state() {
    for s in every_state() {
        assert_eq!(Context::with_state(s).state, s);
    }
}

#[test]
fn context_is_reached_by_actions_whose_effects_it_holds() {
    let wood = Context::with_state(StateFlag::has_wood());
    assert!(wood.would_be_reached_by(&ChopWood));
    assert!(wood.would_be_reached_by(&CollectBranches));
    assert!(!wood.would_be_reached_by(&GetAxe));
    let axe = Context::with_state(StateFlag::has_axe());
    assert!(!axe.would_be_reached_by(&ChopWood));
    assert!(axe.would_be_reached_by(&GetAxe));
    let empty = Context::new();
    assert!(!empty.would_be_reached_by(&ChopWood));
}

#[test]
fn context_is_not_reached_by_an_action_that_establishes_more() {
    let both = Operator {
        preconditions: StateFlag::none(),
        effects: StateFlag::has_axe() | StateFlag::has_wood(),
        cost: 1,
    };
    assert!(!Context::with_state(StateFlag::has_wood()).would_be_reached_by(&both));
    assert!(Context::with_state(StateFlag::has_wood() | StateFlag::has_axe())
        .would_be_reached_by(&both));
}

#[test]
fn every_context_is_reached_by_an_action_without_effects() {
    let idle = Operator { preconditions: StateFlag::has_axe(), effects: StateFlag::none(), cost: 0 };
    for s in every_state() {
        assert!(Context::with_state(s).would_be_reached_by(&idle));
    }
}

#[test]
fn regressing_a_context_clears_effects_and_adds_preconditions() {
    let wood = Context::with_state(StateFlag::has_wood());
    assert_eq!(wood.regress(&ChopWood), Context::with_state(StateFlag::has_axe()));
    assert_eq!(wood.regress(&CollectBranches), Context::new());
    let both = Context::with_state(StateFlag::has_wood() | StateFlag::axe_available());
    assert_eq!(
        both.regress(&ChopWood),
        Context::with_state(StateFlag::has_axe() | StateFlag::axe_available())
    );
    let axe = Context::with_state(StateFlag::has_axe() | StateFlag::axe_available());
    assert_eq!(axe.regress(&GetAxe), Context::with_state(StateFlag::axe_available()));
}

#[test]
fn regressing_through_an_action_that_does_not_reach_still_adds_its_preconditions() {
    let axe = Context::with_state(StateFlag::has_axe());
    assert_eq!(
        axe.regress(&ChopWood),
        Context::with_state(StateFlag::has_axe())
    );
    let none = Context::new();
    assert_eq!(none.regress(&GetAxe), Context::with_state(StateFlag::axe_available()));
}

#[test]
fn same_as_compares_the_facts() {
    for a in every_state() {
        for b in every_state() {
            assert_eq!(Context::with_state(a).same_as(&Context::with_state(b)), a == b);
        }
    }
}
