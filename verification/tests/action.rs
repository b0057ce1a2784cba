use goap::{Action, Char, ChopWood, CollectBranches, GetAxe, Operator, StateFlag};

#[test]
fn chop_wood_needs_an_axe_and_gives_wood() {
    let a = ChopWood;
    assert_eq!(a.preconditions(), StateFlag::has_axe());
    assert_eq!(a.effects(), StateFlag::has_wood());
    assert_eq!(a.cost(), 4);
}

#[test]
fn collect_branches_needs_nothing_and_gives_wood() {
    let a = CollectBranches;
    assert_eq!(a.preconditions(), StateFlag::none());
    assert_eq!(a.effects(), StateFlag::has_wood());
    assert_eq!(a.cost(), 8);
}

#[test]
fn get_axe_needs_one_within_reach_and_gives_it() {
    let a = GetAxe;
    assert_eq!(a.preconditions(), StateFlag::axe_available());
    assert_eq!(a.effects(), StateFlag::has_axe());
    assert_eq!(a.cost(), 2);
}

#[test]
fn operator_is_what_its_fields_say() {
    let a = Operator {
        preconditions: StateFlag::has_wood(),
        effects: StateFlag::has_axe() | StateFlag::axe_available(),
        cost: 17,
    };
    assert_eq!(a.preconditions(), StateFlag::has_wood());
    assert_eq!(a.effects(), StateFlag::has_axe() | StateFlag::axe_available());
    assert_eq!(a.cost(), 17);
}

#[test]
fn actions_answer_through_a_trait_object() {
    let actions: [&dyn Action; 3] = [&ChopWood, &CollectBranches, &GetAxe];
    let costs: Vec<u32> = actions.iter().map(|a| a.cost()).collect();
    assert_eq!(costs, vec![4, 8, 2]);
}

#[test]
fn character_without_anything_is_in_the_empty_state() {
    let c = Char { has_axe: false, wood: 0 };
    assert_eq!(c.to_state(), StateFlag::none());
}

#[test]
fn character_with_an_axe_has_an_axe() {
    let c = Char { has_axe: true, wood: 0 };
    assert_eq!(c.to_state(), StateFlag::has_axe());
}

#[test]
fn character_with_wood_has_wood() {
    let c = Char { has_axe: false, wood: 1 };
    assert_eq!(c.to_state(), StateFlag::has_wood());
    let c = Char { has_axe: false, wood: 255 };
    assert_eq!(c.to_state(), StateFlag::has_wood());
}

#[test]
fn character_with_both_has_both_and_never_sees_an_axe_lying_about() {
    let c = Char { has_axe: true, wood: 3 };
    assert_eq!(c.to_state(), StateFlag::has_axe() | StateFlag::has_wood());
    assert!(!c.to_state().contains(StateFlag::axe_available()));
}
