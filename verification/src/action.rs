//! Actions: what an agent can do, each with what it requires, what it
//! establishes and what it costs.

use vstd::prelude::*;
use crate::state::{Fact, StateFlag};
use crate::theory::Rule;

verus! {

/// Something an agent can do.
///
/// An action is a fixed description: the three methods return the same
/// values whenever they are called, and `rule` names those values. The cost
/// is unsigned, so no action can charge less than nothing. A type that
/// implements `Action` states its rule; where none can be stated, because
/// the action is only known while the program runs, `Operator` serves.
pub trait Action {
    /// What the action requires, establishes and costs.
    spec fn rule(&self) -> Rule;

    /// The facts that must hold before the action can run.
    fn preconditions(&self) -> (r: StateFlag)
        ensures
            r@ == self.rule().preconditions,
    ;

    /// The facts that hold once the action has run.
    fn effects(&self) -> (r: StateFlag)
        ensures
            r@ == self.rule().effects,
    ;

    /// What running the action once costs.
    fn cost(&self) -> (r: u32)
        ensures
            r == self.rule().cost,
    ;
}

/// A reference to an action is that action.
impl<'a, T: Action + ?Sized> Action for &'a T {
    open spec fn rule(&self) -> Rule {
        (**self).rule()
    }

    fn preconditions(&self) -> (r: StateFlag) {
        (**self).preconditions()
    }

    fn effects(&self) -> (r: StateFlag) {
        (**self).effects()
    }

    fn cost(&self) -> (r: u32) {
        (**self).cost()
    }
}

/// The rules of a list of actions, in the order of the list.
pub open spec fn rules_of<A: Action>(actions: Seq<A>) -> Seq<Rule> {
    Seq::new(actions.len(), |i: int| actions[i].rule())
}

/// An action given by its three values, for actions that are made up while
/// the program runs.
#[derive(Debug, Clone, Copy, PartialEq, Eq)]
pub struct Operator {
    pub preconditions: StateFlag,
    pub effects: StateFlag,
    pub cost: u32,
}

impl Action for Operator {
    open spec fn rule(&self) -> Rule {
        Rule {
            preconditions: self.preconditions@,
            effects: self.effects@,
            cost: self.cost as nat,
        }
    }

    fn preconditions(&self) -> (r: StateFlag) {
        self.preconditions
    }

    fn effects(&self) -> (r: StateFlag) {
        self.effects
    }

    fn cost(&self) -> (r: u32) {
        self.cost
    }
}

/// Chop wood with the axe in hand.
#[derive(Default, Debug)]
pub struct ChopWood;

impl Action for ChopWood {
    open spec fn rule(&self) -> Rule {
        Rule { preconditions: set![Fact::HasAxe], effects: set![Fact::HasWood], cost: 4 }
    }

    fn preconditions(&self) -> (r: StateFlag) {
        StateFlag::has_axe()
    }

    fn effects(&self) -> (r: StateFlag) {
        StateFlag::has_wood()
    }

    fn cost(&self) -> (r: u32) {
        4
    }
}

/// Gather fallen branches by hand.
#[derive(Default, Debug)]
pub struct CollectBranches;

impl Action for CollectBranches {
    open spec fn rule(&self) -> Rule {
        Rule { preconditions: Set::empty(), effects: set![Fact::HasWood], cost: 8 }
    }

    fn preconditions(&self) -> (r: StateFlag) {
        StateFlag::none()
    }

    fn effects(&self) -> (r: StateFlag) {
        StateFlag::has_wood()
    }

    fn cost(&self) -> (r: u32) {
        8
    }
}

/// Pick up the axe that lies within reach.
#[derive(Default, Debug)]
pub struct GetAxe;

impl Action for GetAxe {
    open spec fn rule(&self) -> Rule {
        Rule { preconditions: set![Fact::AxeAvailable], effects: set![Fact::HasAxe], cost: 2 }
    }

    fn preconditions(&self) -> (r: StateFlag) {
        StateFlag::axe_available()
    }

    fn effects(&self) -> (r: StateFlag) {
        StateFlag::has_axe()
    }

    fn cost(&self) -> (r: u32) {
        2
    }
}

} // verus!
