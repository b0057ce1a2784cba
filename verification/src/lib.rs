//! Goal-oriented action planning over a small, closed universe of facts.
//!
//! A world state is a set of facts, an action requires some facts and
//! establishes others at a cost, and the planner searches backward from the
//! goal for the cheapest sequence of actions that the start state can run.
//!
//! - `state`: facts, sets of facts as bit masks, and contexts.
//! - `action`: the `Action` trait and the actions that come with the crate.
//! - `theory`: what it means for a plan to run, to achieve a goal and to be
//!   found by regression, with the laws that relate these.
//! - `route`: the graph that the backward search walks, and how its routes
//!   and the plans of `theory` correspond.
//! - `planner`: the search itself.
//! - `agent`: what a character carries, as a world state.

pub mod action;
pub mod agent;
pub mod planner;
pub mod route;
pub mod state;
pub mod theory;

pub use action::{Action, ChopWood, CollectBranches, GetAxe, Operator};
pub use agent::Char;
pub use planner::{Plan, Planner, Step};
pub use state::{Context, Fact, StateFlag};
