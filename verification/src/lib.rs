//! A planning-graph solver in the Graphplan style.
//!
//! A domain is a set of boolean facts ([`proposition::Proposition`]), a set of
//! actions over those facts ([`action::Action`]), an initial world state and a
//! goal state.  [`plangraph::PlanGraph`] grows a layered graph forward while
//! propagating mutual-exclusion constraints, and a [`solver::GraphPlanSolver`]
//! extracts a shortest-depth sequence of synchronized action groups backward,
//! or reports that no plan exists.

pub mod action;
pub mod layer;
pub mod pairset;
pub mod plangraph;
pub mod proposition;
pub mod solver;
