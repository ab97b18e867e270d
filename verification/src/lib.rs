//! Evacuation planning over tree-shaped road networks.
//!
//! The crate models a set of evacuation sources that send their population
//! along fixed routes, through a rooted tree of road edges, to one safe node.
//! It offers:
//!
//! - a tree data model ([`roads::RoadNetwork`], [`evac::EvacuationInfo`]) built
//!   once from a line-oriented instance file and read-only thereafter,
//! - naive lower/upper bounds on the evacuation makespan ([`bounds`]),
//! - a discrete-time feasibility checker for candidate solutions
//!   ([`checker::EvacuationSolution::check`]), which verifies that no road
//!   edge is ever asked to carry more flow than its capacity.
//!
//! Every function is specified by `requires`/`ensures` contracts and verified
//! with Verus.

pub mod bounds;
pub mod checker;
pub mod evac;
pub mod localsearch;
pub mod parse;
pub mod roads;
