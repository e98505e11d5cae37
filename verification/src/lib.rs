//! A discrete-time, agent-based demographic simulator.
//!
//! A population of individuals ages, forms and dissolves partnerships,
//! conceives and gestates offspring, and dies, according to configurable
//! rates. Simulated time, ages and durations are integer time units
//! ([`config::TIME_UNITS_PER_YEAR`] units per year); annualized hazard
//! rates are fixed-point numbers (see [`hazard`]).

pub mod config;
pub mod events;
pub mod gestation;
pub mod hazard;
pub mod individual;
pub mod partner;
pub mod sim;

use vstd::prelude::*;

verus! {

} // verus!
