//! Tabu search for the temporal knapsack problem: choose time-interval orders,
//! each with a demand over an inclusive range of slots and a profit, so that the
//! total profit is as large as possible while no slot's total demand exceeds a
//! fixed capacity.
//!
//! - [`model`]: orders and the mathematical meaning of a selection.
//! - [`solution`]: a selection with its incrementally kept demand profile.
//! - [`tabu`]: the bounded memory of recently accepted solutions.
//! - [`neighbors`]: the candidates of the greedy moves.
//! - [`search`]: the search driver and its moves.
//! - [`parse`]: the text formats of orders and problems.
//! - [`formulation`]: the capacity constraints of the integer program.
pub mod formulation;
pub mod instance;
pub mod model;
pub mod neighbors;
pub mod parse;
mod random;
pub mod search;
pub mod solution;
pub mod tabu;

pub use instance::{InstanceError, TkpInstance};
pub use model::Order;
pub use search::{
    ImprovementSink, NoopSink, RepairExhausted, SearchConfig, TabuSearch,
    DEFAULT_ASPIRATION_THRESHOLD,
};
pub use solution::{last_order_end, recompute, Solution};
pub use tabu::TabuMemory;
