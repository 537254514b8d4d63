//! Core of a multi-objective MaxSAT solver: the state shared by its search
//! algorithms, the rules by which objectives are turned into literals, costs
//! are computed, solutions are recorded and blocked, and limits are kept.

pub mod basic_effects;
pub mod blits;
pub mod blocking;
pub mod cli;
pub mod cli_effects;
pub mod config;
pub mod cost_effects;
pub mod costs;
pub mod dominance;
pub mod domination;
pub mod domination_effects;
pub mod encoding;
pub mod encoding_effects;
pub mod front;
pub mod instance;
pub mod instance_effects;
pub mod kernel;
pub mod kernel_effects;
pub mod linear;
pub mod linear_effects;
pub mod logging;
pub mod merging;
pub mod objective;
pub mod reindex;
pub mod relaxation;
pub mod semantics;
pub mod setup_effects;
pub mod solve;
pub mod types;
pub mod vars;
pub mod weights;
pub mod yield_effects;
pub mod yielding;
