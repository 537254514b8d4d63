//! Loggers that are told what the solver does.
use vstd::prelude::*;

use crate::config::{LoggerError, Phase, SolverResult};
use crate::front::NonDomPoint;

verus! {

/// What a logger has to offer. A failure of the logger ends solving.
pub trait WriteSolverLog {
    /// Logs a cost point that was found.
    fn log_candidate(&mut self, costs: &Vec<usize>, phase: Phase) -> Result<(), LoggerError>;

    /// Logs an answer of the oracle.
    fn log_oracle_call(&mut self, result: SolverResult) -> Result<(), LoggerError>;

    /// Logs a solution.
    fn log_solution(&mut self) -> Result<(), LoggerError>;

    /// Logs a Pareto point.
    fn log_pareto_point(&mut self, pareto_point: &NonDomPoint) -> Result<(), LoggerError>;

    /// Logs an improvement of one objective of a solution.
    fn log_heuristic_obj_improvement(
        &mut self,
        obj_idx: usize,
        apparent_cost: usize,
        improved_cost: usize,
    ) -> Result<(), LoggerError>;
}

/// Whether a logger, if there is one, may have answered `reply` when it was
/// told of a candidate. Without a logger nothing fails.
pub open spec fn candidate_logged<L: WriteSolverLog>(
    before: Option<L>,
    costs: &Vec<usize>,
    phase: Phase,
    reply: Result<(), LoggerError>,
) -> bool {
    match before {
        None => reply is Ok,
        Some(l) => exists|m: &mut L|
            *m == l && #[trigger] call_ensures(
                L::log_candidate,
                (m, costs, phase),
                reply,
            ),
    }
}

/// Whether a logger, if there is one, may have answered `reply` when it was
/// told of an oracle call.
pub open spec fn oracle_call_logged<L: WriteSolverLog>(
    before: Option<L>,
    result: SolverResult,
    reply: Result<(), LoggerError>,
) -> bool {
    match before {
        None => reply is Ok,
        Some(l) => exists|m: &mut L|
            *m == l && #[trigger] call_ensures(
                L::log_oracle_call,
                (m, result),
                reply,
            ),
    }
}

/// Whether a logger, if there is one, may have answered `reply` when it was
/// told of a solution.
pub open spec fn solution_logged<L: WriteSolverLog>(
    before: Option<L>,
    reply: Result<(), LoggerError>,
) -> bool {
    match before {
        None => reply is Ok,
        Some(l) => exists|m: &mut L|
            *m == l && #[trigger] call_ensures(
                L::log_solution,
                (m,),
                reply,
            ),
    }
}

/// Whether a logger, if there is one, may have answered `reply` when it was
/// told of a Pareto point.
pub open spec fn point_logged<L: WriteSolverLog>(
    before: Option<L>,
    pareto_point: &NonDomPoint,
    reply: Result<(), LoggerError>,
) -> bool {
    match before {
        None => reply is Ok,
        Some(l) => exists|m: &mut L|
            *m == l && #[trigger] call_ensures(
                L::log_pareto_point,
                (m, pareto_point),
                reply,
            ),
    }
}

/// Whether a logger, if there is one, may have answered `reply` when it was
/// told of an improvement.
pub open spec fn improvement_logged<L: WriteSolverLog>(
    before: Option<L>,
    obj_idx: usize,
    apparent_cost: usize,
    improved_cost: usize,
    reply: Result<(), LoggerError>,
) -> bool {
    match before {
        None => reply is Ok,
        Some(l) => exists|m: &mut L|
            *m == l && #[trigger] call_ensures(
                L::log_heuristic_obj_improvement,
                (m, obj_idx, apparent_cost, improved_cost),
                reply,
            ),
    }
}

} // verus!
