//! Options, limits, statistics, and the reasons for which solving ends.
use vstd::prelude::*;

verus! {

/// What to enumerate at each non-dominated point.
#[derive(Clone, Copy, Debug, PartialEq, Eq, Structural)]
pub enum EnumOptions {
    /// One solution per point.
    NoEnum,
    /// All solutions, or at most the given number of them.
    Solutions(Option<usize>),
    /// All Pareto-MCSs, or at most the given number of them.
    PMCSs(Option<usize>),
}

impl EnumOptions {
    /// Whether a point with `n_sols` solutions needs no further solution.
    pub open spec fn enough(self, n_sols: int) -> bool {
        match self {
            EnumOptions::NoEnum => true,
            EnumOptions::Solutions(Some(limit)) => n_sols >= limit,
            EnumOptions::PMCSs(Some(limit)) => n_sols >= limit,
            _ => false,
        }
    }

    /// Checks whether a point with `n_sols` solutions needs no further one.
    pub fn is_enough(&self, n_sols: usize) -> (b: bool)
        ensures
            b == self.enough(n_sols as int),
    {
        match self {
            EnumOptions::NoEnum => true,
            EnumOptions::Solutions(Some(limit)) => n_sols >= *limit,
            EnumOptions::PMCSs(Some(limit)) => n_sols >= *limit,
            _ => false,
        }
    }
}

/// Configuration of the solver.
#[derive(Clone, Copy, Debug, PartialEq, Eq, Structural)]
pub struct Options {
    /// What to enumerate at each non-dominated point.
    pub enumeration: EnumOptions,
    /// Whether the phases of the oracle follow the last solution.
    pub solution_guided_search: bool,
}

/// Limits of one solving run. Every limit is counted down.
#[derive(Clone, Copy, Debug, PartialEq, Eq, Structural)]
pub struct Limits {
    /// The number of Pareto points to find.
    pub pps: Option<usize>,
    /// The number of solutions to find.
    pub sols: Option<usize>,
    /// The number of candidates to consider.
    pub candidates: Option<usize>,
    /// The number of oracle calls to make.
    pub oracle_calls: Option<usize>,
}

impl Limits {
    /// No limit at all.
    pub fn none() -> (lims: Limits)
        ensures
            lims == (Limits { pps: None, sols: None, candidates: None, oracle_calls: None }),
    {
        Limits { pps: None, sols: None, candidates: None, oracle_calls: None }
    }
}

/// Numbers that are tracked while solving.
#[derive(Clone, Copy, Debug, PartialEq, Eq, Structural)]
pub struct Stats {
    pub n_solve_calls: usize,
    pub n_solutions: usize,
    pub n_pareto_points: usize,
    pub n_candidates: usize,
    pub n_oracle_calls: usize,
    pub n_objs: usize,
    pub n_orig_clauses: usize,
}

impl Stats {
    /// The numbers at the start: nothing has happened yet.
    pub open spec fn initial(n_objs: usize, n_orig_clauses: usize) -> Stats {
        Stats {
            n_solve_calls: 0,
            n_solutions: 0,
            n_pareto_points: 0,
            n_candidates: 0,
            n_oracle_calls: 0,
            n_objs,
            n_orig_clauses,
        }
    }
}

/// The part of a search that a candidate was found in.
#[derive(Clone, Copy, Debug, PartialEq, Eq, Structural)]
pub enum Phase {
    OuterLoop,
    Minimization,
    Enumeration,
}

/// The answer of the oracle.
#[derive(Clone, Copy, Debug, PartialEq, Eq, Structural)]
pub enum SolverResult {
    Sat,
    Unsat,
    Interrupted,
}

/// What a termination callback asks for.
#[derive(Clone, Copy, Debug, PartialEq, Eq, Structural)]
pub enum ControlSignal {
    Continue,
    Terminate,
}

/// A failure of a logger.
#[derive(Debug)]
pub struct LoggerError {
    pub message: String,
}

/// A failure of the oracle.
#[derive(Debug)]
pub struct OracleError {
    pub message: String,
}

/// The reasons for which solving ends early.
#[derive(Debug)]
pub enum Termination {
    /// The limit of Pareto points is reached.
    PPLimit,
    /// The limit of solutions is reached.
    SolsLimit,
    /// The limit of candidates is reached.
    CandidatesLimit,
    /// The limit of oracle calls is reached.
    OracleCallsLimit,
    /// The callback asked for termination, or the oracle was interrupted.
    Callback,
    /// The instance has no variables.
    NoVars,
    /// There are not enough variable indices.
    VarLimit,
    /// A pseudo-boolean constraint of the instance cannot be encoded.
    UnsupportedConstraint,
    /// A logger failed.
    LoggerError(LoggerError),
    /// The oracle failed.
    OracleError(OracleError),
}

impl Termination {
    /// Whether the termination is a failure.
    pub open spec fn fails(self) -> bool {
        self is LoggerError || self is OracleError
    }

    /// Checks whether the termination is a failure.
    pub fn is_error(&self) -> (b: bool)
        ensures
            b == self.fails(),
    {
        match self {
            Termination::LoggerError(_) => true,
            Termination::OracleError(_) => true,
            _ => false,
        }
    }
}

/// What is left of a limit after one more event, given that the event was
/// logged: nothing is left unless more than one was.
pub open spec fn ticked(limit: Option<usize>) -> Option<usize> {
    match limit {
        Some(n) => Some((n - 1) as usize),
        None => None,
    }
}

/// The limit after an event, and whether and why solving ends: a failure of
/// the logger comes first and leaves the limit alone.
pub open spec fn settled(
    limit: Option<usize>,
    reply: Result<(), LoggerError>,
    reached: Termination,
) -> (Option<usize>, Result<(), Termination>) {
    match reply {
        Err(e) => (limit, Err(Termination::LoggerError(e))),
        Ok(_) => (
            ticked(limit),
            if ticked(limit) == Some(0usize) {
                Err(reached)
            } else {
                Ok(())
            },
        ),
    }
}

/// Counts one event against a limit, after the logger was told of the event
/// and gave `reply`.
pub fn settle(
    limit: &mut Option<usize>,
    reply: Result<(), LoggerError>,
    reached: Termination,
) -> (r: Result<(), Termination>)
    requires
        *old(limit) != Some(0usize),
    ensures
        (*final(limit), r) == settled(*old(limit), reply, reached),
{
    match reply {
        Err(e) => {
            return Err(Termination::LoggerError(e));
        },
        Ok(_) => {},
    }
    if let Some(n) = limit {
        *n = *n - 1;
        if *n == 0 {
            return Err(reached);
        }
    }
    Ok(())
}

/// What is left of a limit after `n` logged events.
pub open spec fn ticked_often(limit: Option<usize>, n: nat) -> Option<usize>
    decreases n,
{
    if n == 0 {
        limit
    } else {
        ticked(ticked_often(limit, (n - 1) as nat))
    }
}

/// A limit of `k` lets the first `k - 1` events pass and ends solving at the
/// `k`-th; without a limit every event passes.
pub proof fn law_limit_counts_down(limit: Option<usize>, n: nat, reached: Termination)
    requires
        limit matches Some(k) ==> n < k,
    ensures
        limit is None ==> settled(ticked_often(limit, n), Ok(()), reached) == (limit, Ok::<
            (),
            Termination,
        >(())),
        limit matches Some(k) ==> {
            &&& ticked_often(limit, n) == Some((k - n) as usize)
            &&& settled(ticked_often(limit, n), Ok(()), reached).1 == (if n + 1 == k {
                Err::<(), Termination>(reached)
            } else {
                Ok::<(), Termination>(())
            })
        },
    decreases n,
{
    if n > 0 {
        law_limit_counts_down(limit, (n - 1) as nat, reached);
    }
}

} // verus!
