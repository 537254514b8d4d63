//! The interface of the search algorithms.
use vstd::prelude::*;

use crate::config::{Limits, Stats, Termination};
use crate::front::ParetoFront;
use crate::kernel::SolverKernel;

verus! {

/// Solving interface for each algorithm.
pub trait Solve: KernelFunctions {
    /// Solves the instance under given limits. If not fully solved, errors an
    /// early termination reason.
    fn solve(&mut self, limits: Limits) -> Result<(), Termination>;
}

/// Shared functionality provided by the [`SolverKernel`].
pub trait KernelFunctions {
    /// What is told of the events of a search.
    type Logger;

    /// What is asked whether to go on.
    type Terminator;

    /// Gets the Pareto front discovered so far.
    fn pareto_front(&self) -> ParetoFront;

    /// Gets tracked statistics from the solver.
    fn stats(&self) -> Stats;

    /// Attaches a logger to the solver, in place of any other.
    fn attach_logger(&mut self, logger: Self::Logger);

    /// Detaches a logger from the solver.
    fn detach_logger(&mut self) -> Option<Self::Logger>;

    /// Attaches a terminator callback. Only one callback can be attached at a
    /// time.
    fn attach_terminator(&mut self, term_cb: Self::Terminator);

    /// Detaches the termination callback.
    fn detach_terminator(&mut self);
}

impl<L, T> KernelFunctions for SolverKernel<L, T> {
    type Logger = L;

    type Terminator = T;

    fn pareto_front(&self) -> (front: ParetoFront)
        ensures
            front@ == self.pareto_front@,
    {
        self.pareto_front.clone()
    }

    fn stats(&self) -> (stats: Stats)
        ensures
            stats == self.stats,
    {
        self.stats
    }

    fn attach_logger(&mut self, logger: L)
        ensures
            *final(self) == (SolverKernel { logger: Some(logger), ..*old(self) }),
    {
        self.logger = Some(logger);
    }

    fn detach_logger(&mut self) -> (logger: Option<L>)
        ensures
            logger == old(self).logger,
            *final(self) == (SolverKernel { logger: None, ..*old(self) }),
    {
        self.logger.take()
    }

    fn attach_terminator(&mut self, term_cb: T)
        ensures
            *final(self) == (SolverKernel { term_cb: Some(term_cb), ..*old(self) }),
    {
        self.term_cb = Some(term_cb);
    }

    fn detach_terminator(&mut self)
        ensures
            *final(self) == (SolverKernel { term_cb: None, ..*old(self) }),
    {
        self.term_cb = None;
    }
}

} // verus!
