# Scuttle

Core of a multi-objective MaxSAT solver, written in Verus. Given an instance
with several objectives, search algorithms look for all non-dominated points.
What they share stands in this library, with its behaviour stated in contracts.

- `instance`, `linear`, `merging`, `objective`, `blits`, `relaxation`: how an
  instance is read, how constraints that are not clauses become clauses, how soft clauses
  are turned into weighted literals, and what that means for solutions and
  their costs.
- `kernel`, `logging`, `config`, `front`, `solve`: the state that algorithms
  share, what is counted, logged and limited, and the points found so far.
- `costs`: the costs of a solution and their heuristic improvement.
- `blocking`, `yielding`: recording, blocking and enumerating solutions.
- `encoding`, `domination`, `dominance`, `weights`: upper bounds on objectives as
  clauses, clauses that block what a cost point dominates, and what repeated
  blocking leaves of a formula.
- `reindex`: undoing the renaming of variables in solutions.
- `types`, `vars`, `semantics`: literals, clauses, assignments and what they
  mean.
- `cli`: decisions of the command line program.

The SAT solver is driven from outside, in `app/`: where it is needed, the
library says what it is asked and is told what it answered.
