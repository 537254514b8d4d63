//! Management of variables.
use vstd::prelude::*;

use crate::types::{Var, MAX_VAR_IDX};

verus! {

/// Hands out variables in ascending order.
#[derive(Clone, Copy, Debug, PartialEq, Eq, Structural)]
pub struct VarManager {
    /// The next free variable index.
    pub next: u32,
}

impl VarManager {
    /// Creates a variable manager from the next free variable index.
    pub fn from_next_free(next: u32) -> (vm: VarManager)
        ensures
            vm.next == next,
    {
        VarManager { next }
    }

    /// Whether at least one variable is left to hand out.
    pub open spec fn has_free(self) -> bool {
        self.next <= MAX_VAR_IDX
    }

    /// Uses up the next free variable.
    pub fn new_var(&mut self) -> (var: Var)
        requires
            old(self).has_free(),
        ensures
            var.idx == old(self).next,
            final(self).next == old(self).next + 1,
    {
        let var = Var { idx: self.next };
        self.next = self.next + 1;
        var
    }

    /// The used variable with the highest index.
    pub fn max_var(&self) -> (var: Option<Var>)
        ensures
            self.next == 0 ==> var is None,
            self.next > 0 ==> var == Some(Var { idx: (self.next - 1) as u32 }),
    {
        if self.next == 0 {
            None
        } else {
            Some(Var { idx: self.next - 1 })
        }
    }
}

} // verus!
