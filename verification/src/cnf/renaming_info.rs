//! The counters from which new variables and function symbols are taken.
use vstd::prelude::*;

verus! {

/// The variable and the function symbol that were made last. Variables are
/// counted downwards from -1, function symbols upwards from 1.
#[derive(Debug, Clone, Copy, PartialEq, Eq)]
pub struct RenamingInfo {
    pub var_cnt: i64,
    pub fun_cnt: i64,
}

impl RenamingInfo {
    /// The counters after `var_cnt` variables and `fun_cnt` function symbols.
    pub fn new(var_cnt: i64, fun_cnt: i64) -> (ri: RenamingInfo)
        ensures
            ri.var_cnt == var_cnt,
            ri.fun_cnt == fun_cnt,
    {
        RenamingInfo { var_cnt, fun_cnt }
    }

    /// A variable that was never used.
    pub fn create_new_variable_id(&mut self) -> (id: i64)
        requires
            old(self).var_cnt > i64::MIN,
        ensures
            id == old(self).var_cnt - 1,
            final(self).var_cnt == id,
            final(self).fun_cnt == old(self).fun_cnt,
    {
        self.var_cnt = self.var_cnt - 1;
        self.var_cnt
    }

    /// A function symbol that was never used.
    pub fn create_new_function_id(&mut self) -> (id: i64)
        requires
            old(self).fun_cnt < i64::MAX,
        ensures
            id == old(self).fun_cnt + 1,
            final(self).fun_cnt == id,
            final(self).var_cnt == old(self).var_cnt,
    {
        self.fun_cnt = self.fun_cnt + 1;
        self.fun_cnt
    }
}

} // verus!
