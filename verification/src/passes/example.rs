//! The two trivial passes.
use crate::ast::Program;
use vstd::prelude::*;

verus! {

/// Removes every function of the program; always reports a change.
pub fn delete_everything_pass(program: &mut Program) -> (changed: bool)
    ensures
        final(program).functions@.len() == 0,
        changed,
{
    program.functions.clear();
    true
}

/// Leaves the program as it is; reports no change.
pub fn do_nothing_pass(_program: &mut Program) -> (changed: bool)
    ensures
        *final(_program) == *old(_program),
        !changed,
{
    false
}

} // verus!
