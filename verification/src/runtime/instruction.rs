//! A decoded contract instruction, as the stepper sees it.
use vstd::prelude::*;

verus! {

/// One instruction of contract code: where it sits in the code, and whether it
/// transfers control (a block boundary, branch, call or return).
#[derive(Clone, Copy, Debug, PartialEq, Eq, Structural)]
pub struct Instruction {
    pub offset: usize,
    pub control_flow: bool,
}

impl Instruction {
    pub fn new(offset: usize, control_flow: bool) -> (r: Self)
        ensures
            r.offset == offset,
            r.control_flow == control_flow,
    {
        Instruction { offset, control_flow }
    }

    /// Whether the instruction transfers control.
    pub fn is_control_flow(&self) -> (r: bool)
        ensures
            r == self.control_flow,
    {
        self.control_flow
    }
}

} // verus!
