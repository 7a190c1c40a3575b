//! The instruction pointer: where execution stands, and how stepping decides
//! where to pause.
use vstd::prelude::*;

use crate::runtime::instruction::Instruction;

verus! {

/// How far a step goes.
#[derive(Clone, Copy, Debug, PartialEq, Eq, Structural)]
pub enum StepMode {
    /// Pause at the next instruction, entering calls.
    StepInto,
    /// Pause at the next instruction in the same frame or an outer one.
    StepOver,
    /// Pause at the next instruction in an outer frame.
    StepOut,
    /// Pause at the next control-flow instruction.
    StepBlock,
}

/// The position of execution within the instruction trace, its call-stack
/// depth, and the stepping request in force.
#[derive(Clone, Copy, Debug, PartialEq, Eq, Structural)]
pub struct InstructionPointer {
    /// Index of the current instruction; `None` before the first one.
    pub position: Option<usize>,
    /// Call-stack depth at the current instruction (0 at the entry frame).
    pub call_stack_depth: usize,
    /// Whether instruction stepping is on.
    pub stepping: bool,
    /// The step mode in force while stepping.
    pub step_mode: StepMode,
    /// The call-stack depth at which the current step began.
    pub step_depth: usize,
}

impl InstructionPointer {
    /// Whether stepping pauses at `instruction` reached at the current depth.
    pub open spec fn pauses_at(self, instruction: Instruction) -> bool {
        self.stepping && match self.step_mode {
            StepMode::StepInto => true,
            StepMode::StepOver => self.call_stack_depth <= self.step_depth,
            StepMode::StepOut => self.call_stack_depth < self.step_depth,
            StepMode::StepBlock => instruction.control_flow,
        }
    }

    /// The pointer before any instruction, not stepping.
    pub fn new() -> (r: Self)
        ensures
            r.position == None::<usize>,
            r.call_stack_depth == 0,
            !r.stepping,
            r.step_mode == StepMode::StepInto,
            r.step_depth == 0,
    {
        InstructionPointer {
            position: None,
            call_stack_depth: 0,
            stepping: false,
            step_mode: StepMode::StepInto,
            step_depth: 0,
        }
    }

    /// The call-stack depth at the current instruction.
    pub fn call_stack_depth(&self) -> (r: usize)
        ensures
            r == self.call_stack_depth,
    {
        self.call_stack_depth
    }

    /// Whether stepping should pause at `instruction`.
    pub fn should_pause_at(&self, instruction: &Instruction) -> (r: bool)
        ensures
            r == self.pauses_at(*instruction),
            !self.stepping ==> !r,
            self.stepping && self.step_mode == StepMode::StepInto ==> r,
            self.stepping && self.step_mode == StepMode::StepOver ==> (r <==> self.call_stack_depth
                <= self.step_depth),
            self.stepping && self.step_mode == StepMode::StepOut ==> (r <==> self.call_stack_depth
                < self.step_depth),
            self.stepping && self.step_mode == StepMode::StepBlock ==> (r
                <==> instruction.control_flow),
    {
        if !self.stepping {
            return false;
        }
        match self.step_mode {
            StepMode::StepInto => true,
            StepMode::StepOver => self.call_stack_depth <= self.step_depth,
            StepMode::StepOut => self.call_stack_depth < self.step_depth,
            StepMode::StepBlock => instruction.is_control_flow(),
        }
    }
}

} // verus!
