//! The debug state the stepper drives: an instruction trace, the call-stack
//! depth at which each instruction of it runs, and the instruction pointer.
use vstd::prelude::*;

use crate::debugger::instruction_pointer::{InstructionPointer, StepMode};
use crate::runtime::instruction::Instruction;

verus! {

/// The abstract contents of a `DebugState`.
pub struct DebugView {
    pub instructions: Seq<Instruction>,
    pub depths: Seq<usize>,
    pub ip: InstructionPointer,
}

impl DebugView {
    /// The trace and its depths have one entry per instruction, and the
    /// pointer stands on an instruction of the trace at that instruction's
    /// depth, or before the trace at depth 0.
    pub open spec fn well_formed(self) -> bool {
        &&& self.instructions.len() == self.depths.len()
        &&& self.instructions.len() <= usize::MAX
        &&& match self.ip.position {
            Some(p) => p < self.instructions.len() && self.ip.call_stack_depth == self.depths[p as int],
            None => self.ip.call_stack_depth == 0,
        }
    }

    /// The index the next forward step reaches.
    pub open spec fn next_index(self) -> int {
        match self.ip.position {
            Some(p) => p + 1,
            None => 0,
        }
    }

    /// The current instruction, if execution has reached one.
    pub open spec fn current(self) -> Option<Instruction> {
        match self.ip.position {
            Some(p) => Some(self.instructions[p as int]),
            None => None,
        }
    }

    /// The current call-stack depth.
    pub open spec fn depth(self) -> usize {
        self.ip.call_stack_depth
    }

    /// The state with the pointer moved to index `i`.
    pub open spec fn at(self, i: int) -> DebugView {
        DebugView {
            ip: InstructionPointer {
                position: Some(i as usize),
                call_stack_depth: self.depths[i],
                ..self.ip
            },
            ..self
        }
    }

    /// A forward step is possible.
    pub open spec fn can_advance(self) -> bool {
        self.next_index() < self.instructions.len()
    }

    /// The state after one forward step (unchanged where none is possible).
    pub open spec fn advanced(self) -> DebugView {
        if self.can_advance() {
            self.at(self.next_index())
        } else {
            self
        }
    }

    /// A backward step is possible.
    pub open spec fn can_retreat(self) -> bool {
        match self.ip.position {
            Some(p) => p > 0,
            None => false,
        }
    }

    /// The state after one backward step (unchanged where none is possible).
    pub open spec fn retreated(self) -> DebugView {
        if self.can_retreat() {
            self.at(self.next_index() - 2)
        } else {
            self
        }
    }

    /// The state with stepping on in `mode`, starting from the current depth.
    pub open spec fn stepping_in(self, mode: StepMode) -> DebugView {
        DebugView {
            ip: InstructionPointer {
                stepping: true,
                step_mode: mode,
                step_depth: self.ip.call_stack_depth,
                ..self.ip
            },
            ..self
        }
    }

    /// The state with stepping off.
    pub open spec fn not_stepping(self) -> DebugView {
        DebugView { ip: InstructionPointer { stepping: false, ..self.ip }, ..self }
    }
}

/// The instructions of a trace of (instruction, depth) pairs.
pub open spec fn trace_instructions(trace: Seq<(Instruction, usize)>) -> Seq<Instruction> {
    trace.map_values(|e: (Instruction, usize)| e.0)
}

/// The depths of a trace of (instruction, depth) pairs.
pub open spec fn trace_depths(trace: Seq<(Instruction, usize)>) -> Seq<usize> {
    trace.map_values(|e: (Instruction, usize)| e.1)
}

/// The instruction pointer before any instruction, with stepping off.
pub open spec fn initial_pointer() -> InstructionPointer {
    InstructionPointer {
        position: None,
        call_stack_depth: 0,
        stepping: false,
        step_mode: StepMode::StepInto,
        step_depth: 0,
    }
}

/// Stepping back after a forward step returns to where execution stood,
/// once execution has reached an instruction.
pub proof fn law_back_undoes_forward(d: DebugView)
    requires
        d.well_formed(),
        d.ip.position is Some,
        d.can_advance(),
    ensures
        d.advanced().can_retreat(),
        d.advanced().retreated() == d,
{
}

/// A forward step after stepping back returns to where execution stood.
pub proof fn law_forward_undoes_back(d: DebugView)
    requires
        d.well_formed(),
        d.can_retreat(),
    ensures
        d.retreated().can_advance(),
        d.retreated().advanced() == d,
{
}

/// Forward and backward steps keep the debug state well formed and leave the
/// trace and the stepping request as they were.
pub proof fn law_moves_keep_trace(d: DebugView)
    requires
        d.well_formed(),
    ensures
        d.advanced().well_formed(),
        d.retreated().well_formed(),
        d.advanced().instructions == d.instructions && d.advanced().depths == d.depths,
        d.retreated().instructions == d.instructions && d.retreated().depths == d.depths,
        d.advanced().ip.stepping == d.ip.stepping && d.advanced().ip.step_mode == d.ip.step_mode
            && d.advanced().ip.step_depth == d.ip.step_depth,
        d.retreated().ip.stepping == d.ip.stepping && d.retreated().ip.step_mode
            == d.ip.step_mode && d.retreated().ip.step_depth == d.ip.step_depth,
{
}

/// Execution state under the debugger.
pub struct DebugState {
    instructions: Vec<Instruction>,
    depths: Vec<usize>,
    ip: InstructionPointer,
}

impl View for DebugState {
    type V = DebugView;

    closed spec fn view(&self) -> DebugView {
        DebugView { instructions: self.instructions@, depths: self.depths@, ip: self.ip }
    }
}

impl DebugState {
    #[verifier::type_invariant]
    closed spec fn consistent(&self) -> bool {
        &&& self.instructions.len() == self.instructions@.len()
        &&& self@.well_formed()
    }

    /// A debug state over `trace`, each instruction paired with the call-stack
    /// depth at which it runs; the pointer stands before the first
    /// instruction and stepping is off.
    pub fn new(trace: Vec<(Instruction, usize)>) -> (r: Self)
        ensures
            r@.instructions == trace_instructions(trace@),
            r@.depths == trace_depths(trace@),
            r@.ip == initial_pointer(),
            r@.well_formed(),
    {
        let mut instructions: Vec<Instruction> = Vec::new();
        let mut depths: Vec<usize> = Vec::new();
        let mut i: usize = 0;
        while i < trace.len()
            invariant
                i <= trace.len(),
                instructions@ == trace_instructions(trace@.subrange(0, i as int)),
                depths@ == trace_depths(trace@.subrange(0, i as int)),
            decreases trace.len() - i,
        {
            let (inst, depth) = trace[i];
            instructions.push(inst);
            depths.push(depth);
            assert(trace@.subrange(0, i + 1) =~= trace@.subrange(0, i as int).push(trace@[i as int]));
            i = i + 1;
        }
        assert(trace@.subrange(0, i as int) =~= trace@);
        DebugState { instructions, depths, ip: InstructionPointer::new() }
    }

    /// The instruction pointer.
    pub fn instruction_pointer(&self) -> (r: &InstructionPointer)
        ensures
            *r == self@.ip,
            self@.well_formed(),
    {
        proof {
            use_type_invariant(self);
        }
        &self.ip
    }

    /// The instruction execution stands on, if any.
    pub fn current_instruction(&self) -> (r: Option<Instruction>)
        ensures
            r == self@.current(),
            self@.well_formed(),
    {
        proof {
            use_type_invariant(self);
        }
        match self.ip.position {
            Some(p) => Some(self.instructions[p]),
            None => None,
        }
    }

    /// Moves to the next instruction of the trace and returns it; `None` at
    /// the end of the trace, where nothing changes.
    pub fn next_instruction(&mut self) -> (r: Option<Instruction>)
        ensures
            final(self)@ == old(self)@.advanced(),
            final(self)@.well_formed(),
            r == (if old(self)@.can_advance() {
                Some(old(self)@.instructions[old(self)@.next_index()])
            } else {
                None::<Instruction>
            }),
    {
        proof {
            use_type_invariant(&*self);
        }
        let len = self.instructions.len();
        let next: usize = match self.ip.position {
            Some(p) => {
                if p >= len - 1 {
                    return None;
                }
                p + 1
            },
            None => 0,
        };
        if next < len {
            self.ip = InstructionPointer {
                position: Some(next),
                call_stack_depth: self.depths[next],
                ..self.ip
            };
            Some(self.instructions[next])
        } else {
            None
        }
    }

    /// Moves to the previous instruction of the trace and returns it; `None`
    /// at the first instruction or before it, where nothing changes.
    pub fn previous_instruction(&mut self) -> (r: Option<Instruction>)
        ensures
            final(self)@ == old(self)@.retreated(),
            final(self)@.well_formed(),
            r == (if old(self)@.can_retreat() {
                Some(old(self)@.instructions[old(self)@.next_index() - 2])
            } else {
                None::<Instruction>
            }),
    {
        proof {
            use_type_invariant(&*self);
        }
        match self.ip.position {
            Some(p) => {
                if p > 0 {
                    let prev = p - 1;
                    self.ip = InstructionPointer {
                        position: Some(prev),
                        call_stack_depth: self.depths[prev],
                        ..self.ip
                    };
                    Some(self.instructions[prev])
                } else {
                    None
                }
            },
            None => None,
        }
    }

    /// Turns instruction stepping on in `mode`, from the current depth.
    pub fn start_instruction_stepping(&mut self, mode: StepMode)
        ensures
            final(self)@ == old(self)@.stepping_in(mode),
            final(self)@.well_formed(),
    {
        proof {
            use_type_invariant(&*self);
        }
        self.ip = InstructionPointer {
            stepping: true,
            step_mode: mode,
            step_depth: self.ip.call_stack_depth,
            ..self.ip
        };
    }

    /// Turns instruction stepping off.
    pub fn stop_instruction_stepping(&mut self)
        ensures
            final(self)@ == old(self)@.not_stepping(),
            final(self)@.well_formed(),
    {
        proof {
            use_type_invariant(&*self);
        }
        self.ip = InstructionPointer { stepping: false, ..self.ip };
    }
}

} // verus!
