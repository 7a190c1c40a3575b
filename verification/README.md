# soroban_debugger (verified core)

Breakpoint bookkeeping and instruction-level stepping for a Soroban contract
debugger, written in Verus.

- `src/debugger/breakpoint.rs` — `BreakpointManager` (a set of function names,
  viewed as `Set<Seq<char>>`) and the conditional-breakpoint parser, which
  refuses every condition and says why.
- `src/debugger/stepper.rs` — `Stepper`: step into / over / out / block / back,
  step over a source line, pause decisions and repeat counting.
- `src/debugger/state.rs` — `DebugState`: an instruction trace with the call
  depth of each instruction and the instruction pointer that moves over it.
- `src/debugger/instruction_pointer.rs` — `StepMode` and `InstructionPointer`.
- `src/debugger/source_map.rs` — offsets to source locations.
- `src/runtime/instruction.rs` — `Instruction`.
- `src/text.rs` — whitespace trimming and substring search over characters.
- `src/error.rs` — `DebuggerError`.

Each module's `law_*` proof functions state the properties that hold across
calls; `verus` checks them with the rest.
