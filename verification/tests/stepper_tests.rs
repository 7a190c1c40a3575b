use soroban_debugger::debugger::instruction_pointer::StepMode;
use soroban_debugger::debugger::source_map::{SourceLocation, SourceMap};
use soroban_debugger::debugger::state::DebugState;
use soroban_debugger::debugger::stepper::Stepper;
use soroban_debugger::runtime::instruction::Instruction;

/// A trace of (offset, depth, control-flow) triples.
fn state(trace: &[(usize, usize, bool)]) -> DebugState {
    DebugState::new(
        trace
            .iter()
            .map(|&(offset, depth, cf)| (Instruction::new(offset, cf), depth))
            .collect(),
    )
}

fn position(ds: &DebugState) -> Option<usize> {
    ds.instruction_pointer().position
}

/// main: 0, 1 (call) -> callee 10, 11 (return) -> main 2, 3
fn call_trace() -> DebugState {
    state(&[
        (0, 0, false),
        (1, 0, true),
        (10, 1, false),
        (11, 1, true),
        (2, 0, false),
        (3, 0, false),
    ])
}

#[test]
fn debug_state_moves_through_the_trace() {
    let mut ds = call_trace();
    assert_eq!(ds.current_instruction(), None);
    assert_eq!(ds.instruction_pointer().call_stack_depth(), 0);
    assert_eq!(ds.previous_instruction(), None);
    assert_eq!(ds.next_instruction(), Some(Instruction::new(0, false)));
    assert_eq!(ds.next_instruction(), Some(Instruction::new(1, true)));
    assert_eq!(ds.next_instruction(), Some(Instruction::new(10, false)));
    assert_eq!(ds.instruction_pointer().call_stack_depth(), 1);
    assert_eq!(ds.previous_instruction(), Some(Instruction::new(1, true)));
    assert_eq!(ds.instruction_pointer().call_stack_depth(), 0);
    for _ in 0..4 {
        assert!(ds.next_instruction().is_some());
    }
    assert_eq!(ds.current_instruction(), Some(Instruction::new(3, false)));
    assert_eq!(ds.next_instruction(), None);
    assert_eq!(ds.current_instruction(), Some(Instruction::new(3, false)));
}

#[test]
fn instruction_pointer_pause_rules() {
    let mut ds = call_trace();
    ds.next_instruction();
    ds.next_instruction();
    ds.start_instruction_stepping(StepMode::StepOver);
    let plain = Instruction::new(0, false);
    let branch = Instruction::new(0, true);
    assert!(ds.instruction_pointer().should_pause_at(&plain));
    ds.next_instruction();
    assert!(!ds.instruction_pointer().should_pause_at(&plain));
    ds.start_instruction_stepping(StepMode::StepBlock);
    assert!(!ds.instruction_pointer().should_pause_at(&plain));
    assert!(ds.instruction_pointer().should_pause_at(&branch));
    ds.stop_instruction_stepping();
    assert!(!ds.instruction_pointer().should_pause_at(&branch));
}

#[test]
fn new_stepper_is_inactive() {
    let s = Stepper::new();
    assert!(!s.is_active());
    assert_eq!(s.step_mode(), StepMode::StepInto);
    assert_eq!(s.pause_repeat_count(), 0);
    let s = Stepper::default();
    assert!(!s.is_active());
}

#[test]
fn inactive_stepper_does_not_move() {
    let mut s = Stepper::new();
    let mut ds = call_trace();
    let map = SourceMap::new();
    assert!(!s.step_into(&mut ds));
    assert!(!s.step_over(&mut ds));
    assert!(!s.step_out(&mut ds));
    assert!(!s.step_block(&mut ds));
    assert!(!s.step_back(&mut ds));
    assert!(!s.step_over_source_line(&mut ds, &map));
    assert_eq!(position(&ds), None);
    assert!(!s.should_pause(&Instruction::new(0, false), &ds));
    assert!(!s.on_instruction(&Instruction::new(0, false), &mut ds));
}

#[test]
fn start_pauses_at_next_instruction_once() {
    let mut s = Stepper::new();
    let mut ds = call_trace();
    s.start(StepMode::StepOut, &mut ds);
    assert!(s.is_active());
    assert_eq!(s.step_mode(), StepMode::StepOut);
    let inst = Instruction::new(0, false);
    assert!(s.should_pause(&inst, &ds));
    ds.next_instruction();
    assert!(s.on_instruction(&inst, &mut ds));
    // The pending pause is used up; step-out does not pause in the entry frame.
    assert!(!s.should_pause(&inst, &ds));
    assert!(!s.on_instruction(&inst, &mut ds));
}

#[test]
fn step_into_follows_calls() {
    let mut s = Stepper::new();
    let mut ds = call_trace();
    s.start(StepMode::StepInto, &mut ds);
    assert!(s.step_into(&mut ds));
    assert_eq!(position(&ds), Some(0));
    assert!(s.step_into(&mut ds));
    assert!(s.step_into(&mut ds));
    assert_eq!(position(&ds), Some(2));
    assert_eq!(ds.instruction_pointer().call_stack_depth(), 1);
    assert_eq!(s.step_mode(), StepMode::StepInto);
}

#[test]
fn step_into_at_end_of_trace_fails() {
    let mut s = Stepper::new();
    let mut ds = state(&[(0, 0, false)]);
    s.start(StepMode::StepInto, &mut ds);
    assert!(s.step_into(&mut ds));
    assert!(!s.step_into(&mut ds));
    assert_eq!(position(&ds), Some(0));
}

#[test]
fn step_over_skips_the_callee() {
    let mut s = Stepper::new();
    let mut ds = call_trace();
    s.start(StepMode::StepInto, &mut ds);
    s.step_into(&mut ds);
    s.step_into(&mut ds);
    assert_eq!(position(&ds), Some(1));
    assert!(s.step_over(&mut ds));
    assert_eq!(position(&ds), Some(4));
    assert_eq!(s.step_mode(), StepMode::StepOver);
    assert!(s.step_over(&mut ds));
    assert_eq!(position(&ds), Some(5));
    assert!(!s.step_over(&mut ds));
    assert_eq!(position(&ds), Some(5));
}

#[test]
fn step_out_returns_to_the_caller() {
    let mut s = Stepper::new();
    let mut ds = call_trace();
    s.start(StepMode::StepInto, &mut ds);
    for _ in 0..3 {
        s.step_into(&mut ds);
    }
    assert_eq!(ds.instruction_pointer().call_stack_depth(), 1);
    assert!(s.step_out(&mut ds));
    assert_eq!(position(&ds), Some(4));
    assert_eq!(ds.instruction_pointer().call_stack_depth(), 0);
    // In the entry frame there is nowhere to step out to: runs to the end.
    assert!(!s.step_out(&mut ds));
    assert_eq!(position(&ds), Some(5));
}

#[test]
fn step_block_stops_at_control_flow() {
    let mut s = Stepper::new();
    let mut ds = call_trace();
    s.start(StepMode::StepBlock, &mut ds);
    assert!(s.step_block(&mut ds));
    assert_eq!(position(&ds), Some(1));
    assert!(s.step_block(&mut ds));
    assert_eq!(position(&ds), Some(3));
    assert!(!s.step_block(&mut ds));
    assert_eq!(position(&ds), Some(5));
}

#[test]
fn step_back_undoes_step_into() {
    let mut s = Stepper::new();
    let mut ds = call_trace();
    s.start(StepMode::StepInto, &mut ds);
    s.step_into(&mut ds);
    s.step_into(&mut ds);
    assert!(s.step_into(&mut ds));
    assert!(s.step_back(&mut ds));
    assert_eq!(position(&ds), Some(1));
    assert!(s.step_back(&mut ds));
    assert_eq!(position(&ds), Some(0));
    assert!(!s.step_back(&mut ds));
    assert_eq!(position(&ds), Some(0));
}

#[test]
fn repeated_pauses_are_counted() {
    let mut s = Stepper::new();
    let mut ds = call_trace();
    s.start(StepMode::StepInto, &mut ds);
    assert!(s.step_into(&mut ds));
    assert_eq!(s.pause_repeat_count(), 0);
    let inst = Instruction::new(0, false);
    assert!(s.on_instruction(&inst, &mut ds));
    assert_eq!(s.pause_repeat_count(), 1);
    assert!(s.on_instruction(&inst, &mut ds));
    assert_eq!(s.pause_repeat_count(), 2);
    s.reset_pause_count();
    assert_eq!(s.pause_repeat_count(), 0);
    // A pause elsewhere starts the count afresh.
    assert!(s.step_into(&mut ds));
    assert!(s.on_instruction(&inst, &mut ds));
    assert_eq!(s.pause_repeat_count(), 1);
    assert!(s.step_into(&mut ds));
    assert_eq!(s.pause_repeat_count(), 0);
}

#[test]
fn step_back_and_forth_counts_no_repeat() {
    let mut s = Stepper::new();
    let mut ds = call_trace();
    s.start(StepMode::StepInto, &mut ds);
    s.step_into(&mut ds);
    s.step_into(&mut ds);
    s.step_back(&mut ds);
    assert_eq!(s.pause_repeat_count(), 0);
    s.step_into(&mut ds);
    assert_eq!(s.pause_repeat_count(), 0);
}

#[test]
fn stop_continue_and_reset_end_stepping() {
    let mut s = Stepper::new();
    let mut ds = call_trace();
    let inst = Instruction::new(0, true);

    s.start(StepMode::StepInto, &mut ds);
    s.stop(&mut ds);
    assert!(!s.is_active());
    assert!(!s.should_pause(&inst, &ds));
    assert!(!ds.instruction_pointer().stepping);

    s.start(StepMode::StepBlock, &mut ds);
    s.continue_execution(&mut ds);
    assert!(!s.is_active());
    assert!(!s.should_pause(&inst, &ds));
    assert!(!s.step_into(&mut ds));

    s.start(StepMode::StepInto, &mut ds);
    s.step_into(&mut ds);
    s.on_instruction(&inst, &mut ds);
    assert_eq!(s.pause_repeat_count(), 1);
    s.reset();
    assert!(!s.is_active());
    assert_eq!(s.pause_repeat_count(), 0);
    assert!(!s.step_into(&mut ds));
}

fn loc(file: &str, line: u32) -> SourceLocation {
    SourceLocation::new(file.to_string(), line)
}

#[test]
fn source_map_lookup_takes_the_first_mapping() {
    let mut map = SourceMap::new();
    map.add_mapping(4, loc("lib.rs", 7));
    map.add_mapping(4, loc("lib.rs", 9));
    map.add_mapping(5, loc("other.rs", 1));
    let l = map.lookup(4).unwrap();
    assert_eq!((l.file.as_str(), l.line), ("lib.rs", 7));
    let l = map.lookup(5).unwrap();
    assert_eq!((l.file.as_str(), l.line), ("other.rs", 1));
    assert!(map.lookup(6).is_none());
}

#[test]
fn step_over_source_line_moves_to_the_next_line() {
    // offsets 0,1 on line 1; call into 10 (line 20); back to 2 on line 1; 3 on line 2.
    let mut ds = state(&[
        (0, 0, false),
        (1, 0, true),
        (10, 1, false),
        (2, 0, false),
        (3, 0, false),
        (4, 0, false),
    ]);
    let mut map = SourceMap::new();
    map.add_mapping(0, loc("lib.rs", 1));
    map.add_mapping(1, loc("lib.rs", 1));
    map.add_mapping(10, loc("lib.rs", 20));
    map.add_mapping(2, loc("lib.rs", 1));
    map.add_mapping(3, loc("lib.rs", 2));
    let mut s = Stepper::new();
    s.start(StepMode::StepInto, &mut ds);
    s.step_into(&mut ds);
    assert!(s.step_over_source_line(&mut ds, &map));
    assert_eq!(position(&ds), Some(4));
    assert_eq!(s.step_mode(), StepMode::StepOver);
    // Offset 4 is unmapped: a mapped line and no line differ.
    assert!(s.step_over_source_line(&mut ds, &map));
    assert_eq!(position(&ds), Some(5));
    // From an unmapped instruction, nothing further differs: runs to the end.
    assert!(!s.step_over_source_line(&mut ds, &map));
    assert_eq!(position(&ds), Some(5));
}

#[test]
fn step_over_source_line_from_before_the_trace() {
    let mut ds = state(&[(0, 0, false), (1, 0, false)]);
    let mut map = SourceMap::new();
    map.add_mapping(1, loc("a.rs", 3));
    let mut s = Stepper::new();
    s.start(StepMode::StepInto, &mut ds);
    // Before the first instruction there is no location; offset 0 is unmapped too.
    assert!(s.step_over_source_line(&mut ds, &map));
    assert_eq!(position(&ds), Some(1));
}

#[test]
fn different_files_are_different_lines() {
    let mut ds = state(&[(0, 0, false), (1, 0, false)]);
    let mut map = SourceMap::new();
    map.add_mapping(0, loc("a.rs", 3));
    map.add_mapping(1, loc("b.rs", 3));
    let mut s = Stepper::new();
    s.start(StepMode::StepInto, &mut ds);
    s.step_into(&mut ds);
    assert!(s.step_over_source_line(&mut ds, &map));
    assert_eq!(position(&ds), Some(1));
}

#[test]
fn long_runs_stop_at_the_step_guard() {
    // 100_001 instructions inside a call, then the return.
    let mut trace: Vec<(usize, usize, bool)> = vec![(0, 0, false)];
    for i in 0..100_001 {
        trace.push((i + 1, 1, false));
    }
    trace.push((200_000, 0, false));
    let mut ds = state(&trace);
    let mut s = Stepper::new();
    s.start(StepMode::StepInto, &mut ds);
    s.step_into(&mut ds);
    assert!(!s.step_over(&mut ds));
    assert_eq!(position(&ds), Some(100_000));
    // The failed step left execution inside the call, so the next step over
    // stops at the very next instruction of that frame.
    assert!(s.step_over(&mut ds));
    assert_eq!(position(&ds), Some(100_001));
    assert!(s.step_over(&mut ds));
    assert_eq!(position(&ds), Some(100_002));
}
