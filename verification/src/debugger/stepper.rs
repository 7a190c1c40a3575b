//! Instruction-level stepping: the stepper's own state, how each kind of step
//! moves the debug state, and when execution pauses.
use vstd::prelude::*;

use crate::debugger::instruction_pointer::StepMode;
use crate::debugger::source_map::{SourceMap, first_location, location_view};
use crate::debugger::state::{DebugState, DebugView};
use crate::runtime::instruction::Instruction;

verus! {

/// The most instructions one step runs before giving up.
pub const STEP_GUARD: usize = 100_000;

/// The abstract contents of a `Stepper`.
pub struct StepperView {
    pub active: bool,
    pub step_mode: StepMode,
    pub pause_next: bool,
    pub last_pause_triple: Option<(usize, usize, StepMode)>,
    pub pause_repeat_count: nat,
}

/// The stepper's state between steps.
pub struct Stepper {
    active: bool,
    step_mode: StepMode,
    pause_next: bool,
    last_pause_triple: Option<(usize, usize, StepMode)>,
    pause_repeat_count: usize,
}

impl View for Stepper {
    type V = StepperView;

    closed spec fn view(&self) -> StepperView {
        StepperView {
            active: self.active,
            step_mode: self.step_mode,
            pause_next: self.pause_next,
            last_pause_triple: self.last_pause_triple,
            pause_repeat_count: self.pause_repeat_count as nat,
        }
    }
}

/// The (offset, depth, mode) triple that identifies a pause at the current
/// instruction of `d`; `None` where there is no current instruction.
pub open spec fn pause_triple(d: DebugView, mode: StepMode) -> Option<(usize, usize, StepMode)> {
    match d.current() {
        Some(inst) => Some((inst.offset, d.depth(), mode)),
        None => None,
    }
}

/// The stepper after recording a pause at the current instruction of `d`: a
/// pause at the same triple as the last one counts as a repeat; a pause
/// elsewhere becomes the last one, with no repeats.
pub open spec fn after_pause(s: StepperView, d: DebugView) -> StepperView {
    match pause_triple(d, s.step_mode) {
        None => s,
        Some(t) => if s.last_pause_triple == Some(t) {
            StepperView { pause_repeat_count: s.pause_repeat_count + 1, ..s }
        } else {
            StepperView { last_pause_triple: Some(t), pause_repeat_count: 0, ..s }
        },
    }
}

/// The stepper with its step mode set to `mode`.
pub open spec fn with_mode(s: StepperView, mode: StepMode) -> StepperView {
    StepperView { step_mode: mode, ..s }
}

/// Whether a stepper in state `s` pauses at `instruction` in debug state `d`.
pub open spec fn wants_pause(s: StepperView, d: DebugView, instruction: Instruction) -> bool {
    s.active && (s.pause_next || d.ip.pauses_at(instruction))
}

/// The most instructions the search for an outer frame runs.
pub const OUTER_FRAME_GUARD: usize = 10_000;

/// Stops at an instruction whose depth is at most `target`.
pub open spec fn depth_at_most(d: DebugView, target: int) -> spec_fn(int) -> bool {
    |i: int| d.depths[i] <= target
}

/// The source location of the current instruction of `d`, if any.
pub open spec fn start_location(d: DebugView, map: Seq<(usize, (Seq<char>, u32))>) -> Option<
    (Seq<char>, u32),
> {
    match d.current() {
        Some(inst) => first_location(map, inst.offset),
        None => None,
    }
}

/// Stops at an instruction in the starting frame or an outer one whose source
/// location differs from the starting one (a mapped and an unmapped
/// instruction differ; two unmapped ones do not).
pub open spec fn line_stop(d: DebugView, map: Seq<(usize, (Seq<char>, u32))>) -> spec_fn(
    int,
) -> bool {
    |i: int|
        d.depths[i] <= d.depth() && first_location(map, d.instructions[i].offset)
            != start_location(d, map)
}

/// The stepper after a step in `mode` that did or did not reach an
/// instruction, leaving the debug state `after`.
pub open spec fn after_step(s: StepperView, mode: StepMode, stepped: bool, after: DebugView) -> StepperView {
    if stepped {
        after_pause(with_mode(s, mode), after)
    } else {
        with_mode(s, mode)
    }
}

/// The scan over the instructions after the current one, at most `limit` of
/// them, stops at index `i`: the first index it reaches at which `stop` holds.
pub open spec fn scan_stops_at(d: DebugView, limit: int, stop: spec_fn(int) -> bool, i: int) -> bool {
    &&& d.next_index() <= i < d.next_index() + limit
    &&& i < d.instructions.len()
    &&& stop(i)
    &&& forall|j: int| d.next_index() <= j < i ==> !#[trigger] stop(j)
}

/// Where a scan of at most `limit` instructions that finds no stop leaves the
/// debug state: at the last instruction it reached.
pub open spec fn scan_exhausted(d: DebugView, limit: int) -> DebugView {
    let end = if d.next_index() + limit < d.instructions.len() {
        d.next_index() + limit
    } else {
        d.instructions.len() as int
    };
    if end > d.next_index() {
        d.at(end - 1)
    } else {
        d
    }
}

/// A scan from `d` of at most `limit` instructions for one at which `stop`
/// holds reports `found` and leaves the debug state `after`.
pub open spec fn scan_outcome(
    d: DebugView,
    limit: int,
    stop: spec_fn(int) -> bool,
    found: bool,
    after: DebugView,
) -> bool {
    if exists|i: int| scan_stops_at(d, limit, stop, i) {
        found && exists|i: int| scan_stops_at(d, limit, stop, i) && after == d.at(i)
    } else {
        !found && after == scan_exhausted(d, limit)
    }
}

/// Stops at an instruction at the starting depth or an outer one; with
/// `strictly_lower`, only at an outer one.
pub open spec fn depth_stop(d: DebugView, strictly_lower: bool) -> spec_fn(int) -> bool {
    |i: int|
        if strictly_lower {
            d.depths[i] < d.depth()
        } else {
            d.depths[i] <= d.depth()
        }
}

/// Stops at a control-flow instruction.
pub open spec fn control_flow_stop(d: DebugView) -> spec_fn(int) -> bool {
    |i: int| d.instructions[i].control_flow
}

/// The debug state after `n` forward steps from `d`, none of them past the end.
pub open spec fn scanned(d: DebugView, n: int) -> DebugView {
    if n == 0 {
        d
    } else {
        d.at(d.next_index() + n - 1)
    }
}

proof fn lemma_scan_step(d: DebugView, n: int)
    requires
        d.well_formed(),
        0 <= n,
        d.next_index() + n <= d.instructions.len(),
    ensures
        scanned(d, n).next_index() == d.next_index() + n,
        scanned(d, n).can_advance() == (d.next_index() + n < d.instructions.len()),
        scanned(d, n).can_advance() ==> scanned(d, n).advanced() == scanned(d, n + 1),
        scanned(d, n).depths == d.depths,
        scanned(d, n).instructions == d.instructions,
{
}

proof fn lemma_scan_none(d: DebugView, limit: int, stop: spec_fn(int) -> bool, n: int)
    requires
        d.well_formed(),
        0 <= n <= limit,
        d.next_index() + n <= d.instructions.len(),
        n == limit || d.next_index() + n == d.instructions.len(),
        forall|j: int| d.next_index() <= j < d.next_index() + n ==> !#[trigger] stop(j),
    ensures
        scan_outcome(d, limit, stop, false, scanned(d, n)),
{
    if exists|i: int| scan_stops_at(d, limit, stop, i) {
        let i = choose|i: int| scan_stops_at(d, limit, stop, i);
        assert(!stop(i));
    }
}

proof fn lemma_scan_found(d: DebugView, limit: int, stop: spec_fn(int) -> bool, n: int)
    requires
        0 <= n < limit,
        d.next_index() + n < d.instructions.len(),
        forall|j: int| d.next_index() <= j < d.next_index() + n ==> !#[trigger] stop(j),
        stop(d.next_index() + n),
    ensures
        scan_outcome(d, limit, stop, true, d.at(d.next_index() + n)),
{
    assert(scan_stops_at(d, limit, stop, d.next_index() + n));
}

/// What a scan's outcome says of its inputs: it arrives exactly when some
/// instruction within reach meets `stop`, and then stands on the first one.
proof fn lemma_scan_facts(
    d: DebugView,
    limit: int,
    stop: spec_fn(int) -> bool,
    found: bool,
    after: DebugView,
)
    requires
        d.well_formed(),
        scan_outcome(d, limit, stop, found, after),
    ensures
        found == exists|j: int|
            d.next_index() <= j < d.next_index() + limit && j < d.instructions.len()
                && #[trigger] stop(j),
        found ==> (after.ip.position matches Some(q) && d.next_index() <= q < d.next_index()
            + limit && q < d.instructions.len() && stop(q as int) && after == d.at(q as int)
            && forall|j: int| d.next_index() <= j < q ==> !#[trigger] stop(j)),
{
    if exists|i: int| scan_stops_at(d, limit, stop, i) {
        let i = choose|i: int| scan_stops_at(d, limit, stop, i) && after == d.at(i);
        assert(0 <= i);
        assert((i as usize) as int == i);
    } else {
        if exists|j: int|
            d.next_index() <= j < d.next_index() + limit && j < d.instructions.len()
                && #[trigger] stop(j) {
            let j0 = choose|j: int|
                d.next_index() <= j < d.next_index() + limit && j < d.instructions.len()
                    && #[trigger] stop(j);
            lemma_first_stop(d, limit, stop, j0);
        }
    }
}

/// Where some instruction within reach meets `stop`, a first one does.
proof fn lemma_first_stop(d: DebugView, limit: int, stop: spec_fn(int) -> bool, j: int)
    requires
        d.next_index() <= j < d.next_index() + limit,
        j < d.instructions.len(),
        stop(j),
    ensures
        exists|i: int| scan_stops_at(d, limit, stop, i),
    decreases j - d.next_index(),
{
    if forall|k: int| d.next_index() <= k < j ==> !#[trigger] stop(k) {
        assert(scan_stops_at(d, limit, stop, j));
    } else {
        let k = choose|k: int| d.next_index() <= k < j && #[trigger] stop(k);
        lemma_first_stop(d, limit, stop, k);
    }
}

/// A repeated pause can still be counted: an active stepper that has
/// recorded a pause has not reached the largest count.
pub open spec fn repeat_count_has_room(s: StepperView) -> bool {
    s.active && s.last_pause_triple is Some ==> s.pause_repeat_count < usize::MAX
}

/// The stepper after `start(mode)`: active in `mode`, pausing at the next
/// instruction.
pub open spec fn started(s: StepperView, mode: StepMode) -> StepperView {
    StepperView { active: true, step_mode: mode, pause_next: true, ..s }
}

/// The stepper after `stop`: inactive, with no pause pending.
pub open spec fn stopped(s: StepperView) -> StepperView {
    StepperView { active: false, pause_next: false, ..s }
}

/// The stepper after `continue_execution`: inactive.
pub open spec fn continued(s: StepperView) -> StepperView {
    StepperView { active: false, ..s }
}

/// The stepper after `reset`: inactive, with no pause pending or recorded.
pub open spec fn cleared(s: StepperView) -> StepperView {
    StepperView {
        active: false,
        pause_next: false,
        last_pause_triple: None,
        pause_repeat_count: 0,
        ..s
    }
}

/// The stepper after pausing at an instruction of `d`: the pause is
/// recorded and no pause is pending any more.
pub open spec fn paused(s: StepperView, d: DebugView) -> StepperView {
    StepperView { pause_next: false, ..after_pause(s, d) }
}

/// After `start`, the stepper pauses at whatever instruction comes next.
pub proof fn law_start_pauses_at_next_instruction(
    s: StepperView,
    d: DebugView,
    mode: StepMode,
    instruction: Instruction,
)
    ensures
        wants_pause(started(s, mode), d.stepping_in(mode), instruction),
{
}

/// A stopped, continued or reset stepper pauses nowhere.
pub proof fn law_inactive_never_pauses(s: StepperView, d: DebugView, instruction: Instruction)
    ensures
        !wants_pause(stopped(s), d, instruction),
        !wants_pause(continued(s), d, instruction),
        !wants_pause(cleared(s), d, instruction),
{
}

/// Once a pause has been taken, the next pause comes only from the
/// instruction pointer's stepping rule.
pub proof fn law_pause_consumes_pending(s: StepperView, d: DebugView, e: DebugView, instruction: Instruction)
    requires
        s.active,
    ensures
        wants_pause(paused(s, d), e, instruction) == e.ip.pauses_at(instruction),
{
}

/// Pausing twice at the same place counts one repeat.
pub proof fn law_repeated_pause_counts(s: StepperView, d: DebugView)
    requires
        d.current() is Some,
    ensures
        after_pause(after_pause(s, d), d).pause_repeat_count == after_pause(
            s,
            d,
        ).pause_repeat_count + 1,
        after_pause(after_pause(s, d), d).last_pause_triple == pause_triple(d, s.step_mode),
{
}

/// A pause at a place other than the last pause starts the count afresh.
pub proof fn law_pause_elsewhere_resets_count(s: StepperView, d: DebugView)
    requires
        d.current() is Some,
        s.last_pause_triple != pause_triple(d, s.step_mode),
    ensures
        after_pause(s, d).pause_repeat_count == 0,
        after_pause(s, d).last_pause_triple == pause_triple(d, s.step_mode),
{
}

/// Where the next instruction stays in the current frame (or returns to an
/// outer one), stepping over it moves exactly one instruction, as stepping
/// into it does.
pub proof fn law_step_over_within_frame_is_one_step(d: DebugView)
    requires
        d.well_formed(),
        d.can_advance(),
        d.depths[d.next_index()] <= d.depth(),
    ensures
        scan_outcome(d, STEP_GUARD as int, depth_stop(d, false), true, d.advanced()),
{
    lemma_scan_found(d, STEP_GUARD as int, depth_stop(d, false), 0);
}

/// At the entry frame there is no outer frame: stepping out never arrives,
/// and runs to the end of the trace or the step guard.
pub proof fn law_step_out_at_entry_frame_fails(d: DebugView, found: bool, after: DebugView)
    requires
        d.depth() == 0,
        scan_outcome(d, STEP_GUARD as int, depth_stop(d, true), found, after),
    ensures
        !found,
        after == scan_exhausted(d, STEP_GUARD as int),
{
    if exists|i: int| scan_stops_at(d, STEP_GUARD as int, depth_stop(d, true), i) {
        let i = choose|i: int| scan_stops_at(d, STEP_GUARD as int, depth_stop(d, true), i);
        assert(d.depths[i] < 0);
    }
}

/// A step that arrives stops at the first instruction it reaches that meets
/// its stopping rule, and only there.
pub proof fn law_step_arrives_at_first_stop(
    d: DebugView,
    limit: int,
    stop: spec_fn(int) -> bool,
    after: DebugView,
)
    requires
        d.well_formed(),
        scan_outcome(d, limit, stop, true, after),
    ensures
        after.ip.position matches Some(p) && stop(p as int) && d.next_index() <= p && (forall|
            j: int,
        | d.next_index() <= j < p ==> !#[trigger] stop(j)),
{
    let i = choose|i: int| scan_stops_at(d, limit, stop, i) && after == d.at(i);
    assert(0 <= i);
}

/// Stepping out arrives exactly when an instruction in an outer frame comes
/// within reach, and stops at the first of them: every instruction it runs
/// past is in the starting frame or deeper, and it stands in a frame outer to
/// the starting one (one frame out when the caller's next instruction comes
/// first).
pub proof fn law_step_out_stops_in_caller(d: DebugView, found: bool, after: DebugView)
    requires
        d.well_formed(),
        scan_outcome(d, STEP_GUARD as int, depth_stop(d, true), found, after),
    ensures
        found <==> exists|j: int|
            d.next_index() <= j < d.next_index() + STEP_GUARD && j < d.instructions.len()
                && #[trigger] d.depths[j] < d.depth(),
        found ==> (after.ip.position matches Some(q) && d.next_index() <= q < d.instructions.len()
            && after.depth() == d.depths[q as int] && after.depth() < d.depth() && forall|j: int|
            d.next_index() <= j < q ==> #[trigger] d.depths[j] >= d.depth()),
{
    let stop = depth_stop(d, true);
    lemma_scan_facts(d, STEP_GUARD as int, stop, found, after);
    if found {
        let j0 = choose|j: int|
            d.next_index() <= j < d.next_index() + STEP_GUARD as int && j < d.instructions.len()
                && #[trigger] stop(j);
        assert(d.depths[j0] < d.depth());
        assert forall|j: int| d.next_index() <= j < after.ip.position->0 implies !(d.depths[j] < d.depth()) by {
            assert(!stop(j));
        }
    } else {
        assert forall|j: int|
            d.next_index() <= j < d.next_index() + STEP_GUARD as int && j < d.instructions.len() implies !(d.depths[j] < d.depth()) by {
            assert(!stop(j));
        }
    }
}

/// Stepping over arrives exactly when an instruction in the starting frame or
/// an outer one comes within reach, and stops at the first of them: it never
/// stops deeper than it started, and every instruction it runs past is
/// deeper.
pub proof fn law_step_over_stays_in_frame(d: DebugView, found: bool, after: DebugView)
    requires
        d.well_formed(),
        scan_outcome(d, STEP_GUARD as int, depth_stop(d, false), found, after),
    ensures
        found <==> exists|j: int|
            d.next_index() <= j < d.next_index() + STEP_GUARD && j < d.instructions.len()
                && #[trigger] d.depths[j] <= d.depth(),
        found ==> (after.ip.position matches Some(q) && d.next_index() <= q < d.instructions.len()
            && after.depth() == d.depths[q as int] && after.depth() <= d.depth() && forall|j: int|
            d.next_index() <= j < q ==> #[trigger] d.depths[j] > d.depth()),
{
    let stop = depth_stop(d, false);
    lemma_scan_facts(d, STEP_GUARD as int, stop, found, after);
    if found {
        let j0 = choose|j: int|
            d.next_index() <= j < d.next_index() + STEP_GUARD as int && j < d.instructions.len()
                && #[trigger] stop(j);
        assert(d.depths[j0] <= d.depth());
        assert forall|j: int| d.next_index() <= j < after.ip.position->0 implies !(d.depths[j] <= d.depth()) by {
            assert(!stop(j));
        }
    } else {
        assert forall|j: int|
            d.next_index() <= j < d.next_index() + STEP_GUARD as int && j < d.instructions.len() implies !(d.depths[j] <= d.depth()) by {
            assert(!stop(j));
        }
    }
}

/// Stepping over a source line arrives exactly when an instruction in the
/// starting frame or an outer one, at a source location (file and line)
/// other than the starting one, comes within reach, and stops at the first
/// of them: every instruction it runs past is deeper or at the starting
/// location, whatever the order of the line numbers.
pub proof fn law_step_over_line_stops_at_new_line(
    d: DebugView,
    map: Seq<(usize, (Seq<char>, u32))>,
    found: bool,
    after: DebugView,
)
    requires
        d.well_formed(),
        scan_outcome(d, STEP_GUARD as int, line_stop(d, map), found, after),
    ensures
        found <==> exists|j: int|
            d.next_index() <= j < d.next_index() + STEP_GUARD && j < d.instructions.len()
                && #[trigger] d.depths[j] <= d.depth() && first_location(
                map,
                d.instructions[j].offset,
            ) != (match d.current() {
                Some(inst) => first_location(map, inst.offset),
                None => None,
            }),
        found ==> (after.ip.position matches Some(q) && d.next_index() <= q < d.instructions.len()
            && after.depth() == d.depths[q as int] && after.depth() <= d.depth() && first_location(
            map,
            d.instructions[q as int].offset,
        ) != (match d.current() {
            Some(inst) => first_location(map, inst.offset),
            None => None,
        }) && forall|j: int|
            d.next_index() <= j < q ==> #[trigger] d.depths[j] > d.depth() || first_location(
                map,
                d.instructions[j].offset,
            ) == (match d.current() {
                Some(inst) => first_location(map, inst.offset),
                None => None,
            })),
{
    let stop = line_stop(d, map);
    lemma_scan_facts(d, STEP_GUARD as int, stop, found, after);
    if found {
        let j0 = choose|j: int|
            d.next_index() <= j < d.next_index() + STEP_GUARD as int && j < d.instructions.len()
                && #[trigger] stop(j);
        assert(d.depths[j0] <= d.depth() && first_location(map, d.instructions[j0].offset) != start_location(d, map));
        assert forall|j: int| d.next_index() <= j < after.ip.position->0 implies !(d.depths[j] <= d.depth() && first_location(map, d.instructions[j].offset) != start_location(d, map)) by {
            assert(!stop(j));
        }
    } else {
        assert forall|j: int|
            d.next_index() <= j < d.next_index() + STEP_GUARD as int && j < d.instructions.len() implies !(d.depths[j] <= d.depth() && first_location(map, d.instructions[j].offset) != start_location(d, map)) by {
            assert(!stop(j));
        }
    }
}

/// Stepping to the next block arrives exactly when a control-flow
/// instruction comes within reach, at any call depth, and stops at the first
/// of them: every instruction it runs past is not control flow.
pub proof fn law_step_block_stops_at_control_flow(d: DebugView, found: bool, after: DebugView)
    requires
        d.well_formed(),
        scan_outcome(d, STEP_GUARD as int, control_flow_stop(d), found, after),
    ensures
        found <==> exists|j: int|
            d.next_index() <= j < d.next_index() + STEP_GUARD && j < d.instructions.len()
                && #[trigger] d.instructions[j].control_flow,
        found ==> (after.ip.position matches Some(q) && d.next_index() <= q < d.instructions.len()
            && after.current() == Some(d.instructions[q as int]) && d.instructions[q as int].control_flow
            && forall|j: int| d.next_index() <= j < q ==> !#[trigger] d.instructions[j].control_flow),
{
    let stop = control_flow_stop(d);
    lemma_scan_facts(d, STEP_GUARD as int, stop, found, after);
    if found {
        let j0 = choose|j: int|
            d.next_index() <= j < d.next_index() + STEP_GUARD as int && j < d.instructions.len()
                && #[trigger] stop(j);
        assert(d.instructions[j0].control_flow);
        assert forall|j: int| d.next_index() <= j < after.ip.position->0 implies !(d.instructions[j].control_flow) by {
            assert(!stop(j));
        }
    } else {
        assert forall|j: int|
            d.next_index() <= j < d.next_index() + STEP_GUARD as int && j < d.instructions.len() implies !(d.instructions[j].control_flow) by {
            assert(!stop(j));
        }
    }
}

/// The pause rule while stepping, mode by mode, for an active stepper with
/// no pause pending: step into pauses everywhere; step over pauses at every
/// instruction at most as deep as where the step began, outer frames
/// included; step out only at shallower ones; step block only at control
/// flow. With stepping off it pauses nowhere.
pub proof fn law_pause_rule(s: StepperView, d: DebugView, instruction: Instruction)
    requires
        s.active,
        !s.pause_next,
    ensures
        !d.ip.stepping ==> !wants_pause(s, d, instruction),
        d.ip.stepping && d.ip.step_mode == StepMode::StepInto ==> wants_pause(s, d, instruction),
        d.ip.stepping && d.ip.step_mode == StepMode::StepOver ==> (wants_pause(s, d, instruction)
            <==> d.ip.call_stack_depth <= d.ip.step_depth),
        d.ip.stepping && d.ip.step_mode == StepMode::StepOut ==> (wants_pause(s, d, instruction)
            <==> d.ip.call_stack_depth < d.ip.step_depth),
        d.ip.stepping && d.ip.step_mode == StepMode::StepBlock ==> (wants_pause(s, d, instruction)
            <==> instruction.control_flow),
{
}

/// Each step lands where the pause rule of its mode would pause: stepping
/// over, out or to a block, from the starting state `d`, arrives at an
/// instruction at which the instruction pointer, now stepping in that mode,
/// pauses.
pub proof fn law_steps_agree_with_pause_rule(
    d: DebugView,
    mode: StepMode,
    found: bool,
    after: DebugView,
)
    requires
        d.well_formed(),
        mode == StepMode::StepOver ==> scan_outcome(
            d.stepping_in(mode),
            STEP_GUARD as int,
            depth_stop(d.stepping_in(mode), false),
            found,
            after,
        ),
        mode == StepMode::StepOut ==> scan_outcome(
            d.stepping_in(mode),
            STEP_GUARD as int,
            depth_stop(d.stepping_in(mode), true),
            found,
            after,
        ),
        mode == StepMode::StepBlock ==> scan_outcome(
            d.stepping_in(mode),
            STEP_GUARD as int,
            control_flow_stop(d.stepping_in(mode)),
            found,
            after,
        ),
        mode == StepMode::StepInto ==> found == d.can_advance() && after == d.stepping_in(
            mode,
        ).advanced(),
        found,
    ensures
        after.current() matches Some(inst) && after.ip.pauses_at(inst),
{
    let e = d.stepping_in(mode);
    assert(e.well_formed());
    if mode == StepMode::StepOver {
        law_step_over_stays_in_frame(e, found, after);
    } else if mode == StepMode::StepOut {
        law_step_out_stops_in_caller(e, found, after);
    } else if mode == StepMode::StepBlock {
        law_step_block_stops_at_control_flow(e, found, after);
    }
}

/// A call on the stepper, with what it saw of the debug state.
pub enum StepperCall {
    Start(StepMode),
    Stop,
    Continue,
    Reset,
    ResetPauseCount,
    /// A step in the given mode (a step back keeps the mode: `None`) that did
    /// or did not arrive, leaving the debug state given.
    Step(Option<StepMode>, bool, DebugView),
    /// `on_instruction` at the given instruction in the given debug state.
    Reached(Instruction, DebugView),
}

/// The stepper after `call`.
pub open spec fn step_call(s: StepperView, call: StepperCall) -> StepperView {
    match call {
        StepperCall::Start(mode) => started(s, mode),
        StepperCall::Stop => stopped(s),
        StepperCall::Continue => continued(s),
        StepperCall::Reset => cleared(s),
        StepperCall::ResetPauseCount => StepperView { pause_repeat_count: 0, ..s },
        StepperCall::Step(mode, arrived, after) => if !s.active {
            s
        } else {
            let moded = match mode {
                Some(m) => with_mode(s, m),
                None => s,
            };
            if arrived {
                after_pause(moded, after)
            } else {
                moded
            }
        },
        StepperCall::Reached(instruction, d) => if wants_pause(s, d, instruction) {
            paused(s, d)
        } else {
            s
        },
    }
}

/// The stepper after `calls`, in order.
pub open spec fn run(s: StepperView, calls: Seq<StepperCall>) -> StepperView
    decreases calls.len(),
{
    if calls.len() == 0 {
        s
    } else {
        step_call(run(s, calls.drop_last()), calls.last())
    }
}

/// The stepper just before `calls[i]`.
pub open spec fn before(s: StepperView, calls: Seq<StepperCall>, i: int) -> StepperView {
    run(s, calls.subrange(0, i))
}

/// `call` sets the active flag: a start sets it, a stop, continue or reset
/// clears it.
pub open spec fn sets_active(call: StepperCall) -> bool {
    call is Start || call is Stop || call is Continue || call is Reset
}

/// `calls[i]` is the last of `calls` that sets the active flag.
pub open spec fn last_active_set_at(calls: Seq<StepperCall>, i: int) -> bool {
    &&& 0 <= i < calls.len()
    &&& sets_active(calls[i])
    &&& forall|j: int| i < j < calls.len() ==> !sets_active(#[trigger] calls[j])
}

/// The step mode that `call` sets on stepper `s`, if it sets one: a start
/// sets its mode; a step of an active stepper sets its mode.
pub open spec fn mode_set(s: StepperView, call: StepperCall) -> Option<StepMode> {
    match call {
        StepperCall::Start(mode) => Some(mode),
        StepperCall::Step(mode, _, _) => if s.active {
            mode
        } else {
            None
        },
        _ => None,
    }
}

/// `calls[i]` is the last of `calls` that sets the step mode.
pub open spec fn last_mode_set_at(s: StepperView, calls: Seq<StepperCall>, i: int) -> bool {
    &&& 0 <= i < calls.len()
    &&& mode_set(before(s, calls, i), calls[i]) is Some
    &&& forall|j: int|
        i < j < calls.len() ==> mode_set(#[trigger] before(s, calls, j), calls[j]) is None
}

/// The triple of the pause that `call` records on stepper `s`, if it records
/// one.
pub open spec fn recorded_pause(s: StepperView, call: StepperCall) -> Option<
    (usize, usize, StepMode),
> {
    match call {
        StepperCall::Step(mode, arrived, after) => if s.active && arrived {
            pause_triple(
                after,
                match mode {
                    Some(m) => m,
                    None => s.step_mode,
                },
            )
        } else {
            None
        },
        StepperCall::Reached(instruction, d) => if wants_pause(s, d, instruction) {
            pause_triple(d, s.step_mode)
        } else {
            None
        },
        _ => None,
    }
}

/// `call` records a pause at the same place as the last recorded pause.
pub open spec fn counts_repeat(s: StepperView, call: StepperCall) -> bool {
    recorded_pause(s, call) is Some && recorded_pause(s, call) == s.last_pause_triple
}

/// `call` sets the repeat count to zero: a reset of the stepper or of the
/// count, or a pause recorded somewhere new.
pub open spec fn zeroes_count(s: StepperView, call: StepperCall) -> bool {
    ||| call is Reset
    ||| call is ResetPauseCount
    ||| recorded_pause(s, call) is Some && recorded_pause(s, call) != s.last_pause_triple
}

/// `calls[i]` is the last of `calls` that sets the repeat count to zero.
pub open spec fn last_zero_at(s: StepperView, calls: Seq<StepperCall>, i: int) -> bool {
    &&& 0 <= i < calls.len()
    &&& zeroes_count(before(s, calls, i), calls[i])
    &&& forall|j: int| i < j < calls.len() ==> !zeroes_count(#[trigger] before(s, calls, j), calls[j])
}

/// The number of calls from index `lo` on that count a repeated pause.
pub open spec fn repeats_from(s: StepperView, calls: Seq<StepperCall>, lo: int) -> nat
    decreases calls.len(),
{
    if calls.len() <= lo || calls.len() == 0 {
        0
    } else {
        repeats_from(s, calls.drop_last(), lo) + if counts_repeat(
            run(s, calls.drop_last()),
            calls.last(),
        ) {
            1nat
        } else {
            0nat
        }
    }
}

/// One call's effect on the active flag, the step mode and the repeat count.
proof fn lemma_step_call_effect(s: StepperView, call: StepperCall)
    ensures
        step_call(s, call).active == (if sets_active(call) {
            call is Start
        } else {
            s.active
        }),
        step_call(s, call).step_mode == (match mode_set(s, call) {
            Some(m) => m,
            None => s.step_mode,
        }),
        step_call(s, call).pause_repeat_count == (if zeroes_count(s, call) {
            0
        } else if counts_repeat(s, call) {
            s.pause_repeat_count + 1
        } else {
            s.pause_repeat_count
        }),
{
}

/// The steppers before each of the first calls of a sequence are those
/// before the same calls of the sequence with one more call.
proof fn lemma_before_prefix(s: StepperView, calls: Seq<StepperCall>)
    requires
        calls.len() > 0,
    ensures
        forall|j: int|
            0 <= j < calls.len() - 1 ==> #[trigger] before(s, calls, j) == before(
                s,
                calls.drop_last(),
                j,
            ),
        before(s, calls, calls.len() - 1) == run(s, calls.drop_last()),
{
    assert forall|j: int| 0 <= j < calls.len() - 1 implies #[trigger] before(s, calls, j) == before(
        s,
        calls.drop_last(),
        j,
    ) by {
        assert(calls.subrange(0, j) =~= calls.drop_last().subrange(0, j));
    }
    assert(calls.subrange(0, calls.len() - 1) =~= calls.drop_last());
}

/// The stepper is active exactly when the last call that set the active flag
/// was a start; where no call set it, it is as it was.
pub proof fn law_active_history(s: StepperView, calls: Seq<StepperCall>)
    ensures
        forall|i: int|
            last_active_set_at(calls, i) ==> (run(s, calls).active <==> #[trigger] calls[i] is Start),
        (forall|j: int| 0 <= j < calls.len() ==> !sets_active(#[trigger] calls[j])) ==> run(
            s,
            calls,
        ).active == s.active,
    decreases calls.len(),
{
    if calls.len() > 0 {
        let p = calls.drop_last();
        let c = calls.last();
        law_active_history(s, p);
        lemma_step_call_effect(run(s, p), c);
        assert forall|j: int| 0 <= j < p.len() implies #[trigger] p[j] == calls[j] by {}
        if sets_active(c) {
            assert forall|i: int| last_active_set_at(calls, i) implies i == calls.len() - 1 by {
                if i < calls.len() - 1 {
                    assert(!sets_active(calls[calls.len() - 1]));
                }
            }
            assert(!(forall|j: int| 0 <= j < calls.len() ==> !sets_active(#[trigger] calls[j]))) by {
                assert(sets_active(calls[calls.len() - 1]));
            }
        } else {
            assert forall|i: int| last_active_set_at(calls, i) implies (run(s, calls).active
                <==> #[trigger] calls[i] is Start) by {
                assert(i != calls.len() - 1);
                assert forall|j: int| i < j < p.len() implies !sets_active(#[trigger] p[j]) by {
                    assert(p[j] == calls[j]);
                }
                assert(last_active_set_at(p, i));
                assert(p[i] == calls[i]);
            }
            if forall|j: int| 0 <= j < calls.len() ==> !sets_active(#[trigger] calls[j]) {
                assert forall|j: int| 0 <= j < p.len() implies !sets_active(#[trigger] p[j]) by {
                    assert(p[j] == calls[j]);
                }
            }
        }
    }
}

/// The step mode is the one set by the last call that set a mode; where no
/// call set one, it is as it was.
pub proof fn law_step_mode_history(s: StepperView, calls: Seq<StepperCall>)
    ensures
        forall|i: int|
            last_mode_set_at(s, calls, i) ==> Some(run(s, calls).step_mode) == mode_set(
                #[trigger] before(s, calls, i),
                calls[i],
            ),
        (forall|j: int|
            0 <= j < calls.len() ==> mode_set(#[trigger] before(s, calls, j), calls[j]) is None)
            ==> run(s, calls).step_mode == s.step_mode,
    decreases calls.len(),
{
    if calls.len() > 0 {
        let p = calls.drop_last();
        let c = calls.last();
        let n = calls.len() - 1;
        law_step_mode_history(s, p);
        lemma_step_call_effect(run(s, p), c);
        lemma_before_prefix(s, calls);
        assert forall|j: int| 0 <= j < p.len() implies #[trigger] p[j] == calls[j] by {}
        if mode_set(run(s, p), c) is Some {
            assert forall|i: int| last_mode_set_at(s, calls, i) implies i == n by {
                if i < n {
                    assert(mode_set(before(s, calls, n), calls[n]) is None);
                }
            }
            assert(!(forall|j: int|
                0 <= j < calls.len() ==> mode_set(#[trigger] before(s, calls, j), calls[j]) is None))
                by {
                assert(mode_set(before(s, calls, n), calls[n]) is Some);
            }
        } else {
            assert forall|i: int| last_mode_set_at(s, calls, i) implies Some(
                run(s, calls).step_mode,
            ) == mode_set(#[trigger] before(s, calls, i), calls[i]) by {
                assert(i != n);
                assert forall|j: int| i < j < p.len() implies mode_set(
                    #[trigger] before(s, p, j),
                    p[j],
                ) is None by {
                    assert(before(s, calls, j) == before(s, p, j));
                    assert(p[j] == calls[j]);
                }
                assert(before(s, calls, i) == before(s, p, i));
                assert(p[i] == calls[i]);
                assert(last_mode_set_at(s, p, i));
            }
            if forall|j: int|
                0 <= j < calls.len() ==> mode_set(#[trigger] before(s, calls, j), calls[j]) is None {
                assert forall|j: int| 0 <= j < p.len() implies mode_set(
                    #[trigger] before(s, p, j),
                    p[j],
                ) is None by {
                    assert(before(s, calls, j) == before(s, p, j));
                    assert(p[j] == calls[j]);
                }
            }
        }
    }
}

/// The repeat count is the number of repeated pauses since the last call
/// that set it to zero; where no call did, it is the number of repeated
/// pauses added to the count as it was.
pub proof fn law_repeat_count_history(s: StepperView, calls: Seq<StepperCall>)
    ensures
        forall|i: int|
            last_zero_at(s, calls, i) ==> run(s, calls).pause_repeat_count == #[trigger] repeats_from(
                s,
                calls,
                i + 1,
            ),
        (forall|j: int|
            0 <= j < calls.len() ==> !zeroes_count(#[trigger] before(s, calls, j), calls[j]))
            ==> run(s, calls).pause_repeat_count == s.pause_repeat_count + repeats_from(s, calls, 0),
    decreases calls.len(),
{
    if calls.len() > 0 {
        let p = calls.drop_last();
        let c = calls.last();
        let n = calls.len() - 1;
        law_repeat_count_history(s, p);
        lemma_step_call_effect(run(s, p), c);
        lemma_before_prefix(s, calls);
        assert forall|j: int| 0 <= j < p.len() implies #[trigger] p[j] == calls[j] by {}
        if zeroes_count(run(s, p), c) {
            assert forall|i: int| last_zero_at(s, calls, i) implies i == n by {
                if i < n {
                    assert(!zeroes_count(before(s, calls, n), calls[n]));
                }
            }
            assert(!(forall|j: int|
                0 <= j < calls.len() ==> !zeroes_count(#[trigger] before(s, calls, j), calls[j])))
                by {
                assert(zeroes_count(before(s, calls, n), calls[n]));
            }
        } else {
            assert forall|i: int| last_zero_at(s, calls, i) implies run(s, calls).pause_repeat_count
                == #[trigger] repeats_from(s, calls, i + 1) by {
                assert(i != n);
                assert forall|j: int| i < j < p.len() implies !zeroes_count(
                    #[trigger] before(s, p, j),
                    p[j],
                ) by {
                    assert(before(s, calls, j) == before(s, p, j));
                    assert(p[j] == calls[j]);
                }
                assert(before(s, calls, i) == before(s, p, i));
                assert(p[i] == calls[i]);
                assert(last_zero_at(s, p, i));
                assert(run(s, p).pause_repeat_count == repeats_from(s, p, i + 1));
                assert(repeats_from(s, calls, i + 1) == repeats_from(s, p, i + 1) + if counts_repeat(
                    run(s, p),
                    c,
                ) {
                    1nat
                } else {
                    0nat
                });
            }
            if forall|j: int|
                0 <= j < calls.len() ==> !zeroes_count(#[trigger] before(s, calls, j), calls[j]) {
                assert forall|j: int| 0 <= j < p.len() implies !zeroes_count(
                    #[trigger] before(s, p, j),
                    p[j],
                ) by {
                    assert(before(s, calls, j) == before(s, p, j));
                    assert(p[j] == calls[j]);
                }
            }
        }
    }
}

impl Stepper {
    /// An inactive stepper in step-into mode with no pause recorded.
    pub fn new() -> (r: Self)
        ensures
            r@ == (StepperView {
                active: false,
                step_mode: StepMode::StepInto,
                pause_next: false,
                last_pause_triple: None,
                pause_repeat_count: 0,
            }),
    {
        Stepper {
            active: false,
            step_mode: StepMode::StepInto,
            pause_next: false,
            last_pause_triple: None,
            pause_repeat_count: 0,
        }
    }

    /// Starts stepping in `mode`; the next instruction pauses.
    pub fn start(&mut self, mode: StepMode, debug_state: &mut DebugState)
        ensures
            final(self)@ == step_call(old(self)@, StepperCall::Start(mode)),
            final(self)@ == started(old(self)@, mode),
            final(debug_state)@ == old(debug_state)@.stepping_in(mode),
    {
        self.active = true;
        self.step_mode = mode;
        self.pause_next = true;
        debug_state.start_instruction_stepping(mode);
    }

    /// Stops stepping.
    pub fn stop(&mut self, debug_state: &mut DebugState)
        ensures
            final(self)@ == step_call(old(self)@, StepperCall::Stop),
            final(self)@ == stopped(old(self)@),
            final(debug_state)@ == old(debug_state)@.not_stepping(),
    {
        self.active = false;
        self.pause_next = false;
        debug_state.stop_instruction_stepping();
    }

    pub fn is_active(&self) -> (r: bool)
        ensures
            r == self@.active,
    {
        self.active
    }

    pub fn step_mode(&self) -> (r: StepMode)
        ensures
            r == self@.step_mode,
    {
        self.step_mode
    }

    /// How many consecutive pauses have repeated the last pause's triple.
    pub fn pause_repeat_count(&self) -> (r: usize)
        ensures
            r == self@.pause_repeat_count,
    {
        self.pause_repeat_count
    }

    pub fn reset_pause_count(&mut self)
        ensures
            final(self)@ == step_call(old(self)@, StepperCall::ResetPauseCount),
            final(self)@ == (StepperView { pause_repeat_count: 0, ..old(self)@ }),
    {
        self.pause_repeat_count = 0;
    }

    /// Records a pause at the current instruction of `debug_state`.
    fn track_pause(&mut self, debug_state: &DebugState)
        requires
            pause_triple(debug_state@, old(self)@.step_mode) is Some && old(self)@.last_pause_triple
                == pause_triple(debug_state@, old(self)@.step_mode) ==> old(self)@.pause_repeat_count
                < usize::MAX,
        ensures
            final(self)@ == after_pause(old(self)@, debug_state@),
    {
        match debug_state.current_instruction() {
            Some(inst) => {
                let depth = debug_state.instruction_pointer().call_stack_depth();
                let mode = self.step_mode;
                let same = match self.last_pause_triple {
                    Some((offset, d, m)) => offset == inst.offset && d == depth && m == mode,
                    None => false,
                };
                if same {
                    self.pause_repeat_count = self.pause_repeat_count + 1;
                } else {
                    self.last_pause_triple = Some((inst.offset, depth, mode));
                    self.pause_repeat_count = 0;
                }
            },
            None => {},
        }
    }

    /// Steps one instruction, entering calls.
    pub fn step_into(&mut self, debug_state: &mut DebugState) -> (stepped: bool)
        requires
            repeat_count_has_room(old(self)@),
        ensures
            final(self)@ == step_call(old(self)@, StepperCall::Step(Some(StepMode::StepInto), stepped, final(debug_state)@)),
            !old(self)@.active ==> !stepped && final(self)@ == old(self)@ && final(debug_state)@
                == old(debug_state)@,
            old(self)@.active ==> {
                let d = old(debug_state)@.stepping_in(StepMode::StepInto);
                let s = with_mode(old(self)@, StepMode::StepInto);
                &&& stepped == d.can_advance()
                &&& final(debug_state)@ == d.advanced()
                &&& final(self)@ == (if stepped {
                    after_pause(s, d.advanced())
                } else {
                    s
                })
            },
    {
        if !self.active {
            return false;
        }
        self.step_mode = StepMode::StepInto;
        debug_state.start_instruction_stepping(StepMode::StepInto);
        let stepped = debug_state.next_instruction().is_some();
        if stepped {
            self.track_pause(debug_state);
        }
        stepped
    }

    /// Steps back one instruction.
    pub fn step_back(&mut self, debug_state: &mut DebugState) -> (stepped: bool)
        requires
            repeat_count_has_room(old(self)@),
        ensures
            final(self)@ == step_call(old(self)@, StepperCall::Step(None, stepped, final(debug_state)@)),
            !old(self)@.active ==> !stepped && final(self)@ == old(self)@ && final(debug_state)@
                == old(debug_state)@,
            old(self)@.active ==> {
                &&& stepped == old(debug_state)@.can_retreat()
                &&& final(debug_state)@ == old(debug_state)@.retreated()
                &&& final(self)@ == (if stepped {
                    after_pause(old(self)@, old(debug_state)@.retreated())
                } else {
                    old(self)@
                })
            },
    {
        if !self.active {
            return false;
        }
        let stepped = debug_state.previous_instruction().is_some();
        if stepped {
            self.track_pause(debug_state);
        }
        stepped
    }

    /// Leaves stepping and lets execution run.
    pub fn continue_execution(&mut self, debug_state: &mut DebugState)
        ensures
            final(self)@ == step_call(old(self)@, StepperCall::Continue),
            final(self)@ == continued(old(self)@),
            final(debug_state)@ == old(debug_state)@.not_stepping(),
    {
        self.active = false;
        debug_state.stop_instruction_stepping();
    }

    /// Whether execution should pause at `instruction`.
    pub fn should_pause(&self, instruction: &Instruction, debug_state: &DebugState) -> (r: bool)
        ensures
            r == wants_pause(self@, debug_state@, *instruction),
            !self@.active ==> !r,
            self@.active && self@.pause_next ==> r,
            self@.active && !self@.pause_next ==> {
                let ip = debug_state@.ip;
                &&& !ip.stepping ==> !r
                &&& ip.stepping && ip.step_mode == StepMode::StepInto ==> r
                &&& ip.stepping && ip.step_mode == StepMode::StepOver ==> (r <==> ip.call_stack_depth
                    <= ip.step_depth)
                &&& ip.stepping && ip.step_mode == StepMode::StepOut ==> (r <==> ip.call_stack_depth
                    < ip.step_depth)
                &&& ip.stepping && ip.step_mode == StepMode::StepBlock ==> (r
                    <==> instruction.control_flow)
            },    {
        if !self.active {
            return false;
        }
        if self.pause_next {
            return true;
        }
        debug_state.instruction_pointer().should_pause_at(instruction)
    }

    /// Called as execution reaches `instruction`: pauses there if stepping
    /// asks for it, recording the pause.
    pub fn on_instruction(&mut self, instruction: &Instruction, debug_state: &mut DebugState) -> (r:
        bool)
        requires
            repeat_count_has_room(old(self)@),
        ensures
            final(self)@ == step_call(old(self)@, StepperCall::Reached(*instruction, old(debug_state)@)),
            r == wants_pause(old(self)@, old(debug_state)@, *instruction),
            final(self)@ == (if r {
                paused(old(self)@, old(debug_state)@)
            } else {
                old(self)@
            }),
            final(debug_state)@ == old(debug_state)@,
            !old(self)@.active ==> !r,
            old(self)@.active && old(self)@.pause_next ==> r,
            old(self)@.active && !old(self)@.pause_next ==> {
                let ip = old(debug_state)@.ip;
                &&& !ip.stepping ==> !r
                &&& ip.stepping && ip.step_mode == StepMode::StepInto ==> r
                &&& ip.stepping && ip.step_mode == StepMode::StepOver ==> (r <==> ip.call_stack_depth
                    <= ip.step_depth)
                &&& ip.stepping && ip.step_mode == StepMode::StepOut ==> (r <==> ip.call_stack_depth
                    < ip.step_depth)
                &&& ip.stepping && ip.step_mode == StepMode::StepBlock ==> (r
                    <==> instruction.control_flow)
            },    {
        if !self.active {
            return false;
        }
        if self.should_pause(instruction, debug_state) {
            self.track_pause(debug_state);
            self.pause_next = false;
            return true;
        }
        false
    }

    /// Returns to the inactive state with no pause recorded.
    pub fn reset(&mut self)
        ensures
            final(self)@ == step_call(old(self)@, StepperCall::Reset),
            final(self)@ == cleared(old(self)@),
    {
        self.active = false;
        self.pause_next = false;
        self.last_pause_triple = None;
        self.pause_repeat_count = 0;
    }
    /// Runs forward, at most `STEP_GUARD` instructions, to the first
    /// instruction at the starting depth or an outer one (with
    /// `strictly_lower`, at an outer one); says whether it got there.
    fn advance_to_depth(&self, debug_state: &mut DebugState, strictly_lower: bool) -> (r: bool)
        requires
            old(debug_state)@.well_formed(),
        ensures
            scan_outcome(
                old(debug_state)@,
                STEP_GUARD as int,
                depth_stop(old(debug_state)@, strictly_lower),
                r,
                final(debug_state)@,
            ),
            final(debug_state)@.well_formed(),
    {
        let target = debug_state.instruction_pointer().call_stack_depth();
        let ghost d0 = debug_state@;
        let ghost stop = depth_stop(d0, strictly_lower);
        let mut n: usize = 0;
        while n < STEP_GUARD
            invariant
                n <= STEP_GUARD,
                d0 == old(debug_state)@,
                d0.well_formed(),
                target == d0.depth(),
                stop == depth_stop(d0, strictly_lower),
                d0.next_index() + n <= d0.instructions.len(),
                debug_state@ == scanned(d0, n as int),
                debug_state@.well_formed(),
                forall|j: int| d0.next_index() <= j < d0.next_index() + n ==> !#[trigger] stop(j),
            ensures
                n == STEP_GUARD || d0.next_index() + n == d0.instructions.len(),
            decreases STEP_GUARD - n,
        {
            proof {
                lemma_scan_step(d0, n as int);
            }
            if debug_state.next_instruction().is_none() {
                break;
            }
            let depth = debug_state.instruction_pointer().call_stack_depth();
            if (strictly_lower && depth < target) || (!strictly_lower && depth <= target) {
                proof {
                    lemma_scan_found(d0, STEP_GUARD as int, stop, n as int);
                    assert(debug_state@ == scanned(d0, n + 1));
                }
                return true;
            }
            n = n + 1;
        }
        proof {
            lemma_scan_none(d0, STEP_GUARD as int, stop, n as int);
        }
        false
    }
    /// Steps over calls: runs to the next instruction in the same frame or an
    /// outer one, at most `STEP_GUARD` instructions.
    pub fn step_over(&mut self, debug_state: &mut DebugState) -> (stepped: bool)
        requires
            repeat_count_has_room(old(self)@),
        ensures
            final(self)@ == step_call(old(self)@, StepperCall::Step(Some(StepMode::StepOver), stepped, final(debug_state)@)),
            !old(self)@.active ==> !stepped && final(self)@ == old(self)@ && final(debug_state)@
                == old(debug_state)@,
            old(self)@.active ==> {
                let d = old(debug_state)@.stepping_in(StepMode::StepOver);
                &&& scan_outcome(
                    d,
                    STEP_GUARD as int,
                    depth_stop(d, false),
                    stepped,
                    final(debug_state)@,
                )
                &&& final(self)@ == after_step(
                    old(self)@,
                    StepMode::StepOver,
                    stepped,
                    final(debug_state)@,
                )
            },
            old(self)@.active ==> {
                let d = old(debug_state)@;
                &&& stepped <==> exists|j: int|
                    d.next_index() <= j < d.next_index() + STEP_GUARD && j < d.instructions.len()
                        && #[trigger] d.depths[j] <= d.depth()
                &&& stepped ==> (final(debug_state)@.ip.position matches Some(q) && d.next_index()
                    <= q < d.instructions.len() && final(debug_state)@.depth() == d.depths[q as int]
                    && final(debug_state)@.depth() <= d.depth() && forall|j: int|
                    d.next_index() <= j < q ==> #[trigger] d.depths[j] > d.depth())
            },
    {
        if !self.active {
            return false;
        }
        self.step_mode = StepMode::StepOver;
        debug_state.start_instruction_stepping(StepMode::StepOver);
        let stepped = self.advance_to_depth(debug_state, false);
        if stepped {
            self.track_pause(debug_state);
        }
        proof {
            law_step_over_stays_in_frame(old(debug_state)@.stepping_in(StepMode::StepOver), stepped, debug_state@);
        }
        stepped
    }

    /// Steps out: runs to the next instruction in an outer frame, at most
    /// `STEP_GUARD` instructions.
    pub fn step_out(&mut self, debug_state: &mut DebugState) -> (stepped: bool)
        requires
            repeat_count_has_room(old(self)@),
        ensures
            final(self)@ == step_call(old(self)@, StepperCall::Step(Some(StepMode::StepOut), stepped, final(debug_state)@)),
            !old(self)@.active ==> !stepped && final(self)@ == old(self)@ && final(debug_state)@
                == old(debug_state)@,
            old(self)@.active ==> {
                let d = old(debug_state)@.stepping_in(StepMode::StepOut);
                &&& scan_outcome(
                    d,
                    STEP_GUARD as int,
                    depth_stop(d, true),
                    stepped,
                    final(debug_state)@,
                )
                &&& final(self)@ == after_step(
                    old(self)@,
                    StepMode::StepOut,
                    stepped,
                    final(debug_state)@,
                )
            },
            old(self)@.active ==> {
                let d = old(debug_state)@;
                &&& stepped <==> exists|j: int|
                    d.next_index() <= j < d.next_index() + STEP_GUARD && j < d.instructions.len()
                        && #[trigger] d.depths[j] < d.depth()
                &&& stepped ==> (final(debug_state)@.ip.position matches Some(q) && d.next_index()
                    <= q < d.instructions.len() && final(debug_state)@.depth() == d.depths[q as int]
                    && final(debug_state)@.depth() < d.depth() && forall|j: int|
                    d.next_index() <= j < q ==> #[trigger] d.depths[j] >= d.depth())
            },
    {
        if !self.active {
            return false;
        }
        self.step_mode = StepMode::StepOut;
        debug_state.start_instruction_stepping(StepMode::StepOut);
        let stepped = self.advance_to_depth(debug_state, true);
        if stepped {
            self.track_pause(debug_state);
        }
        proof {
            law_step_out_stops_in_caller(old(debug_state)@.stepping_in(StepMode::StepOut), stepped, debug_state@);
        }
        stepped
    }

    /// Steps to the next control-flow instruction, at most `STEP_GUARD`
    /// instructions on.
    pub fn step_block(&mut self, debug_state: &mut DebugState) -> (stepped: bool)
        requires
            repeat_count_has_room(old(self)@),
        ensures
            final(self)@ == step_call(old(self)@, StepperCall::Step(Some(StepMode::StepBlock), stepped, final(debug_state)@)),
            !old(self)@.active ==> !stepped && final(self)@ == old(self)@ && final(debug_state)@
                == old(debug_state)@,
            old(self)@.active ==> {
                let d = old(debug_state)@.stepping_in(StepMode::StepBlock);
                &&& scan_outcome(
                    d,
                    STEP_GUARD as int,
                    control_flow_stop(d),
                    stepped,
                    final(debug_state)@,
                )
                &&& final(self)@ == after_step(
                    old(self)@,
                    StepMode::StepBlock,
                    stepped,
                    final(debug_state)@,
                )
            },
            old(self)@.active ==> {
                let d = old(debug_state)@;
                &&& stepped <==> exists|j: int|
                    d.next_index() <= j < d.next_index() + STEP_GUARD && j < d.instructions.len()
                        && #[trigger] d.instructions[j].control_flow
                &&& stepped ==> (final(debug_state)@.ip.position matches Some(q) && d.next_index()
                    <= q < d.instructions.len() && d.instructions[q as int].control_flow && final(debug_state)@.current()
                    == Some(d.instructions[q as int]) && forall|j: int|
                    d.next_index() <= j < q ==> !#[trigger] d.instructions[j].control_flow)
            },
    {
        if !self.active {
            return false;
        }
        self.step_mode = StepMode::StepBlock;
        debug_state.start_instruction_stepping(StepMode::StepBlock);
        let stepped = self.find_next_control_flow(debug_state);
        if stepped {
            self.track_pause(debug_state);
        }
        proof {
            law_step_block_stops_at_control_flow(old(debug_state)@.stepping_in(StepMode::StepBlock), stepped, debug_state@);
        }
        stepped
    }

    /// Step over to the next distinct source line within the same call frame
    /// (or an outer one), at most `STEP_GUARD` instructions on.
    pub fn step_over_source_line(&mut self, debug_state: &mut DebugState, source_map: &SourceMap) -> (stepped: bool)
        requires
            repeat_count_has_room(old(self)@),
        ensures
            final(self)@ == step_call(old(self)@, StepperCall::Step(Some(StepMode::StepOver), stepped, final(debug_state)@)),
            !old(self)@.active ==> !stepped && final(self)@ == old(self)@ && final(debug_state)@
                == old(debug_state)@,
            old(self)@.active ==> {
                let d = old(debug_state)@.stepping_in(StepMode::StepOver);
                &&& scan_outcome(
                    d,
                    STEP_GUARD as int,
                    line_stop(d, source_map@),
                    stepped,
                    final(debug_state)@,
                )
                &&& final(self)@ == after_step(
                    old(self)@,
                    StepMode::StepOver,
                    stepped,
                    final(debug_state)@,
                )
            },
            old(self)@.active ==> {
                let d = old(debug_state)@;
                let start = match d.current() {
                    Some(inst) => first_location(source_map@, inst.offset),
                    None => None,
                };
                &&& stepped <==> exists|j: int|
                    d.next_index() <= j < d.next_index() + STEP_GUARD && j < d.instructions.len()
                        && #[trigger] d.depths[j] <= d.depth() && first_location(
                        source_map@,
                        d.instructions[j].offset,
                    ) != start
                &&& stepped ==> (final(debug_state)@.ip.position matches Some(q) && d.next_index()
                    <= q < d.instructions.len() && final(debug_state)@.depth() == d.depths[q as int]
                    && final(debug_state)@.depth() <= d.depth() && first_location(
                    source_map@,
                    d.instructions[q as int].offset,
                ) != start && forall|j: int|
                    d.next_index() <= j < q ==> #[trigger] d.depths[j] > d.depth() || first_location(
                        source_map@,
                        d.instructions[j].offset,
                    ) == start)
            },    {
        if !self.active {
            return false;
        }
        self.step_mode = StepMode::StepOver;
        debug_state.start_instruction_stepping(StepMode::StepOver);
        let start_depth = debug_state.instruction_pointer().call_stack_depth();
        let start_loc = match debug_state.current_instruction() {
            Some(inst) => source_map.lookup(inst.offset),
            None => None,
        };
        let ghost d0 = debug_state@;
        let ghost stop = line_stop(d0, source_map@);
        let ghost s0 = self@;
        let mut n: usize = 0;
        while n < STEP_GUARD
            invariant
                n <= STEP_GUARD,
                d0 == old(debug_state)@.stepping_in(StepMode::StepOver),
                s0 == with_mode(old(self)@, StepMode::StepOver),
                self@ == s0,
                old(self)@.active,
                repeat_count_has_room(old(self)@),
                d0.well_formed(),
                start_depth == d0.depth(),
                location_view(start_loc) == start_location(d0, source_map@),
                stop == line_stop(d0, source_map@),
                d0.next_index() + n <= d0.instructions.len(),
                debug_state@ == scanned(d0, n as int),
                debug_state@.well_formed(),
                forall|j: int| d0.next_index() <= j < d0.next_index() + n ==> !#[trigger] stop(j),
            ensures
                n == STEP_GUARD || d0.next_index() + n == d0.instructions.len(),
            decreases STEP_GUARD - n,
        {
            proof {
                lemma_scan_step(d0, n as int);
            }
            if debug_state.next_instruction().is_none() {
                break;
            }
            let depth = debug_state.instruction_pointer().call_stack_depth();
            if depth <= start_depth {
                let loc = match debug_state.current_instruction() {
                    Some(inst) => source_map.lookup(inst.offset),
                    None => None,
                };
                let is_different_line = match (&start_loc, &loc) {
                    (Some(s), Some(l)) => !(s.file == l.file) || s.line != l.line,
                    (None, Some(_)) => true,
                    (Some(_), None) => true,
                    (None, None) => false,
                };
                if is_different_line {
                    proof {
                        assert(debug_state@ == scanned(d0, n + 1));
                        lemma_scan_found(d0, STEP_GUARD as int, stop, n as int);
                    }
                    self.track_pause(debug_state);
                    proof {
                        law_step_over_line_stops_at_new_line(d0, source_map@, true, debug_state@);
                    }
                    return true;
                }
            }
            n = n + 1;
        }
        proof {
            lemma_scan_none(d0, STEP_GUARD as int, stop, n as int);
            law_step_over_line_stops_at_new_line(d0, source_map@, false, debug_state@);
        }
        false
    }

    /// Runs forward to the first instruction in an outer frame, at most
    /// `OUTER_FRAME_GUARD` instructions; at the entry frame there is no outer
    /// frame, and nothing moves.
    fn find_next_instruction_at_lower_depth(&self, debug_state: &mut DebugState) -> (r: bool)
        requires
            old(debug_state)@.well_formed(),
        ensures
            old(debug_state)@.depth() == 0 ==> !r && final(debug_state)@ == old(debug_state)@,
            old(debug_state)@.depth() > 0 ==> scan_outcome(
                old(debug_state)@,
                OUTER_FRAME_GUARD as int,
                depth_at_most(old(debug_state)@, old(debug_state)@.depth() - 1),
                r,
                final(debug_state)@,
            ),
            final(debug_state)@.well_formed(),
    {
        let current_depth = debug_state.instruction_pointer().call_stack_depth();
        if current_depth == 0 {
            return false;
        }
        let target_depth = current_depth - 1;
        let ghost d0 = debug_state@;
        let ghost stop = depth_at_most(d0, target_depth as int);
        let mut n: usize = 0;
        while n < OUTER_FRAME_GUARD
            invariant
                n <= OUTER_FRAME_GUARD,
                d0 == old(debug_state)@,
                d0.well_formed(),
                target_depth == d0.depth() - 1,
                stop == depth_at_most(d0, target_depth as int),
                d0.next_index() + n <= d0.instructions.len(),
                debug_state@ == scanned(d0, n as int),
                debug_state@.well_formed(),
                forall|j: int| d0.next_index() <= j < d0.next_index() + n ==> !#[trigger] stop(j),
            ensures
                n == OUTER_FRAME_GUARD || d0.next_index() + n == d0.instructions.len(),
            decreases OUTER_FRAME_GUARD - n,
        {
            proof {
                lemma_scan_step(d0, n as int);
            }
            if debug_state.next_instruction().is_none() {
                break;
            }
            if debug_state.instruction_pointer().call_stack_depth() <= target_depth {
                proof {
                    assert(debug_state@ == scanned(d0, n + 1));
                    lemma_scan_found(d0, OUTER_FRAME_GUARD as int, stop, n as int);
                }
                return true;
            }
            n = n + 1;
        }
        proof {
            lemma_scan_none(d0, OUTER_FRAME_GUARD as int, stop, n as int);
        }
        false
    }

    /// Runs forward to the next control-flow instruction, at most
    /// `STEP_GUARD` instructions; says whether it got there.
    fn find_next_control_flow(&self, debug_state: &mut DebugState) -> (r: bool)
        requires
            old(debug_state)@.well_formed(),
        ensures
            scan_outcome(
                old(debug_state)@,
                STEP_GUARD as int,
                control_flow_stop(old(debug_state)@),
                r,
                final(debug_state)@,
            ),
            final(debug_state)@.well_formed(),
    {
        let ghost d0 = debug_state@;
        let ghost stop = control_flow_stop(d0);
        let mut n: usize = 0;
        while n < STEP_GUARD
            invariant
                n <= STEP_GUARD,
                d0 == old(debug_state)@,
                d0.well_formed(),
                stop == control_flow_stop(d0),
                d0.next_index() + n <= d0.instructions.len(),
                debug_state@ == scanned(d0, n as int),
                debug_state@.well_formed(),
                forall|j: int| d0.next_index() <= j < d0.next_index() + n ==> !#[trigger] stop(j),
            ensures
                n == STEP_GUARD || d0.next_index() + n == d0.instructions.len(),
            decreases STEP_GUARD - n,
        {
            proof {
                lemma_scan_step(d0, n as int);
            }
            match debug_state.next_instruction() {
                Some(inst) => {
                    if inst.is_control_flow() {
                        proof {
                            assert(debug_state@ == scanned(d0, n + 1));
                            lemma_scan_found(d0, STEP_GUARD as int, stop, n as int);
                        }
                        return true;
                    }
                },
                None => {
                    break;
                },
            }
            n = n + 1;
        }
        proof {
            lemma_scan_none(d0, STEP_GUARD as int, stop, n as int);
        }
        false
    }
}

impl Default for Stepper {
    fn default() -> (r: Self)
        ensures
            r@ == (StepperView {
                active: false,
                step_mode: StepMode::StepInto,
                pause_next: false,
                last_pause_triple: None,
                pause_repeat_count: 0,
            }),
    {
        Self::new()
    }
}

} // verus!
