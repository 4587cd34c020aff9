//! Breakpoints are transparent: a program runs as it does without them.

use vstd::prelude::*;
use super::assembly::{AssemblyView, FuncView, ManagedFuncView};
use super::instructions::Inst;
use super::machine::{
    deliver, frame_events, lemma_run_frame_keeps_locals, lemma_run_frame_stops_at,
    lemma_run_frame_with_more_fuel, lemma_turn_keeps_order, lemma_turn_uses_fuel, orderly,
    return_value, run_frame, step, CallFrameView, Event, ExecutionStatus, FrameView,
    MachineView, NativeOutcome, RuntimeFault,
};

verus! {

/// The number of instructions other than breakpoints among the first `n`
/// of a body.
pub open spec fn kept(body: Seq<Inst>, n: int) -> nat
    decreases n,
{
    if n <= 0 {
        0
    } else if body[n - 1] == Inst::breakpoint {
        kept(body, n - 1)
    } else {
        kept(body, n - 1) + 1
    }
}

/// An instruction of `body` as it stands in the body without breakpoints:
/// the offset of a jump counts the instructions that are kept.
pub open spec fn moved(body: Seq<Inst>, inst: Inst) -> Inst {
    match inst {
        Inst::jump(target) => Inst::jump(kept(body, target as int) as u32),
        Inst::beq(target) => Inst::beq(kept(body, target as int) as u32),
        other => other,
    }
}

/// The first `n` instructions of a body without the breakpoints among
/// them.
pub open spec fn quiet_start(body: Seq<Inst>, n: int) -> Seq<Inst>
    decreases n,
{
    if n <= 0 {
        Seq::empty()
    } else if body[n - 1] == Inst::breakpoint {
        quiet_start(body, n - 1)
    } else {
        quiet_start(body, n - 1).push(moved(body, body[n - 1]))
    }
}

/// A body without its breakpoints.
pub open spec fn quiet_body(body: Seq<Inst>) -> Seq<Inst> {
    quiet_start(body, body.len() as int)
}

/// Whether the jumps of a body stay within it, and its offsets fit a
/// program counter.
pub open spec fn closed_body(body: Seq<Inst>) -> bool {
    &&& body.len() <= u32::MAX
    &&& forall|i: int|
        0 <= i < body.len() ==> match #[trigger] body[i] {
            Inst::jump(target) => target <= body.len(),
            Inst::beq(target) => target <= body.len(),
            _ => true,
        }
}

/// A frame over `body` as it stands over the body without breakpoints.
pub open spec fn quiet_frame(body: Seq<Inst>, frame: FrameView) -> FrameView {
    FrameView { pc: kept(body, frame.pc as int), ..frame }
}

pub proof fn lemma_kept(body: Seq<Inst>, m: int, n: int)
    requires
        0 <= m <= n,
    ensures
        kept(body, m) <= kept(body, n) <= n,
        kept(body, n) - kept(body, m) <= n - m,
    decreases n,
{
    if m < n {
        lemma_kept(body, m, n - 1);
    } else if n > 0 {
        lemma_kept(body, n - 1, n - 1);
    }
}

/// The body without breakpoints holds the kept instructions in their
/// order.
pub proof fn lemma_quiet_start(body: Seq<Inst>, n: int)
    requires
        0 <= n <= body.len(),
    ensures
        quiet_start(body, n).len() == kept(body, n),
        forall|k: int|
            0 <= k < n && body[k] != Inst::breakpoint ==> #[trigger] quiet_start(body, n)[kept(
                body,
                k,
            ) as int] == moved(body, body[k]),
    decreases n,
{
    if n > 0 {
        lemma_quiet_start(body, n - 1);
        assert forall|k: int| 0 <= k < n && body[k] != Inst::breakpoint implies #[trigger] quiet_start(
            body,
            n,
        )[kept(body, k) as int] == moved(body, body[k]) by {
            if k < n - 1 {
                lemma_kept(body, k + 1, n - 1);
            }
        }
    }
}

/// A body without its breakpoints is closed where the body is.
pub proof fn lemma_quiet_body_closed(body: Seq<Inst>)
    requires
        closed_body(body),
    ensures
        closed_body(quiet_body(body)),
        quiet_body(body).len() == kept(body, body.len() as int),
{
    let n = body.len() as int;
    let quiet = quiet_body(body);
    lemma_quiet_shape(body, n);
    lemma_kept(body, 0, n);
    assert forall|i: int| 0 <= i < quiet.len() implies match #[trigger] quiet[i] {
        Inst::jump(target) => target <= quiet.len(),
        Inst::beq(target) => target <= quiet.len(),
        _ => true,
    } by {
        let k = choose|k: int| 0 <= k < n && quiet[i] == moved(body, body[k]);
        match body[k] {
            Inst::jump(target) => {
                lemma_kept(body, target as int, n);
            },
            Inst::beq(target) => {
                lemma_kept(body, target as int, n);
            },
            _ => {},
        }
    }
}

/// Every instruction of the body without breakpoints comes from one of
/// the body.
proof fn lemma_quiet_shape(body: Seq<Inst>, n: int)
    requires
        0 <= n <= body.len(),
    ensures
        quiet_start(body, n).len() == kept(body, n),
        forall|i: int|
            0 <= i < quiet_start(body, n).len() ==> exists|k: int|
                0 <= k < n && #[trigger] quiet_start(body, n)[i] == moved(body, body[k]),
        forall|i: int|
            0 <= i < quiet_start(body, n).len() ==> #[trigger] quiet_start(body, n)[i]
                != Inst::breakpoint,
    decreases n,
{
    if n > 0 {
        lemma_quiet_shape(body, n - 1);
        let shorter = quiet_start(body, n - 1);
        let longer = quiet_start(body, n);
        assert forall|i: int| 0 <= i < longer.len() implies exists|k: int|
            0 <= k < n && #[trigger] longer[i] == moved(body, body[k]) by {
            if i < shorter.len() {
                let k = choose|k: int| 0 <= k < n - 1 && shorter[i] == moved(body, body[k]);
                assert(longer[i] == moved(body, body[k]));
            } else {
                assert(longer[i] == moved(body, body[n - 1]));
            }
        }
    }
}

/// What a step over the body without breakpoints gives, in terms of the
/// step over the body.
pub open spec fn quiet_step(body: Seq<Inst>, stepped: Result<
    (FrameView, ExecutionStatus),
    RuntimeFault,
>) -> Result<(FrameView, ExecutionStatus), RuntimeFault> {
    match stepped {
        Ok((next, status)) => Ok((quiet_frame(body, next), status)),
        Err(fault) => Err(fault),
    }
}

/// A step over a breakpoint changes nothing but the program counter, and
/// the frame stands at the same place of the body without breakpoints
/// afterwards. Every other step is the same step over the body without
/// breakpoints.
pub proof fn lemma_step_without_breakpoints(body: Seq<Inst>, frame: FrameView)
    requires
        closed_body(body),
        frame.pc <= body.len(),
    ensures
        step(body, frame) matches Ok((next, _)) ==> next.pc <= body.len(),
        frame.pc < body.len() && body[frame.pc as int] == Inst::breakpoint ==> {
            &&& step(body, frame) == Ok::<(FrameView, ExecutionStatus), RuntimeFault>(
                (frame.advanced(), ExecutionStatus::Breakpoint),
            )
            &&& quiet_frame(body, frame.advanced()) == quiet_frame(body, frame)
        },
        !(frame.pc < body.len() && body[frame.pc as int] == Inst::breakpoint) ==> step(
            quiet_body(body),
            quiet_frame(body, frame),
        ) == quiet_step(body, step(body, frame)),
{
    let n = body.len() as int;
    let quiet = quiet_body(body);
    let pc = frame.pc as int;
    lemma_quiet_start(body, n);
    lemma_kept(body, pc, n);
    if pc < n {
        let inst = body[pc];
        if inst != Inst::breakpoint {
            lemma_kept(body, pc + 1, n);
            assert(quiet[kept(body, pc) as int] == moved(body, inst));
            match inst {
                Inst::jump(target) => {
                    lemma_kept(body, target as int, n);
                },
                Inst::beq(target) => {
                    lemma_kept(body, target as int, n);
                },
                _ => {},
            }
        }
    }
}

/// A frame runs over the body without breakpoints as it runs over the
/// body, to the same operand stack, the same locals and the same call or
/// return, and takes no more steps. A run that faults, but for the steps
/// that it may take, faults in the same way.
pub proof fn lemma_run_frame_without_breakpoints(body: Seq<Inst>, frame: FrameView, fuel: nat)
    requires
        closed_body(body),
        frame.pc <= body.len(),
    ensures
        match run_frame(body, frame, fuel) {
            Ok((last, status, left)) => {
                &&& last.pc <= body.len()
                &&& run_frame(quiet_body(body), quiet_frame(body, frame), fuel) matches Ok(
                    (quiet_last, quiet_status, quiet_left),
                ) && quiet_last == quiet_frame(body, last) && quiet_status == status
                    && quiet_left >= left
            },
            Err(fault) => fault == RuntimeFault::StepLimitExceeded || run_frame(
                quiet_body(body),
                quiet_frame(body, frame),
                fuel,
            ) == Err::<(FrameView, ExecutionStatus, nat), RuntimeFault>(fault),
        },
    decreases fuel,
{
    if fuel > 0 {
        let quiet = quiet_body(body);
        let shifted = quiet_frame(body, frame);
        let rest = (fuel - 1) as nat;
        lemma_step_without_breakpoints(body, frame);
        if frame.pc < body.len() && body[frame.pc as int] == Inst::breakpoint {
            let next = frame.advanced();
            lemma_run_frame_without_breakpoints(body, next, rest);
            lemma_run_frame_with_more_fuel(quiet, shifted, rest, 1);
        } else {
            match step(body, frame) {
                Ok((next, ExecutionStatus::Normal)) => {
                    lemma_run_frame_without_breakpoints(body, next, rest);
                },
                Ok((next, ExecutionStatus::Breakpoint)) => {
                    lemma_run_frame_without_breakpoints(body, next, rest);
                },
                _ => {},
            }
        }
    }
}

impl ManagedFuncView {
    /// The function without the breakpoints in its body.
    pub open spec fn without_breakpoints(self) -> ManagedFuncView {
        ManagedFuncView { body: quiet_body(self.body), ..self }
    }
}

impl FuncView {
    /// The function without the breakpoints in its body.
    pub open spec fn without_breakpoints(self) -> FuncView {
        match self {
            FuncView::Managed(function) => FuncView::Managed(function.without_breakpoints()),
            FuncView::Native(function) => FuncView::Native(function),
        }
    }
}

/// The functions without the breakpoints in their bodies.
pub open spec fn quiet_functions(functions: Seq<FuncView>) -> Seq<FuncView> {
    Seq::new(functions.len(), |i: int| functions[i].without_breakpoints())
}

impl AssemblyView {
    /// The program without its breakpoints.
    pub open spec fn without_breakpoints(self) -> AssemblyView {
        AssemblyView { functions: quiet_functions(self.functions), ..self }
    }
}

impl CallFrameView {
    /// The frame as it stands over the function without breakpoints.
    pub open spec fn without_breakpoints(self) -> CallFrameView {
        match self {
            CallFrameView::Managed(function, frame) => CallFrameView::Managed(
                function.without_breakpoints(),
                quiet_frame(function.body, frame),
            ),
            CallFrameView::Native(function) => CallFrameView::Native(function),
        }
    }

    /// A managed frame stands within the body of its function or just past
    /// its end.
    pub open spec fn poised(self) -> bool {
        match self {
            CallFrameView::Managed(function, frame) => frame.pc <= function.body.len(),
            CallFrameView::Native(_) => true,
        }
    }
}

/// The call stack as it stands over the program without breakpoints.
pub open spec fn quiet_stack(stack: Seq<CallFrameView>) -> Seq<CallFrameView> {
    Seq::new(stack.len(), |i: int| stack[i].without_breakpoints())
}

/// Every frame of the call stack stands within the body of its function.
pub open spec fn all_poised(stack: Seq<CallFrameView>) -> bool {
    forall|i: int| 0 <= i < stack.len() ==> (#[trigger] stack[i]).poised()
}

/// Handing a result to the running frame is the same with and without
/// breakpoints.
proof fn lemma_deliver_without_breakpoints(stack: Seq<CallFrameView>, result: Option<u32>)
    ensures
        quiet_stack(deliver(stack, result)) == deliver(quiet_stack(stack), result),
        all_poised(stack) ==> all_poised(deliver(stack, result)),
        deliver(stack, result).len() == stack.len(),
{
    assert(quiet_stack(deliver(stack, result)) =~= deliver(quiet_stack(stack), result));
    if all_poised(stack) {
        assert forall|i: int| 0 <= i < deliver(stack, result).len() implies (
        #[trigger] deliver(stack, result)[i]).poised() by {
            assert(stack[i].poised());
        }
    }
}

/// The program without breakpoints is well formed where the program is.
pub proof fn lemma_without_breakpoints_well_formed(program: AssemblyView)
    requires
        program.well_formed(),
    ensures
        program.without_breakpoints().well_formed(),
        program.runnable() ==> program.without_breakpoints().runnable(),
{
    let quiet = program.without_breakpoints();
    let count = program.functions.len();
    assert forall|i: int| 0 <= i < quiet.functions.len() implies (
    #[trigger] quiet.functions[i]).well_formed(quiet.functions.len()) by {
        assert(program.functions[i].well_formed(count));
        match program.functions[i] {
            FuncView::Managed(function) => {
                lemma_quiet_function(function, count);
            },
            FuncView::Native(_) => {},
        }
    }
}

/// A function without breakpoints is well formed, and calls what it
/// called, where the function is and does.
proof fn lemma_quiet_function(function: ManagedFuncView, count: nat)
    requires
        function.well_formed(),
        function.calls_within(count),
    ensures
        function.without_breakpoints().well_formed(),
        function.without_breakpoints().calls_within(count),
        closed_body(function.body),
{
    let body = function.body;
    let n = body.len() as int;
    let quiet = quiet_body(body);
    assert(closed_body(body)) by {
        assert forall|i: int| 0 <= i < body.len() implies match #[trigger] body[i] {
            Inst::jump(target) => target <= body.len(),
            Inst::beq(target) => target <= body.len(),
            _ => true,
        } by {}
    }
    lemma_quiet_body_closed(body);
    lemma_quiet_shape(body, n);
    assert forall|i: int| 0 <= i < quiet.len() implies match #[trigger] quiet[i] {
        Inst::call(index) => (index as nat) < count,
        _ => true,
    } by {
        let k = choose|k: int| 0 <= k < n && quiet[i] == moved(body, body[k]);
        assert(match body[k] {
            Inst::call(index) => (index as nat) < count,
            _ => true,
        });
    }
}

/// The events without those of breakpoints.
pub open spec fn mute(events: Seq<Event>) -> Seq<Event>
    decreases events.len(),
{
    if events.len() == 0 {
        Seq::empty()
    } else if events[0] is Breakpoint {
        mute(events.drop_first())
    } else {
        seq![events[0]] + mute(events.drop_first())
    }
}

pub proof fn lemma_mute_add(first: Seq<Event>, second: Seq<Event>)
    ensures
        mute(first + second) == mute(first) + mute(second),
    decreases first.len(),
{
    if first.len() == 0 {
        assert(first + second =~= second);
        assert(mute(first) + mute(second) =~= mute(second));
    } else {
        lemma_mute_add(first.drop_first(), second);
        assert((first + second).drop_first() =~= first.drop_first() + second);
        assert(mute(first + second) =~= mute(first) + mute(second));
    }
}

/// Events of which none is of a breakpoint are left as they are.
pub proof fn lemma_mute_plain(events: Seq<Event>)
    requires
        forall|i: int| 0 <= i < events.len() ==> !(#[trigger] events[i] is Breakpoint),
    ensures
        mute(events) == events,
    decreases events.len(),
{
    if events.len() > 0 {
        lemma_mute_plain(events.drop_first());
        assert(seq![events[0]] + events.drop_first() =~= events);
    }
}

/// While a frame runs, the host is told of breakpoints only.
pub proof fn lemma_frame_events_are_breakpoints(
    function: ManagedFuncView,
    frame: FrameView,
    fuel: nat,
)
    ensures
        mute(frame_events(function, frame, fuel)) == Seq::<Event>::empty(),
    decreases fuel,
{
    if fuel > 0 {
        match step(function.body, frame) {
            Ok((next, ExecutionStatus::Normal)) => {
                lemma_frame_events_are_breakpoints(function, next, (fuel - 1) as nat);
            },
            Ok((next, ExecutionStatus::Breakpoint)) => {
                lemma_frame_events_are_breakpoints(function, next, (fuel - 1) as nat);
                let told = frame_events(function, frame, fuel);
                assert(told.drop_first() =~= frame_events(function, next, (fuel - 1) as nat));
            },
            _ => {},
        }
    }
}

/// While a frame of a function without breakpoints runs, the host is told
/// nothing.
pub proof fn lemma_quiet_frame_events(function: ManagedFuncView, frame: FrameView, fuel: nat)
    requires
        function.body.len() <= u32::MAX,
    ensures
        frame_events(function.without_breakpoints(), frame, fuel) == Seq::<Event>::empty(),
    decreases fuel,
{
    if fuel > 0 {
        let quiet = function.without_breakpoints();
        lemma_quiet_shape(function.body, function.body.len() as int);
        match step(quiet.body, frame) {
            Ok((next, ExecutionStatus::Normal)) => {
                lemma_quiet_frame_events(function, next, (fuel - 1) as nat);
            },
            Ok((next, ExecutionStatus::Breakpoint)) => {
                assert(quiet.body[frame.pc as int] != Inst::breakpoint);
            },
            _ => {},
        }
    }
}

/// The machine as it stands over the program without breakpoints, with
/// `fuel` steps to take.
pub open spec fn quiet_machine(machine: MachineView, fuel: nat) -> MachineView {
    MachineView { stack: quiet_stack(machine.stack), fuel, ..machine }
}

/// Whether a state of the program without breakpoints is the one that
/// stands for `machine`: the frames are the same but for the place of their
/// program counters, as many frames were pushed and popped, and no fewer
/// steps are left.
pub open spec fn stands_for(quiet: MachineView, machine: MachineView) -> bool {
    &&& quiet.stack == quiet_stack(machine.stack)
    &&& quiet.pushed == machine.pushed
    &&& quiet.popped == machine.popped
    &&& quiet.fuel >= machine.fuel
}

/// A turn of the program without breakpoints does what the turn of the
/// program does: it pushes the same frame, or pops a frame and hands the
/// same result to the frame below. A turn that faults, but for the steps
/// that it may take, faults in the same way.
pub proof fn lemma_turn_without_breakpoints(
    program: AssemblyView,
    machine: MachineView,
    outcome: NativeOutcome,
    fuel: nat,
)
    requires
        program.well_formed(),
        machine.stack.len() > 0,
        orderly(machine.stack, program.functions.len()),
        all_poised(machine.stack),
        fuel >= machine.fuel,
    ensures
        match machine.turn(program.functions, outcome) {
            Ok(next) => {
                &&& orderly(next.stack, program.functions.len())
                &&& all_poised(next.stack)
                &&& quiet_machine(machine, fuel).turn(
                    quiet_functions(program.functions),
                    outcome,
                ) matches Ok(quiet_next) && stands_for(quiet_next, next)
            },
            Err(fault) => fault == RuntimeFault::StepLimitExceeded || quiet_machine(
                machine,
                fuel,
            ).turn(quiet_functions(program.functions), outcome) == Err::<
                MachineView,
                RuntimeFault,
            >(fault),
        },
        machine.turn(program.functions, outcome) == Err::<MachineView, RuntimeFault>(
            RuntimeFault::StepLimitExceeded,
        ) || quiet_machine(machine, fuel).turn_events(
            quiet_functions(program.functions),
            outcome,
        ) == mute(machine.turn_events(program.functions, outcome)),
{
    let functions = program.functions;
    let count = functions.len();
    let top = machine.stack.len() - 1;
    let below = machine.stack.drop_last();
    let quiet = quiet_machine(machine, fuel);
    lemma_turn_keeps_order(machine, program, outcome);
    assert(quiet.stack.drop_last() =~= quiet_stack(below));
    assert(quiet.stack.last() == machine.stack.last().without_breakpoints());
    assert(all_poised(below)) by {
        assert forall|i: int| 0 <= i < below.len() implies (#[trigger] below[i]).poised() by {
            assert(machine.stack[i].poised());
        }
    }
    assert(machine.stack[top].fits(count));
    assert(machine.stack[top].poised());
    match machine.stack.last() {
        CallFrameView::Managed(function, frame) => {
            let body = function.body;
            lemma_quiet_function(function, count);
            lemma_run_frame_without_breakpoints(body, frame, machine.fuel);
            lemma_run_frame_with_more_fuel(
                quiet_body(body),
                quiet_frame(body, frame),
                machine.fuel,
                (fuel - machine.fuel) as nat,
            );
            lemma_run_frame_stops_at(body, frame, machine.fuel);
            lemma_run_frame_keeps_locals(body, frame, machine.fuel);
            lemma_frame_events_are_breakpoints(function, frame, machine.fuel);
            lemma_quiet_frame_events(function, quiet_frame(body, frame), fuel);
            let shots = frame_events(function, frame, machine.fuel);
            let tail = machine.turn_events(functions, outcome).skip(shots.len() as int);
            assert(machine.turn_events(functions, outcome) =~= shots + tail);
            lemma_mute_add(shots, tail);
            lemma_mute_plain(tail);
            match run_frame(body, frame, machine.fuel) {
                Ok((at_call, ExecutionStatus::Call(index), left)) => {
                    assert(functions[index as int].well_formed(count));
                    assert(quiet_functions(functions)[index as int] == functions[index as int].without_breakpoints());
                    match machine.turn(functions, outcome) {
                        Ok(next) => {
                            let quiet_next = quiet.turn(quiet_functions(functions), outcome)->Ok_0;
                            assert(quiet_next.stack =~= quiet_stack(next.stack));
                            assert forall|i: int| 0 <= i < next.stack.len() implies (
                            #[trigger] next.stack[i]).poised() by {
                                if i < below.len() {
                                    assert(below[i].poised());
                                }
                            }
                        },
                        Err(_) => {},
                    }
                },
                Ok((last, _, left)) => {
                    lemma_deliver_without_breakpoints(below, return_value(function, last));
                },
                Err(_) => {},
            }
        },
        CallFrameView::Native(callee) => {
            let told = machine.turn_events(functions, outcome);
            lemma_mute_plain(told);
            match machine.turn(functions, outcome) {
                Ok(next) => {
                    let result = if callee.returns {
                        outcome->Returned_0
                    } else {
                        None
                    };
                    lemma_deliver_without_breakpoints(below, result);
                },
                Err(_) => {},
            }
        },
    }
}

/// An execution of the program without breakpoints ends as the execution
/// of the program does. One that faults, but for the steps that it may
/// take, faults in the same way.
pub proof fn lemma_run_without_breakpoints(
    program: AssemblyView,
    machine: MachineView,
    outcomes: Seq<NativeOutcome>,
    fuel: nat,
)
    requires
        program.well_formed(),
        orderly(machine.stack, program.functions.len()),
        all_poised(machine.stack),
        fuel >= machine.fuel,
    ensures
        ({
            let with = machine.run(program.functions, outcomes);
            let without = quiet_machine(machine, fuel).run(
                quiet_functions(program.functions),
                outcomes,
            );
            ||| with.result == Err::<(), RuntimeFault>(RuntimeFault::StepLimitExceeded)
            ||| {
                &&& without.result == with.result
                &&& without.last.pushed == with.last.pushed
                &&& without.last.popped == with.last.popped
                &&& without.last.stack == quiet_stack(with.last.stack)
                &&& quiet_machine(machine, fuel).events(
                    quiet_functions(program.functions),
                    outcomes,
                ) == mute(machine.events(program.functions, outcomes))
            }
        }),
    decreases machine.fuel,
{
    if machine.stack.len() > 0 {
        let native = machine.stack.last() is Native;
        let outcome = if outcomes.len() > 0 {
            outcomes[0]
        } else {
            NativeOutcome::Unknown
        };
        let quiet = quiet_machine(machine, fuel);
        assert(quiet.stack.last() == machine.stack.last().without_breakpoints());
        lemma_turn_without_breakpoints(program, machine, outcome, fuel);
        lemma_turn_uses_fuel(machine, program.functions, outcome);
        match machine.turn(program.functions, outcome) {
            Ok(next) => {
                let quiet_next = quiet.turn(quiet_functions(program.functions), outcome)->Ok_0;
                let rest = if native {
                    outcomes.drop_first()
                } else {
                    outcomes
                };
                lemma_run_without_breakpoints(program, next, rest, quiet_next.fuel);
                assert(quiet_next == quiet_machine(next, quiet_next.fuel));
                lemma_mute_add(
                    machine.turn_events(program.functions, outcome),
                    next.events(program.functions, rest),
                );
            },
            Err(_) => {
                lemma_mute_add(
                    machine.turn_events(program.functions, outcome),
                    Seq::<Event>::empty(),
                );
            },
        }
    }
}

/// Breakpoint transparency: the program without its breakpoints runs as
/// the program does. Where the execution of the program ends well, or with
/// a fault other than the step limit, the execution of the program without
/// breakpoints ends in the same way, after the same frames were pushed and
/// popped; at every turn the frames hold the same operand stacks and the
/// same locals, and the same results are handed back.
pub proof fn lemma_breakpoints_are_transparent(
    program: AssemblyView,
    fuel: nat,
    outcomes: Seq<NativeOutcome>,
)
    requires
        program.runnable(),
    ensures
        program.without_breakpoints().runnable(),
        ({
            let with = MachineView::start(program, fuel).run(program.functions, outcomes);
            let without = MachineView::start(program.without_breakpoints(), fuel).run(
                program.without_breakpoints().functions,
                outcomes,
            );
            ||| with.result == Err::<(), RuntimeFault>(RuntimeFault::StepLimitExceeded)
            ||| {
                &&& without.result == with.result
                &&& without.last.pushed == with.last.pushed
                &&& without.last.popped == with.last.popped
                &&& without.last.stack == quiet_stack(with.last.stack)
                &&& MachineView::start(program.without_breakpoints(), fuel).events(
                    program.without_breakpoints().functions,
                    outcomes,
                ) == mute(MachineView::start(program, fuel).events(program.functions, outcomes))
            }
        }),
{
    let start = MachineView::start(program, fuel);
    let quiet_start = MachineView::start(program.without_breakpoints(), fuel);
    lemma_without_breakpoints_well_formed(program);
    assert(program.functions[program.entry as int].well_formed(program.functions.len()));
    assert(quiet_start.stack =~= quiet_stack(start.stack));
    assert(quiet_start == quiet_machine(start, fuel));
    lemma_run_without_breakpoints(program, start, outcomes, fuel);
}

} // verus!
