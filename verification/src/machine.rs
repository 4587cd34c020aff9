//! What running a program means: the step of a frame, the run of a frame
//! up to its next call or return, and the turns of the call stack.

use vstd::prelude::*;
use super::arith::{combine, Operator};
use super::assembly::{AssemblyView, FuncView, ManagedFuncView, NativeFuncView};
use super::instructions::Inst;

verus! {

/// Why an execution was aborted.
#[derive(Clone, Copy, Debug, PartialEq, Eq, Structural)]
pub enum RuntimeFault {
    /// An instruction or a call needed more operands than the stack held.
    StackUnderflow,
    /// `ldarg` or `starg` named a local slot that the frame does not have.
    LocalIndexOutOfRange,
    /// A division whose divisor was zero.
    DivisionByZero,
    /// The host knows no native function of the called name.
    UnknownNative,
    /// A native function that is declared to return a value gave none.
    NativeNoResult,
    /// The execution took more steps than it was allowed.
    StepLimitExceeded,
}

/// A managed frame as plain values. The last element of `stack` is its top.
pub struct FrameView {
    pub pc: nat,
    pub stack: Seq<u32>,
    pub locals: Seq<u32>,
}

/// What a step of a managed frame leaves for the call stack to do.
#[derive(Clone, Copy, Debug, PartialEq, Eq, Structural)]
pub enum ExecutionStatus {
    /// The frame asks for a call of the function with this index.
    Call(u16),
    /// The function has ended.
    Return,
    /// Nothing: the next instruction can run.
    Normal,
    /// A breakpoint was passed: a snapshot is due, then the next
    /// instruction can run.
    Breakpoint,
}

impl FrameView {
    /// The frame with its program counter on the next instruction.
    pub open spec fn advanced(self) -> FrameView {
        FrameView { pc: self.pc + 1, ..self }
    }

    /// The frame after an arithmetic instruction, which takes the top of
    /// the stack as its left operand and the value below it as its right
    /// operand, and leaves the result in their place.
    pub open spec fn after_binary(self, op: Operator, signed: bool) -> Result<
        FrameView,
        RuntimeFault,
    > {
        let n = self.stack.len() as int;
        if n < 2 {
            Err(RuntimeFault::StackUnderflow)
        } else {
            match combine(op, signed, self.stack[n - 1], self.stack[n - 2]) {
                Some(value) => Ok(
                    FrameView { stack: self.stack.take(n - 2).push(value), ..self },
                ),
                None => Err(RuntimeFault::DivisionByZero),
            }
        }
    }

    /// The step of an arithmetic instruction.
    pub open spec fn binary_step(self, op: Operator, signed: bool) -> Result<
        (FrameView, ExecutionStatus),
        RuntimeFault,
    > {
        match self.after_binary(op, signed) {
            Ok(after) => Ok((after.advanced(), ExecutionStatus::Normal)),
            Err(fault) => Err(fault),
        }
    }
}

/// One step of a managed frame over the body of its function: the frame
/// after the step with what the step asks of the call stack, or the fault
/// that aborts the execution.
///
/// A frame whose program counter is past the last instruction returns.
pub open spec fn step(body: Seq<Inst>, frame: FrameView) -> Result<
    (FrameView, ExecutionStatus),
    RuntimeFault,
> {
    if frame.pc >= body.len() {
        Ok((frame, ExecutionStatus::Return))
    } else {
        let n = frame.stack.len() as int;
        match body[frame.pc as int] {
            Inst::ldarg(index) => if index < frame.locals.len() {
                Ok(
                    (
                        FrameView {
                            stack: frame.stack.push(frame.locals[index as int]),
                            ..frame.advanced()
                        },
                        ExecutionStatus::Normal,
                    ),
                )
            } else {
                Err(RuntimeFault::LocalIndexOutOfRange)
            },
            Inst::starg(index) => if n < 1 {
                Err(RuntimeFault::StackUnderflow)
            } else if index >= frame.locals.len() {
                Err(RuntimeFault::LocalIndexOutOfRange)
            } else {
                Ok(
                    (
                        FrameView {
                            stack: frame.stack.take(n - 1),
                            locals: frame.locals.update(index as int, frame.stack[n - 1]),
                            ..frame.advanced()
                        },
                        ExecutionStatus::Normal,
                    ),
                )
            },
            Inst::jump(target) => Ok(
                (FrameView { pc: target as nat, ..frame }, ExecutionStatus::Normal),
            ),
            Inst::beq(target) => if n < 2 {
                Err(RuntimeFault::StackUnderflow)
            } else {
                let rest = FrameView { stack: frame.stack.take(n - 2), ..frame };
                if frame.stack[n - 1] == frame.stack[n - 2] {
                    Ok((FrameView { pc: target as nat, ..rest }, ExecutionStatus::Normal))
                } else {
                    Ok((rest.advanced(), ExecutionStatus::Normal))
                }
            },
            Inst::call(index) => Ok((frame.advanced(), ExecutionStatus::Call(index))),
            Inst::ret => Ok((frame.advanced(), ExecutionStatus::Return)),
            Inst::breakpoint => Ok((frame.advanced(), ExecutionStatus::Breakpoint)),
            Inst::add_u => frame.binary_step(Operator::Add, false),
            Inst::add_s => frame.binary_step(Operator::Add, true),
            Inst::sub_u => frame.binary_step(Operator::Sub, false),
            Inst::sub_s => frame.binary_step(Operator::Sub, true),
            Inst::mul_u => frame.binary_step(Operator::Mul, false),
            Inst::mul_s => frame.binary_step(Operator::Mul, true),
            Inst::div_u => frame.binary_step(Operator::Div, false),
            Inst::div_s => frame.binary_step(Operator::Div, true),
        }
    }
}

/// The locals that a call of `callee` starts with, when the caller's
/// operand stack is `stack`: argument `i` is the value `i` places below the
/// top of the stack, and the other slots have their default values.
pub open spec fn passed_locals(stack: Seq<u32>, callee: ManagedFuncView) -> Seq<u32> {
    Seq::new(
        callee.default_locals.len(),
        |i: int|
            if i < callee.args {
                stack[stack.len() - 1 - i]
            } else {
                callee.default_locals[i]
            },
    )
}

/// A call of `callee` from the frame `caller`: the caller's frame without
/// the arguments, and the new frame of the callee. With fewer values on the
/// caller's stack than the callee has arguments, the call faults.
pub open spec fn enter(caller: FrameView, callee: ManagedFuncView) -> Result<
    (FrameView, FrameView),
    RuntimeFault,
> {
    if caller.stack.len() < callee.args {
        Err(RuntimeFault::StackUnderflow)
    } else {
        Ok(
            (
                FrameView { stack: caller.stack.take(caller.stack.len() - callee.args), ..caller },
                FrameView {
                    pc: 0,
                    stack: Seq::empty(),
                    locals: passed_locals(caller.stack, callee),
                },
            ),
        )
    }
}

/// An entry of the call stack as plain values.
pub enum CallFrameView {
    Managed(ManagedFuncView, FrameView),
    Native(NativeFuncView),
}

impl CallFrameView {
    pub open spec fn name(self) -> Seq<char> {
        match self {
            CallFrameView::Managed(function, _) => function.name,
            CallFrameView::Native(function) => function.name,
        }
    }

    /// A managed frame runs a well-formed function that calls only
    /// functions of a table of `count` entries, and has as many locals as
    /// that function declares.
    pub open spec fn fits(self, count: nat) -> bool {
        match self {
            CallFrameView::Managed(function, frame) => {
                &&& function.well_formed()
                &&& function.calls_within(count)
                &&& frame.locals.len() == function.default_locals.len()
            },
            CallFrameView::Native(_) => true,
        }
    }
}

/// A call stack as the interpreter keeps it: every frame fits the function
/// table, and only the running frame can be native.
pub open spec fn orderly(stack: Seq<CallFrameView>, count: nat) -> bool {
    &&& forall|i: int| 0 <= i < stack.len() ==> (#[trigger] stack[i]).fits(count)
    &&& forall|i: int| 0 <= i < stack.len() - 1 ==> #[trigger] stack[i] is Managed
}

/// What the host answers to the call of a native function.
#[derive(Clone, Copy, Debug, PartialEq, Eq, Structural)]
pub enum NativeOutcome {
    /// The host has no function of that name.
    Unknown,
    /// The function ran, and returned this.
    Returned(Option<u32>),
}

/// Runs a managed frame for at most `fuel` steps, until a step asks for a
/// call or a return: the frame then, the status of that step, and the fuel
/// that is left. A frame that would need more steps faults.
pub open spec fn run_frame(body: Seq<Inst>, frame: FrameView, fuel: nat) -> Result<
    (FrameView, ExecutionStatus, nat),
    RuntimeFault,
>
    decreases fuel,
{
    if fuel == 0 {
        Err(RuntimeFault::StepLimitExceeded)
    } else {
        match step(body, frame) {
            Err(fault) => Err(fault),
            Ok((next, ExecutionStatus::Normal)) => run_frame(body, next, (fuel - 1) as nat),
            Ok((next, ExecutionStatus::Breakpoint)) => run_frame(body, next, (fuel - 1) as nat),
            Ok((next, status)) => Ok((next, status, (fuel - 1) as nat)),
        }
    }
}

/// What the host is told or asked in the course of an execution.
pub enum Event {
    /// A breakpoint of `function` was passed. The frame then stood at
    /// `program_counter`, with the operand stack `stack`, from its top
    /// down, and with these locals.
    Breakpoint { function: ManagedFuncView, program_counter: nat, stack: Seq<u32>, locals: Seq<u32> },
    /// A frame for `callee` is about to be pushed onto that of `caller`.
    Calling { callee: Seq<char>, caller: Seq<char> },
    /// The frame of `callee` was popped, and `result` handed back.
    Returning { callee: Seq<char>, result: Option<u32> },
    /// The host is asked to run the native function `callee`.
    Native { native: NativeFuncView },
}

/// What a breakpoint shows of the frame that has passed it.
pub open spec fn shot(function: ManagedFuncView, frame: FrameView) -> Event {
    Event::Breakpoint {
        function,
        program_counter: frame.pc,
        stack: frame.stack.reverse(),
        locals: frame.locals,
    }
}

/// What the host is told while a frame runs up to its next call or return:
/// of every breakpoint that is passed, in their order, the frame as it
/// stands behind the breakpoint.
pub open spec fn frame_events(function: ManagedFuncView, frame: FrameView, fuel: nat) -> Seq<
    Event,
>
    decreases fuel,
{
    if fuel == 0 {
        Seq::empty()
    } else {
        match step(function.body, frame) {
            Ok((next, ExecutionStatus::Normal)) => frame_events(function, next, (fuel - 1) as nat),
            Ok((next, ExecutionStatus::Breakpoint)) => seq![shot(function, next)] + frame_events(
                function,
                next,
                (fuel - 1) as nat,
            ),
            _ => Seq::empty(),
        }
    }
}

/// Argument order: where `a` and then `b` are pushed and a function of two
/// arguments is called, the callee starts with `b` in its local 0 and `a`
/// in its local 1; its other locals have their default values, and the
/// caller's operand stack is left without the two.
pub proof fn lemma_argument_order(caller: FrameView, callee: ManagedFuncView, a: u32, b: u32)
    requires
        callee.args == 2,
        callee.default_locals.len() >= 2,
    ensures
        enter(FrameView { stack: caller.stack.push(a).push(b), ..caller }, callee) matches Ok(
            (rest, frame),
        ) && {
            &&& frame.locals.len() == callee.default_locals.len()
            &&& frame.locals[0] == b
            &&& frame.locals[1] == a
            &&& forall|i: int| 2 <= i < frame.locals.len() ==> frame.locals[i] == callee.default_locals[i]
            &&& frame.stack.len() == 0
            &&& frame.pc == 0
            &&& rest == caller
        },
{
    let pushed = FrameView { stack: caller.stack.push(a).push(b), ..caller };
    assert(pushed.stack.take(pushed.stack.len() - 2) =~= caller.stack);
}

/// The frame that a call of the function `index` of `functions` pushes,
/// with the caller's frame after the call.
pub open spec fn call_frame(functions: Seq<FuncView>, caller: FrameView, index: u16) -> Result<
    (FrameView, CallFrameView),
    RuntimeFault,
> {
    match functions[index as int] {
        FuncView::Managed(callee) => match enter(caller, callee) {
            Ok((rest, frame)) => Ok((rest, CallFrameView::Managed(callee, frame))),
            Err(fault) => Err(fault),
        },
        FuncView::Native(callee) => Ok((caller, CallFrameView::Native(callee))),
    }
}

/// Runs a managed frame until it calls or returns: the frame then, the
/// frame to push for a call or `None` for a return, and the fuel left.
pub open spec fn run_until_call(
    functions: Seq<FuncView>,
    body: Seq<Inst>,
    frame: FrameView,
    fuel: nat,
) -> Result<(FrameView, Option<CallFrameView>, nat), RuntimeFault> {
    match run_frame(body, frame, fuel) {
        Err(fault) => Err(fault),
        Ok((at_call, ExecutionStatus::Call(index), left)) => match call_frame(
            functions,
            at_call,
            index,
        ) {
            Ok((rest, pushed)) => Ok((rest, Some(pushed), left)),
            Err(fault) => Err(fault),
        },
        Ok((at_return, _, left)) => Ok((at_return, None, left)),
    }
}

/// A step keeps the number of locals of the frame.
pub proof fn lemma_step_keeps_locals(body: Seq<Inst>, frame: FrameView)
    ensures
        step(body, frame) matches Ok((next, _)) ==> next.locals.len() == frame.locals.len(),
{
}

/// A run keeps the number of locals of the frame, and uses fuel.
pub proof fn lemma_run_frame_keeps_locals(body: Seq<Inst>, frame: FrameView, fuel: nat)
    ensures
        run_frame(body, frame, fuel) matches Ok((last, status, left)) ==> {
            &&& last.locals.len() == frame.locals.len()
            &&& left < fuel
            &&& status is Call || status is Return
        },
    decreases fuel,
{
    if fuel > 0 {
        lemma_step_keeps_locals(body, frame);
        match step(body, frame) {
            Ok((next, ExecutionStatus::Normal)) => {
                lemma_run_frame_keeps_locals(body, next, (fuel - 1) as nat);
            },
            Ok((next, ExecutionStatus::Breakpoint)) => {
                lemma_run_frame_keeps_locals(body, next, (fuel - 1) as nat);
            },
            _ => {},
        }
    }
}

/// What a managed function hands back when it returns: the value of the
/// local slot after its arguments, where it is declared to return one.
pub open spec fn return_value(function: ManagedFuncView, frame: FrameView) -> Option<u32> {
    if function.returns {
        Some(frame.locals[function.args as int])
    } else {
        None
    }
}

/// The call stack after `result` was handed to its running frame: a value
/// is pushed onto the operand stack of a managed frame; without a value,
/// or without such a frame, nothing changes.
pub open spec fn deliver(stack: Seq<CallFrameView>, result: Option<u32>) -> Seq<CallFrameView> {
    match result {
        Some(value) => if stack.len() > 0 {
            match stack.last() {
                CallFrameView::Managed(function, frame) => stack.update(
                    stack.len() - 1,
                    CallFrameView::Managed(
                        function,
                        FrameView { stack: frame.stack.push(value), ..frame },
                    ),
                ),
                CallFrameView::Native(_) => stack,
            }
        } else {
            stack
        },
        None => stack,
    }
}

/// What the call of a native function hands back, given the host's answer:
/// a fault where the host does not know the function, or where the function
/// is declared to return a value and gave none.
pub open spec fn native_result(callee: NativeFuncView, outcome: NativeOutcome) -> Result<
    Option<u32>,
    RuntimeFault,
> {
    match outcome {
        NativeOutcome::Unknown => Err(RuntimeFault::UnknownNative),
        NativeOutcome::Returned(value) => if callee.returns {
            match value {
                Some(v) => Ok(Some(v)),
                None => Err(RuntimeFault::NativeNoResult),
            }
        } else {
            Ok(None)
        },
    }
}

/// The state of an execution as plain values.
pub struct MachineView {
    /// The call stack; its last element is the running frame.
    pub stack: Seq<CallFrameView>,
    /// The number of steps that the execution may still take.
    pub fuel: nat,
    /// The number of frames that were pushed so far, the first included.
    pub pushed: nat,
    /// The number of frames that were popped so far.
    pub popped: nat,
}

/// How an execution ended, and the state it ended in.
pub struct Outcome {
    pub result: Result<(), RuntimeFault>,
    pub last: MachineView,
}

impl MachineView {
    /// The state in which the execution of `program` starts: one frame for
    /// the entry function, at its first instruction, with its default
    /// locals and an empty operand stack.
    pub open spec fn start(program: AssemblyView, fuel: nat) -> MachineView {
        let entry = program.functions[program.entry as int]->Managed_0;
        MachineView {
            stack: seq![
                CallFrameView::Managed(
                    entry,
                    FrameView { pc: 0, stack: Seq::empty(), locals: entry.default_locals },
                ),
            ],
            fuel,
            pushed: 1,
            popped: 0,
        }
    }

    /// As many frames are on the call stack as were pushed and not popped.
    pub open spec fn balanced(self) -> bool {
        self.pushed == self.popped + self.stack.len()
    }

    /// One turn of the execution. A managed frame on top runs until it
    /// calls, and the frame of the callee is pushed, or until it returns,
    /// and its frame is popped and its result handed to the frame below. A
    /// native frame on top is popped and the host's answer `outcome` is
    /// handed to the frame below; this takes one step.
    pub open spec fn turn(self, functions: Seq<FuncView>, outcome: NativeOutcome) -> Result<
        MachineView,
        RuntimeFault,
    >
        recommends
            self.stack.len() > 0,
    {
        let below = self.stack.drop_last();
        match self.stack.last() {
            CallFrameView::Managed(function, frame) => match run_until_call(
                functions,
                function.body,
                frame,
                self.fuel,
            ) {
                Err(fault) => Err(fault),
                Ok((caller, Some(callee), left)) => Ok(
                    MachineView {
                        stack: below.push(CallFrameView::Managed(function, caller)).push(callee),
                        fuel: left,
                        pushed: self.pushed + 1,
                        popped: self.popped,
                    },
                ),
                Ok((last, None, left)) => Ok(
                    MachineView {
                        stack: deliver(below, return_value(function, last)),
                        fuel: left,
                        pushed: self.pushed,
                        popped: self.popped + 1,
                    },
                ),
            },
            CallFrameView::Native(callee) => if self.fuel == 0 {
                Err(RuntimeFault::StepLimitExceeded)
            } else {
                match native_result(callee, outcome) {
                    Err(fault) => Err(fault),
                    Ok(result) => Ok(
                        MachineView {
                            stack: deliver(below, result),
                            fuel: (self.fuel - 1) as nat,
                            pushed: self.pushed,
                            popped: self.popped + 1,
                        },
                    ),
                }
            },
        }
    }

    /// What the host is told and asked in a turn: of the breakpoints that
    /// the running frame passes, then of the call or the return that ends
    /// the turn. For a native frame it is asked to run the function, and
    /// told of the return where that gave what the function declares.
    pub open spec fn turn_events(self, functions: Seq<FuncView>, outcome: NativeOutcome) -> Seq<
        Event,
    >
        recommends
            self.stack.len() > 0,
    {
        match self.stack.last() {
            CallFrameView::Managed(function, frame) => frame_events(function, frame, self.fuel)
                + match run_until_call(functions, function.body, frame, self.fuel) {
                Err(_) => Seq::empty(),
                Ok((_, Some(callee), _)) => seq![
                    Event::Calling { callee: callee.name(), caller: function.name },
                ],
                Ok((last, None, _)) => seq![
                    Event::Returning {
                        callee: function.name,
                        result: return_value(function, last),
                    },
                ],
            },
            CallFrameView::Native(callee) => if self.fuel == 0 {
                Seq::empty()
            } else {
                seq![Event::Native { native: callee }] + match native_result(callee, outcome) {
                    Err(_) => Seq::empty(),
                    Ok(result) => seq![Event::Returning { callee: callee.name, result }],
                }
            },
        }
    }

    /// What the host is told and asked in the execution from this state
    /// on, where the native calls are answered by `outcomes` in turn.
    pub open spec fn events(self, functions: Seq<FuncView>, outcomes: Seq<NativeOutcome>) -> Seq<
        Event,
    >
        decreases self.fuel,
    {
        if self.stack.len() == 0 {
            Seq::empty()
        } else {
            let native = self.stack.last() is Native;
            let outcome = if outcomes.len() > 0 {
                outcomes[0]
            } else {
                NativeOutcome::Unknown
            };
            self.turn_events(functions, outcome) + match self.turn(functions, outcome) {
                Err(_) => Seq::empty(),
                Ok(next) => {
                    proof {
                        lemma_turn_uses_fuel(self, functions, outcome);
                    }
                    next.events(
                        functions,
                        if native {
                            outcomes.drop_first()
                        } else {
                            outcomes
                        },
                    )
                },
            }
        }
    }

    /// The execution from this state on, where the native calls are
    /// answered by `outcomes` in turn (a call past their end counts as
    /// unknown): it ends well when the call stack is empty, and with the
    /// fault of the first turn that faults.
    pub open spec fn run(self, functions: Seq<FuncView>, outcomes: Seq<NativeOutcome>) -> Outcome
        decreases self.fuel,
    {
        if self.stack.len() == 0 {
            Outcome { result: Ok(()), last: self }
        } else {
            let native = self.stack.last() is Native;
            let outcome = if outcomes.len() > 0 {
                outcomes[0]
            } else {
                NativeOutcome::Unknown
            };
            match self.turn(functions, outcome) {
                Err(fault) => Outcome { result: Err(fault), last: self },
                Ok(next) => {
                    proof {
                        lemma_turn_uses_fuel(self, functions, outcome);
                    }
                    next.run(
                        functions,
                        if native {
                            outcomes.drop_first()
                        } else {
                            outcomes
                        },
                    )
                },
            }
        }
    }
}

/// Every turn takes at least one step.
pub proof fn lemma_turn_uses_fuel(
    machine: MachineView,
    functions: Seq<FuncView>,
    outcome: NativeOutcome,
)
    ensures
        machine.turn(functions, outcome) matches Ok(next) ==> next.fuel < machine.fuel,
{
    match machine.stack.last() {
        CallFrameView::Managed(function, frame) => {
            lemma_run_frame_keeps_locals(function.body, frame, machine.fuel);
        },
        CallFrameView::Native(_) => {},
    }
}

/// A turn from an orderly call stack over a well-formed program leaves an
/// orderly call stack, and pushes or pops exactly one frame.
pub proof fn lemma_turn_keeps_order(
    machine: MachineView,
    program: AssemblyView,
    outcome: NativeOutcome,
)
    requires
        program.well_formed(),
        machine.stack.len() > 0,
        orderly(machine.stack, program.functions.len()),
    ensures
        machine.turn(program.functions, outcome) matches Ok(next) ==> {
            &&& orderly(next.stack, program.functions.len())
            &&& next.pushed + next.popped == machine.pushed + machine.popped + 1
            &&& machine.balanced() ==> next.balanced()
        },
{
    let count = program.functions.len();
    let below = machine.stack.drop_last();
    assert(orderly(below, count));
    match machine.stack.last() {
        CallFrameView::Managed(function, frame) => {
            assert(machine.stack[machine.stack.len() - 1].fits(count));
            lemma_run_frame_keeps_locals(function.body, frame, machine.fuel);
            match run_frame(function.body, frame, machine.fuel) {
                Ok((at_call, ExecutionStatus::Call(index), left)) => {
                    lemma_run_frame_stops_at(function.body, frame, machine.fuel);
                    assert(program.functions[index as int].well_formed(count));
                },
                _ => {},
            }
        },
        CallFrameView::Native(_) => {},
    }
}

/// A run that stops for a call stops just behind a call instruction.
pub proof fn lemma_run_frame_stops_at(body: Seq<Inst>, frame: FrameView, fuel: nat)
    ensures
        run_frame(body, frame, fuel) matches Ok((last, ExecutionStatus::Call(index), _)) ==> {
            &&& 0 < last.pc <= body.len()
            &&& body[last.pc - 1] == Inst::call(index)
        },
    decreases fuel,
{
    if fuel > 0 {
        match step(body, frame) {
            Ok((next, ExecutionStatus::Normal)) => {
                lemma_run_frame_stops_at(body, next, (fuel - 1) as nat);
            },
            Ok((next, ExecutionStatus::Breakpoint)) => {
                lemma_run_frame_stops_at(body, next, (fuel - 1) as nat);
            },
            _ => {},
        }
    }
}

/// Call-stack balance: an execution that starts with as many frames on the
/// call stack as were pushed and not popped ends in such a state, and one
/// that ends well ends with an empty call stack, after as many frames were
/// popped as were pushed.
pub proof fn lemma_call_stack_balance(
    machine: MachineView,
    functions: Seq<FuncView>,
    outcomes: Seq<NativeOutcome>,
)
    requires
        machine.balanced(),
    ensures
        machine.run(functions, outcomes).last.balanced(),
        machine.run(functions, outcomes).result is Ok ==> {
            &&& machine.run(functions, outcomes).last.stack.len() == 0
            &&& machine.run(functions, outcomes).last.pushed == machine.run(
                functions,
                outcomes,
            ).last.popped
        },
    decreases machine.fuel,
{
    if machine.stack.len() > 0 {
        let native = machine.stack.last() is Native;
        let outcome = if outcomes.len() > 0 {
            outcomes[0]
        } else {
            NativeOutcome::Unknown
        };
        match machine.turn(functions, outcome) {
            Err(_) => {},
            Ok(next) => {
                lemma_turn_uses_fuel(machine, functions, outcome);
                lemma_call_stack_balance(
                    next,
                    functions,
                    if native {
                        outcomes.drop_first()
                    } else {
                        outcomes
                    },
                );
            },
        }
    }
}

/// The answer that a turn works with: the host's, where it was asked, and
/// `Unknown` otherwise.
pub open spec fn answer(asked: Option<NativeOutcome>) -> NativeOutcome {
    match asked {
        Some(outcome) => outcome,
        None => NativeOutcome::Unknown,
    }
}

/// The answers that a turn took from the host.
pub open spec fn answers(asked: Option<NativeOutcome>) -> Seq<NativeOutcome> {
    match asked {
        Some(outcome) => seq![outcome],
        None => Seq::empty(),
    }
}

/// An execution is its first turn, followed by the execution from the
/// state that the turn leaves.
pub proof fn lemma_run_after_turn(
    machine: MachineView,
    functions: Seq<FuncView>,
    asked: Option<NativeOutcome>,
    rest: Seq<NativeOutcome>,
)
    requires
        machine.stack.len() > 0,
        asked is Some ==> machine.stack.last() is Native,
        asked is None ==> machine.stack.last() is Managed || machine.fuel == 0,
    ensures
        machine.run(functions, answers(asked) + rest) == (match machine.turn(
            functions,
            answer(asked),
        ) {
            Err(fault) => Outcome { result: Err(fault), last: machine },
            Ok(next) => next.run(functions, rest),
        }),
        machine.events(functions, answers(asked) + rest) == machine.turn_events(
            functions,
            answer(asked),
        ) + (match machine.turn(functions, answer(asked)) {
            Err(fault) => Seq::empty(),
            Ok(next) => next.events(functions, rest),
        }),
{
    let outcomes = answers(asked) + rest;
    let outcome = if outcomes.len() > 0 {
        outcomes[0]
    } else {
        NativeOutcome::Unknown
    };
    assert(machine.turn(functions, outcome) == machine.turn(functions, answer(asked)));
    assert(machine.turn_events(functions, outcome) == machine.turn_events(
        functions,
        answer(asked),
    ));
    match asked {
        Some(_) => {
            assert(outcomes.drop_first() =~= rest);
        },
        None => {
            assert(outcomes =~= rest);
        },
    }
}

/// A run that ends within its fuel ends in the same way with more fuel,
/// and has that much more fuel left.
pub proof fn lemma_run_frame_with_more_fuel(
    body: Seq<Inst>,
    frame: FrameView,
    fuel: nat,
    more: nat,
)
    ensures
        match run_frame(body, frame, fuel) {
            Ok((last, status, left)) => run_frame(body, frame, fuel + more) == Ok::<
                (FrameView, ExecutionStatus, nat),
                RuntimeFault,
            >((last, status, left + more)),
            Err(fault) => fault == RuntimeFault::StepLimitExceeded || run_frame(
                body,
                frame,
                fuel + more,
            ) == Err::<(FrameView, ExecutionStatus, nat), RuntimeFault>(fault),
        },
    decreases fuel,
{
    if fuel > 0 {
        match step(body, frame) {
            Ok((next, ExecutionStatus::Normal)) => {
                lemma_run_frame_with_more_fuel(body, next, (fuel - 1) as nat, more);
            },
            Ok((next, ExecutionStatus::Breakpoint)) => {
                lemma_run_frame_with_more_fuel(body, next, (fuel - 1) as nat, more);
            },
            _ => {},
        }
    }
}

/// While a frame runs within its fuel, the host is told the same with
/// more fuel.
pub proof fn lemma_frame_events_with_more_fuel(
    function: ManagedFuncView,
    frame: FrameView,
    fuel: nat,
    more: nat,
)
    ensures
        run_frame(function.body, frame, fuel) == Err::<
            (FrameView, ExecutionStatus, nat),
            RuntimeFault,
        >(RuntimeFault::StepLimitExceeded) || frame_events(function, frame, fuel + more)
            == frame_events(function, frame, fuel),
    decreases fuel,
{
    if fuel > 0 {
        match step(function.body, frame) {
            Ok((next, ExecutionStatus::Normal)) => {
                lemma_frame_events_with_more_fuel(function, next, (fuel - 1) as nat, more);
            },
            Ok((next, ExecutionStatus::Breakpoint)) => {
                lemma_frame_events_with_more_fuel(function, next, (fuel - 1) as nat, more);
            },
            _ => {},
        }
    }
}

impl MachineView {
    /// The state with `more` steps to take in addition.
    pub open spec fn refuelled(self, more: nat) -> MachineView {
        MachineView { fuel: self.fuel + more, ..self }
    }
}

/// A turn that is taken within the steps that are left is the same turn
/// with more steps, and leaves that many more.
pub proof fn lemma_turn_with_more_fuel(
    machine: MachineView,
    functions: Seq<FuncView>,
    outcome: NativeOutcome,
    more: nat,
)
    requires
        machine.stack.len() > 0,
    ensures
        match machine.turn(functions, outcome) {
            Ok(next) => machine.refuelled(more).turn(functions, outcome) == Ok::<
                MachineView,
                RuntimeFault,
            >(next.refuelled(more)),
            Err(fault) => fault == RuntimeFault::StepLimitExceeded || machine.refuelled(
                more,
            ).turn(functions, outcome) == Err::<MachineView, RuntimeFault>(fault),
        },
        machine.turn(functions, outcome) == Err::<MachineView, RuntimeFault>(
            RuntimeFault::StepLimitExceeded,
        ) || machine.refuelled(more).turn_events(functions, outcome) == machine.turn_events(
            functions,
            outcome,
        ),
{
    match machine.stack.last() {
        CallFrameView::Managed(function, frame) => {
            lemma_run_frame_with_more_fuel(function.body, frame, machine.fuel, more);
            lemma_frame_events_with_more_fuel(function, frame, machine.fuel, more);
        },
        CallFrameView::Native(_) => {},
    }
}

/// The step limit changes nothing but where an execution is cut short: an
/// execution that ends within its steps, well or with a fault, ends in the
/// same way with more steps, after the host was told and asked the same.
pub proof fn lemma_run_with_more_fuel(
    machine: MachineView,
    functions: Seq<FuncView>,
    outcomes: Seq<NativeOutcome>,
    more: nat,
)
    ensures
        ({
            let short = machine.run(functions, outcomes);
            let long = machine.refuelled(more).run(functions, outcomes);
            ||| short.result == Err::<(), RuntimeFault>(RuntimeFault::StepLimitExceeded)
            ||| {
                &&& long.result == short.result
                &&& long.last == short.last.refuelled(more)
                &&& machine.refuelled(more).events(functions, outcomes) == machine.events(
                    functions,
                    outcomes,
                )
            }
        }),
    decreases machine.fuel,
{
    if machine.stack.len() > 0 {
        let native = machine.stack.last() is Native;
        let outcome = if outcomes.len() > 0 {
            outcomes[0]
        } else {
            NativeOutcome::Unknown
        };
        lemma_turn_with_more_fuel(machine, functions, outcome, more);
        lemma_turn_uses_fuel(machine, functions, outcome);
        match machine.turn(functions, outcome) {
            Ok(next) => {
                lemma_run_with_more_fuel(
                    next,
                    functions,
                    if native {
                        outcomes.drop_first()
                    } else {
                        outcomes
                    },
                    more,
                );
            },
            Err(_) => {},
        }
    }
}

} // verus!
