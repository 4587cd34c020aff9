//! The interpreter: call frames, the step function of a managed frame, and
//! the loop that runs a program on an explicit call stack.

use vstd::prelude::*;
use super::arith::{apply, Operator};
use super::assembly::{
    Assembly, AssemblyView, FuncDef, FuncView, ManagedFuncDef, NativeFuncDef,
};
use super::instructions::Inst;
use super::machine::{
    answer, answers, deliver, enter, frame_events, lemma_run_after_turn,
    lemma_run_frame_keeps_locals, lemma_turn_keeps_order, lemma_turn_uses_fuel, native_result,
    orderly, passed_locals, return_value, run_frame, run_until_call, shot, step,
    CallFrameView, Event, ExecutionStatus, FrameView, MachineView, NativeOutcome, RuntimeFault,
};

verus! {

/// The state of one running managed function.
pub struct ManagedCallFrame {
    pub program_counter: u32,
    pub stack: Vec<u32>,
    pub locals: Vec<u32>,
}

impl View for ManagedCallFrame {
    type V = FrameView;

    open spec fn view(&self) -> FrameView {
        FrameView { pc: self.program_counter as nat, stack: self.stack@, locals: self.locals@ }
    }
}

/// What a breakpoint shows of a frame: where it stands, its operand stack
/// from the top down, and its locals.
pub struct Snapshot {
    pub program_counter: u32,
    pub stack: Vec<u32>,
    pub locals: Vec<u32>,
}

impl ManagedCallFrame {
    /// A frame at the start of `def`, with a copy of its default locals.
    pub fn by_func(def: &ManagedFuncDef) -> (frame: ManagedCallFrame)
        ensures
            frame@ == (FrameView { pc: 0, stack: Seq::empty(), locals: def.default_locals@ }),
    {
        ManagedCallFrame::with_locals(def.default_locals.clone())
    }

    /// A frame at the start of a function, with the given locals and an
    /// empty operand stack.
    pub fn with_locals(locals: Vec<u32>) -> (frame: ManagedCallFrame)
        ensures
            frame@ == (FrameView { pc: 0, stack: Seq::empty(), locals: locals@ }),
    {
        ManagedCallFrame { program_counter: 0, stack: Vec::new(), locals }
    }

    /// The frame of a call of `callee` from this frame.
    ///
    /// The arguments leave the caller's stack from its top: the value on
    /// top becomes argument 0, the one below it argument 1, and so on. With
    /// fewer values on the stack than `callee` has arguments the call
    /// faults, and the caller's frame is left as it was.
    pub fn create_frame_for_callee(&mut self, callee: &ManagedFuncDef) -> (r: Result<
        ManagedCallFrame,
        RuntimeFault,
    >)
        requires
            callee.default_locals@.len() >= callee.args,
        ensures
            match r {
                Ok(frame) => enter(old(self)@, callee@) == Ok::<
                    (FrameView, FrameView),
                    RuntimeFault,
                >((final(self)@, frame@)),
                Err(fault) => enter(old(self)@, callee@) == Err::<
                    (FrameView, FrameView),
                    RuntimeFault,
                >(fault) && *final(self) == *old(self),
            },
    {
        let args = callee.args as usize;
        let n = self.stack.len();
        if n < args {
            return Err(RuntimeFault::StackUnderflow);
        }
        let mut locals = callee.default_locals.clone();
        let mut idx: usize = 0;
        while idx < args
            invariant
                idx <= args <= n,
                args <= locals@.len(),
                n == old(self).stack@.len(),
                locals@.len() == callee.default_locals@.len(),
                self.stack@ == old(self).stack@.take(n - idx),
                self.program_counter == old(self).program_counter,
                self.locals == old(self).locals,
                forall|j: int| 0 <= j < idx ==> locals@[j] == old(self).stack@[n - 1 - j],
                forall|j: int| idx <= j < locals@.len() ==> locals@[j] == callee.default_locals@[j],
            decreases args - idx,
        {
            let value = self.stack[n - idx - 1];
            self.stack.truncate(n - idx - 1);
            locals[idx] = value;
            idx += 1;
            assert(self.stack@ =~= old(self).stack@.take(n - idx));
        }
        let frame = ManagedCallFrame::with_locals(locals);
        assert(frame@.locals =~= passed_locals(old(self)@.stack, callee@));
        Ok(frame)
    }

    /// What a breakpoint shows of the frame.
    pub fn snapshot(&self) -> (shot: Snapshot)
        ensures
            shot.program_counter == self.program_counter,
            shot.stack@ == self.stack@.reverse(),
            shot.locals@ == self.locals@,
    {
        let mut stack: Vec<u32> = Vec::new();
        let n = self.stack.len();
        let mut i: usize = 0;
        while i < n
            invariant
                i <= n,
                n == self.stack@.len(),
                stack@.len() == i,
                forall|j: int| 0 <= j < i ==> stack@[j] == self.stack@[n - 1 - j],
            decreases n - i,
        {
            stack.push(self.stack[n - 1 - i]);
            i += 1;
        }
        assert(stack@ =~= self.stack@.reverse());
        Snapshot { program_counter: self.program_counter, stack, locals: self.locals.clone() }
    }
}

/// Runs an arithmetic instruction on the frame: takes the left operand from
/// the top of the stack and the right operand from below it, and pushes the
/// result. On a fault the frame is left as it was.
pub fn binary(frame: &mut ManagedCallFrame, op: Operator, signed: bool) -> (r: Result<
    (),
    RuntimeFault,
>)
    ensures
        match r {
            Ok(()) => old(frame)@.after_binary(op, signed) == Ok::<FrameView, RuntimeFault>(
                final(frame)@,
            ),
            Err(fault) => old(frame)@.after_binary(op, signed) == Err::<FrameView, RuntimeFault>(
                fault,
            ) && *final(frame) == *old(frame),
        },
{
    let n = frame.stack.len();
    if n < 2 {
        return Err(RuntimeFault::StackUnderflow);
    }
    let value2 = frame.stack[n - 1];
    let value1 = frame.stack[n - 2];
    match apply(op, signed, value2, value1) {
        Some(result) => {
            frame.stack.truncate(n - 2);
            frame.stack.push(result);
            assert(frame.stack@ =~= old(frame).stack@.take(n - 2).push(result));
            Ok(())
        },
        None => Err(RuntimeFault::DivisionByZero),
    }
}

/// Runs one instruction of `function` on `frame`.
///
/// On a fault the frame is left as it was.
pub fn step_managed(function: &ManagedFuncDef, frame: &mut ManagedCallFrame) -> (r: Result<
    ExecutionStatus,
    RuntimeFault,
>)
    requires
        function.body@.len() <= u32::MAX,
    ensures
        match r {
            Ok(status) => step(function.body@, old(frame)@) == Ok::<
                (FrameView, ExecutionStatus),
                RuntimeFault,
            >((final(frame)@, status)),
            Err(fault) => step(function.body@, old(frame)@) == Err::<
                (FrameView, ExecutionStatus),
                RuntimeFault,
            >(fault) && *final(frame) == *old(frame),
        },
{
    if frame.program_counter as usize >= function.body.len() {
        return Ok(ExecutionStatus::Return);
    }
    let n = frame.stack.len();
    let done = match function.body[frame.program_counter as usize] {
        Inst::add_u => binary(frame, Operator::Add, false),
        Inst::add_s => binary(frame, Operator::Add, true),
        Inst::sub_u => binary(frame, Operator::Sub, false),
        Inst::sub_s => binary(frame, Operator::Sub, true),
        Inst::mul_u => binary(frame, Operator::Mul, false),
        Inst::mul_s => binary(frame, Operator::Mul, true),
        Inst::div_u => binary(frame, Operator::Div, false),
        Inst::div_s => binary(frame, Operator::Div, true),
        Inst::jump(target) => {
            frame.program_counter = target;
            return Ok(ExecutionStatus::Normal);
        },
        Inst::beq(target) => {
            if n < 2 {
                return Err(RuntimeFault::StackUnderflow);
            }
            let value2 = frame.stack[n - 1];
            let value1 = frame.stack[n - 2];
            frame.stack.truncate(n - 2);
            assert(frame.stack@ =~= old(frame).stack@.take(n - 2));
            if value1 == value2 {
                frame.program_counter = target;
                return Ok(ExecutionStatus::Normal);
            }
            Ok(())
        },
        Inst::ldarg(index) => {
            if index as usize >= frame.locals.len() {
                return Err(RuntimeFault::LocalIndexOutOfRange);
            }
            let value = frame.locals[index as usize];
            frame.stack.push(value);
            Ok(())
        },
        Inst::starg(index) => {
            if n < 1 {
                return Err(RuntimeFault::StackUnderflow);
            }
            if index as usize >= frame.locals.len() {
                return Err(RuntimeFault::LocalIndexOutOfRange);
            }
            let value = frame.stack[n - 1];
            frame.stack.truncate(n - 1);
            frame.locals[index as usize] = value;
            assert(frame.stack@ =~= old(frame).stack@.take(n - 1));
            Ok(())
        },
        Inst::call(index) => {
            frame.program_counter += 1;
            return Ok(ExecutionStatus::Call(index));
        },
        Inst::ret => {
            frame.program_counter += 1;
            return Ok(ExecutionStatus::Return);
        },
        Inst::breakpoint => {
            frame.program_counter += 1;
            return Ok(ExecutionStatus::Breakpoint);
        },
    };
    match done {
        Ok(()) => {
            frame.program_counter += 1;
            Ok(ExecutionStatus::Normal)
        },
        Err(fault) => Err(fault),
    }
}

/// One entry of the call stack.
pub enum CallFrame<'a> {
    /// A running managed function and the state it runs in.
    Managed(&'a ManagedFuncDef, ManagedCallFrame),
    /// A native function that was called and has not run yet.
    Native(&'a NativeFuncDef),
}

impl<'a> View for CallFrame<'a> {
    type V = CallFrameView;

    open spec fn view(&self) -> CallFrameView {
        match self {
            CallFrame::Managed(function, frame) => CallFrameView::Managed(function@, frame@),
            CallFrame::Native(function) => CallFrameView::Native(function@),
        }
    }
}

impl<'a> CallFrame<'a> {
    /// The name of the function that the frame belongs to.
    pub fn name(&self) -> (s: &'a str)
        ensures
            s@ == self@.name(),
    {
        match self {
            CallFrame::Managed(function, _) => function.name.as_str(),
            CallFrame::Native(function) => function.name.as_str(),
        }
    }
}

/// The call stack as plain values; its last element is the running frame.
pub open spec fn frames(stack: Seq<CallFrame>) -> Seq<CallFrameView> {
    stack.map_values(|frame: CallFrame| frame@)
}

/// What embeds the interpreter: it runs the native functions and receives
/// the diagnostics. Nothing that a diagnostic method does reaches back into
/// the execution.
pub trait Host {
    /// Runs the native function that `callee` declares, found by its name.
    fn call_native(&mut self, callee: &NativeFuncDef) -> NativeOutcome;

    /// Told before the frame of `callee` is pushed onto that of `caller`.
    fn calling(&mut self, callee: &str, caller: &str);

    /// Told after the frame of `callee` was popped.
    fn returning(&mut self, callee: &str, result: Option<u32>);

    /// Told after a breakpoint instruction of `function` was passed.
    fn breakpoint(&mut self, function: &ManagedFuncDef, snapshot: &Snapshot);
}

/// A host that knows no native function and drops what it is told.
pub struct Silent;

impl Host for Silent {
    fn call_native(&mut self, callee: &NativeFuncDef) -> (outcome: NativeOutcome)
        ensures
            outcome == NativeOutcome::Unknown,
    {
        NativeOutcome::Unknown
    }

    fn calling(&mut self, callee: &str, caller: &str) {
    }

    fn returning(&mut self, callee: &str, result: Option<u32>) {
    }

    fn breakpoint(&mut self, function: &ManagedFuncDef, snapshot: &Snapshot) {
    }
}

/// A host with the record of what it was told and asked. The record is
/// ghost: it is there for the contracts of the interpreter, and takes no
/// space and no time when a program runs.
pub struct Audited<H> {
    host: H,
    record: Ghost<Seq<Event>>,
}

impl<H: Host> Audited<H> {
    /// What the host was told and asked so far, in that order.
    pub closed spec fn record(&self) -> Seq<Event> {
        self.record@
    }

    /// The host.
    pub closed spec fn inner(&self) -> H {
        self.host
    }

    pub fn new(host: H) -> (audited: Audited<H>)
        ensures
            audited.inner() == host,
            audited.record() == Seq::<Event>::empty(),
    {
        Audited { host, record: Ghost(Seq::empty()) }
    }

    pub fn host(&self) -> (host: &H)
        ensures
            *host == self.inner(),
    {
        &self.host
    }

    pub fn into_host(self) -> (host: H)
        ensures
            host == self.inner(),
    {
        self.host
    }

    /// Asks the host to run a native function.
    pub fn call_native(&mut self, callee: &NativeFuncDef) -> (outcome: NativeOutcome)
        ensures
            final(self).record() == old(self).record().push(Event::Native { native: callee@ }),
    {
        self.record = Ghost(self.record@.push(Event::Native { native: callee@ }));
        self.host.call_native(callee)
    }

    /// Tells the host of a call.
    pub fn calling(&mut self, callee: &str, caller: &str)
        ensures
            final(self).record() == old(self).record().push(
                Event::Calling { callee: callee@, caller: caller@ },
            ),
    {
        self.record = Ghost(
            self.record@.push(Event::Calling { callee: callee@, caller: caller@ }),
        );
        self.host.calling(callee, caller)
    }

    /// Tells the host of a return.
    pub fn returning(&mut self, callee: &str, result: Option<u32>)
        ensures
            final(self).record() == old(self).record().push(
                Event::Returning { callee: callee@, result },
            ),
    {
        self.record = Ghost(self.record@.push(Event::Returning { callee: callee@, result }));
        self.host.returning(callee, result)
    }

    /// Tells the host of a breakpoint that `frame` has passed.
    pub fn breakpoint(&mut self, function: &ManagedFuncDef, frame: &ManagedCallFrame)
        ensures
            final(self).record() == old(self).record().push(shot(function@, frame@)),
    {
        let snapshot = frame.snapshot();
        self.record = Ghost(self.record@.push(shot(function@, frame@)));
        self.host.breakpoint(function, &snapshot)
    }
}

/// Runs the frame of `callee` until it calls another function or returns,
/// for at most `budget` steps; each instruction, and the return at the end
/// of a body, is one step. Returns the frame to push for a call, and `None`
/// for a return. The host is told of each breakpoint that is passed.
pub fn run_managed_until_call<'a, H: Host>(
    program: &'a Assembly,
    callee: &ManagedFuncDef,
    caller_frame: &mut ManagedCallFrame,
    host: &mut Audited<H>,
    budget: &mut u64,
) -> (r: Result<Option<CallFrame<'a>>, RuntimeFault>)
    requires
        program@.well_formed(),
        callee@.well_formed(),
        callee@.calls_within(program@.functions.len()),
    ensures
        final(host).record() == old(host).record() + frame_events(
            callee@,
            old(caller_frame)@,
            *old(budget) as nat,
        ),
        match r {
            Ok(pushed) => run_until_call(
                program@.functions,
                callee.body@,
                old(caller_frame)@,
                *old(budget) as nat,
            ) == Ok::<(FrameView, Option<CallFrameView>, nat), RuntimeFault>(
                (
                    final(caller_frame)@,
                    match pushed {
                        Some(frame) => Some(frame@),
                        None => None,
                    },
                    *final(budget) as nat,
                ),
            ),
            Err(fault) => run_until_call(
                program@.functions,
                callee.body@,
                old(caller_frame)@,
                *old(budget) as nat,
            ) == Err::<(FrameView, Option<CallFrameView>, nat), RuntimeFault>(fault),
        },
{
    loop
        invariant
            program@.well_formed(),
            callee@.well_formed(),
            callee@.calls_within(program@.functions.len()),
            run_frame(callee.body@, caller_frame@, *budget as nat) == run_frame(
                callee.body@,
                old(caller_frame)@,
                *old(budget) as nat,
            ),
            host.record() + frame_events(callee@, caller_frame@, *budget as nat) == old(
                host,
            ).record() + frame_events(callee@, old(caller_frame)@, *old(budget) as nat),
        decreases *budget,
    {
        let ghost told = host.record();
        let ghost coming = frame_events(callee@, caller_frame@, *budget as nat);
        if *budget == 0 {
            assert(told + coming =~= told);
            return Err(RuntimeFault::StepLimitExceeded);
        }
        let ghost before = caller_frame@;
        let status = match step_managed(callee, caller_frame) {
            Ok(status) => status,
            Err(fault) => {
                assert(told + coming =~= told);
                return Err(fault);
            },
        };
        *budget -= 1;
        match status {
            ExecutionStatus::Normal => (),
            ExecutionStatus::Call(callee_idx) => {
                assert(callee.body@[before.pc as int] == Inst::call(callee_idx));
                let target = &program.functions[callee_idx as usize];
                assert(program@.functions[callee_idx as int] == target@);
                assert(program@.functions[callee_idx as int].well_formed(program@.functions.len()));
                assert(told + coming =~= told);
                let callee_frame = match target {
                    FuncDef::Managed(function) => {
                        match caller_frame.create_frame_for_callee(function) {
                            Ok(frame) => CallFrame::Managed(function, frame),
                            Err(fault) => {
                                return Err(fault);
                            },
                        }
                    },
                    FuncDef::Native(function) => CallFrame::Native(function),
                };
                return Ok(Some(callee_frame));
            },
            ExecutionStatus::Return => {
                assert(told + coming =~= told);
                return Ok(None);
            },
            ExecutionStatus::Breakpoint => {
                host.breakpoint(callee, caller_frame);
                assert(host.record() + frame_events(callee@, caller_frame@, *budget as nat)
                    =~= told + coming);
            },
        }
    }
}

proof fn lemma_frames_push(stack: Seq<CallFrame>, frame: CallFrame)
    ensures
        frames(stack.push(frame)) == frames(stack).push(frame@),
{
    assert(frames(stack.push(frame)) =~= frames(stack).push(frame@));
}

proof fn lemma_frames_drop_last(stack: Seq<CallFrame>)
    requires
        stack.len() > 0,
    ensures
        frames(stack.drop_last()) == frames(stack).drop_last(),
        frames(stack).last() == stack.last()@,
{
    assert(frames(stack.drop_last()) =~= frames(stack).drop_last());
}

/// Hands `result` to the running frame of the call stack.
fn push_result(call_stack: &mut Vec<CallFrame>, result: Option<u32>)
    ensures
        frames(final(call_stack)@) == deliver(frames(old(call_stack)@), result),
{
    let value = match result {
        Some(value) => value,
        None => {
            return ;
        },
    };
    proof {
        if old(call_stack)@.len() > 0 {
            lemma_frames_drop_last(old(call_stack)@);
        }
    }
    match call_stack.pop() {
        Some(CallFrame::Managed(function, mut frame)) => {
            frame.stack.push(value);
            let caller = CallFrame::Managed(function, frame);
            proof {
                lemma_frames_push(call_stack@, caller);
            }
            call_stack.push(caller);
            assert(frames(call_stack@) =~= deliver(frames(old(call_stack)@), result));
        },
        Some(other) => {
            call_stack.push(other);
            assert(call_stack@ =~= old(call_stack)@);
        },
        None => {},
    }
}

/// Ends the call of the managed function `callee`, whose frame was popped:
/// hands its return value, if it has one, to the frame that is now on top
/// of the call stack, and returns that value.
pub fn finish_managed_call(
    call_stack: &mut Vec<CallFrame>,
    callee: &ManagedFuncDef,
    callee_frame: ManagedCallFrame,
) -> (result: Option<u32>)
    requires
        callee.returns ==> (callee.args as int) < callee_frame.locals@.len(),
    ensures
        result == return_value(callee@, callee_frame@),
        frames(final(call_stack)@) == deliver(frames(old(call_stack)@), result),
{
    let result = if callee.returns {
        Some(callee_frame.locals[callee.args as usize])
    } else {
        None
    };
    push_result(call_stack, result);
    result
}

/// Ends the call of the native function `callee`, whose frame was popped
/// and to which the host answered `outcome`: hands its return value, if it
/// has one, to the frame that is now on top of the call stack, and returns
/// that value. On a fault the call stack is left as it was.
pub fn finish_native_call(
    call_stack: &mut Vec<CallFrame>,
    callee: &NativeFuncDef,
    outcome: NativeOutcome,
) -> (r: Result<Option<u32>, RuntimeFault>)
    ensures
        r == native_result(callee@, outcome),
        match r {
            Ok(result) => frames(final(call_stack)@) == deliver(
                frames(old(call_stack)@),
                result,
            ),
            Err(_) => *final(call_stack) == *old(call_stack),
        },
{
    let value = match outcome {
        NativeOutcome::Unknown => {
            return Err(RuntimeFault::UnknownNative);
        },
        NativeOutcome::Returned(value) => value,
    };
    if callee.returns {
        match value {
            Some(v) => {
                push_result(call_stack, Some(v));
                Ok(Some(v))
            },
            None => Err(RuntimeFault::NativeNoResult),
        }
    } else {
        Ok(None)
    }
}

/// The state of an execution: the call stack, the number of steps that the
/// execution may still take, and the count of the frames that were pushed
/// and popped so far.
pub struct Machine<'a> {
    /// The frames of the running calls; the last one is the running frame.
    pub call_stack: Vec<CallFrame<'a>>,
    /// The number of steps that the execution may still take.
    pub budget: u64,
    /// The number of frames that were pushed so far, the first included.
    pub frames_pushed: u64,
    /// The number of frames that were popped so far.
    pub frames_popped: u64,
}

impl<'a> View for Machine<'a> {
    type V = MachineView;

    open spec fn view(&self) -> MachineView {
        MachineView {
            stack: frames(self.call_stack@),
            fuel: self.budget as nat,
            pushed: self.frames_pushed as nat,
            popped: self.frames_popped as nat,
        }
    }
}

/// What a turn of the machine did.
pub struct Turn {
    /// The host's answer, where the turn ran a native function.
    pub asked: Option<NativeOutcome>,
    /// The fault, where the turn aborted the execution.
    pub result: Result<(), RuntimeFault>,
}

impl<'a> Machine<'a> {
    /// The call stack is orderly, its depth is the number of frames that
    /// were pushed and not popped, and the counters leave room for the
    /// steps that remain.
    pub open spec fn well_formed(&self, program: AssemblyView) -> bool {
        &&& orderly(self@.stack, program.functions.len())
        &&& self@.balanced()
        &&& self.frames_pushed + self.frames_popped + self.budget <= u64::MAX + 1
    }

    /// The machine at the start of `program`, with `max_steps` steps to
    /// take.
    pub fn start(program: &'a Assembly, max_steps: u64) -> (machine: Machine<'a>)
        requires
            program@.runnable(),
        ensures
            machine@ == MachineView::start(program@, max_steps as nat),
            machine.well_formed(program@),
    {
        let mut call_stack: Vec<CallFrame<'a>> = Vec::new();
        proof {
            assert(program@.functions[program.entry as int] == program.functions@[program.entry as int]@);
            assert(program@.functions[program.entry as int].well_formed(
                program@.functions.len(),
            ));
        }
        match program.get_entry() {
            FuncDef::Managed(function) => {
                call_stack.push(CallFrame::Managed(function, ManagedCallFrame::by_func(function)));
            },
            // Not reached: the entry point of a runnable program is managed.
            FuncDef::Native(_) => {},
        }
        let machine = Machine { call_stack, budget: max_steps, frames_pushed: 1, frames_popped: 0 };
        assert(machine@.stack =~= MachineView::start(program@, max_steps as nat).stack);
        machine
    }

    /// Whether the execution has ended: the call stack is empty.
    pub fn finished(&self) -> (b: bool)
        ensures
            b == (self@.stack.len() == 0),
    {
        self.call_stack.len() == 0
    }

    /// Takes one turn: runs the frame on top of the call stack until it
    /// calls or returns, and pushes or pops a frame accordingly. The host
    /// is asked where that frame is native, and is told of the call or the
    /// return. A fault ends the execution: the machine is of no use
    /// afterwards.
    pub fn turn<H: Host>(&mut self, program: &'a Assembly, host: &mut Audited<H>) -> (turn:
        Turn)
        requires
            program@.well_formed(),
            old(self).well_formed(program@),
            old(self)@.stack.len() > 0,
        ensures
            final(host).record() == old(host).record() + old(self)@.turn_events(
                program@.functions,
                answer(turn.asked),
            ),
            turn.asked is Some <==> old(self)@.stack.last() is Native && old(self)@.fuel > 0,
            match turn.result {
                Ok(()) => old(self)@.turn(program@.functions, answer(turn.asked)) == Ok::<
                    MachineView,
                    RuntimeFault,
                >(final(self)@) && final(self).well_formed(program@),
                Err(fault) => old(self)@.turn(program@.functions, answer(turn.asked)) == Err::<
                    MachineView,
                    RuntimeFault,
                >(fault) && final(self).frames_pushed == old(self).frames_pushed
                    && final(self).frames_popped == old(self).frames_popped,
            },
    {
        let ghost functions = program@.functions;
        let ghost before = self@;
        proof {
            lemma_frames_drop_last(self.call_stack@);
            assert(before.stack[before.stack.len() - 1].fits(functions.len()));
        }
        let top = match self.call_stack.pop() {
            Some(top) => top,
            // Not reached: the call stack is not empty.
            None => {
                return Turn { asked: None, result: Ok(()) };
            },
        };
        match top {
            CallFrame::Managed(function, mut frame) => {
                proof {
                    lemma_turn_keeps_order(before, program@, NativeOutcome::Unknown);
                    lemma_turn_uses_fuel(before, functions, NativeOutcome::Unknown);
                    lemma_run_frame_keeps_locals(function.body@, frame@, self.budget as nat);
                }
                match run_managed_until_call(program, function, &mut frame, host, &mut self.budget) {
                    Err(fault) => Turn { asked: None, result: Err(fault) },
                    Ok(Some(callee_frame)) => {
                        host.calling(callee_frame.name(), function.name.as_str());
                        let caller = CallFrame::Managed(function, frame);
                        proof {
                            lemma_frames_push(self.call_stack@, caller);
                            lemma_frames_push(self.call_stack@.push(caller), callee_frame);
                        }
                        self.call_stack.push(caller);
                        self.call_stack.push(callee_frame);
                        let depth = self.call_stack.len();
                        self.frames_pushed = self.frames_pushed + 1;
                        Turn { asked: None, result: Ok(()) }
                    },
                    Ok(None) => {
                        let result = finish_managed_call(&mut self.call_stack, function, frame);
                        self.frames_popped = self.frames_popped + 1;
                        host.returning(function.name.as_str(), result);
                        Turn { asked: None, result: Ok(()) }
                    },
                }
            },
            CallFrame::Native(callee) => {
                if self.budget == 0 {
                    return Turn { asked: None, result: Err(RuntimeFault::StepLimitExceeded) };
                }
                let outcome = host.call_native(callee);
                proof {
                    lemma_turn_keeps_order(before, program@, outcome);
                }
                match finish_native_call(&mut self.call_stack, callee, outcome) {
                    Err(fault) => Turn { asked: Some(outcome), result: Err(fault) },
                    Ok(result) => {
                        self.budget = self.budget - 1;
                        self.frames_popped = self.frames_popped + 1;
                        host.returning(callee.name.as_str(), result);
                        Turn { asked: Some(outcome), result: Ok(()) }
                    },
                }
            },
        }
    }
}

/// The record of an execution.
pub struct Execution {
    /// `Ok` where the execution ran until the call stack was empty, and
    /// the fault that aborted it otherwise.
    pub result: Result<(), RuntimeFault>,
    /// The number of frames that were pushed onto the call stack.
    pub frames_pushed: u64,
    /// The number of frames that were popped off the call stack.
    pub frames_popped: u64,
    /// What the host answered to each native call, in the order of the
    /// calls.
    pub natives: Vec<NativeOutcome>,
}

/// Whether an execution that has come from `start` to `machine`, with
/// the answers `log` and having told the host `told` since it was told
/// `base`, goes on from `machine` as it goes on from `start`.
spec fn continues(
    start: MachineView,
    functions: Seq<FuncView>,
    base: Seq<Event>,
    log: Seq<NativeOutcome>,
    told: Seq<Event>,
    machine: MachineView,
    rest: Seq<NativeOutcome>,
) -> bool {
    &&& start.run(functions, log + rest) == machine.run(functions, rest)
    &&& base + start.events(functions, log + rest) == told + machine.events(functions, rest)
}

/// An execution that has taken one more turn goes on as before.
proof fn lemma_continues_after_turn(
    start: MachineView,
    functions: Seq<FuncView>,
    base: Seq<Event>,
    log: Seq<NativeOutcome>,
    told: Seq<Event>,
    before: MachineView,
    asked: Option<NativeOutcome>,
)
    requires
        forall|rest: Seq<NativeOutcome>| #[trigger]
            continues(start, functions, base, log, told, before, rest),
        before.stack.len() > 0,
        asked is Some ==> before.stack.last() is Native,
        asked is None ==> before.stack.last() is Managed || before.fuel == 0,
    ensures
        match before.turn(functions, answer(asked)) {
            Ok(next) => forall|rest: Seq<NativeOutcome>| #[trigger]
                continues(
                    start,
                    functions,
                    base,
                    log + answers(asked),
                    told + before.turn_events(functions, answer(asked)),
                    next,
                    rest,
                ),
            Err(fault) => {
                &&& start.run(functions, log + answers(asked)).result == Err::<(), RuntimeFault>(
                    fault,
                )
                &&& start.run(functions, log + answers(asked)).last == before
                &&& base + start.events(functions, log + answers(asked)) == told
                    + before.turn_events(functions, answer(asked))
            },
        },
{
    let heard = before.turn_events(functions, answer(asked));
    match before.turn(functions, answer(asked)) {
        Ok(next) => {
            assert forall|rest: Seq<NativeOutcome>| #[trigger]
                continues(start, functions, base, log + answers(asked), told + heard, next, rest) by {
                lemma_run_after_turn(before, functions, asked, rest);
                assert(continues(start, functions, base, log, told, before, answers(asked) + rest));
                assert((log + answers(asked)) + rest =~= log + (answers(asked) + rest));
                assert((told + heard) + next.events(functions, rest) =~= told + (heard
                    + next.events(functions, rest)));
            }
        },
        Err(fault) => {
            let empty = Seq::<NativeOutcome>::empty();
            lemma_run_after_turn(before, functions, asked, empty);
            assert(continues(start, functions, base, log, told, before, answers(asked) + empty));
            assert(answers(asked) + empty =~= answers(asked));
            assert(heard + Seq::<Event>::empty() =~= heard);
        },
    }
}

/// Runs `program` from its entry function until the call stack is empty,
/// for at most `max_steps` steps: every instruction, every return at the
/// end of a body and every native call is one step.
///
/// The execution is the one that `MachineView::run` describes, with the
/// native calls answered as the host answered them. One that ends well has
/// popped as many frames as it has pushed.
pub fn execute_assembly<H: Host>(
    program: &Assembly,
    host: &mut Audited<H>,
    max_steps: u64,
) -> (done: Execution)
    requires
        program@.runnable(),
    ensures
        final(host).record() == old(host).record() + MachineView::start(
            program@,
            max_steps as nat,
        ).events(program@.functions, done.natives@),
        ({
            let outcome = MachineView::start(program@, max_steps as nat).run(
                program@.functions,
                done.natives@,
            );
            &&& done.result == outcome.result
            &&& done.frames_pushed == outcome.last.pushed
            &&& done.frames_popped == outcome.last.popped
        }),
        done.result is Ok ==> done.frames_pushed == done.frames_popped,
{
    let ghost functions = program@.functions;
    let ghost start = MachineView::start(program@, max_steps as nat);
    let ghost base = host.record();
    let mut machine = Machine::start(program, max_steps);
    let mut natives: Vec<NativeOutcome> = Vec::new();
    proof {
        assert forall|rest: Seq<NativeOutcome>| #[trigger]
            continues(start, functions, base, natives@, host.record(), machine@, rest) by {
            assert(natives@ + rest =~= rest);
        }
    }
    while !machine.finished()
        invariant
            program@.well_formed(),
            functions == program@.functions,
            start == MachineView::start(program@, max_steps as nat),
            base == old(host).record(),
            machine.well_formed(program@),
            forall|rest: Seq<NativeOutcome>| #[trigger]
                continues(start, functions, base, natives@, host.record(), machine@, rest),
        decreases machine.budget,
    {
        let ghost before = machine@;
        let ghost log = natives@;
        let ghost told = host.record();
        let turn = machine.turn(program, host);
        match turn.asked {
            Some(outcome) => {
                natives.push(outcome);
            },
            None => {},
        }
        proof {
            lemma_turn_uses_fuel(before, functions, answer(turn.asked));
            lemma_continues_after_turn(start, functions, base, log, told, before, turn.asked);
            assert(natives@ =~= log + answers(turn.asked));
        }
        match turn.result {
            Ok(()) => {},
            Err(fault) => {
                return Execution {
                    result: Err(fault),
                    frames_pushed: machine.frames_pushed,
                    frames_popped: machine.frames_popped,
                    natives,
                };
            },
        }
    }
    proof {
        let empty = Seq::<NativeOutcome>::empty();
        assert(continues(start, functions, base, natives@, host.record(), machine@, empty));
        assert(natives@ + empty =~= natives@);
        assert(host.record() + Seq::<Event>::empty() =~= host.record());
    }
    Execution {
        result: Ok(()),
        frames_pushed: machine.frames_pushed,
        frames_popped: machine.frames_popped,
        natives,
    }
}

} // verus!
