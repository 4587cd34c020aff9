use vm::assembly::{Assembly, FuncDef, ManagedFuncDef, NativeFuncDef};
use vm::instructions::Inst;
use vm::interpreter::{
    binary, execute_assembly, finish_managed_call, finish_native_call, run_managed_until_call,
    step_managed, Audited, CallFrame, Host, Machine, ManagedCallFrame, Silent, Snapshot,
};
use vm::machine::{ExecutionStatus, NativeOutcome, RuntimeFault};
use vm::arith::Operator;
use vm::loader::Loader;

/// A host that writes down what it is told, and answers native calls from
/// a table.
struct Recorder {
    natives: Vec<(&'static str, Option<u32>)>,
    lines: Vec<String>,
    shots: Vec<(u32, Vec<u32>, Vec<u32>)>,
}

impl Recorder {
    fn new() -> Audited<Recorder> {
        Recorder::with(Vec::new())
    }

    fn with(natives: Vec<(&'static str, Option<u32>)>) -> Audited<Recorder> {
        Audited::new(Recorder { natives, lines: Vec::new(), shots: Vec::new() })
    }
}

impl Host for Recorder {
    fn call_native(&mut self, callee: &NativeFuncDef) -> NativeOutcome {
        for (name, value) in self.natives.iter() {
            if *name == callee.name {
                return NativeOutcome::Returned(*value);
            }
        }
        NativeOutcome::Unknown
    }

    fn calling(&mut self, callee: &str, caller: &str) {
        self.lines.push(format!("call {} from {}", callee, caller));
    }

    fn returning(&mut self, callee: &str, result: Option<u32>) {
        self.lines.push(format!("return from {} with {:?}", callee, result));
    }

    fn breakpoint(&mut self, _function: &ManagedFuncDef, snapshot: &Snapshot) {
        self.shots.push((
            snapshot.program_counter,
            snapshot.stack.clone(),
            snapshot.locals.clone(),
        ));
    }
}

fn function(name: &str, args: u16, returns: bool, locals: Vec<u32>, body: Vec<Inst>) -> ManagedFuncDef {
    ManagedFuncDef { name: name.to_string(), args, returns, default_locals: locals, body }
}

fn frame(pc: u32, stack: Vec<u32>, locals: Vec<u32>) -> ManagedCallFrame {
    ManagedCallFrame { program_counter: pc, stack, locals }
}

fn load(source: &str) -> Assembly {
    match Loader::new().load("test.asm", source) {
        Ok(program) => program,
        Err(error) => panic!("{:?}", error),
    }
}

fn run(source: &str, host: &mut Audited<Recorder>, max_steps: u64) -> Result<(), RuntimeFault> {
    let program = load(source);
    execute_assembly(&program, host, max_steps).result
}

const ADD_AND_MAIN: &str = ".func add 2 1
ldarg 0
ldarg 1
add.u
starg 2
ret
.func main 0 0
.locals 0
";

#[test]
fn add_called_from_a_hand_made_frame_of_main() {
    let program = load(ADD_AND_MAIN);
    let add = program.functions[0].as_managed().expect("managed");
    let main = program.functions[1].as_managed().expect("managed");
    let mut main_frame = ManagedCallFrame::by_func(main);
    main_frame.stack.push(2);
    main_frame.stack.push(3);
    let mut add_frame = main_frame.create_frame_for_callee(add).ok().expect("enters");
    assert_eq!(add_frame.locals, vec![3, 2, 0]);
    assert_eq!(add_frame.stack, Vec::<u32>::new());
    assert_eq!(add_frame.program_counter, 0);
    assert_eq!(main_frame.stack, Vec::<u32>::new());

    let mut host = Recorder::new();
    let mut budget = 100;
    let pushed = run_managed_until_call(&program, add, &mut add_frame, &mut host, &mut budget)
        .ok()
        .expect("runs");
    assert!(pushed.is_none());
    assert_eq!(budget, 95);
    assert_eq!(add_frame.locals, vec![3, 2, 5]);

    let mut call_stack = vec![CallFrame::Managed(main, main_frame)];
    let result = finish_managed_call(&mut call_stack, add, add_frame);
    assert_eq!(result, Some(5));
    match &call_stack[0] {
        CallFrame::Managed(_, caller) => assert_eq!(caller.stack, vec![5]),
        CallFrame::Native(_) => panic!("the caller is managed"),
    }
}

#[test]
fn arguments_are_taken_from_the_top_of_the_stack() {
    let callee = function("f", 2, false, vec![7, 8, 9, 10], vec![]);
    for (a, b) in [(0u32, 0u32), (1, 2), (4294967295, 17)] {
        let mut caller = frame(4, vec![99, a, b], vec![1]);
        let entered = caller.create_frame_for_callee(&callee).ok().expect("enters");
        assert_eq!(entered.locals, vec![b, a, 9, 10]);
        assert_eq!(caller.stack, vec![99]);
        assert_eq!(caller.program_counter, 4);
        assert_eq!(caller.locals, vec![1]);
    }
}

#[test]
fn call_with_too_few_operands_underflows() {
    let callee = function("f", 3, false, vec![0, 0, 0], vec![]);
    let mut caller = frame(0, vec![1, 2], vec![]);
    assert!(matches!(
        caller.create_frame_for_callee(&callee),
        Err(RuntimeFault::StackUnderflow)
    ));
    assert_eq!(caller.stack, vec![1, 2]);
}

#[test]
fn lone_add_underflows() {
    let mut host = Recorder::new();
    assert_eq!(
        run(".func f 0 0\nadd.u\n", &mut host, 100),
        Err(RuntimeFault::StackUnderflow)
    );
    let f = function("f", 0, false, vec![], vec![Inst::add_u]);
    let mut one = frame(0, vec![1], vec![]);
    assert_eq!(step_managed(&f, &mut one), Err(RuntimeFault::StackUnderflow));
    assert_eq!(one.stack, vec![1]);
    assert_eq!(one.program_counter, 0);
}

#[test]
fn division_by_zero_faults() {
    let source = ".func f 0 0\n.locals 2\n.local 0 0\n.local 1 6\nldarg 0\nldarg 1\ndiv.u\n";
    let mut host = Recorder::new();
    assert_eq!(run(source, &mut host, 100), Err(RuntimeFault::DivisionByZero));
    let signed = ".func f 0 0\n.locals 2\n.local 1 6\nldarg 0\nldarg 1\ndiv.s\n";
    assert_eq!(run(signed, &mut host, 100), Err(RuntimeFault::DivisionByZero));
    let fine = ".func f 0 0\n.locals 2\n.local 1 6\nldarg 1\nldarg 0\ndiv.u\n";
    assert_eq!(run(fine, &mut host, 100), Ok(()));
    let mut fr = frame(0, vec![0, 6], vec![]);
    assert_eq!(binary(&mut fr, Operator::Div, false), Err(RuntimeFault::DivisionByZero));
    assert_eq!(fr.stack, vec![0, 6]);
}

#[test]
fn binary_takes_the_top_as_its_left_operand() {
    let mut fr = frame(0, vec![9, 3, 10], vec![]);
    assert_eq!(binary(&mut fr, Operator::Sub, false), Ok(()));
    assert_eq!(fr.stack, vec![9, 7]);
    let mut fr = frame(0, vec![4, 20], vec![]);
    assert_eq!(binary(&mut fr, Operator::Div, false), Ok(()));
    assert_eq!(fr.stack, vec![5]);
    let mut fr = frame(0, vec![2, 4294967289], vec![]);
    assert_eq!(binary(&mut fr, Operator::Div, true), Ok(()));
    assert_eq!(fr.stack, vec![4294967293]);
}

#[test]
fn steps_of_each_instruction() {
    let f = function(
        "f",
        0,
        false,
        vec![],
        vec![
            Inst::ldarg(1),
            Inst::starg(0),
            Inst::jump(7),
            Inst::beq(5),
            Inst::call(3),
            Inst::ret,
            Inst::breakpoint,
            Inst::mul_u,
        ],
    );
    let mut fr = frame(0, vec![1], vec![10, 20]);
    assert_eq!(step_managed(&f, &mut fr), Ok(ExecutionStatus::Normal));
    assert_eq!((fr.program_counter, fr.stack.clone(), fr.locals.clone()), (1, vec![1, 20], vec![10, 20]));
    assert_eq!(step_managed(&f, &mut fr), Ok(ExecutionStatus::Normal));
    assert_eq!((fr.program_counter, fr.stack.clone(), fr.locals.clone()), (2, vec![1], vec![20, 20]));
    assert_eq!(step_managed(&f, &mut fr), Ok(ExecutionStatus::Normal));
    assert_eq!((fr.program_counter, fr.stack.clone()), (7, vec![1]));

    let mut fr = frame(3, vec![5, 6, 6], vec![]);
    assert_eq!(step_managed(&f, &mut fr), Ok(ExecutionStatus::Normal));
    assert_eq!((fr.program_counter, fr.stack.clone()), (5, vec![5]));
    let mut fr = frame(3, vec![5, 6, 7], vec![]);
    assert_eq!(step_managed(&f, &mut fr), Ok(ExecutionStatus::Normal));
    assert_eq!((fr.program_counter, fr.stack.clone()), (4, vec![5]));
    let mut fr = frame(3, vec![5], vec![]);
    assert_eq!(step_managed(&f, &mut fr), Err(RuntimeFault::StackUnderflow));

    let mut fr = frame(4, vec![5], vec![3]);
    assert_eq!(step_managed(&f, &mut fr), Ok(ExecutionStatus::Call(3)));
    assert_eq!((fr.program_counter, fr.stack.clone(), fr.locals.clone()), (5, vec![5], vec![3]));
    assert_eq!(step_managed(&f, &mut fr), Ok(ExecutionStatus::Return));
    assert_eq!(fr.program_counter, 6);
    assert_eq!(step_managed(&f, &mut fr), Ok(ExecutionStatus::Breakpoint));
    assert_eq!((fr.program_counter, fr.stack.clone(), fr.locals.clone()), (7, vec![5], vec![3]));

    let mut fr = frame(7, vec![6, 7], vec![]);
    assert_eq!(step_managed(&f, &mut fr), Ok(ExecutionStatus::Normal));
    assert_eq!((fr.program_counter, fr.stack.clone()), (8, vec![42]));
    assert_eq!(step_managed(&f, &mut fr), Ok(ExecutionStatus::Return));
    assert_eq!((fr.program_counter, fr.stack.clone()), (8, vec![42]));
    let mut fr = frame(4000, vec![], vec![]);
    assert_eq!(step_managed(&f, &mut fr), Ok(ExecutionStatus::Return));
    assert_eq!(fr.program_counter, 4000);
}

#[test]
fn local_index_out_of_range_faults() {
    let f = function("f", 0, false, vec![], vec![Inst::ldarg(2), Inst::starg(2)]);
    let mut fr = frame(0, vec![1], vec![10, 20]);
    assert_eq!(step_managed(&f, &mut fr), Err(RuntimeFault::LocalIndexOutOfRange));
    fr.program_counter = 1;
    assert_eq!(step_managed(&f, &mut fr), Err(RuntimeFault::LocalIndexOutOfRange));
    assert_eq!(fr.stack, vec![1]);
    fr.stack.clear();
    assert_eq!(step_managed(&f, &mut fr), Err(RuntimeFault::StackUnderflow));
    let mut host = Recorder::new();
    assert_eq!(
        run(".func f 1 0\nldarg 1\n", &mut host, 10),
        Err(RuntimeFault::LocalIndexOutOfRange)
    );
}

const CALLER: &str = ".func main 0 0
.locals 3
.local 0 2
.local 1 3
ldarg 0
ldarg 1
call add
starg 2
breakpoint
ret
.func add 2 1
ldarg 0
ldarg 1
add.u
starg 2
ret
";

#[test]
fn program_with_a_call_runs_to_its_end() {
    let program = load(CALLER);
    let mut host = Recorder::new();
    let done = execute_assembly(&program, &mut host, 1000);
    assert_eq!(done.result, Ok(()));
    assert_eq!(done.frames_pushed, 2);
    assert_eq!(done.frames_popped, 2);
    assert_eq!(done.natives, Vec::<NativeOutcome>::new());
    assert_eq!(
        host.host().lines,
        vec![
            "call add from main".to_string(),
            "return from add with Some(5)".to_string(),
            "return from main with None".to_string(),
        ]
    );
    assert_eq!(host.host().shots, vec![(5, vec![], vec![2, 3, 5])]);
}

#[test]
fn step_limit_ends_an_endless_loop() {
    let mut host = Recorder::new();
    assert_eq!(
        run(".func f 0 0\nl:\njump l\n", &mut host, 1000),
        Err(RuntimeFault::StepLimitExceeded)
    );
    let program = load(CALLER);
    assert_eq!(execute_assembly(&program, &mut host, 10).result, Err(RuntimeFault::StepLimitExceeded));
    assert_eq!(execute_assembly(&program, &mut host, 11).result, Ok(()));
    assert_eq!(execute_assembly(&program, &mut host, 0).result, Err(RuntimeFault::StepLimitExceeded));
}

#[test]
fn recursion_is_balanced() {
    // Counts local 0 down to zero, one call deeper each time.
    let source = ".func down 1 0
.locals 3
.local 1 0
.local 2 1
ldarg 0
ldarg 1
beq done
ldarg 2
ldarg 0
sub.u
call down
done:
ret
.func main 0 0
.locals 1
.local 0 50
ldarg 0
call down
";
    let mut program = load(source);
    program.entry = 1;
    let mut host = Recorder::new();
    let done = execute_assembly(&program, &mut host, 100000);
    assert_eq!(done.result, Ok(()));
    assert_eq!(done.frames_pushed, 52);
    assert_eq!(done.frames_popped, 52);
    assert_eq!(host.host().lines.iter().filter(|line| line.starts_with("call ")).count(), 51);
    assert_eq!(host.host().lines.iter().filter(|line| line.starts_with("return ")).count(), 52);
}

fn with_native(returns: bool) -> Assembly {
    Assembly {
        entry: 0,
        name: "natives".to_string(),
        functions: vec![
            FuncDef::Managed(function(
                "main",
                0,
                true,
                vec![0],
                vec![Inst::call(1), Inst::call(1), Inst::add_u, Inst::starg(0)],
            )),
            FuncDef::Native(NativeFuncDef { name: "seven".to_string(), args: 0, returns }),
        ],
    }
}

#[test]
fn native_results_reach_the_caller() {
    let program = with_native(true);
    let mut host = Recorder::with(vec![("seven", Some(7))]);
    let done = execute_assembly(&program, &mut host, 100);
    assert_eq!(done.result, Ok(()));
    assert_eq!(done.frames_pushed, 3);
    assert_eq!(done.frames_popped, 3);
    assert_eq!(
        done.natives,
        vec![NativeOutcome::Returned(Some(7)), NativeOutcome::Returned(Some(7))]
    );
    assert_eq!(host.host().lines.last().map(|line| line.as_str()), Some("return from main with Some(14)"));
}

#[test]
fn unknown_native_faults() {
    let program = with_native(true);
    let mut host = Recorder::new();
    let done = execute_assembly(&program, &mut host, 100);
    assert_eq!(done.result, Err(RuntimeFault::UnknownNative));
    assert_eq!(done.natives, vec![NativeOutcome::Unknown]);
    assert_eq!(done.frames_pushed, 2);
    assert_eq!(done.frames_popped, 0);
}

#[test]
fn native_without_the_result_it_declares_faults() {
    let program = with_native(true);
    let mut host = Recorder::with(vec![("seven", None)]);
    assert_eq!(
        execute_assembly(&program, &mut host, 100).result,
        Err(RuntimeFault::NativeNoResult)
    );
}

#[test]
fn native_that_declares_no_result_hands_none_back() {
    let program = with_native(false);
    let mut host = Recorder::with(vec![("seven", Some(7))]);
    assert_eq!(
        execute_assembly(&program, &mut host, 100).result,
        Err(RuntimeFault::StackUnderflow)
    );
    let callee = NativeFuncDef { name: "seven".to_string(), args: 0, returns: false };
    let main = function("main", 0, false, vec![], vec![]);
    let mut call_stack = vec![CallFrame::Managed(&main, frame(0, vec![1], vec![]))];
    assert_eq!(
        finish_native_call(&mut call_stack, &callee, NativeOutcome::Returned(Some(7))),
        Ok(None)
    );
    assert_eq!(
        finish_native_call(&mut call_stack, &callee, NativeOutcome::Unknown),
        Err(RuntimeFault::UnknownNative)
    );
    let returning = NativeFuncDef { name: "seven".to_string(), args: 0, returns: true };
    assert_eq!(
        finish_native_call(&mut call_stack, &returning, NativeOutcome::Returned(Some(7))),
        Ok(Some(7))
    );
    match &call_stack[0] {
        CallFrame::Managed(_, caller) => assert_eq!(caller.stack, vec![1, 7]),
        CallFrame::Native(_) => panic!("the caller is managed"),
    }
}

#[test]
fn snapshot_shows_the_stack_from_the_top() {
    let fr = frame(3, vec![1, 2, 3], vec![9, 8]);
    let shot = fr.snapshot();
    assert_eq!(shot.program_counter, 3);
    assert_eq!(shot.stack, vec![3, 2, 1]);
    assert_eq!(shot.locals, vec![9, 8]);
}

#[test]
fn breakpoints_change_nothing_but_the_diagnostics() {
    let with = CALLER;
    let without = CALLER.replace("breakpoint\n", "");
    let extra = CALLER.replace("add.u\n", "breakpoint\nadd.u\nbreakpoint\n");
    let mut plain = Recorder::new();
    let mut one = Recorder::new();
    let mut three = Recorder::new();
    let a = execute_assembly(&load(&without), &mut plain, 1000);
    let b = execute_assembly(&load(with), &mut one, 1000);
    let c = execute_assembly(&load(&extra), &mut three, 1000);
    assert_eq!(a.result, Ok(()));
    assert_eq!(b.result, Ok(()));
    assert_eq!(c.result, Ok(()));
    assert_eq!(plain.host().lines, one.host().lines);
    assert_eq!(plain.host().lines, three.host().lines);
    assert_eq!(plain.host().shots.len(), 0);
    assert_eq!(one.host().shots.len(), 1);
    assert_eq!(three.host().shots.len(), 3);
    assert_eq!((a.frames_pushed, a.frames_popped), (b.frames_pushed, b.frames_popped));
}

#[test]
fn machine_takes_one_turn_at_a_time() {
    let program = load(CALLER);
    let mut host = Recorder::new();
    let mut machine = Machine::start(&program, 100);
    assert!(!machine.finished());
    assert_eq!(machine.call_stack.len(), 1);
    let turn = machine.turn(&program, &mut host);
    assert_eq!(turn.result, Ok(()));
    assert_eq!(turn.asked, None);
    assert_eq!(machine.call_stack.len(), 2);
    assert_eq!(machine.call_stack[1].name(), "add");
    assert_eq!((machine.frames_pushed, machine.frames_popped), (2, 0));
    assert_eq!(machine.budget, 97);
    let turn = machine.turn(&program, &mut host);
    assert_eq!(turn.result, Ok(()));
    assert_eq!(machine.call_stack.len(), 1);
    let turn = machine.turn(&program, &mut host);
    assert_eq!(turn.result, Ok(()));
    assert!(machine.finished());
    assert_eq!((machine.frames_pushed, machine.frames_popped), (2, 2));
}

#[test]
fn audited_host_is_the_host_it_was_given() {
    let mut host = Recorder::with(vec![("seven", Some(7))]);
    host.calling("a", "b");
    host.returning("a", Some(1));
    let seven = NativeFuncDef { name: "seven".to_string(), args: 0, returns: true };
    assert_eq!(host.call_native(&seven), NativeOutcome::Returned(Some(7)));
    let f = function("f", 0, false, vec![], vec![]);
    host.breakpoint(&f, &frame(2, vec![1, 2], vec![3]));
    assert_eq!(host.host().shots, vec![(2, vec![2, 1], vec![3])]);
    let inner = host.into_host();
    assert_eq!(
        inner.lines,
        vec!["call a from b".to_string(), "return from a with Some(1)".to_string()]
    );
}

#[test]
fn forward_call_runs() {
    let source = ".func main 0 1
.locals 3
.local 1 20
.local 2 22
ldarg 1
ldarg 2
call sum
starg 0
ret
.func sum 2 1
ldarg 0
ldarg 1
add.s
starg 2
";
    let program = load(source);
    let mut host = Recorder::new();
    let done = execute_assembly(&program, &mut host, 100);
    assert_eq!(done.result, Ok(()));
    assert_eq!(
        host.host().lines,
        vec![
            "call sum from main".to_string(),
            "return from sum with Some(42)".to_string(),
            "return from main with Some(42)".to_string(),
        ]
    );
}

#[test]
fn labels_of_two_functions_do_not_meet() {
    let source = ".func main 0 1
.locals 2
.local 1 1
jump over
ldarg 1
starg 0
over:
call other
.func other 0 0
jump over
breakpoint
over:
";
    let program = load(source);
    let mut host = Recorder::new();
    let done = execute_assembly(&program, &mut host, 100);
    assert_eq!(done.result, Ok(()));
    assert_eq!(host.host().shots.len(), 0);
    assert_eq!(
        host.host().lines.last().map(|line| line.as_str()),
        Some("return from main with Some(0)")
    );
}

#[test]
fn silent_host_knows_no_native() {
    let mut host = Audited::new(Silent);
    assert_eq!(execute_assembly(&load(CALLER), &mut host, 100).result, Ok(()));
    assert_eq!(
        execute_assembly(&with_native(true), &mut host, 100).result,
        Err(RuntimeFault::UnknownNative)
    );
}

#[test]
fn more_steps_than_needed_change_nothing() {
    let program = load(CALLER);
    let mut lines = Vec::new();
    for max_steps in [11, 12, 1000, u64::MAX] {
        let mut host = Recorder::new();
        let done = execute_assembly(&program, &mut host, max_steps);
        assert_eq!(done.result, Ok(()));
        assert_eq!((done.frames_pushed, done.frames_popped), (2, 2));
        lines.push(host.into_host().lines);
    }
    assert!(lines.iter().all(|told| *told == lines[0]));
}
