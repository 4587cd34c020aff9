use vm::assembly::{Assembly, FuncDef, ManagedFuncDef};
use vm::instructions::Inst;
use vm::loader::Loader;
use vm::syntax::LoadError;

fn load(source: &str) -> Result<Assembly, LoadError> {
    Loader::new().load("test.asm", source)
}

fn error_of(source: &str) -> LoadError {
    match load(source) {
        Ok(_) => panic!("the source was accepted"),
        Err(error) => error,
    }
}

fn managed(program: &Assembly, index: usize) -> &ManagedFuncDef {
    match program.functions[index].as_managed() {
        Some(function) => function,
        None => panic!("function {} is native", index),
    }
}

const ADD_AND_MAIN: &str = ".func add 2 1
ldarg 0
ldarg 1
add.u
starg 2
ret
.func main 0 0
.locals 0
";

#[test]
fn loads_the_add_and_main_program() {
    let program = match load(ADD_AND_MAIN) {
        Ok(program) => program,
        Err(error) => panic!("{:?}", error),
    };
    assert_eq!(program.name, "test.asm");
    assert_eq!(program.entry, 0);
    assert_eq!(program.functions.len(), 2);
    let add = managed(&program, 0);
    assert_eq!(add.name, "add");
    assert_eq!(add.args, 2);
    assert!(add.returns);
    assert_eq!(add.default_locals, vec![0, 0, 0]);
    assert_eq!(
        add.body,
        vec![Inst::ldarg(0), Inst::ldarg(1), Inst::add_u, Inst::starg(2), Inst::ret]
    );
    let main = managed(&program, 1);
    assert_eq!(main.name, "main");
    assert_eq!(main.args, 0);
    assert!(!main.returns);
    assert_eq!(main.default_locals, Vec::<u32>::new());
    assert_eq!(main.body, Vec::<Inst>::new());
    assert_eq!(program.get_entry().name(), "add");
}

#[test]
fn unresolved_label_is_refused() {
    assert_eq!(error_of(".func f 0 0\njump missing\nret\n"), LoadError::UnresolvedLabel);
    assert_eq!(error_of(".func f 0 0\nbeq missing"), LoadError::UnresolvedLabel);
}

#[test]
fn label_of_another_function_is_not_seen() {
    let source = ".func f 0 0\nhere:\nret\n.func g 0 0\njump here\n";
    assert_eq!(error_of(source), LoadError::UnresolvedLabel);
}

#[test]
fn unknown_callee_is_refused() {
    assert_eq!(error_of(".func f 0 0\ncall doesNotExist\n"), LoadError::UnresolvedCall);
}

#[test]
fn forward_call_is_resolved() {
    let source = ".func main 0 0\ncall later\nret\n.func later 0 0\nret\n";
    let program = load(source).ok().expect("loads");
    assert_eq!(managed(&program, 0).body, vec![Inst::call(1), Inst::ret]);
    assert_eq!(managed(&program, 1).body, vec![Inst::ret]);
}

#[test]
fn call_goes_to_the_first_function_of_a_name() {
    let source = ".func f 0 0\ncall g\ncall f\n.func g 0 0\n.func g 1 0\ncall g\n";
    let program = load(source).ok().expect("loads");
    assert_eq!(managed(&program, 0).body, vec![Inst::call(1), Inst::call(0)]);
    assert_eq!(managed(&program, 2).body, vec![Inst::call(1)]);
}

#[test]
fn labels_become_offsets() {
    let source = ".func f 0 0
start:
ldarg 0
jump end
middle:
also:
ldarg 1
beq start
jump middle
beq also
end:
";
    let program = load(source).ok().expect("loads");
    assert_eq!(
        managed(&program, 0).body,
        vec![
            Inst::ldarg(0),
            Inst::jump(6),
            Inst::ldarg(1),
            Inst::beq(0),
            Inst::jump(2),
            Inst::beq(2),
        ]
    );
}

#[test]
fn later_declaration_of_a_label_counts() {
    let source = ".func f 0 0\nl:\nret\nl:\nret\njump l\n";
    let program = load(source).ok().expect("loads");
    assert_eq!(managed(&program, 0).body, vec![Inst::ret, Inst::ret, Inst::jump(1)]);
}

#[test]
fn every_mnemonic_is_read() {
    let source = ".func f 0 0
ldarg 255
starg 7
add.u
add.s
sub.u
sub.s
mul.u
mul.s
div.u
div.s
l:
jump l
beq l
breakpoint
call f
ret
";
    let program = load(source).ok().expect("loads");
    assert_eq!(
        managed(&program, 0).body,
        vec![
            Inst::ldarg(255),
            Inst::starg(7),
            Inst::add_u,
            Inst::add_s,
            Inst::sub_u,
            Inst::sub_s,
            Inst::mul_u,
            Inst::mul_s,
            Inst::div_u,
            Inst::div_s,
            Inst::jump(10),
            Inst::beq(10),
            Inst::breakpoint,
            Inst::call(0),
            Inst::ret,
        ]
    );
}

#[test]
fn locals_are_sized_by_header_and_directives() {
    let source = ".func a 2 1
.func b 2 0
.func c 1 1
.locals 5
.local 3 77
.local 0 4294967295
.func d 3 1
.locals 2
.local 1 9
.func e 0 0
.locals 2
.local 1 9
.locals 3
";
    let program = load(source).ok().expect("loads");
    assert_eq!(managed(&program, 0).default_locals, vec![0, 0, 0]);
    assert_eq!(managed(&program, 1).default_locals, vec![0, 0]);
    assert_eq!(managed(&program, 2).default_locals, vec![4294967295, 0, 0, 77, 0]);
    assert_eq!(managed(&program, 3).default_locals, vec![0, 9, 0, 0]);
    assert_eq!(managed(&program, 4).default_locals, vec![0, 0, 0]);
}

#[test]
fn local_beyond_the_locals_is_refused() {
    assert_eq!(error_of(".func f 2 1\n.local 0 5\n"), LoadError::LocalIndexOutOfRange);
    assert_eq!(
        error_of(".func f 0 0\n.locals 2\n.local 2 5\n"),
        LoadError::LocalIndexOutOfRange
    );
}

#[test]
fn unknown_directive_is_refused() {
    assert_eq!(error_of(".function f 0 0\n"), LoadError::UnknownDirective);
    assert_eq!(error_of(".\n"), LoadError::UnknownDirective);
    assert_eq!(error_of(".entry main\n"), LoadError::UnknownDirective);
}

#[test]
fn unknown_mnemonic_is_refused() {
    assert_eq!(error_of(".func f 0 0\nnop\n"), LoadError::UnknownMnemonic);
    assert_eq!(error_of(".func f 0 0\nadd\n"), LoadError::UnknownMnemonic);
    assert_eq!(error_of(".func f 0 0\nLDARG 0\n"), LoadError::UnknownMnemonic);
}

#[test]
fn malformed_operands_are_refused() {
    let cases = [
        ".func\n",
        ".func f\n",
        ".func f 1\n",
        ".func f x 0\n",
        ".func f 65536 0\n",
        ".func f 0 2\n",
        ".func f 0 true\n",
        ".func f  0 0\n",
        ".locals\n",
        ".locals -1\n",
        ".local 0\n",
        ".local 0 4294967296\n",
        ".local 65536 0\n",
        ".func f 0 0\nldarg\n",
        ".func f 0 0\nldarg 256\n",
        ".func f 0 0\nldarg 1x\n",
        ".func f 0 0\nstarg -1\n",
        ".func f 0 0\nstarg +\n",
        ".func f 0 0\njump\n",
        ".func f 0 0\nbeq\n",
        ".func f 0 0\ncall\n",
    ];
    for source in cases {
        assert_eq!(error_of(source), LoadError::MalformedOperand, "{:?}", source);
    }
}

#[test]
fn numbers_take_a_plus_and_leading_zeros() {
    let source = ".func f +1 01\nldarg +007\n.locals 0004\n";
    let program = load(source).ok().expect("loads");
    let f = managed(&program, 0);
    assert_eq!(f.args, 1);
    assert!(f.returns);
    assert_eq!(f.body, vec![Inst::ldarg(7)]);
    assert_eq!(f.default_locals, vec![0, 0, 0, 0]);
}

#[test]
fn instruction_before_the_first_function_is_refused() {
    assert_eq!(error_of("ret\n.func f 0 0\n"), LoadError::OutsideFunction);
}

#[test]
fn directives_and_labels_before_the_first_function_change_nothing() {
    let source = "early:\n.locals 3\n.local 9 9\n.func f 0 0\nret\n";
    let program = load(source).ok().expect("loads");
    assert_eq!(program.functions.len(), 1);
    assert_eq!(managed(&program, 0).default_locals, Vec::<u32>::new());
    assert_eq!(error_of("early:\n.func f 0 0\njump early\n"), LoadError::UnresolvedLabel);
}

#[test]
fn white_space_and_blank_lines_are_skipped() {
    let source = "\n   \r\n\t.func f 0 0  \r\n\n  ret\t\n \u{3000}ret\u{a0}\n\n";
    let program = load(source).ok().expect("loads");
    assert_eq!(managed(&program, 0).body, vec![Inst::ret, Inst::ret]);
}

#[test]
fn text_without_a_final_line_feed_is_read_to_its_end() {
    let program = load(".func f 0 0\nret").ok().expect("loads");
    assert_eq!(managed(&program, 0).body, vec![Inst::ret]);
}

#[test]
fn empty_text_gives_an_empty_program() {
    let program = load("").ok().expect("loads");
    assert_eq!(program.functions.len(), 0);
    assert_eq!(program.entry, 0);
}

#[test]
fn fields_after_the_operands_are_not_read() {
    let source = ".func f 0 0 extra\nret now\nldarg 1 2\n";
    let program = load(source).ok().expect("loads");
    assert_eq!(managed(&program, 0).body, vec![Inst::ret, Inst::ldarg(1)]);
}

#[test]
fn a_line_that_ends_with_a_colon_is_a_label() {
    let source = ".func f 0 0\njump a:\nret\nb:\njump b\n";
    let program = load(source).ok().expect("loads");
    assert_eq!(managed(&program, 0).body, vec![Inst::ret, Inst::jump(1)]);
    assert_eq!(error_of(".func f 0 0\n.func:\n"), LoadError::UnknownDirective);
}

#[test]
fn names_need_not_be_ascii() {
    let source = ".func größe 0 0\nschleife→:\njump schleife→\ncall größe\n";
    let program = load(source).ok().expect("loads");
    assert_eq!(managed(&program, 0).name, "größe");
    assert_eq!(managed(&program, 0).body, vec![Inst::jump(0), Inst::call(0)]);
}

#[test]
fn first_error_of_the_text_is_reported() {
    assert_eq!(
        error_of(".func f 0 0\njump missing\n.bogus\n"),
        LoadError::UnknownDirective
    );
    assert_eq!(
        error_of(".func f 0 0\njump missing\ncall nobody\n.func g 0 0\nnop\n"),
        LoadError::UnresolvedLabel
    );
    assert_eq!(
        error_of(".func f 0 0\ncall nobody\n.func g 0 0\njump missing\n"),
        LoadError::UnresolvedLabel
    );
    assert_eq!(error_of(".func f 0 0\ncall nobody\nnop\n"), LoadError::UnknownMnemonic);
}

#[test]
fn assembling_twice_gives_the_same_offsets() {
    let source = ".func f 0 0\na:\nldarg 0\nbeq b\njump a\nb:\nret\n.func g 0 0\ncall f\n";
    let first = load(source).ok().expect("loads");
    let second = load(source).ok().expect("loads");
    assert_eq!(first.functions.len(), second.functions.len());
    for index in 0..first.functions.len() {
        assert_eq!(managed(&first, index).body, managed(&second, index).body);
        assert_eq!(
            managed(&first, index).default_locals,
            managed(&second, index).default_locals
        );
    }
}

#[test]
fn loader_is_fresh_again_after_a_text() {
    let mut loader = Loader::new();
    let source = ".func f 0 0\nl:\njump l\ncall f\n";
    let first = loader.load("a", source).ok().expect("loads");
    assert!(matches!(loader.load("b", ".func g 0 0\njump l\n"), Err(LoadError::UnresolvedLabel)));
    let second = loader.load("c", source).ok().expect("loads");
    assert_eq!(second.functions.len(), 1);
    assert_eq!(managed(&first, 0).body, managed(&second, 0).body);
    assert_eq!(second.name, "c");
}

#[test]
fn call_of_a_function_beyond_the_index_range_is_refused() {
    let mut source = String::new();
    for index in 0..65537 {
        source.push_str(&format!(".func f{} 0 0\n", index));
    }
    let mut within = source.clone();
    within.push_str("call f65535\n");
    let program = load(&within).ok().expect("loads");
    assert_eq!(managed(&program, 65536).body, vec![Inst::call(65535)]);
    source.push_str("call f65536\n");
    assert_eq!(error_of(&source), LoadError::LimitExceeded);
}

#[test]
fn loaded_functions_are_managed() {
    let program = load(ADD_AND_MAIN).ok().expect("loads");
    for function in program.functions.iter() {
        assert!(matches!(function, FuncDef::Managed(_)));
    }
}

#[test]
fn loaded_programs_are_well_formed() {
    let program = load(ADD_AND_MAIN).ok().expect("loads");
    assert!(program.is_runnable());
    let looping = load(".func f 0 0\nl:\njump l\nend:\nbeq end\n").ok().expect("loads");
    assert!(looping.is_runnable());
    assert!(!load("").ok().expect("loads").is_runnable());
}

#[test]
fn ill_formed_programs_are_not_runnable() {
    let make = |entry: u16, function: FuncDef| Assembly {
        entry,
        name: String::from("made"),
        functions: vec![function],
    };
    let managed = |args: u16, returns: bool, locals: Vec<u32>, body: Vec<Inst>| {
        FuncDef::Managed(ManagedFuncDef {
            name: String::from("f"),
            args,
            returns,
            default_locals: locals,
            body,
        })
    };
    assert!(make(0, managed(1, true, vec![0, 0], vec![Inst::jump(1), Inst::call(0)])).is_runnable());
    assert!(!make(1, managed(0, false, vec![], vec![])).is_runnable());
    assert!(!make(0, managed(1, true, vec![0], vec![])).is_runnable());
    assert!(!make(0, managed(2, false, vec![0], vec![])).is_runnable());
    assert!(!make(0, managed(0, false, vec![], vec![Inst::jump(2)])).is_runnable());
    assert!(!make(0, managed(0, false, vec![], vec![Inst::beq(2)])).is_runnable());
    assert!(!make(0, managed(0, false, vec![], vec![Inst::call(1)])).is_runnable());
    let native = FuncDef::Native(vm::assembly::NativeFuncDef {
        name: String::from("n"),
        args: 0,
        returns: false,
    });
    assert!(!make(0, native).is_runnable());
}

#[test]
fn function_definitions_give_their_parts() {
    let mut program = load(ADD_AND_MAIN).ok().expect("loads");
    assert_eq!(program.functions[1].name(), "main");
    match program.functions[0].as_managed_mut() {
        Some(function) => function.args = 3,
        None => panic!("the function is managed"),
    }
    assert_eq!(managed(&program, 0).args, 3);
    let mut native = FuncDef::Native(vm::assembly::NativeFuncDef {
        name: String::from("n"),
        args: 0,
        returns: false,
    });
    assert_eq!(native.name(), "n");
    assert!(native.as_managed().is_none());
    assert!(native.as_managed_mut().is_none());
}
