//! The grammar of the source text, line by line.

use vstd::prelude::*;
use super::instructions::Inst;
use super::text::{field, number, parse_number, same_text, split, Fields};

verus! {

/// Why a source text was refused.
#[derive(Clone, Copy, Debug, PartialEq, Eq, Structural)]
pub enum LoadError {
    /// A line starts with `.` and names no directive.
    UnknownDirective,
    /// A line names no instruction.
    UnknownMnemonic,
    /// An operand is missing, or is not the number that is asked for.
    MalformedOperand,
    /// A function jumps to a label that it does not declare.
    UnresolvedLabel,
    /// A function is called that the source does not define.
    UnresolvedCall,
    /// `.local` names a slot beyond those that the function has so far.
    LocalIndexOutOfRange,
    /// An instruction stands before the first `.func`.
    OutsideFunction,
    /// A count is beyond what an instruction can hold: a body of more than
    /// `u32::MAX` instructions, more than 65536 called names, or a call of
    /// a function whose index is above `u16::MAX`.
    LimitExceeded,
}

/// An instruction as the source states it: with the names of labels and
/// functions where the bytecode has offsets and indices.
pub enum Op {
    Plain(Inst),
    Jump(Seq<char>),
    Beq(Seq<char>),
    Call(Seq<char>),
}

/// What one line of the source states.
pub enum Statement {
    /// `.func <name> <args> <returns>`
    Func { name: Seq<char>, args: u16, returns: bool },
    /// `.locals <count>`
    Locals(nat),
    /// `.local <index> <value>`
    Local(u16, u32),
    /// `<name>:`
    Label(Seq<char>),
    /// An instruction.
    Code(Op),
}

/// The number in field `k`, if the field is there and holds one of at most
/// `max`.
pub open spec fn operand(fields: Seq<Seq<char>>, k: int, max: nat) -> Option<nat> {
    match field(fields, k) {
        Some(token) => number(token, max),
        None => None,
    }
}

/// What a line states that starts with `.`; `line` is what follows the `.`.
/// The fields of the line stand between single spaces. Fields after those
/// that the directive takes are not read.
pub open spec fn directive(line: Seq<char>) -> Result<Statement, LoadError> {
    let fields = split(line, ' ');
    let word = fields[0];
    if word == "func"@ {
        match (field(fields, 1), operand(fields, 2, u16::MAX as nat), operand(fields, 3, 1)) {
            (Some(name), Some(args), Some(flag)) => Ok(
                Statement::Func { name, args: args as u16, returns: flag == 1 },
            ),
            _ => Err(LoadError::MalformedOperand),
        }
    } else if word == "locals"@ {
        match operand(fields, 1, usize::MAX as nat) {
            Some(count) => Ok(Statement::Locals(count)),
            None => Err(LoadError::MalformedOperand),
        }
    } else if word == "local"@ {
        match (operand(fields, 1, u16::MAX as nat), operand(fields, 2, u32::MAX as nat)) {
            (Some(index), Some(value)) => Ok(Statement::Local(index as u16, value as u32)),
            _ => Err(LoadError::MalformedOperand),
        }
    } else {
        Err(LoadError::UnknownDirective)
    }
}

/// The instruction without an operand that `word` names.
pub open spec fn plain(word: Seq<char>) -> Option<Inst> {
    if word == "add.u"@ {
        Some(Inst::add_u)
    } else if word == "add.s"@ {
        Some(Inst::add_s)
    } else if word == "sub.u"@ {
        Some(Inst::sub_u)
    } else if word == "sub.s"@ {
        Some(Inst::sub_s)
    } else if word == "mul.u"@ {
        Some(Inst::mul_u)
    } else if word == "mul.s"@ {
        Some(Inst::mul_s)
    } else if word == "div.u"@ {
        Some(Inst::div_u)
    } else if word == "div.s"@ {
        Some(Inst::div_s)
    } else if word == "breakpoint"@ {
        Some(Inst::breakpoint)
    } else if word == "ret"@ {
        Some(Inst::ret)
    } else {
        None
    }
}

/// The instruction that a line states. The fields of the line stand between
/// single spaces. Fields after those that the instruction takes are not
/// read.
pub open spec fn instruction(line: Seq<char>) -> Result<Op, LoadError> {
    let fields = split(line, ' ');
    let word = fields[0];
    if word == "ldarg"@ {
        match operand(fields, 1, u8::MAX as nat) {
            Some(index) => Ok(Op::Plain(Inst::ldarg(index as u8))),
            None => Err(LoadError::MalformedOperand),
        }
    } else if word == "starg"@ {
        match operand(fields, 1, u8::MAX as nat) {
            Some(index) => Ok(Op::Plain(Inst::starg(index as u8))),
            None => Err(LoadError::MalformedOperand),
        }
    } else if word == "jump"@ {
        match field(fields, 1) {
            Some(label) => Ok(Op::Jump(label)),
            None => Err(LoadError::MalformedOperand),
        }
    } else if word == "beq"@ {
        match field(fields, 1) {
            Some(label) => Ok(Op::Beq(label)),
            None => Err(LoadError::MalformedOperand),
        }
    } else if word == "call"@ {
        match field(fields, 1) {
            Some(name) => Ok(Op::Call(name)),
            None => Err(LoadError::MalformedOperand),
        }
    } else {
        match plain(word) {
            Some(inst) => Ok(Op::Plain(inst)),
            None => Err(LoadError::UnknownMnemonic),
        }
    }
}

/// What a line states that is not empty: a directive where it starts with
/// `.`, else a label where it ends with `:`, else an instruction.
pub open spec fn statement(line: Seq<char>) -> Result<Statement, LoadError>
    recommends
        line.len() > 0,
{
    if line[0] == '.' {
        directive(line.skip(1))
    } else if line.last() == ':' {
        Ok(Statement::Label(line.drop_last()))
    } else {
        match instruction(line) {
            Ok(op) => Ok(Statement::Code(op)),
            Err(error) => Err(error),
        }
    }
}

/// An instruction as it stands in a line, with slices of the line for the
/// names.
pub enum Operation<'a> {
    Plain(Inst),
    Jump(&'a [char]),
    Beq(&'a [char]),
    Call(&'a [char]),
}

impl<'a> View for Operation<'a> {
    type V = Op;

    open spec fn view(&self) -> Op {
        match self {
            Operation::Plain(inst) => Op::Plain(*inst),
            Operation::Jump(label) => Op::Jump(label@),
            Operation::Beq(label) => Op::Beq(label@),
            Operation::Call(name) => Op::Call(name@),
        }
    }
}

/// Takes the next field and reads the number of at most `max` that it
/// holds.
pub fn parse_operand(parts: &mut Fields, max: u64) -> (r: Result<u64, LoadError>)
    requires
        old(parts).well_formed(),
    ensures
        final(parts).well_formed(),
        final(parts).rest() == if old(parts).rest().len() > 0 {
            old(parts).rest().drop_first()
        } else {
            old(parts).rest()
        },
        match r {
            Ok(value) => value <= max && operand(old(parts).rest(), 0, max as nat) == Some(
                value as nat,
            ),
            Err(error) => error == LoadError::MalformedOperand && operand(
                old(parts).rest(),
                0,
                max as nat,
            ) is None,
        },
{
    match parts.next() {
        Some(token) => match parse_number(token, max) {
            Some(value) => Ok(value),
            None => Err(LoadError::MalformedOperand),
        },
        None => Err(LoadError::MalformedOperand),
    }
}

/// Takes the next field as a name.
fn parse_name<'a>(parts: &mut Fields<'a>) -> (r: Result<&'a [char], LoadError>)
    requires
        old(parts).well_formed(),
    ensures
        final(parts).well_formed(),
        final(parts).rest() == if old(parts).rest().len() > 0 {
            old(parts).rest().drop_first()
        } else {
            old(parts).rest()
        },
        match r {
            Ok(name) => field(old(parts).rest(), 0) == Some(name@),
            Err(error) => error == LoadError::MalformedOperand && field(old(parts).rest(), 0)
                is None,
        },
{
    match parts.next() {
        Some(token) => Ok(token),
        None => Err(LoadError::MalformedOperand),
    }
}

/// The instruction without an operand that `word` names.
fn plain_instruction(word: &[char]) -> (r: Option<Inst>)
    ensures
        r == plain(word@),
{
    if same_text(word, "add.u") {
        Some(Inst::add_u)
    } else if same_text(word, "add.s") {
        Some(Inst::add_s)
    } else if same_text(word, "sub.u") {
        Some(Inst::sub_u)
    } else if same_text(word, "sub.s") {
        Some(Inst::sub_s)
    } else if same_text(word, "mul.u") {
        Some(Inst::mul_u)
    } else if same_text(word, "mul.s") {
        Some(Inst::mul_s)
    } else if same_text(word, "div.u") {
        Some(Inst::div_u)
    } else if same_text(word, "div.s") {
        Some(Inst::div_s)
    } else if same_text(word, "breakpoint") {
        Some(Inst::breakpoint)
    } else if same_text(word, "ret") {
        Some(Inst::ret)
    } else {
        None
    }
}

/// Reads the instruction that a line states.
pub fn read_instruction<'a>(line: &'a [char]) -> (r: Result<Operation<'a>, LoadError>)
    ensures
        match r {
            Ok(operation) => instruction(line@) == Ok::<Op, LoadError>(operation@),
            Err(error) => instruction(line@) == Err::<Op, LoadError>(error),
        },
        r matches Ok(Operation::Plain(inst)) ==> !(inst is jump || inst is beq || inst is call),
{
    let mut parts = Fields::new(line);
    let ghost fields = split(line@, ' ');
    let word = match parts.next() {
        Some(word) => word,
        None => {
            return Err(LoadError::UnknownMnemonic);
        },
    };
    assert(field(parts.rest(), 0) == field(fields, 1));
    if same_text(word, "ldarg") {
        match parse_operand(&mut parts, 255) {
            Ok(index) => Ok(Operation::Plain(Inst::ldarg(index as u8))),
            Err(error) => Err(error),
        }
    } else if same_text(word, "starg") {
        match parse_operand(&mut parts, 255) {
            Ok(index) => Ok(Operation::Plain(Inst::starg(index as u8))),
            Err(error) => Err(error),
        }
    } else if same_text(word, "jump") {
        match parse_name(&mut parts) {
            Ok(label) => Ok(Operation::Jump(label)),
            Err(error) => Err(error),
        }
    } else if same_text(word, "beq") {
        match parse_name(&mut parts) {
            Ok(label) => Ok(Operation::Beq(label)),
            Err(error) => Err(error),
        }
    } else if same_text(word, "call") {
        match parse_name(&mut parts) {
            Ok(name) => Ok(Operation::Call(name)),
            Err(error) => Err(error),
        }
    } else {
        match plain_instruction(word) {
            Some(inst) => Ok(Operation::Plain(inst)),
            None => Err(LoadError::UnknownMnemonic),
        }
    }
}

} // verus!
