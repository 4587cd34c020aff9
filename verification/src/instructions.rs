//! The instruction set: one variant per opcode, and its textual form.

use vstd::prelude::*;
use vstd::string::*;

verus! {

/// One bytecode instruction.
///
/// `jump` and `beq` hold an absolute offset into the enclosing function's
/// body, `call` holds an index into the program's function table, `ldarg`
/// and `starg` hold the index of a local slot.
#[allow(non_camel_case_types)]
#[derive(Clone, Copy, Debug, PartialEq, Eq, Structural)]
pub enum Inst {
    ldarg(u8),
    starg(u8),
    add_u,
    add_s,
    sub_u,
    sub_s,
    mul_u,
    mul_s,
    div_u,
    div_s,
    jump(u32),
    beq(u32),
    breakpoint,
    call(u16),
    ret,
}

/// The character that stands for the decimal digit `d`.
pub open spec fn digit_char(d: nat) -> char
    recommends
        d < 10,
{
    if d == 0 {
        '0'
    } else if d == 1 {
        '1'
    } else if d == 2 {
        '2'
    } else if d == 3 {
        '3'
    } else if d == 4 {
        '4'
    } else if d == 5 {
        '5'
    } else if d == 6 {
        '6'
    } else if d == 7 {
        '7'
    } else if d == 8 {
        '8'
    } else {
        '9'
    }
}

/// The decimal numeral of `n`, most significant digit first, without
/// leading zeros.
pub open spec fn decimal(n: nat) -> Seq<char>
    decreases n,
{
    if n < 10 {
        seq![digit_char(n)]
    } else {
        decimal(n / 10).push(digit_char(n % 10))
    }
}

impl Inst {
    /// The mnemonic of the instruction, as the assembler reads it.
    pub open spec fn mnemonic(self) -> Seq<char> {
        match self {
            Inst::ldarg(_) => "ldarg"@,
            Inst::starg(_) => "starg"@,
            Inst::add_u => "add.u"@,
            Inst::add_s => "add.s"@,
            Inst::sub_u => "sub.u"@,
            Inst::sub_s => "sub.s"@,
            Inst::mul_u => "mul.u"@,
            Inst::mul_s => "mul.s"@,
            Inst::div_u => "div.u"@,
            Inst::div_s => "div.s"@,
            Inst::jump(_) => "jump"@,
            Inst::beq(_) => "beq"@,
            Inst::breakpoint => "breakpoint"@,
            Inst::call(_) => "call"@,
            Inst::ret => "ret"@,
        }
    }

    /// The numeric operand of the instruction, if it has one.
    pub open spec fn operand(self) -> Option<nat> {
        match self {
            Inst::ldarg(n) => Some(n as nat),
            Inst::starg(n) => Some(n as nat),
            Inst::jump(n) => Some(n as nat),
            Inst::beq(n) => Some(n as nat),
            Inst::call(n) => Some(n as nat),
            _ => None,
        }
    }

    /// The textual form of the instruction: its mnemonic, followed for an
    /// instruction with an operand by one space and the operand in decimal.
    pub open spec fn text(self) -> Seq<char> {
        match self.operand() {
            Some(n) => self.mnemonic() + seq![' '] + decimal(n),
            None => self.mnemonic(),
        }
    }

    /// The name of the instruction as a string slice.
    pub fn name(&self) -> (s: &'static str)
        ensures
            s@ == self.mnemonic(),
    {
        match self {
            Inst::ldarg(_) => "ldarg",
            Inst::starg(_) => "starg",
            Inst::add_u => "add.u",
            Inst::add_s => "add.s",
            Inst::sub_u => "sub.u",
            Inst::sub_s => "sub.s",
            Inst::mul_u => "mul.u",
            Inst::mul_s => "mul.s",
            Inst::div_u => "div.u",
            Inst::div_s => "div.s",
            Inst::jump(_) => "jump",
            Inst::beq(_) => "beq",
            Inst::breakpoint => "breakpoint",
            Inst::call(_) => "call",
            Inst::ret => "ret",
        }
    }

    /// Renders the instruction for a listing.
    pub fn to_string(&self) -> (s: String)
        ensures
            s@ == self.text(),
    {
        let mut out = String::from_str(self.name());
        match self {
            Inst::ldarg(n) => {
                out.append(" ");
                append_decimal(&mut out, *n as u32);
            },
            Inst::starg(n) => {
                out.append(" ");
                append_decimal(&mut out, *n as u32);
            },
            Inst::jump(n) => {
                out.append(" ");
                append_decimal(&mut out, *n);
            },
            Inst::beq(n) => {
                out.append(" ");
                append_decimal(&mut out, *n);
            },
            Inst::call(n) => {
                out.append(" ");
                append_decimal(&mut out, *n as u32);
            },
            _ => {},
        }
        proof {
            reveal_strlit(" ");
            assert(" "@ =~= seq![' ']);
        }
        out
    }
}

/// The one-character string of a decimal digit.
fn digit_str(d: u32) -> (s: &'static str)
    requires
        d < 10,
    ensures
        s@ == seq![digit_char(d as nat)],
{
    proof {
        reveal_strlit("0");
        reveal_strlit("1");
        reveal_strlit("2");
        reveal_strlit("3");
        reveal_strlit("4");
        reveal_strlit("5");
        reveal_strlit("6");
        reveal_strlit("7");
        reveal_strlit("8");
        reveal_strlit("9");
    }
    let s = if d == 0 {
        "0"
    } else if d == 1 {
        "1"
    } else if d == 2 {
        "2"
    } else if d == 3 {
        "3"
    } else if d == 4 {
        "4"
    } else if d == 5 {
        "5"
    } else if d == 6 {
        "6"
    } else if d == 7 {
        "7"
    } else if d == 8 {
        "8"
    } else {
        "9"
    };
    assert(s@ =~= seq![digit_char(d as nat)]);
    s
}

/// Appends the decimal numeral of `n` to `out`.
pub fn append_decimal(out: &mut String, n: u32)
    ensures
        final(out)@ == old(out)@ + decimal(n as nat),
    decreases n,
{
    if n >= 10 {
        append_decimal(out, n / 10);
    }
    out.append(digit_str(n % 10));
    assert(final(out)@ =~= old(out)@ + decimal(n as nat));
}

} // verus!
