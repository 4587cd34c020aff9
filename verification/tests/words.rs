use vm::arith::{apply, to_signed, to_word, Operator};
use vm::instructions::Inst;
use vm::text::{find, is_whitespace, parse_number, same_text, trim, Fields};

#[test]
fn words_are_read_in_two_s_complement() {
    assert_eq!(to_signed(0), 0);
    assert_eq!(to_signed(2147483647), 2147483647);
    assert_eq!(to_signed(2147483648), -2147483648);
    assert_eq!(to_signed(4294967295), -1);
    assert_eq!(to_word(0), 0);
    assert_eq!(to_word(-1), 4294967295);
    assert_eq!(to_word(-2147483648), 2147483648);
    assert_eq!(to_word(2147483647), 2147483647);
    for value in [0, 1, -1, 12345, -12345, i32::MAX, i32::MIN] {
        assert_eq!(to_signed(to_word(value)), value);
    }
}

#[test]
fn unsigned_operations_wrap() {
    assert_eq!(apply(Operator::Add, false, 4294967295, 2), Some(1));
    assert_eq!(apply(Operator::Sub, false, 2, 3), Some(4294967295));
    assert_eq!(apply(Operator::Mul, false, 65536, 65537), Some(65536));
    assert_eq!(apply(Operator::Div, false, 4294967289, 2), Some(2147483644));
    assert_eq!(apply(Operator::Div, false, 7, 0), None);
}

#[test]
fn signed_operations_wrap() {
    assert_eq!(apply(Operator::Add, true, 2147483647, 1), Some(2147483648));
    assert_eq!(apply(Operator::Sub, true, 2147483648, 1), Some(2147483647));
    assert_eq!(apply(Operator::Mul, true, 4294967295, 4294967295), Some(1));
    assert_eq!(apply(Operator::Mul, true, 4294967293, 5), Some(4294967281));
    assert_eq!(apply(Operator::Div, true, 4294967289, 2), Some(4294967293));
    assert_eq!(apply(Operator::Div, true, 7, 4294967294), Some(4294967293));
    assert_eq!(apply(Operator::Div, true, 4294967289, 4294967294), Some(3));
    assert_eq!(apply(Operator::Div, true, 2147483648, 4294967295), Some(2147483648));
    assert_eq!(apply(Operator::Div, true, 7, 0), None);
}

#[test]
fn instructions_are_rendered_with_their_operand() {
    assert_eq!(Inst::ldarg(0).to_string(), "ldarg 0");
    assert_eq!(Inst::starg(255).to_string(), "starg 255");
    assert_eq!(Inst::jump(4294967295).to_string(), "jump 4294967295");
    assert_eq!(Inst::beq(10).to_string(), "beq 10");
    assert_eq!(Inst::call(65535).to_string(), "call 65535");
    assert_eq!(Inst::add_u.to_string(), "add.u");
    assert_eq!(Inst::add_s.to_string(), "add.s");
    assert_eq!(Inst::sub_u.to_string(), "sub.u");
    assert_eq!(Inst::sub_s.to_string(), "sub.s");
    assert_eq!(Inst::mul_u.to_string(), "mul.u");
    assert_eq!(Inst::mul_s.to_string(), "mul.s");
    assert_eq!(Inst::div_u.to_string(), "div.u");
    assert_eq!(Inst::div_s.to_string(), "div.s");
    assert_eq!(Inst::breakpoint.to_string(), "breakpoint");
    assert_eq!(Inst::ret.to_string(), "ret");
    assert_eq!(Inst::jump(1002).name(), "jump");
}

fn chars(text: &str) -> Vec<char> {
    text.chars().collect()
}

#[test]
fn trim_drops_white_space_at_the_ends_only() {
    assert_eq!(trim(&chars("  a b \t\r")), &chars("a b")[..]);
    assert_eq!(trim(&chars("\u{2003}x\u{85}")), &chars("x")[..]);
    assert_eq!(trim(&chars(" \n ")), &chars("")[..]);
    assert_eq!(trim(&chars("")), &chars("")[..]);
    assert_eq!(trim(&chars("a")), &chars("a")[..]);
    for c in ['\u{9}', '\u{a}', '\u{b}', '\u{c}', '\u{d}', ' ', '\u{85}', '\u{a0}', '\u{1680}',
        '\u{2000}', '\u{200a}', '\u{2028}', '\u{2029}', '\u{202f}', '\u{205f}', '\u{3000}'] {
        assert!(is_whitespace(c));
    }
    for c in ['a', '0', '\u{8}', '\u{e}', '\u{200b}', '\u{feff}', '_'] {
        assert!(!is_whitespace(c));
    }
    for code in 0..0x11000u32 {
        if let Some(c) = char::from_u32(code) {
            assert_eq!(is_whitespace(c), c.is_whitespace());
        }
    }
}

#[test]
fn fields_stand_between_single_spaces() {
    let line = chars("a  bc d ");
    let mut fields = Fields::new(&line);
    assert_eq!(fields.next(), Some(&chars("a")[..]));
    assert_eq!(fields.next(), Some(&chars("")[..]));
    assert_eq!(fields.next(), Some(&chars("bc")[..]));
    assert_eq!(fields.next(), Some(&chars("d")[..]));
    assert_eq!(fields.next(), Some(&chars("")[..]));
    assert_eq!(fields.next(), None);
    assert_eq!(fields.next(), None);
    let empty = chars("");
    let mut fields = Fields::new(&empty);
    assert_eq!(fields.next(), Some(&chars("")[..]));
    assert_eq!(fields.next(), None);
    assert_eq!(find(&line, 0, ' '), 1);
    assert_eq!(find(&line, 2, ' '), 2);
    assert_eq!(find(&line, 3, 'x'), 8);
}

#[test]
fn numbers_are_decimal_and_bounded() {
    assert_eq!(parse_number(&chars("0"), 0), Some(0));
    assert_eq!(parse_number(&chars("255"), 255), Some(255));
    assert_eq!(parse_number(&chars("256"), 255), None);
    assert_eq!(parse_number(&chars("+12"), 255), Some(12));
    assert_eq!(parse_number(&chars("0012"), 255), Some(12));
    assert_eq!(parse_number(&chars(""), 255), None);
    assert_eq!(parse_number(&chars("+"), 255), None);
    assert_eq!(parse_number(&chars("-1"), 255), None);
    assert_eq!(parse_number(&chars("++1"), 255), None);
    assert_eq!(parse_number(&chars("1 "), 255), None);
    assert_eq!(parse_number(&chars("0x10"), 255), None);
    assert_eq!(parse_number(&chars("٣"), 255), None);
    assert_eq!(
        parse_number(&chars("18446744073709551615"), u64::MAX),
        Some(18446744073709551615)
    );
    assert_eq!(parse_number(&chars("18446744073709551616"), u64::MAX), None);
    assert_eq!(parse_number(&chars("99999999999999999999999999"), u64::MAX), None);
    assert!(same_text(&chars("ldarg"), "ldarg"));
    assert!(!same_text(&chars("ldar"), "ldarg"));
    assert!(!same_text(&chars("ldarh"), "ldarg"));
}
