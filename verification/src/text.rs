//! Reading source text: trimming, splitting into fields, and decimal
//! numbers.

use vstd::prelude::*;
use vstd::slice::slice_subrange;
use vstd::string::*;
use super::instructions::{decimal, digit_char};

verus! {

/// The characters that count as white space at the ends of a line.
pub open spec fn whitespace(c: char) -> bool {
    let code = c as u32;
    ||| 0x09 <= code <= 0x0D
    ||| code == 0x20
    ||| code == 0x85
    ||| code == 0xA0
    ||| code == 0x1680
    ||| 0x2000 <= code <= 0x200A
    ||| code == 0x2028
    ||| code == 0x2029
    ||| code == 0x202F
    ||| code == 0x205F
    ||| code == 0x3000
}

pub fn is_whitespace(c: char) -> (b: bool)
    ensures
        b == whitespace(c),
{
    let code = c as u32;
    (0x09 <= code && code <= 0x0D) || code == 0x20 || code == 0x85 || code == 0xA0 || code
        == 0x1680 || (0x2000 <= code && code <= 0x200A) || code == 0x2028 || code == 0x2029
        || code == 0x202F || code == 0x205F || code == 0x3000
}

/// The text without the white space at its start.
pub open spec fn trim_start(s: Seq<char>) -> Seq<char>
    decreases s.len(),
{
    if s.len() > 0 && whitespace(s[0]) {
        trim_start(s.drop_first())
    } else {
        s
    }
}

/// The text without the white space at its end.
pub open spec fn trim_end(s: Seq<char>) -> Seq<char>
    decreases s.len(),
{
    if s.len() > 0 && whitespace(s.last()) {
        trim_end(s.drop_last())
    } else {
        s
    }
}

/// The text without the white space at its two ends.
pub open spec fn trimmed(s: Seq<char>) -> Seq<char> {
    trim_end(trim_start(s))
}

/// What is left of a text after trimming is the part of it between its
/// first and its last character that are not white space.
pub proof fn lemma_trimmed(s: Seq<char>)
    ensures
        exists|from: int, to: int|
            {
                &&& 0 <= from <= to <= s.len()
                &&& #[trigger] s.subrange(from, to) == trimmed(s)
                &&& forall|i: int| 0 <= i < from ==> whitespace(s[i])
                &&& forall|i: int| to <= i < s.len() ==> whitespace(s[i])
                &&& from < to ==> !whitespace(s[from]) && !whitespace(s[to - 1])
            },
{
    let from = lemma_trim_start(s);
    let rest = s.subrange(from, s.len() as int);
    let length = lemma_trim_end(rest);
    let to = from + length;
    assert(rest.subrange(0, length) =~= s.subrange(from, to));
    assert forall|i: int| to <= i < s.len() implies whitespace(s[i]) by {
        assert(s[i] == rest[i - from]);
    }
    if from < to {
        assert(rest[length - 1] == s[to - 1]);
        assert(rest[0] == s[from]);
    }
}

/// Where the text without the white space at its start begins.
proof fn lemma_trim_start(s: Seq<char>) -> (from: int)
    ensures
        0 <= from <= s.len(),
        trim_start(s) == s.subrange(from, s.len() as int),
        forall|i: int| 0 <= i < from ==> whitespace(s[i]),
        from < s.len() ==> !whitespace(s[from]),
    decreases s.len(),
{
    if s.len() > 0 && whitespace(s[0]) {
        let inner = lemma_trim_start(s.drop_first());
        assert(s.drop_first().subrange(inner, s.len() - 1) =~= s.subrange(
            inner + 1,
            s.len() as int,
        ));
        assert forall|i: int| 0 <= i < inner + 1 implies whitespace(s[i]) by {
            if i > 0 {
                assert(s[i] == s.drop_first()[i - 1]);
            }
        }
        inner + 1
    } else {
        assert(s.subrange(0, s.len() as int) =~= s);
        0
    }
}

/// Where the text without the white space at its end ends.
proof fn lemma_trim_end(s: Seq<char>) -> (to: int)
    ensures
        0 <= to <= s.len(),
        trim_end(s) == s.subrange(0, to),
        forall|i: int| to <= i < s.len() ==> whitespace(s[i]),
        0 < to ==> !whitespace(s[to - 1]),
        0 < to ==> trim_end(s)[0] == s[0],
    decreases s.len(),
{
    if s.len() > 0 && whitespace(s.last()) {
        let inner = lemma_trim_end(s.drop_last());
        assert(s.drop_last().subrange(0, inner) =~= s.subrange(0, inner));
        assert forall|i: int| inner <= i < s.len() implies whitespace(s[i]) by {
            if i < s.len() - 1 {
                assert(s[i] == s.drop_last()[i]);
            }
        }
        if 0 < inner {
            assert(s.drop_last()[inner - 1] == s[inner - 1]);
        }
        inner
    } else {
        assert(s.subrange(0, s.len() as int) =~= s);
        s.len() as int
    }
}

/// The part of `s` that is left without the white space at its two ends.
pub fn trim<'a>(s: &'a [char]) -> (t: &'a [char])
    ensures
        t@ == trimmed(s@),
{
    let n = s.len();
    let mut start: usize = 0;
    assert(s@.subrange(0, n as int) =~= s@);
    while start < n && is_whitespace(s[start])
        invariant
            start <= n == s@.len(),
            trim_start(s@.subrange(start as int, n as int)) == trim_start(s@),
        decreases n - start,
    {
        assert(s@.subrange(start as int, n as int).drop_first() =~= s@.subrange(
            start + 1,
            n as int,
        ));
        start += 1;
    }
    let mut end: usize = n;
    while end > start && is_whitespace(s[end - 1])
        invariant
            start <= end <= n == s@.len(),
            trim_end(s@.subrange(start as int, end as int)) == trim_end(
                s@.subrange(start as int, n as int),
            ),
        decreases end,
    {
        assert(s@.subrange(start as int, end as int).drop_last() =~= s@.subrange(
            start as int,
            end - 1,
        ));
        end -= 1;
    }
    slice_subrange(s, start, end)
}

/// The index of the first `sep` in `s`, or the length of `s` where there is
/// none.
pub open spec fn first_index(s: Seq<char>, sep: char) -> int
    decreases s.len(),
{
    if s.len() == 0 || s[0] == sep {
        0
    } else {
        1 + first_index(s.drop_first(), sep)
    }
}

pub proof fn lemma_first_index(s: Seq<char>, sep: char)
    ensures
        0 <= first_index(s, sep) <= s.len(),
        first_index(s, sep) < s.len() ==> s[first_index(s, sep)] == sep,
        forall|i: int| 0 <= i < first_index(s, sep) ==> s[i] != sep,
    decreases s.len(),
{
    if s.len() == 0 || s[0] == sep {
    } else {
        lemma_first_index(s.drop_first(), sep);
        assert forall|i: int| 0 <= i < first_index(s, sep) implies s[i] != sep by {
            if i > 0 {
                assert(s[i] == s.drop_first()[i - 1]);
            }
        }
    }
}

/// The index of the first `sep` in `s` at or after `from`, or the length of
/// `s` where there is none.
pub fn find(s: &[char], from: usize, sep: char) -> (at: usize)
    requires
        from <= s@.len(),
    ensures
        from <= at <= s@.len(),
        at == from + first_index(s@.skip(from as int), sep),
{
    let n = s.len();
    let mut at: usize = from;
    while at < n && s[at] != sep
        invariant
            from <= at <= n == s@.len(),
            from + first_index(s@.skip(from as int), sep) == at + first_index(
                s@.skip(at as int),
                sep,
            ),
        decreases n - at,
    {
        assert(s@.skip(at as int).drop_first() =~= s@.skip(at + 1));
        at += 1;
    }
    at
}

/// The fields of `s` between the occurrences of `sep`. There is one field
/// more than there are separators: two separators in a row hold an empty
/// field between them.
pub open spec fn split(s: Seq<char>, sep: char) -> Seq<Seq<char>>
    decreases s.len(),
{
    let at = first_index(s, sep);
    if 0 <= at < s.len() {
        seq![s.take(at)] + split(s.skip(at + 1), sep)
    } else {
        seq![s]
    }
}

/// The fields with `sep` between each two of them.
pub open spec fn joined(fields: Seq<Seq<char>>, sep: char) -> Seq<char>
    decreases fields.len(),
{
    if fields.len() == 0 {
        Seq::empty()
    } else if fields.len() == 1 {
        fields[0]
    } else {
        fields[0] + seq![sep] + joined(fields.drop_first(), sep)
    }
}

/// A text is split into fields that hold no separator, and that give the
/// text back when they are joined by the separator.
pub proof fn lemma_split(s: Seq<char>, sep: char)
    ensures
        split(s, sep).len() >= 1,
        joined(split(s, sep), sep) == s,
        forall|k: int, i: int|
            0 <= k < split(s, sep).len() && 0 <= i < split(s, sep)[k].len()
                ==> #[trigger] split(s, sep)[k][i] != sep,
    decreases s.len(),
{
    let at = first_index(s, sep);
    lemma_first_index(s, sep);
    if 0 <= at < s.len() {
        let tail = s.skip(at + 1);
        lemma_split(tail, sep);
        let fields = split(s, sep);
        assert(fields.drop_first() =~= split(tail, sep));
        assert(fields[0] == s.take(at));
        assert(joined(fields, sep) =~= s);
        assert forall|k: int, i: int|
            0 <= k < fields.len() && 0 <= i < fields[k].len() implies #[trigger] fields[k][i]
            != sep by {
            if k > 0 {
                assert(fields[k] == split(tail, sep)[k - 1]);
            }
        }
    }
}

/// The field `k` of the fields, if there are that many.
pub open spec fn field(fields: Seq<Seq<char>>, k: int) -> Option<Seq<char>> {
    if 0 <= k < fields.len() {
        Some(fields[k])
    } else {
        None
    }
}

/// The fields of a line between single spaces, handed out one by one.
pub struct Fields<'a> {
    text: &'a [char],
    next: Option<usize>,
}

impl<'a> Fields<'a> {
    pub closed spec fn well_formed(&self) -> bool {
        match self.next {
            Some(from) => from <= self.text@.len(),
            None => true,
        }
    }

    /// The fields that were not handed out yet.
    pub closed spec fn rest(&self) -> Seq<Seq<char>> {
        match self.next {
            Some(from) => split(self.text@.skip(from as int), ' '),
            None => Seq::empty(),
        }
    }

    pub fn new(text: &'a [char]) -> (fields: Fields<'a>)
        ensures
            fields.well_formed(),
            fields.rest() == split(text@, ' '),
    {
        assert(text@.skip(0) =~= text@);
        Fields { text, next: Some(0) }
    }

    /// Hands out the next field, if one is left.
    pub fn next(&mut self) -> (r: Option<&'a [char]>)
        requires
            old(self).well_formed(),
        ensures
            final(self).well_formed(),
            match r {
                Some(token) => field(old(self).rest(), 0) == Some(token@),
                None => old(self).rest().len() == 0,
            },
            final(self).rest() == if old(self).rest().len() > 0 {
                old(self).rest().drop_first()
            } else {
                old(self).rest()
            },
    {
        match self.next {
            None => None,
            Some(from) => {
                let ghost tail = self.text@.skip(from as int);
                let at = find(self.text, from, ' ');
                let token = slice_subrange(self.text, from, at);
                proof {
                    lemma_first_index(tail, ' ');
                    assert(token@ =~= tail.take(at - from));
                }
                if at < self.text.len() {
                    self.next = Some(at + 1);
                    proof {
                        assert(self.text@.skip(at + 1) =~= tail.skip(at - from + 1));
                        assert(self.rest() =~= old(self).rest().drop_first());
                    }
                } else {
                    self.next = None;
                    proof {
                        assert(tail.take(at - from) =~= tail);
                        assert(self.rest() =~= old(self).rest().drop_first());
                    }
                }
                Some(token)
            },
        }
    }
}

/// The value of a decimal digit.
pub open spec fn digit_value(c: char) -> Option<nat> {
    if '0' <= c <= '9' {
        Some((c as u32 - '0' as u32) as nat)
    } else {
        None
    }
}

/// Whether the text is made of decimal digits only.
pub open spec fn all_digits(s: Seq<char>) -> bool {
    forall|i: int| 0 <= i < s.len() ==> digit_value(#[trigger] s[i]) is Some
}

/// The number that a row of decimal digits stands for.
pub open spec fn digits_value(s: Seq<char>) -> nat
    decreases s.len(),
{
    if s.len() == 0 {
        0
    } else {
        digits_value(s.drop_last()) * 10 + digit_value(s.last()).unwrap_or(0)
    }
}

/// The number that a field holds: one or more decimal digits, after an
/// optional `+`, that stand for a number of at most `max`.
pub open spec fn number(token: Seq<char>, max: nat) -> Option<nat> {
    let digits = if token.len() > 0 && token[0] == '+' {
        token.drop_first()
    } else {
        token
    };
    if digits.len() > 0 && all_digits(digits) && digits_value(digits) <= max {
        Some(digits_value(digits))
    } else {
        None
    }
}

/// The value of a row of digits is at least that of each of its starts.
pub proof fn lemma_digits_value_grows(s: Seq<char>, k: int)
    requires
        0 <= k <= s.len(),
    ensures
        digits_value(s.take(k)) <= digits_value(s),
    decreases s.len() - k,
{
    if k == s.len() {
        assert(s.take(k) =~= s);
    } else {
        lemma_digits_value_grows(s, k + 1);
        assert(s.take(k + 1).drop_last() =~= s.take(k));
    }
}

/// The decimal numeral of a number is read as that number.
pub proof fn lemma_number_of_decimal(n: nat, max: nat)
    requires
        n <= max,
    ensures
        number(decimal(n), max) == Some(n),
{
    lemma_decimal_digits(n);
}

proof fn lemma_decimal_digits(n: nat)
    ensures
        decimal(n).len() > 0,
        all_digits(decimal(n)),
        digits_value(decimal(n)) == n,
    decreases n,
{
    let numeral = decimal(n);
    if n < 10 {
        assert(digit_value(digit_char(n)) == Some(n));
        assert(numeral.drop_last() =~= Seq::<char>::empty());
        assert(digits_value(numeral.drop_last()) == 0);
    } else {
        lemma_decimal_digits(n / 10);
        assert(digit_value(digit_char(n % 10)) == Some(n % 10));
        assert(numeral.drop_last() =~= decimal(n / 10));
        assert forall|i: int| 0 <= i < numeral.len() implies digit_value(
            #[trigger] numeral[i],
        ) is Some by {
            if i < numeral.len() - 1 {
                assert(numeral[i] == decimal(n / 10)[i]);
            }
        }
    }
}

/// Reads the number that a field holds.
pub fn parse_number(token: &[char], max: u64) -> (r: Option<u64>)
    ensures
        match r {
            Some(value) => number(token@, max as nat) == Some(value as nat),
            None => number(token@, max as nat) is None,
        },
{
    let n = token.len();
    let start: usize = if n > 0 && token[0] == '+' {
        1
    } else {
        0
    };
    if start == n {
        return None;
    }
    let ghost digits = if token@.len() > 0 && token@[0] == '+' {
        token@.drop_first()
    } else {
        token@
    };
    assert(digits =~= token@.skip(start as int));
    let mut value: u64 = 0;
    let mut i: usize = start;
    while i < n
        invariant
            start <= i <= n == token@.len(),
            digits == token@.skip(start as int),
            digits == if token@.len() > 0 && token@[0] == '+' {
                token@.drop_first()
            } else {
                token@
            },
            all_digits(digits.take(i - start)),
            value == digits_value(digits.take(i - start)),
            value <= max,
        decreases n - i,
    {
        let c = token[i];
        assert(digits[i - start] == c);
        if c < '0' || c > '9' {
            assert(digit_value(digits[i - start]) is None);
            return None;
        }
        let digit = (c as u32 - '0' as u32) as u64;
        let ghost longer = digits.take(i - start + 1);
        proof {
            assert(longer.drop_last() =~= digits.take(i - start));
            assert(longer.last() == c);
            assert(digits_value(longer) == value * 10 + digit);
            assert forall|j: int| 0 <= j < longer.len() implies digit_value(
                #[trigger] longer[j],
            ) is Some by {
                if j < i - start {
                    assert(longer[j] == digits.take(i - start)[j]);
                }
            }
        }
        let next = value as u128 * 10 + digit as u128;
        if next > max as u128 {
            proof {
                lemma_digits_value_grows(digits, i - start + 1);
            }
            return None;
        }
        value = next as u64;
        i += 1;
    }
    assert(digits.take(n - start) =~= digits);
    Some(value)
}

/// Whether a field is the given word.
pub fn same_text(token: &[char], word: &str) -> (b: bool)
    ensures
        b == (token@ == word@),
{
    let n = word.unicode_len();
    if token.len() != n {
        return false;
    }
    let mut i: usize = 0;
    while i < n
        invariant
            i <= n == token@.len(),
            n == word@.len(),
            forall|j: int| 0 <= j < i ==> token@[j] == word@[j],
        decreases n - i,
    {
        if token[i] != word.get_char(i) {
            return false;
        }
        i += 1;
    }
    assert(token@ =~= word@);
    true
}

} // verus!
