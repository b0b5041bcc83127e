//! Small pieces of text: comparing names, writing numbers, padding.

use vstd::prelude::*;
use vstd::utf8::encode_utf8;
use vstd::utf8::encode_utf8_decode_utf8;

verus! {

/// `count` spaces.
pub open spec fn spaces(count: nat) -> Seq<char> {
    Seq::new(count, |i: int| ' ')
}

/// The character of a digit from 0 to 9.
pub open spec fn digit_char(digit: int) -> char {
    if digit == 0 {
        '0'
    } else if digit == 1 {
        '1'
    } else if digit == 2 {
        '2'
    } else if digit == 3 {
        '3'
    } else if digit == 4 {
        '4'
    } else if digit == 5 {
        '5'
    } else if digit == 6 {
        '6'
    } else if digit == 7 {
        '7'
    } else if digit == 8 {
        '8'
    } else {
        '9'
    }
}

/// The decimal digits of a number, most significant first, without leading
/// zeros.
pub open spec fn digits(number: nat) -> Seq<char>
    decreases number,
{
    if number < 10 {
        seq![digit_char(number as int)]
    } else {
        digits(number / 10).push(digit_char((number % 10) as int))
    }
}

/// A number in decimal, with a minus sign in front where it is negative.
pub open spec fn decimal(number: int) -> Seq<char> {
    if number < 0 {
        seq!['-'] + digits((-number) as nat)
    } else {
        digits(number as nat)
    }
}

/// Whether two texts hold the same characters.
pub fn same_text(left: &str, right: &str) -> (same: bool)
    ensures
        same == (left@ == right@),
{
    let left_bytes = left.as_bytes();
    let right_bytes = right.as_bytes();
    proof {
        encode_utf8_decode_utf8(left@);
        encode_utf8_decode_utf8(right@);
    }
    if left_bytes.len() != right_bytes.len() {
        return false;
    }
    let mut at: usize = 0;
    while at < left_bytes.len()
        invariant
            at <= left_bytes.len(),
            left_bytes.len() == right_bytes.len(),
            left_bytes@ == encode_utf8(left@),
            right_bytes@ == encode_utf8(right@),
            forall|i: int| 0 <= i < at ==> left_bytes@[i] == right_bytes@[i],
        decreases left_bytes.len() - at,
    {
        if left_bytes[at] != right_bytes[at] {
            return false;
        }
        at += 1;
    }
    assert(left_bytes@ =~= right_bytes@);
    true
}

/// Whether `name` is one of `names`.
pub fn listed(names: &[&str], name: &str) -> (found: bool)
    ensures
        found == names.deep_view().contains(name@),
{
    let mut at: usize = 0;
    while at < names.len()
        invariant
            at <= names.len(),
            forall|i: int| 0 <= i < at ==> names.deep_view()[i] != name@,
        decreases names.len() - at,
    {
        if same_text(names[at], name) {
            assert(names.deep_view()[at as int] == name@);
            return true;
        }
        at += 1;
    }
    false
}

/// Appends `count` spaces to `text`.
pub fn push_spaces(text: &mut String, count: usize)
    ensures
        final(text)@ == old(text)@ + spaces(count as nat),
{
    let mut done: usize = 0;
    proof {
        reveal_strlit(" ");
    }
    while done < count
        invariant
            done <= count,
            " "@ == seq![' '],
            text@ == old(text)@ + spaces(done as nat),
        decreases count - done,
    {
        text.append(" ");
        done += 1;
        assert(text@ =~= old(text)@ + spaces(done as nat));
    }
}

/// The text of one digit.
fn digit_text(digit: u64) -> (text: &'static str)
    requires
        digit < 10,
    ensures
        text@ == seq![digit_char(digit as int)],
{
    proof {
        reveal_strlit("0");
        reveal_strlit("1");
        reveal_strlit("2");
        reveal_strlit("3");
        reveal_strlit("4");
        reveal_strlit("5");
        reveal_strlit("6");
        reveal_strlit("7");
        reveal_strlit("8");
        reveal_strlit("9");
    }
    let text = if digit == 0 {
        "0"
    } else if digit == 1 {
        "1"
    } else if digit == 2 {
        "2"
    } else if digit == 3 {
        "3"
    } else if digit == 4 {
        "4"
    } else if digit == 5 {
        "5"
    } else if digit == 6 {
        "6"
    } else if digit == 7 {
        "7"
    } else if digit == 8 {
        "8"
    } else {
        "9"
    };
    assert(text@ =~= seq![digit_char(digit as int)]);
    text
}

/// Appends the digits of `number` to `text`.
fn push_digits(text: &mut String, number: u64)
    ensures
        final(text)@ == old(text)@ + digits(number as nat),
    decreases number,
{
    if number >= 10 {
        push_digits(text, number / 10);
    }
    text.append(digit_text(number % 10));
    assert(text@ =~= old(text)@ + digits(number as nat));
}

/// Appends `number` in decimal to `text`.
pub fn push_decimal(text: &mut String, number: i64)
    ensures
        final(text)@ == old(text)@ + decimal(number as int),
{
    if number < 0 {
        proof {
            reveal_strlit("-");
        }
        text.append("-");
        let size: u64 = (-(number + 1)) as u64 + 1;
        push_digits(text, size);
        assert(text@ =~= old(text)@ + decimal(number as int));
    } else {
        push_digits(text, number as u64);
    }
}

/// `number` in decimal.
pub fn decimal_text(number: i64) -> (text: String)
    ensures
        text@ == decimal(number as int),
{
    let mut text = String::new();
    push_decimal(&mut text, number);
    assert(text@ =~= decimal(number as int));
    text
}

} // verus!
