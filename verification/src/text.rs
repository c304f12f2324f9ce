//! Small pieces of source text: whole numbers in decimal, and names between
//! double quotes.

use vstd::prelude::*;
use vstd::string::{StrSliceExecFns, StringExecFns};

verus! {

/// The character of a decimal digit.
pub open spec fn digit_char(digit: nat) -> char {
    if digit == 0 {
        '0'
    } else if digit == 1 {
        '1'
    } else if digit == 2 {
        '2'
    } else if digit == 3 {
        '3'
    } else if digit == 4 {
        '4'
    } else if digit == 5 {
        '5'
    } else if digit == 6 {
        '6'
    } else if digit == 7 {
        '7'
    } else if digit == 8 {
        '8'
    } else {
        '9'
    }
}

/// The decimal digits of a number, the most significant first.
pub open spec fn digits_of(number: nat) -> Seq<char>
    decreases number,
{
    if number < 10 {
        seq![digit_char(number)]
    } else {
        digits_of(number / 10).push(digit_char(number % 10))
    }
}

/// A whole number in decimal, with a minus sign in front where it is
/// negative.
pub open spec fn decimal_text(number: int) -> Seq<char> {
    if number < 0 {
        seq!['-'] + digits_of((-number) as nat)
    } else {
        digits_of(number as nat)
    }
}

/// The character of the decimal digit `digit`.
pub fn digit(value: u8) -> (c: char)
    requires
        value < 10,
    ensures
        c == digit_char(value as nat),
{
    let digit: u8 = value;
    if digit == 0 {
        '0'
    } else if digit == 1 {
        '1'
    } else if digit == 2 {
        '2'
    } else if digit == 3 {
        '3'
    } else if digit == 4 {
        '4'
    } else if digit == 5 {
        '5'
    } else if digit == 6 {
        '6'
    } else if digit == 7 {
        '7'
    } else if digit == 8 {
        '8'
    } else {
        '9'
    }
}

/// Appends the decimal digits of `number` to `text`.
pub fn push_digits(text: &mut String, number: u64)
    ensures
        final(text)@ == old(text)@ + digits_of(number as nat),
    decreases number,
{
    if number >= 10 {
        push_digits(text, number / 10);
    }
    text.push(digit((number % 10) as u8));
    proof {
        assert(text@ =~= old(text)@ + digits_of(number as nat));
    }
}

/// Appends `number` in decimal to `text`.
pub fn push_decimal(text: &mut String, number: i64)
    ensures
        final(text)@ == old(text)@ + decimal_text(number as int),
{
    if number < 0 {
        text.push('-');
        let magnitude: u64 = if number == i64::MIN {
            0x8000_0000_0000_0000
        } else {
            (-number) as u64
        };
        push_digits(text, magnitude);
        proof {
            assert(text@ =~= old(text)@ + (seq!['-'] + digits_of((-number) as nat)));
        }
    } else {
        push_digits(text, number as u64);
    }
}

/// What a character becomes between double quotes: a double quote and a
/// backslash get a backslash in front; a line feed, a carriage return and a
/// tab are written as `\n`, `\r` and `\t`. A string literal can hold every
/// other character as it is.
pub open spec fn escaped(c: char) -> Seq<char> {
    if c == '"' || c == '\\' {
        seq!['\\', c]
    } else if c == '\n' {
        seq!['\\', 'n']
    } else if c == '\r' {
        seq!['\\', 'r']
    } else if c == '\t' {
        seq!['\\', 't']
    } else {
        seq![c]
    }
}

/// Appends to `text` what the character `c` becomes between double quotes.
pub fn push_escaped(text: &mut String, c: char)
    ensures
        final(text)@ == old(text)@ + escaped(c),
{
    if c == '"' || c == '\\' {
        text.push('\\');
        text.push(c);
    } else if c == '\n' {
        text.push('\\');
        text.push('n');
    } else if c == '\r' {
        text.push('\\');
        text.push('r');
    } else if c == '\t' {
        text.push('\\');
        text.push('t');
    } else {
        text.push(c);
    }
    proof {
        assert(text@ =~= old(text)@ + escaped(c));
    }
}

/// The characters of a name as they stand between double quotes.
pub open spec fn escaped_text(name: Seq<char>) -> Seq<char>
    decreases name.len(),
{
    if name.len() == 0 {
        Seq::empty()
    } else {
        escaped(name[0]) + escaped_text(name.drop_first())
    }
}

/// A name between double quotes, as a string literal of the host language.
pub open spec fn quoted_text(name: Seq<char>) -> Seq<char> {
    seq!['"'] + escaped_text(name) + seq!['"']
}

/// Appends `name` between double quotes to `text`.
pub fn push_quoted(text: &mut String, name: &str)
    ensures
        final(text)@ == old(text)@ + quoted_text(name@),
{
    text.push('"');
    let ghost start = text@;
    let length: usize = name.unicode_len();
    let mut i: usize = 0;
    proof {
        assert(name@.skip(0) =~= name@);
        assert(start + Seq::<char>::empty() =~= start);
    }
    while i < length
        invariant
            i <= length,
            length == name@.len(),
            start == old(text)@.push('"'),
            text@ + escaped_text(name@.skip(i as int)) == start + escaped_text(name@),
        decreases length - i,
    {
        let c: char = name.get_char(i);
        let ghost before = text@;
        proof {
            assert(name@.skip(i as int).drop_first() =~= name@.skip(i + 1));
            assert(name@.skip(i as int)[0] == c);
        }
        push_escaped(text, c);
        proof {
            assert(text@ + escaped_text(name@.skip(i + 1)) =~= before + (escaped(c) + escaped_text(
                name@.skip(i + 1),
            )));
        }
        i = i + 1;
    }
    text.push('"');
    proof {
        assert(escaped_text(name@.skip(i as int)) =~= Seq::<char>::empty());
        assert(text@ =~= old(text)@ + quoted_text(name@));
    }
}

/// A message about something named: `what`, then `name` between single
/// quotes.
pub fn about(what: &str, name: &str) -> (text: String)
    ensures
        text@ == what@ + " '"@ + name@ + "'"@,
{
    let mut text = String::from_str(what);
    text.append(" '");
    text.append(name);
    text.append("'");
    text
}

} // verus!
