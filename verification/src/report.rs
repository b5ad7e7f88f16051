//! The lines a timed run prints, built character by character.
//!
//! Every line is specified as a sequence of characters over the numbers it
//! shows, and the functions that build the strings are proved to produce
//! exactly that sequence.

use vstd::prelude::*;

verus! {

/// The character for a single decimal digit.
pub open spec fn digit_char(d: int) -> char {
    if d == 0 {
        '0'
    } else if d == 1 {
        '1'
    } else if d == 2 {
        '2'
    } else if d == 3 {
        '3'
    } else if d == 4 {
        '4'
    } else if d == 5 {
        '5'
    } else if d == 6 {
        '6'
    } else if d == 7 {
        '7'
    } else if d == 8 {
        '8'
    } else {
        '9'
    }
}

/// `c` is one of the ten decimal digits.
pub open spec fn is_digit(c: char) -> bool {
    '0' <= c <= '9'
}

/// The decimal numeral of `n`: most significant digit first, no leading
/// zero except for zero itself.
pub open spec fn decimal(n: nat) -> Seq<char>
    decreases n,
{
    if n < 10 {
        seq![digit_char(n as int)]
    } else {
        decimal(n / 10).push(digit_char((n % 10) as int))
    }
}

/// The decimal numeral of an integer, with a minus sign for negative values.
pub open spec fn signed_decimal(v: int) -> Seq<char> {
    if v < 0 {
        seq!['-'] + decimal((-v) as nat)
    } else {
        decimal(v as nat)
    }
}

/// `count` blanks.
pub open spec fn spaces(count: nat) -> Seq<char> {
    Seq::new(count, |i: int| ' ')
}

/// `text` moved to the right edge of a field of at least `width` characters:
/// blanks fill the field on the left, and a text that is already as wide as
/// the field is left as it is.
pub open spec fn right_justified(text: Seq<char>, width: nat) -> Seq<char> {
    if text.len() >= width {
        text
    } else {
        spaces((width - text.len()) as nat) + text
    }
}

/// One-character string for a decimal digit.
fn digit_str(d: u8) -> (s: &'static str)
    requires
        d < 10,
    ensures
        s@ == seq![digit_char(d as int)],
{
    proof {
        reveal_strlit("0");
        reveal_strlit("1");
        reveal_strlit("2");
        reveal_strlit("3");
        reveal_strlit("4");
        reveal_strlit("5");
        reveal_strlit("6");
        reveal_strlit("7");
        reveal_strlit("8");
        reveal_strlit("9");
    }
    let s = if d == 0 {
        "0"
    } else if d == 1 {
        "1"
    } else if d == 2 {
        "2"
    } else if d == 3 {
        "3"
    } else if d == 4 {
        "4"
    } else if d == 5 {
        "5"
    } else if d == 6 {
        "6"
    } else if d == 7 {
        "7"
    } else if d == 8 {
        "8"
    } else {
        "9"
    };
    assert(s@ =~= seq![digit_char(d as int)]);
    s
}

/// Appends the decimal numeral of `n` to `out`.
fn push_decimal(out: &mut String, n: u128)
    ensures
        final(out)@ == old(out)@ + decimal(n as nat),
    decreases n,
{
    if n >= 10 {
        push_decimal(out, n / 10);
    }
    let d: u8 = (n % 10) as u8;
    out.append(digit_str(d));
    assert(out@ =~= old(out)@ + decimal(n as nat));
}

/// Appends `count` blanks to `out`.
fn push_spaces(out: &mut String, count: usize)
    ensures
        final(out)@ == old(out)@ + spaces(count as nat),
{
    let mut written: usize = 0;
    assert(out@ =~= old(out)@ + spaces(0));
    while written < count
        invariant
            written <= count,
            out@ == old(out)@ + spaces(written as nat),
        decreases count - written,
    {
        let ghost before = out@;
        out.append(" ");
        written = written + 1;
        assert(out@ =~= old(out)@ + spaces(written as nat)) by {
            reveal_strlit(" ");
            assert(out@ == before + " "@);
        }
    }
}

/// Appends `text` to `out`, right-justified in a field of `width`
/// characters.
fn push_right_justified(out: &mut String, text: &str, width: usize)
    ensures
        final(out)@ == old(out)@ + right_justified(text@, width as nat),
{
    let len: usize = text.unicode_len();
    if len < width {
        push_spaces(out, width - len);
    }
    out.append(text);
    assert(out@ =~= old(out)@ + right_justified(text@, width as nat));
}

/// The decimal numeral of `v` as a string.
fn signed_decimal_string(v: i32) -> (text: String)
    ensures
        text@ == signed_decimal(v as int),
{
    let mut text = String::new();
    if v < 0 {
        proof {
            reveal_strlit("-");
        }
        text.append("-");
        let magnitude: u128 = (-(v as i64)) as u128;
        push_decimal(&mut text, magnitude);
    } else {
        push_decimal(&mut text, v as u128);
    }
    assert(text@ =~= signed_decimal(v as int));
    text
}

/// The line that reports how many primes were found below the bound.
pub open spec fn result_line_text(primes: int, bound: int) -> Seq<char> {
    "result: "@ + right_justified(signed_decimal(primes), 8) + " primes in "@ + right_justified(
        signed_decimal(bound),
        8,
    )
}

/// Renders the result line: the count and the bound, each right-justified
/// in a field of eight characters.
pub fn result_line(primes: i32, bound: i32) -> (line: String)
    ensures
        line@ == result_line_text(primes as int, bound as int),
{
    let primes_text = signed_decimal_string(primes);
    let bound_text = signed_decimal_string(bound);
    let mut line = String::new();
    line.append("result: ");
    push_right_justified(&mut line, primes_text.as_str(), 8);
    line.append(" primes in ");
    push_right_justified(&mut line, bound_text.as_str(), 8);
    assert(line@ =~= result_line_text(primes as int, bound as int));
    line
}

/// A span of nanoseconds in whole microseconds, rounded to the nearest one;
/// half a microsecond rounds upward.
pub open spec fn rounded_micros(nanos: nat) -> nat {
    (nanos + 500) / 1000
}

/// The six digits that follow the decimal point for `micros` millionths,
/// leading zeros kept.
pub open spec fn six_digits(micros: nat) -> Seq<char> {
    seq![
        digit_char((micros / 100000 % 10) as int),
        digit_char((micros / 10000 % 10) as int),
        digit_char((micros / 1000 % 10) as int),
        digit_char((micros / 100 % 10) as int),
        digit_char((micros / 10 % 10) as int),
        digit_char((micros % 10) as int),
    ]
}

/// A span of nanoseconds written in seconds with six decimal places: the
/// whole seconds, a point, and the millionths.
pub open spec fn seconds_text(nanos: nat) -> Seq<char> {
    let micros = rounded_micros(nanos);
    decimal(micros / 1000000) + seq!['.'] + six_digits(micros % 1000000)
}

/// The line that reports the elapsed time.
pub open spec fn time_line_text(nanos: nat) -> Seq<char> {
    "time: "@ + right_justified(seconds_text(nanos), 10) + " seconds."@
}

/// The seconds field of a span of `nanos` nanoseconds as a string.
fn seconds_string(nanos: u128) -> (text: String)
    ensures
        text@ == seconds_text(nanos as nat),
{
    let carry: u128 = if nanos % 1000 >= 500 {
        1
    } else {
        0
    };
    let micros: u128 = nanos / 1000 + carry;
    assert(micros == rounded_micros(nanos as nat));
    let whole: u128 = micros / 1000000;
    let part: u128 = micros % 1000000;
    let mut text = String::new();
    push_decimal(&mut text, whole);
    proof {
        reveal_strlit(".");
    }
    text.append(".");
    text.append(digit_str((part / 100000 % 10) as u8));
    text.append(digit_str((part / 10000 % 10) as u8));
    text.append(digit_str((part / 1000 % 10) as u8));
    text.append(digit_str((part / 100 % 10) as u8));
    text.append(digit_str((part / 10 % 10) as u8));
    text.append(digit_str((part % 10) as u8));
    assert(text@ =~= seconds_text(nanos as nat));
    text
}

/// Renders the time line for a run that took `nanos` nanoseconds: the time
/// in seconds with exactly six decimal places, right-justified in a field of
/// ten characters.
pub fn time_line(nanos: u128) -> (line: String)
    ensures
        line@ == time_line_text(nanos as nat),
{
    let seconds = seconds_string(nanos);
    let mut line = String::new();
    line.append("time: ");
    push_right_justified(&mut line, seconds.as_str(), 10);
    line.append(" seconds.");
    assert(line@ =~= time_line_text(nanos as nat));
    line
}

/// The whole report of a run: the label of the program, the result line and
/// the time line, each closed by a line feed.
pub open spec fn report_text(label: Seq<char>, primes: int, bound: int, nanos: nat) -> Seq<char> {
    label + seq!['\n'] + result_line_text(primes, bound) + seq!['\n'] + time_line_text(nanos)
        + seq!['\n']
}

/// Renders the three lines a run prints: `label` on a line of its own, then
/// the result line for `primes` found below `bound`, then the time line for
/// `nanos` nanoseconds.
pub fn report(label: &str, primes: i32, bound: i32, nanos: u128) -> (text: String)
    ensures
        text@ == report_text(label@, primes as int, bound as int, nanos as nat),
{
    let result = result_line(primes, bound);
    let time = time_line(nanos);
    proof {
        reveal_strlit("\n");
    }
    let mut text = String::new();
    text.append(label);
    text.append("\n");
    text.append(result.as_str());
    text.append("\n");
    text.append(time.as_str());
    text.append("\n");
    assert(text@ =~= report_text(label@, primes as int, bound as int, nanos as nat));
    text
}

/// Every character of `text` is a decimal digit.
pub open spec fn all_digits(text: Seq<char>) -> bool {
    forall|i: int| 0 <= i < text.len() ==> is_digit(#[trigger] text[i])
}

/// A decimal numeral is a non-empty run of digits.
pub proof fn lemma_decimal_shape(n: nat)
    ensures
        decimal(n).len() >= 1,
        all_digits(decimal(n)),
    decreases n,
{
    if n >= 10 {
        lemma_decimal_shape(n / 10);
    }
}

/// Whatever the length of a run, its seconds field has the same layout: it
/// is at least ten characters wide, it ends in a point followed by exactly
/// six digits, a digit stands before the point, and everything further left
/// is digits preceded by the blanks that fill the field.
pub proof fn lemma_seconds_field_shape(nanos: nat)
    ensures
        ({
            let text = seconds_text(nanos);
            let field = right_justified(text, 10);
            let point = field.len() - 7;
            let blanks = field.len() - text.len();
            &&& field.len() >= 10
            &&& field.len() == if text.len() < 10 {
                10
            } else {
                text.len()
            }
            &&& 0 <= blanks < point
            &&& forall|i: int| 0 <= i < blanks ==> field[i] == ' '
            &&& forall|i: int| blanks <= i < point ==> is_digit(field[i])
            &&& field[point] == '.'
            &&& forall|i: int| point < i < field.len() ==> is_digit(field[i])
        }),
{
    let micros = rounded_micros(nanos);
    let whole = decimal(micros / 1000000);
    let part = six_digits(micros % 1000000);
    lemma_decimal_shape(micros / 1000000);
    let text = seconds_text(nanos);
    assert(text.len() == whole.len() + 7);
    assert(forall|i: int| 0 <= i < whole.len() ==> text[i] == whole[i]);
    assert(text[whole.len() as int] == '.');
    assert(forall|i: int| 0 <= i < 6 ==> is_digit(#[trigger] part[i]));
    assert(forall|i: int| whole.len() < i < text.len() ==> text[i] == part[i - whole.len() - 1]);
}

} // verus!
