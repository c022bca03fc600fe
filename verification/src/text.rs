//! Numbers as text.

use vstd::prelude::*;

use crate::float::Single;
use crate::number;
use crate::number::Number;
use crate::value::{quotient, scaled_half_even, whole, Format, Value};

verus! {

/// The character of a decimal digit.
pub open spec fn digit(d: nat) -> char {
    ('0' as nat + d) as char
}

/// `n` in decimal digits.
pub open spec fn decimal(n: nat) -> Seq<char>
    decreases n,
{
    if n < 10 {
        seq![digit(n)]
    } else {
        decimal(n / 10).push(digit(n % 10))
    }
}

/// A number with one digit after the point.
pub open spec fn one_place(v: Value) -> Seq<char> {
    match v {
        Value::Finite { neg, .. } => {
            let tenths = scaled_half_even(Format::Single, v, 10);
            sign(neg) + decimal(tenths / 10) + seq!['.'] + seq![digit(tenths % 10)]
        },
        _ => special(v),
    }
}

/// A number without digits after the point.
pub open spec fn no_places(v: Value) -> Seq<char> {
    match v {
        Value::Finite { neg, .. } => sign(neg) + decimal(scaled_half_even(Format::Single, v, 1)),
        _ => special(v),
    }
}

/// The sign of a negative number.
pub open spec fn sign(neg: bool) -> Seq<char> {
    if neg {
        seq!['-']
    } else {
        seq![]
    }
}

/// What is written for a number that is not finite.
pub open spec fn special(v: Value) -> Seq<char> {
    match v {
        Value::Infinite { neg } => sign(neg) + seq!['i', 'n', 'f'],
        _ => seq!['N', 'a', 'N'],
    }
}

/// `text` behind as many spaces as it lacks of `width`.
pub open spec fn padded(text: Seq<char>, width: nat) -> Seq<char> {
    if text.len() < width {
        Seq::new((width - text.len()) as nat, |i: int| ' ') + text
    } else {
        text
    }
}

/// Writes a decimal digit at the end of `s`.
fn push_digit(s: &mut String, d: u64)
    requires
        d < 10,
    ensures
        final(s)@ == old(s)@.push(digit(d as nat)),
{
    proof {
        reveal_strlit("0");
        reveal_strlit("1");
        reveal_strlit("2");
        reveal_strlit("3");
        reveal_strlit("4");
        reveal_strlit("5");
        reveal_strlit("6");
        reveal_strlit("7");
        reveal_strlit("8");
        reveal_strlit("9");
    }
    let text = if d == 0 {
        "0"
    } else if d == 1 {
        "1"
    } else if d == 2 {
        "2"
    } else if d == 3 {
        "3"
    } else if d == 4 {
        "4"
    } else if d == 5 {
        "5"
    } else if d == 6 {
        "6"
    } else if d == 7 {
        "7"
    } else if d == 8 {
        "8"
    } else {
        "9"
    };
    assert(text@ =~= seq![digit(d as nat)]);
    s.append(text);
}

/// Writes `n` at the end of `s`.
pub fn push_decimal(s: &mut String, n: u128)
    ensures
        final(s)@ == old(s)@ + decimal(n as nat),
    decreases n,
{
    if n >= 10 {
        push_decimal(s, n / 10);
    }
    push_digit(s, (n % 10) as u64);
}

fn push_special(s: &mut String, n: Number)
    requires
        n !is Finite,
    ensures
        final(s)@ == old(s)@ + special(n@),
{
    proof {
        reveal_strlit("inf");
        reveal_strlit("-inf");
        reveal_strlit("NaN");
    }
    match n {
        Number::Infinite { neg: false } => s.append("inf"),
        Number::Infinite { neg: true } => s.append("-inf"),
        _ => s.append("NaN"),
    }
}

fn push_sign(s: &mut String, neg: bool)
    ensures
        final(s)@ == old(s)@ + sign(neg),
{
    proof {
        reveal_strlit("-");
    }
    if neg {
        s.append("-");
    }
}

impl Single {
    /// The number with one digit after the point.
    pub fn to_one_place(self) -> (s: String)
        ensures
            s@ == one_place(self@),
    {
        let mut s = String::new();
        self.push_one_place(&mut s);
        s
    }

    /// Writes the number with one digit after the point at the end of `s`.
    pub fn push_one_place(self, s: &mut String)
        ensures
            final(s)@ == old(s)@ + one_place(self@),
    {
        let n = self.unpack();
        if let Number::Finite { neg, mag } = n {
            proof {
                reveal_strlit(".");
            }
            let (whole, tenth) = number::count_parts(mag, 10);
            push_sign(s, neg);
            push_decimal(s, whole);
            s.append(".");
            push_digit(s, tenth);
        } else {
            push_special(s, n);
        }
    }

    /// Writes the number without digits after the point at the end of `s`.
    pub fn push_no_places(self, s: &mut String)
        ensures
            final(s)@ == old(s)@ + no_places(self@),
    {
        let n = self.unpack();
        if let Number::Finite { neg, mag } = n {
            let (whole, rest) = number::count_parts(mag, 1);
            push_sign(s, neg);
            push_decimal(s, whole);
        } else {
            push_special(s, n);
        }
    }
}

/// `n / d` in single precision, with one digit after the point.
pub open spec fn ratio_text(n: u64, d: u64) -> Seq<char> {
    one_place(
        quotient(
            Format::Single,
            whole(Format::Single, n as nat),
            whole(Format::Single, d as nat),
        ),
    )
}

fn push_ratio(s: &mut String, n: u64, d: u64)
    ensures
        final(s)@ == old(s)@ + ratio_text(n, d),
{
    Single::from_whole(n).over(Single::from_whole(d)).push_one_place(s);
}

/// A rate in bytes per second: from a million on in megabytes, from a thousand
/// on in kilobytes, else in bytes.
pub open spec fn rate_text(bytes_per_sec: u64) -> Seq<char> {
    if bytes_per_sec >= 1_000_000 {
        ratio_text(bytes_per_sec, 1_000_000) + " MB/s"@
    } else if bytes_per_sec >= 1_000 {
        ratio_text(bytes_per_sec, 1_000) + " KB/s"@
    } else {
        decimal(bytes_per_sec as nat) + " B/s"@
    }
}

/// Writes a rate at the end of `s`.
pub fn push_rate(s: &mut String, bytes_per_sec: u64)
    ensures
        final(s)@ == old(s)@ + rate_text(bytes_per_sec),
{
    let ghost before = s@;
    if bytes_per_sec >= 1_000_000 {
        push_ratio(s, bytes_per_sec, 1_000_000);
        s.append(" MB/s");
    } else if bytes_per_sec >= 1_000 {
        push_ratio(s, bytes_per_sec, 1_000);
        s.append(" KB/s");
    } else {
        push_decimal(s, bytes_per_sec as u128);
        s.append(" B/s");
    }
    assert(s@ =~= before + rate_text(bytes_per_sec));
}

/// Mebibytes in gibibytes, with one digit after the point.
pub open spec fn gibibytes_text(mebibytes: u64) -> Seq<char> {
    ratio_text(mebibytes, 1024)
}

/// Writes mebibytes as gibibytes at the end of `s`.
pub fn push_gibibytes(s: &mut String, mebibytes: u64)
    ensures
        final(s)@ == old(s)@ + gibibytes_text(mebibytes),
{
    push_ratio(s, mebibytes, 1024);
}

/// `text` behind as many spaces as it lacks of `width`.
pub fn pad(text: &str, width: usize) -> (s: String)
    ensures
        s@ == padded(text@, width as nat),
{
    proof {
        reveal_strlit(" ");
    }
    let length = text.unicode_len();
    let mut s = String::new();
    let mut missing: usize = if length < width {
        width - length
    } else {
        0
    };
    let ghost all = missing;
    while missing > 0
        invariant
            missing <= all,
            " "@ == seq![' '],
            s@ == Seq::new((all - missing) as nat, |i: int| ' '),
        decreases missing,
    {
        s.append(" ");
        missing = missing - 1;
        assert(s@ =~= Seq::new((all - missing) as nat, |i: int| ' '));
    }
    s.append(text);
    assert(s@ =~= padded(text@, width as nat));
    s
}

} // verus!
