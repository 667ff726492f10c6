//! Decimal text of numbers, and durations written as hours, minutes and
//! seconds.

use vstd::prelude::*;

use vstd::string::StringExecFns;

verus! {

/// The decimal digit character of `d`.
pub open spec fn digit_char(d: nat) -> char {
    if d == 0 {
        '0'
    } else if d == 1 {
        '1'
    } else if d == 2 {
        '2'
    } else if d == 3 {
        '3'
    } else if d == 4 {
        '4'
    } else if d == 5 {
        '5'
    } else if d == 6 {
        '6'
    } else if d == 7 {
        '7'
    } else if d == 8 {
        '8'
    } else {
        '9'
    }
}

/// The decimal text of `n`, without leading zeros.
pub open spec fn decimal_text(n: nat) -> Seq<char>
    decreases n,
{
    if n < 10 {
        seq![digit_char(n)]
    } else {
        decimal_text(n / 10).push(digit_char(n % 10))
    }
}

/// The decimal text of `n`, with a leading zero when it has one digit.
pub open spec fn two_digit_text(n: nat) -> Seq<char> {
    if n < 10 {
        seq!['0'] + decimal_text(n)
    } else {
        decimal_text(n)
    }
}

/// `secs` written as hours, minutes and seconds, `HH:MM:SS`, each part at
/// least two digits.
pub open spec fn duration_text(secs: nat) -> Seq<char> {
    two_digit_text(secs / 3600) + seq![':'] + two_digit_text((secs % 3600) / 60) + seq![':']
        + two_digit_text(secs % 60)
}

fn digit_str(d: u64) -> (res: &'static str)
    requires
        d < 10,
    ensures
        res@ == seq![digit_char(d as nat)],
{
    proof {
        reveal_strlit("0");
        reveal_strlit("1");
        reveal_strlit("2");
        reveal_strlit("3");
        reveal_strlit("4");
        reveal_strlit("5");
        reveal_strlit("6");
        reveal_strlit("7");
        reveal_strlit("8");
        reveal_strlit("9");
    }
    if d == 0 {
        "0"
    } else if d == 1 {
        "1"
    } else if d == 2 {
        "2"
    } else if d == 3 {
        "3"
    } else if d == 4 {
        "4"
    } else if d == 5 {
        "5"
    } else if d == 6 {
        "6"
    } else if d == 7 {
        "7"
    } else if d == 8 {
        "8"
    } else {
        "9"
    }
}

/// The decimal text of `n`.
pub fn decimal(n: u64) -> (res: String)
    ensures
        res@ == decimal_text(n as nat),
    decreases n,
{
    if n < 10 {
        String::from_str(digit_str(n))
    } else {
        let mut s = decimal(n / 10);
        s.append(digit_str(n % 10));
        s
    }
}

/// `text` followed by the decimal text of `n`.
pub fn with_number(text: &str, n: u64) -> (res: String)
    ensures
        res@ == text@ + decimal_text(n as nat),
{
    let mut s = String::from_str(text);
    let d = decimal(n);
    s.append(d.as_str());
    s
}

fn two_digits(n: u64) -> (res: String)
    ensures
        res@ == two_digit_text(n as nat),
{
    if n < 10 {
        let mut s = String::from_str("0");
        proof {
            reveal_strlit("0");
        }
        let d = decimal(n);
        s.append(d.as_str());
        s
    } else {
        decimal(n)
    }
}

/// `secs` as `HH:MM:SS` (see `duration_text`).
pub fn format_duration(secs: u64) -> (res: String)
    ensures
        res@ == duration_text(secs as nat),
{
    let hours = secs / 3600;
    let mins = (secs % 3600) / 60;
    let rest = secs % 60;
    let mut s = two_digits(hours);
    proof {
        reveal_strlit(":");
    }
    s.append(":");
    let m = two_digits(mins);
    s.append(m.as_str());
    s.append(":");
    let r = two_digits(rest);
    s.append(r.as_str());
    s
}

} // verus!
