//! Names of the log files that record what passed through the proxy.
use vstd::prelude::*;

use crate::text::push_char;

verus! {

/// The decimal digit for `d`.
pub open spec fn digit_char(d: nat) -> char {
    if d == 0 {
        '0'
    } else if d == 1 {
        '1'
    } else if d == 2 {
        '2'
    } else if d == 3 {
        '3'
    } else if d == 4 {
        '4'
    } else if d == 5 {
        '5'
    } else if d == 6 {
        '6'
    } else if d == 7 {
        '7'
    } else if d == 8 {
        '8'
    } else {
        '9'
    }
}

/// `n` written in decimal, without leading zeros.
pub open spec fn decimal(n: nat) -> Seq<char>
    decreases n,
{
    if n < 10 {
        seq![digit_char(n)]
    } else {
        decimal(n / 10).push(digit_char(n % 10))
    }
}

/// The name of a log file: the time in milliseconds, a dash, the label, `.json`.
pub open spec fn log_name(millis: u128, label: Seq<char>) -> Seq<char> {
    decimal(millis as nat) + seq!['-'] + label + ".json"@
}

fn digit(d: u128) -> (c: char)
    requires
        d < 10,
    ensures
        c == digit_char(d as nat),
{
    if d == 0 {
        '0'
    } else if d == 1 {
        '1'
    } else if d == 2 {
        '2'
    } else if d == 3 {
        '3'
    } else if d == 4 {
        '4'
    } else if d == 5 {
        '5'
    } else if d == 6 {
        '6'
    } else if d == 7 {
        '7'
    } else if d == 8 {
        '8'
    } else {
        '9'
    }
}

/// Appends `n` in decimal.
fn push_decimal(out: &mut String, n: u128)
    ensures
        final(out)@ == old(out)@ + decimal(n as nat),
    decreases n,
{
    if n < 10 {
        push_char(out, digit(n));
        assert(final(out)@ =~= old(out)@ + decimal(n as nat));
    } else {
        push_decimal(out, n / 10);
        push_char(out, digit(n % 10));
        assert(final(out)@ =~= old(out)@ + decimal(n as nat));
    }
}

/// The file name under which bytes are logged at `millis` (milliseconds since
/// the Unix epoch) with `label`: `{millis}-{label}.json`.
pub fn log_file_name(millis: u128, label: &str) -> (name: String)
    ensures
        name@ == log_name(millis, label@),
{
    let mut name = String::new();
    push_decimal(&mut name, millis);
    push_char(&mut name, '-');
    name.append(label);
    name.append(".json");
    assert(name@ =~= log_name(millis, label@));
    name
}

} // verus!
