//! Amounts and transfers as text.

use vstd::prelude::*;

use crate::model::TransferView;

verus! {

/// The character for a digit below ten.
pub open spec fn digit(d: int) -> char {
    if d == 0 {
        '0'
    } else if d == 1 {
        '1'
    } else if d == 2 {
        '2'
    } else if d == 3 {
        '3'
    } else if d == 4 {
        '4'
    } else if d == 5 {
        '5'
    } else if d == 6 {
        '6'
    } else if d == 7 {
        '7'
    } else if d == 8 {
        '8'
    } else {
        '9'
    }
}

/// `n` in decimal digits, without leading zeros.
pub open spec fn decimal(n: nat) -> Seq<char>
    decreases n,
{
    if n < 10 {
        seq![digit(n as int)]
    } else {
        decimal(n / 10).push(digit((n % 10) as int))
    }
}

/// An amount of micro-units in hundredths of the currency unit, rounded to
/// the nearest; a half is rounded up.
pub open spec fn hundredths(units: nat) -> nat {
    if units % 10_000 >= 5_000 {
        units / 10_000 + 1
    } else {
        units / 10_000
    }
}

/// An amount of micro-units as currency units with two decimal places.
pub open spec fn money(units: nat) -> Seq<char> {
    let h = hundredths(units);
    decimal(h / 100).push('.').push(digit(((h / 10) % 10) as int)).push(digit((h % 10) as int))
}

/// The sentence that tells a debtor what to pay to whom.
pub open spec fn transfer_line(t: TransferView) -> Seq<char> {
    t.debtor + " should pay "@ + t.creditor + " "@ + money(t.amount as nat)
}

fn digit_str(d: u8) -> (s: &'static str)
    requires
        d < 10,
    ensures
        s@ == seq![digit(d as int)],
{
    proof {
        reveal_strlit("0");
        reveal_strlit("1");
        reveal_strlit("2");
        reveal_strlit("3");
        reveal_strlit("4");
        reveal_strlit("5");
        reveal_strlit("6");
        reveal_strlit("7");
        reveal_strlit("8");
        reveal_strlit("9");
    }
    let s = if d == 0 {
        "0"
    } else if d == 1 {
        "1"
    } else if d == 2 {
        "2"
    } else if d == 3 {
        "3"
    } else if d == 4 {
        "4"
    } else if d == 5 {
        "5"
    } else if d == 6 {
        "6"
    } else if d == 7 {
        "7"
    } else if d == 8 {
        "8"
    } else {
        "9"
    };
    assert(s@ =~= seq![digit(d as int)]);
    s
}

/// Appends `n` in decimal digits to `out`.
pub fn push_decimal(out: &mut String, n: u128)
    ensures
        final(out)@ == old(out)@ + decimal(n as nat),
    decreases n,
{
    if n >= 10 {
        push_decimal(out, n / 10);
    }
    out.append(digit_str((n % 10) as u8));
    assert(out@ =~= old(out)@ + decimal(n as nat));
}

/// Appends an amount of micro-units to `out`, as currency units with two
/// decimal places.
pub fn push_money(out: &mut String, units: u128)
    ensures
        final(out)@ == old(out)@ + money(units as nat),
{
    let h: u128 = if units % 10_000 >= 5_000 {
        units / 10_000 + 1
    } else {
        units / 10_000
    };
    push_decimal(out, h / 100);
    proof {
        reveal_strlit(".");
    }
    out.append(".");
    out.append(digit_str(((h / 10) % 10) as u8));
    out.append(digit_str((h % 10) as u8));
    assert(out@ =~= old(out)@ + money(units as nat));
}

} // verus!
