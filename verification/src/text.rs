//! Numbers as text.

use vstd::prelude::*;
use vstd::string::StringExecFns;

verus! {

/// The digit of value `d`.
pub open spec fn digit(d: int) -> char {
    if d <= 0 {
        '0'
    } else if d == 1 {
        '1'
    } else if d == 2 {
        '2'
    } else if d == 3 {
        '3'
    } else if d == 4 {
        '4'
    } else if d == 5 {
        '5'
    } else if d == 6 {
        '6'
    } else if d == 7 {
        '7'
    } else if d == 8 {
        '8'
    } else {
        '9'
    }
}

/// The decimal digits of `n`.
pub open spec fn digits(n: nat) -> Seq<char>
    decreases n,
{
    if n < 10 {
        seq![digit(n as int)]
    } else {
        digits(n / 10).push(digit((n % 10) as int))
    }
}

/// The first `places` decimal places of the fraction `n` over ten to the power `places`,
/// without zeros at the end.
pub open spec fn places(n: nat, count: nat) -> Seq<char>
    decreases count,
{
    if n == 0 || count == 0 {
        Seq::empty()
    } else {
        let unit = power_of_ten((count - 1) as nat);
        seq![digit((n / unit) as int)] + places(n % unit, (count - 1) as nat)
    }
}

/// Ten to the power `n`.
pub open spec fn power_of_ten(n: nat) -> nat
    decreases n,
{
    if n == 0 {
        1
    } else {
        10 * power_of_ten((n - 1) as nat)
    }
}

/// Millionths of a unit in the fraction `rest` over `one`, rounded to the nearest.
pub open spec fn millionths(rest: int, one: int) -> int {
    (2 * rest * 1000000 + one) / (2 * one)
}

/// The number `gap` over `one`, to six decimal places at most.
pub open spec fn gap_text(gap: int, one: int) -> Seq<char> {
    if gap == i128::MAX {
        "inf"@
    } else {
        let micros = millionths(gap % one, one);
        let whole = gap / one + micros / 1000000;
        let part = micros % 1000000;
        if part == 0 {
            digits(whole as nat)
        } else {
            digits(whole as nat) + "."@ + places(part as nat, 6)
        }
    }
}

fn push_digit(out: &mut String, d: u128)
    requires
        d < 10,
    ensures
        final(out)@ == old(out)@.push(digit(d as int)),
{
    proof {
        reveal_strlit("0");
        reveal_strlit("1");
        reveal_strlit("2");
        reveal_strlit("3");
        reveal_strlit("4");
        reveal_strlit("5");
        reveal_strlit("6");
        reveal_strlit("7");
        reveal_strlit("8");
        reveal_strlit("9");
    }
    let ghost before = out@;
    if d == 0 {
        out.append("0");
    } else if d == 1 {
        out.append("1");
    } else if d == 2 {
        out.append("2");
    } else if d == 3 {
        out.append("3");
    } else if d == 4 {
        out.append("4");
    } else if d == 5 {
        out.append("5");
    } else if d == 6 {
        out.append("6");
    } else if d == 7 {
        out.append("7");
    } else if d == 8 {
        out.append("8");
    } else {
        out.append("9");
    }
    assert(out@ =~= before.push(digit(d as int)));
}

/// Writes a number behind a text.
pub fn push_number(out: &mut String, n: u128)
    ensures
        final(out)@ == old(out)@ + digits(n as nat),
    decreases n,
{
    let ghost before = out@;
    if n < 10 {
        push_digit(out, n);
        assert(before.push(digit(n as int)) =~= before + digits(n as nat));
    } else {
        push_number(out, n / 10);
        push_digit(out, n % 10);
        assert((before + digits((n / 10) as nat)).push(digit((n % 10) as int)) =~= before + digits(
            n as nat,
        ));
    }
}

/// Writes the decimal places of a fraction of a million behind a text.
fn push_places(out: &mut String, part: u128)
    requires
        part < 1000000,
    ensures
        final(out)@ == old(out)@ + places(part as nat, 6),
{
    let ghost before = out@;
    let mut n: u128 = part;
    let mut unit: u128 = 100000;
    let ghost mut count: nat = 6;
    proof {
        reveal_with_fuel(power_of_ten, 7);
        assert(before + places(part as nat, 6) =~= out@ + places(n as nat, count));
    }
    while n > 0 && unit > 0
        invariant
            count <= 6,
            count > 0 ==> unit == power_of_ten((count - 1) as nat),
            count == 0 ==> unit == 0 && n == 0,
            n < 10 * unit || (n == 0 && unit == 0),
            before + places(part as nat, 6) == out@ + places(n as nat, count),
        decreases count,
    {
        let d: u128 = n / unit;
        let ghost text = out@;
        let ghost rest = places((n % unit) as nat, (count - 1) as nat);
        proof {
            reveal_with_fuel(power_of_ten, 7);
            assert(0 <= d < 10) by (nonlinear_arith)
                requires
                    d == n / unit,
                    n < 10 * unit,
                    unit > 0,
            ;
        }
        push_digit(out, d);
        assert(text + places(n as nat, count) =~= out@ + rest);
        n = n % unit;
        unit = unit / 10;
        proof {
            count = (count - 1) as nat;
        }
    }
    proof {
        assert(out@ + places(n as nat, count) =~= out@);
    }
}

/// The number `gap` over `one` as text.
pub fn format_numeric_gap(gap: i128, one: i64) -> (r: String)
    requires
        gap >= 0,
        1 <= one <= 0x2000_0000_0000_0000,
    ensures
        r@ == gap_text(gap as int, one as int),
{
    let mut out: String = String::from_str("");
    proof {
        reveal_strlit("");
        assert(out@ =~= Seq::<char>::empty());
    }
    if gap == i128::MAX {
        out.append("inf");
        assert(out@ =~= "inf"@);
        return out;
    }
    let wide: i128 = one as i128;
    let rest: i128 = gap % wide;
    let micros: i128 = (2 * rest * 1000000 + wide) / (2 * wide);
    proof {
        assert(0 <= micros <= 1000000) by (nonlinear_arith)
            requires
                0 <= rest < wide,
                micros == (2 * rest * 1000000 + wide) / (2 * wide),
        ;
        assert(0 <= gap / wide <= gap) by (nonlinear_arith)
            requires
                gap >= 0,
                wide >= 1,
        ;
    }
    let whole: i128 = gap / wide + micros / 1000000;
    let part: i128 = micros % 1000000;
    push_number(&mut out, whole as u128);
    assert(out@ =~= digits(whole as nat));
    if part != 0 {
        out.append(".");
        push_places(&mut out, part as u128);
    }
    out
}

} // verus!
