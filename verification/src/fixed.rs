//! Fixed-point numbers: a value `v` stands for `v / UNIT`.
use vstd::prelude::*;

verus! {

/// The number one. Distances and their components are integers counted in
/// units of `1 / UNIT`.
pub const UNIT: i64 = 1_000_000_000_000;

/// One half, the value of a component about which nothing is known.
pub const NEUTRAL: i64 = 500_000_000_000;

/// `v` moved into the range from zero to one.
pub open spec fn clamped(v: int) -> int {
    if v < 0 {
        0
    } else if v > UNIT {
        UNIT as int
    } else {
        v
    }
}

/// The decimal digit that stands for `d`, for `d` below ten.
pub open spec fn digit(d: int) -> char {
    if d == 0 {
        '0'
    } else if d == 1 {
        '1'
    } else if d == 2 {
        '2'
    } else if d == 3 {
        '3'
    } else if d == 4 {
        '4'
    } else if d == 5 {
        '5'
    } else if d == 6 {
        '6'
    } else if d == 7 {
        '7'
    } else if d == 8 {
        '8'
    } else {
        '9'
    }
}

/// `n` in decimal digits, without leading zeros.
pub open spec fn decimal(n: nat) -> Seq<char>
    decreases n,
{
    if n < 10 {
        seq![digit(n as int)]
    } else {
        decimal(n / 10).push(digit((n % 10) as int))
    }
}

/// `m / UNIT` in hundredths, rounded to the nearest one; a tie goes to the even one.
pub open spec fn hundredths(m: nat) -> nat {
    let whole = (m * 100 / UNIT as nat) as nat;
    let rest = (m * 100 % UNIT as nat) as nat;
    if 2 * rest > UNIT || (2 * rest == UNIT && whole % 2 == 1) {
        whole + 1
    } else {
        whole
    }
}

/// `v / UNIT` written with two decimal places.
pub open spec fn two_places(v: int) -> Seq<char> {
    let m = if v < 0 {
        -v
    } else {
        v
    };
    let h = hundredths(m as nat);
    (if v < 0 {
        seq!['-']
    } else {
        Seq::<char>::empty()
    }) + decimal(h / 100) + seq!['.', digit((h / 10 % 10) as int), digit((h % 10) as int)]
}

/// Moves `v` into the range from zero to one.
pub fn clamp(v: i128) -> (r: i64)
    ensures
        r == clamped(v as int),
{
    if v < 0 {
        0
    } else if v > UNIT as i128 {
        UNIT
    } else {
        v as i64
    }
}

/// The decimal digit that stands for `d`.
pub fn digit_char(d: u8) -> (c: char)
    requires
        d < 10,
    ensures
        c == digit(d as int),
{
    if d == 0 {
        '0'
    } else if d == 1 {
        '1'
    } else if d == 2 {
        '2'
    } else if d == 3 {
        '3'
    } else if d == 4 {
        '4'
    } else if d == 5 {
        '5'
    } else if d == 6 {
        '6'
    } else if d == 7 {
        '7'
    } else if d == 8 {
        '8'
    } else {
        '9'
    }
}

/// Appends `n` in decimal digits.
pub fn push_decimal(out: &mut String, n: u128)
    ensures
        final(out)@ == old(out)@ + decimal(n as nat),
    decreases n,
{
    if n >= 10 {
        push_decimal(out, n / 10);
    }
    let d: u8 = (n % 10) as u8;
    out.push(digit_char(d));
    proof {
        assert(old(out)@ + decimal((n / 10) as nat).push(digit(d as int)) =~= (old(out)@ + decimal(
            (n / 10) as nat,
        )).push(digit(d as int)));
        assert(old(out)@.push(digit(d as int)) =~= old(out)@ + seq![digit(d as int)]);
    }
}

/// Appends `v / UNIT` with two decimal places.
pub fn push_two_places(out: &mut String, v: i64)
    ensures
        final(out)@ == old(out)@ + two_places(v as int),
{
    let negative = v < 0;
    let m: u128 = if negative {
        (-(v as i128)) as u128
    } else {
        v as u128
    };
    if negative {
        out.push('-');
    }
    let one: u128 = UNIT as u128;
    let whole: u128 = m * 100 / one;
    let rest: u128 = m * 100 % one;
    let h: u128 = if 2 * rest > one || (2 * rest == one && whole % 2 == 1) {
        whole + 1
    } else {
        whole
    };
    push_decimal(out, h / 100);
    out.push('.');
    out.push(digit_char((h / 10 % 10) as u8));
    out.push(digit_char((h % 10) as u8));
    proof {
        assert(h as nat == hundredths(m as nat));
        let sign = if negative {
            seq!['-']
        } else {
            Seq::<char>::empty()
        };
        assert(final(out)@ =~= old(out)@ + (sign + decimal((h / 100) as nat) + seq![
            '.',
            digit((h / 10 % 10) as int),
            digit((h % 10) as int),
        ]));
    }
}

/// What is moved into the range from zero to one ends up as near to where it was as can be.
pub proof fn clamping_moves_least(v: int, w: int)
    requires
        0 <= w <= UNIT,
    ensures
        0 <= clamped(v) <= UNIT,
        0 <= v <= UNIT ==> clamped(v) == v,
        v <= w ==> clamped(v) <= w,
        v >= w ==> clamped(v) >= w,
{
}

/// The number that a text of decimal digits stands for.
pub open spec fn value_of(s: Seq<char>) -> nat
    decreases s.len(),
{
    if s.len() == 0 {
        0
    } else {
        (10 * value_of(s.drop_last()) + (s.last() as u32 - '0' as u32)) as nat
    }
}

/// A number in decimal digits is made of digits, stands for that number, and does not begin with
/// a zero unless it is zero.
pub proof fn decimal_stands_for_its_number(n: nat)
    ensures
        decimal(n).len() > 0,
        forall|i: int| 0 <= i < decimal(n).len() ==> '0' <= #[trigger] decimal(n)[i] <= '9',
        value_of(decimal(n)) == n,
        n > 0 ==> decimal(n)[0] != '0',
    decreases n,
{
    reveal_with_fuel(value_of, 2);
    let d = digit((n % 10) as int);
    assert(d as u32 == '0' as u32 + n % 10);
    if n >= 10 {
        decimal_stands_for_its_number(n / 10);
        let front = decimal(n / 10);
        assert(front.push(d).drop_last() =~= front);
    } else {
        assert(seq![d].drop_last() =~= Seq::<char>::empty());
    }
}

/// A value in hundredths is rounded to the nearest one, and of two as near to the even one.
pub proof fn hundredths_are_nearest(m: nat)
    ensures
        -UNIT <= 2 * (100 * m - UNIT * hundredths(m)) <= UNIT,
        2 * (100 * m - UNIT * hundredths(m)) == UNIT || 2 * (100 * m - UNIT * hundredths(m))
            == -UNIT ==> hundredths(m) % 2 == 0,
{
    let x = m * 100;
    let q = x / UNIT as nat;
    let r = x % UNIT as nat;
    assert(x == UNIT * q + r && 0 <= r < UNIT) by (nonlinear_arith)
        requires
            q == x / UNIT as nat,
            r == x % UNIT as nat,
            UNIT == 1_000_000_000_000,
    ;
    assert(UNIT * (q + 1) == UNIT * q + UNIT) by (nonlinear_arith);
}

/// A value with two decimal places is written with a sign where it is negative, the whole part,
/// a point, and two digits more; all digits together stand for its hundredths.
pub proof fn two_places_stand_for_hundredths(v: int)
    ensures
        ({
            let h = hundredths((if v < 0 {
                -v
            } else {
                v
            }) as nat);
            let whole = decimal(h / 100);
            let n = whole.len() as int;
            let s = if v < 0 {
                two_places(v).skip(1)
            } else {
                two_places(v)
            };
            &&& v < 0 ==> two_places(v)[0] == '-'
            &&& s.len() == n + 3
            &&& s.take(n) == whole
            &&& s[n] == '.'
            &&& value_of(whole) * 100 + value_of(s.skip(n + 1)) == h
        }),
{
    reveal_with_fuel(value_of, 3);
    let h = hundredths((if v < 0 {
        -v
    } else {
        v
    }) as nat);
    let whole = decimal(h / 100);
    let n = whole.len() as int;
    let s = if v < 0 {
        two_places(v).skip(1)
    } else {
        two_places(v)
    };
    decimal_stands_for_its_number(h / 100);
    let (a, b) = (digit((h / 10 % 10) as int), digit((h % 10) as int));
    assert(a as u32 == '0' as u32 + h / 10 % 10);
    assert(b as u32 == '0' as u32 + h % 10);
    assert(s =~= whole + seq!['.', a, b]);
    assert(s.take(n) =~= whole);
    assert(s.skip(n + 1) =~= seq![a, b]);
    assert(seq![a, b].drop_last() =~= seq![a]);
    assert(seq![a].drop_last() =~= Seq::<char>::empty());
    assert(h == h / 100 * 100 + h / 10 % 10 * 10 + h % 10);
}

} // verus!
