//! Exact decimal numbers: the library's model of the doubles that the wire
//! carries. A finite value is `mant * 10^exp` with at most eighteen
//! significant digits; infinities and the not-a-number value are explicit
//! variants. The surrounding application converts binary floats to this form
//! through their shortest decimal representation, which keeps both order and
//! equality.

use vstd::arithmetic::div_mod::{
    lemma_div_pos_is_pos, lemma_fundamental_div_mod, lemma_remainder_lower, lemma_remainder_upper,
};
use vstd::arithmetic::mul::{
    lemma_mul_inequality, lemma_mul_strict_inequality, lemma_mul_strictly_positive,
    lemma_mul_unary_negation,
};
use vstd::arithmetic::power::{
    lemma_pow_adds, lemma_pow_positive, lemma_pow_strictly_increases, pow,
};
use vstd::prelude::*;

verus! {

/// Finite mantissas stay strictly below ten to the eighteenth.
pub const MANT_LIMIT: i128 = 1_000_000_000_000_000_000;

/// Exponents of well-formed values stay within a billion either way.
pub const EXP_LIMIT: i64 = 1_000_000_000;

/// Inputs to addition may carry exponents slightly past the well-formed
/// range (an aligned mantissa shifted by up to one hundred places).
pub const EXP_SLACK: i64 = 1_000_000_100;

/// Mantissas handed to the raw comparison may be as wide as thirty-eight
/// digits; magnitude keys use this headroom.
pub const WIDE_LIMIT: i128 = 100_000_000_000_000_000_000_000_000_000_000_000_000;

/// Three-way comparison result.
#[derive(Debug, Clone, Copy, PartialEq, Eq, Structural)]
pub enum Ord3 {
    Less,
    Equal,
    Greater,
}

/// A decimal stand-in for one double-precision value.
#[derive(Debug, Clone, Copy, PartialEq, Eq, Structural)]
pub enum DecNum {
    /// A finite value `mant * 10^exp`.
    Num { mant: i128, exp: i64 },
    /// Positive or negative infinity.
    Inf { neg: bool },
    /// The not-a-number value.
    NaN,
}

/// Ten to the `n`.
pub open spec fn pow10(n: nat) -> int {
    pow(10, n)
}

/// How many decimal digits a positive integer has.
pub open spec fn sdigits(x: int) -> nat
    recommends
        x >= 1,
    decreases x,
{
    if x < 10 {
        1
    } else {
        1 + sdigits(x / 10)
    }
}

/// The decimal magnitude of a nonzero finite value `m * 10^e`: the value v
/// satisfies `10^(mag-1) <= |v| < 10^mag`.
pub open spec fn dec_mag(m: int, e: int) -> int {
    sdigits(abs_int(m)) + e
}

/// Absolute value over `int`.
pub open spec fn abs_int(x: int) -> int {
    if x >= 0 {
        x
    } else {
        -x
    }
}

/// `m1 * 10^e1 < m2 * 10^e2`, stated over integers scaled to the smaller
/// exponent.
pub open spec fn val_lt(m1: int, e1: int, m2: int, e2: int) -> bool {
    if e1 >= e2 {
        m1 * pow10((e1 - e2) as nat) < m2
    } else {
        m1 < m2 * pow10((e2 - e1) as nat)
    }
}

/// `m1 * 10^e1 == m2 * 10^e2` as values.
pub open spec fn val_eq(m1: int, e1: int, m2: int, e2: int) -> bool {
    if e1 >= e2 {
        m1 * pow10((e1 - e2) as nat) == m2
    } else {
        m1 == m2 * pow10((e2 - e1) as nat)
    }
}

/// Well-formed finite payloads: bounded, trailing-zero free, canonical zero.
pub open spec fn dec_wf(d: DecNum) -> bool {
    match d {
        DecNum::Num { mant, exp } => -MANT_LIMIT < mant < MANT_LIMIT && (mant == 0 ==> exp == 0)
            && (mant != 0 ==> mant % 10 != 0) && -EXP_LIMIT <= exp <= EXP_LIMIT,
        _ => true,
    }
}

/// Like `dec_wf`, with a little slack in the exponent: what addition accepts.
pub open spec fn dec_wf_loose(d: DecNum) -> bool {
    match d {
        DecNum::Num { mant, exp } => -MANT_LIMIT < mant < MANT_LIMIT && (mant == 0 ==> exp == 0)
            && (mant != 0 ==> mant % 10 != 0) && -EXP_SLACK <= exp <= EXP_SLACK,
        _ => true,
    }
}

/// Both sides of a value comparison may be rescaled to any common exponent at
/// or below both: the order is unchanged.
pub proof fn lemma_val_lt_scaled(m1: int, e1: int, m2: int, e2: int, e: int)
    requires
        e <= e1,
        e <= e2,
    ensures
        val_lt(m1, e1, m2, e2) <==> m1 * pow10((e1 - e) as nat) < m2 * pow10((e2 - e) as nat),
{
    lemma_pow_positive(10, (e1 - e) as nat);
    lemma_pow_positive(10, (e2 - e) as nat);
    if e1 >= e2 {
        let p = pow10((e1 - e2) as nat);
        let q = pow10((e2 - e) as nat);
        lemma_pow_adds(10, (e1 - e2) as nat, (e2 - e) as nat);
        assert(pow10((e1 - e) as nat) == p * q);
        assert(m1 * (p * q) == (m1 * p) * q) by {
            vstd::arithmetic::mul::lemma_mul_is_associative(m1, p, q);
        }
        if m1 * p < m2 {
            lemma_mul_strict_inequality(m1 * p, m2, q);
        }
        if m1 * p >= m2 {
            lemma_mul_inequality(m2, m1 * p, q);
        }
    } else {
        let p = pow10((e2 - e1) as nat);
        let q = pow10((e1 - e) as nat);
        lemma_pow_adds(10, (e2 - e1) as nat, (e1 - e) as nat);
        assert(pow10((e2 - e) as nat) == p * q);
        assert(m2 * (p * q) == (m2 * p) * q) by {
            vstd::arithmetic::mul::lemma_mul_is_associative(m2, p, q);
        }
        if m1 < m2 * p {
            lemma_mul_strict_inequality(m1, m2 * p, q);
        }
        if m1 >= m2 * p {
            lemma_mul_inequality(m2 * p, m1, q);
        }
    }
}

/// Value equality rescales the same way.
pub proof fn lemma_val_eq_scaled(m1: int, e1: int, m2: int, e2: int, e: int)
    requires
        e <= e1,
        e <= e2,
    ensures
        val_eq(m1, e1, m2, e2) <==> m1 * pow10((e1 - e) as nat) == m2 * pow10((e2 - e) as nat),
{
    lemma_val_lt_scaled(m1, e1, m2, e2, e);
    lemma_val_lt_scaled(m2, e2, m1, e1, e);
    lemma_val_lt_trichotomy(m1, e1, m2, e2);
}

/// Exactly one of `<`, `==`, `>` holds of two finite values.
pub proof fn lemma_val_lt_trichotomy(m1: int, e1: int, m2: int, e2: int)
    ensures
        val_lt(m1, e1, m2, e2) || val_eq(m1, e1, m2, e2) || val_lt(m2, e2, m1, e1),
        !(val_lt(m1, e1, m2, e2) && val_eq(m1, e1, m2, e2)),
        !(val_lt(m1, e1, m2, e2) && val_lt(m2, e2, m1, e1)),
        !(val_eq(m1, e1, m2, e2) && val_lt(m2, e2, m1, e1)),
{
    lemma_pow10_concrete();
    if e1 >= e2 {
        vstd::arithmetic::mul::lemma_mul_basics(m1 * pow10((e1 - e2) as nat));
        vstd::arithmetic::mul::lemma_mul_basics(m2);
    } else {
        vstd::arithmetic::mul::lemma_mul_basics(m2 * pow10((e2 - e1) as nat));
        vstd::arithmetic::mul::lemma_mul_basics(m1);
    }
}

/// The value order is transitive.
pub proof fn lemma_val_lt_trans(m1: int, e1: int, m2: int, e2: int, m3: int, e3: int)
    requires
        val_lt(m1, e1, m2, e2),
        val_lt(m2, e2, m3, e3),
    ensures
        val_lt(m1, e1, m3, e3),
{
    let e = if e1 <= e2 && e1 <= e3 {
        e1
    } else if e2 <= e3 {
        e2
    } else {
        e3
    };
    lemma_val_lt_scaled(m1, e1, m2, e2, e);
    lemma_val_lt_scaled(m2, e2, m3, e3, e);
    lemma_val_lt_scaled(m1, e1, m3, e3, e);
}

/// Equal values may replace one another on either side of the order.
pub proof fn lemma_val_eq_lt_trans(m1: int, e1: int, m2: int, e2: int, m3: int, e3: int)
    requires
        val_eq(m1, e1, m2, e2),
        val_lt(m2, e2, m3, e3),
    ensures
        val_lt(m1, e1, m3, e3),
{
    let e = if e1 <= e2 && e1 <= e3 {
        e1
    } else if e2 <= e3 {
        e2
    } else {
        e3
    };
    lemma_val_eq_scaled(m1, e1, m2, e2, e);
    lemma_val_lt_scaled(m2, e2, m3, e3, e);
    lemma_val_lt_scaled(m1, e1, m3, e3, e);
}

/// Value equality is transitive.
pub proof fn lemma_val_eq_trans(m1: int, e1: int, m2: int, e2: int, m3: int, e3: int)
    requires
        val_eq(m1, e1, m2, e2),
        val_eq(m2, e2, m3, e3),
    ensures
        val_eq(m1, e1, m3, e3),
{
    let e = if e1 <= e2 && e1 <= e3 {
        e1
    } else if e2 <= e3 {
        e2
    } else {
        e3
    };
    lemma_val_eq_scaled(m1, e1, m2, e2, e);
    lemma_val_eq_scaled(m2, e2, m3, e3, e);
    lemma_val_eq_scaled(m1, e1, m3, e3, e);
}

/// The concrete powers of ten the executable code leans on.
pub proof fn lemma_pow10_concrete()
    ensures
        pow10(0) == 1,
        pow10(1) == 10,
        pow10(17) == 100000000000000000,
        pow10(18) == 1000000000000000000,
        pow10(19) == 10000000000000000000,
        pow10(24) == 1000000000000000000000000,
        pow10(27) == 1000000000000000000000000000,
        pow10(37) == 10000000000000000000000000000000000000,
        pow10(38) == 100000000000000000000000000000000000000,
        pow10(39) == 1000000000000000000000000000000000000000,
{
    reveal_with_fuel(pow, 40);
}

/// A positive integer sits between the powers of ten its digit count names.
pub proof fn lemma_sdigits_bounds(x: int)
    requires
        x >= 1,
    ensures
        pow10((sdigits(x) - 1) as nat) <= x < pow10(sdigits(x)),
    decreases x,
{
    lemma_pow10_concrete();
    if x < 10 {
    } else {
        lemma_div_pos_is_pos(x, 10);
        lemma_remainder_lower(x, 10);
        lemma_remainder_upper(x, 10);
        lemma_fundamental_div_mod(x, 10);
        lemma_sdigits_bounds(x / 10);
        let d = sdigits(x / 10);
        assert(pow10(d) == pow10((d - 1) as nat) * 10) by {
            lemma_pow_adds(10, (d - 1) as nat, 1);
        }
        assert(pow10(d + 1) == pow10(d) * 10) by {
            lemma_pow_adds(10, d, 1);
        }
        assert(x >= 10 * (x / 10));
        assert(10 * (x / 10) >= 10 * pow10((d - 1) as nat)) by {
            lemma_mul_inequality(pow10((d - 1) as nat), x / 10, 10);
        }
        assert(x / 10 + 1 <= pow10(d));
        assert(x < 10 * (x / 10 + 1));
        assert(10 * (x / 10 + 1) <= 10 * pow10(d)) by {
            lemma_mul_inequality(x / 10 + 1, pow10(d), 10);
        }
    }
}

/// When the first value's decimal magnitude is strictly smaller, so is the
/// value, for positive mantissas.
pub proof fn lemma_mag_decides(m1: int, e1: int, m2: int, e2: int)
    requires
        m1 >= 1,
        m2 >= 1,
        dec_mag(m1, e1) < dec_mag(m2, e2),
    ensures
        val_lt(m1, e1, m2, e2),
{
    let d1 = sdigits(m1);
    let d2 = sdigits(m2);
    lemma_sdigits_bounds(m1);
    lemma_sdigits_bounds(m2);
    let e = if e1 <= e2 {
        e1
    } else {
        e2
    };
    lemma_val_lt_scaled(m1, e1, m2, e2, e);
    let p1 = pow10((e1 - e) as nat);
    let p2 = pow10((e2 - e) as nat);
    lemma_pow_positive(10, (e1 - e) as nat);
    lemma_pow_positive(10, (e2 - e) as nat);
    // m1 * p1 < 10^(d1 + e1 - e) <= 10^(d2 - 1 + e2 - e) <= m2 * p2
    assert(m1 * p1 < pow10(d1) * p1) by {
        lemma_mul_strict_inequality(m1, pow10(d1), p1);
    }
    assert(pow10(d1) * p1 == pow10((d1 + e1 - e) as nat)) by {
        lemma_pow_adds(10, d1, (e1 - e) as nat);
    }
    assert(pow10((d1 + e1 - e) as nat) <= pow10((d2 - 1 + e2 - e) as nat)) by {
        if d1 + e1 - e < d2 - 1 + e2 - e {
            lemma_pow_strictly_increases(10, (d1 + e1 - e) as nat, (d2 - 1 + e2 - e) as nat);
        }
    }
    assert(pow10((d2 - 1 + e2 - e) as nat) == pow10((d2 - 1) as nat) * p2) by {
        lemma_pow_adds(10, (d2 - 1) as nat, (e2 - e) as nat);
    }
    assert(pow10((d2 - 1) as nat) * p2 <= m2 * p2) by {
        lemma_mul_inequality(pow10((d2 - 1) as nat), m2, p2);
    }
}

/// Negating both mantissas reverses the value order.
pub proof fn lemma_val_lt_neg(m1: int, e1: int, m2: int, e2: int)
    ensures
        val_lt(m1, e1, m2, e2) <==> val_lt(-m2, e2, -m1, e1),
{
    lemma_pow10_concrete();
    if e1 >= e2 {
        let p = pow10((e1 - e2) as nat);
        lemma_mul_unary_negation(m1, p);
        lemma_mul_unary_negation(m2, p);
        assert((-m1) * p == -(m1 * p));
        if e1 == e2 {
            assert(p == 1);
            assert(m1 * p == m1 && m2 * p == m2 && (-m2) * p == -m2);
        }
    } else {
        let p = pow10((e2 - e1) as nat);
        lemma_mul_unary_negation(m2, p);
        lemma_mul_unary_negation(m1, p);
        assert((-m2) * p == -(m2 * p));
    }
}

/// Ten to the `k`, executable, for small `k`.
pub fn pow10_u128(k: u32) -> (r: u128)
    requires
        k <= 38,
    ensures
        r == pow10(k as nat),
{
    let mut r: u128 = 1;
    let mut i: u32 = 0;
    proof {
        lemma_pow10_concrete();
    }
    while i < k
        invariant
            i <= k <= 38,
            r == pow10(i as nat),
            pow10(38) == 100000000000000000000000000000000000000,
        decreases k - i,
    {
        proof {
            lemma_pow_adds(10, i as nat, ((k - i)) as nat);
            lemma_pow_positive(10, ((k - i)) as nat);
            assert(pow10(i as nat) <= pow10(38)) by {
                if (i as nat) < 38 {
                    lemma_pow_strictly_increases(10, i as nat, 38);
                }
            }
            assert(pow10((i + 1) as nat) <= pow10(38)) by {
                if ((i + 1) as nat) < 38 {
                    lemma_pow_strictly_increases(10, (i + 1) as nat, 38);
                }
            }
            lemma_pow_adds(10, i as nat, 1);
            lemma_pow10_concrete();
        }
        r = r * 10;
        i = i + 1;
    }
    r
}

/// Count the decimal digits of a positive integer.
pub fn ndigits_u128(x: u128) -> (d: u32)
    requires
        x >= 1,
    ensures
        d == sdigits(x as int),
        1 <= d <= 39,
{
    let mut v: u128 = x;
    let mut d: u32 = 1;
    proof {
        lemma_sdigits_small(x as int);
    }
    while v >= 10
        invariant
            v >= 1,
            d >= 1,
            sdigits(x as int) == d - 1 + sdigits(v as int),
            sdigits(v as int) <= 40 - d,
        decreases v,
    {
        proof {
            lemma_sdigits_small(v as int / 10);
        }
        v = v / 10;
        d = d + 1;
    }
    d
}

/// The sign of an integer, as -1, 0 or 1.
pub open spec fn sgn(x: int) -> int {
    if x > 0 {
        1
    } else if x < 0 {
        -1
    } else {
        0
    }
}

/// A strictly smaller mantissa sign decides the value order.
pub proof fn lemma_sign_decides(m1: int, e1: int, m2: int, e2: int)
    requires
        sgn(m1) < sgn(m2),
    ensures
        val_lt(m1, e1, m2, e2),
{
    let e = if e1 <= e2 {
        e1
    } else {
        e2
    };
    let p1 = pow10((e1 - e) as nat);
    let p2 = pow10((e2 - e) as nat);
    lemma_pow_positive(10, (e1 - e) as nat);
    lemma_pow_positive(10, (e2 - e) as nat);
    lemma_val_lt_scaled(m1, e1, m2, e2, e);
    if m1 < 0 {
        lemma_mul_strictly_positive(-m1, p1);
        lemma_mul_unary_negation(m1, p1);
    }
    if m2 > 0 {
        lemma_mul_strictly_positive(m2, p2);
    }
}

/// Equal mantissa signs of zero force equal values.
pub proof fn lemma_zero_eq(e1: int, e2: int)
    ensures
        val_eq(0, e1, 0, e2),
{
    lemma_pow10_concrete();
}

/// Mantissas wider than eighteen digits exceed `MANT_LIMIT` and conversely.
pub proof fn lemma_digits_of_bounded(x: int, bound: nat)
    requires
        x >= 1,
        x < pow10(bound),
    ensures
        sdigits(x) <= bound,
{
    lemma_sdigits_bounds(x);
    if sdigits(x) > bound {
        assert(pow10(bound) <= pow10((sdigits(x) - 1) as nat)) by {
            if bound < sdigits(x) - 1 {
                lemma_pow_strictly_increases(10, bound, (sdigits(x) - 1) as nat);
            }
        }
    }
}

/// Compare two finite values `m1 * 10^e1` and `m2 * 10^e2` exactly.
pub fn cmp_parts(m1: i128, e1: i64, m2: i128, e2: i64) -> (r: Ord3)
    requires
        -WIDE_LIMIT < m1 < WIDE_LIMIT,
        -WIDE_LIMIT < m2 < WIDE_LIMIT,
        -4_000_000_000 <= e1 <= 4_000_000_000,
        -4_000_000_000 <= e2 <= 4_000_000_000,
    ensures
        (r == Ord3::Less <==> val_lt(m1 as int, e1 as int, m2 as int, e2 as int)),
        (r == Ord3::Greater <==> val_lt(m2 as int, e2 as int, m1 as int, e1 as int)),
        (r == Ord3::Equal <==> val_eq(m1 as int, e1 as int, m2 as int, e2 as int)),
{
    proof {
        lemma_val_lt_trichotomy(m1 as int, e1 as int, m2 as int, e2 as int);
    }
    if m1 <= 0 && m2 > 0 {
        proof {
            lemma_sign_decides(m1 as int, e1 as int, m2 as int, e2 as int);
        }
        Ord3::Less
    } else if m1 < 0 && m2 == 0 {
        proof {
            lemma_sign_decides(m1 as int, e1 as int, m2 as int, e2 as int);
        }
        Ord3::Less
    } else if m2 <= 0 && m1 > 0 {
        proof {
            lemma_sign_decides(m2 as int, e2 as int, m1 as int, e1 as int);
        }
        Ord3::Greater
    } else if m2 < 0 && m1 == 0 {
        proof {
            lemma_sign_decides(m2 as int, e2 as int, m1 as int, e1 as int);
        }
        Ord3::Greater
    } else if m1 == 0 && m2 == 0 {
        proof {
            lemma_zero_eq(e1 as int, e2 as int);
        }
        Ord3::Equal
    } else if m1 > 0 {
        cmp_positive(m1 as u128, e1, m2 as u128, e2)
    } else {
        let r = cmp_positive((-m2) as u128, e2, (-m1) as u128, e1);
        proof {
            lemma_val_lt_neg(m1 as int, e1 as int, m2 as int, e2 as int);
            lemma_val_lt_neg(m2 as int, e2 as int, m1 as int, e1 as int);
            lemma_val_lt_neg(m1 as int, e1 as int, m1 as int, e1 as int);
            lemma_val_lt_trichotomy(-m2 as int, e2 as int, -m1 as int, e1 as int);
        }
        r
    }
}

/// Compare two positive finite values exactly: first by decimal magnitude,
/// then digit-aligned.
fn cmp_positive(x1: u128, e1: i64, x2: u128, e2: i64) -> (r: Ord3)
    requires
        1 <= x1 < WIDE_LIMIT,
        1 <= x2 < WIDE_LIMIT,
        -4_000_000_000 <= e1 <= 4_000_000_000,
        -4_000_000_000 <= e2 <= 4_000_000_000,
    ensures
        (r == Ord3::Less <==> val_lt(x1 as int, e1 as int, x2 as int, e2 as int)),
        (r == Ord3::Greater <==> val_lt(x2 as int, e2 as int, x1 as int, e1 as int)),
        (r == Ord3::Equal <==> val_eq(x1 as int, e1 as int, x2 as int, e2 as int)),
{
    proof {
        lemma_val_lt_trichotomy(x1 as int, e1 as int, x2 as int, e2 as int);
        lemma_pow10_concrete();
        lemma_digits_of_bounded(x1 as int, 38);
        lemma_digits_of_bounded(x2 as int, 38);
    }
    let d1: u32 = ndigits_u128(x1);
    let d2: u32 = ndigits_u128(x2);
    let mag1: i64 = e1 + d1 as i64;
    let mag2: i64 = e2 + d2 as i64;
    if mag1 < mag2 {
        proof {
            lemma_mag_decides(x1 as int, e1 as int, x2 as int, e2 as int);
        }
        Ord3::Less
    } else if mag1 > mag2 {
        proof {
            lemma_mag_decides(x2 as int, e2 as int, x1 as int, e1 as int);
        }
        Ord3::Greater
    } else if d1 <= d2 {
        let p: u128 = pow10_u128(d2 - d1);
        proof {
            lemma_sdigits_bounds(x1 as int);
            lemma_sdigits_bounds(x2 as int);
            lemma_pow_adds(10, d1 as nat, (d2 - d1) as nat);
            lemma_mul_strict_inequality(x1 as int, pow10(d1 as nat), pow10((d2 - d1) as nat));
            lemma_pow_positive(10, (d2 - d1) as nat);
            assert(pow10(d2 as nat) <= pow10(38)) by {
                if (d2 as nat) < 38 {
                    lemma_pow_strictly_increases(10, d2 as nat, 38);
                }
            }
        }
        let y1: u128 = x1 * p;
        if y1 < x2 {
            Ord3::Less
        } else if y1 > x2 {
            Ord3::Greater
        } else {
            Ord3::Equal
        }
    } else {
        let p: u128 = pow10_u128(d1 - d2);
        proof {
            lemma_sdigits_bounds(x1 as int);
            lemma_sdigits_bounds(x2 as int);
            lemma_pow_adds(10, d2 as nat, (d1 - d2) as nat);
            lemma_mul_strict_inequality(x2 as int, pow10(d2 as nat), pow10((d1 - d2) as nat));
            lemma_pow_positive(10, (d1 - d2) as nat);
            assert(pow10(d1 as nat) <= pow10(38)) by {
                if (d1 as nat) < 38 {
                    lemma_pow_strictly_increases(10, d1 as nat, 38);
                }
            }
        }
        let y2: u128 = x2 * p;
        if x1 < y2 {
            Ord3::Less
        } else if x1 > y2 {
            Ord3::Greater
        } else {
            Ord3::Equal
        }
    }
}

/// The canonical form of a finite value: at most eighteen significant digits
/// (low digits dropped toward zero), no trailing zeros, zero at exponent
/// zero.
pub open spec fn spec_norm(m: int, e: int) -> (int, int)
    decreases abs_int(m),
{
    if m == 0 {
        (0, 0)
    } else if m >= MANT_LIMIT || m <= -MANT_LIMIT || m % 10 == 0 {
        spec_norm(trunc10(m), e + 1)
    } else {
        (m, e)
    }
}

/// Division by ten that rounds toward zero, as the machine division does.
pub open spec fn trunc10(m: int) -> int {
    if m >= 0 {
        m / 10
    } else {
        -((-m) / 10)
    }
}

/// The exact aligned sum of two finite values, except that a value whose
/// decimal magnitude trails the other's by more than nineteen is dropped as
/// negligible.
pub open spec fn spec_align_sum(m1: int, e1: int, m2: int, e2: int) -> (int, int) {
    if m1 == 0 {
        (m2, e2)
    } else if m2 == 0 {
        (m1, e1)
    } else if dec_mag(m1, e1) > dec_mag(m2, e2) + 19 {
        (m1, e1)
    } else if dec_mag(m2, e2) > dec_mag(m1, e1) + 19 {
        (m2, e2)
    } else if e1 >= e2 {
        (m1 * pow10((e1 - e2) as nat) + m2, e2)
    } else {
        (m1 + m2 * pow10((e2 - e1) as nat), e1)
    }
}

/// What the sum of two well-formed decimals is: the aligned sum, canonical,
/// spilling to infinity when the exponent leaves the well-formed range.
pub open spec fn spec_dec_add(a: DecNum, b: DecNum) -> DecNum {
    match (a, b) {
        (DecNum::NaN, _) => DecNum::NaN,
        (_, DecNum::NaN) => DecNum::NaN,
        (DecNum::Inf { neg: n1 }, DecNum::Inf { neg: n2 }) => if n1 == n2 {
            DecNum::Inf { neg: n1 }
        } else {
            DecNum::NaN
        },
        (DecNum::Inf { neg }, _) => DecNum::Inf { neg },
        (_, DecNum::Inf { neg }) => DecNum::Inf { neg },
        (DecNum::Num { mant: m1, exp: e1 }, DecNum::Num { mant: m2, exp: e2 }) => {
            let (sm, se) = spec_align_sum(m1 as int, e1 as int, m2 as int, e2 as int);
            let (nm, ne) = spec_norm(sm, se);
            if ne > EXP_LIMIT {
                DecNum::Inf { neg: nm < 0 }
            } else if ne < -EXP_LIMIT {
                DecNum::Num { mant: 0, exp: 0 }
            } else {
                DecNum::Num { mant: nm as i128, exp: ne as i64 }
            }
        },
    }
}

/// Strip a nonzero magnitude to canonical form: drop low digits past
/// eighteen, then trailing zeros.
pub fn norm_positive(x0: u128, e0: i64) -> (r: (u128, i64))
    requires
        x0 >= 1,
        x0 < 0x40000000000000000000000000000000,
        -4_000_000_000 <= e0 <= 4_000_000_000,
    ensures
        (r.0 as int, r.1 as int) == spec_norm(x0 as int, e0 as int),
        1 <= r.0 < MANT_LIMIT,
        r.0 % 10 != 0,
        e0 <= r.1 <= e0 + 39,
{
    let mut x: u128 = x0;
    let mut e: i64 = e0;
    proof {
        lemma_pow10_concrete();
        lemma_digits_of_bounded(x0 as int, 39);
        lemma_sdigits_bounds(x0 as int);
    }
    let ghost d0: nat = sdigits(x0 as int);
    while x >= MANT_LIMIT as u128 || x % 10 == 0
        invariant
            1 <= x,
            sdigits(x as int) <= d0,
            e0 <= e <= e0 + (d0 - sdigits(x as int)),
            d0 <= 39,
            -4_000_000_000 <= e0 <= 4_000_000_000,
            spec_norm(x as int, e as int) == spec_norm(x0 as int, e0 as int),
        decreases x,
    {
        proof {
            lemma_div_pos_is_pos(x as int, 10);
            lemma_fundamental_div_mod(x as int, 10);
            lemma_remainder_lower(x as int, 10);
            lemma_remainder_upper(x as int, 10);
            if x >= 10 {
                assert(sdigits(x as int) == 1 + sdigits(x as int / 10));
            } else {
                assert(x % 10 == 0 ==> x == 0) by {
                    vstd::arithmetic::div_mod::lemma_small_mod(x as nat, 10);
                }
                assert(MANT_LIMIT as u128 > 10) by {
                }
            }
        }
        x = x / 10;
        e = e + 1;
    }
    (x, e)
}

/// Add two well-formed decimals. The sum is exact whenever the two decimal
/// magnitudes are within nineteen of one another and the result needs at most
/// eighteen significant digits; beyond that, low digits are dropped toward
/// zero, and a much smaller addend is dropped whole.
pub fn dec_add(a: &DecNum, b: &DecNum) -> (r: DecNum)
    requires
        dec_wf_loose(*a),
        dec_wf_loose(*b),
    ensures
        r == spec_dec_add(*a, *b),
        dec_wf(r),
{
    match (a, b) {
        (DecNum::NaN, _) => DecNum::NaN,
        (_, DecNum::NaN) => DecNum::NaN,
        (DecNum::Inf { neg: n1 }, DecNum::Inf { neg: n2 }) => {
            if n1 == n2 {
                DecNum::Inf { neg: *n1 }
            } else {
                DecNum::NaN
            }
        },
        (DecNum::Inf { neg }, _) => DecNum::Inf { neg: *neg },
        (_, DecNum::Inf { neg }) => DecNum::Inf { neg: *neg },
        (DecNum::Num { mant: m1, exp: e1 }, DecNum::Num { mant: m2, exp: e2 }) => {
            dec_add_finite(*m1, *e1, *m2, *e2)
        },
    }
}

/// Re-issue an already-normalized mantissa under the exponent range rules:
/// too far up is infinity, too far down is zero.
fn clamp_exp(m: i128, e: i64) -> (r: DecNum)
    requires
        dec_wf_loose(DecNum::Num { mant: m, exp: e }),
    ensures
        ({
            let (nm, ne) = spec_norm(m as int, e as int);
            r == if ne > EXP_LIMIT {
                DecNum::Inf { neg: nm < 0 }
            } else if ne < -EXP_LIMIT {
                DecNum::Num { mant: 0i128, exp: 0i64 }
            } else {
                DecNum::Num { mant: nm as i128, exp: ne as i64 }
            }
        }),
        dec_wf(r),
{
    if m == 0 {
        return DecNum::Num { mant: 0, exp: 0 };
    }
    proof {
        assert(spec_norm(m as int, e as int) == (m as int, e as int));
    }
    if e > EXP_LIMIT {
        DecNum::Inf { neg: m < 0 }
    } else if e < -EXP_LIMIT {
        DecNum::Num { mant: 0, exp: 0 }
    } else {
        DecNum::Num { mant: m, exp: e }
    }
}

/// The finite-by-finite case of `dec_add`.
fn dec_add_finite(m1: i128, e1: i64, m2: i128, e2: i64) -> (r: DecNum)
    requires
        dec_wf_loose(DecNum::Num { mant: m1, exp: e1 }),
        dec_wf_loose(DecNum::Num { mant: m2, exp: e2 }),
    ensures
        r == spec_dec_add(
            DecNum::Num { mant: m1, exp: e1 },
            DecNum::Num { mant: m2, exp: e2 },
        ),
        dec_wf(r),
{
    proof {
        lemma_pow10_concrete();
    }
    if m1 == 0 {
        return clamp_exp(m2, e2);
    }
    if m2 == 0 {
        return clamp_exp(m1, e1);
    }
    let x1: u128 = (if m1 >= 0 {
        m1
    } else {
        -m1
    }) as u128;
    let x2: u128 = (if m2 >= 0 {
        m2
    } else {
        -m2
    }) as u128;
    proof {
        lemma_digits_of_bounded(x1 as int, 18);
        lemma_digits_of_bounded(x2 as int, 18);
        lemma_sdigits_bounds(x1 as int);
        lemma_sdigits_bounds(x2 as int);
        assert(sdigits(abs_int(m1 as int)) == sdigits(x1 as int));
        assert(sdigits(abs_int(m2 as int)) == sdigits(x2 as int));
    }
    let d1: u32 = ndigits_u128(x1);
    let d2: u32 = ndigits_u128(x2);
    let mag1: i64 = e1 + d1 as i64;
    let mag2: i64 = e2 + d2 as i64;
    if mag1 > mag2 + 19 {
        return clamp_exp(m1, e1);
    }
    if mag2 > mag1 + 19 {
        return clamp_exp(m2, e2);
    }
    let (sum, se): (i128, i64) = if e1 >= e2 {
        let shift: u32 = (e1 - e2) as u32;
        let p: u128 = pow10_u128(shift);
        proof {
            lemma_pow_positive(10, (e1 - e2) as nat);
            lemma_pow_adds(10, d1 as nat, (e1 - e2) as nat);
            lemma_mul_strict_inequality(
                x1 as int,
                pow10(d1 as nat),
                pow10((e1 - e2) as nat),
            );
            assert(pow10((d1 + e1 - e2) as nat) <= pow10(37)) by {
                if ((d1 + e1 - e2) as nat) < 37 {
                    lemma_pow_strictly_increases(10, (d1 + e1 - e2) as nat, 37);
                }
            }
            lemma_mul_unary_negation(x1 as int, p as int);
            assert((x1 as int) * (p as int) < pow10((d1 + e1 - e2) as nat)) by {
                assert(p as int == pow10((e1 - e2) as nat));
                assert((d1 + e1 - e2) as nat == d1 as nat + (e1 - e2) as nat);
            }
            assert(p as int <= pow10(37)) by {
                if ((e1 - e2) as nat) < 37 {
                    lemma_pow_strictly_increases(10, (e1 - e2) as nat, 37);
                }
            }
            assert((x1 as int) * (p as int) < pow10(37));
            assert(m1 >= 0 ==> (m1 as int) * (p as int) == (x1 as int) * (p as int));
            assert(m1 < 0 ==> (m1 as int) * (p as int) == -((x1 as int) * (p as int)));
        }
        let y1: i128 = m1 * (p as i128);
        (y1 + m2, e2)
    } else {
        let shift: u32 = (e2 - e1) as u32;
        let p: u128 = pow10_u128(shift);
        proof {
            lemma_pow_positive(10, (e2 - e1) as nat);
            lemma_pow_adds(10, d2 as nat, (e2 - e1) as nat);
            lemma_mul_strict_inequality(
                x2 as int,
                pow10(d2 as nat),
                pow10((e2 - e1) as nat),
            );
            assert(pow10((d2 + e2 - e1) as nat) <= pow10(37)) by {
                if ((d2 + e2 - e1) as nat) < 37 {
                    lemma_pow_strictly_increases(10, (d2 + e2 - e1) as nat, 37);
                }
            }
            lemma_mul_unary_negation(x2 as int, p as int);
            assert((x2 as int) * (p as int) < pow10((d2 + e2 - e1) as nat)) by {
                assert(p as int == pow10((e2 - e1) as nat));
                assert((d2 + e2 - e1) as nat == d2 as nat + (e2 - e1) as nat);
            }
            assert(p as int <= pow10(37)) by {
                if ((e2 - e1) as nat) < 37 {
                    lemma_pow_strictly_increases(10, (e2 - e1) as nat, 37);
                }
            }
            assert((x2 as int) * (p as int) < pow10(37));
            assert(m2 >= 0 ==> (m2 as int) * (p as int) == (x2 as int) * (p as int));
            assert(m2 < 0 ==> (m2 as int) * (p as int) == -((x2 as int) * (p as int)));
        }
        let y2: i128 = m2 * (p as i128);
        (m1 + y2, e1)
    };
    if sum == 0 {
        return DecNum::Num { mant: 0, exp: 0 };
    }
    let mag: u128 = (if sum >= 0 {
        sum
    } else {
        -sum
    }) as u128;
    let (nx, ne): (u128, i64) = norm_positive(mag, se);
    proof {
        lemma_norm_signed(sum as int, se as int);
        if !(nx as i128 % 10 == 0) {
            lemma_fundamental_div_mod(-(nx as int), 10);
            lemma_fundamental_div_mod(nx as int, 10);
        }
    }
    if ne > EXP_LIMIT {
        DecNum::Inf { neg: sum < 0 }
    } else if ne < -EXP_LIMIT {
        DecNum::Num { mant: 0, exp: 0 }
    } else if sum >= 0 {
        DecNum::Num { mant: nx as i128, exp: ne }
    } else {
        DecNum::Num { mant: -(nx as i128), exp: ne }
    }
}

/// Canonicalizing a negative value mirrors canonicalizing its magnitude.
proof fn lemma_norm_signed(m: int, e: int)
    requires
        m != 0,
    ensures
        m > 0 ==> spec_norm(m, e) == spec_norm(abs_int(m), e),
        m < 0 ==> spec_norm(m, e) == {
            let (nm, ne) = spec_norm(abs_int(m), e);
            (-nm, ne)
        },
    decreases abs_int(m),
{
    if m > 0 {
    } else {
        let x = -m;
        lemma_fundamental_div_mod(x, 10);
        lemma_remainder_lower(x, 10);
        lemma_remainder_upper(x, 10);
        lemma_div_pos_is_pos(x, 10);
        assert(m % 10 == 0 <==> x % 10 == 0) by {
            lemma_fundamental_div_mod(m, 10);
            lemma_fundamental_div_mod(x, 10);
        }
        if m <= -MANT_LIMIT || m % 10 == 0 {
            if x / 10 == 0 {
                assert(x < 10);
                assert(x % 10 == x) by {
                    vstd::arithmetic::div_mod::lemma_small_mod(x as nat, 10);
                }
            } else {
                lemma_norm_signed(trunc10(m), e + 1);
            }
        }
    }
}

/// Canonicalizing a bounded positive mantissa keeps the value.
pub proof fn lemma_norm_keeps_value(m: int, e: int)
    requires
        1 <= m < MANT_LIMIT,
    ensures
        val_eq(spec_norm(m, e).0, spec_norm(m, e).1, m, e),
        spec_norm(m, e).0 >= 1,
    decreases m,
{
    lemma_pow10_concrete();
    if m % 10 == 0 {
        lemma_fundamental_div_mod(m, 10);
        lemma_div_pos_is_pos(m, 10);
        assert(m / 10 >= 1) by {
            if m / 10 == 0 {
                assert(m == 10 * (m / 10) + m % 10);
            }
        }
        lemma_norm_keeps_value(m / 10, e + 1);
        assert(val_eq(m / 10, e + 1, m, e)) by {
            assert((m / 10) * pow10(1) == m) by {
                reveal_with_fuel(pow, 2);
            }
        }
        lemma_val_eq_trans(
            spec_norm(m, e).0,
            spec_norm(m, e).1,
            m / 10,
            e + 1,
            m,
            e,
        );
    } else {
        assert(val_eq(m, e, m, e)) by {
            vstd::arithmetic::mul::lemma_mul_basics(m);
        }
    }
}

/// Negating both sides keeps value equality.
pub proof fn lemma_val_eq_neg(m1: int, e1: int, m2: int, e2: int)
    requires
        val_eq(m1, e1, m2, e2),
    ensures
        val_eq(-m1, e1, -m2, e2),
{
    if e1 >= e2 {
        lemma_mul_unary_negation(m1, pow10((e1 - e2) as nat));
    } else {
        lemma_mul_unary_negation(m2, pow10((e2 - e1) as nat));
    }
}

/// Flip the sign of a decimal.
pub fn dec_neg(a: &DecNum) -> (r: DecNum)
    requires
        dec_wf(*a),
    ensures
        dec_wf(r),
        r == spec_dec_neg(*a),
{
    match a {
        DecNum::Num { mant, exp } => DecNum::Num { mant: -*mant, exp: *exp },
        DecNum::Inf { neg } => DecNum::Inf { neg: !*neg },
        DecNum::NaN => DecNum::NaN,
    }
}

/// Negation of a decimal stand-in.
pub open spec fn spec_dec_neg(a: DecNum) -> DecNum {
    match a {
        DecNum::Num { mant, exp } => DecNum::Num { mant: -mant as i128, exp },
        DecNum::Inf { neg } => DecNum::Inf { neg: !neg },
        DecNum::NaN => DecNum::NaN,
    }
}

/// Digit counts of values below `10^39` stay within thirty-nine.
proof fn lemma_sdigits_small(x: int)
    requires
        x >= 1,
        x < 0x100000000000000000000000000000000,
    ensures
        sdigits(x) <= 39,
{
    lemma_sdigits_bounds(x);
    if sdigits(x) > 39 {
        assert(pow10(39) <= pow10((sdigits(x) - 1) as nat)) by {
            if 39 < sdigits(x) - 1 {
                lemma_pow_strictly_increases(10, 39, (sdigits(x) - 1) as nat);
            }
        }
        lemma_pow10_concrete();
    }
}

} // verus!
