//! The polymorphic score number: one wire channel carries ordinary values,
//! mantissa/exponent pairs, hyper-exponential towers and raw notation
//! strings, and the server must compare and accumulate them all.
//!
//! Ordering is sign-first, then by an estimated magnitude. The estimate of a
//! value v is `max(0, log10 |v|)` for ordinary values and one-entry towers,
//! the exponent itself for mantissa/exponent pairs, `array[0] + 1000 *
//! (len-1)` for taller towers, and a fixed ladder for notation strings. The
//! library encodes every estimate exactly as a `MagKey`: nine times the
//! estimate, as a decimal pair, where the fractional part of a logarithm is
//! interpolated linearly from the leading digits (`9*floor(log10 v) +
//! (mantissa - 1)` with mantissa in `[1, 10)`). The interpolation is monotone
//! in v, agrees with the logarithm at whole powers of ten, and makes every
//! comparison exact integer arithmetic.

use crate::decnum::{
    abs_int, cmp_parts, dec_add, dec_mag, dec_wf, lemma_digits_of_bounded, lemma_pow10_concrete,
    lemma_sdigits_bounds, lemma_val_eq_lt_trans, lemma_val_eq_trans, lemma_val_lt_trans,
    lemma_val_lt_trichotomy, ndigits_u128, pow10, pow10_u128, sdigits, spec_dec_add, val_eq,
    val_lt, DecNum, Ord3, EXP_LIMIT, MANT_LIMIT, WIDE_LIMIT,
};
use vstd::arithmetic::power::pow;
use vstd::prelude::*;

verus! {

/// A score reported by a client, in one of its four wire shapes.
#[derive(Debug, Clone)]
pub enum TalismanNumber {
    /// An ordinary double-precision value.
    Regular(DecNum),
    /// A mantissa/exponent pair: the value is `m * 10^e`.
    Big { m: DecNum, e: DecNum },
    /// A hyper-exponential tower; `array[0]` is the significand exponent and
    /// further entries are tower levels.
    Omega { array: Vec<DecNum>, sign: i32 },
    /// A symbolic form kept verbatim.
    NotationString(String),
}

/// Why a wire value failed to parse as a score.
#[derive(Debug, Clone)]
pub enum TalismanError {
    /// The value had none of the recognized shapes.
    InvalidFormat,
    /// A numeric field did not parse; the payload is the parser's message.
    ParseError(String),
    /// A value too large for its shape.
    Overflow,
}

/// The spec-level shape of a score.
pub enum TnView {
    Regular(DecNum),
    Big { m: DecNum, e: DecNum },
    Omega { array: Seq<DecNum>, sign: i32 },
    NotationString(Seq<char>),
}

impl View for TalismanNumber {
    type V = TnView;

    open spec fn view(&self) -> TnView {
        match self {
            TalismanNumber::Regular(d) => TnView::Regular(*d),
            TalismanNumber::Big { m, e } => TnView::Big { m: *m, e: *e },
            TalismanNumber::Omega { array, sign } => TnView::Omega {
                array: array@,
                sign: *sign,
            },
            TalismanNumber::NotationString(s) => TnView::NotationString(s@),
        }
    }
}

/// Well-formed scores carry well-formed decimal payloads.
pub open spec fn tn_wf(v: TnView) -> bool {
    match v {
        TnView::Regular(d) => dec_wf(d),
        TnView::Big { m, e } => dec_wf(m) && dec_wf(e),
        TnView::Omega { array, sign } => forall|i: int|
            0 <= i < array.len() ==> dec_wf(#[trigger] array[i]),
        TnView::NotationString(s) => true,
    }
}

/// The estimated magnitude of a score, scaled by nine and encoded exactly.
#[derive(Debug, Clone, Copy, PartialEq, Eq, Structural)]
pub enum MagKey {
    /// Below every finite estimate (the not-a-number cases).
    NegInf,
    /// A finite estimate: the decimal `m * 10^e` is nine times the estimate.
    Fin { m: i128, e: i64 },
    /// Above every finite estimate (the infinite cases).
    PosInf,
}

/// Nine times `max(0, log10 v)` for a positive value `x * 10^e` (x >= 1),
/// interpolated linearly within each decade: `9*floor(log10 v) + (D - 1)`
/// where `D` in `[1, 10)` is the decimal mantissa.
pub open spec fn spec_log_key(x: int, e: int) -> MagKey {
    if !val_lt(1, 0, x, e) {
        MagKey::Fin { m: 0, e: 0 }
    } else {
        let d = sdigits(x) as int;
        let f = e + d - 1;
        MagKey::Fin {
            m: (9 * f * pow10((d - 1) as nat) + x - pow10((d - 1) as nat)) as i128,
            e: (1 - d) as i64,
        }
    }
}

/// The aligned sum of two finite decimals for tower keys: exact when the
/// decimal magnitudes are within thirteen of one another, else the smaller
/// term is dropped.
pub open spec fn spec_wide_sum(m1: int, e1: int, m2: int, e2: int) -> (int, int) {
    if m1 == 0 {
        (m2, e2)
    } else if m2 == 0 {
        (m1, e1)
    } else if dec_mag(m1, e1) > dec_mag(m2, e2) + 13 {
        (m1, e1)
    } else if dec_mag(m2, e2) > dec_mag(m1, e1) + 13 {
        (m2, e2)
    } else if e1 >= e2 {
        (m1 * pow10((e1 - e2) as nat) + m2, e2)
    } else {
        (m1 + m2 * pow10((e2 - e1) as nat), e1)
    }
}

/// How many leading `e` characters a notation string starts with.
pub open spec fn spec_leading_e(s: Seq<char>) -> int
    decreases s.len(),
{
    if s.len() == 0 || s[0] != 'e' {
        0
    } else {
        1 + spec_leading_e(s.skip(1))
    }
}

/// How many `#` characters a notation string holds.
pub open spec fn spec_hash_count(s: Seq<char>) -> int
    decreases s.len(),
{
    if s.len() == 0 {
        0
    } else {
        (if s[0] == '#' {
            1int
        } else {
            0int
        }) + spec_hash_count(s.skip(1))
    }
}

/// Whether the string holds two `#` in a row.
pub open spec fn spec_has_double_hash(s: Seq<char>) -> bool {
    exists|i: int| 0 <= i && i + 1 < s.len() && #[trigger] s[i] == '#' && s[i + 1] == '#'
}

/// The magnitude key of a score: nine times the spec's estimated magnitude.
pub open spec fn spec_mag_key(v: TnView) -> MagKey {
    match v {
        TnView::Regular(d) => match d {
            DecNum::NaN => MagKey::NegInf,
            DecNum::Inf { neg } => MagKey::PosInf,
            DecNum::Num { mant, exp } => spec_log_key(abs_int(mant as int), exp as int),
        },
        TnView::Big { m, e } => match e {
            DecNum::NaN => MagKey::NegInf,
            DecNum::Inf { neg } => if neg {
                MagKey::NegInf
            } else {
                MagKey::PosInf
            },
            DecNum::Num { mant, exp } => MagKey::Fin { m: (9 * mant) as i128, e: exp },
        },
        TnView::Omega { array, sign } => if array.len() == 0 {
            MagKey::Fin { m: 0, e: 0 }
        } else if array.len() == 1 {
            match array[0] {
                DecNum::NaN => MagKey::Fin { m: 0, e: 0 },
                DecNum::Inf { neg } => if neg {
                    MagKey::Fin { m: 0, e: 0 }
                } else {
                    MagKey::PosInf
                },
                DecNum::Num { mant, exp } => if mant <= 0 {
                    MagKey::Fin { m: 0, e: 0 }
                } else {
                    spec_log_key(mant as int, exp as int)
                },
            }
        } else {
            match array[0] {
                DecNum::NaN => MagKey::NegInf,
                DecNum::Inf { neg } => if neg {
                    MagKey::NegInf
                } else {
                    MagKey::PosInf
                },
                DecNum::Num { mant, exp } => {
                    let (km, ke) = spec_wide_sum(
                        9 * mant as int,
                        exp as int,
                        9000 * (array.len() - 1),
                        0,
                    );
                    MagKey::Fin { m: km as i128, e: ke as i64 }
                },
            }
        },
        TnView::NotationString(s) => if spec_has_double_hash(s) {
            MagKey::Fin { m: 9000000, e: 0 }
        } else if spec_hash_count(s) > 0 {
            MagKey::Fin { m: (9000 + 900 * spec_hash_count(s)) as i128, e: 0 }
        } else {
            MagKey::Fin { m: (9000 * spec_leading_e(s)) as i128, e: 0 }
        },
    }
}

/// Whether a score counts as negative: the sign bit of its shape.
pub open spec fn spec_is_negative(v: TnView) -> bool {
    match v {
        TnView::Regular(d) => dec_is_neg(d),
        TnView::Big { m, e } => dec_is_neg(m),
        TnView::Omega { array, sign } => sign < 0,
        TnView::NotationString(s) => s.len() > 0 && s[0] == '-',
    }
}

/// Whether a decimal is strictly below zero (not-a-number is not).
pub open spec fn dec_is_neg(d: DecNum) -> bool {
    match d {
        DecNum::Num { mant, exp } => mant < 0,
        DecNum::Inf { neg } => neg,
        DecNum::NaN => false,
    }
}

/// The key order: below-everything, then finite decimals by value, then
/// above-everything.
pub open spec fn key_lt(a: MagKey, b: MagKey) -> bool {
    match (a, b) {
        (MagKey::NegInf, MagKey::NegInf) => false,
        (MagKey::NegInf, _) => true,
        (MagKey::Fin { m: m1, e: e1 }, MagKey::Fin { m: m2, e: e2 }) => val_lt(
            m1 as int,
            e1 as int,
            m2 as int,
            e2 as int,
        ),
        (MagKey::Fin { .. }, MagKey::PosInf) => true,
        (MagKey::PosInf, _) => false,
        (_, MagKey::NegInf) => false,
    }
}

/// Key equivalence.
pub open spec fn key_eqv(a: MagKey, b: MagKey) -> bool {
    !key_lt(a, b) && !key_lt(b, a)
}

/// The score order of the spec: negatives before nonnegatives, then by
/// estimated magnitude.
pub open spec fn score_lt(a: TnView, b: TnView) -> bool {
    if spec_is_negative(a) != spec_is_negative(b) {
        spec_is_negative(a)
    } else {
        key_lt(spec_mag_key(a), spec_mag_key(b))
    }
}

/// Two scores the order cannot tell apart.
pub open spec fn score_eqv(a: TnView, b: TnView) -> bool {
    !score_lt(a, b) && !score_lt(b, a)
}

/// Finite keys stay within the raw comparison's range.
pub open spec fn key_wf(k: MagKey) -> bool {
    match k {
        MagKey::Fin { m, e } => -WIDE_LIMIT < m < WIDE_LIMIT && -4_000_000_000 <= e
            <= 4_000_000_000,
        _ => true,
    }
}

impl TalismanNumber {
    /// Whether the score counts as negative for the sign-first order.
    pub fn is_negative(&self) -> (r: bool)
        ensures
            r == spec_is_negative(self@),
    {
        match self {
            TalismanNumber::Regular(d) => dec_is_neg_exec(d),
            TalismanNumber::Big { m, e } => dec_is_neg_exec(m),
            TalismanNumber::Omega { array, sign } => *sign < 0,
            TalismanNumber::NotationString(s) => {
                let n = s.as_str().unicode_len();
                if n == 0 {
                    false
                } else {
                    s.as_str().get_char(0) == '-'
                }
            },
        }
    }

    /// Whether the score is effectively zero.
    pub fn is_zero(&self) -> (r: bool)
        ensures
            r == spec_is_zero(self@),
    {
        match self {
            TalismanNumber::Regular(d) => matches!(d, DecNum::Num { mant: 0, .. }),
            TalismanNumber::Big { m, e } => matches!(m, DecNum::Num { mant: 0, .. }),
            TalismanNumber::Omega { array, sign } => {
                if array.len() == 0 {
                    true
                } else {
                    matches!(array[0], DecNum::Num { mant: 0, .. })
                }
            },
            TalismanNumber::NotationString(s) => {
                let r0 = str_eq_literal(s.as_str(), "0");
                if r0 {
                    proof {
                        reveal_strlit("0");
                        reveal_strlit("0.0");
                    }
                    true
                } else {
                    proof {
                        reveal_strlit("0");
                        reveal_strlit("0.0");
                    }
                    str_eq_literal(s.as_str(), "0.0")
                }
            },
        }
    }

    /// An equal copy of the score.
    pub fn duplicate(&self) -> (r: TalismanNumber)
        ensures
            r@ == self@,
    {
        match self {
            TalismanNumber::Regular(d) => TalismanNumber::Regular(*d),
            TalismanNumber::Big { m, e } => TalismanNumber::Big { m: *m, e: *e },
            TalismanNumber::Omega { array, sign } => {
                let mut copy: Vec<DecNum> = Vec::new();
                let mut i: usize = 0;
                while i < array.len()
                    invariant
                        i <= array@.len(),
                        copy@ =~= array@.take(i as int),
                    decreases array@.len() - i,
                {
                    copy.push(array[i]);
                    i = i + 1;
                }
                proof {
                    assert(copy@ =~= array@);
                }
                TalismanNumber::Omega { array: copy, sign: *sign }
            },
            TalismanNumber::NotationString(s) => TalismanNumber::NotationString(s.clone()),
        }
    }

    /// The score's magnitude key: nine times its estimated magnitude.
    pub fn mag_key(&self) -> (k: MagKey)
        requires
            tn_wf(self@),
        ensures
            k == spec_mag_key(self@),
            key_wf(k),
    {
        match self {
            TalismanNumber::Regular(d) => match d {
                DecNum::NaN => MagKey::NegInf,
                DecNum::Inf { .. } => MagKey::PosInf,
                DecNum::Num { mant, exp } => {
                    let x: i128 = if *mant >= 0 {
                        *mant
                    } else {
                        -*mant
                    };
                    log_key_exec(x, *exp)
                },
            },
            TalismanNumber::Big { m, e } => match e {
                DecNum::NaN => MagKey::NegInf,
                DecNum::Inf { neg } => {
                    if *neg {
                        MagKey::NegInf
                    } else {
                        MagKey::PosInf
                    }
                },
                DecNum::Num { mant, exp } => MagKey::Fin { m: 9 * *mant, e: *exp },
            },
            TalismanNumber::Omega { array, sign } => {
                if array.len() == 0 {
                    MagKey::Fin { m: 0, e: 0 }
                } else if array.len() == 1 {
                    match array[0] {
                        DecNum::NaN => MagKey::Fin { m: 0, e: 0 },
                        DecNum::Inf { neg } => {
                            if neg {
                                MagKey::Fin { m: 0, e: 0 }
                            } else {
                                MagKey::PosInf
                            }
                        },
                        DecNum::Num { mant, exp } => {
                            if mant <= 0 {
                                proof {
                                    lemma_log_key_nonpos(mant as int, exp as int);
                                }
                                MagKey::Fin { m: 0, e: 0 }
                            } else {
                                log_key_exec(mant, exp)
                            }
                        },
                    }
                } else {
                    match array[0] {
                        DecNum::NaN => MagKey::NegInf,
                        DecNum::Inf { neg } => {
                            if neg {
                                MagKey::NegInf
                            } else {
                                MagKey::PosInf
                            }
                        },
                        DecNum::Num { mant, exp } => tower_key_exec(mant, exp, array.len()),
                    }
                }
            },
            TalismanNumber::NotationString(s) => {
                if has_double_hash(s.as_str()) {
                    MagKey::Fin { m: 9000000, e: 0 }
                } else {
                    let hashes = hash_count(s.as_str());
                    if hashes > 0 {
                        MagKey::Fin { m: 9000 + 900 * (hashes as i128), e: 0 }
                    } else {
                        let es = leading_e_count(s.as_str());
                        MagKey::Fin { m: 9000 * (es as i128), e: 0 }
                    }
                }
            },
        }
    }

    /// Compare two scores: negatives first, then by estimated magnitude.
    /// Scores of equal sign and magnitude estimate are equivalent.
    pub fn compare(&self, other: &TalismanNumber) -> (r: Ord3)
        requires
            tn_wf(self@),
            tn_wf(other@),
        ensures
            (r == Ord3::Less <==> score_lt(self@, other@)),
            (r == Ord3::Greater <==> score_lt(other@, self@)),
            (r == Ord3::Equal <==> score_eqv(self@, other@)),
    {
        let n1 = self.is_negative();
        let n2 = other.is_negative();
        if n1 && !n2 {
            Ord3::Less
        } else if !n1 && n2 {
            Ord3::Greater
        } else {
            key_cmp(&self.mag_key(), &other.mag_key())
        }
    }
}

/// Whether a score is effectively zero: a zero payload in its shape, or the
/// literal strings `0` and `0.0`.
pub open spec fn spec_is_zero(v: TnView) -> bool {
    match v {
        TnView::Regular(d) => d matches DecNum::Num { mant: 0, .. },
        TnView::Big { m, e } => m matches DecNum::Num { mant: 0, .. },
        TnView::Omega { array, sign } => array.len() == 0 || (array[0] matches DecNum::Num {
            mant: 0,
            ..
        }),
        TnView::NotationString(s) => s =~= "0"@ || s =~= "0.0"@,
    }
}

/// Whether a decimal is strictly negative, executably.
fn dec_is_neg_exec(d: &DecNum) -> (r: bool)
    ensures
        r == dec_is_neg(*d),
{
    match d {
        DecNum::Num { mant, exp } => *mant < 0,
        DecNum::Inf { neg } => *neg,
        DecNum::NaN => false,
    }
}

/// Character-for-character string equality.
pub fn str_eq_literal(s: &str, t: &str) -> (r: bool)
    ensures
        r == (s@ =~= t@),
{
    let n = s.unicode_len();
    let m = t.unicode_len();
    if n != m {
        return false;
    }
    let mut i: usize = 0;
    while i < n
        invariant
            i <= n,
            n == s@.len(),
            n == t@.len(),
            forall|j: int| 0 <= j < i ==> s@[j] == t@[j],
        decreases n - i,
    {
        if s.get_char(i) != t.get_char(i) {
            return false;
        }
        i = i + 1;
    }
    true
}

/// Values at or below zero estimate to magnitude zero.
proof fn lemma_log_key_nonpos(m: int, e: int)
    requires
        m <= 0,
    ensures
        spec_log_key(m, e) == (MagKey::Fin { m: 0i128, e: 0i64 }),
{
    lemma_pow10_concrete();
    vstd::arithmetic::power::lemma_pow_positive(10, (0 - e) as nat);
    vstd::arithmetic::power::lemma_pow_positive(10, (e - 0) as nat);
    assert(!val_lt(1, 0, m, e)) by {
        if 0 >= e {
            assert(1 * pow10((0 - e) as nat) == pow10((0 - e) as nat)) by {
                vstd::arithmetic::mul::lemma_mul_basics(pow10((0 - e) as nat));
            }
        } else {
            if m < 0 {
                vstd::arithmetic::mul::lemma_mul_strictly_positive(-m, pow10((e - 0) as nat));
                vstd::arithmetic::mul::lemma_mul_unary_negation(m, pow10((e - 0) as nat));
            } else {
                assert(m == 0);
                assert(m * pow10((e - 0) as nat) == 0) by {
                    vstd::arithmetic::mul::lemma_mul_basics(pow10((e - 0) as nat));
                }
            }
        }
    }
}

/// The magnitude key of a positive value `x * 10^e`.
fn log_key_exec(x: i128, e: i64) -> (k: MagKey)
    requires
        0 <= x < MANT_LIMIT,
        -EXP_LIMIT <= e <= EXP_LIMIT,
    ensures
        k == spec_log_key(x as int, e as int),
        key_wf(k),
{
    proof {
        lemma_pow10_concrete();
    }
    if x == 0 {
        proof {
            lemma_log_key_nonpos(0, e as int);
        }
        return MagKey::Fin { m: 0, e: 0 };
    }
    let above_one = cmp_parts(1, 0, x, e);
    if !matches!(above_one, Ord3::Less) {
        return MagKey::Fin { m: 0, e: 0 };
    }
    proof {
        lemma_digits_of_bounded(x as int, 18);
        lemma_sdigits_bounds(x as int);
    }
    let d: u32 = ndigits_u128(x as u128);
    let f: i64 = e + d as i64 - 1;
    let p: u128 = pow10_u128(d - 1);
    let k: i128 = 9 * (f as i128);
    proof {
        assert(pow10((d - 1) as nat) <= pow10(18)) by {
            if ((d - 1) as nat) < 18 {
                vstd::arithmetic::power::lemma_pow_strictly_increases(10, (d - 1) as nat, 18);
            }
        }
        assert(-10000000000 <= k <= 10000000000);
        assert(k >= 0 ==> k * (p as int) <= 10000000000 * pow10(18)) by {
            if k >= 0 {
                vstd::arithmetic::mul::lemma_mul_upper_bound(k as int, 10000000000, p as int, pow10(18));
            }
        }
        assert(k < 0 ==> (-k) * (p as int) <= 10000000000 * pow10(18)) by {
            if k < 0 {
                vstd::arithmetic::mul::lemma_mul_upper_bound(-k as int, 10000000000, p as int, pow10(18));
            }
        }
        vstd::arithmetic::mul::lemma_mul_unary_negation(k as int, p as int);
    }
    proof {
        vstd::arithmetic::mul::lemma_mul_is_associative(9, f as int, p as int);
    }
    MagKey::Fin { m: k * (p as i128) + x - p as i128, e: 1 - d as i64 }
}

/// The magnitude key of a tower `[a0, ...]` of the given length (at least
/// two): nine times `a0 + 1000 * (len - 1)`, aligned exactly within thirteen
/// decimal orders.
fn tower_key_exec(ma: i128, ea: i64, len: usize) -> (k: MagKey)
    requires
        -MANT_LIMIT < ma < MANT_LIMIT,
        -EXP_LIMIT <= ea <= EXP_LIMIT,
        2 <= len,
    ensures
        ({
            let (km, ke) = spec_wide_sum(9 * ma as int, ea as int, 9000 * (len - 1), 0);
            k == (MagKey::Fin { m: km as i128, e: ke as i64 })
        }),
        key_wf(k),
{
    proof {
        lemma_pow10_concrete();
    }
    let t: i128 = 9000 * ((len - 1) as i128);
    let m9: i128 = 9 * ma;
    if m9 == 0 {
        return MagKey::Fin { m: t, e: 0 };
    }
    let x1: u128 = (if m9 >= 0 {
        m9
    } else {
        -m9
    }) as u128;
    proof {
        lemma_digits_of_bounded(x1 as int, 19);
        lemma_sdigits_bounds(x1 as int);
        assert(t < 1000000000000000000000000);
        lemma_digits_of_bounded(t as int, 24);
        lemma_sdigits_bounds(t as int);
        assert(sdigits(abs_int(m9 as int)) == sdigits(x1 as int));
        assert(abs_int(t as int) == t as int);
    }
    let d1: u32 = ndigits_u128(x1);
    let d2: u32 = ndigits_u128(t as u128);
    let mag1: i64 = ea + d1 as i64;
    let mag2: i64 = d2 as i64;
    if mag1 > mag2 + 13 {
        return MagKey::Fin { m: m9, e: ea };
    }
    if mag2 > mag1 + 13 {
        return MagKey::Fin { m: t, e: 0 };
    }
    if ea >= 0 {
        let shift: u32 = ea as u32;
        let p: u128 = pow10_u128(shift);
        proof {
            vstd::arithmetic::power::lemma_pow_positive(10, (ea - 0) as nat);
            vstd::arithmetic::power::lemma_pow_adds(10, d1 as nat, (ea - 0) as nat);
            vstd::arithmetic::mul::lemma_mul_strict_inequality(
                x1 as int,
                pow10(d1 as nat),
                pow10((ea - 0) as nat),
            );
            assert((x1 as int) * (p as int) < pow10((d1 + ea) as nat)) by {
                assert(p as int == pow10((ea - 0) as nat));
                assert((d1 + ea) as nat == d1 as nat + (ea - 0) as nat);
            }
            assert(pow10((d1 + ea) as nat) <= pow10(37)) by {
                if ((d1 + ea) as nat) < 37 {
                    vstd::arithmetic::power::lemma_pow_strictly_increases(
                        10,
                        (d1 + ea) as nat,
                        37,
                    );
                }
            }
            assert(p as int <= pow10(37)) by {
                if ((ea - 0) as nat) < 37 {
                    vstd::arithmetic::power::lemma_pow_strictly_increases(10, (ea - 0) as nat, 37);
                }
            }
            vstd::arithmetic::mul::lemma_mul_unary_negation(x1 as int, p as int);
            assert(m9 >= 0 ==> (m9 as int) * (p as int) == (x1 as int) * (p as int));
            assert(m9 < 0 ==> (m9 as int) * (p as int) == -((x1 as int) * (p as int)));
        }
        let y: i128 = m9 * (p as i128);
        MagKey::Fin { m: y + t, e: 0 }
    } else {
        let shift: u32 = (-ea) as u32;
        let p: u128 = pow10_u128(shift);
        proof {
            vstd::arithmetic::power::lemma_pow_positive(10, (0 - ea) as nat);
            vstd::arithmetic::power::lemma_pow_adds(10, d2 as nat, (0 - ea) as nat);
            vstd::arithmetic::mul::lemma_mul_strict_inequality(
                t as int,
                pow10(d2 as nat),
                pow10((0 - ea) as nat),
            );
            assert((t as int) * (p as int) < pow10((d2 - ea) as nat)) by {
                assert(p as int == pow10((0 - ea) as nat));
                assert((d2 - ea) as nat == d2 as nat + (0 - ea) as nat);
            }
            assert(pow10((d2 - ea) as nat) <= pow10(37)) by {
                if ((d2 - ea) as nat) < 37 {
                    vstd::arithmetic::power::lemma_pow_strictly_increases(
                        10,
                        (d2 - ea) as nat,
                        37,
                    );
                }
            }
            assert(p as int <= pow10(37)) by {
                if ((0 - ea) as nat) < 37 {
                    vstd::arithmetic::power::lemma_pow_strictly_increases(10, (0 - ea) as nat, 37);
                }
            }
        }
        let y: i128 = t * (p as i128);
        MagKey::Fin { m: m9 + y, e: ea }
    }
}

/// Compare two magnitude keys.
pub fn key_cmp(a: &MagKey, b: &MagKey) -> (r: Ord3)
    requires
        key_wf(*a),
        key_wf(*b),
    ensures
        (r == Ord3::Less <==> key_lt(*a, *b)),
        (r == Ord3::Greater <==> key_lt(*b, *a)),
        (r == Ord3::Equal <==> key_eqv(*a, *b)),
{
    match (a, b) {
        (MagKey::NegInf, MagKey::NegInf) => Ord3::Equal,
        (MagKey::NegInf, _) => Ord3::Less,
        (MagKey::PosInf, MagKey::PosInf) => Ord3::Equal,
        (MagKey::PosInf, _) => Ord3::Greater,
        (MagKey::Fin { .. }, MagKey::NegInf) => Ord3::Greater,
        (MagKey::Fin { .. }, MagKey::PosInf) => Ord3::Less,
        (MagKey::Fin { m: m1, e: e1 }, MagKey::Fin { m: m2, e: e2 }) => cmp_parts(
            *m1,
            *e1,
            *m2,
            *e2,
        ),
    }
}

/// Count the leading `e` characters.
fn leading_e_count(s: &str) -> (r: usize)
    ensures
        r == spec_leading_e(s@),
        r <= s@.len(),
{
    let n = s.unicode_len();
    let mut i: usize = 0;
    proof {
        assert(s@.skip(0) =~= s@);
        lemma_leading_e_nonneg(s@);
    }
    while i < n && s.get_char(i) == 'e'
        invariant
            i <= n,
            n == s@.len(),
            spec_leading_e(s@) == i + spec_leading_e(s@.skip(i as int)),
            i < n ==> spec_leading_e(s@.skip(i as int)) >= 0,
        decreases n - i,
    {
        proof {
            assert(s@.skip(i as int)[0] == s@[i as int]);
            assert(s@.skip(i as int).skip(1) =~= s@.skip(i as int + 1));
            lemma_leading_e_nonneg(s@.skip(i as int + 1));
        }
        i = i + 1;
    }
    proof {
        if i < n {
            assert(s@.skip(i as int)[0] == s@[i as int]);
        }
        lemma_leading_e_nonneg(s@.skip(i as int));
    }
    i
}

/// Leading-e counts are not negative.
proof fn lemma_leading_e_nonneg(s: Seq<char>)
    ensures
        0 <= spec_leading_e(s) <= s.len(),
    decreases s.len(),
{
    if s.len() == 0 || s[0] != 'e' {
    } else {
        lemma_leading_e_nonneg(s.skip(1));
    }
}

/// Hash counts are not negative.
proof fn lemma_hash_count_nonneg(s: Seq<char>)
    ensures
        0 <= spec_hash_count(s) <= s.len(),
    decreases s.len(),
{
    if s.len() == 0 {
    } else {
        lemma_hash_count_nonneg(s.skip(1));
    }
}

/// Count the `#` characters.
fn hash_count(s: &str) -> (r: usize)
    ensures
        r == spec_hash_count(s@),
        r <= s@.len(),
{
    let n = s.unicode_len();
    let mut i: usize = 0;
    let mut count: usize = 0;
    proof {
        assert(s@.skip(0) =~= s@);
        lemma_hash_count_nonneg(s@);
    }
    while i < n
        invariant
            i <= n,
            count <= i,
            n == s@.len(),
            spec_hash_count(s@) == count + spec_hash_count(s@.skip(i as int)),
        decreases n - i,
    {
        proof {
            assert(s@.skip(i as int)[0] == s@[i as int]);
            assert(s@.skip(i as int).skip(1) =~= s@.skip(i as int + 1));
            lemma_hash_count_nonneg(s@.skip(i as int + 1));
        }
        if s.get_char(i) == '#' {
            count = count + 1;
        }
        i = i + 1;
    }
    proof {
        lemma_hash_count_nonneg(s@.skip(i as int));
        assert(s@.skip(i as int).len() == 0);
    }
    count
}

/// Whether the string holds `##` anywhere.
fn has_double_hash(s: &str) -> (r: bool)
    ensures
        r == spec_has_double_hash(s@),
{
    let n = s.unicode_len();
    if n < 2 {
        return false;
    }
    let mut i: usize = 0;
    while i + 1 < n
        invariant
            i + 1 <= n,
            n == s@.len(),
            n >= 2,
            forall|j: int| 0 <= j < i ==> !(#[trigger] s@[j] == '#' && s@[j + 1] == '#'),
        decreases n - i,
    {
        if s.get_char(i) == '#' && s.get_char(i + 1) == '#' {
            return true;
        }
        i = i + 1;
    }
    false
}

/// The key order admits exactly one outcome for any two keys.
pub proof fn lemma_key_trichotomy(a: MagKey, b: MagKey)
    ensures
        key_lt(a, b) || key_eqv(a, b) || key_lt(b, a),
        !(key_lt(a, b) && key_lt(b, a)),
        !(key_lt(a, b) && key_eqv(a, b)),
{
    match (a, b) {
        (MagKey::Fin { m: m1, e: e1 }, MagKey::Fin { m: m2, e: e2 }) => {
            lemma_val_lt_trichotomy(m1 as int, e1 as int, m2 as int, e2 as int);
        },
        _ => {},
    }
}

/// The key order is transitive.
pub proof fn lemma_key_lt_trans(a: MagKey, b: MagKey, c: MagKey)
    requires
        key_lt(a, b),
        key_lt(b, c),
    ensures
        key_lt(a, c),
{
    match (a, b, c) {
        (
            MagKey::Fin { m: m1, e: e1 },
            MagKey::Fin { m: m2, e: e2 },
            MagKey::Fin { m: m3, e: e3 },
        ) => {
            lemma_val_lt_trans(m1 as int, e1 as int, m2 as int, e2 as int, m3 as int, e3 as int);
        },
        _ => {},
    }
}

/// Key equivalence chains with the key order.
pub proof fn lemma_key_eqv_lt_trans(a: MagKey, b: MagKey, c: MagKey)
    requires
        key_eqv(a, b),
        key_lt(b, c),
    ensures
        key_lt(a, c),
{
    match (a, b, c) {
        (
            MagKey::Fin { m: m1, e: e1 },
            MagKey::Fin { m: m2, e: e2 },
            MagKey::Fin { m: m3, e: e3 },
        ) => {
            lemma_val_lt_trichotomy(m1 as int, e1 as int, m2 as int, e2 as int);
            lemma_val_eq_lt_trans(m1 as int, e1 as int, m2 as int, e2 as int, m3 as int, e3 as int);
        },
        _ => {},
    }
}

/// The score order is total: of any two scores, exactly one of "less",
/// "equivalent", "greater" holds.
pub proof fn lemma_score_order_total(a: TnView, b: TnView)
    ensures
        score_lt(a, b) || score_eqv(a, b) || score_lt(b, a),
        !(score_lt(a, b) && score_lt(b, a)),
        !(score_lt(a, b) && score_eqv(a, b)),
{
    lemma_key_trichotomy(spec_mag_key(a), spec_mag_key(b));
}

/// The score order is transitive.
pub proof fn lemma_score_lt_trans(a: TnView, b: TnView, c: TnView)
    requires
        score_lt(a, b),
        score_lt(b, c),
    ensures
        score_lt(a, c),
{
    if spec_is_negative(a) == spec_is_negative(b) && spec_is_negative(b) == spec_is_negative(c) {
        lemma_key_lt_trans(spec_mag_key(a), spec_mag_key(b), spec_mag_key(c));
    }
}

/// Score equivalence is transitive, and chains with the order on either
/// side; together with totality and transitivity of the order this makes the
/// comparison a total order on scores.
pub proof fn lemma_score_eqv_trans(a: TnView, b: TnView, c: TnView)
    requires
        score_eqv(a, b),
        score_eqv(b, c),
    ensures
        score_eqv(a, c),
{
    let ka = spec_mag_key(a);
    let kb = spec_mag_key(b);
    let kc = spec_mag_key(c);
    lemma_key_trichotomy(ka, kb);
    lemma_key_trichotomy(kb, kc);
    lemma_key_trichotomy(ka, kc);
    if spec_is_negative(a) == spec_is_negative(b) && spec_is_negative(b) == spec_is_negative(c) {
        if key_lt(ka, kc) {
            lemma_key_eqv_lt_trans(kb, ka, kc);
        }
        if key_lt(kc, ka) {
            lemma_key_eqv_lt_trans(kb, kc, ka);
        }
    }
}

/// Shift a decimal by a power of ten: `d * 10^k`. Infinities and the
/// not-a-number value are unchanged.
pub open spec fn spec_dec_shift(d: DecNum, k: int) -> DecNum {
    match d {
        DecNum::Num { mant, exp } => if mant == 0 {
            d
        } else {
            DecNum::Num { mant, exp: (exp + k) as i64 }
        },
        _ => d,
    }
}

/// Whether the exponent difference of two mantissa/exponent scores is more
/// than fifteen in magnitude; infinite differences count as more.
pub open spec fn spec_gap_over_15(diff: DecNum) -> bool {
    match diff {
        DecNum::Num { mant, exp } => val_lt(15, 0, abs_int(mant as int), exp as int),
        DecNum::Inf { .. } => true,
        DecNum::NaN => true,
    }
}

/// Which operand a mixed-shape addition keeps: the one whose estimated
/// magnitude is at least the other's, the left one on ties.
pub open spec fn spec_pick_larger(a: TnView, b: TnView) -> TnView {
    if key_lt(spec_mag_key(a), spec_mag_key(b)) {
        b
    } else {
        a
    }
}

/// What addition returns. Ordinary values add exactly (to eighteen
/// significant digits). Mantissa/exponent pairs with exponents within
/// fifteen of one another and a whole-numbered gap align their mantissas and
/// add them; with a wider gap the pair with the larger exponent wins. Every
/// other combination keeps the operand with the larger estimated magnitude.
pub open spec fn spec_score_add(a: TnView, b: TnView) -> TnView {
    match (a, b) {
        (TnView::Regular(x), TnView::Regular(y)) => TnView::Regular(spec_dec_add(x, y)),
        (TnView::Big { m: m1, e: e1 }, TnView::Big { m: m2, e: e2 }) => {
            if !(e1 is Num) || !(e2 is Num) {
                spec_pick_larger(a, b)
            } else {
                let diff = spec_dec_add(e1, crate::decnum::spec_dec_neg(e2));
                if spec_gap_over_15(diff) {
                    if val_lt(e2->Num_mant as int, e2->Num_exp as int, e1->Num_mant as int, e1->Num_exp as int) {
                        a
                    } else {
                        b
                    }
                } else {
                    match diff {
                        DecNum::Num { mant: dm, exp: de } => {
                            if de >= 0 && dm != 0 {
                                let delta = dm * pow10(de as nat);
                                if delta > 0 {
                                    TnView::Big {
                                        m: spec_dec_add(m1, spec_dec_shift(m2, -delta)),
                                        e: e1,
                                    }
                                } else {
                                    TnView::Big {
                                        m: spec_dec_add(spec_dec_shift(m1, delta), m2),
                                        e: e2,
                                    }
                                }
                            } else if dm == 0 {
                                TnView::Big { m: spec_dec_add(m1, m2), e: e1 }
                            } else {
                                spec_pick_larger(a, b)
                            }
                        },
                        _ => spec_pick_larger(a, b),
                    }
                }
            }
        },
        _ => spec_pick_larger(a, b),
    }
}

impl TalismanNumber {
    /// Add another score to this one. The operation never fails; the error
    /// type is kept for parity with parsing.
    pub fn add(&self, other: &TalismanNumber) -> (r: Result<TalismanNumber, TalismanError>)
        requires
            tn_wf(self@),
            tn_wf(other@),
        ensures
            r is Ok,
            r matches Ok(v) ==> v@ == spec_score_add(self@, other@) && tn_wf(v@),
    {
        match (self, other) {
            (TalismanNumber::Regular(x), TalismanNumber::Regular(y)) => {
                Ok(TalismanNumber::Regular(dec_add(x, y)))
            },
            (
                TalismanNumber::Big { m: m1, e: e1 },
                TalismanNumber::Big { m: m2, e: e2 },
            ) => {
                match (e1, e2) {
                    (
                        DecNum::Num { mant: em1, exp: ee1 },
                        DecNum::Num { mant: em2, exp: ee2 },
                    ) => {
                        let diff = dec_add(e1, &crate::decnum::dec_neg(e2));
                        let over = match diff {
                            DecNum::Num { mant, exp } => {
                                let a: i128 = if mant >= 0 {
                                    mant
                                } else {
                                    -mant
                                };
                                matches!(cmp_parts(15, 0, a, exp), Ord3::Less)
                            },
                            _ => true,
                        };
                        if over {
                            if matches!(cmp_parts(*em2, *ee2, *em1, *ee1), Ord3::Less) {
                                Ok(self.duplicate())
                            } else {
                                Ok(other.duplicate())
                            }
                        } else {
                            match diff {
                                DecNum::Num { mant: dm, exp: de } => {
                                    if de >= 0 && dm != 0 {
                                        proof {
                                            lemma_small_whole(dm as int, de as int);
                                        }
                                        let p: i128 = pow10_u128(de as u32) as i128;
                                        let delta: i128 = dm * p;
                                        if delta > 0 {
                                            let shifted = dec_shift_exec(m2, -(delta as i64));
                                            Ok(TalismanNumber::Big {
                                                m: dec_add(m1, &shifted),
                                                e: *e1,
                                            })
                                        } else {
                                            let shifted = dec_shift_exec(m1, delta as i64);
                                            Ok(TalismanNumber::Big {
                                                m: dec_add(&shifted, m2),
                                                e: *e2,
                                            })
                                        }
                                    } else if dm == 0 {
                                        Ok(TalismanNumber::Big {
                                            m: dec_add(m1, m2),
                                            e: *e1,
                                        })
                                    } else {
                                        self.pick_larger(other)
                                    }
                                },
                                _ => self.pick_larger(other),
                            }
                        }
                    },
                    _ => self.pick_larger(other),
                }
            },
            _ => {
                proof {
                    lemma_add_default_shape(self@, other@);
                }
                self.pick_larger(other)
            },
        }
    }

    /// The operand with the larger estimated magnitude, this one on ties.
    fn pick_larger(&self, other: &TalismanNumber) -> (r: Result<
        TalismanNumber,
        TalismanError,
    >)
        requires
            tn_wf(self@),
            tn_wf(other@),
        ensures
            r matches Ok(v) && v@ == spec_pick_larger(self@, other@) && tn_wf(v@),
    {
        let k1 = self.mag_key();
        let k2 = other.mag_key();
        if matches!(key_cmp(&k1, &k2), Ord3::Less) {
            Ok(other.duplicate())
        } else {
            Ok(self.duplicate())
        }
    }
}

/// For mixed shapes the sum defaults to the larger operand.
proof fn lemma_add_default_shape(a: TnView, b: TnView)
    requires
        !(a is Regular && b is Regular),
        !(a is Big && b is Big),
    ensures
        spec_score_add(a, b) == spec_pick_larger(a, b),
{
}

/// A whole-number gap that passed the fifteen test is a small positive power
/// times a small mantissa: it fits comfortably in a machine word.
proof fn lemma_small_whole(dm: int, de: int)
    requires
        dm != 0,
        de >= 0,
        !val_lt(15, 0, abs_int(dm), de),
    ensures
        1 <= abs_int(dm) * pow10(de as nat) <= 15,
        de <= 3,
        1 <= pow10(de as nat) <= 1000,
        abs_int(dm) <= 15,
        abs_int(dm * pow10(de as nat)) == abs_int(dm) * pow10(de as nat),
{
    lemma_pow10_concrete();
    vstd::arithmetic::power::lemma_pow_positive(10, de as nat);
    assert(abs_int(dm) * pow10((de - 0) as nat) <= 15 * pow10(0)) by {
        vstd::arithmetic::mul::lemma_mul_basics(15int);
    }
    assert(abs_int(dm) * pow10(de as nat) >= 1 * pow10(de as nat)) by {
        vstd::arithmetic::mul::lemma_mul_inequality(1, abs_int(dm), pow10(de as nat));
    }
    assert(1 * pow10(de as nat) == pow10(de as nat)) by {
        vstd::arithmetic::mul::lemma_mul_basics(pow10(de as nat));
    }
    if de > 3 {
        assert(pow10(4) <= pow10(de as nat)) by {
            if 4 < de {
                vstd::arithmetic::power::lemma_pow_strictly_increases(10, 4, de as nat);
            }
        }
        assert(pow10(4) == 10000) by {
            reveal_with_fuel(pow, 6);
        }
    }
    vstd::arithmetic::mul::lemma_mul_unary_negation(dm, pow10(de as nat));
    assert(pow10(de as nat) <= 1000) by {
        if de < 3 {
            vstd::arithmetic::power::lemma_pow_strictly_increases(10, de as nat, 3);
        }
    }
    assert(abs_int(dm) * 1 <= abs_int(dm) * pow10(de as nat)) by {
        vstd::arithmetic::mul::lemma_mul_left_inequality(abs_int(dm), 1, pow10(de as nat));
    }
    assert(abs_int(dm) * 1 == abs_int(dm)) by {
        vstd::arithmetic::mul::lemma_mul_basics(abs_int(dm));
    }
}

/// Shift a decimal's exponent, clamping into the loose range (the shifts the
/// adder performs stay within fifteen).
fn dec_shift_exec(d: &DecNum, k: i64) -> (r: DecNum)
    requires
        dec_wf(*d),
        -100 <= k <= 100,
    ensures
        r == spec_dec_shift(*d, k as int),
        crate::decnum::dec_wf_loose(r),
{
    match d {
        DecNum::Num { mant, exp } => {
            if *mant == 0 {
                DecNum::Num { mant: 0, exp: 0 }
            } else {
                DecNum::Num { mant: *mant, exp: *exp + k }
            }
        },
        DecNum::Inf { neg } => DecNum::Inf { neg: *neg },
        DecNum::NaN => DecNum::NaN,
    }
}

/// Whether a character is a decimal digit.
pub open spec fn is_digit(c: char) -> bool {
    '0' <= c && c <= '9'
}

/// A digit's value.
pub open spec fn digit_val(c: char) -> int {
    c as int - '0' as int
}

/// The integer a digit string denotes, most significant first.
pub open spec fn fold_digits(s: Seq<char>) -> int
    decreases s.len(),
{
    if s.len() == 0 {
        0
    } else {
        10 * fold_digits(s.drop_last()) + digit_val(s.last())
    }
}

/// Whether a string is all digits.
pub open spec fn all_digits(s: Seq<char>) -> bool {
    forall|i: int| 0 <= i < s.len() ==> is_digit(#[trigger] s[i])
}

/// The body of a plain decimal after its optional sign: digits, with at most
/// one dot between them, and at least one digit.
pub open spec fn valid_dec_body(s: Seq<char>) -> bool {
    ||| (s.len() > 0 && all_digits(s))
    ||| (exists|d: int|
        0 <= d < s.len() && #[trigger] s[d] == '.' && all_digits(s.take(d)) && all_digits(
            s.skip(d + 1),
        ) && s.len() > 1)
}

/// Whether a string is a plain signed decimal.
pub open spec fn valid_decimal(s: Seq<char>) -> bool {
    if s.len() > 0 && (s[0] == '-' || s[0] == '+') {
        valid_dec_body(s.skip(1))
    } else {
        valid_dec_body(s)
    }
}

/// The string with every comma struck out.
pub open spec fn strip_commas(s: Seq<char>) -> Seq<char>
    decreases s.len(),
{
    if s.len() == 0 {
        s
    } else if s.last() == ',' {
        strip_commas(s.drop_last())
    } else {
        strip_commas(s.drop_last()).push(s.last())
    }
}

/// How many times a character occurs.
pub open spec fn count_char(s: Seq<char>, c: char) -> int
    decreases s.len(),
{
    if s.len() == 0 {
        0
    } else {
        count_char(s.drop_last(), c) + if s.last() == c {
            1int
        } else {
            0int
        }
    }
}

/// The body of a decimal: the text after its optional sign.
pub open spec fn dec_body(s: Seq<char>) -> Seq<char> {
    if s.len() > 0 && (s[0] == '-' || s[0] == '+') {
        s.skip(1)
    } else {
        s
    }
}

/// Whether a decimal denotes a negative value.
pub open spec fn dec_neg_sign(s: Seq<char>) -> bool {
    s.len() > 0 && s[0] == '-'
}

/// The index of the first dot, or the length when there is none.
pub open spec fn idx_dot(s: Seq<char>) -> int
    decreases s.len(),
{
    if s.len() == 0 {
        0
    } else if s[0] == '.' {
        0
    } else {
        1 + idx_dot(s.skip(1))
    }
}

/// How many digits a decimal body holds.
pub open spec fn dec_digit_count(s: Seq<char>) -> int {
    let b = dec_body(s);
    if idx_dot(b) < b.len() {
        b.len() - 1
    } else {
        b.len() as int
    }
}

/// How many digits follow the dot.
pub open spec fn dec_frac_len(s: Seq<char>) -> int {
    let b = dec_body(s);
    if idx_dot(b) < b.len() {
        b.len() - idx_dot(b) - 1
    } else {
        0int
    }
}

/// The signed integer the decimal's digits denote once the dot is dropped.
pub open spec fn dec_signed_fold(s: Seq<char>) -> int {
    let b = dec_body(s);
    let d = idx_dot(b);
    let m = if d < b.len() {
        fold_digits(b.take(d)) * pow10((b.len() - d - 1) as nat) + fold_digits(b.skip(d + 1))
    } else {
        fold_digits(b)
    };
    if dec_neg_sign(s) {
        -m
    } else {
        m
    }
}

/// A digit string before the first dot pins the dot's index.
proof fn lemma_idx_dot(s: Seq<char>, k: int)
    requires
        0 <= k <= s.len(),
        forall|j: int| 0 <= j < k ==> s[j] != '.',
        k == s.len() || s[k] == '.',
    ensures
        idx_dot(s) == k,
    decreases k,
{
    if k == 0 {
        if s.len() > 0 {
        }
    } else {
        assert(s[0] != '.');
        lemma_idx_dot(s.skip(1), k - 1);
    }
}

/// The index of the first occurrence of a character, or the length when
/// there is none.
pub open spec fn idx_char(s: Seq<char>, c: char) -> int
    decreases s.len(),
{
    if s.len() == 0 {
        0
    } else if s[0] == c {
        0
    } else {
        1 + idx_char(s.skip(1), c)
    }
}

/// A scan that saw no match up to a hit (or the end) pins the first index.
pub proof fn lemma_idx_char(s: Seq<char>, k: int, c: char)
    requires
        0 <= k <= s.len(),
        forall|j: int| 0 <= j < k ==> s[j] != c,
        k == s.len() || s[k] == c,
    ensures
        idx_char(s, c) == k,
    decreases k,
{
    if k == 0 {
        if s.len() > 0 {
        }
    } else {
        assert(s[0] != c);
        lemma_idx_char(s.skip(1), k - 1, c);
    }
}

/// Equal decimal values have the same sign and the same zeroness.
pub proof fn lemma_val_eq_sign(m1: int, e1: int, m2: int, e2: int)
    requires
        val_eq(m1, e1, m2, e2),
    ensures
        (m1 < 0) <==> (m2 < 0),
        (m1 == 0) <==> (m2 == 0),
{
    if e1 >= e2 {
        let p = pow10((e1 - e2) as nat);
        vstd::arithmetic::power::lemma_pow_positive(10, (e1 - e2) as nat);
        assert((m1 < 0 <==> m2 < 0) && (m1 == 0 <==> m2 == 0)) by (nonlinear_arith)
            requires
                m1 * p == m2,
                p > 0,
        ;
    } else {
        let p = pow10((e2 - e1) as nat);
        vstd::arithmetic::power::lemma_pow_positive(10, (e2 - e1) as nat);
        assert((m1 < 0 <==> m2 < 0) && (m1 == 0 <==> m2 == 0)) by (nonlinear_arith)
            requires
                m1 == m2 * p,
                p > 0,
        ;
    }
}

/// Whether `mant * 10^exp` is the decimal `mp` shifted by the whole value
/// of the decimal `ep`, with that whole value within the given bound.
pub open spec fn folds_to(mant: int, exp: int, bound: int, mp: Seq<char>, ep: Seq<char>) -> bool {
    exists|ei: int|
        -bound <= ei <= bound && val_eq(ei, 0, dec_signed_fold(ep), -dec_frac_len(ep))
            && #[trigger] val_eq(mant, exp - ei, dec_signed_fold(mp), -dec_frac_len(mp))
}

/// A concrete whole exponent witnesses the fold.
pub proof fn lemma_folds_to(mant: int, exp: int, ei: int, bound: int, mp: Seq<char>, ep: Seq<char>)
    requires
        -bound <= ei <= bound,
        val_eq(ei, 0, dec_signed_fold(ep), -dec_frac_len(ep)),
        val_eq(mant, exp - ei, dec_signed_fold(mp), -dec_frac_len(mp)),
    ensures
        folds_to(mant, exp, bound, mp, ep),
{
}

/// The exact value a scientific pair parses to, over the result's shape: a
/// zero mantissa is canonical zero; an ordinary value folds a small whole
/// exponent in; a pair keeps both parsed decimals, each up to value.
pub open spec fn sci_value_ok(mp: Seq<char>, ep: Seq<char>, v: TnView) -> bool {
    if dec_signed_fold(mp) == 0 {
        v == TnView::Regular(DecNum::Num { mant: 0, exp: 0 })
    } else {
        &&& (v matches TnView::Regular(d) ==> (d matches DecNum::Num { mant, exp } && folds_to(
            mant as int,
            exp as int,
            308,
            mp,
            ep,
        )))
        &&& (v matches TnView::Big { m, e } ==> {
            &&& m matches DecNum::Num { mant: mm, exp: me } && val_eq(
                mm as int,
                me as int,
                dec_signed_fold(mp),
                -dec_frac_len(mp),
            )
            &&& e matches DecNum::Num { mant: em, exp: ee } && val_eq(
                em as int,
                ee as int,
                dec_signed_fold(ep),
                -dec_frac_len(ep),
            )
        })
    }
}

/// What parsing `m e E` scientific notation returns, for every input: not
/// exactly one `e` or a malformed side is refused; otherwise the result is
/// an ordinary value or a pair carrying the two parsed decimals (exact while
/// each side is within eighteen digits).
pub open spec fn sci_post(s: Seq<char>, r: Result<TalismanNumber, TalismanError>) -> bool {
    let p = idx_char(s, 'e');
    let mp = s.take(p);
    let ep = s.skip(p + 1);
    &&& (count_char(s, 'e') != 1 ==> (r matches Err(e) && e is ParseError))
    &&& (count_char(s, 'e') == 1 ==> (if valid_decimal(mp) && valid_decimal(ep) {
        &&& (r matches Ok(v) && (v@ is Regular || v@ is Big))
        &&& ((dec_digit_count(mp) <= 18 && dec_digit_count(ep) <= 18) ==> (r matches Ok(v)
            && sci_value_ok(mp, ep, v@)))
    } else {
        r matches Err(e) && e is ParseError
    }))
}

/// The exact first level a double exponential parses to: a zero mantissa is
/// canonical zero; a whole exponent within the bound shifts the mantissa;
/// anything larger saturates to the signed infinity.
pub open spec fn dexp_value_ok(mp: Seq<char>, ep: Seq<char>, head: DecNum) -> bool {
    if dec_signed_fold(mp) == 0 {
        head == (DecNum::Num { mant: 0, exp: 0 })
    } else {
        &&& !(head is NaN)
        &&& (head matches DecNum::Num { mant, exp } ==> folds_to(
            mant as int,
            exp as int,
            2000000000,
            mp,
            ep,
        ))
        &&& (head matches DecNum::Inf { neg } ==> neg == (dec_signed_fold(mp) < 0))
    }
}

/// What parsing the tail of a leading-`e` string returns, for every input:
/// several inner `e`s keep the whole string symbolic; none make a one-level
/// tower of the parsed decimal; one makes a two-level tower whose first
/// level is the mantissa shifted by the exponent (exact while each side is
/// within eighteen digits).
pub open spec fn dexp_post(
    rest: Seq<char>,
    whole: Seq<char>,
    r: Result<TalismanNumber, TalismanError>,
) -> bool {
    let p = idx_char(rest, 'e');
    let mp = rest.take(p);
    let ep = rest.skip(p + 1);
    &&& (count_char(rest, 'e') > 1 ==> (r matches Ok(v) && v@ == TnView::NotationString(whole)))
    &&& (count_char(rest, 'e') == 0 ==> (if valid_decimal(rest) {
        r matches Ok(v) && v@ matches TnView::Omega { array, sign } && array.len() == 1 && sign
            == 1 && (dec_digit_count(rest) <= 18 ==> (array[0] matches DecNum::Num { mant, exp }
            && val_eq(mant as int, exp as int, dec_signed_fold(rest), -dec_frac_len(rest))))
    } else {
        r matches Err(e) && e is ParseError
    }))
    &&& (count_char(rest, 'e') == 1 ==> (if valid_decimal(mp) && valid_decimal(ep) {
        r matches Ok(v) && v@ matches TnView::Omega { array, sign } && array.len() == 2 && sign
            == 1 && array[1] == (DecNum::Num { mant: 2i128, exp: 0i64 }) && ((dec_digit_count(mp)
            <= 18 && dec_digit_count(ep) <= 18) ==> dexp_value_ok(mp, ep, array[0]))
    } else {
        r matches Err(e) && e is ParseError
    }))
}

/// What parsing a notation string returns, for every input: the empty
/// string is zero; the special spellings are infinity and the quiet
/// not-a-number; commas are struck first; a leading-`e` string stays
/// symbolic when it holds hash marks or several leading `e`s and otherwise
/// reads as a double exponential; a plain string with an inner `e` reads as
/// scientific notation; anything else must be a plain decimal.
pub open spec fn notation_post(s: Seq<char>, r: Result<TalismanNumber, TalismanError>) -> bool {
    let c = strip_commas(s);
    let plain = s.len() > 0 && !(s =~= "Infinity"@) && !(s =~= "inf"@) && !(s =~= "nan"@) && !(s
        =~= "NaN"@);
    &&& (s.len() == 0 ==> (r matches Ok(v) && v@ == TnView::Regular(
        DecNum::Num { mant: 0, exp: 0 },
    )))
    &&& ((s =~= "Infinity"@ || s =~= "inf"@) ==> (r matches Ok(v) && v@ == TnView::Regular(
        DecNum::Inf { neg: false },
    )))
    &&& ((s =~= "nan"@ || s =~= "NaN"@) ==> (r matches Ok(v) && v@ == TnView::Regular(
        DecNum::NaN,
    )))
    &&& (plain && c.len() > 0 && c[0] == 'e' && (spec_has_double_hash(c) || spec_hash_count(c)
        > 0 || spec_leading_e(c) > 1) ==> (r matches Ok(v) && v@ == TnView::NotationString(c)))
    &&& (plain && c.len() > 0 && c[0] == 'e' && !spec_has_double_hash(c) && spec_hash_count(c)
        == 0 && spec_leading_e(c) <= 1 ==> dexp_post(c.skip(1), c, r))
    &&& (plain && (c.len() == 0 || c[0] != 'e') && count_char(c, 'e') == 0 ==> (if valid_decimal(
        c,
    ) {
        r matches Ok(v) && v@ matches TnView::Regular(d) && (dec_digit_count(c) <= 18 ==> (
        d matches DecNum::Num { mant, exp } && val_eq(
            mant as int,
            exp as int,
            dec_signed_fold(c),
            -dec_frac_len(c),
        )))
    } else {
        r matches Err(e) && e is ParseError
    }))
    &&& (plain && (c.len() == 0 || c[0] != 'e') && count_char(c, 'e') != 0 ==> sci_post(c, r))
}

/// Digit folds are nonnegative and bounded by the digit count's power.
proof fn lemma_fold_bounds(s: Seq<char>)
    requires
        all_digits(s),
    ensures
        0 <= fold_digits(s) < pow10(s.len() as nat),
    decreases s.len(),
{
    lemma_pow10_concrete();
    if s.len() == 0 {
    } else {
        assert(all_digits(s.drop_last())) by {
            assert(forall|i: int| 0 <= i < s.len() - 1 ==> s.drop_last()[i] == s[i]);
        }
        lemma_fold_bounds(s.drop_last());
        assert(is_digit(s[s.len() - 1]));
        assert(10 * pow10((s.len() - 1) as nat) == pow10(s.len() as nat)) by {
            vstd::arithmetic::power::lemma_pow_adds(10, 1, (s.len() - 1) as nat);
            reveal_with_fuel(pow, 2);
        }
    }
}

/// The exact fold of a short digit run.
fn parse_digits(s: &str, a: usize, b: usize) -> (r: i128)
    requires
        a <= b <= s@.len(),
        b - a <= 18,
        forall|j: int| a <= j < b ==> is_digit(#[trigger] s@[j]),
    ensures
        r == fold_digits(s@.subrange(a as int, b as int)),
        0 <= r < pow10((b - a) as nat),
{
    proof {
        lemma_pow10_concrete();
    }
    let mut acc: i128 = 0;
    let mut i: usize = a;
    proof {
        assert(s@.subrange(a as int, a as int) =~= Seq::<char>::empty());
    }
    while i < b
        invariant
            a <= i <= b <= s@.len(),
            b - a <= 18,
            forall|j: int| a <= j < b ==> is_digit(#[trigger] s@[j]),
            acc == fold_digits(s@.subrange(a as int, i as int)),
            0 <= acc < pow10((i - a) as nat),
        decreases b - i,
    {
        proof {
            assert(s@.subrange(a as int, i as int + 1).drop_last() =~= s@.subrange(
                a as int,
                i as int,
            ));
            assert(s@.subrange(a as int, i as int + 1).last() == s@[i as int]);
            crate::decnum::lemma_pow10_concrete();
            assert(pow10((i - a) as nat) <= pow10(17)) by {
                if ((i - a) as nat) < 17 {
                    vstd::arithmetic::power::lemma_pow_strictly_increases(
                        10,
                        (i - a) as nat,
                        17,
                    );
                }
            }
            assert(10 * pow10((i - a) as nat) == pow10((i - a + 1) as nat)) by {
                vstd::arithmetic::power::lemma_pow_adds(10, 1, (i - a) as nat);
                reveal_with_fuel(pow, 2);
            }
        }
        let c = s.get_char(i);
        let d = (c as u32 - '0' as u32) as i128;
        acc = acc * 10 + d;
        i = i + 1;
    }
    acc
}

/// Parse a plain signed decimal: `None` exactly on malformed input; within
/// eighteen digits the value is exact, and longer inputs keep their leading
/// eighteen significant digits.
#[verifier::rlimit(100)]
pub fn parse_decimal(s: &str) -> (r: Option<DecNum>)
    ensures
        r is Some <==> valid_decimal(s@),
        r matches Some(d) ==> dec_wf(d) && !(d is NaN),
        (valid_decimal(s@) && dec_digit_count(s@) <= 18) ==> (r matches Some(d) && d matches
            DecNum::Num { mant, exp } && crate::decnum::val_eq(
            mant as int,
            exp as int,
            dec_signed_fold(s@),
            -dec_frac_len(s@),
        )),
{
    let n = s.unicode_len();
    let mut i: usize = 0;
    let mut neg = false;
    if n == 0 {
        return None;
    }
    let c0 = s.get_char(0);
    if c0 == '-' || c0 == '+' {
        neg = c0 == '-';
        i = 1;
    }
    let ghost body = if s@[0] == '-' || s@[0] == '+' {
        s@.skip(1)
    } else {
        s@
    };
    let start = i;
    // scan the whole-number digits
    let mut mant: i128 = 0;
    let mut sig: u32 = 0;
    let mut exp: i64 = 0;
    let mut seen_digit = false;
    proof {
        crate::decnum::lemma_pow10_concrete();
    }
    while i < n && s.get_char(i) != '.'
        invariant
            start <= i <= n,
            n == s@.len(),
            start == if s@[0] == '-' || s@[0] == '+' {
                1int
            } else {
                0int
            },
            body == s@.skip(start as int),
            0 <= mant,
            mant < pow10(sig as nat),
            sig <= 18,
            0 <= exp <= 1000000000,
            seen_digit == (i > start),
            forall|j: int| start <= j < i ==> is_digit(#[trigger] s@[j]),
        decreases n - i,
    {
        let c = s.get_char(i);
        if c < '0' || c > '9' {
            proof {
                assert(!is_digit(s@[i as int]));
                assert(s@[i as int] != '.');
                lemma_invalid_witness(s@, body, start as int, i as int);
                assert(!valid_dec_body(body));
                if s@[0] == '-' || s@[0] == '+' {
                    assert(start == 1);
                    assert(!valid_dec_body(s@.skip(1)));
                } else {
                    assert(start == 0);
                    assert(s@.skip(0) =~= s@);
                    assert(!valid_dec_body(s@));
                }
                assert(!valid_decimal(s@));
            }
            return None;
        }
        let d = (c as u32 - '0' as u32) as i128;
        if sig < 18 {
            if mant > 0 || d > 0 {
                proof {
                    crate::decnum::lemma_pow10_concrete();
                    assert(pow10(sig as nat) <= pow10(17)) by {
                        if (sig as nat) < 17 {
                            vstd::arithmetic::power::lemma_pow_strictly_increases(
                                10,
                                sig as nat,
                                17,
                            );
                        }
                    }
                    assert(10 * pow10(sig as nat) == pow10((sig + 1) as nat)) by {
                        vstd::arithmetic::power::lemma_pow_adds(10, 1, sig as nat);
                        reveal_with_fuel(pow, 2);
                    }
                }
                mant = mant * 10 + d;
                sig = sig + 1;
            }
        } else {
            if exp < 1000000000 {
                exp = exp + 1;
            }
        }
        seen_digit = true;
        i = i + 1;
    }
    let whole_end = i;
    let mut frac_digits = false;
    if i < n {
        // the dot
        i = i + 1;
        let frac_start = i;
        while i < n
            invariant
                frac_start <= i <= n,
                n == s@.len(),
                start < frac_start,
                whole_end == frac_start - 1,
                start == if s@[0] == '-' || s@[0] == '+' {
                    1int
                } else {
                    0int
                },
                body == s@.skip(start as int),
                s@[whole_end as int] == '.',
                forall|j: int| start <= j < whole_end ==> is_digit(#[trigger] s@[j]),
                0 <= mant,
                mant < pow10(sig as nat),
                sig <= 18,
                -1000000000 <= exp <= 1000000000,
                frac_digits == (i > frac_start),
                forall|j: int| frac_start <= j < i ==> is_digit(#[trigger] s@[j]),
            decreases n - i,
        {
            let c = s.get_char(i);
            if c < '0' || c > '9' {
                proof {
                    assert(!is_digit(s@[i as int]));
                    lemma_invalid_frac_witness(s@, body, start as int, whole_end as int, i as int);
                    assert(!valid_dec_body(body));
                    if s@[0] == '-' || s@[0] == '+' {
                        assert(start == 1);
                        assert(!valid_dec_body(s@.skip(1)));
                    } else {
                        assert(start == 0);
                        assert(s@.skip(0) =~= s@);
                        assert(!valid_dec_body(s@));
                    }
                    assert(!valid_decimal(s@));
                }
                return None;
            }
            let d = (c as u32 - '0' as u32) as i128;
            if sig < 18 && exp > -999999999 {
                if mant > 0 || d > 0 {
                    proof {
                        crate::decnum::lemma_pow10_concrete();
                        assert(pow10(sig as nat) <= pow10(17)) by {
                            if (sig as nat) < 17 {
                                vstd::arithmetic::power::lemma_pow_strictly_increases(
                                    10,
                                    sig as nat,
                                    17,
                                );
                            }
                        }
                        assert(10 * pow10(sig as nat) == pow10((sig + 1) as nat)) by {
                            vstd::arithmetic::power::lemma_pow_adds(10, 1, sig as nat);
                            reveal_with_fuel(pow, 2);
                        }
                    }
                    mant = mant * 10 + d;
                    exp = exp - 1;
                    sig = sig + 1;
                }
            }
            frac_digits = true;
            i = i + 1;
        }
        if !seen_digit && !frac_digits {
            proof {
                lemma_lone_dot(s@, body, start as int, whole_end as int);
            }
            return None;
        }
    } else {
        if !seen_digit {
            proof {
                assert(body.len() == 0);
            }
            return None;
        }
    }
    proof {
        crate::decnum::lemma_pow10_concrete();
        assert(pow10(sig as nat) <= pow10(18)) by {
            if (sig as nat) < 18 {
                vstd::arithmetic::power::lemma_pow_strictly_increases(10, sig as nat, 18);
            }
        }
        assert(whole_end == s@.len() || s@.len() > start + 1 || whole_end > start);
        lemma_valid_witness(s@, body, start as int, whole_end as int);
        assert(valid_dec_body(body));
        if s@[0] == '-' || s@[0] == '+' {
            assert(start == 1);
        } else {
            assert(start == 0);
            assert(s@.skip(0) =~= s@);
        }
        assert(valid_decimal(s@));
    }
    let had_dot = whole_end < n;
    let wd = whole_end - start;
    let fl: usize = if had_dot {
        n - whole_end - 1
    } else {
        0
    };
    proof {
        assert(dec_body(s@) == body);
        assert forall|j: int| 0 <= j < whole_end - start implies body[j] != '.' by {
            assert(body[j] == s@[start + j]);
            assert(is_digit(s@[start + j]));
        }
        if whole_end < n {
            assert(body[whole_end - start] == s@[whole_end as int]);
        }
        lemma_idx_dot(body, whole_end - start);
        assert(dec_digit_count(s@) == wd + fl);
        assert(dec_frac_len(s@) == fl);
    }
    if wd + fl <= 18 {
        let ip = parse_digits(s, start, whole_end);
        let fp: i128 = if had_dot {
            parse_digits(s, whole_end + 1, n)
        } else {
            0
        };
        let p0: u128 = crate::decnum::pow10_u128(fl as u32);
        proof {
            crate::decnum::lemma_pow10_concrete();
            vstd::arithmetic::power::lemma_pow_positive(10, fl as nat);
            assert(pow10(fl as nat) <= pow10(18)) by {
                if (fl as nat) < 18 {
                    vstd::arithmetic::power::lemma_pow_strictly_increases(10, fl as nat, 18);
                }
            }
        }
        let p: i128 = p0 as i128;
        proof {
            assert((ip as int) * (p as int) <= pow10((wd + fl) as nat) - pow10(fl as nat)) by {
                vstd::arithmetic::mul::lemma_mul_inequality(
                    ip as int,
                    pow10(wd as nat) - 1,
                    pow10(fl as nat),
                );
                vstd::arithmetic::mul::lemma_mul_is_distributive_sub_other_way(
                    pow10(fl as nat),
                    pow10(wd as nat),
                    1,
                );
                vstd::arithmetic::mul::lemma_mul_basics(pow10(fl as nat));
                vstd::arithmetic::power::lemma_pow_adds(10, wd as nat, fl as nat);
            }
            assert(pow10((wd + fl) as nat) <= pow10(18)) by {
                if ((wd + fl) as nat) < 18 {
                    vstd::arithmetic::power::lemma_pow_strictly_increases(
                        10,
                        (wd + fl) as nat,
                        18,
                    );
                }
            }
            assert(0 <= (ip as int) * (p as int)) by {
                vstd::arithmetic::mul::lemma_mul_nonnegative(ip as int, p as int);
            }
            if !had_dot {
                assert(body.skip(0) =~= body);
            }
        }
        let mant0: i128 = ip * p + fp;
        proof {
            let b = body;
            let d = idx_dot(b);
            assert(d == wd);
            if had_dot {
                assert(b.take(d) =~= s@.subrange(start as int, whole_end as int));
                assert(b.skip(d + 1) =~= s@.subrange(whole_end as int + 1, n as int));
            } else {
                assert(b =~= s@.subrange(start as int, whole_end as int));
                assert(p == 1);
                vstd::arithmetic::mul::lemma_mul_basics(ip as int);
            }
            assert(mant0 == (if dec_neg_sign(s@) {
                -dec_signed_fold(s@)
            } else {
                dec_signed_fold(s@)
            }));
            assert(dec_neg_sign(s@) == neg);
        }
        if mant0 == 0 {
            proof {
                crate::decnum::lemma_pow10_concrete();
                assert(crate::decnum::val_eq(0, 0, 0, -(fl as int))) by {
                    vstd::arithmetic::power::lemma_pow_positive(10, fl as nat);
                    vstd::arithmetic::mul::lemma_mul_basics(pow10(fl as nat));
                    vstd::arithmetic::mul::lemma_mul_basics(pow10((0 - (-(fl as int))) as nat));
                }
            }
            return Some(DecNum::Num { mant: 0, exp: 0 });
        }
        let mag0: u128 = mant0 as u128;
        let (nx, ne) = crate::decnum::norm_positive(mag0, -(fl as i64));
        proof {
            crate::decnum::lemma_norm_keeps_value(mant0 as int, -(fl as int));
            if neg {
                crate::decnum::lemma_val_eq_neg(nx as int, ne as int, mant0 as int, -(fl as int));
                crate::decnum::lemma_pow10_concrete();
                assert((-(nx as i128)) % 10 != 0) by {
                    if (-(nx as int)) % 10 == 0 {
                        vstd::arithmetic::div_mod::lemma_fundamental_div_mod(-(nx as int), 10);
                        vstd::arithmetic::div_mod::lemma_fundamental_div_mod(nx as int, 10);
                    }
                }
            }
        }
        if neg {
            return Some(DecNum::Num { mant: -(nx as i128), exp: ne });
        } else {
            return Some(DecNum::Num { mant: nx as i128, exp: ne });
        }
    }
    let mag: u128 = mant as u128;
    if mant == 0 {
        return Some(DecNum::Num { mant: 0, exp: 0 });
    }
    let (nx, ne) = crate::decnum::norm_positive(mag, exp);
    if ne > EXP_LIMIT {
        return Some(DecNum::Inf { neg });
    }
    if neg {
        proof {
            crate::decnum::lemma_pow10_concrete();
            assert((-(nx as i128)) % 10 != 0) by {
                if (-(nx as int)) % 10 == 0 {
                    vstd::arithmetic::div_mod::lemma_fundamental_div_mod(-(nx as int), 10);
                    vstd::arithmetic::div_mod::lemma_fundamental_div_mod(nx as int, 10);
                }
            }
        }
        Some(DecNum::Num { mant: -(nx as i128), exp: ne })
    } else {
        Some(DecNum::Num { mant: nx as i128, exp: ne })
    }
}

/// A non-digit before any dot makes the body invalid.
proof fn lemma_invalid_witness(s: Seq<char>, body: Seq<char>, start: int, i: int)
    requires
        0 <= start <= i < s.len(),
        body == s.skip(start),
        !is_digit(s[i]),
        s[i] != '.',
        forall|j: int| start <= j < i ==> is_digit(#[trigger] s[j]),
    ensures
        !valid_dec_body(body),
{
    if valid_dec_body(body) {
        if body.len() > 0 && all_digits(body) {
            assert(body[i - start] == s[i]);
        } else {
            let d = choose|d: int|
                0 <= d < body.len() && #[trigger] body[d] == '.' && all_digits(body.take(d))
                    && all_digits(body.skip(d + 1)) && body.len() > 1;
            if d + start < i {
                assert(s[d + start] == '.');
                assert(is_digit(s[d + start]));
            } else if d + start == i {
                assert(s[i] == '.');
            } else {
                assert(body.take(d)[i - start] == s[i]);
            }
        }
    }
}

/// A non-digit after the dot makes the body invalid.
proof fn lemma_invalid_frac_witness(s: Seq<char>, body: Seq<char>, start: int, dot: int, i: int)
    requires
        0 <= start <= dot < i < s.len(),
        body == s.skip(start),
        s[dot] == '.',
        !is_digit(s[i]),
        forall|j: int| start <= j < dot ==> is_digit(#[trigger] s[j]),
        forall|j: int| dot < j < i ==> is_digit(#[trigger] s[j]),
    ensures
        !valid_dec_body(body),
{
    if valid_dec_body(body) {
        if body.len() > 0 && all_digits(body) {
            assert(body[dot - start] == s[dot]);
        } else {
            let d = choose|d: int|
                0 <= d < body.len() && #[trigger] body[d] == '.' && all_digits(body.take(d))
                    && all_digits(body.skip(d + 1)) && body.len() > 1;
            if d < dot - start {
                assert(s[d + start] == '.');
                assert(is_digit(s[d + start]));
            } else if d > dot - start {
                assert(body.take(d)[dot - start] == s[dot]);
            } else {
                assert(body.skip(d + 1)[i - start - d - 1] == s[i]);
            }
        }
    }
}

/// A dot with no digit on either side is invalid.
proof fn lemma_lone_dot(s: Seq<char>, body: Seq<char>, start: int, dot: int)
    requires
        0 <= start <= dot < s.len(),
        body == s.skip(start),
        s[dot] == '.',
        dot == start,
        dot + 1 == s.len(),
    ensures
        !valid_dec_body(body),
{
    if valid_dec_body(body) {
        if body.len() > 0 && all_digits(body) {
            assert(body[0] == s[dot]);
        } else {
            let d = choose|d: int|
                0 <= d < body.len() && #[trigger] body[d] == '.' && all_digits(body.take(d))
                    && all_digits(body.skip(d + 1)) && body.len() > 1;
            assert(body.len() == 1);
        }
    }
}

/// A scanned sign-digits-dot-digits region is a valid body.
proof fn lemma_valid_witness(s: Seq<char>, body: Seq<char>, start: int, dot: int)
    requires
        0 <= start <= dot <= s.len(),
        body == s.skip(start),
        forall|j: int| start <= j < dot ==> is_digit(#[trigger] s[j]),
        dot < s.len() ==> s[dot] == '.',
        forall|j: int| dot < j < s.len() ==> is_digit(#[trigger] s[j]),
        s.len() > start,
        dot == s.len() || s.len() > start + 1 || dot > start,
    ensures
        valid_dec_body(body),
{
    if dot == s.len() {
        assert(all_digits(body)) by {
            assert forall|i: int| 0 <= i < body.len() implies is_digit(#[trigger] body[i]) by {
                assert(body[i] == s[i + start]);
            }
        }
    } else {
        let d = dot - start;
        assert(body[d] == '.');
        assert(all_digits(body.take(d))) by {
            assert forall|i: int| 0 <= i < d implies is_digit(#[trigger] body.take(d)[i]) by {
                assert(body.take(d)[i] == s[i + start]);
            }
        }
        assert(all_digits(body.skip(d + 1))) by {
            assert forall|i: int|
                0 <= i < body.skip(d + 1).len() implies is_digit(
                #[trigger] body.skip(d + 1)[i],
            ) by {
                assert(body.skip(d + 1)[i] == s[start + d + 1 + i]);
            }
        }
        assert(body.len() > 1);
    }
}

/// A wire value as the server sees it after decoding: the shapes a score can
/// arrive in.
pub enum WireValue {
    Null,
    Bool(bool),
    Num(DecNum),
    Str(String),
    Arr(Vec<WireValue>),
    Obj(Vec<(String, WireValue)>),
}

/// Whether an object's fields hold this name.
pub open spec fn wire_has(fields: Seq<(String, WireValue)>, name: Seq<char>) -> bool {
    exists|i: int| 0 <= i < fields.len() && (#[trigger] fields[i]).0@ == name
}

/// The index of the first field of this name, or the field count when
/// there is none.
pub open spec fn field_idx(fields: Seq<(String, WireValue)>, name: Seq<char>) -> int
    decreases fields.len(),
{
    if fields.len() == 0 {
        0
    } else if fields[0].0@ == name {
        0
    } else {
        1 + field_idx(fields.skip(1), name)
    }
}

/// A scan that saw no match up to a hit (or the end) pins the first-match
/// index.
pub proof fn lemma_field_idx(fields: Seq<(String, WireValue)>, k: int, name: Seq<char>)
    requires
        0 <= k <= fields.len(),
        forall|j: int| 0 <= j < k ==> (#[trigger] fields[j]).0@ != name,
        k == fields.len() || fields[k].0@ == name,
    ensures
        field_idx(fields, name) == k,
    decreases k,
{
    if k == 0 {
        if fields.len() > 0 {
        }
    } else {
        assert(fields[0].0@ != name);
        assert(forall|j: int|
            0 <= j < k - 1 ==> (#[trigger] fields.skip(1)[j]).0@ != name) by {
            assert(forall|j: int| 0 <= j < k - 1 ==> fields.skip(1)[j] == fields[j + 1]);
        }
        if k < fields.len() {
            assert(fields.skip(1)[k - 1] == fields[k]);
        }
        lemma_field_idx(fields.skip(1), k - 1, name);
    }
}

/// The numeric payload of the first field of this name: its number when it
/// is one, zero when it is missing or not a number.
pub open spec fn spec_num_field(fields: Seq<(String, WireValue)>, name: Seq<char>) -> DecNum {
    let i = field_idx(fields, name);
    if i < fields.len() && fields[i].1 is Num {
        fields[i].1->Num_0
    } else {
        DecNum::Num { mant: 0, exp: 0 }
    }
}

/// The numeric entries of a wire array, in order.
pub open spec fn spec_nums_of(items: Seq<WireValue>) -> Seq<DecNum>
    decreases items.len(),
{
    if items.len() == 0 {
        Seq::empty()
    } else if items.last() is Num {
        spec_nums_of(items.drop_last()).push(items.last()->Num_0)
    } else {
        spec_nums_of(items.drop_last())
    }
}

/// The tower levels of the first field of this name: the numeric entries of
/// its array, empty when the field is missing or not an array.
pub open spec fn spec_array_field(fields: Seq<(String, WireValue)>, name: Seq<char>) -> Seq<
    DecNum,
> {
    let i = field_idx(fields, name);
    if i < fields.len() && fields[i].1 is Arr {
        spec_nums_of(fields[i].1->Arr_0@)
    } else {
        Seq::empty()
    }
}

/// The sign the first field of this name denotes: its payload when it is a
/// whole number in the sign range, one otherwise.
pub open spec fn spec_sign_field(fields: Seq<(String, WireValue)>, name: Seq<char>) -> i32 {
    let i = field_idx(fields, name);
    if i < fields.len() && (fields[i].1 matches WireValue::Num(DecNum::Num { mant, exp }) && exp
        == 0 && -2147483648 <= mant <= 2147483647) {
        (fields[i].1->Num_0->Num_mant) as i32
    } else {
        1
    }
}

impl WireValue {
    /// Whether the value is an object with a field of this name.
    pub fn has_field(&self, name: &str) -> (r: bool)
        ensures
            r == (self is Obj && exists|i: int|
                0 <= i < self->Obj_0@.len() && (#[trigger] self->Obj_0@[i]).0@ == name@),
    {
        match self {
            WireValue::Obj(fields) => {
                let mut i: usize = 0;
                while i < fields.len()
                    invariant
                        (*self) is Obj,
                        fields@ == self->Obj_0@,
                        i <= fields@.len(),
                        forall|j: int| 0 <= j < i ==> (#[trigger] fields@[j]).0@ != name@,
                    decreases fields@.len() - i,
                {
                    if str_eq_literal(fields[i].0.as_str(), name) {
                        proof {
                            assert(self->Obj_0@[i as int].0@ == name@);
                            assert(exists|k: int|
                                0 <= k < self->Obj_0@.len() && (#[trigger] self->Obj_0@[k]).0@
                                    == name@);
                        }
                        return true;
                    }
                    i = i + 1;
                }
                proof {
                    if exists|k: int|
                        0 <= k < self->Obj_0@.len() && (#[trigger] self->Obj_0@[k]).0@ == name@ {
                        let k = choose|k: int|
                            0 <= k < self->Obj_0@.len() && (#[trigger] self->Obj_0@[k]).0@
                                == name@;
                    }
                }
                false
            },
            _ => false,
        }
    }

    /// The numeric payload of the first field of this name, zero when the
    /// field is missing or not a number.
    pub fn num_field_or_zero(&self, name: &str) -> (r: DecNum)
        requires
            wire_wf(*self),
        ensures
            dec_wf(r),
            self is Obj ==> r == spec_num_field(self->Obj_0@, name@),
            !(self is Obj) ==> r == (DecNum::Num { mant: 0, exp: 0 }),
    {
        match self {
            WireValue::Obj(fields) => {
                let mut i: usize = 0;
                while i < fields.len()
                    invariant
                        (*self) is Obj,
                        fields@ == self->Obj_0@,
                        wire_wf(*self),
                        i <= fields@.len(),
                        forall|j: int| 0 <= j < i ==> (#[trigger] fields@[j]).0@ != name@,
                    decreases fields@.len() - i,
                {
                    if str_eq_literal(fields[i].0.as_str(), name) {
                        proof {
                            lemma_obj_fields_wf(fields@, i as int);
                            lemma_field_idx(fields@, i as int, name@);
                        }
                        match &fields[i].1 {
                            WireValue::Num(d) => {
                                return *d;
                            },
                            _ => {
                                return DecNum::Num { mant: 0, exp: 0 };
                            },
                        }
                    }
                    i = i + 1;
                }
                proof {
                    lemma_field_idx(fields@, fields@.len() as int, name@);
                }
                DecNum::Num { mant: 0, exp: 0 }
            },
            _ => DecNum::Num { mant: 0, exp: 0 },
        }
    }

    /// The numeric entries of the first field of this name, when it is an
    /// array: the tower's levels.
    pub fn num_array_field(&self, name: &str) -> (r: Vec<DecNum>)
        requires
            wire_wf(*self),
        ensures
            forall|k: int| 0 <= k < r@.len() ==> dec_wf(#[trigger] r@[k]),
            self is Obj ==> r@ == spec_array_field(self->Obj_0@, name@),
            !(self is Obj) ==> r@ == Seq::<DecNum>::empty(),
    {
        let mut out: Vec<DecNum> = Vec::new();
        match self {
            WireValue::Obj(fields) => {
                let mut i: usize = 0;
                while i < fields.len()
                    invariant
                        (*self) is Obj,
                        fields@ == self->Obj_0@,
                        wire_wf(*self),
                        i <= fields@.len(),
                        out@ == Seq::<DecNum>::empty(),
                        forall|j: int| 0 <= j < i ==> (#[trigger] fields@[j]).0@ != name@,
                    decreases fields@.len() - i,
                {
                    if str_eq_literal(fields[i].0.as_str(), name) {
                        proof {
                            lemma_obj_fields_wf(fields@, i as int);
                            lemma_field_idx(fields@, i as int, name@);
                        }
                        match &fields[i].1 {
                            WireValue::Arr(items) => {
                                let mut j: usize = 0;
                                while j < items.len()
                                    invariant
                                        j <= items@.len(),
                                        wire_arr_wf(items@),
                                        out@ =~= spec_nums_of(items@.take(j as int)),
                                        forall|k: int|
                                            0 <= k < out@.len() ==> dec_wf(#[trigger] out@[k]),
                                    decreases items@.len() - j,
                                {
                                    proof {
                                        lemma_arr_item_wf(items@, j as int);
                                        assert(items@.take(j + 1).drop_last() =~= items@.take(
                                            j as int,
                                        ));
                                        assert(items@.take(j + 1).last() == items@[j as int]);
                                    }
                                    match &items[j] {
                                        WireValue::Num(d) => {
                                            out.push(*d);
                                        },
                                        _ => {},
                                    }
                                    j = j + 1;
                                }
                                proof {
                                    assert(items@.take(items@.len() as int) =~= items@);
                                }
                                return out;
                            },
                            _ => {
                                return out;
                            },
                        }
                    }
                    i = i + 1;
                }
                proof {
                    lemma_field_idx(fields@, fields@.len() as int, name@);
                }
                out
            },
            _ => out,
        }
    }

    /// The whole-number payload of the first field of this name, within the
    /// sign range, defaulting to one: the tower's sign.
    pub fn sign_field_or_one(&self, name: &str) -> (r: i32)
        requires
            wire_wf(*self),
        ensures
            self is Obj ==> r == spec_sign_field(self->Obj_0@, name@),
            !(self is Obj) ==> r == 1,
    {
        match self {
            WireValue::Obj(fields) => {
                let mut i: usize = 0;
                while i < fields.len()
                    invariant
                        (*self) is Obj,
                        fields@ == self->Obj_0@,
                        i <= fields@.len(),
                        forall|j: int| 0 <= j < i ==> (#[trigger] fields@[j]).0@ != name@,
                    decreases fields@.len() - i,
                {
                    if str_eq_literal(fields[i].0.as_str(), name) {
                        proof {
                            lemma_field_idx(fields@, i as int, name@);
                        }
                        match &fields[i].1 {
                            WireValue::Num(DecNum::Num { mant, exp }) => {
                                if *exp == 0 && -2147483648 <= *mant && *mant <= 2147483647 {
                                    return *mant as i32;
                                } else {
                                    return 1;
                                }
                            },
                            _ => {
                                return 1;
                            },
                        }
                    }
                    i = i + 1;
                }
                proof {
                    lemma_field_idx(fields@, fields@.len() as int, name@);
                }
                1
            },
            _ => 1,
        }
    }
}

impl TalismanNumber {
    /// Parse a decoded wire value into a score: a number becomes an ordinary
    /// value; an object with `m` and `e` a mantissa/exponent pair (missing
    /// or non-numeric fields count as zero); an object with `array` and
    /// `sign` a tower, keeping the numeric entries (a non-numeric sign
    /// counts as positive); a string goes through the notation parser;
    /// anything else is refused.
    pub fn from_value(data: &WireValue) -> (r: Result<TalismanNumber, TalismanError>)
        requires
            wire_wf(*data),
        ensures
            r matches Ok(v) ==> tn_wf(v@),
            data matches WireValue::Num(d) ==> (r matches Ok(v) && v@ == TnView::Regular(*d)),
            data is Obj ==> {
                let fields = data->Obj_0@;
                if wire_has(fields, "m"@) && wire_has(fields, "e"@) {
                    r matches Ok(v) && v@ == (TnView::Big {
                        m: spec_num_field(fields, "m"@),
                        e: spec_num_field(fields, "e"@),
                    })
                } else if wire_has(fields, "array"@) && wire_has(fields, "sign"@) {
                    r matches Ok(v) && v@ == (TnView::Omega {
                        array: spec_array_field(fields, "array"@),
                        sign: spec_sign_field(fields, "sign"@),
                    })
                } else {
                    r matches Err(e2) && e2 is InvalidFormat
                }
            },
            data matches WireValue::Str(s) ==> notation_post(s@, r),
            data matches WireValue::Null ==> (r matches Err(e) && e is InvalidFormat),
            data matches WireValue::Bool(b) ==> (r matches Err(e) && e is InvalidFormat),
            data matches WireValue::Arr(a) ==> (r matches Err(e) && e is InvalidFormat),
    {
        match data {
            WireValue::Str(notation) => Self::from_notation_string(notation.as_str()),
            WireValue::Num(d) => Ok(TalismanNumber::Regular(*d)),
            WireValue::Obj(fields) => {
                if data.has_field("m") && data.has_field("e") {
                    let m = data.num_field_or_zero("m");
                    let e = data.num_field_or_zero("e");
                    Ok(TalismanNumber::Big { m, e })
                } else if data.has_field("array") && data.has_field("sign") {
                    let array = data.num_array_field("array");
                    let sign = data.sign_field_or_one("sign");
                    proof {
                        assert(forall|k: int|
                            0 <= k < array@.len() ==> dec_wf(#[trigger] array@[k]));
                    }
                    Ok(TalismanNumber::Omega { array, sign })
                } else {
                    Err(TalismanError::InvalidFormat)
                }
            },
            _ => Err(TalismanError::InvalidFormat),
        }
    }

    /// Parse a notation string. The empty string is zero; `Infinity`, `inf`,
    /// `nan` and `NaN` are the special values; commas are stripped; a string
    /// with leading `e`s keeps its symbolic form when it holds `#` marks or
    /// more than one leading `e`, and otherwise reads as a double
    /// exponential; a plain string with an inner `e` reads as scientific
    /// notation; anything else must be a plain decimal.
    pub fn from_notation_string(notation: &str) -> (r: Result<TalismanNumber, TalismanError>)
        ensures
            r matches Ok(v) ==> tn_wf(v@),
            notation_post(notation@, r),
    {
        proof {
            reveal_strlit("Infinity");
            reveal_strlit("inf");
            reveal_strlit("nan");
            reveal_strlit("NaN");
        }
        let n = notation.unicode_len();
        if n == 0 {
            return Ok(TalismanNumber::Regular(DecNum::Num { mant: 0, exp: 0 }));
        }
        if str_eq_literal(notation, "Infinity") || str_eq_literal(notation, "inf") {
            proof {
                assert("nan"@.len() == 3 && "NaN"@.len() == 3 && "inf"@.len() == 3
                    && "Infinity"@.len() == 8);
                assert("inf"@[0] == 'i' && "nan"@[0] == 'n' && "NaN"@[0] == 'N');
            }
            return Ok(TalismanNumber::Regular(DecNum::Inf { neg: false }));
        }
        if str_eq_literal(notation, "nan") || str_eq_literal(notation, "NaN") {
            return Ok(TalismanNumber::Regular(DecNum::NaN));
        }
        let clean = remove_commas(notation);
        let cn = clean.as_str().unicode_len();
        if cn > 0 && clean.as_str().get_char(0) == 'e' {
            let dd = has_double_hash(clean.as_str());
            let hashes = hash_count(clean.as_str());
            if dd || hashes > 0 {
                return Ok(TalismanNumber::NotationString(clean));
            }
            let ecount = leading_e_count(clean.as_str());
            if ecount > 1 {
                return Ok(TalismanNumber::NotationString(clean));
            }
            let rest = clean.as_str().substring_char(1, cn);
            proof {
                assert(rest@ =~= clean@.skip(1));
            }
            let out = Self::parse_double_exponential(rest, &clean);
            proof {
                assert(clean@.skip(1) == rest@);
            }
            return out;
        }
        let inner_e = count_of(clean.as_str(), 'e');
        if inner_e == 0 {
            match parse_decimal(clean.as_str()) {
                Some(d) => Ok(TalismanNumber::Regular(d)),
                None => Err(
                    TalismanError::ParseError(String::from_str("invalid float literal")),
                ),
            }
        } else {
            Self::parse_scientific_notation(clean.as_str())
        }
    }

    /// Parse `m e E` scientific notation: exactly one `e`, both sides plain
    /// decimals. A value whose exponent is whole and small stays an ordinary
    /// value; anything larger becomes a mantissa/exponent pair.
    pub fn parse_scientific_notation(s: &str) -> (r: Result<TalismanNumber, TalismanError>)
        ensures
            r matches Ok(v) ==> tn_wf(v@) && (v@ is Regular || v@ is Big),
            count_char(s@, 'e') != 1 ==> (r matches Err(e) && e is ParseError),
            sci_post(s@, r),
    {
        let parts = count_of(s, 'e');
        if parts != 1 {
            return Err(
                TalismanError::ParseError(String::from_str("Invalid scientific notation")),
            );
        }
        let p = first_of(s, 'e');
        let n = s.unicode_len();
        let mpart = s.substring_char(0, p);
        let epart = s.substring_char(p + 1, n);
        let ghost mp = s@.take(idx_char(s@, 'e'));
        let ghost ep = s@.skip(idx_char(s@, 'e') + 1);
        proof {
            assert(mpart@ =~= mp);
            assert(epart@ =~= ep);
        }
        let m = match parse_decimal(mpart) {
            Some(d) => d,
            None => {
                return Err(
                    TalismanError::ParseError(String::from_str("invalid float literal")),
                );
            },
        };
        let e = match parse_decimal(epart) {
            Some(d) => d,
            None => {
                return Err(
                    TalismanError::ParseError(String::from_str("invalid float literal")),
                );
            },
        };
        match (&m, &e) {
            (DecNum::Num { mant: mm, exp: me }, DecNum::Num { mant: em, exp: ee }) => {
                if *mm == 0 {
                    proof {
                        if dec_digit_count(mp) <= 18 && dec_digit_count(ep) <= 18 {
                            lemma_val_eq_sign(
                                *mm as int,
                                *me as int,
                                dec_signed_fold(mp),
                                -dec_frac_len(mp),
                            );
                            assert(dec_signed_fold(mp) == 0);
                        }
                    }
                    Ok(TalismanNumber::Regular(DecNum::Num { mant: 0, exp: 0 }))
                } else if *ee == 0 && -308 <= *em && *em <= 308 && -400 <= *me + (*em as i64) && *me
                    + (*em as i64) <= 400 {
                    let r2 = TalismanNumber::Regular(DecNum::Num { mant: *mm, exp: *me + (*em as i64) });
                    proof {
                        if dec_digit_count(mp) <= 18 && dec_digit_count(ep) <= 18 {
                            lemma_val_eq_sign(
                                *mm as int,
                                *me as int,
                                dec_signed_fold(mp),
                                -dec_frac_len(mp),
                            );
                            assert(dec_signed_fold(mp) != 0);
                            let ei = *em as int;
                            let rexp: i64 = ((*me + (*em as i64)) as i64);
                            assert(val_eq(ei, 0, dec_signed_fold(ep), -dec_frac_len(ep)));
                            assert(rexp - ei == *me as int);
                            assert(val_eq(
                                *mm as int,
                                rexp - ei,
                                dec_signed_fold(mp),
                                -dec_frac_len(mp),
                            ));
                            lemma_folds_to(*mm as int, rexp as int, ei, 308, mp, ep);
                            assert(r2@ == TnView::Regular(DecNum::Num { mant: *mm, exp: rexp }));
                            assert(sci_value_ok(mp, ep, r2@));
                        }
                    }
                    Ok(r2)
                } else {
                    proof {
                        if dec_digit_count(mp) <= 18 && dec_digit_count(ep) <= 18 {
                            lemma_val_eq_sign(
                                *mm as int,
                                *me as int,
                                dec_signed_fold(mp),
                                -dec_frac_len(mp),
                            );
                            assert(dec_signed_fold(mp) != 0);
                        }
                    }
                    Ok(TalismanNumber::Big { m, e })
                }
            },
            _ => Ok(TalismanNumber::Big { m, e }),
        }
    }

    /// Parse the tail of a double exponential `e M e E`: with one more inner
    /// `e` it becomes a two-level tower holding `M * 10^E`; with several it
    /// stays symbolic; with none it is a one-level tower.
    pub fn parse_double_exponential(rest: &str, whole: &String) -> (r: Result<
        TalismanNumber,
        TalismanError,
    >)
        requires
            whole@.len() == rest@.len() + 1,
        ensures
            r matches Ok(v) ==> tn_wf(v@),
            dexp_post(rest@, whole@, r),
    {
        let inner = count_of(rest, 'e');
        if inner == 0 {
            match parse_decimal(rest) {
                Some(d) => {
                    let mut array: Vec<DecNum> = Vec::new();
                    array.push(d);
                    let r = TalismanNumber::Omega { array, sign: 1 };
                    proof {
                        assert(r@ matches TnView::Omega { array: a2, sign } && a2.len() == 1
                            && a2[0] == d);
                    }
                    Ok(r)
                },
                None => Err(
                    TalismanError::ParseError(String::from_str("invalid float literal")),
                ),
            }
        } else if inner > 1 {
            let copy = whole.clone();
            Ok(TalismanNumber::NotationString(copy))
        } else {
            let p = first_of(rest, 'e');
            let n = rest.unicode_len();
            let mpart = rest.substring_char(0, p);
            let epart = rest.substring_char(p + 1, n);
            let ghost mp = rest@.take(idx_char(rest@, 'e'));
            let ghost ep = rest@.skip(idx_char(rest@, 'e') + 1);
            proof {
                assert(mpart@ =~= mp);
                assert(epart@ =~= ep);
            }
            let m = match parse_decimal(mpart) {
                Some(d) => d,
                None => {
                    return Err(
                        TalismanError::ParseError(String::from_str("invalid float literal")),
                    );
                },
            };
            let e = match parse_decimal(epart) {
                Some(d) => d,
                None => {
                    return Err(
                        TalismanError::ParseError(String::from_str("invalid float literal")),
                    );
                },
            };
            // the tower's first entry is M * 10^E, kept exact for whole,
            // bounded exponents and saturated to infinity beyond them
            let entry: DecNum = match (&m, &e) {
                (DecNum::Num { mant: mm, exp: me }, DecNum::Num { mant: em, exp: ee }) => {
                    if *mm == 0 {
                        proof {
                            if dec_digit_count(mp) <= 18 && dec_digit_count(ep) <= 18 {
                                lemma_val_eq_sign(
                                    *mm as int,
                                    *me as int,
                                    dec_signed_fold(mp),
                                    -dec_frac_len(mp),
                                );
                                assert(dec_signed_fold(mp) == 0);
                            }
                        }
                        DecNum::Num { mant: 0, exp: 0 }
                    } else if *ee == 0 && -2000000000 <= *em && *em <= 2000000000 && -EXP_LIMIT
                        <= *me + (*em as i64) && *me + (*em as i64) <= EXP_LIMIT {
                        proof {
                            if dec_digit_count(mp) <= 18 && dec_digit_count(ep) <= 18 {
                                lemma_val_eq_sign(
                                    *mm as int,
                                    *me as int,
                                    dec_signed_fold(mp),
                                    -dec_frac_len(mp),
                                );
                                assert(dec_signed_fold(mp) != 0);
                                let ei = *em as int;
                                let rexp: i64 = ((*me + (*em as i64)) as i64);
                                assert(rexp - ei == *me as int);
                                assert(val_eq(
                                    *mm as int,
                                    rexp - ei,
                                    dec_signed_fold(mp),
                                    -dec_frac_len(mp),
                                ));
                                lemma_folds_to(*mm as int, rexp as int, ei, 2000000000, mp, ep);
                                assert(dexp_value_ok(
                                    mp,
                                    ep,
                                    DecNum::Num { mant: *mm, exp: rexp },
                                ));
                            }
                        }
                        DecNum::Num { mant: *mm, exp: *me + (*em as i64) }
                    } else {
                        proof {
                            if dec_digit_count(mp) <= 18 && dec_digit_count(ep) <= 18 {
                                lemma_val_eq_sign(
                                    *mm as int,
                                    *me as int,
                                    dec_signed_fold(mp),
                                    -dec_frac_len(mp),
                                );
                                assert(dec_signed_fold(mp) != 0);
                                assert((*mm < 0) == (dec_signed_fold(mp) < 0));
                            }
                        }
                        DecNum::Inf { neg: *mm < 0 }
                    }
                },
                (DecNum::Num { mant: mm, exp: me }, _) => DecNum::Inf { neg: *mm < 0 },
                (d, _) => *d,
            };
            proof {
                if dec_digit_count(mp) <= 18 && dec_digit_count(ep) <= 18 {
                    assert(dexp_value_ok(mp, ep, entry));
                }
            }
            let mut array: Vec<DecNum> = Vec::new();
            array.push(entry);
            array.push(DecNum::Num { mant: 2, exp: 0 });
            let r = TalismanNumber::Omega { array, sign: 1 };
            proof {
                assert(r@ matches TnView::Omega { array: a2, sign } && a2.len() == 2 && a2[0]
                    == entry && a2[1] == (DecNum::Num { mant: 2i128, exp: 0i64 }));
            }
            Ok(r)
        }
    }
}

/// Well-formed wire values carry well-formed decimals everywhere.
pub open spec fn wire_wf(v: WireValue) -> bool
    decreases v, 1int,
{
    match v {
        WireValue::Num(d) => dec_wf(d),
        WireValue::Arr(items) => wire_arr_wf(items@),
        WireValue::Obj(fields) => wire_obj_wf(fields@),
        _ => true,
    }
}

/// Well-formedness over an array's items.
pub open spec fn wire_arr_wf(items: Seq<WireValue>) -> bool
    decreases items, 0int,
{
    if items.len() == 0 {
        true
    } else {
        wire_wf(items.last()) && wire_arr_wf(items.drop_last())
    }
}

/// Well-formedness over an object's fields.
pub open spec fn wire_obj_wf(fields: Seq<(String, WireValue)>) -> bool
    decreases fields, 0int,
{
    if fields.len() == 0 {
        true
    } else {
        wire_wf(fields.last().1) && wire_obj_wf(fields.drop_last())
    }
}

/// Each item of a well-formed array is well-formed.
pub proof fn lemma_arr_item_wf(items: Seq<WireValue>, i: int)
    requires
        wire_arr_wf(items),
        0 <= i < items.len(),
    ensures
        wire_wf(items[i]),
    decreases items.len(),
{
    if i == items.len() - 1 {
    } else {
        assert(items.drop_last()[i] == items[i]);
        lemma_arr_item_wf(items.drop_last(), i);
    }
}

/// Each field value of a well-formed object is well-formed.
pub proof fn lemma_obj_fields_wf(fields: Seq<(String, WireValue)>, i: int)
    requires
        wire_obj_wf(fields),
        0 <= i < fields.len(),
    ensures
        wire_wf(fields[i].1),
    decreases fields.len(),
{
    if i == fields.len() - 1 {
    } else {
        assert(fields.drop_last()[i] == fields[i]);
        lemma_obj_fields_wf(fields.drop_last(), i);
    }
}

/// Strike the commas out of a string.
pub fn remove_commas(s: &str) -> (r: String)
    ensures
        r@ == strip_commas(s@),
{
    let n = s.unicode_len();
    let mut r = String::new();
    let mut i: usize = 0;
    proof {
        assert(s@.take(0) =~= Seq::<char>::empty());
    }
    while i < n
        invariant
            i <= n,
            n == s@.len(),
            r@ == strip_commas(s@.take(i as int)),
        decreases n - i,
    {
        proof {
            assert(s@.take(i as int + 1).drop_last() =~= s@.take(i as int));
            assert(s@.take(i as int + 1).last() == s@[i as int]);
        }
        let c = s.get_char(i);
        if c != ',' {
            crate::utils::push_char(&mut r, c);
        }
        i = i + 1;
    }
    proof {
        assert(s@.take(i as int) =~= s@);
    }
    r
}

/// How many times a character occurs, executably.
pub fn count_of(s: &str, c: char) -> (r: usize)
    ensures
        r == count_char(s@, c),
        r <= s@.len(),
{
    let n = s.unicode_len();
    let mut i: usize = 0;
    let mut count: usize = 0;
    proof {
        assert(s@.take(0) =~= Seq::<char>::empty());
        lemma_count_char_bounds(s@.take(0), c);
    }
    while i < n
        invariant
            i <= n,
            count <= i,
            n == s@.len(),
            count == count_char(s@.take(i as int), c),
        decreases n - i,
    {
        proof {
            assert(s@.take(i as int + 1).drop_last() =~= s@.take(i as int));
            assert(s@.take(i as int + 1).last() == s@[i as int]);
        }
        if s.get_char(i) == c {
            count = count + 1;
        }
        i = i + 1;
    }
    proof {
        assert(s@.take(i as int) =~= s@);
    }
    count
}

/// Character counts are bounded by the length.
proof fn lemma_count_char_bounds(s: Seq<char>, c: char)
    ensures
        0 <= count_char(s, c) <= s.len(),
    decreases s.len(),
{
    if s.len() > 0 {
        lemma_count_char_bounds(s.drop_last(), c);
    }
}

/// The first index of a character that occurs.
pub fn first_of(s: &str, c: char) -> (r: usize)
    requires
        count_char(s@, c) >= 1,
    ensures
        r < s@.len(),
        s@[r as int] == c,
        r == idx_char(s@, c),
{
    let n = s.unicode_len();
    let mut i: usize = 0;
    proof {
        assert(s@.take(0) =~= Seq::<char>::empty());
        lemma_count_char_bounds(s@, c);
    }
    while i < n
        invariant
            i <= n,
            n == s@.len(),
            count_char(s@, c) >= 1,
            forall|j: int| 0 <= j < i ==> s@[j] != c,
        decreases n - i,
    {
        if s.get_char(i) == c {
            proof {
                lemma_idx_char(s@, i as int, c);
            }
            return i;
        }
        i = i + 1;
    }
    proof {
        lemma_count_none(s@, c);
    }
    0
}

/// A string without the character has count zero.
proof fn lemma_count_none(s: Seq<char>, c: char)
    requires
        forall|j: int| 0 <= j < s.len() ==> s[j] != c,
    ensures
        count_char(s, c) == 0,
    decreases s.len(),
{
    if s.len() > 0 {
        assert(forall|j: int| 0 <= j < s.len() - 1 ==> s.drop_last()[j] == s[j]);
        lemma_count_none(s.drop_last(), c);
        assert(s.last() == s[s.len() - 1]);
    }
}

/// The decimal digits of a nonnegative integer, most significant first.
pub open spec fn spec_digits(n: int) -> Seq<char>
    recommends
        n >= 0,
    decreases n,
{
    if n < 10 {
        seq![((n + '0' as int) as char)]
    } else {
        spec_digits(n / 10).push(((n % 10 + '0' as int) as char))
    }
}

/// A machine-word value prints in at most thirty-nine digits, and every
/// value in at least one.
pub proof fn lemma_spec_digits_len(n: int)
    requires
        0 <= n < 0x100000000000000000000000000000000,
    ensures
        1 <= spec_digits(n).len() <= 39,
    decreases n,
{
    if n >= 10 {
        lemma_spec_digits_len(n / 10);
        if spec_digits(n).len() > 39 {
            lemma_digits_len_value(n);
            crate::decnum::lemma_pow10_concrete();
            assert(pow10(39) <= pow10((spec_digits(n).len() - 1) as nat)) by {
                if 39 < spec_digits(n).len() - 1 {
                    vstd::arithmetic::power::lemma_pow_strictly_increases(
                        10,
                        39,
                        (spec_digits(n).len() - 1) as nat,
                    );
                }
            }
        }
    }
}

/// A printed value sits at or above the power its width names.
pub proof fn lemma_digits_len_value(n: int)
    requires
        n >= 1,
    ensures
        n >= pow10((spec_digits(n).len() - 1) as nat),
        spec_digits(n).len() >= 1,
    decreases n,
{
    crate::decnum::lemma_pow10_concrete();
    if n >= 10 {
        lemma_digits_len_value(n / 10);
        let l = spec_digits(n / 10).len();
        assert(spec_digits(n).len() == l + 1);
        assert(pow10(l as nat) == 10 * pow10((l - 1) as nat)) by {
            vstd::arithmetic::power::lemma_pow_adds(10, 1, (l - 1) as nat);
            reveal_with_fuel(pow, 2);
        }
        vstd::arithmetic::div_mod::lemma_fundamental_div_mod(n, 10);
        assert(n == 10 * (n / 10) + n % 10);
        assert(10 * (n / 10) >= 10 * pow10((l - 1) as nat)) by {
            vstd::arithmetic::mul::lemma_mul_inequality(pow10((l - 1) as nat), n / 10, 10);
        }
    }
}

/// A digit string grouped in threes from the right with commas.
pub open spec fn spec_commas(s: Seq<char>) -> Seq<char>
    decreases s.len(),
{
    if s.len() <= 3 {
        s
    } else {
        spec_commas(s.take(s.len() - 3)) + seq![','] + s.skip(s.len() - 3)
    }
}

/// The digits of a nonnegative integer, as a string.
pub fn digits_string(x: u128) -> (r: String)
    ensures
        r@ == spec_digits(x as int),
        1 <= r@.len() <= 39,
    decreases x,
{
    proof {
        lemma_spec_digits_len(x as int);
    }
    if x < 10 {
        let mut r = String::new();
        let c = (('0' as u8) + (x as u8)) as char;
        crate::utils::push_char(&mut r, c);
        proof {
            assert(r@ =~= spec_digits(x as int));
        }
        r
    } else {
        let mut r = digits_string(x / 10);
        let c = (('0' as u8) + ((x % 10) as u8)) as char;
        crate::utils::push_char(&mut r, c);
        r
    }
}

/// Group a digit string in threes from the right with commas.
pub fn with_commas(s: &str) -> (r: String)
    ensures
        r@ == spec_commas(s@),
    decreases s@.len(),
{
    let n = s.unicode_len();
    if n <= 3 {
        let r = s.to_owned();
        return r;
    }
    let head = s.substring_char(0, n - 3);
    let tail = s.substring_char(n - 3, n);
    let mut r = with_commas(head);
    crate::utils::push_char(&mut r, ',');
    let r2 = r.concat(tail);
    proof {
        assert(r2@ =~= spec_commas(s@));
    }
    r2
}

/// Render a whole number with commas for readability; the sign stays in
/// front of the groups.
pub fn format_with_commas(n: i64) -> (r: String)
    requires
        n > i64::MIN,
    ensures
        n >= 0 ==> r@ == spec_commas(spec_digits(n as int)),
        n < 0 ==> r@ == seq!['-'] + spec_commas(spec_digits(-n as int)),
{
    if n >= 0 {
        let d = digits_string(n as u128);
        with_commas(d.as_str())
    } else {
        let d = digits_string((-n) as u128);
        let grouped = with_commas(d.as_str());
        let mut r = String::new();
        crate::utils::push_char(&mut r, '-');
        let out = r.concat(grouped.as_str());
        proof {
            assert(out@ =~= seq!['-'] + spec_commas(spec_digits(-n as int)));
        }
        out
    }
}

/// The zero-padded fractional digits a scientific rendering shows: the
/// digits after the leading one, extended with zeros to the asked-for
/// places.
pub open spec fn sci_frac(ds: Seq<char>, places: int) -> Seq<char> {
    Seq::new(
        places as nat,
        |i: int|
            if 1 + i < ds.len() {
                ds[1 + i]
            } else {
                '0'
            },
    )
}

/// The scientific rendering of a finite decimal: sign, the leading digit,
/// the next `places` digits after a dot, then `e` and the whole magnitude
/// (the exponent plus the digit count less one).
pub open spec fn spec_sci(mant: int, exp: int, places: int) -> Seq<char> {
    if mant == 0 {
        seq!['0'] + (if places > 0 {
            seq!['.'] + Seq::new(places as nat, |i: int| '0')
        } else {
            Seq::<char>::empty()
        }) + seq!['e', '0']
    } else {
        let ds = spec_digits(
            if mant < 0 {
                -mant
            } else {
                mant
            },
        );
        let mag10 = exp + ds.len() - 1;
        (if mant < 0 {
            seq!['-']
        } else {
            Seq::<char>::empty()
        }) + ds.take(1) + (if places > 0 {
            seq!['.'] + sci_frac(ds, places)
        } else {
            Seq::<char>::empty()
        }) + seq!['e'] + (if mag10 >= 0 {
            spec_digits(mag10)
        } else {
            seq!['-'] + spec_digits(-mag10)
        })
    }
}

/// The fractional rendering of a magnitude split at `shift` decimal
/// places: the whole part's digits, then a dot and the first `places`
/// fractional digits (the remainder left-padded with zeros to the shift's
/// width, truncated or zero-extended to the places asked for).
pub open spec fn spec_fixed_frac(mag: int, shift: int, places: int) -> Seq<char> {
    let ip = mag / pow10(shift as nat);
    let rem = mag % pow10(shift as nat);
    let dr = spec_digits(rem);
    let padded = (if dr.len() < shift {
        Seq::new((shift - dr.len()) as nat, |i: int| '0')
    } else {
        Seq::<char>::empty()
    }) + dr;
    spec_digits(ip) + (if places > 0 {
        seq!['.'] + Seq::new(
            places as nat,
            |i: int|
                if i < padded.len() {
                    padded[i]
                } else {
                    '0'
                },
        )
    } else {
        Seq::<char>::empty()
    })
}

/// The rendering of a pair's mantissa: fixed places for a finite value,
/// the literal spellings for the special ones.
pub open spec fn spec_score_m(m: DecNum, places: int) -> Seq<char> {
    match m {
        DecNum::Num { mant, exp } => spec_fixed(mant as int, exp as int, places),
        DecNum::Inf { neg } => if neg {
            "-inf"@
        } else {
            "inf"@
        },
        DecNum::NaN => "NaN"@,
    }
}

/// The rendering of a pair's exponent: scientific with three places past a
/// million in magnitude, truncated below it, the literal spellings for the
/// special values.
pub open spec fn spec_fmt_exp(e: DecNum) -> Seq<char> {
    match e {
        DecNum::Num { mant, exp } => if val_lt(1000000, 0, mant as int, exp as int) || val_lt(
            mant as int,
            exp as int,
            -1000000,
            0,
        ) {
            spec_sci(mant as int, exp as int, 3)
        } else {
            TalismanNumber::spec_trunc(mant as int, exp as int)
        },
        DecNum::Inf { neg } => if neg {
            "-inf"@
        } else {
            "inf"@
        },
        DecNum::NaN => "NaN"@,
    }
}

/// One tower level's rendering: the whole part toward zero for a finite
/// level, the literal spellings for the special ones.
pub open spec fn spec_level(d: DecNum) -> Seq<char> {
    match d {
        DecNum::Num { mant, exp } => TalismanNumber::spec_trunc(mant as int, exp as int),
        DecNum::Inf { neg } => if neg {
            "-inf"@
        } else {
            "inf"@
        },
        DecNum::NaN => "NaN"@,
    }
}

/// The tail of a tall tower's rendering: the levels past the first, each
/// behind a `#`.
pub open spec fn spec_tower_tail(array: Seq<DecNum>, k: int) -> Seq<char>
    decreases k,
{
    if k <= 1 {
        Seq::<char>::empty()
    } else {
        spec_tower_tail(array, k - 1) + seq!['#'] + spec_level(array[k - 1])
    }
}

/// The fixed-place rendering of a finite decimal: its sign, then the
/// whole form for a nonnegative exponent and the split form for a negative
/// one.
pub open spec fn spec_fixed(mant: int, exp: int, places: int) -> Seq<char> {
    (if mant < 0 {
        seq!['-']
    } else {
        Seq::<char>::empty()
    }) + (if exp >= 0 {
        spec_digits(abs_int(mant)) + Seq::new(exp as nat, |i: int| '0') + (if places > 0 {
            seq!['.'] + Seq::new(places as nat, |i: int| '0')
        } else {
            Seq::<char>::empty()
        })
    } else {
        spec_fixed_frac(
            abs_int(mant),
            (if exp >= -38 {
                -exp
            } else {
                38int
            }),
            places,
        )
    })
}

/// Render a finite decimal with a fixed number of places after the point,
/// truncating lower digits: the integer part, a dot when places are asked
/// for, then the first `places` fractional digits.
#[verifier::rlimit(100)]
#[verifier::spinoff_prover]
pub fn fixed_places(mant: i128, exp: i64, places: usize) -> (r: String)
    requires
        -MANT_LIMIT < mant < MANT_LIMIT,
        -EXP_LIMIT <= exp <= EXP_LIMIT,
        places <= 30,
    ensures
        r@.len() >= 1,
        r@ =~= spec_fixed(mant as int, exp as int, places as int),
        exp < 0 ==> r@ =~= (if mant < 0 {
            seq!['-']
        } else {
            Seq::<char>::empty()
        }) + spec_fixed_frac(
            abs_int(mant as int),
            (if exp >= -38 {
                -exp as int
            } else {
                38int
            }),
            places as int,
        ),
        exp >= 0 ==> r@ =~= (if mant < 0 {
            seq!['-']
        } else {
            Seq::<char>::empty()
        }) + spec_digits(
            if mant < 0 {
                -mant as int
            } else {
                mant as int
            },
        ) + Seq::new(exp as nat, |i: int| '0') + (if places > 0 {
            seq!['.'] + Seq::new(places as nat, |i: int| '0')
        } else {
            Seq::<char>::empty()
        }),
{
    proof {
        crate::decnum::lemma_pow10_concrete();
    }
    let neg = mant < 0;
    let mag: u128 = (if neg {
        -mant
    } else {
        mant
    }) as u128;
    let mut out = String::new();
    if neg {
        crate::utils::push_char(&mut out, '-');
    }
    if exp >= 0 {
        // a whole number: digits, a shift of zeros, then .000...
        let d = digits_string(mag);
        let mut whole = out.concat(d.as_str());
        let ghost base = whole@;
        let mut k: i64 = 0;
        while k < exp
            invariant
                0 <= k <= exp,
                exp <= EXP_LIMIT,
                whole@.len() >= 1,
                whole@ =~= base + Seq::new(k as nat, |i: int| '0'),
            decreases exp - k,
        {
            crate::utils::push_char(&mut whole, '0');
            k = k + 1;
        }
        let ghost zeros = Seq::new(exp as nat, |i: int| '0');
        if places > 0 {
            crate::utils::push_char(&mut whole, '.');
            let ghost base2 = whole@;
            let mut j: usize = 0;
            while j < places
                invariant
                    j <= places,
                    whole@.len() >= 1,
                    whole@ =~= base2 + Seq::new(j as nat, |i: int| '0'),
                decreases places - j,
            {
                crate::utils::push_char(&mut whole, '0');
                j = j + 1;
            }
            proof {
                assert(whole@ =~= base + zeros + (seq!['.'] + Seq::new(
                    places as nat,
                    |i: int| '0',
                )));
            }
        }
        whole
    } else {
        let shift: u32 = if exp >= -38 {
            (-exp) as u32
        } else {
            38
        };
        let p = crate::decnum::pow10_u128(shift);
        proof {
            vstd::arithmetic::power::lemma_pow_positive(10, shift as nat);
        }
        let ip = mag / p;
        let rem = mag % p;
        proof {
            assert(ip as int == abs_int(mant as int) / pow10(shift as nat));
            assert(rem as int == abs_int(mant as int) % pow10(shift as nat));
        }
        let d = digits_string(ip);
        let mut whole = out.concat(d.as_str());
        let ghost head = whole@;
        if places > 0 {
            crate::utils::push_char(&mut whole, '.');
            // the fractional digits: the remainder padded on the left to the
            // shift's width
            let dr = digits_string(rem);
            let drn = dr.as_str().unicode_len();
            let width = shift as usize;
            let mut padded = String::new();
            let mut z: usize = 0;
            while z + drn < width
                invariant
                    drn == dr@.len(),
                    drn <= 39,
                    width <= 38,
                    z <= width,
                    drn < width ==> z + drn <= width,
                    drn >= width ==> z == 0,
                    padded@ =~= Seq::new(z as nat, |i: int| '0'),
                decreases width - z - drn,
            {
                crate::utils::push_char(&mut padded, '0');
                z = z + 1;
            }
            let padded2 = padded.concat(dr.as_str());
            let ghost pseq = (if dr@.len() < width {
                Seq::new((width - dr@.len()) as nat, |i: int| '0')
            } else {
                Seq::<char>::empty()
            }) + dr@;
            proof {
                assert(padded2@ =~= pseq);
            }
            let pn = padded2.as_str().unicode_len();
            let mut j: usize = 0;
            while j < places
                invariant
                    j <= places,
                    places <= 30,
                    pn == padded2@.len(),
                    padded2@ == pseq,
                    whole@.len() >= 1,
                    whole@ =~= head + seq!['.'] + Seq::new(
                        j as nat,
                        |i: int|
                            if i < pseq.len() {
                                pseq[i]
                            } else {
                                '0'
                            },
                    ),
                decreases places - j,
            {
                if j < pn {
                    let c = padded2.as_str().get_char(j);
                    crate::utils::push_char(&mut whole, c);
                } else {
                    crate::utils::push_char(&mut whole, '0');
                }
                j = j + 1;
            }
        }
        whole
    }
}

impl TalismanNumber {
    /// Render the score for display. Ordinary values under a million print
    /// whole with commas or with two decimal places; larger ones in
    /// scientific form with three places. Mantissa/exponent pairs print
    /// `M eE`, switching to a double exponential when the exponent passes a
    /// million. Towers print their `e` prefix (at most eight) and their
    /// levels; symbolic strings print verbatim. Fractional places beyond the
    /// requested precision are truncated.
    pub fn to_balatro_notation(&self, places: usize) -> (r: String)
        requires
            tn_wf(self@),
            places <= 30,
        ensures
            r@.len() >= 0,
            self@ matches TnView::NotationString(s) ==> r@ == s,
            ({
                let v = self@;
                (v is Regular && v->Regular_0 is Num && v->Regular_0->Num_exp >= 0
                    && crate::decnum::val_lt(
                    v->Regular_0->Num_mant as int,
                    v->Regular_0->Num_exp as int,
                    1000000,
                    0,
                ) && crate::decnum::val_lt(
                    -1000000,
                    0,
                    v->Regular_0->Num_mant as int,
                    v->Regular_0->Num_exp as int,
                ) && v->Regular_0->Num_mant >= 0) ==> r@ == spec_commas(
                    spec_digits(
                        v->Regular_0->Num_mant * pow10(v->Regular_0->Num_exp as nat),
                    ),
                )
            }),
            ({
                let v = self@;
                (v is Regular && v->Regular_0 is Num && v->Regular_0->Num_exp >= 0
                    && crate::decnum::val_lt(
                    v->Regular_0->Num_mant as int,
                    v->Regular_0->Num_exp as int,
                    1000000,
                    0,
                ) && crate::decnum::val_lt(
                    -1000000,
                    0,
                    v->Regular_0->Num_mant as int,
                    v->Regular_0->Num_exp as int,
                ) && v->Regular_0->Num_mant < 0) ==> r@ == seq!['-'] + spec_commas(
                    spec_digits(
                        (-v->Regular_0->Num_mant) * pow10(v->Regular_0->Num_exp as nat),
                    ),
                )
            }),
            ({
                let v = self@;
                v matches TnView::Regular(d) ==> {
                    &&& (d is Num && !(val_lt(d->Num_mant as int, d->Num_exp as int, 1000000, 0)
                        && val_lt(-1000000, 0, d->Num_mant as int, d->Num_exp as int)) ==> r@
                        == spec_sci(d->Num_mant as int, d->Num_exp as int, 3))
                    &&& (d is Num && val_lt(d->Num_mant as int, d->Num_exp as int, 1000000, 0)
                        && val_lt(-1000000, 0, d->Num_mant as int, d->Num_exp as int)
                        && d->Num_exp < 0 ==> r@ == spec_fixed(
                        d->Num_mant as int,
                        d->Num_exp as int,
                        2,
                    ))
                    &&& (d is Inf ==> r@ == (if d->Inf_neg {
                        "-inf"@
                    } else {
                        "inf"@
                    }))
                    &&& (d is NaN ==> r@ == "NaN"@)
                }
            }),
            (self@ matches TnView::Omega { array, sign } && array.len() == 0 ==> r@ == seq![
                '0',
            ]),
            ({
                let v = self@;
                (v is Omega && 1 <= v->Omega_array.len() <= 2 && v->Omega_array[0] is Num) ==> r@
                    == (if v->Omega_sign < 0 {
                    seq!['-']
                } else {
                    Seq::<char>::empty()
                }) + Seq::new(Self::spec_tower_ecount(v->Omega_array) as nat, |i: int| 'e')
                    + spec_fixed(1, 0, places as int) + seq!['e'] + Self::spec_trunc(
                    v->Omega_array[0]->Num_mant as int,
                    v->Omega_array[0]->Num_exp as int,
                )
            }),
            ({
                let v = self@;
                (v is Omega && 1 <= v->Omega_array.len() <= 2 && !(v->Omega_array[0] is Num))
                    ==> r@ == (if v->Omega_sign < 0 {
                    seq!['-']
                } else {
                    Seq::<char>::empty()
                }) + Seq::new(Self::spec_tower_ecount(v->Omega_array) as nat, |i: int| 'e') + (
                if v->Omega_array[0] is NaN {
                    "NaN"@
                } else if v->Omega_array[0]->Inf_neg {
                    "-inf"@
                } else {
                    "inf"@
                })
            }),
            ({
                let v = self@;
                (v is Omega && v->Omega_array.len() > 2) ==> r@ == (if v->Omega_sign < 0 {
                    seq!['-']
                } else {
                    Seq::<char>::empty()
                }) + seq!['e'] + spec_score_m(v->Omega_array[0], places as int)
                    + spec_tower_tail(v->Omega_array, v->Omega_array.len() as int)
            }),
            ({
                let v = self@;
                v matches TnView::Big { m, e } ==> {
                    let bigq = ((e is Num && val_lt(
                        1000000,
                        0,
                        e->Num_mant as int,
                        e->Num_exp as int,
                    )) || e is Inf);
                    &&& (!bigq ==> r@ == spec_score_m(m, places as int) + seq!['e']
                        + spec_fmt_exp(e))
                    &&& ((bigq && e is Num) ==> r@ == seq!['e'] + spec_sci(
                        e->Num_mant as int,
                        e->Num_exp as int,
                        places as int,
                    ))
                    &&& (e is Inf ==> r@ == seq!['e'] + spec_score_m(m, places as int))
                }
            }),
    {
        proof {
            crate::decnum::lemma_pow10_concrete();
        }
        match self {
            TalismanNumber::Regular(d) => {
                match d {
                    DecNum::Num { mant, exp } => {
                        let below = cmp_parts(*mant, *exp, 1000000, 0);
                        let above = cmp_parts(-1000000, 0, *mant, *exp);
                        if matches!(below, Ord3::Less) && matches!(above, Ord3::Less) {
                            if *exp >= 0 {
                                // a whole number below a million
                                proof {
                                    lemma_small_regular(*mant, *exp);
                                }
                                let p = crate::decnum::pow10_u128(*exp as u32);
                                if *mant >= 0 {
                                    let v: u128 = (*mant as u128) * p;
                                    let d2 = digits_string(v);
                                    with_commas(d2.as_str())
                                } else {
                                    let v: u128 = ((-*mant) as u128) * p;
                                    let d2 = digits_string(v);
                                    let grouped = with_commas(d2.as_str());
                                    let mut r = String::new();
                                    crate::utils::push_char(&mut r, '-');
                                    let out = r.concat(grouped.as_str());
                                    proof {
                                        assert(out@ =~= seq!['-'] + spec_commas(
                                            spec_digits(v as int),
                                        ));
                                    }
                                    out
                                }
                            } else {
                                fixed_places(*mant, *exp, 2)
                            }
                        } else {
                            Self::sci_places(*mant, *exp, 3)
                        }
                    },
                    DecNum::Inf { neg } => {
                        if *neg {
                            String::from_str("-inf")
                        } else {
                            String::from_str("inf")
                        }
                    },
                    DecNum::NaN => String::from_str("NaN"),
                }
            },
            TalismanNumber::Big { m, e } => {
                let big_e = match e {
                    DecNum::Num { mant: em, exp: ee } => matches!(
                        cmp_parts(1000000, 0, *em, *ee),
                        Ord3::Less,
                    ),
                    DecNum::Inf { .. } => true,
                    DecNum::NaN => false,
                };
                let mrend = match m {
                    DecNum::Num { mant: mm, exp: me } => {
                        let fr = fixed_places(*mm, *me, places);
                        proof {
                            assert(fr@ =~= spec_score_m(*m, places as int));
                        }
                        fr
                    },
                    DecNum::Inf { neg } => {
                        proof {
                            reveal_strlit("-inf");
                            reveal_strlit("inf");
                        }
                        if *neg {
                            String::from_str("-inf")
                        } else {
                            String::from_str("inf")
                        }
                    },
                    DecNum::NaN => {
                        proof {
                            reveal_strlit("NaN");
                        }
                        String::from_str("NaN")
                    },
                };
                if !big_e {
                    let erend = Self::format_exponent(e);
                    let mut r = mrend;
                    crate::utils::push_char(&mut r, 'e');
                    let out = r.concat(erend.as_str());
                    proof {
                        assert(out@ =~= spec_score_m(*m, places as int) + seq!['e']
                            + spec_fmt_exp(*e));
                    }
                    out
                } else {
                    // a double exponential: the exponent's own mantissa and
                    // magnitude
                    match e {
                        DecNum::Num { mant: em, exp: ee } => {
                            let mut r = String::new();
                            crate::utils::push_char(&mut r, 'e');
                            let inner = Self::sci_places(*em, *ee, places);
                            let out = r.concat(inner.as_str());
                            proof {
                                assert(out@ =~= seq!['e'] + spec_sci(
                                    *em as int,
                                    *ee as int,
                                    places as int,
                                ));
                            }
                            out
                        },
                        _ => {
                            let mut r = String::new();
                            crate::utils::push_char(&mut r, 'e');
                            let out = r.concat(mrend.as_str());
                            proof {
                                assert(out@ =~= seq!['e'] + spec_score_m(*m, places as int));
                            }
                            out
                        },
                    }
                }
            },
            TalismanNumber::Omega { array, sign } => {
                if array.len() == 0 {
                    proof {
                        reveal_strlit("0");
                    }
                    let z = String::from_str("0");
                    proof {
                        assert(z@ =~= seq!['0']);
                    }
                    return z;
                }
                let mut r = String::new();
                if *sign < 0 {
                    crate::utils::push_char(&mut r, '-');
                }
                let ghost sign_part = r@;
                if array.len() <= 2 {
                    let e_count: usize = if array.len() == 2 {
                        match &array[1] {
                            DecNum::Num { mant, exp } => {
                                if *exp == 0 && 0 <= *mant && *mant <= 8 {
                                    *mant as usize
                                } else if *exp >= 0 {
                                    8
                                } else {
                                    1
                                }
                            },
                            _ => 8,
                        }
                    } else {
                        1
                    };
                    let capped = if e_count > 8 {
                        8
                    } else {
                        e_count
                    };
                    proof {
                        assert(capped == Self::spec_tower_ecount(array@));
                    }
                    let mut k: usize = 0;
                    while k < capped
                        invariant
                            k <= capped,
                            r@ =~= sign_part + Seq::new(k as nat, |i: int| 'e'),
                        decreases capped - k,
                    {
                        crate::utils::push_char(&mut r, 'e');
                        k = k + 1;
                    }
                    // the first level names a power of ten: print a unit
                    // mantissa at its whole magnitude
                    proof {
                        assert(self@->Omega_array == array@);
                        assert(dec_wf(self@->Omega_array[0]));
                    }
                    match &array[0] {
                        DecNum::Num { mant, exp } => {
                            let head = fixed_places(1, 0, places);
                            let mut out = r.concat(head.as_str());
                            crate::utils::push_char(&mut out, 'e');
                            let floor = Self::trunc_string(*mant, *exp);
                            let whole = out.concat(floor.as_str());
                            proof {
                                assert(whole@ =~= sign_part + Seq::new(
                                    Self::spec_tower_ecount(array@) as nat,
                                    |i: int| 'e',
                                ) + spec_fixed(1, 0, places as int) + seq!['e']
                                    + Self::spec_trunc(*mant as int, *exp as int));
                            }
                            whole
                        },
                        DecNum::Inf { neg } => {
                            if *neg {
                                let whole = r.concat("-inf");
                                proof {
                                    assert(whole@ =~= sign_part + Seq::new(
                                        Self::spec_tower_ecount(array@) as nat,
                                        |i: int| 'e',
                                    ) + "-inf"@);
                                }
                                whole
                            } else {
                                let whole = r.concat("inf");
                                proof {
                                    assert(whole@ =~= sign_part + Seq::new(
                                        Self::spec_tower_ecount(array@) as nat,
                                        |i: int| 'e',
                                    ) + "inf"@);
                                }
                                whole
                            }
                        },
                        DecNum::NaN => {
                            let whole = r.concat("NaN");
                            proof {
                                assert(whole@ =~= sign_part + Seq::new(
                                    Self::spec_tower_ecount(array@) as nat,
                                    |i: int| 'e',
                                ) + "NaN"@);
                            }
                            whole
                        },
                    }
                } else {
                    crate::utils::push_char(&mut r, 'e');
                    proof {
                        assert(self@->Omega_array == array@);
                        assert(dec_wf(self@->Omega_array[0]));
                    }
                    let head = match &array[0] {
                        DecNum::Num { mant, exp } => fixed_places(*mant, *exp, places),
                        DecNum::Inf { neg } => {
                            proof {
                                reveal_strlit("-inf");
                                reveal_strlit("inf");
                            }
                            if *neg {
                                String::from_str("-inf")
                            } else {
                                String::from_str("inf")
                            }
                        },
                        DecNum::NaN => {
                            proof {
                                reveal_strlit("NaN");
                            }
                            String::from_str("NaN")
                        },
                    };
                    proof {
                        assert(head@ == spec_score_m(array@[0], places as int));
                    }
                    let mut out = r.concat(head.as_str());
                    let ghost stem = out@;
                    let mut k: usize = 1;
                    while k < array.len()
                        invariant
                            1 <= k <= array@.len(),
                            tn_wf(self@),
                            self@ matches TnView::Omega { array: a2, sign: s2 } && a2
                                == array@,
                            out@ =~= stem + spec_tower_tail(array@, k as int),
                        decreases array@.len() - k,
                    {
                        crate::utils::push_char(&mut out, '#');
                        proof {
                            assert(self@->Omega_array == array@);
                            assert(dec_wf(self@->Omega_array[k as int]));
                        }
                        let piece = match &array[k] {
                            DecNum::Num { mant, exp } => Self::trunc_string(*mant, *exp),
                            DecNum::Inf { neg } => {
                                if *neg {
                                    String::from_str("-inf")
                                } else {
                                    String::from_str("inf")
                                }
                            },
                            DecNum::NaN => String::from_str("NaN"),
                        };
                        proof {
                            assert(piece@ == spec_level(array@[k as int]));
                        }
                        out = out.concat(piece.as_str());
                        proof {
                            assert(out@ =~= stem + spec_tower_tail(array@, k + 1));
                        }
                        k = k + 1;
                    }
                    proof {
                        assert(out@ =~= (if *sign < 0 {
                            seq!['-']
                        } else {
                            Seq::<char>::empty()
                        }) + seq!['e'] + spec_score_m(array@[0], places as int)
                            + spec_tower_tail(array@, array@.len() as int));
                    }
                    out
                }
            },
            TalismanNumber::NotationString(s) => s.clone(),
        }
    }

    /// Scientific form with a fixed number of places: `D.DDDeE`, the
    /// exponent whole.
    fn sci_places(mant: i128, exp: i64, places: usize) -> (r: String)
        requires
            -MANT_LIMIT < mant < MANT_LIMIT,
            -EXP_LIMIT <= exp <= EXP_LIMIT,
            places <= 30,
        ensures
            r@.len() >= 1,
            r@ == spec_sci(mant as int, exp as int, places as int),
    {
        if mant == 0 {
            let z = fixed_places(0, 0, places);
            let mut r = z;
            crate::utils::push_char(&mut r, 'e');
            crate::utils::push_char(&mut r, '0');
            proof {
                assert(r@ =~= spec_sci(mant as int, exp as int, places as int));
            }
            return r;
        }
        let neg = mant < 0;
        let mag: u128 = (if neg {
            -mant
        } else {
            mant
        }) as u128;
        let ghost ds = spec_digits(mag as int);
        let digits = digits_string(mag);
        let nd = digits.as_str().unicode_len();
        let mut r = String::new();
        if neg {
            crate::utils::push_char(&mut r, '-');
        }
        let ghost sign_part = r@;
        let first = digits.as_str().substring_char(0, 1);
        proof {
            assert(first@ =~= ds.take(1));
        }
        let mut out = r.concat(first);
        let ghost head = out@;
        if places > 0 {
            crate::utils::push_char(&mut out, '.');
            let mut j: usize = 1;
            while j <= places
                invariant
                    1 <= j <= places + 1,
                    places <= 30,
                    nd == digits@.len(),
                    digits@ == ds,
                    nd <= 39,
                    out@.len() >= 1,
                    out@ =~= head + seq!['.'] + sci_frac(ds, j - 1),
                decreases places + 1 - j,
            {
                if j < nd {
                    let piece = digits.as_str().substring_char(j, j + 1);
                    proof {
                        assert(piece@ =~= seq![ds[j as int]]);
                    }
                    out = out.concat(piece);
                } else {
                    crate::utils::push_char(&mut out, '0');
                }
                j = j + 1;
            }
        }
        let ghost body_part = out@;
        crate::utils::push_char(&mut out, 'e');
        // the whole magnitude: exponent plus digits minus one
        proof {
            assert(nd <= 39);
        }
        let mag10: i64 = exp + (nd as i64) - 1;
        let erend = Self::int_string(mag10);
        let out2 = out.concat(erend.as_str());
        proof {
            assert(out2@ =~= spec_sci(mant as int, exp as int, places as int));
        }
        out2
    }

    /// How many `e`s a short tower prints: its second level when that is a
    /// small whole number, eight when it is whole and larger, one otherwise.
    pub open spec fn spec_tower_ecount(array: Seq<DecNum>) -> int {
        if array.len() == 2 {
            match array[1] {
                DecNum::Num { mant, exp } => if exp == 0 && 0 <= mant <= 8 {
                    mant as int
                } else if exp >= 0 {
                    8int
                } else {
                    1int
                },
                _ => 8int,
            }
        } else {
            1int
        }
    }

    /// The truncated rendering of a finite decimal: zero is `0`; a width
    /// past twenty digits falls back to scientific form; otherwise the
    /// whole part toward zero, with a sign only when it is negative and
    /// nonzero.
    pub open spec fn spec_trunc(mant: int, exp: int) -> Seq<char> {
        if mant == 0 {
            seq!['0']
        } else if exp > 20 {
            spec_sci(mant, exp, 3)
        } else if exp >= 0 {
            (if mant < 0 {
                seq!['-']
            } else {
                Seq::<char>::empty()
            }) + spec_digits(abs_int(mant) * pow10(exp as nat))
        } else {
            let shift = if exp >= -38 {
                -exp
            } else {
                38int
            };
            let ip = abs_int(mant) / pow10(shift as nat);
            (if mant < 0 && ip > 0 {
                seq!['-']
            } else {
                Seq::<char>::empty()
            }) + spec_digits(ip)
        }
    }

    /// The whole part of a finite decimal, toward zero, as a string.
    fn trunc_string(mant: i128, exp: i64) -> (r: String)
        requires
            -MANT_LIMIT < mant < MANT_LIMIT,
            -EXP_LIMIT <= exp <= EXP_LIMIT,
        ensures
            r@.len() >= 1,
            r@ == Self::spec_trunc(mant as int, exp as int),
    {
        proof {
            crate::decnum::lemma_pow10_concrete();
        }
        let neg = mant < 0;
        let mag: u128 = (if neg {
            -mant
        } else {
            mant
        }) as u128;
        if mant == 0 {
            proof {
                reveal_strlit("0");
            }
            let z = String::from_str("0");
            proof {
                assert(z@ =~= seq!['0']);
            }
            return z;
        }
        if exp >= 0 {
            if exp > 20 {
                // too wide to print whole: fall back to scientific
                return Self::sci_places(mant, exp, 3);
            }
            let p = crate::decnum::pow10_u128(exp as u32);
            proof {
                vstd::arithmetic::power::lemma_pow_positive(10, exp as nat);
                assert(mag * (p as u128) < 100000000000000000000000000000000000000) by {
                    vstd::arithmetic::mul::lemma_mul_strict_inequality(
                        mag as int,
                        MANT_LIMIT as int,
                        p as int,
                    );
                    vstd::arithmetic::power::lemma_pow_adds(10, 18, exp as nat);
                    assert(pow10((18 + exp) as nat) <= pow10(38)) by {
                        if ((18 + exp) as nat) < 38 {
                            vstd::arithmetic::power::lemma_pow_strictly_increases(
                                10,
                                (18 + exp) as nat,
                                38,
                            );
                        }
                    }
                    assert(MANT_LIMIT * p == pow10((18 + exp) as nat)) by {
                        vstd::arithmetic::power::lemma_pow_adds(10, 18, exp as nat);
                    }
                }
            }
            let v = mag * p;
            let d = digits_string(v);
            proof {
                assert(v as int == abs_int(mant as int) * pow10(exp as nat));
            }
            if neg {
                let mut r = String::new();
                crate::utils::push_char(&mut r, '-');
                let out = r.concat(d.as_str());
                proof {
                    assert(out@ =~= seq!['-'] + spec_digits(v as int));
                }
                out
            } else {
                d
            }
        } else {
            let shift: u32 = if exp >= -38 {
                (-exp) as u32
            } else {
                38
            };
            let p = crate::decnum::pow10_u128(shift);
            proof {
                vstd::arithmetic::power::lemma_pow_positive(10, shift as nat);
            }
            let ip = mag / p;
            let d = digits_string(ip);
            proof {
                assert(ip as int == abs_int(mant as int) / pow10(shift as nat));
            }
            if neg && ip > 0 {
                let mut r = String::new();
                crate::utils::push_char(&mut r, '-');
                let out = r.concat(d.as_str());
                proof {
                    assert(out@ =~= seq!['-'] + spec_digits(ip as int));
                }
                out
            } else {
                d
            }
        }
    }

    /// A signed whole number as a string.
    fn int_string(v: i64) -> (r: String)
        ensures
            r@.len() >= 1,
            v >= 0 ==> r@ == spec_digits(v as int),
            v < 0 ==> r@ == seq!['-'] + spec_digits(-v as int),
    {
        if v >= 0 {
            digits_string(v as u128)
        } else if v == i64::MIN {
            let mut r = String::new();
            crate::utils::push_char(&mut r, '-');
            r.concat(digits_string(9223372036854775808u128).as_str())
        } else {
            let mut r = String::new();
            crate::utils::push_char(&mut r, '-');
            r.concat(digits_string((-v) as u128).as_str())
        }
    }

    /// An exponent for display: whole when below a million in magnitude,
    /// scientific above.
    pub fn format_exponent(e: &DecNum) -> (r: String)
        requires
            dec_wf(*e),
        ensures
            r@.len() >= 1,
            r@ == spec_fmt_exp(*e),
    {
        match e {
            DecNum::Num { mant, exp } => {
                let big = matches!(cmp_parts(1000000, 0, *mant, *exp), Ord3::Less) || matches!(
                    cmp_parts(*mant, *exp, -1000000, 0),
                    Ord3::Less,
                );
                if big {
                    Self::sci_places(*mant, *exp, 3)
                } else {
                    Self::trunc_string(*mant, *exp)
                }
            },
            DecNum::Inf { neg } => {
                proof {
                    reveal_strlit("-inf");
                    reveal_strlit("inf");
                }
                if *neg {
                    String::from_str("-inf")
                } else {
                    String::from_str("inf")
                }
            },
            DecNum::NaN => {
                proof {
                    reveal_strlit("NaN");
                }
                String::from_str("NaN")
            },
        }
    }
}

/// A small nonnegative ordinary value times its power fits the digit
/// printer.
proof fn lemma_small_regular(mant: i128, exp: i64)
    requires
        -MANT_LIMIT < mant < MANT_LIMIT,
        0 <= exp <= EXP_LIMIT,
        mant == 0 ==> exp == 0,
        crate::decnum::val_lt(mant as int, exp as int, 1000000, 0),
        crate::decnum::val_lt(-1000000, 0, mant as int, exp as int),
    ensures
        exp <= 6,
        abs_int(mant as int) * pow10(exp as nat) < 1000000,
{
    crate::decnum::lemma_pow10_concrete();
    vstd::arithmetic::power::lemma_pow_positive(10, exp as nat);
    let p = pow10(exp as nat);
    if exp == 0 {
        assert(mant * p == mant && (-1000000) * p == -1000000) by {
            vstd::arithmetic::mul::lemma_mul_basics(mant as int);
            vstd::arithmetic::mul::lemma_mul_basics(-1000000int);
        }
        assert(abs_int(mant as int) * p == abs_int(mant as int)) by {
            vstd::arithmetic::mul::lemma_mul_basics(abs_int(mant as int));
        }
    } else {
        // from the two bounds: mant * p < 10^6 and -10^6 < mant * p
        assert(mant * p < 1000000);
        assert((-1000000) < mant * p) by {
            vstd::arithmetic::mul::lemma_mul_basics(-1000000int);
        }
        if mant < 0 {
            assert(abs_int(mant as int) * p == -(mant * p)) by {
                vstd::arithmetic::mul::lemma_mul_unary_negation(mant as int, p);
            }
        } else {
            assert(abs_int(mant as int) * p == mant * p);
        }
        if exp > 6 {
            assert(pow10(7) <= p) by {
                if 7 < exp {
                    vstd::arithmetic::power::lemma_pow_strictly_increases(10, 7, exp as nat);
                }
            }
            assert(pow10(7) == 10000000) by {
                reveal_with_fuel(pow, 9);
            }
            assert(mant != 0);
            assert(abs_int(mant as int) * p >= p) by {
                vstd::arithmetic::mul::lemma_mul_inequality(1, abs_int(mant as int), p);
                vstd::arithmetic::mul::lemma_mul_basics(p);
                vstd::arithmetic::mul::lemma_mul_is_commutative(abs_int(mant as int), p);
            }
        }
    }
}

/// Score equivalence chains with the order.
pub proof fn lemma_score_eqv_lt_trans(a: TnView, b: TnView, c: TnView)
    requires
        score_eqv(a, b),
        score_lt(b, c),
    ensures
        score_lt(a, c),
{
    if spec_is_negative(b) == spec_is_negative(c) {
        lemma_key_eqv_lt_trans(spec_mag_key(a), spec_mag_key(b), spec_mag_key(c));
    }
}

} // verus!
