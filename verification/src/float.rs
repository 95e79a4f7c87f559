//! Floating-point values, carried as their IEEE-754 binary64 bit patterns.
//!
//! What integer arithmetic on the patterns can decide is computed and proved
//! here: whether a pattern holds a whole number, and which; the float
//! nearest to an integer; the product of two floats and the quotient of
//! two integers, rounded to nearest with ties to even; the float a short
//! decimal text denotes; rounding to decimal places; the text of the floats
//! whose shortest decimal is their exact one. What is left (long decimal
//! texts, the text of other floats, the rare roundings beyond 2^64) goes
//! through an implementation of [`FloatArith`] that the caller supplies.
use vstd::prelude::*;
use crate::date::padded;
use crate::text::{
    ascii_lower, decimal_i64, i64_text, int_text, is_ascii_digit, nat_text, parse_i64, same_text, to_ascii_lowercase,
    unsigned_part,
};

verus! {

/// The binary64 operations that float-valued cells need. Each value is the
/// bit pattern of an `f64`. No contract is placed on these methods: whatever
/// an implementation returns, the library's own contracts still hold.
pub trait FloatArith {
    /// Parse decimal text as an `f64`, as `str::parse::<f64>` does. The
    /// library reads most short decimals itself ([`read_float`]); this
    /// method reads the others.
    fn parse_float(&self, text: &str) -> Option<u64>;

    /// The `Display` text of an `f64`. The library writes most floats
    /// itself ([`float_display`]); this method writes the others.
    fn float_text(&self, bits: u64) -> String;

    /// The `f64` nearest to an integer (`i as f64`). The library computes
    /// this itself ([`float_of_int`]); the method lets a caller hold an
    /// implementation against it.
    fn int_to_float(&self, i: i64) -> u64;

    /// The product `a * b`. The library computes this itself
    /// ([`product`]); the method lets a caller hold an implementation
    /// against it.
    fn mul(&self, a: u64, b: u64) -> u64;

    /// `x` rounded half away from zero to `decimals` decimal places, as
    /// `(x * 10^d).round() / 10^d`. The library computes this itself where
    /// `10^d` is a float exactly and the rounded product stays below 2^64
    /// ([`rounded`]); elsewhere it calls this method.
    fn round_to(&self, bits: u64, decimals: u32) -> u64;
}

/// The weight of the lowest exponent bit of a binary64 pattern, 2^52.
pub open spec fn exponent_unit() -> int {
    0x10_0000_0000_0000
}

/// An integer brought into `i64` the way `x as i64` brings a float: values
/// beyond either end become that end.
pub open spec fn clamp_i64(v: int) -> i64 {
    if v > i64::MAX {
        i64::MAX
    } else if v < i64::MIN {
        i64::MIN
    } else {
        v as i64
    }
}

/// The magnitude of a binary64 pattern when it is a finite whole number.
/// The biased exponent is the eleven bits above the 52 fraction bits; all
/// ones is an infinity or a NaN, zero is zero or a subnormal (never whole
/// unless zero); otherwise the value is `(2^52 + fraction) * 2^(exponent -
/// 1075)`.
pub open spec fn whole_magnitude(bits: u64) -> Option<int> {
    let exp = (bits / 0x10_0000_0000_0000) % 0x800;
    let frac = bits % 0x10_0000_0000_0000;
    if exp == 0x7ff {
        None
    } else if exp == 0 {
        if frac == 0 {
            Some(0)
        } else {
            None
        }
    } else {
        let m = frac + exponent_unit();
        if exp >= 1075 {
            Some(m * vstd::arithmetic::power2::pow2((exp - 1075) as nat))
        } else if m % (vstd::arithmetic::power2::pow2((1075 - exp) as nat) as int) == 0 {
            Some(m / (vstd::arithmetic::power2::pow2((1075 - exp) as nat) as int))
        } else {
            None
        }
    }
}

/// The integer a binary64 pattern holds when it is a finite whole number
/// (what `x.fract() == 0.0` tests), as `x as i64` gives it; `None` for a
/// fraction, an infinity or a NaN.
pub open spec fn whole_value(bits: u64) -> Option<i64> {
    match whole_magnitude(bits) {
        Some(a) => Some(
            clamp_i64(
                if bits >= 0x8000_0000_0000_0000 {
                    -a
                } else {
                    a
                },
            ),
        ),
        None => None,
    }
}

/// The integer a binary64 pattern holds, when it is a finite whole number,
/// clamped to `i64`.
pub fn whole_value_of(bits: u64) -> (r: Option<i64>)
    ensures
        r == whole_value(bits),
{
    let neg = bits >= 0x8000_0000_0000_0000u64;
    let exp = (bits / 0x10_0000_0000_0000u64) % 0x800u64;
    let frac = bits % 0x10_0000_0000_0000u64;
    if exp == 0x7ff {
        return None;
    }
    if exp == 0 {
        return if frac == 0 {
            Some(0)
        } else {
            None
        };
    }
    let m = frac + 0x10_0000_0000_0000u64;
    proof {
        vstd::arithmetic::power2::lemma2_to64();
        vstd::arithmetic::power2::lemma2_to64_rest();
    }
    if exp >= 1075 {
        let sh = exp - 1075;
        if sh >= 11 {
            proof {
                if sh > 11 {
                    vstd::arithmetic::power2::lemma_pow2_strictly_increases(11, sh as nat);
                }
                let p2 = vstd::arithmetic::power2::pow2(sh as nat);
                assert(m * p2 >= 0x10_0000_0000_0000 * 2048) by (nonlinear_arith)
                    requires
                        m >= 0x10_0000_0000_0000,
                        p2 >= 2048,
                ;
            }
            return Some(
                if neg {
                    i64::MIN
                } else {
                    i64::MAX
                },
            );
        }
        let mut p: u64 = m;
        let mut k: u64 = 0;
        while k < sh
            invariant
                k <= sh <= 10,
                m < 0x20_0000_0000_0000,
                p as int == m * vstd::arithmetic::power2::pow2(k as nat),
            decreases sh - k,
        {
            proof {
                vstd::arithmetic::power2::lemma_pow2_adds(k as nat, (9 - k) as nat);
                vstd::arithmetic::power2::lemma_pow2_pos((9 - k) as nat);
                vstd::arithmetic::power2::lemma2_to64();
                vstd::arithmetic::power2::lemma_pow2_unfold((k + 1) as nat);
                let p2 = vstd::arithmetic::power2::pow2(k as nat);
                assert(p2 <= 512) by (nonlinear_arith)
                    requires
                        p2 * vstd::arithmetic::power2::pow2((9 - k) as nat) == 512,
                        vstd::arithmetic::power2::pow2((9 - k) as nat) > 0,
                ;
                assert(m * p2 <= 0x20_0000_0000_0000 * 512) by (nonlinear_arith)
                    requires
                        p2 <= 512,
                        m < 0x20_0000_0000_0000,
                ;
                assert(m * (2 * p2) == 2 * (m * p2)) by (nonlinear_arith);
            }
            p = p * 2;
            k = k + 1;
        }
        proof {
            vstd::arithmetic::power2::lemma_pow2_adds(sh as nat, (10 - sh) as nat);
            vstd::arithmetic::power2::lemma_pow2_pos((10 - sh) as nat);
            let p2 = vstd::arithmetic::power2::pow2(sh as nat);
            assert(p2 <= 1024) by (nonlinear_arith)
                requires
                    p2 * vstd::arithmetic::power2::pow2((10 - sh) as nat) == 1024,
                    vstd::arithmetic::power2::pow2((10 - sh) as nat) > 0,
            ;
            assert(m * p2 < 0x20_0000_0000_0000 * 1024) by (nonlinear_arith)
                requires
                    p2 <= 1024,
                    m < 0x20_0000_0000_0000,
                    p2 > 0,
            ;
        }
        let q = p as i64;
        return Some(
            if neg {
                -q
            } else {
                q
            },
        );
    }
    let sh = 1075 - exp;
    if sh >= 64 {
        proof {
            if sh > 64 {
                vstd::arithmetic::power2::lemma_pow2_strictly_increases(64, sh as nat);
            }
            vstd::arithmetic::div_mod::lemma_small_mod(m as nat, vstd::arithmetic::power2::pow2(sh as nat));
        }
        return None;
    }
    let mut d: u64 = 1;
    let mut k: u64 = 0;
    while k < sh
        invariant
            k <= sh < 64,
            d as int == vstd::arithmetic::power2::pow2(k as nat),
        decreases sh - k,
    {
        proof {
            vstd::arithmetic::power2::lemma_pow2_adds(k as nat, (62 - k) as nat);
            vstd::arithmetic::power2::lemma_pow2_pos((62 - k) as nat);
            vstd::arithmetic::power2::lemma2_to64_rest();
            vstd::arithmetic::power2::lemma_pow2_unfold((k + 1) as nat);
            let p2 = vstd::arithmetic::power2::pow2(k as nat);
            assert(p2 <= 0x4000_0000_0000_0000) by (nonlinear_arith)
                requires
                    p2 * vstd::arithmetic::power2::pow2((62 - k) as nat) == 0x4000_0000_0000_0000,
                    vstd::arithmetic::power2::pow2((62 - k) as nat) > 0,
            ;
        }
        d = d * 2;
        k = k + 1;
    }
    if m % d == 0 {
        let q = (m / d) as i64;
        Some(
            if neg {
                -q
            } else {
                q
            },
        )
    } else {
        None
    }
}

/// The sign bit of a binary64 pattern is set.
pub open spec fn is_negative(bits: u64) -> bool {
    bits >= 0x8000_0000_0000_0000
}

/// The pattern without its sign bit: the magnitude.
pub open spec fn magnitude(bits: u64) -> int {
    (bits % 0x8000_0000_0000_0000) as int
}

/// A magnitude given the sign `neg`.
fn with_sign(mag: u64, neg: bool) -> (r: u64)
    ensures
        is_negative(r) == neg,
        magnitude(r) == magnitude(mag),
{
    let m = mag % 0x8000_0000_0000_0000u64;
    if neg {
        m + 0x8000_0000_0000_0000u64
    } else {
        m
    }
}

/// Whether the sign bit of a pattern is set.
pub fn negative(bits: u64) -> (r: bool)
    ensures
        r == is_negative(bits),
{
    bits >= 0x8000_0000_0000_0000u64
}

/// The pattern `with_sign` gives holds the magnitude's whole number with
/// the given sign.
proof fn lemma_signed_whole(e: u64, r: u64, q: int)
    requires
        e < 0x8000_0000_0000_0000,
        whole_magnitude(e) == Some(q),
        magnitude(r) == magnitude(e),
    ensures
        whole_magnitude(r) == Some(q),
{
    assert(r % 0x10_0000_0000_0000 == e % 0x10_0000_0000_0000);
    assert((r / 0x10_0000_0000_0000) % 0x800 == (e / 0x10_0000_0000_0000) % 0x800);
}

/// The exponent field of a binary64 pattern.
pub open spec fn exp_field(bits: u64) -> int {
    ((bits / 0x10_0000_0000_0000) % 0x800) as int
}

/// The fraction field of a binary64 pattern.
pub open spec fn frac_field(bits: u64) -> int {
    (bits % 0x10_0000_0000_0000) as int
}

/// An infinity of either sign.
pub open spec fn is_infinite(bits: u64) -> bool {
    exp_field(bits) == 0x7ff && frac_field(bits) == 0
}

/// The magnitude of a finite pattern as `m * 2^e`: a normal number has the
/// implicit leading bit, a subnormal (or zero) has not and the least
/// exponent, -1074.
pub open spec fn finite_parts(bits: u64) -> Option<(nat, int)> {
    if exp_field(bits) == 0x7ff {
        None
    } else if exp_field(bits) == 0 {
        Some((frac_field(bits) as nat, -1074))
    } else {
        Some(((frac_field(bits) + exponent_unit()) as nat, exp_field(bits) - 1075))
    }
}

/// The number of binary digits of `p`.
pub open spec fn bit_len(p: nat) -> nat
    decreases p,
{
    if p == 0 {
        0
    } else {
        1 + bit_len(p / 2)
    }
}

/// `p / d` rounded to the nearest integer, ties to the even one.
pub open spec fn round_quotient(p: int, d: int) -> int {
    let q = p / d;
    let r = p % d;
    if 2 * r > d || (2 * r == d && q % 2 == 1) {
        q + 1
    } else {
        q
    }
}

/// The exponent of the last place binary64 keeps of `p * 2^e` (`p > 0`):
/// 53 significant bits, and never a place below 2^-1074.
pub open spec fn last_place(p: nat, e: int) -> int {
    let t = e + bit_len(p) - 53;
    if t < -1074 {
        -1074
    } else {
        t
    }
}

/// `p * 2^e` rounded to binary64 precision, to nearest with ties to even,
/// as a significand below 2^53 and an exponent; zero is `(0, -1074)`.
pub open spec fn round_parts(p: nat, e: int) -> (nat, int) {
    if p == 0 {
        (0, -1074)
    } else {
        let q = last_place(p, e);
        let sig: int = if q <= e {
            (p * vstd::arithmetic::power2::pow2((e - q) as nat)) as int
        } else {
            round_quotient(p as int, vstd::arithmetic::power2::pow2((q - e) as nat) as int)
        };
        if sig == 2 * exponent_unit() {
            (exponent_unit() as nat, q + 1)
        } else {
            (sig as nat, q)
        }
    }
}

/// `r` is the binary64 product of `a` and `b`: the sign is the exclusive
/// or of the signs; two finite factors give their exact product rounded to
/// nearest, ties to even, or an infinity where that is beyond the largest
/// finite float; an infinity times zero, or a NaN, gives a NaN; an infinity
/// times anything else gives an infinity.
pub open spec fn product_fits(a: u64, b: u64, r: u64) -> bool {
    &&& is_negative(r) == (is_negative(a) != is_negative(b))
    &&& match (finite_parts(a), finite_parts(b)) {
        (Some((m1, e1)), Some((m2, e2))) => {
            let (sig, q) = round_parts(m1 * m2, e1 + e2);
            if q > 971 {
                is_infinite(r)
            } else {
                finite_parts(r) == Some((sig, q))
            }
        },
        (Some((m, _)), None) => if is_nan(b) || m == 0 {
            is_nan(r)
        } else {
            is_infinite(r)
        },
        (None, Some((m, _))) => if is_nan(a) || m == 0 {
            is_nan(r)
        } else {
            is_infinite(r)
        },
        (None, None) => if is_nan(a) || is_nan(b) {
            is_nan(r)
        } else {
            is_infinite(r)
        },
    }
}

/// Rounding `p * 2^e` to binary64 is exact when no binary place below the
/// last one kept is needed, and is otherwise off by at most half a unit in
/// that last place: `|sig * 2^q - p * 2^e| <= 2^last / 2`.
pub proof fn law_round_parts_is_close(p: nat, e: int)
    requires
        p > 0,
    ensures
        last_place(p, e) <= e ==> round_parts(p, e).0 * vstd::arithmetic::power2::pow2(
            (round_parts(p, e).1 - last_place(p, e)) as nat,
        ) == p * vstd::arithmetic::power2::pow2((e - last_place(p, e)) as nat),
        last_place(p, e) > e ==> {
            let d = vstd::arithmetic::power2::pow2((last_place(p, e) - e) as nat) as int;
            let v = round_parts(p, e).0 * vstd::arithmetic::power2::pow2((round_parts(p, e).1 - e) as nat);
            -d <= 2 * (v - p) <= d
        },
{
    let l = last_place(p, e);
    let (sig, q) = round_parts(p, e);
    vstd::arithmetic::power2::lemma2_to64();
    vstd::arithmetic::power2::lemma2_to64_rest();
    if l <= e {
        let k = vstd::arithmetic::power2::pow2((e - l) as nat);
        let sig0 = p * k;
        if sig0 == 2 * exponent_unit() {
            assert(q == l + 1 && sig == exponent_unit());
            assert((q - l) as nat == 1nat);
            assert(sig * vstd::arithmetic::power2::pow2((q - l) as nat) == sig0);
        } else {
            assert(q == l && sig == sig0);
            assert((q - l) as nat == 0nat);
            let p0 = vstd::arithmetic::power2::pow2((q - l) as nat);
            assert(sig * p0 == sig0) by (nonlinear_arith)
                requires
                    p0 == 1,
                    sig == sig0,
            ;
        }
    } else {
        let d = vstd::arithmetic::power2::pow2((l - e) as nat) as int;
        vstd::arithmetic::power2::lemma_pow2_pos((l - e) as nat);
        vstd::arithmetic::div_mod::lemma_fundamental_div_mod(p as int, d);
        let quo = p as int / d;
        let rem = p as int % d;
        let sig0 = round_quotient(p as int, d);
        assert(-d <= 2 * (sig0 * d - p) <= d) by (nonlinear_arith)
            requires
                p == d * quo + rem,
                0 <= rem < d,
                sig0 == (if 2 * rem > d || (2 * rem == d && quo % 2 == 1) {
                    quo + 1
                } else {
                    quo
                }),
        ;
        if sig0 == 2 * exponent_unit() {
            assert(q == l + 1);
            vstd::arithmetic::power2::lemma_pow2_unfold((q - e) as nat);
            assert((q - e - 1) as nat == (l - e) as nat);
            let pq = vstd::arithmetic::power2::pow2((q - e) as nat);
            assert(sig * pq == sig0 * d) by (nonlinear_arith)
                requires
                    pq == 2 * d,
                    sig0 == 2 * sig,
            ;
        } else {
            assert(q == l);
            assert(sig == sig0);
        }
    }
}

/// Doubling a positive number adds one binary digit; `k` doublings add `k`.
proof fn lemma_bit_len_shift(m: nat, k: nat)
    requires
        m > 0,
    ensures
        bit_len(m * vstd::arithmetic::power2::pow2(k)) == bit_len(m) + k,
    decreases k,
{
    vstd::arithmetic::power2::lemma2_to64();
    if k > 0 {
        lemma_bit_len_shift(m, (k - 1) as nat);
        vstd::arithmetic::power2::lemma_pow2_unfold(k);
        vstd::arithmetic::power2::lemma_pow2_pos((k - 1) as nat);
        let x = m * vstd::arithmetic::power2::pow2((k - 1) as nat);
        assert(m * vstd::arithmetic::power2::pow2(k) == 2 * x) by (nonlinear_arith)
            requires
                x == m * vstd::arithmetic::power2::pow2((k - 1) as nat),
                vstd::arithmetic::power2::pow2(k) == 2 * vstd::arithmetic::power2::pow2((k - 1) as nat),
        ;
        assert(x > 0) by (nonlinear_arith)
            requires
                x == m * vstd::arithmetic::power2::pow2((k - 1) as nat),
                m > 0,
                vstd::arithmetic::power2::pow2((k - 1) as nat) > 0,
        ;
        assert((2 * x) / 2 == x);
    } else {
        assert(m * 1 == m);
    }
}

/// A value binary64 holds exactly, written with 52 extra binary places,
/// rounds back to itself.
proof fn lemma_round_exact(m: nat, e: int)
    requires
        0 < m < 2 * exponent_unit(),
        m >= exponent_unit() || e == -1074,
        -1074 <= e,
    ensures
        round_parts(m * exponent_unit() as nat, e - 52) == (m, e),
{
    vstd::arithmetic::power2::lemma2_to64();
    vstd::arithmetic::power2::lemma2_to64_rest();
    lemma_bit_len(m);
    lemma_bit_len_shift(m, 52);
    let n = bit_len(m);
    if n > 53 {
        if n > 54 {
            vstd::arithmetic::power2::lemma_pow2_strictly_increases(53, (n - 1) as nat);
        }
        assert(false);
    }
    if m >= exponent_unit() && n < 53 {
        if n < 52 {
            vstd::arithmetic::power2::lemma_pow2_strictly_increases(n, 52);
        }
        assert(false);
    }
    let p = m * exponent_unit() as nat;
    assert(last_place(p, e - 52) == e);
    assert((e - (e - 52)) as nat == 52nat);
    vstd::arithmetic::div_mod::lemma_fundamental_div_mod_converse(p as int, exponent_unit(), m as int, 0);
    assert(round_quotient(p as int, exponent_unit()) == m);
}

/// A pattern's magnitude is its exponent and fraction fields put together.
pub(crate) proof fn lemma_magnitude_fields(x: u64)
    ensures
        magnitude(x) == exp_field(x) * 0x10_0000_0000_0000 + frac_field(x),
{
    let y = x % 0x8000_0000_0000_0000;
    vstd::arithmetic::div_mod::lemma_fundamental_div_mod(y as int, 0x10_0000_0000_0000);
    assert(y / 0x10_0000_0000_0000 == (x / 0x10_0000_0000_0000) % 0x800);
    assert(y % 0x10_0000_0000_0000 == x % 0x10_0000_0000_0000);
}

/// Multiplying a float that is not a NaN by one or minus one keeps its
/// magnitude; the sign is the exclusive or of the two signs.
pub proof fn law_product_with_one(f: u64, by: u64, r: u64)
    requires
        product_fits(f, by, r),
        by == 0x3ff0_0000_0000_0000 || by == 0xbff0_0000_0000_0000,
        !is_nan(f),
    ensures
        magnitude(r) == magnitude(f),
        is_negative(r) == (is_negative(f) != is_negative(by)),
{
    assert(finite_parts(by) == Some((exponent_unit() as nat, -52int)));
    lemma_magnitude_fields(r);
    lemma_magnitude_fields(f);
    if let Some((m, e)) = finite_parts(f) {
        if m > 0 {
            lemma_round_exact(m, e);
        }
        assert(finite_parts(r) == finite_parts(f));
    }
}

/// Binary64 multiplication commutes: swapping the factors gives the same
/// float (a NaN result aside, whose payload is not pinned).
pub proof fn law_product_commutes(a: u64, b: u64, r1: u64, r2: u64)
    requires
        product_fits(a, b, r1),
        product_fits(b, a, r2),
        !is_nan(r1),
    ensures
        r1 == r2,
{
    lemma_magnitude_fields(r1);
    lemma_magnitude_fields(r2);
    if let (Some((m1, e1)), Some((m2, e2))) = (finite_parts(a), finite_parts(b)) {
        assert(m1 * m2 == m2 * m1) by (nonlinear_arith);
        assert(e1 + e2 == e2 + e1);
    }
    if finite_parts(r1) is Some {
        lemma_same_float(r1, r2);
    }
}

/// `b` is the binary64 product of the integer `i`, first made the float
/// nearest to it, and `by`.
pub open spec fn int_product_fits(i: i64, by: u64, b: u64) -> bool {
    exists|c: u64| int_float_fits(i, c) && #[trigger] product_fits(c, by, b)
}

/// Two patterns with the same magnitude have the same fields.
#[verifier::spinoff_prover]
proof fn lemma_fields_of_magnitude(e: u64, r: u64)
    requires
        magnitude(r) == magnitude(e),
    ensures
        exp_field(r) == exp_field(e),
        frac_field(r) == frac_field(e),
{
    assert(r % 0x10_0000_0000_0000 == e % 0x10_0000_0000_0000);
    assert((r / 0x10_0000_0000_0000) % 0x800 == (e / 0x10_0000_0000_0000) % 0x800);
}

/// A pattern with exponent field `x` (neither zero nor all ones) and
/// fraction `f` holds `(2^52 + f) * 2^(x - 1075)`.
proof fn lemma_normal_parts(x: int, f: int)
    requires
        1 <= x < 0x7ff,
        0 <= f < 0x10_0000_0000_0000,
    ensures
        x * 0x10_0000_0000_0000 + f < 0x8000_0000_0000_0000,
        finite_parts((x * 0x10_0000_0000_0000 + f) as u64) == Some(((f + exponent_unit()) as nat, x - 1075)),
{
    let bits = x * 0x10_0000_0000_0000 + f;
    vstd::arithmetic::div_mod::lemma_fundamental_div_mod_converse(bits, 0x10_0000_0000_0000, x, f);
    vstd::arithmetic::div_mod::lemma_small_mod(x as nat, 0x800);
    assert(exp_field(bits as u64) == x);
    assert(frac_field(bits as u64) == f);
}

/// A positive number lies between the powers of two its length gives.
proof fn lemma_bit_len(p: nat)
    requires
        p > 0,
    ensures
        bit_len(p) >= 1,
        vstd::arithmetic::power2::pow2((bit_len(p) - 1) as nat) <= p < vstd::arithmetic::power2::pow2(bit_len(p)),
    decreases p,
{
    vstd::arithmetic::power2::lemma2_to64();
    assert(bit_len(0) == 0);
    if p > 1 {
        let h = p / 2;
        lemma_bit_len(h);
        let n = bit_len(h);
        vstd::arithmetic::power2::lemma_pow2_unfold(n);
        vstd::arithmetic::power2::lemma_pow2_unfold((n + 1) as nat);
        assert(bit_len(p) == n + 1);
        assert(p == 2 * h + p % 2);
    } else {
        assert(bit_len(1) == 1);
    }
}

/// `2^k` for `k < 128`.
fn pow2_u128(k: u64) -> (r: u128)
    requires
        k < 128,
    ensures
        r as int == vstd::arithmetic::power2::pow2(k as nat),
{
    let mut r: u128 = 1;
    let mut i: u64 = 0;
    proof {
        vstd::arithmetic::power2::lemma2_to64();
        vstd::arithmetic::power2::lemma2_to64_rest();
        vstd::arithmetic::power2::lemma_pow2_adds(64, 63);
    }
    while i < k
        invariant
            i <= k < 128,
            r as int == vstd::arithmetic::power2::pow2(i as nat),
            vstd::arithmetic::power2::pow2(127) == 0x8000_0000_0000_0000_0000_0000_0000_0000,
        decreases k - i,
    {
        proof {
            vstd::arithmetic::power2::lemma_pow2_unfold((i + 1) as nat);
            if i + 1 < 127 {
                vstd::arithmetic::power2::lemma_pow2_strictly_increases((i + 1) as nat, 127);
            }
        }
        r = r * 2;
        i = i + 1;
    }
    r
}

/// The number of binary digits of `p`, for `0 < p < 2^106`.
fn bit_length(p: u128) -> (n: u64)
    requires
        0 < p < 0x400_0000_0000_0000_0000_0000_0000,
    ensures
        n == bit_len(p as nat),
        1 <= n <= 106,
{
    proof {
        lemma_bit_len(p as nat);
        vstd::arithmetic::power2::lemma2_to64();
        vstd::arithmetic::power2::lemma2_to64_rest();
        vstd::arithmetic::power2::lemma_pow2_adds(53, 53);
        assert(vstd::arithmetic::power2::pow2(106) == 0x400_0000_0000_0000_0000_0000_0000);
        if bit_len(p as nat) > 106 {
            if bit_len(p as nat) > 107 {
                vstd::arithmetic::power2::lemma_pow2_strictly_increases(106, (bit_len(p as nat) - 1) as nat);
            }
            assert(false);
        }
    }
    let mut x: u128 = p;
    let mut n: u64 = 0;
    while x > 0
        invariant
            n + bit_len(x as nat) == bit_len(p as nat),
            bit_len(p as nat) <= 106,
        decreases x,
    {
        x = x / 2;
        n = n + 1;
    }
    assert(bit_len(x as nat) == 0);
    n
}

/// `p * 2^e` (`0 < p < 2^106`) rounded to binary64 precision, to nearest
/// with ties to even, as significand and exponent: a significand under 2^52
/// only at the least exponent.
fn round_binary64(p: u128, e: i64) -> (res: (u64, i64))
    requires
        0 < p < 0x400_0000_0000_0000_0000_0000_0000,
        -2148 <= e <= 1942,
    ensures
        round_parts(p as nat, e as int) == (res.0 as nat, res.1 as int),
        res.0 < 0x20_0000_0000_0000,
        res.1 >= -1074,
        res.0 < 0x10_0000_0000_0000 ==> res.1 == -1074,
{
    let n = bit_length(p);
    proof {
        lemma_bit_len(p as nat);
    }
    let t: i64 = e + n as i64 - 53;
    let q: i64 = if t < -1074 {
        -1074
    } else {
        t
    };
    assert(q == last_place(p as nat, e as int));
    let mut sig: u64;
    if q <= e {
        let sh = (e - q) as u64;
        let d = pow2_u128(sh);
        proof {
            vstd::arithmetic::power2::lemma_pow2_adds(n as nat, sh as nat);
            if n + sh < 53 {
                vstd::arithmetic::power2::lemma_pow2_strictly_increases((n + sh) as nat, 53);
            }
            vstd::arithmetic::power2::lemma2_to64();
            vstd::arithmetic::power2::lemma2_to64_rest();
            let pn = vstd::arithmetic::power2::pow2(n as nat);
            assert((p as int) * (d as int) < 0x20_0000_0000_0000) by (nonlinear_arith)
                requires
                    p < pn,
                    d >= 1,
                    pn * d <= 0x20_0000_0000_0000,
            ;
        }
        sig = (p * d) as u64;
        proof {
            if q > -1074 {
                vstd::arithmetic::power2::lemma_pow2_adds((n - 1) as nat, sh as nat);
                let pl = vstd::arithmetic::power2::pow2((n - 1) as nat);
                assert((p as int) * (d as int) >= 0x10_0000_0000_0000) by (nonlinear_arith)
                    requires
                        p >= pl,
                        pl * d == 0x10_0000_0000_0000,
                        d >= 1,
                ;
            }
        }
    } else {
        let k = (q - e) as u64;
        sig = round_shift(p, k, n);
    }
    let mut qq: i64 = q;
    if sig == 0x20_0000_0000_0000 {
        sig = 0x10_0000_0000_0000;
        qq = q + 1;
    }
    (sig, qq)
}

/// `p / 2^k` rounded to nearest, ties to even, where `p` has `n` binary
/// digits and `k >= n - 53`: at most 2^53, and at least 2^52 when
/// `k == n - 53`.
fn round_shift(p: u128, k: u64, n: u64) -> (sig: u64)
    requires
        0 < p < 0x400_0000_0000_0000_0000_0000_0000,
        n == bit_len(p as nat),
        1 <= n <= 106,
        k >= 1,
        k + 53 >= n,
    ensures
        sig as int == round_quotient(p as int, vstd::arithmetic::power2::pow2(k as nat) as int),
        sig <= 0x20_0000_0000_0000,
        k + 53 == n ==> sig >= 0x10_0000_0000_0000,
{
    proof {
        lemma_bit_len(p as nat);
        vstd::arithmetic::power2::lemma2_to64();
        vstd::arithmetic::power2::lemma2_to64_rest();
    }
    if k >= 107 {
        proof {
            vstd::arithmetic::power2::lemma_pow2_adds(53, 53);
            vstd::arithmetic::power2::lemma_pow2_adds(1, 106);
            if k > 107 {
                vstd::arithmetic::power2::lemma_pow2_strictly_increases(107, k as nat);
            }
            if n < 106 {
                vstd::arithmetic::power2::lemma_pow2_strictly_increases(n as nat, 106);
            }
            let dk = vstd::arithmetic::power2::pow2(k as nat) as int;
            vstd::arithmetic::div_mod::lemma_small_mod(p as nat, dk as nat);
            vstd::arithmetic::div_mod::lemma_basic_div(p as int, dk);
            assert(round_quotient(p as int, dk) == 0);
        }
        return 0;
    }
    let d = pow2_u128(k);
    proof {
        vstd::arithmetic::power2::lemma_pow2_pos(k as nat);
    }
    let quo = p / d;
    let rem = p % d;
    proof {
        vstd::arithmetic::div_mod::lemma_fundamental_div_mod(p as int, d as int);
        vstd::arithmetic::power2::lemma_pow2_adds(53, k as nat);
        if n < 53 + k {
            vstd::arithmetic::power2::lemma_pow2_strictly_increases(n as nat, (53 + k) as nat);
        }
        assert(quo < 0x20_0000_0000_0000) by (nonlinear_arith)
            requires
                p == d * quo + rem,
                0 <= rem < d,
                p < 0x20_0000_0000_0000 * d,
        ;
        if k + 53 == n {
            vstd::arithmetic::power2::lemma_pow2_adds(52, k as nat);
            assert((n - 1) as nat == (52 + k) as nat);
            assert(quo >= 0x10_0000_0000_0000) by (nonlinear_arith)
                requires
                    p == d * quo + rem,
                    0 <= rem < d,
                    p >= 0x10_0000_0000_0000 * d,
            ;
        }
    }
    if 2 * rem > d || (2 * rem == d && quo % 2 == 1) {
        (quo + 1) as u64
    } else {
        quo as u64
    }
}

/// The pattern (sign bit clear) of the finite value `sig * 2^q`, where a
/// significand under 2^52 comes with the least exponent.
fn encode_finite(sig: u64, q: i64) -> (bits: u64)
    requires
        sig < 0x20_0000_0000_0000,
        -1074 <= q <= 971,
        sig < 0x10_0000_0000_0000 ==> q == -1074,
    ensures
        bits < 0x8000_0000_0000_0000,
        finite_parts(bits) == Some((sig as nat, q as int)),
{
    if sig < 0x10_0000_0000_0000 {
        assert(exp_field(sig) == 0);
        assert(frac_field(sig) == sig);
        sig
    } else {
        proof {
            lemma_normal_parts(q + 1075, sig - 0x10_0000_0000_0000);
        }
        ((q + 1075) as u64) * 0x10_0000_0000_0000 + (sig - 0x10_0000_0000_0000)
    }
}

/// The product of two floats, as IEEE 754 binary64 multiplication gives it
/// (`a * b` on `f64`): the exact product of the two finite values, rounded
/// to nearest with ties to even. A NaN result is the quiet NaN with the
/// exclusive or of the signs.
pub fn product(a: u64, b: u64) -> (r: u64)
    ensures
        product_fits(a, b, r),
{
    let neg = negative(a) != negative(b);
    let ea = (a / 0x10_0000_0000_0000u64) % 0x800u64;
    let fa = a % 0x10_0000_0000_0000u64;
    let eb = (b / 0x10_0000_0000_0000u64) % 0x800u64;
    let fb = b % 0x10_0000_0000_0000u64;
    if ea == 0x7ff || eb == 0x7ff {
        let nan = (ea == 0x7ff && fa != 0) || (eb == 0x7ff && fb != 0) || (ea == 0 && fa == 0) || (eb == 0 && fb
            == 0);
        let special: u64 = if nan {
            0x7ff8_0000_0000_0000
        } else {
            0x7ff0_0000_0000_0000
        };
        let r = with_sign(special, neg);
        proof {
            lemma_fields_of_magnitude(special, r);
        }
        return r;
    }
    let m1: u64 = if ea == 0 {
        fa
    } else {
        fa + 0x10_0000_0000_0000u64
    };
    let e1: i64 = if ea == 0 {
        -1074
    } else {
        ea as i64 - 1075
    };
    let m2: u64 = if eb == 0 {
        fb
    } else {
        fb + 0x10_0000_0000_0000u64
    };
    let e2: i64 = if eb == 0 {
        -1074
    } else {
        eb as i64 - 1075
    };
    assert(finite_parts(a) == Some((m1 as nat, e1 as int)));
    assert(finite_parts(b) == Some((m2 as nat, e2 as int)));
    assert((m1 as int) * (m2 as int) < 0x400_0000_0000_0000_0000_0000_0000) by (nonlinear_arith)
        requires
            m1 < 0x20_0000_0000_0000,
            m2 < 0x20_0000_0000_0000,
    ;
    let p: u128 = (m1 as u128) * (m2 as u128);
    if p == 0 {
        let r = with_sign(0, neg);
        proof {
            lemma_fields_of_magnitude(0, r);
        }
        return r;
    }
    let e: i64 = e1 + e2;
    let (sig, q) = round_binary64(p, e);
    if q > 971 {
        let r = with_sign(0x7ff0_0000_0000_0000, neg);
        proof {
            lemma_fields_of_magnitude(0x7ff0_0000_0000_0000, r);
        }
        return r;
    }
    let bits = encode_finite(sig, q);
    let r = with_sign(bits, neg);
    proof {
        lemma_fields_of_magnitude(bits, r);
    }
    r
}

/// `n / d >= 2^k`, in integers.
pub open spec fn ratio_at_least(n: nat, d: nat, k: int) -> bool {
    if k >= 0 {
        n >= d * vstd::arithmetic::power2::pow2(k as nat)
    } else {
        n * vstd::arithmetic::power2::pow2((-k) as nat) >= d
    }
}

/// The binary exponent of `n / d` (both positive), found from the lengths
/// of `n` and `d`: `g = len(n) - len(d)` when `n / d >= 2^g`, else `g - 1`.
/// `lemma_ratio_exponent` shows that `2^L <= n / d < 2^(L + 1)`.
pub open spec fn ratio_exponent(n: nat, d: nat) -> int {
    let g = bit_len(n) - bit_len(d);
    if ratio_at_least(n, d, g) {
        g
    } else {
        g - 1
    }
}

/// `n / d * 2^s` (`n, d > 0`) rounded to binary64 precision, to nearest
/// with ties to even, as significand and exponent.
pub open spec fn round_ratio(n: nat, d: nat, s: int) -> (nat, int) {
    let l0 = ratio_exponent(n, d) + s - 52;
    let l = if l0 < -1074 {
        -1074
    } else {
        l0
    };
    let sig: int = if l <= s {
        round_quotient((n * vstd::arithmetic::power2::pow2((s - l) as nat)) as int, d as int)
    } else {
        round_quotient(n as int, (d * vstd::arithmetic::power2::pow2((l - s) as nat)) as int)
    };
    if sig == 2 * exponent_unit() {
        (exponent_unit() as nat, l + 1)
    } else {
        (sig as nat, l)
    }
}

/// `n / d >= 2^k` is `n * 2^w >= d * 2^(k + w)` for any `w` that makes both
/// exponents natural.
proof fn lemma_at_least_scaled(n: nat, d: nat, k: int, w: nat)
    requires
        k + w >= 0,
    ensures
        ratio_at_least(n, d, k) <==> n * vstd::arithmetic::power2::pow2(w) >= d * vstd::arithmetic::power2::pow2(
            (k + w) as nat,
        ),
{
    let pw = vstd::arithmetic::power2::pow2(w);
    let pkw = vstd::arithmetic::power2::pow2((k + w) as nat);
    vstd::arithmetic::power2::lemma_pow2_pos(w);
    vstd::arithmetic::power2::lemma_pow2_pos((k + w) as nat);
    if k >= 0 {
        let pk = vstd::arithmetic::power2::pow2(k as nat);
        vstd::arithmetic::power2::lemma_pow2_adds(k as nat, w);
        assert((n >= d * pk) <==> (n * pw >= d * pkw)) by (nonlinear_arith)
            requires
                pkw == pk * pw,
                pw > 0,
        ;
    } else {
        let pk = vstd::arithmetic::power2::pow2((-k) as nat);
        vstd::arithmetic::power2::lemma_pow2_adds((-k) as nat, (k + w) as nat);
        assert(((-k) + (k + w)) as nat == w);
        assert((n * pk >= d) <==> (n * pw >= d * pkw)) by (nonlinear_arith)
            requires
                pw == pk * pkw,
                pkw > 0,
        ;
    }
}

/// The binary exponent brackets the ratio: `2^L <= n / d < 2^(L + 1)`.
pub proof fn lemma_ratio_exponent(n: nat, d: nat)
    requires
        n > 0,
        d > 0,
    ensures
        ratio_at_least(n, d, ratio_exponent(n, d)),
        !ratio_at_least(n, d, ratio_exponent(n, d) + 1),
{
    lemma_bit_len(n);
    lemma_bit_len(d);
    let bn = bit_len(n);
    let bd = bit_len(d);
    let g = bn - bd;
    let w = (bd + 1) as nat;
    let pw = vstd::arithmetic::power2::pow2(w);
    vstd::arithmetic::power2::lemma_pow2_adds((bn - 1) as nat, w);
    vstd::arithmetic::power2::lemma_pow2_adds(bd, bn);
    vstd::arithmetic::power2::lemma_pow2_adds(bn, w);
    vstd::arithmetic::power2::lemma_pow2_adds((bd - 1) as nat, (bn + 2) as nat);
    assert((bn - 1 + w) as nat == (bn + bd) as nat);
    assert((bd - 1 + bn + 2) as nat == (bn + w) as nat);
    let pn0 = vstd::arithmetic::power2::pow2((bn - 1) as nat);
    let pn1 = vstd::arithmetic::power2::pow2(bn);
    let pd0 = vstd::arithmetic::power2::pow2((bd - 1) as nat);
    let pd1 = vstd::arithmetic::power2::pow2(bd);
    let p_nd = vstd::arithmetic::power2::pow2((bn + bd) as nat);
    let p_nw = vstd::arithmetic::power2::pow2((bn + w) as nat);
    let p_b2 = vstd::arithmetic::power2::pow2((bn + 2) as nat);
    vstd::arithmetic::power2::lemma_pow2_pos(w);
    vstd::arithmetic::power2::lemma_pow2_pos(bn);
    vstd::arithmetic::power2::lemma_pow2_pos((bn + 2) as nat);
    // n / d > 2^(g - 1) and n / d < 2^(g + 1), scaled by 2^w.
    assert(n * pw > d * pn1) by (nonlinear_arith)
        requires
            n >= pn0,
            d < pd1,
            pn0 * pw == p_nd,
            pd1 * pn1 == p_nd,
            pn1 > 0,
            pw > 0,
    ;
    assert(n * pw < d * p_b2) by (nonlinear_arith)
        requires
            n < pn1,
            d >= pd0,
            pn1 * pw == p_nw,
            pd0 * p_b2 == p_nw,
            pw > 0,
            p_b2 > 0,
    ;
    assert((g - 1 + w) as nat == bn);
    assert((g + 1 + w) as nat == (bn + 2) as nat);
    lemma_at_least_scaled(n, d, g - 1, w);
    lemma_at_least_scaled(n, d, g + 1, w);
    if !ratio_at_least(n, d, g) {
        assert(ratio_exponent(n, d) == g - 1);
    } else {
        assert(ratio_exponent(n, d) == g);
    }
}

/// The binary exponent of `n / d` for `n < 2^64` and `d < 2^53`.
fn ratio_exponent_of(n: u64, d: u64) -> (big_l: i64)
    requires
        0 < n,
        0 < d < 0x20_0000_0000_0000,
    ensures
        big_l == ratio_exponent(n as nat, d as nat),
        -53 <= big_l <= 63,
{
    proof {
        vstd::arithmetic::power2::lemma2_to64();
        vstd::arithmetic::power2::lemma2_to64_rest();
        lemma_bit_len(n as nat);
        lemma_bit_len(d as nat);
    }
    let bn = bit_length(n as u128);
    let bd = bit_length(d as u128);
    proof {
        if bn > 64 {
            if bn > 65 {
                vstd::arithmetic::power2::lemma_pow2_strictly_increases(64, (bn - 1) as nat);
            }
            assert(false);
        }
        if bd > 53 {
            if bd > 54 {
                vstd::arithmetic::power2::lemma_pow2_strictly_increases(53, (bd - 1) as nat);
            }
            assert(false);
        }
    }
    let g: i64 = bn as i64 - bd as i64;
    let ge: bool = if g >= 0 {
        let f = pow2_u128(g as u64);
        proof {
            vstd::arithmetic::power2::lemma_pow2_adds(bd as nat, g as nat);
            if bn < 64 {
                vstd::arithmetic::power2::lemma_pow2_strictly_increases(bn as nat, 64);
            }
            let pd = vstd::arithmetic::power2::pow2(bd as nat);
            assert((d as int) * (f as int) < 0x1_0000_0000_0000_0000) by (nonlinear_arith)
                requires
                    d < pd,
                    f >= 1,
                    pd * f <= 0x1_0000_0000_0000_0000,
            ;
        }
        (n as u128) >= (d as u128) * f
    } else {
        let f = pow2_u128((-g) as u64);
        proof {
            vstd::arithmetic::power2::lemma_pow2_adds(bn as nat, (-g) as nat);
            if bd < 53 {
                vstd::arithmetic::power2::lemma_pow2_strictly_increases(bd as nat, 53);
            }
            let pn = vstd::arithmetic::power2::pow2(bn as nat);
            assert((n as int) * (f as int) < 0x20_0000_0000_0000) by (nonlinear_arith)
                requires
                    n < pn,
                    f >= 1,
                    pn * f <= 0x20_0000_0000_0000,
            ;
        }
        (n as u128) * f >= d as u128
    };
    if ge {
        g
    } else {
        g - 1
    }
}

/// `n * 2^(52 - L) / d` rounded to nearest, ties to even, where `L <= 52`
/// is the binary exponent of `n / d`: a significand of 53 bits (or 2^53).
fn ratio_sig_low(n: u64, d: u64, big_l: i64) -> (sig0: u128)
    requires
        0 < n,
        0 < d < 0x20_0000_0000_0000,
        -53 <= big_l <= 52,
        ratio_at_least(n as nat, d as nat, big_l as int),
        !ratio_at_least(n as nat, d as nat, big_l + 1),
    ensures
        sig0 as int == round_quotient(
            (n * vstd::arithmetic::power2::pow2((52 - big_l) as nat)) as int,
            d as int,
        ),
        0x10_0000_0000_0000 <= sig0 <= 0x20_0000_0000_0000,
{
    let sh = (52 - big_l) as u64;
    let f = pow2_u128(sh);
    proof {
        lemma_at_least_scaled(n as nat, d as nat, big_l as int, sh as nat);
        lemma_at_least_scaled(n as nat, d as nat, big_l + 1, sh as nat);
        assert((big_l + sh) as nat == 52nat);
        assert((big_l + 1 + sh) as nat == 53nat);
        vstd::arithmetic::power2::lemma2_to64();
        vstd::arithmetic::power2::lemma2_to64_rest();
        assert((d as int) * 0x20_0000_0000_0000 < 0x400_0000_0000_0000_0000_0000_0000) by (nonlinear_arith)
            requires
                d < 0x20_0000_0000_0000,
        ;
    }
    let num = (n as u128) * f;
    let quo = num / (d as u128);
    let rem = num % (d as u128);
    proof {
        vstd::arithmetic::div_mod::lemma_fundamental_div_mod(num as int, d as int);
        assert(0x10_0000_0000_0000 <= quo < 0x20_0000_0000_0000) by (nonlinear_arith)
            requires
                num == d * quo + rem,
                0 <= rem < d,
                num >= d * 0x10_0000_0000_0000,
                num < d * 0x20_0000_0000_0000,
        ;
    }
    if 2 * rem > d as u128 || (2 * rem == d as u128 && quo % 2 == 1) {
        quo + 1
    } else {
        quo
    }
}

/// `n / (d * 2^(L - 52))` rounded to nearest, ties to even, where `L > 52`
/// is the binary exponent of `n / d`: a significand of 53 bits (or 2^53).
fn ratio_sig_high(n: u64, d: u64, big_l: i64) -> (sig0: u128)
    requires
        0 < n,
        0 < d < 0x20_0000_0000_0000,
        52 < big_l <= 63,
        ratio_at_least(n as nat, d as nat, big_l as int),
        !ratio_at_least(n as nat, d as nat, big_l + 1),
    ensures
        sig0 as int == round_quotient(
            n as int,
            (d * vstd::arithmetic::power2::pow2((big_l - 52) as nat)) as int,
        ),
        0x10_0000_0000_0000 <= sig0 <= 0x20_0000_0000_0000,
{
    let sh = (big_l - 52) as u64;
    let f = pow2_u128(sh);
    proof {
        lemma_at_least_scaled(n as nat, d as nat, big_l as int, 0);
        lemma_at_least_scaled(n as nat, d as nat, big_l + 1, 0);
        vstd::arithmetic::power2::lemma2_to64();
        vstd::arithmetic::power2::lemma2_to64_rest();
        vstd::arithmetic::power2::lemma_pow2_adds(sh as nat, 52);
        vstd::arithmetic::power2::lemma_pow2_adds(sh as nat, 53);
        vstd::arithmetic::power2::lemma_pow2_pos(sh as nat);
        assert((sh + 52) as nat == big_l as nat);
        assert((sh + 53) as nat == (big_l + 1) as nat);
        let p52 = vstd::arithmetic::power2::pow2(big_l as nat);
        assert((d as int) * (f as int) <= n) by (nonlinear_arith)
            requires
                n >= d * p52,
                p52 == f * 0x10_0000_0000_0000,
                f >= 0,
        ;
        assert((d as int) * (f as int) > 0) by (nonlinear_arith)
            requires
                d > 0,
                f > 0,
        ;
    }
    let den = (d as u128) * f;
    let quo = (n as u128) / den;
    let rem = (n as u128) % den;
    proof {
        vstd::arithmetic::div_mod::lemma_fundamental_div_mod(n as int, den as int);
        let p52 = vstd::arithmetic::power2::pow2(big_l as nat);
        let p53 = vstd::arithmetic::power2::pow2((big_l + 1) as nat);
        assert(0x10_0000_0000_0000 <= quo < 0x20_0000_0000_0000) by (nonlinear_arith)
            requires
                n == den * quo + rem,
                0 <= rem < den,
                n >= d * p52,
                n < d * p53,
                p52 == f * 0x10_0000_0000_0000,
                p53 == f * 0x20_0000_0000_0000,
                den == d * f,
                den > 0,
        ;
    }
    if 2 * rem > den || (2 * rem == den && quo % 2 == 1) {
        quo + 1
    } else {
        quo
    }
}

/// Rounding a quotient `n / d * 2^s` to binary64 is off by at most half a
/// unit in the last place kept, `2^l` with `l` the exponent 52 places below
/// the quotient's leading bit: in units of `2^l`, the result
/// `sig * 2^(q - l)` is within a half of `n * 2^(s - l) / d`.
pub proof fn law_round_ratio_is_close(n: nat, d: nat, s: int)
    requires
        n > 0,
        d > 0,
        ratio_exponent(n, d) + s - 52 >= -1074,
    ensures
        ({
            let l = ratio_exponent(n, d) + s - 52;
            let (sig, q) = round_ratio(n, d, s);
            let v = sig * vstd::arithmetic::power2::pow2((q - l) as nat);
            &&& q >= l
            &&& l <= s ==> {
                let x = n * vstd::arithmetic::power2::pow2((s - l) as nat);
                -(d as int) <= 2 * (v * d - x) <= d
            }
            &&& l > s ==> {
                let dd = d * vstd::arithmetic::power2::pow2((l - s) as nat);
                -dd <= 2 * (v * dd - n) <= dd
            }
        }),
{
    let l = ratio_exponent(n, d) + s - 52;
    let (sig, q) = round_ratio(n, d, s);
    vstd::arithmetic::power2::lemma2_to64();
    let (num, den): (int, int) = if l <= s {
        ((n * vstd::arithmetic::power2::pow2((s - l) as nat)) as int, d as int)
    } else {
        (n as int, (d * vstd::arithmetic::power2::pow2((l - s) as nat)) as int)
    };
    if l > s {
        vstd::arithmetic::power2::lemma_pow2_pos((l - s) as nat);
        assert(den > 0) by (nonlinear_arith)
            requires
                den == d * vstd::arithmetic::power2::pow2((l - s) as nat),
                d > 0,
                vstd::arithmetic::power2::pow2((l - s) as nat) > 0,
        ;
    }
    vstd::arithmetic::div_mod::lemma_fundamental_div_mod(num, den);
    let quo = num / den;
    let rem = num % den;
    let sig0 = round_quotient(num, den);
    assert(-den <= 2 * (sig0 * den - num) <= den) by (nonlinear_arith)
        requires
            num == den * quo + rem,
            0 <= rem < den,
            sig0 == (if 2 * rem > den || (2 * rem == den && quo % 2 == 1) {
                quo + 1
            } else {
                quo
            }),
    ;
    if sig0 == 2 * exponent_unit() {
        assert(q == l + 1 && sig == exponent_unit());
        assert((q - l) as nat == 1nat);
        assert(sig * vstd::arithmetic::power2::pow2((q - l) as nat) == sig0);
    } else {
        assert(q == l && sig == sig0);
        assert((q - l) as nat == 0nat);
        let p0 = vstd::arithmetic::power2::pow2((q - l) as nat);
        assert(sig * p0 == sig0) by (nonlinear_arith)
            requires
                p0 == 1,
                sig == sig0,
        ;
    }
}

/// `n / d * 2^s` rounded to binary64 precision, to nearest with ties to
/// even, for `n < 2^64`, `d < 2^53` and `-22 <= s <= 0`: always a normal
/// number.
fn round_ratio_of(n: u64, d: u64, s: i64) -> (res: (u64, i64))
    requires
        0 < n,
        0 < d < 0x20_0000_0000_0000,
        -22 <= s <= 0,
    ensures
        round_ratio(n as nat, d as nat, s as int) == (res.0 as nat, res.1 as int),
        0x10_0000_0000_0000 <= res.0 < 0x20_0000_0000_0000,
        -1074 < res.1 <= 971,
{
    let big_l = ratio_exponent_of(n, d);
    proof {
        lemma_ratio_exponent(n as nat, d as nat);
    }
    let l: i64 = big_l + s - 52;
    let sig0 = if big_l <= 52 {
        assert((s - l) as nat == (52 - big_l) as nat);
        ratio_sig_low(n, d, big_l)
    } else {
        assert((l - s) as nat == (big_l - 52) as nat);
        ratio_sig_high(n, d, big_l)
    };
    if sig0 == 0x20_0000_0000_0000 {
        (0x10_0000_0000_0000, l + 1)
    } else {
        (sig0 as u64, l)
    }
}

/// The integer nearest to `m * 2^e`, halves away from zero (what
/// `f64::round` gives for a magnitude).
pub open spec fn away_int(m: nat, e: int) -> nat {
    if e >= 0 {
        m * vstd::arithmetic::power2::pow2(e as nat)
    } else {
        (((m + vstd::arithmetic::power2::pow2((-e - 1) as nat)) as int) / (vstd::arithmetic::power2::pow2(
            (-e) as nat,
        ) as int)) as nat
    }
}

/// `r` is what `(x * 10^d).round() / 10^d` gives on binary64: the sign of
/// `x`; a NaN or an infinity stays one; and for `d <= 22`, where `10^d` is
/// a float exactly, a finite `x` is multiplied by it and rounded to
/// nearest, that product rounded half away from zero to an integer `N`,
/// and `N / 10^d` rounded to nearest, ties to even (the product's overflow
/// stays infinite; an `N` of 2^64 or more is left to the float
/// implementation).
pub open spec fn round_decimal_fits(x: u64, d: u32, r: u64) -> bool {
    &&& is_negative(r) == is_negative(x)
    &&& is_nan(x) ==> is_nan(r)
    &&& is_infinite(x) ==> is_infinite(r)
    &&& (d <= 22 && finite_parts(x) is Some) ==> {
        let (m, e) = finite_parts(x)->Some_0;
        let (fm, fe) = round_parts(pow5(d as nat) as nat, d as int);
        let (ym, ye) = round_parts(m * fm, e + fe);
        let nn = away_int(ym, ye);
        if ye > 971 {
            is_infinite(r)
        } else if nn == 0 {
            finite_parts(r) == Some((0nat, -1074int))
        } else if nn < 0x1_0000_0000_0000_0000 {
            finite_parts(r) == Some(round_ratio(nn, pow5(d as nat) as nat, -(d as int)))
        } else {
            true
        }
    }
}

/// A float whose parts are `(sig, q)` holds a whole number when `q >= 0`,
/// or when `2^-q` divides `sig`.
proof fn lemma_whole_from_parts(x: u64)
    requires
        finite_parts(x) matches Some((sig, q)) && (q >= 0 || sig % vstd::arithmetic::power2::pow2((-q) as nat)
            == 0),
    ensures
        whole_magnitude(x) is Some,
{
    let (sig, q) = finite_parts(x)->Some_0;
    vstd::arithmetic::power2::lemma2_to64();
    vstd::arithmetic::power2::lemma2_to64_rest();
    if exp_field(x) == 0 {
        if sig != 0 {
            vstd::arithmetic::power2::lemma_pow2_strictly_increases(52, 1074);
            vstd::arithmetic::div_mod::lemma_small_mod(sig, vstd::arithmetic::power2::pow2(1074));
            assert(false);
        }
    }
}

/// Rounding to no decimal places gives a whole number: what the
/// documented pattern `round` then `cast` to integer relies on. (Where the
/// rounded product reaches 2^64 the float implementation decides.)
pub proof fn law_round_to_whole(x: u64, r: u64)
    requires
        round_decimal_fits(x, 0, r),
        finite_parts(x) is Some,
        away_int(finite_parts(x)->Some_0.0, finite_parts(x)->Some_0.1) < 0x1_0000_0000_0000_0000,
    ensures
        whole_magnitude(r) is Some,
{
    vstd::arithmetic::power2::lemma2_to64();
    vstd::arithmetic::power2::lemma2_to64_rest();
    let (m, e) = finite_parts(x)->Some_0;
    assert(pow5(0) == 1);
    lemma_bit_len(1);
    assert(bit_len(1) == 1) by {
        assert(bit_len(0) == 0);
    }
    assert(round_parts(1, 0) == (exponent_unit() as nat, -52int));
    if m > 0 {
        lemma_round_exact(m, e);
    } else {
        assert(round_parts(0, e - 52) == (0nat, -1074int));
    }
    let nn = away_int(m, e);
    if nn == 0 {
        assert(finite_parts(r) == Some((0nat, -1074int)));
        vstd::arithmetic::power2::lemma_pow2_pos(1074);
        vstd::arithmetic::div_mod::lemma_small_mod(0, vstd::arithmetic::power2::pow2(1074));
        assert((-(-1074int)) as nat == 1074nat);
        lemma_whole_from_parts(r);
    } else {
        lemma_ratio_exponent(nn, 1);
        let big_l = ratio_exponent(nn, 1);
        let (sig, q) = round_ratio(nn, 1, 0);
        assert(finite_parts(r) == Some((sig, q)));
        if big_l < 52 {
            let k = (52 - big_l) as nat;
            let pk = vstd::arithmetic::power2::pow2(k);
            let p = nn * pk;
            vstd::arithmetic::div_mod::lemma_fundamental_div_mod_converse(p as int, 1, p as int, 0);
            assert(round_quotient(p as int, 1) == p);
            lemma_at_least_scaled(nn, 1, big_l + 1, k);
            assert((big_l + 1 + k) as nat == 53nat);
            assert(p < 0x20_0000_0000_0000);
            assert(sig == p && q == big_l - 52);
            assert((-q) as nat == k);
            vstd::arithmetic::power2::lemma_pow2_pos(k);
            vstd::arithmetic::div_mod::lemma_mod_multiples_basic(nn as int, pk as int);
            assert(p % pk == 0);
        }
        lemma_whole_from_parts(r);
    }
}

/// The integer nearest to `m * 2^e` (`m < 2^53`, `e <= 11`), halves away
/// from zero, when below 2^64.
fn away_int_of(m: u64, e: i64) -> (r: Option<u64>)
    requires
        m < 0x20_0000_0000_0000,
        -1074 <= e <= 971,
        e >= 0 ==> m >= 0x10_0000_0000_0000,
    ensures
        r is Some <==> away_int(m as nat, e as int) < 0x1_0000_0000_0000_0000,
        r matches Some(v) ==> v == away_int(m as nat, e as int),
{
    proof {
        vstd::arithmetic::power2::lemma2_to64();
        vstd::arithmetic::power2::lemma2_to64_rest();
    }
    if e >= 0 {
        if e > 11 {
            proof {
                if e > 12 {
                    vstd::arithmetic::power2::lemma_pow2_strictly_increases(12, e as nat);
                }
                let pe = vstd::arithmetic::power2::pow2(e as nat);
                vstd::arithmetic::power2::lemma_pow2_adds(52, 12);
                assert((m as int) * pe >= 0x1_0000_0000_0000_0000) by (nonlinear_arith)
                    requires
                        m >= 0x10_0000_0000_0000,
                        pe >= 0x1000,
                ;
            }
            return None;
        }
        let f = pow2_u128(e as u64);
        proof {
            vstd::arithmetic::power2::lemma_pow2_adds(53, 11);
            if e < 11 {
                vstd::arithmetic::power2::lemma_pow2_strictly_increases(e as nat, 11);
            }
            assert((m as int) * (f as int) < 0x1_0000_0000_0000_0000) by (nonlinear_arith)
                requires
                    m < 0x20_0000_0000_0000,
                    f <= 0x800,
            ;
        }
        return Some(((m as u128) * f) as u64);
    }
    let k = (-e) as u64;
    if k > 60 {
        proof {
            vstd::arithmetic::power2::lemma_pow2_unfold(k as nat);
            vstd::arithmetic::power2::lemma_pow2_strictly_increases(53, (k - 1) as nat);
            let h = vstd::arithmetic::power2::pow2((k - 1) as nat);
            let pk = vstd::arithmetic::power2::pow2(k as nat);
            vstd::arithmetic::div_mod::lemma_basic_div((m + h) as int, pk as int);
        }
        return Some(0);
    }
    let pk = pow2_u128(k);
    let h = pow2_u128(k - 1);
    proof {
        vstd::arithmetic::power2::lemma_pow2_unfold(k as nat);
        if k < 60 {
            vstd::arithmetic::power2::lemma_pow2_strictly_increases(k as nat, 60);
        }
        vstd::arithmetic::div_mod::lemma_div_is_ordered_by_denominator((m + h) as int, 2, pk as int);
    }
    let v = ((m as u128) + h) / pk;
    proof {
        assert(v <= ((m as u128) + h) / 2);
    }
    Some(v as u64)
}

/// `10^d` for `d <= 22` as a float: exactly, since `5^d` is below 2^53.
fn ten_power(d: u64) -> (r: u64)
    requires
        d <= 22,
    ensures
        finite_parts(r) == Some(round_parts(pow5(d as nat) as nat, d as int)),
        !is_negative(r),
        round_parts(pow5(d as nat) as nat, d as int).0 < 0x20_0000_0000_0000,
        round_parts(pow5(d as nat) as nat, d as int).1 <= 971,
        round_parts(pow5(d as nat) as nat, d as int).1 >= -1074,
{
    let p = pow5_u64(d);
    proof {
        lemma_pow5_grows(d as nat, 22);
        reveal_with_fuel(pow5, 23);
        assert(pow5(22) == 2_384_185_791_015_625);
        round_parts_bound(p as nat, d as int);
    }
    let (sig, q) = round_binary64(p as u128, d as i64);
    encode_finite(sig, q)
}

/// A float rounded to `decimals` places, half away from zero, as
/// `(x * 10^d).round() / 10^d` computes it on binary64 (see
/// `round_decimal_fits`); where that leaves the value to the float
/// implementation, it rounds the magnitude and the sign of `x` is kept.
pub fn rounded<A: FloatArith>(arith: &A, x: u64, decimals: u32) -> (r: u64)
    ensures
        round_decimal_fits(x, decimals, r),
{
    let neg = negative(x);
    let ex = (x / 0x10_0000_0000_0000u64) % 0x800u64;
    let fx = x % 0x10_0000_0000_0000u64;
    if ex == 0x7ff {
        let special: u64 = if fx != 0 {
            0x7ff8_0000_0000_0000
        } else {
            0x7ff0_0000_0000_0000
        };
        let r = with_sign(special, neg);
        proof {
            lemma_fields_of_magnitude(special, r);
        }
        return r;
    }
    if decimals <= 22 {
        let f = ten_power(decimals as u64);
        let y = product(x, f);
        let ey = (y / 0x10_0000_0000_0000u64) % 0x800u64;
        let fy = y % 0x10_0000_0000_0000u64;
        if ey == 0x7ff {
            let r = with_sign(0x7ff0_0000_0000_0000, neg);
            proof {
                lemma_fields_of_magnitude(0x7ff0_0000_0000_0000, r);
            }
            return r;
        }
        let ym: u64 = if ey == 0 {
            fy
        } else {
            fy + 0x10_0000_0000_0000u64
        };
        let ye: i64 = if ey == 0 {
            -1074
        } else {
            ey as i64 - 1075
        };
        assert(finite_parts(y) == Some((ym as nat, ye as int)));
        match away_int_of(ym, ye) {
            Some(nn) => {
                if nn == 0 {
                    let r = with_sign(0, neg);
                    proof {
                        lemma_fields_of_magnitude(0, r);
                    }
                    return r;
                }
                let p5 = pow5_u64(decimals as u64);
                proof {
                    lemma_pow5_grows(decimals as nat, 22);
                    reveal_with_fuel(pow5, 23);
                    assert(pow5(22) == 2_384_185_791_015_625);
                }
                let (sig, q) = round_ratio_of(nn, p5, -(decimals as i64));
                let bits = encode_finite(sig, q);
                let r = with_sign(bits, neg);
                proof {
                    lemma_fields_of_magnitude(bits, r);
                }
                return r;
            },
            None => {},
        }
    }
    let mag = arith.round_to(x % 0x8000_0000_0000_0000u64, decimals);
    let r = with_sign(mag, neg);
    proof {
        lemma_fields_of_magnitude(mag, r);
    }
    r
}

/// A whole number `a` with `1 <= a <= 2^53` as the exponent and fraction
/// fields of a binary64 pattern: exact, since 53 bits hold it.
#[verifier::spinoff_prover]
#[verifier::rlimit(40)]
fn encode_whole(a: u64) -> (r: u64)
    requires
        1 <= a <= 0x20_0000_0000_0000,
    ensures
        r < 0x8000_0000_0000_0000,
        whole_magnitude(r) == Some(a as int),
{
    proof {
        vstd::arithmetic::power2::lemma2_to64();
        vstd::arithmetic::power2::lemma2_to64_rest();
    }
    if a == 0x20_0000_0000_0000u64 {
        proof {
            let r: u64 = 0x4340_0000_0000_0000u64;
            assert(r == 1076 * 0x10_0000_0000_0000);
            assert(r / 0x10_0000_0000_0000 == 1076);
            assert(r % 0x10_0000_0000_0000 == 0);
        }
        return 1076 * 0x10_0000_0000_0000u64;
    }
    let mut p: u64 = 0;
    let mut pw: u64 = 1;
    while pw <= a / 2
        invariant
            1 <= a < 0x20_0000_0000_0000,
            p <= 52,
            pw as int == vstd::arithmetic::power2::pow2(p as nat),
            pw <= a,
            pw >= 1,
        decreases a - pw,
    {
        proof {
            vstd::arithmetic::power2::lemma_pow2_unfold((p + 1) as nat);
            vstd::arithmetic::power2::lemma2_to64();
            vstd::arithmetic::power2::lemma2_to64_rest();
            if p + 1 > 53 {
                vstd::arithmetic::power2::lemma_pow2_strictly_increases(53, (p + 1) as nat);
            }
        }
        pw = pw * 2;
        p = p + 1;
    }
    proof {
        vstd::arithmetic::power2::lemma_pow2_subtracts(p as nat, 52);
        vstd::arithmetic::div_mod::lemma_fundamental_div_mod(0x10_0000_0000_0000, pw as int);
        vstd::arithmetic::power2::lemma_pow2_adds(p as nat, (52 - p) as nat);
    }
    let scale = 0x10_0000_0000_0000u64 / pw;
    assert(scale as int == vstd::arithmetic::power2::pow2((52 - p) as nat));
    assert(pw * scale == 0x10_0000_0000_0000) by (nonlinear_arith)
        requires
            pw as int * vstd::arithmetic::power2::pow2((52 - p) as nat) == 0x10_0000_0000_0000,
            scale as int == vstd::arithmetic::power2::pow2((52 - p) as nat),
    ;
    assert(a * scale < 0x20_0000_0000_0000 && a * scale >= 0x10_0000_0000_0000) by (nonlinear_arith)
        requires
            pw <= a,
            a < 2 * pw,
            pw * scale == 0x10_0000_0000_0000,
            scale > 0,
    ;
    let m = a * scale;
    let r = (p + 1023) * 0x10_0000_0000_0000u64 + (m - 0x10_0000_0000_0000u64);
    proof {
        let frac = m - 0x10_0000_0000_0000;
        assert(r / 0x10_0000_0000_0000 == p + 1023);
        assert(r % 0x10_0000_0000_0000 == frac);
        let exp = (r / 0x10_0000_0000_0000) % 0x800;
        assert(exp == p + 1023);
        if p == 52 {
            assert(scale == 1);
            assert(m == a) by (nonlinear_arith)
                requires
                    m == a * scale,
                    scale == 1,
            ;
            assert(vstd::arithmetic::power2::pow2(0) == 1);
            assert(m * vstd::arithmetic::power2::pow2(0) == a);
        } else {
            let s = vstd::arithmetic::power2::pow2((52 - p) as nat);
            assert(1075 - exp == 52 - p);
            vstd::arithmetic::div_mod::lemma_mod_multiples_basic(a as int, s as int);
            vstd::arithmetic::div_mod::lemma_div_multiples_vanish(a as int, s as int);
            assert(m as int == a * s);
        }
    }
    r
}

/// `s` is the scale of a whole number `a` beyond 2^53: dividing by `2^s`
/// brings `a` into `[2^52, 2^53)`, the range of a 53-bit significand.
pub open spec fn scale_fits(a: int, s: nat) -> bool {
    exponent_unit() * vstd::arithmetic::power2::pow2(s) <= a < 2 * exponent_unit()
        * vstd::arithmetic::power2::pow2(s)
}

/// `a` rounded to a multiple of `p`, to the nearer one, and on a tie to the
/// one whose quotient is even.
pub open spec fn round_half_even(a: int, p: int) -> int {
    let q = a / p;
    let r = a % p;
    if 2 * r > p || (2 * r == p && q % 2 == 1) {
        (q + 1) * p
    } else {
        q * p
    }
}

/// The whole number a binary64 holds that is nearest to `a >= 0`, ties to
/// even: `a` itself up to 2^53; above, `a` rounded to a multiple of `2^s`
/// for the scale `s` that leaves 53 significant bits.
pub open spec fn nearest_whole(a: int) -> int {
    if a <= 2 * exponent_unit() {
        a
    } else {
        let s = choose|s: nat| scale_fits(a, s);
        round_half_even(a, vstd::arithmetic::power2::pow2(s) as int)
    }
}

/// The scale of a number is unique.
proof fn lemma_scale_unique(a: int, s1: nat, s2: nat)
    requires
        scale_fits(a, s1),
        scale_fits(a, s2),
    ensures
        s1 == s2,
{
    if s1 != s2 {
        let (lo, hi) = if s1 < s2 {
            (s1, s2)
        } else {
            (s2, s1)
        };
        vstd::arithmetic::power2::lemma_pow2_unfold((lo + 1) as nat);
        if lo + 1 < hi {
            vstd::arithmetic::power2::lemma_pow2_strictly_increases((lo + 1) as nat, hi);
        }
        let pl = vstd::arithmetic::power2::pow2(lo);
        let ph = vstd::arithmetic::power2::pow2(hi);
        assert(ph >= 2 * pl);
        assert(0x10_0000_0000_0000 * ph >= 2 * 0x10_0000_0000_0000 * pl) by (nonlinear_arith)
            requires
                ph >= 2 * pl,
        ;
    }
}

/// A pattern with exponent field `e` (not all ones, at least 1075) and
/// fraction `f` holds the whole number `(2^52 + f) * 2^(e - 1075)`.
proof fn lemma_normal_whole(e: int, f: int)
    requires
        1075 <= e < 0x7ff,
        0 <= f < 0x10_0000_0000_0000,
    ensures
        e * 0x10_0000_0000_0000 + f < 0x8000_0000_0000_0000,
        whole_magnitude((e * 0x10_0000_0000_0000 + f) as u64) == Some(
            (f + exponent_unit()) * vstd::arithmetic::power2::pow2((e - 1075) as nat),
        ),
{
    let bits = e * 0x10_0000_0000_0000 + f;
    vstd::arithmetic::div_mod::lemma_fundamental_div_mod_converse(bits, 0x10_0000_0000_0000, e, f);
    vstd::arithmetic::div_mod::lemma_small_mod(e as nat, 0x800);
    assert(((bits as u64) / 0x10_0000_0000_0000) % 0x800 == e);
}

/// Every number from 2^52 up has a scale.
proof fn lemma_scale_exists(a: int)
    requires
        a >= exponent_unit(),
    ensures
        exists|s: nat| scale_fits(a, s),
    decreases a,
{
    vstd::arithmetic::power2::lemma2_to64();
    if a < 2 * exponent_unit() {
        assert(scale_fits(a, 0));
    } else {
        let h = a / 2;
        lemma_scale_exists(h);
        let t = choose|t: nat| scale_fits(h, t);
        vstd::arithmetic::power2::lemma_pow2_unfold((t + 1) as nat);
        let pt = vstd::arithmetic::power2::pow2(t);
        assert(scale_fits(a, (t + 1) as nat)) by (nonlinear_arith)
            requires
                0x10_0000_0000_0000 * pt <= a / 2 < 2 * 0x10_0000_0000_0000 * pt,
                vstd::arithmetic::power2::pow2((t + 1) as nat) == 2 * pt,
                a >= 0,
        ;
    }
}

/// A whole number up to 2^63 and the float nearest to it differ by at most
/// half a unit in the last of 53 places, `|nearest - a| * 2^53 <= a`; up to
/// 2^53 they are equal.
pub proof fn law_nearest_whole_is_close(a: int)
    requires
        0 <= a <= 0x8000_0000_0000_0000,
    ensures
        a <= 2 * exponent_unit() ==> nearest_whole(a) == a,
        -a <= (nearest_whole(a) - a) * (2 * exponent_unit()) <= a,
{
    if a > 2 * exponent_unit() {
        lemma_scale_exists(a);
        let s = choose|s: nat| scale_fits(a, s);
        let p = vstd::arithmetic::power2::pow2(s) as int;
        vstd::arithmetic::power2::lemma_pow2_pos(s);
        vstd::arithmetic::div_mod::lemma_fundamental_div_mod(a, p);
        let q = a / p;
        let r = a % p;
        let n = nearest_whole(a);
        assert(n == round_half_even(a, p));
        assert(-a <= (n - a) * 0x20_0000_0000_0000 <= a) by (nonlinear_arith)
            requires
                a == p * q + r,
                0 <= r < p,
                0x10_0000_0000_0000 * p <= a,
                n == (if 2 * r > p || (2 * r == p && q % 2 == 1) {
                    (q + 1) * p
                } else {
                    q * p
                }),
        ;
    }
}

/// The pattern of the float nearest to a whole number beyond 2^53 (and at
/// most 2^63), rounded as `i as f64` rounds: to nearest, ties to even.
fn encode_nearest(a: u64) -> (r: u64)
    requires
        0x20_0000_0000_0000 < a <= 0x8000_0000_0000_0000,
    ensures
        r < 0x8000_0000_0000_0000,
        whole_magnitude(r) == Some(nearest_whole(a as int)),
{
    let mut p: u64 = 1;
    let mut s: u64 = 0;
    proof {
        vstd::arithmetic::power2::lemma2_to64();
    }
    while a / p >= 0x20_0000_0000_0000
        invariant
            0x20_0000_0000_0000 < a <= 0x8000_0000_0000_0000,
            p as int == vstd::arithmetic::power2::pow2(s as nat),
            1 <= p <= 0x800,
            s <= 11,
            a / p >= 0x10_0000_0000_0000,
        decreases a / p,
    {
        proof {
            vstd::arithmetic::div_mod::lemma_fundamental_div_mod(a as int, p as int);
            assert(p * 0x20_0000_0000_0000 <= a) by (nonlinear_arith)
                requires
                    a == p * (a / p) + a % p,
                    a % p >= 0,
                    a / p >= 0x20_0000_0000_0000,
                    p >= 1,
            ;
            vstd::arithmetic::power2::lemma_pow2_unfold((s + 1) as nat);
            vstd::arithmetic::div_mod::lemma_div_denominator(a as int, p as int, 2);
            vstd::arithmetic::power2::lemma2_to64();
            if s >= 11 {
                if s > 10 {
                    vstd::arithmetic::power2::lemma_pow2_strictly_increases(10, s as nat);
                }
            }
        }
        p = p * 2;
        s = s + 1;
    }
    let q = a / p;
    let rem = a % p;
    proof {
        vstd::arithmetic::div_mod::lemma_fundamental_div_mod(a as int, p as int);
        assert(scale_fits(a as int, s as nat)) by (nonlinear_arith)
            requires
                a == p * q + rem,
                0 <= rem < p,
                0x10_0000_0000_0000 <= q < 0x20_0000_0000_0000,
                p == vstd::arithmetic::power2::pow2(s as nat),
        ;
        let c = choose|t: nat| scale_fits(a as int, t);
        lemma_scale_unique(a as int, c, s as nat);
    }
    let up = 2 * rem > p || (2 * rem == p && q % 2 == 1);
    let q2 = if up {
        q + 1
    } else {
        q
    };
    assert(nearest_whole(a as int) == q2 * p);
    if q2 == 0x20_0000_0000_0000 {
        proof {
            lemma_normal_whole(1076 + s, 0);
            vstd::arithmetic::power2::lemma_pow2_unfold((s + 1) as nat);
            assert((1076 + s - 1075) as nat == (s + 1) as nat);
            assert(exponent_unit() * (2 * p) == q2 * p) by (nonlinear_arith)
                requires
                    q2 == 0x20_0000_0000_0000,
            ;
        }
        (1076 + s) * 0x10_0000_0000_0000
    } else {
        proof {
            lemma_normal_whole(1075 + s, q2 - 0x10_0000_0000_0000);
        }
        (1075 + s) * 0x10_0000_0000_0000 + (q2 - 0x10_0000_0000_0000)
    }
}

/// `c` is the float nearest to the integer `i`, ties to even, with its sign.
pub open spec fn int_float_fits(i: i64, c: u64) -> bool {
    is_negative(c) == (i < 0) && whole_magnitude(c) == Some(nearest_whole(if i < 0 { -i } else { i as int }))
}

/// The float nearest to an integer (`i as f64`): its sign is the integer's
/// and its magnitude the whole number a binary64 holds nearest to `|i|`,
/// ties to even; an integer within 2^53 of zero is held exactly.
pub fn float_of_int(i: i64) -> (r: u64)
    ensures
        int_float_fits(i, r),
        -0x20_0000_0000_0000 <= i <= 0x20_0000_0000_0000 ==> whole_value(r) == Some(i),
{
    if i == 0 {
        assert(whole_magnitude(0) == Some(0int));
        return 0;
    }
    if -0x20_0000_0000_0000i64 <= i && i <= 0x20_0000_0000_0000i64 {
        let a: u64 = if i < 0 {
            (-i) as u64
        } else {
            i as u64
        };
        let e = encode_whole(a);
        let r = with_sign(e, i < 0);
        proof {
            assert(r % 0x10_0000_0000_0000 == e % 0x10_0000_0000_0000);
            assert((r / 0x10_0000_0000_0000) % 0x800 == (e / 0x10_0000_0000_0000) % 0x800);
        }
        r
    } else {
        let a: u64 = if i < 0 {
            ((-(i + 1)) as u64) + 1
        } else {
            i as u64
        };
        let e = encode_nearest(a);
        let r = with_sign(e, i < 0);
        proof {
            lemma_signed_whole(e, r, nearest_whole(a as int));
        }
        r
    }
}

/// The number of ASCII digits `s` starts with.
pub open spec fn digit_run(s: Seq<char>) -> nat
    decreases s.len(),
{
    if s.len() > 0 && is_ascii_digit(s[0]) {
        1 + digit_run(s.skip(1))
    } else {
        0
    }
}

/// An exponent part, or nothing: `e`, an optional sign, and one digit or
/// more, running to the end of the text.
pub open spec fn exponent_ok(e: Seq<char>) -> bool {
    e.len() == 0 || (e[0] == 'e' && {
        let x = e.skip(1);
        let body = if x.len() > 0 && (x[0] == '+' || x[0] == '-') {
            x.skip(1)
        } else {
            x
        };
        body.len() > 0 && digit_run(body) == body.len()
    })
}

/// A decimal number: digits with an optional point, at least one digit on
/// either side of it, and an optional exponent.
pub open spec fn number_ok(b: Seq<char>) -> bool {
    let d1 = digit_run(b);
    let rest = b.skip(d1 as int);
    if rest.len() > 0 && rest[0] == '.' {
        let after = rest.skip(1);
        let d2 = digit_run(after);
        d1 + d2 > 0 && exponent_ok(after.skip(d2 as int))
    } else {
        d1 > 0 && exponent_ok(rest)
    }
}

/// The text `str::parse::<f64>` accepts, as the standard library documents
/// it: lowercased, an optional sign, then `inf`, `infinity`, `nan` or a
/// decimal number.
pub open spec fn float_syntax(s: Seq<char>) -> bool {
    let b = unsigned_part(ascii_lower(s));
    b == "inf"@ || b == "infinity"@ || b == "nan"@ || number_ok(b)
}

/// The text starts with a minus sign.
pub open spec fn minus_sign(s: Seq<char>) -> bool {
    s.len() > 0 && s[0] == '-'
}

fn digit_at(s: &str, j: usize) -> (r: bool)
    requires
        j < s@.len(),
    ensures
        r == is_ascii_digit(s@[j as int]),
{
    let c = s.get_char(j);
    '0' <= c && c <= '9'
}

fn digit_run_at(s: &str, i: usize) -> (k: usize)
    requires
        i <= s@.len(),
    ensures
        k == digit_run(s@.skip(i as int)),
        i + k <= s@.len(),
{
    let n = s.unicode_len();
    let mut j = i;
    while j < n && digit_at(s, j)
        invariant
            i <= j <= n,
            n == s@.len(),
            digit_run(s@.skip(i as int)) == (j - i) + digit_run(s@.skip(j as int)),
        decreases n - j,
    {
        assert(s@.skip(j as int).skip(1) =~= s@.skip(j + 1));
        assert(s@.skip(j as int)[0] == s@[j as int]);
        j += 1;
    }
    proof {
        if j < n {
            assert(s@.skip(j as int)[0] == s@[j as int]);
        }
    }
    j - i
}

fn exponent_ok_at(b: &str, i: usize) -> (r: bool)
    requires
        i <= b@.len(),
    ensures
        r == exponent_ok(b@.skip(i as int)),
{
    let n = b.unicode_len();
    let ghost e = b@.skip(i as int);
    if i == n {
        return true;
    }
    assert(e[0] == b@[i as int]);
    if b.get_char(i) != 'e' {
        return false;
    }
    let mut j = i + 1;
    let ghost x = e.skip(1);
    assert(x =~= b@.skip(i + 1));
    if j < n {
        let c = b.get_char(j);
        assert(x[0] == c);
        if c == '+' || c == '-' {
            j += 1;
            assert(x.skip(1) =~= b@.skip(j as int));
        }
    }
    let d = digit_run_at(b, j);
    d > 0 && j + d == n
}

fn number_ok_of(b: &str) -> (r: bool)
    ensures
        r == number_ok(b@),
{
    let n = b.unicode_len();
    let d1 = digit_run_at(b, 0);
    assert(b@.skip(0) =~= b@);
    let ghost rest = b@.skip(d1 as int);
    if d1 < n && b.get_char(d1) == '.' {
        assert(rest[0] == b@[d1 as int]);
        assert(rest.skip(1) =~= b@.skip(d1 + 1));
        let d2 = digit_run_at(b, d1 + 1);
        assert(rest.skip(1).skip(d2 as int) =~= b@.skip(d1 + 1 + d2));
        d1 + d2 > 0 && exponent_ok_at(b, d1 + 1 + d2)
    } else {
        proof {
            if d1 < n {
                assert(rest[0] == b@[d1 as int]);
            }
        }
        d1 > 0 && exponent_ok_at(b, d1)
    }
}

/// Whether `str::parse::<f64>` accepts the text, by the grammar the
/// standard library documents for it.
pub fn float_syntax_ok(s: &str) -> (r: bool)
    ensures
        r == float_syntax(s@),
{
    let lower = to_ascii_lowercase(s);
    let l = lower.as_str();
    let n = l.unicode_len();
    let signed = n > 0 && {
        let c = l.get_char(0);
        c == '+' || c == '-'
    };
    let st: usize = if signed {
        1
    } else {
        0
    };
    let b = l.substring_char(st, n);
    proof {
        if signed {
            assert(b@ =~= l@.skip(1));
        } else {
            assert(b@ =~= l@);
        }
    }
    if same_text(b, "inf") || same_text(b, "infinity") || same_text(b, "nan") {
        return true;
    }
    number_ok_of(b)
}

/// The digits of a number text with its point left out.
pub open spec fn mantissa_digits(b: Seq<char>) -> Seq<char> {
    let d1 = digit_run(b);
    let rest = b.skip(d1 as int);
    if rest.len() > 0 && rest[0] == '.' {
        b.take(d1 as int) + rest.skip(1).take(digit_run(rest.skip(1)) as int)
    } else {
        b.take(d1 as int)
    }
}

/// The number of digits after the point of a number text.
pub open spec fn fraction_len(b: Seq<char>) -> nat {
    let rest = b.skip(digit_run(b) as int);
    if rest.len() > 0 && rest[0] == '.' {
        digit_run(rest.skip(1))
    } else {
        0
    }
}

/// The exponent part of a number text: `e` and what follows it, or nothing.
pub open spec fn exponent_part(b: Seq<char>) -> Seq<char> {
    let rest = b.skip(digit_run(b) as int);
    if rest.len() > 0 && rest[0] == '.' {
        rest.skip(1).skip(digit_run(rest.skip(1)) as int)
    } else {
        rest
    }
}

/// The power of ten `K` a number text scales its digits by: the exponent
/// less the number of digits after the point (`None` for an exponent
/// beyond `i64`).
pub open spec fn decimal_exponent(b: Seq<char>) -> Option<int> {
    let e = exponent_part(b);
    if e.len() == 0 {
        Some(-fraction_len(b))
    } else {
        match decimal_i64(e.skip(1)) {
            Some(x) => Some(x - fraction_len(b)),
            None => None,
        }
    }
}

/// The value `D * 10^K` of a number text (lowercase, no sign), `D` its
/// digits and `K` its power of ten, as `p * 2^K` where that is read here:
/// `p = D * 5^K` for `0 <= K <= 18`, and `p = D / 5^-K` for `-27 <= K < 0`
/// when `5^-K` divides `D`. `None` for other texts.
pub open spec fn binary_decimal(b: Seq<char>) -> Option<(nat, int)> {
    match (decimal_i64(mantissa_digits(b)), decimal_exponent(b)) {
        (Some(dd), Some(k)) => if dd < 0 {
            None
        } else if 0 <= k <= 18 {
            Some(((dd * pow5(k as nat)) as nat, k))
        } else if -27 <= k < 0 && (dd as int) % pow5((-k) as nat) == 0 {
            Some((((dd as int) / pow5((-k) as nat)) as nat, k))
        } else {
            None
        },
        _ => None,
    }
}

/// The float a number text (lowercase, no sign) denotes, where its value
/// `D * 10^K` is read here: rounded to nearest, ties to even. Where
/// `binary_decimal` reads the value as `p * 2^K`, that is rounded as any
/// product is; otherwise, for `-22 <= K < 0`, the value is the quotient
/// `D / 5^-K` times `2^K`. `None` for other texts.
pub open spec fn exact_decimal(b: Seq<char>) -> Option<(nat, int)> {
    match binary_decimal(b) {
        Some((p, e)) => Some(round_parts(p, e)),
        None => match (decimal_i64(mantissa_digits(b)), decimal_exponent(b)) {
            (Some(dd), Some(k)) => if 0 < dd && -22 <= k < 0 {
                Some(round_ratio(dd as nat, pow5((-k) as nat) as nat, k))
            } else {
                None
            },
            _ => None,
        },
    }
}

/// A whole number below 2^53 times `2^e` (`e >= -1074`) is a float
/// exactly: rounding leaves its value, `p * 2^e == sig * 2^q`.
pub proof fn law_round_parts_exact(p: nat, e: int)
    requires
        0 < p < 2 * exponent_unit(),
        e >= -1074,
    ensures
        round_parts(p, e).1 <= e,
        round_parts(p, e).0 == p * vstd::arithmetic::power2::pow2((e - round_parts(p, e).1) as nat),
{
    vstd::arithmetic::power2::lemma2_to64();
    vstd::arithmetic::power2::lemma2_to64_rest();
    lemma_bit_len(p);
    let bl = bit_len(p);
    if bl > 53 {
        if bl > 54 {
            vstd::arithmetic::power2::lemma_pow2_strictly_increases(53, (bl - 1) as nat);
        }
        assert(false);
    }
    let l = last_place(p, e);
    let k = vstd::arithmetic::power2::pow2((e - l) as nat);
    vstd::arithmetic::power2::lemma_pow2_adds(bl, (e - l) as nat);
    if bl + (e - l) < 53 {
        vstd::arithmetic::power2::lemma_pow2_strictly_increases((bl + (e - l)) as nat, 53);
    }
    let pb = vstd::arithmetic::power2::pow2(bl);
    assert(p * k < 2 * exponent_unit()) by (nonlinear_arith)
        requires
            p < pb,
            k >= 1,
            pb * k <= 0x20_0000_0000_0000,
    ;
    vstd::arithmetic::power2::lemma_pow2_pos((e - l) as nat);
}

/// `5^k` for `k <= 27`.
fn pow5_u64(k: u64) -> (r: u64)
    requires
        k <= 27,
    ensures
        r as int == pow5(k as nat),
        1 <= r <= 7_450_580_596_923_828_125,
{
    proof {
        reveal_with_fuel(pow5, 28);
    }
    assert(pow5(27) == 7_450_580_596_923_828_125);
    let mut r: u64 = 1;
    let mut i: u64 = 0;
    while i < k
        invariant
            i <= k <= 27,
            r as int == pow5(i as nat),
            pow5(27) == 7_450_580_596_923_828_125,
        decreases k - i,
    {
        proof {
            lemma_pow5_grows((i + 1) as nat, 27);
        }
        r = r * 5;
        i = i + 1;
    }
    proof {
        lemma_pow5_grows(k as nat, 27);
    }
    r
}

/// The digits of a number text as an integer and the power of ten they are
/// scaled by, where both fit.
#[verifier::spinoff_prover]
#[verifier::rlimit(40)]
fn decimal_of(b: &str) -> (r: Option<(i64, i128)>)
    requires
        number_ok(b@),
    ensures
        r is Some <==> (decimal_i64(mantissa_digits(b@)) is Some && decimal_exponent(b@) is Some),
        r matches Some((dd, k)) ==> decimal_i64(mantissa_digits(b@)) == Some(dd) && decimal_exponent(b@) == Some(
            k as int,
        ),
{
    let n = b.unicode_len();
    let d1 = digit_run_at(b, 0);
    assert(b@.skip(0) =~= b@);
    let ghost rest = b@.skip(d1 as int);
    let has_point = d1 < n && b.get_char(d1) == '.';
    let mut digits = String::from_str(b.substring_char(0, d1));
    let mut d2: usize = 0;
    if has_point {
        assert(rest[0] == b@[d1 as int]);
        assert(rest.skip(1) =~= b@.skip(d1 + 1));
        d2 = digit_run_at(b, d1 + 1);
        digits.append(b.substring_char(d1 + 1, d1 + 1 + d2));
        assert(rest.skip(1).take(d2 as int) =~= b@.subrange(d1 + 1, d1 + 1 + d2));
        assert(rest.skip(1).skip(d2 as int) =~= b@.skip(d1 + 1 + d2));
    } else {
        proof {
            if d1 < n {
                assert(rest[0] == b@[d1 as int]);
            }
        }
    }
    let ep = if has_point {
        d1 + 1 + d2
    } else {
        d1
    };
    assert(b@.take(d1 as int) =~= b@.subrange(0, d1 as int));
    assert(digits@ =~= mantissa_digits(b@));
    assert(fraction_len(b@) == d2);
    assert(exponent_part(b@) =~= b@.skip(ep as int));
    let dd = match parse_i64(digits.as_str()) {
        Some(v) => v,
        None => {
            return None;
        },
    };
    let x: i64 = if ep == n {
        0
    } else {
        assert(b@.skip(ep as int).skip(1) =~= b@.subrange(ep + 1, n as int));
        match parse_i64(b.substring_char(ep + 1, n)) {
            Some(v) => v,
            None => {
                return None;
            },
        }
    };
    let k: i128 = x as i128 - d2 as i128;
    Some((dd, k))
}

/// The pattern (sign bit clear) of the float a number text denotes, where
/// `exact_decimal` reads it.
fn exact_decimal_of(b: &str) -> (r: Option<u64>)
    requires
        number_ok(b@),
    ensures
        r is Some <==> exact_decimal(b@) is Some,
        r matches Some(x) ==> x < 0x8000_0000_0000_0000 && finite_parts(x) == Some(exact_decimal(b@)->Some_0),
{
    let (dd, k) = match decimal_of(b) {
        Some(v) => v,
        None => {
            return None;
        },
    };
    if dd < 0 {
        return None;
    }
    if 0 <= k && k <= 18 {
        let f = pow5_u64(k as u64);
        proof {
            reveal_with_fuel(pow5, 19);
            lemma_pow5_grows(k as nat, 18);
            assert(pow5(18) == 3_814_697_265_625);
            assert((dd as int) * (f as int) < 0x400_0000_0000_0000_0000_0000_0000) by (nonlinear_arith)
                requires
                    0 <= dd <= i64::MAX,
                    0 <= f <= 3_814_697_265_625,
            ;
        }
        let p: u128 = (dd as u128) * (f as u128);
        if p == 0 {
            assert(finite_parts(0) == Some((0nat, -1074int)));
            return Some(0);
        }
        let (sig, q) = round_binary64(p, k as i64);
        proof {
            vstd::arithmetic::power2::lemma2_to64();
            vstd::arithmetic::power2::lemma2_to64_rest();
            round_parts_bound(p as nat, k as int);
        }
        Some(encode_finite(sig, q))
    } else if -27 <= k && k < 0 {
        let f = pow5_u64((-k) as u64);
        if (dd as u64) % f != 0 {
            if k < -22 {
                return None;
            }
            proof {
                lemma_pow5_grows((-k) as nat, 22);
                reveal_with_fuel(pow5, 23);
                assert(pow5(22) == 2_384_185_791_015_625);
                if dd == 0 {
                    vstd::arithmetic::div_mod::lemma_small_mod(0, f as nat);
                }
            }
            let (sig, q) = round_ratio_of(dd as u64, f, k as i64);
            return Some(encode_finite(sig, q));
        }
        let p: u128 = ((dd as u64) / f) as u128;
        if p == 0 {
            assert(finite_parts(0) == Some((0nat, -1074int)));
            return Some(0);
        }
        let (sig, q) = round_binary64(p, k as i64);
        proof {
            round_parts_bound(p as nat, k as int);
        }
        Some(encode_finite(sig, q))
    } else {
        None
    }
}

/// A number below 2^106 times `2^e` with `e <= 900` rounds to a finite
/// float.
proof fn round_parts_bound(p: nat, e: int)
    requires
        0 < p < 0x400_0000_0000_0000_0000_0000_0000,
        -2148 <= e <= 900,
    ensures
        round_parts(p, e).1 <= 971,
{
    lemma_bit_len(p);
    vstd::arithmetic::power2::lemma2_to64();
    vstd::arithmetic::power2::lemma2_to64_rest();
    vstd::arithmetic::power2::lemma_pow2_adds(53, 53);
    if bit_len(p) > 106 {
        if bit_len(p) > 107 {
            vstd::arithmetic::power2::lemma_pow2_strictly_increases(106, (bit_len(p) - 1) as nat);
        }
        assert(false);
    }
}

/// A finite float is its sign and its parts: two patterns that agree on
/// both are the same.
pub proof fn lemma_same_float(x: u64, y: u64)
    requires
        finite_parts(x) is Some,
        finite_parts(x) == finite_parts(y),
        is_negative(x) == is_negative(y),
    ensures
        x == y,
{
    lemma_magnitude_fields(x);
    lemma_magnitude_fields(y);
    assert(exp_field(x) == exp_field(y));
    assert(frac_field(x) == frac_field(y));
    assert(magnitude(x) == magnitude(y));
}

/// `b` is a float the text `raw` can denote: its sign is the text's, and
/// where `exact_decimal` reads the text after the sign, its magnitude is
/// the decimal value rounded to nearest.
pub open spec fn float_read_fits(raw: Seq<char>, b: u64) -> bool {
    &&& is_negative(b) == minus_sign(raw)
    &&& exact_decimal(unsigned_part(ascii_lower(raw))) matches Some(pp) ==> finite_parts(b) == Some(pp)
}

/// The float a text denotes, when `str::parse::<f64>` accepts it: its sign
/// is the text's (a leading `-`); where `exact_decimal` reads the text
/// after the sign, its magnitude is that, the decimal value rounded to
/// nearest as `str::parse::<f64>` rounds it; otherwise the float
/// implementation reads the magnitude. (An implementation that refused
/// text of the grammar would leave no value; NaN stands in for it.)
pub fn read_float<A: FloatArith>(arith: &A, text: &str) -> (r: Option<u64>)
    ensures
        r is Some <==> float_syntax(text@),
        r matches Some(b) ==> float_read_fits(text@, b),
{
    if !float_syntax_ok(text) {
        return None;
    }
    let lower = to_ascii_lowercase(text);
    let l = lower.as_str();
    let ln = l.unicode_len();
    let signed = ln > 0 && {
        let c = l.get_char(0);
        c == '+' || c == '-'
    };
    let st: usize = if signed {
        1
    } else {
        0
    };
    let b = l.substring_char(st, ln);
    proof {
        if signed {
            assert(b@ =~= l@.skip(1));
        } else {
            assert(b@ =~= l@);
        }
        reveal_strlit("inf");
        reveal_strlit("infinity");
        reveal_strlit("nan");
    }
    let neg_text = text.unicode_len() > 0 && text.get_char(0) == '-';
    if !(same_text(b, "inf") || same_text(b, "infinity") || same_text(b, "nan")) {
        if let Some(x) = exact_decimal_of(b) {
            let r = with_sign(x, neg_text);
            proof {
                lemma_fields_of_magnitude(x, r);
            }
            return Some(r);
        }
    } else {
        assert(decimal_i64(mantissa_digits(b@)) is None);
    }
    let n = text.unicode_len();
    let first = if n > 0 {
        text.get_char(0)
    } else {
        ' '
    };
    let neg = n > 0 && first == '-';
    let unsigned = if n > 0 && (first == '+' || first == '-') {
        text.substring_char(1, n)
    } else {
        text
    };
    let mag = match arith.parse_float(unsigned) {
        Some(b) => b,
        None => 0x7ff8_0000_0000_0000u64,
    };
    Some(with_sign(mag, neg))
}

/// A finite binary64 pattern with a fractional part (or a subnormal) as a
/// significand and a power of two it is divided by: `(m, s)` with the
/// magnitude `m / 2^s`, `s >= 1`. `None` for zero, a whole number, an
/// infinity or a NaN pattern.
pub open spec fn fraction_form(bits: u64) -> Option<(int, nat)> {
    let exp = (bits / 0x10_0000_0000_0000) % 0x800;
    let frac = bits % 0x10_0000_0000_0000;
    if exp == 0x7ff {
        None
    } else if exp == 0 {
        if frac == 0 {
            None
        } else {
            Some((frac as int, 1074nat))
        }
    } else if exp >= 1075 {
        None
    } else {
        Some((frac + exponent_unit(), (1075 - exp) as nat))
    }
}

/// `m / 2^s` in lowest terms: halve while the significand is even.
pub open spec fn reduced(m: int, s: nat) -> (int, nat)
    decreases s,
{
    if s > 0 && m % 2 == 0 {
        reduced(m / 2, (s - 1) as nat)
    } else {
        (m, s)
    }
}

/// `5^k`.
pub open spec fn pow5(k: nat) -> int
    decreases k,
{
    if k == 0 {
        1
    } else {
        5 * pow5((k - 1) as nat)
    }
}

/// `10^k`.
pub open spec fn pow10(k: nat) -> int
    decreases k,
{
    if k == 0 {
        1
    } else {
        10 * pow10((k - 1) as nat)
    }
}

proof fn lemma_pow10_grows(i: nat, j: nat)
    requires
        i <= j,
    ensures
        1 <= pow10(i) <= pow10(j),
    decreases j,
{
    if j > 0 {
        let i2: nat = if i < j {
            i
        } else {
            (j - 1) as nat
        };
        lemma_pow10_grows(i2, (j - 1) as nat);
    }
}

/// A float whose exact decimal value has a fractional part and at most 15
/// significant digits, as `(d, k)`: the magnitude is `d / 10^k`, with `k`
/// the number of digits after the point. (`m / 2^k` is `m * 5^k / 10^k`.)
pub open spec fn short_decimal(bits: u64) -> Option<(int, nat)> {
    match fraction_form(bits) {
        None => None,
        Some((m, s)) => {
            let (m2, k) = reduced(m, s);
            if k >= 1 && m2 * pow5(k) < 1_000_000_000_000_000 {
                Some((m2 * pow5(k), k))
            } else {
                None
            }
        },
    }
}

/// `d / 10^k` written with `k` digits after the point.
pub open spec fn fraction_text(d: int, k: nat) -> Seq<char> {
    nat_text((d / pow10(k)) as nat) + seq!['.'] + padded((d % pow10(k)) as nat, k)
}

/// The magnitude of a whole number within 2^53 of zero.
pub open spec fn small_whole(bits: u64) -> Option<nat> {
    match whole_value(bits) {
        Some(v) => if -0x20_0000_0000_0000 <= v <= 0x20_0000_0000_0000 {
            Some(
                (if v < 0 {
                    -v
                } else {
                    v as int
                }) as nat,
            )
        } else {
            None
        },
        None => None,
    }
}

/// The text `f64`'s `Display` writes, where the pattern alone decides it:
/// `NaN`; `inf` with its sign; a whole number within 2^53 of zero in
/// decimal with its sign (`-0` for negative zero); a value whose exact
/// decimal has at most 15 significant digits as that decimal; otherwise the
/// shortest decimal of at most 17 significant digits and at most 22 places
/// that reads back as the float (`decimal_search`: `0.1`, `12.35`); a whole
/// number below 2^63 as its shortest digits and zeros (`whole_search`). `Display`
/// writes the shortest decimal that reads back as the same float, in plain
/// notation, and for these values that is the one given.
pub open spec fn known_float_text(bits: u64) -> Option<Seq<char>> {
    let exp = (bits / 0x10_0000_0000_0000) % 0x800;
    let frac = bits % 0x10_0000_0000_0000;
    let sign: Seq<char> = if is_negative(bits) {
        seq!['-']
    } else {
        Seq::empty()
    };
    if exp == 0x7ff {
        Some(
            if frac == 0 {
                sign + "inf"@
            } else {
                "NaN"@
            },
        )
    } else if small_whole(bits) is Some {
        Some(sign + nat_text(small_whole(bits)->Some_0))
    } else {
        match short_decimal(bits) {
            Some((d, k)) => Some(sign + fraction_text(d, k)),
            None => match decimal_search(bits, 1) {
                Some((d, k)) => Some(sign + fraction_text(d as int, k)),
                None => match whole_search(bits, 22) {
                    Some((d, j)) => Some(sign + nat_text(d) + Seq::new(j, |i: int| '0')),
                    None => None,
                },
            },
        }
    }
}

/// Whether `d` followed by `j` zeros writes the whole float `bits` (below
/// 2^63): `d` is the float divided by `10^j` and rounded to the nearest
/// integer (halves up), and `d * 10^j` reads back as the same float.
pub open spec fn whole_places_fit(bits: u64, j: nat) -> Option<nat> {
    match finite_parts(bits) {
        Some((m, e)) => if m > 0 && 0 <= e <= 10 && j <= 22 {
            let v = (m * vstd::arithmetic::power2::pow2(e as nat)) as int;
            let dv = pow10(j);
            let d = if 2 * (v % dv) >= dv {
                v / dv + 1
            } else {
                v / dv
            };
            if 0 < d && d * pow5(j) < 0x400_0000_0000_0000_0000_0000_0000 && round_parts(
                (d * pow5(j)) as nat,
                j as int,
            ) == (m, e) {
                Some(d as nat)
            } else {
                None
            }
        } else {
            None
        },
        None => None,
    }
}

/// The most trailing zeros, from `j` down to none, that write a whole float
/// from 2^53 to 2^63, and the digits before them: the shortest decimal
/// that reads back as the float, the one `Display` writes.
pub open spec fn whole_search(bits: u64, j: nat) -> Option<(nat, nat)>
    decreases j,
{
    match whole_places_fit(bits, j) {
        Some(d) => Some((d, j)),
        None => if j == 0 {
            None
        } else {
            whole_search(bits, (j - 1) as nat)
        },
    }
}

/// `10^j` for `j <= 22`.
fn pow10_u128(j: u64) -> (r: u128)
    requires
        j <= 22,
    ensures
        r as int == pow10(j as nat),
        r >= 1,
{
    proof {
        reveal_with_fuel(pow10, 23);
        lemma_pow10_grows(j as nat, 22);
        lemma_pow10_grows(0, j as nat);
    }
    let mut r: u128 = 1;
    let mut i: u64 = 0;
    while i < j
        invariant
            i <= j <= 22,
            r as int == pow10(i as nat),
            pow10(22) == 10_000_000_000_000_000_000_000,
        decreases j - i,
    {
        proof {
            lemma_pow10_grows((i + 1) as nat, 22);
        }
        r = r * 10;
        i = i + 1;
    }
    r
}

/// `whole_places_fit` for a pattern with exponent and fraction fields `ex`
/// and `fx`.
fn whole_places_fit_of(ex: u64, fx: u64, j: u64, Ghost(bits): Ghost<u64>) -> (r: Option<u64>)
    requires
        ex == exp_field(bits),
        fx == frac_field(bits),
        ex < 0x7ff,
        j <= 22,
    ensures
        r is Some <==> whole_places_fit(bits, j as nat) is Some,
        r matches Some(d) ==> d == whole_places_fit(bits, j as nat)->Some_0 && d <= i64::MAX,
{
    let m: u64 = if ex == 0 {
        fx
    } else {
        fx + 0x10_0000_0000_0000u64
    };
    let e: i64 = if ex == 0 {
        -1074
    } else {
        ex as i64 - 1075
    };
    assert(finite_parts(bits) == Some((m as nat, e as int)));
    if m == 0 || e < 0 || e > 10 {
        return None;
    }
    let pe = pow2_u128(e as u64);
    proof {
        vstd::arithmetic::power2::lemma2_to64();
        if e < 10 {
            vstd::arithmetic::power2::lemma_pow2_strictly_increases(e as nat, 10);
        }
        assert((m as int) * (pe as int) < 0x80_0000_0000_0000_00) by (nonlinear_arith)
            requires
                m < 0x20_0000_0000_0000,
                pe <= 1024,
        ;
    }
    let v: u128 = (m as u128) * pe;
    let dv = pow10_u128(j);
    let quo = v / dv;
    let rem = v % dv;
    proof {
        vstd::arithmetic::div_mod::lemma_fundamental_div_mod(v as int, dv as int);
        vstd::arithmetic::div_mod::lemma_div_is_ordered_by_denominator(v as int, 1, dv as int);
    }
    let d: u128 = if rem >= dv - rem {
        quo + 1
    } else {
        quo
    };
    proof {
        if dv == 1 {
            assert(rem == 0);
        } else {
            assert(dv >= 2);
            assert(quo * 2 <= v) by (nonlinear_arith)
                requires
                    v == dv * quo + rem,
                    dv >= 2,
                    rem >= 0,
                    quo >= 0,
            ;
        }
        assert(d <= i64::MAX);
    }
    let p5 = pow5_u64(j);
    proof {
        lemma_pow5_grows(j as nat, 22);
        reveal_with_fuel(pow5, 23);
        assert(pow5(22) == 2_384_185_791_015_625);
        assert((d as int) * (p5 as int) < 0x1_0000_0000_0000_0000_0000_0000_0000_0000) by (nonlinear_arith)
            requires
                d <= 0x80_0000_0000_0000_00,
                p5 <= 2_384_185_791_015_625,
        ;
    }
    if d == 0 {
        return None;
    }
    let p = d * (p5 as u128);
    assert(p > 0) by (nonlinear_arith)
        requires
            p == d * p5,
            d > 0,
            p5 >= 1,
    ;
    if p >= 0x400_0000_0000_0000_0000_0000_0000 {
        return None;
    }
    let (sig, q) = round_binary64(p, j as i64);
    if sig == m && q == e {
        Some(d as u64)
    } else {
        None
    }
}

/// The most trailing zeros that write a whole float from 2^53 to 2^63,
/// and the digits before them.
fn whole_search_of(bits: u64) -> (r: Option<(u64, u64)>)
    requires
        exp_field(bits) < 0x7ff,
    ensures
        r is Some <==> whole_search(bits, 22) is Some,
        r matches Some((d, j)) ==> whole_search(bits, 22) == Some((d as nat, j as nat)) && d <= i64::MAX && j
            <= 22,
{
    let ex = (bits / 0x10_0000_0000_0000u64) % 0x800u64;
    let fx = bits % 0x10_0000_0000_0000u64;
    let mut j: u64 = 22;
    loop
        invariant
            j <= 22,
            ex == exp_field(bits),
            fx == frac_field(bits),
            ex < 0x7ff,
            whole_search(bits, 22) == whole_search(bits, j as nat),
        decreases j,
    {
        match whole_places_fit_of(ex, fx, j, Ghost(bits)) {
            Some(d) => {
                return Some((d, j));
            },
            None => {},
        }
        if j == 0 {
            return None;
        }
        j = j - 1;
    }
}

/// Whether `k` decimal places write the float `bits`: its finite positive
/// magnitude times `10^k`, rounded to the nearest integer (halves up), is a
/// `d` with at most 17 digits that reads back (`d / 10^k`, rounded to
/// nearest) as the same float.
pub open spec fn decimal_places_fit(bits: u64, k: nat) -> Option<nat> {
    match finite_parts(bits) {
        Some((m, e)) => {
            let t = e + k;
            if m > 0 && t < 0 && -t <= 127 {
                let num = (m * pow5(k)) as int;
                let dv = vstd::arithmetic::power2::pow2((-t) as nat) as int;
                let d = if 2 * (num % dv) >= dv {
                    num / dv + 1
                } else {
                    num / dv
                };
                if 0 < d < 100_000_000_000_000_000 && round_ratio(d as nat, pow5(k) as nat, -(k as int)) == (m, e) {
                    Some(d as nat)
                } else {
                    None
                }
            } else {
                None
            }
        },
        None => None,
    }
}

/// The fewest decimal places, from `k` up to 22, that write the float
/// `bits` with at most 17 significant digits, and the digits. The values
/// that read back as a float form an interval around it, so when some
/// decimal of `k` places reads back, the nearest one does: the first `k`
/// found gives the shortest decimal that reads back as `bits`, and the
/// nearest of that length, the one `Display` writes.
pub open spec fn decimal_search(bits: u64, k: nat) -> Option<(nat, nat)>
    decreases 23 - k,
{
    if k > 22 {
        None
    } else {
        match decimal_places_fit(bits, k) {
            Some(d) => Some((d, k)),
            None => decimal_search(bits, k + 1),
        }
    }
}

/// `decimal_places_fit` for a pattern with exponent and fraction fields
/// `ex` and `fx`.
fn decimal_places_fit_of(ex: u64, fx: u64, k: u64, Ghost(bits): Ghost<u64>) -> (r: Option<u64>)
    requires
        ex == exp_field(bits),
        fx == frac_field(bits),
        ex < 0x7ff,
        1 <= k <= 22,
    ensures
        r is Some <==> decimal_places_fit(bits, k as nat) is Some,
        r matches Some(d) ==> d == decimal_places_fit(bits, k as nat)->Some_0 && d < 100_000_000_000_000_000,
{
    let m: u64 = if ex == 0 {
        fx
    } else {
        fx + 0x10_0000_0000_0000u64
    };
    let e: i64 = if ex == 0 {
        -1074
    } else {
        ex as i64 - 1075
    };
    assert(finite_parts(bits) == Some((m as nat, e as int)));
    let t: i64 = e + k as i64;
    if m == 0 || t >= 0 || -t > 127 {
        return None;
    }
    let p5 = pow5_u64(k);
    proof {
        lemma_pow5_grows(k as nat, 22);
        reveal_with_fuel(pow5, 23);
        assert(pow5(22) == 2_384_185_791_015_625);
        assert((m as int) * (p5 as int) < 0x400_0000_0000_0000_0000_0000_0000) by (nonlinear_arith)
            requires
                m < 0x20_0000_0000_0000,
                p5 <= 2_384_185_791_015_625,
        ;
    }
    let num: u128 = (m as u128) * (p5 as u128);
    let dv = pow2_u128((-t) as u64);
    proof {
        vstd::arithmetic::power2::lemma_pow2_pos((-t) as nat);
    }
    let quo = num / dv;
    let rem = num % dv;
    proof {
        vstd::arithmetic::div_mod::lemma_fundamental_div_mod(num as int, dv as int);
    }
    let d: u128 = if rem >= dv - rem {
        quo + 1
    } else {
        quo
    };
    if d == 0 || d >= 100_000_000_000_000_000 {
        return None;
    }
    let (sig, q) = round_ratio_of(d as u64, p5, -(k as i64));
    if sig == m && q == e {
        Some(d as u64)
    } else {
        None
    }
}

/// The fewest decimal places that write a finite float with at most 17
/// significant digits, and the digits.
fn decimal_search_of(bits: u64) -> (r: Option<(u64, u64)>)
    requires
        exp_field(bits) < 0x7ff,
    ensures
        r is Some <==> decimal_search(bits, 1) is Some,
        r matches Some((d, k)) ==> decimal_search(bits, 1) == Some((d as nat, k as nat)) && d < 100_000_000_000_000_000
            && k >= 1,
{
    let ex = (bits / 0x10_0000_0000_0000u64) % 0x800u64;
    let fx = bits % 0x10_0000_0000_0000u64;
    let mut k: u64 = 1;
    while k <= 22
        invariant
            1 <= k <= 23,
            ex == exp_field(bits),
            fx == frac_field(bits),
            ex < 0x7ff,
            decimal_search(bits, 1) == decimal_search(bits, k as nat),
        decreases 23 - k,
    {
        match decimal_places_fit_of(ex, fx, k, Ghost(bits)) {
            Some(d) => {
                return Some((d, k));
            },
            None => {},
        }
        k = k + 1;
    }
    None
}

/// A pattern is a NaN.
pub open spec fn is_nan(bits: u64) -> bool {
    (bits / 0x10_0000_0000_0000) % 0x800 == 0x7ff && bits % 0x10_0000_0000_0000 != 0
}

proof fn lemma_padded_zeros(n: nat, w: nat)
    ensures
        padded(n, w) == (if nat_text(n).len() >= w {
            nat_text(n)
        } else {
            Seq::new((w - nat_text(n).len()) as nat, |i: int| '0') + nat_text(n)
        }),
    decreases w,
{
    if nat_text(n).len() < w {
        lemma_padded_zeros(n, (w - 1) as nat);
        let t = nat_text(n);
        if nat_text(n).len() >= w - 1 {
            assert(seq!['0'] + t =~= Seq::new((w - t.len()) as nat, |i: int| '0') + t);
        } else {
            assert(seq!['0'] + (Seq::new((w - 1 - t.len()) as nat, |i: int| '0') + t) =~= Seq::new(
                (w - t.len()) as nat,
                |i: int| '0',
            ) + t);
        }
    }
}

/// `d / 10^k` written with `k` digits after the point.
fn fraction_text_of(d: u64, k: u64) -> (r: String)
    requires
        d < 100_000_000_000_000_000,
        k >= 1,
    ensures
        r@ == fraction_text(d as int, k as nat),
{
    let q: u64;
    let rem: u64;
    if k >= 18 {
        proof {
            lemma_pow10_grows(18, k as nat);
            reveal_with_fuel(pow10, 19);
            vstd::arithmetic::div_mod::lemma_basic_div(d as int, pow10(k as nat));
            vstd::arithmetic::div_mod::lemma_small_mod(d as nat, pow10(k as nat) as nat);
        }
        q = 0;
        rem = d;
    } else {
        let mut p: u64 = 1;
        let mut i: u64 = 0;
        while i < k
            invariant
                i <= k < 18,
                p as int == pow10(i as nat),
            decreases k - i,
        {
            proof {
                lemma_pow10_grows((i + 1) as nat, 17);
                reveal_with_fuel(pow10, 18);
            }
            p = p * 10;
            i = i + 1;
        }
        proof {
            lemma_pow10_grows(0, k as nat);
            lemma_pow10_grows(k as nat, 17);
            reveal_with_fuel(pow10, 18);
        }
        q = d / p;
        rem = d % p;
        assert(rem < p);
    }
    assert(q as int == (d as int) / pow10(k as nat));
    assert(rem as int == (d as int) % pow10(k as nat));
    assert(rem < 100_000_000_000_000_000);
    let mut out = i64_text(q as i64);
    assert(out@ == nat_text(q as nat));
    out.append(".");
    let t = i64_text(rem as i64);
    assert(t@ == nat_text(rem as nat));
    let len = t.unicode_len();
    let ghost before = out@;
    let mut z: u64 = 0;
    if (len as u64) < k {
        while z < k - len as u64
            invariant
                z <= k - len as u64,
                out@ == before + Seq::new(z as nat, |j: int| '0'),
            decreases k - len as u64 - z,
        {
            out.append("0");
            proof {
                reveal_strlit("0");
            }
            assert(out@ =~= before + Seq::new((z + 1) as nat, |j: int| '0'));
            z = z + 1;
        }
    }
    out.append(t.as_str());
    proof {
        reveal_strlit(".");
        lemma_padded_zeros(rem as nat, k as nat);
        assert(before =~= nat_text(q as nat) + seq!['.']);
        if (len as u64) < k {
            assert(out@ =~= nat_text(q as nat) + seq!['.'] + (Seq::new((k - len) as nat, |j: int| '0') + nat_text(
                rem as nat,
            )));
        } else {
            assert(out@ =~= nat_text(q as nat) + seq!['.'] + nat_text(rem as nat));
        }
    }
    out
}

proof fn lemma_pow5_grows(i: nat, j: nat)
    requires
        i <= j,
    ensures
        1 <= pow5(i) <= pow5(j),
    decreases j,
{
    if j > 0 {
        let i2: nat = if i < j {
            i
        } else {
            (j - 1) as nat
        };
        lemma_pow5_grows(i2, (j - 1) as nat);
    }
}

/// The float as `d / 10^k` with at most 15 significant digits and a
/// fractional part, when its exact value is such a decimal.
fn short_decimal_of(bits: u64) -> (r: Option<(u64, u64)>)
    ensures
        match r {
            Some(p) => short_decimal(bits) == Some((p.0 as int, p.1 as nat)) && p.0 < 1_000_000_000_000_000
                && p.1 >= 1,
            None => short_decimal(bits) is None,
        },
{
    let exp = (bits / 0x10_0000_0000_0000u64) % 0x800u64;
    let frac = bits % 0x10_0000_0000_0000u64;
    if exp == 0x7ff || exp >= 1075 || (exp == 0 && frac == 0) {
        return None;
    }
    let mut m: u64 = if exp == 0 {
        frac
    } else {
        frac + 0x10_0000_0000_0000u64
    };
    let mut s: u64 = if exp == 0 {
        1074
    } else {
        1075 - exp
    };
    let ghost m0 = m as int;
    let ghost s0 = s as nat;
    assert(fraction_form(bits) == Some((m0, s0)));
    while s > 0 && m % 2 == 0
        invariant
            reduced(m0, s0) == reduced(m as int, s as nat),
            fraction_form(bits) == Some((m0, s0)),
        decreases s,
    {
        m = m / 2;
        s = s - 1;
    }
    assert(reduced(m as int, s as nat) == (m as int, s as nat));
    if s == 0 {
        return None;
    }
    if m >= 1_000_000_000_000_000u64 {
        proof {
            lemma_pow5_grows(0, s as nat);
            assert(m * pow5(s as nat) >= m) by (nonlinear_arith)
                requires
                    pow5(s as nat) >= 1,
                    m >= 0,
            ;
        }
        return None;
    }
    let mut d: u64 = m;
    let mut i: u64 = 0;
    while i < s
        invariant
            i <= s,
            d as int == m * pow5(i as nat),
            d < 1_000_000_000_000_000,
            reduced(m0, s0) == (m as int, s as nat),
            fraction_form(bits) == Some((m0, s0)),
            s >= 1,
        decreases s - i,
    {
        if d >= 200_000_000_000_000u64 {
            proof {
                lemma_pow5_grows((i + 1) as nat, s as nat);
                assert(pow5((i + 1) as nat) == 5 * pow5(i as nat));
                assert(m * pow5(s as nat) >= m * pow5((i + 1) as nat)) by (nonlinear_arith)
                    requires
                        pow5(s as nat) >= pow5((i + 1) as nat),
                        m >= 0,
                ;
                assert(m * pow5((i + 1) as nat) == 5 * d) by (nonlinear_arith)
                    requires
                        pow5((i + 1) as nat) == 5 * pow5(i as nat),
                        d == m * pow5(i as nat),
                ;
            }
            return None;
        }
        proof {
            assert(pow5((i + 1) as nat) == 5 * pow5(i as nat));
            assert(m * pow5((i + 1) as nat) == 5 * d) by (nonlinear_arith)
                requires
                    pow5((i + 1) as nat) == 5 * pow5(i as nat),
                    d == m * pow5(i as nat),
            ;
        }
        d = d * 5;
        i = i + 1;
    }
    Some((d, s))
}

/// The text `f64`'s `Display` writes for a float: exact where the pattern
/// alone decides it (see `known_float_text`); otherwise the float
/// implementation writes the magnitude, after a minus sign for a negative
/// value.
pub fn float_display<A: FloatArith>(arith: &A, bits: u64) -> (r: String)
    ensures
        known_float_text(bits) matches Some(t) ==> r@ == t,
        is_negative(bits) && !is_nan(bits) ==> r@.len() > 0 && r@[0] == '-',
{
    let exp = (bits / 0x10_0000_0000_0000u64) % 0x800u64;
    let frac = bits % 0x10_0000_0000_0000u64;
    if exp == 0x7ff && frac != 0 {
        return String::from_str("NaN");
    }
    proof {
        reveal_strlit("-");
        reveal_strlit("");
    }
    let neg = negative(bits);
    let mut out = if neg {
        String::from_str("-")
    } else {
        String::from_str("")
    };
    let ghost sign: Seq<char> = if is_negative(bits) {
        seq!['-']
    } else {
        Seq::empty()
    };
    assert(out@ == sign);
    if exp == 0x7ff {
        out.append("inf");
        return out;
    }
    if let Some(v) = whole_value_of(bits) {
        if -0x20_0000_0000_0000i64 <= v && v <= 0x20_0000_0000_0000i64 {
            let a = if v < 0 {
                -v
            } else {
                v
            };
            let t = i64_text(a);
            out.append(t.as_str());
            assert(small_whole(bits) == Some(a as nat));
            return out;
        }
    }
    assert(small_whole(bits) is None);
    match short_decimal_of(bits) {
        Some((d, k)) => {
            let t = fraction_text_of(d, k);
            out.append(t.as_str());
        },
        None => match decimal_search_of(bits) {
            Some((d, k)) => {
                let t = fraction_text_of(d, k);
                out.append(t.as_str());
            },
            None => match whole_search_of(bits) {
                Some((d, j)) => {
                    let t = i64_text(d as i64);
                    out.append(t.as_str());
                    let ghost before = out@;
                    let mut z: u64 = 0;
                    while z < j
                        invariant
                            z <= j,
                            out@ == before + Seq::new(z as nat, |i: int| '0'),
                        decreases j - z,
                    {
                        out.append("0");
                        proof {
                            reveal_strlit("0");
                        }
                        assert(out@ =~= before + Seq::new((z + 1) as nat, |i: int| '0'));
                        z = z + 1;
                    }
                },
                None => {
                    let t = arith.float_text(bits % 0x8000_0000_0000_0000u64);
                    out.append(t.as_str());
                },
            },
        },
    }
    out
}

proof fn lemma_reduced(m: int, s: nat)
    ensures
        reduced(m, s).1 <= s,
        m == reduced(m, s).0 * vstd::arithmetic::power2::pow2((s - reduced(m, s).1) as nat),
    decreases s,
{
    if s > 0 && m % 2 == 0 {
        lemma_reduced(m / 2, (s - 1) as nat);
        let (m2, k) = reduced(m / 2, (s - 1) as nat);
        let e = (s - 1 - k) as nat;
        vstd::arithmetic::power2::lemma_pow2_unfold((s - k) as nat);
        assert(m / 2 == m2 * vstd::arithmetic::power2::pow2(e));
        assert(m == 2 * (m / 2));
        assert(m == m2 * vstd::arithmetic::power2::pow2((s - k) as nat)) by (nonlinear_arith)
            requires
                m == 2 * (m / 2),
                m / 2 == m2 * vstd::arithmetic::power2::pow2(e),
                vstd::arithmetic::power2::pow2((s - k) as nat) == 2 * vstd::arithmetic::power2::pow2(e),
        ;
        assert(reduced(m, s) == (m2, k));
    } else {
        vstd::arithmetic::power2::lemma2_to64();
        assert(reduced(m, s) == (m, s));
        assert((s - s) as nat == 0nat);
        assert(m == m * vstd::arithmetic::power2::pow2(0)) by (nonlinear_arith)
            requires
                vstd::arithmetic::power2::pow2(0) == 1,
        ;
    }
}

proof fn lemma_pow5_pow2(k: nat)
    ensures
        pow5(k) * vstd::arithmetic::power2::pow2(k) == pow10(k),
    decreases k,
{
    if k == 0 {
        vstd::arithmetic::power2::lemma2_to64();
    } else {
        lemma_pow5_pow2((k - 1) as nat);
        vstd::arithmetic::power2::lemma_pow2_unfold(k);
        let a = pow5((k - 1) as nat);
        let b = vstd::arithmetic::power2::pow2((k - 1) as nat);
        assert((5 * a) * (2 * b) == 10 * (a * b)) by (nonlinear_arith);
    }
}

/// A float written as a short decimal is written exactly: the decimal
/// `d / 10^k` equals the float's magnitude `m / 2^s`.
pub proof fn law_short_decimal_is_exact(bits: u64)
    requires
        short_decimal(bits) is Some,
    ensures
        fraction_form(bits) matches Some((m, s)) && short_decimal(bits) matches Some((d, k)) && d
            * vstd::arithmetic::power2::pow2(s) == m * pow10(k),
{
    let (m, s) = fraction_form(bits)->Some_0;
    let (m2, k) = reduced(m, s);
    let d = m2 * pow5(k);
    lemma_reduced(m, s);
    lemma_pow5_pow2(k);
    vstd::arithmetic::power2::lemma_pow2_adds((s - k) as nat, k);
    let p = vstd::arithmetic::power2::pow2((s - k) as nat);
    let q = vstd::arithmetic::power2::pow2(k);
    assert(((s - k) as nat + k) as nat == s);
    assert(d * (p * q) == (m2 * p) * (pow5(k) * q)) by (nonlinear_arith)
        requires
            d == m2 * pow5(k),
    ;
}

/// The known text of a negative float that is not a NaN starts with a
/// minus sign, and that of a non-negative one does not.
pub proof fn law_known_text_carries_the_sign(bits: u64)
    requires
        known_float_text(bits) is Some,
        !is_nan(bits),
    ensures
        known_float_text(bits)->Some_0.len() > 0,
        (known_float_text(bits)->Some_0[0] == '-') == is_negative(bits),
{
    let exp = (bits / 0x10_0000_0000_0000) % 0x800;
    reveal_strlit("inf");
    if exp != 0x7ff {
        if small_whole(bits) is Some {
            crate::text::lemma_nat_text_digits(small_whole(bits)->Some_0);
            assert(is_ascii_digit(nat_text(small_whole(bits)->Some_0)[0]));
        } else if short_decimal(bits) is Some {
            let (d, k) = short_decimal(bits)->Some_0;
            crate::text::lemma_nat_text_digits((d / pow10(k)) as nat);
            assert(is_ascii_digit(nat_text((d / pow10(k)) as nat)[0]));
        } else if decimal_search(bits, 1) is Some {
            let (d, k) = decimal_search(bits, 1)->Some_0;
            crate::text::lemma_nat_text_digits(((d as int) / pow10(k)) as nat);
            assert(is_ascii_digit(nat_text(((d as int) / pow10(k)) as nat)[0]));
        } else {
            let (d, j) = whole_search(bits, 22)->Some_0;
            crate::text::lemma_nat_text_digits(d);
            assert(is_ascii_digit(nat_text(d)[0]));
        }
    }
}

} // verus!
