//! The collation order over values: one total order used for index keys,
//! sorting and equality tests. Null sorts below everything but Null,
//! numerics compare by value with integers promoted to floats in mixed
//! comparisons, numerics sort below text, text below blobs, and text and
//! blob payloads compare byte-wise. Aggregates compare through their final
//! value; records compare field by field.
//!
//! Floats are handled on their IEEE 754 bit patterns: for every pattern but
//! the NaNs, the `f64_scaled` model gives the exact numeric value scaled by
//! `2^1074`, and comparison of those integers is the float order.
use vstd::prelude::*;
use vstd::arithmetic::power2::pow2;
use vstd::arithmetic::power2::lemma2_to64;
use vstd::arithmetic::power2::lemma2_to64_rest;
use vstd::arithmetic::power2::lemma_pow2_adds;
use vstd::arithmetic::power2::lemma_pow2_pos;
use vstd::arithmetic::power2::lemma_pow2_strictly_increases;
use vstd::arithmetic::mul::lemma_mul_inequality;
use vstd::arithmetic::mul::lemma_mul_strict_inequality;
use vstd::utf8::encode_utf8;
use core::cmp::Ordering;
use crate::value::AggView;
use crate::value::OwnedValue;
use crate::value::ValueView;
use crate::value::agg_final_view;

verus! {

/// The exponent field of a float bit pattern.
pub open spec fn f64_exp(bits: u64) -> nat {
    ((bits / 0x10_0000_0000_0000) % 0x800) as nat
}

/// The fraction field of a float bit pattern.
pub open spec fn f64_frac(bits: u64) -> nat {
    (bits % 0x10_0000_0000_0000) as nat
}

/// The sign bit of a float bit pattern.
pub open spec fn f64_sign(bits: u64) -> bool {
    bits >= 0x8000_0000_0000_0000
}

/// Whether the bit pattern is a NaN: maximum exponent with a nonzero
/// fraction.
pub open spec fn f64_is_nan(bits: u64) -> bool {
    f64_exp(bits) == 0x7ff && f64_frac(bits) != 0
}

/// The numeric value of magnitude bits `m` (a bit pattern without its sign
/// bit), scaled by `2^1074` so that every subnormal, normal and infinite
/// value is an integer.
pub open spec fn scaled_mag(m: nat) -> int {
    let e = m / 0x10_0000_0000_0000;
    let f = m % 0x10_0000_0000_0000;
    if e == 0 {
        f as int
    } else {
        ((f + 0x10_0000_0000_0000) * pow2((e - 1) as nat)) as int
    }
}

/// The numeric value of a float bit pattern, scaled by `2^1074`. Both
/// zeroes map to zero; meaningless for NaNs.
pub open spec fn f64_scaled(bits: u64) -> int {
    let m = (bits % 0x8000_0000_0000_0000) as nat;
    if f64_sign(bits) {
        -scaled_mag(m)
    } else {
        scaled_mag(m)
    }
}

/// Magnitude bits order exactly as the values they denote.
proof fn lemma_scaled_mag_monotone(x: nat, y: nat)
    requires
        x < y,
    ensures
        scaled_mag(x) < scaled_mag(y),
{
    lemma2_to64();
    lemma2_to64_rest();
    let b: nat = 0x10_0000_0000_0000;
    let ex = x / b;
    let fx = x % b;
    let ey = y / b;
    let fy = y % b;
    vstd::arithmetic::div_mod::lemma_fundamental_div_mod(x as int, b as int);
    vstd::arithmetic::div_mod::lemma_fundamental_div_mod(y as int, b as int);
    assert(ex <= ey) by {
        if ex > ey {
            lemma_mul_inequality(ey as int + 1, ex as int, b as int);
            assert(false);
        }
    }
    if ex == ey {
        assert(fx < fy);
        if ex == 0 {
        } else {
            lemma_pow2_pos((ex - 1) as nat);
            lemma_mul_strict_inequality(
                (fx + b) as int,
                (fy + b) as int,
                pow2((ex - 1) as nat) as int,
            );
        }
    } else {
        let py = pow2((ey - 1) as nat);
        lemma_pow2_pos((ey - 1) as nat);
        assert(b * py <= (fy + b) * py) by {
            lemma_mul_inequality(b as int, (fy + b) as int, py as int);
        }
        assert(b * py == pow2((ey + 51) as nat)) by {
            lemma_pow2_adds(52, (ey - 1) as nat);
            assert(pow2(52) == b);
        }
        if ex == 0 {
            if 52 < ey + 51 {
                lemma_pow2_strictly_increases(52, (ey + 51) as nat);
            }
            assert(scaled_mag(x) == fx as int);
            assert(fx < b);
            assert(b == pow2(52));
        } else {
            let px = pow2((ex - 1) as nat);
            lemma_pow2_pos((ex - 1) as nat);
            assert((fx + b) * px < (2 * b) * px) by {
                lemma_mul_strict_inequality((fx + b) as int, (2 * b) as int, px as int);
            }
            assert((2 * b) * px == pow2((ex + 52) as nat)) by {
                lemma_pow2_adds(53, (ex - 1) as nat);
                assert(pow2(53) == 2 * b);
            }
            assert(pow2((ex + 52) as nat) <= pow2((ey + 51) as nat)) by {
                if ex + 52 < ey + 51 {
                    lemma_pow2_strictly_increases((ex + 52) as nat, (ey + 51) as nat);
                }
            }
        }
    }
}

/// Comparing magnitude bits compares the denoted values.
proof fn lemma_scaled_mag_order(x: nat, y: nat)
    ensures
        scaled_mag(x) < scaled_mag(y) <==> x < y,
        scaled_mag(x) == scaled_mag(y) <==> x == y,
{
    if x < y {
        lemma_scaled_mag_monotone(x, y);
    } else if y < x {
        lemma_scaled_mag_monotone(y, x);
    }
}

/// Three-way order of two integers.
pub open spec fn ord_of(x: int, y: int) -> Ordering {
    if x < y {
        Ordering::Less
    } else if x == y {
        Ordering::Equal
    } else {
        Ordering::Greater
    }
}

/// Compares two float bit patterns by the values they denote.
fn cmp_f64_bits(a: u64, b: u64) -> (r: Ordering)
    requires
        !f64_is_nan(a),
        !f64_is_nan(b),
    ensures
        r == ord_of(f64_scaled(a), f64_scaled(b)),
{
    proof {
        lemma2_to64();
        lemma2_to64_rest();
    }
    let ma = a % 0x8000_0000_0000_0000;
    let mb = b % 0x8000_0000_0000_0000;
    let sa = a >= 0x8000_0000_0000_0000;
    let sb = b >= 0x8000_0000_0000_0000;
    proof {
        lemma_scaled_mag_order(ma as nat, mb as nat);
        lemma_scaled_mag_order(0, ma as nat);
        lemma_scaled_mag_order(0, mb as nat);
        assert(scaled_mag(0) == 0);
    }
    if ma == 0 && mb == 0 {
        Ordering::Equal
    } else if sa && !sb {
        Ordering::Less
    } else if !sa && sb {
        Ordering::Greater
    } else if !sa {
        if ma < mb {
            Ordering::Less
        } else if ma == mb {
            Ordering::Equal
        } else {
            Ordering::Greater
        }
    } else {
        if ma < mb {
            Ordering::Greater
        } else if ma == mb {
            Ordering::Equal
        } else {
            Ordering::Less
        }
    }
}

/// The number of binary digits of `m`.
pub open spec fn bit_len(m: nat) -> nat
    decreases m,
{
    if m == 0 {
        0
    } else {
        (1 + bit_len(m / 2)) as nat
    }
}

/// A positive number lies between the powers of two its bit length names.
pub proof fn lemma_bit_len_bounds(m: nat)
    requires
        m >= 1,
    ensures
        bit_len(m) >= 1,
        pow2((bit_len(m) - 1) as nat) <= m < pow2(bit_len(m)),
    decreases m,
{
    lemma2_to64();
    if m == 1 {
    } else {
        lemma_bit_len_bounds(m / 2);
        let k = bit_len(m / 2);
        lemma_pow2_adds((k - 1) as nat, 1);
        lemma_pow2_adds(k, 1);
    }
}

/// The bit pattern of the positive magnitude `m` rounded to the nearest
/// representable binary64, ties to even. Exact for magnitudes up to `2^53`.
pub open spec fn promote_mag_bits(m: nat) -> u64 {
    let n = (bit_len(m) - 1) as nat;
    if n <= 52 {
        (((n + 1023) * 0x10_0000_0000_0000) + (m * pow2((52 - n) as nat)
            - 0x10_0000_0000_0000)) as u64
    } else {
        let s = (n - 52) as nat;
        let q = m / pow2(s);
        let r = m % pow2(s);
        let half = pow2((s - 1) as nat);
        let q1: nat = if r > half || (r == half && q % 2 == 1) {
            (q + 1) as nat
        } else {
            q
        };
        if q1 == 0x20_0000_0000_0000 {
            (((n + 1024) * 0x10_0000_0000_0000)) as u64
        } else {
            (((n + 1023) * 0x10_0000_0000_0000) + (q1 - 0x10_0000_0000_0000)) as u64
        }
    }
}

/// The bit pattern of `i` converted to binary64, rounding to nearest with
/// ties to even.
pub open spec fn i64_to_f64_bits(i: int) -> u64 {
    if i == 0 {
        0
    } else if i > 0 {
        promote_mag_bits(i as nat)
    } else {
        (0x8000_0000_0000_0000 + promote_mag_bits((-i) as nat)) as u64
    }
}

/// `pow2(k)` as a machine word.
fn pow2u(k: u64) -> (r: u64)
    requires
        k <= 63,
    ensures
        r == pow2(k as nat),
{
    proof {
        lemma2_to64();
    }
    let mut r: u64 = 1;
    let mut i: u64 = 0;
    while i < k
        invariant
            0 <= i <= k <= 63,
            r == pow2(i as nat),
        decreases k - i,
    {
        proof {
            lemma_pow2_adds(i as nat, 1);
            lemma2_to64();
            if (i as nat) + 1 < 63 {
                lemma_pow2_strictly_increases((i + 1) as nat, 63);
            }
            lemma2_to64_rest();
        }
        r = r * 2;
        i = i + 1;
    }
    r
}

/// Builds magnitude bits from an exponent field and a fraction field.
fn make_bits(e: u64, f: u64) -> (r: u64)
    requires
        e < 0x7ff,
        f < 0x10_0000_0000_0000,
    ensures
        r < 0x8000_0000_0000_0000,
        f64_exp(r) == e,
        f64_frac(r) == f,
        !f64_is_nan(r),
        r == e * 0x10_0000_0000_0000 + f,
{
    let r = e * 0x10_0000_0000_0000 + f;
    proof {
        vstd::arithmetic::div_mod::lemma_fundamental_div_mod_converse(
            r as int,
            0x10_0000_0000_0000,
            e as int,
            f as int,
        );
        vstd::arithmetic::div_mod::lemma_small_mod(e as nat, 0x800);
    }
    r
}

/// The magnitude bits of `m` as a float, by binary search on the bit
/// length, then rounding to nearest, ties to even.
fn promote_mag(m: u64) -> (r: u64)
    requires
        1 <= m,
    ensures
        r == promote_mag_bits(m as nat),
        r < 0x8000_0000_0000_0000,
        !f64_is_nan(r),
{
    proof {
        lemma2_to64();
        lemma2_to64_rest();
    }
    let mut t = m;
    let mut bl: u64 = 0;
    while t > 0
        invariant
            bit_len(m as nat) == bl + bit_len(t as nat),
            t <= m,
            bl <= 64,
        decreases t,
    {
        proof {
            if bl >= 64 {
                lemma_bit_len_bounds(m as nat);
                lemma2_to64_rest();
                if bit_len(m as nat) > 64 {
                    lemma_pow2_strictly_increases(64, (bit_len(m as nat) - 1) as nat);
                }
                assert(false);
            }
        }
        t = t / 2;
        bl = bl + 1;
    }
    proof {
        lemma_bit_len_bounds(m as nat);
        if bl > 64 {
            lemma_pow2_strictly_increases(64, (bl - 1) as nat);
            assert(false);
        }
    }
    let n = bl - 1;
    if bl <= 53 {
        let shift = pow2u(53 - bl);
        proof {
            lemma_mul_strict_inequality(m as int, pow2(bl as nat) as int, shift as int);
            lemma_pow2_adds(bl as nat, (53 - bl) as nat);
            lemma_mul_inequality(pow2((bl - 1) as nat) as int, m as int, shift as int);
            lemma_pow2_adds((bl - 1) as nat, (53 - bl) as nat);
            lemma_pow2_pos((53 - bl) as nat);
        }
        let frac_full = m * shift;
        make_bits(n + 1023, frac_full - 0x10_0000_0000_0000)
    } else {
        let s = bl - 53;
        let p = pow2u(s);
        proof {
            lemma_pow2_pos(s as nat);
            lemma_pow2_adds((s - 1) as nat, 1);
        }
        let q = m / p;
        let rr = m % p;
        let half = p / 2;
        proof {
            assert(half == pow2((s - 1) as nat));
            vstd::arithmetic::div_mod::lemma_fundamental_div_mod(m as int, p as int);
            assert(q < 0x20_0000_0000_0000) by {
                if q >= 0x20_0000_0000_0000 {
                    lemma_mul_inequality(0x20_0000_0000_0000, q as int, p as int);
                    lemma_pow2_adds(53, s as nat);
                    assert(false);
                }
            }
            assert(q >= 0x10_0000_0000_0000) by {
                vstd::arithmetic::div_mod::lemma_div_is_ordered(
                    pow2((bl - 1) as nat) as int,
                    m as int,
                    p as int,
                );
                vstd::arithmetic::power2::lemma_pow2_subtracts(s as nat, (bl - 1) as nat);
                assert(pow2((bl - 1) as nat) as int / (p as int) == pow2(52) as int);
            }
        }
        let q1 = if rr > half || (rr == half && q % 2 == 1) {
            q + 1
        } else {
            q
        };
        if q1 == 0x20_0000_0000_0000 {
            make_bits(n + 1024, 0)
        } else {
            make_bits(n + 1023, q1 - 0x10_0000_0000_0000)
        }
    }
}

/// The bit pattern of `i` as a binary64, rounding to nearest, ties to even:
/// the promotion applied to an integer before it meets a float.
pub fn promote_i64(i: i64) -> (r: u64)
    ensures
        r == i64_to_f64_bits(i as int),
        !f64_is_nan(r),
{
    proof {
        lemma2_to64();
        lemma2_to64_rest();
    }
    if i == 0 {
        proof {
            vstd::arithmetic::div_mod::lemma_small_mod(0, 0x800);
        }
        0
    } else if i > 0 {
        promote_mag(i as u64)
    } else {
        let mag: u64 = ((-(i + 1)) as u64) + 1;
        proof {
            assert(mag == -(i as int));
        }
        let mb = promote_mag(mag);
        let r = 0x8000_0000_0000_0000 + mb;
        proof {
            assert(f64_exp(r) == f64_exp(mb) && f64_frac(r) == f64_frac(mb)) by {
                assert(r % 0x8000_0000_0000_0000 == mb) by {
                    vstd::arithmetic::div_mod::lemma_fundamental_div_mod_converse(
                        r as int,
                        0x8000_0000_0000_0000,
                        1,
                        mb as int,
                    );
                }
                assert(mb % 0x8000_0000_0000_0000 == mb) by {
                    vstd::arithmetic::div_mod::lemma_small_mod(
                        mb as nat,
                        0x8000_0000_0000_0000,
                    );
                }
                assert(r / 0x10_0000_0000_0000 == 0x800 + mb / 0x10_0000_0000_0000) by {
                    vstd::arithmetic::div_mod::lemma_fundamental_div_mod(
                        mb as int,
                        0x10_0000_0000_0000,
                    );
                    vstd::arithmetic::div_mod::lemma_fundamental_div_mod_converse(
                        r as int,
                        0x10_0000_0000_0000,
                        0x800 + (mb as int) / 0x10_0000_0000_0000,
                        (mb as int) % 0x10_0000_0000_0000,
                    );
                }
            }
        }
        r
    }
}

/// Promoting a magnitude of at most `2^53` is exact: the resulting bit
/// pattern denotes exactly that number.
proof fn lemma_promote_mag_exact(m: nat)
    requires
        1 <= m <= pow2(53),
    ensures
        promote_mag_bits(m) < 0x8000_0000_0000_0000,
        scaled_mag(promote_mag_bits(m) as nat) == m * pow2(1074),
{
    lemma2_to64();
    lemma2_to64_rest();
    lemma_bit_len_bounds(m);
    let n = (bit_len(m) - 1) as nat;
    assert(n <= 53) by {
        if n > 53 {
            lemma_pow2_strictly_increases(53, n);
        }
    }
    if n <= 52 {
        let sh = pow2((52 - n) as nat);
        let ff = m * sh;
        lemma_pow2_pos((52 - n) as nat);
        assert(ff < pow2(53)) by {
            lemma_mul_strict_inequality(m as int, pow2((n + 1) as nat) as int, sh as int);
            lemma_pow2_adds((n + 1) as nat, (52 - n) as nat);
        }
        assert(ff >= pow2(52)) by {
            lemma_mul_inequality(pow2(n) as int, m as int, sh as int);
            lemma_pow2_adds(n, (52 - n) as nat);
        }
        let e = n + 1023;
        let bits = (e * 0x10_0000_0000_0000 + (ff - 0x10_0000_0000_0000)) as int;
        assert(e * 0x10_0000_0000_0000 <= 1075 * 0x10_0000_0000_0000) by {
            lemma_mul_inequality(e as int, 1075, 0x10_0000_0000_0000);
        }
        vstd::arithmetic::div_mod::lemma_fundamental_div_mod_converse(
            bits,
            0x10_0000_0000_0000,
            e as int,
            ff - 0x10_0000_0000_0000,
        );
        assert(scaled_mag(bits as nat) == ff * pow2((e - 1) as nat));
        assert(ff * pow2((e - 1) as nat) == m * pow2(1074)) by {
            vstd::arithmetic::mul::lemma_mul_is_associative(
                m as int,
                sh as int,
                pow2((e - 1) as nat) as int,
            );
            lemma_pow2_adds((52 - n) as nat, (e - 1) as nat);
            assert((52 - n) + (e - 1) == 1074);
        }
    } else {
        assert(m == pow2(53)) by {
            lemma_pow2_adds(53, 0);
        }
        let s: nat = 1;
        assert(pow2(1) == 2);
        let q = m / 2;
        assert(q == pow2(52)) by {
            vstd::arithmetic::power2::lemma_pow2_subtracts(1, 53);
        }
        assert(m % 2 == 0) by {
            vstd::arithmetic::div_mod::lemma_fundamental_div_mod_converse(
                m as int,
                2,
                pow2(52) as int,
                0,
            );
        }
        assert(pow2((s - 1) as nat) == 1);
        let e = n + 1023;
        let bits = (e * 0x10_0000_0000_0000) as int;
        vstd::arithmetic::div_mod::lemma_fundamental_div_mod_converse(
            bits,
            0x10_0000_0000_0000,
            e as int,
            0,
        );
        assert(scaled_mag(bits as nat) == pow2(52) * pow2((e - 1) as nat));
        lemma_pow2_adds(52, (e - 1) as nat);
        lemma_pow2_adds(53, 1074);
        assert(m * pow2(1074) == pow2(53) * pow2(1074));
    }
}

/// Promotion is exact on integers of magnitude at most `2^53`: the
/// promoted float denotes exactly the integer, so comparing such an
/// integer against a float through promotion is comparison by numeric
/// value.
pub proof fn lemma_promotion_exact(i: int)
    requires
        -pow2(53) <= i <= pow2(53),
    ensures
        f64_scaled(i64_to_f64_bits(i)) == i * pow2(1074),
{
    lemma2_to64();
    lemma2_to64_rest();
    if i == 0 {
        assert(f64_scaled(0) == 0);
    } else if i > 0 {
        lemma_promote_mag_exact(i as nat);
        let bits = promote_mag_bits(i as nat);
        vstd::arithmetic::div_mod::lemma_small_mod(bits as nat, 0x8000_0000_0000_0000);
    } else {
        let m = (-i) as nat;
        lemma_promote_mag_exact(m);
        let mb = promote_mag_bits(m);
        let bits = (0x8000_0000_0000_0000 + mb) as u64;
        vstd::arithmetic::div_mod::lemma_fundamental_div_mod_converse(
            bits as int,
            0x8000_0000_0000_0000,
            1,
            mb as int,
        );
        assert(bits % 0x8000_0000_0000_0000 == mb);
        assert(f64_scaled(bits) == -scaled_mag(mb as nat));
        assert(i * pow2(1074) == -(m * pow2(1074))) by {
            vstd::arithmetic::mul::lemma_mul_is_distributive_sub_other_way(
                pow2(1074) as int,
                0,
                m as int,
            );
        }
    }
}

/// Byte-wise lexicographic order.
pub open spec fn spec_cmp_bytes(x: Seq<u8>, y: Seq<u8>) -> Ordering
    decreases x.len(),
{
    if x.len() == 0 && y.len() == 0 {
        Ordering::Equal
    } else if x.len() == 0 {
        Ordering::Less
    } else if y.len() == 0 {
        Ordering::Greater
    } else if x[0] < y[0] {
        Ordering::Less
    } else if x[0] > y[0] {
        Ordering::Greater
    } else {
        spec_cmp_bytes(x.subrange(1, x.len() as int), y.subrange(1, y.len() as int))
    }
}

/// Compares two byte slices lexicographically.
fn cmp_bytes(x: &[u8], y: &[u8]) -> (r: Ordering)
    ensures
        r == spec_cmp_bytes(x@, y@),
{
    let xn = x.len();
    let yn = y.len();
    let mut i: usize = 0;
    proof {
        assert(x@.subrange(0, xn as int) =~= x@);
        assert(y@.subrange(0, yn as int) =~= y@);
    }
    loop
        invariant
            0 <= i <= xn,
            i <= yn,
            xn == x@.len(),
            yn == y@.len(),
            spec_cmp_bytes(x@, y@) == spec_cmp_bytes(
                x@.subrange(i as int, xn as int),
                y@.subrange(i as int, yn as int),
            ),
        decreases xn - i,
    {
        let ghost xs = x@.subrange(i as int, xn as int);
        let ghost ys = y@.subrange(i as int, yn as int);
        if i == xn || i == yn {
            if xn == yn {
                return Ordering::Equal;
            } else if i == xn {
                return Ordering::Less;
            } else {
                return Ordering::Greater;
            }
        }
        let a = x[i];
        let b = y[i];
        proof {
            assert(xs[0] == x@[i as int]);
            assert(ys[0] == y@[i as int]);
            assert(xs.subrange(1, xs.len() as int) =~= x@.subrange(i + 1, xn as int));
            assert(ys.subrange(1, ys.len() as int) =~= y@.subrange(i + 1, yn as int));
        }
        if a < b {
            return Ordering::Less;
        } else if a > b {
            return Ordering::Greater;
        }
        i = i + 1;
    }
}

/// The collation order of two values, or nothing where the order is not
/// defined: a NaN float against a numeric, aggregate accumulators of unlike
/// variants, or a record against anything but a record.
pub open spec fn spec_cmp_values(a: ValueView, b: ValueView) -> Option<Ordering>
    decreases a, b,
    via spec_cmp_values_decreases
{
    match (a, b) {
        (ValueView::Agg(x), ValueView::Agg(y)) => {
            let fx = agg_final_view(*x);
            let fy = agg_final_view(*y);
            match (fx, fy) {
                (ValueView::Null, ValueView::Null) => Some(Ordering::Equal),
                (ValueView::Null, _) => Some(Ordering::Less),
                (_, ValueView::Null) => Some(Ordering::Greater),
                _ => spec_cmp_values(fx, fy),
            }
        },
        (ValueView::Agg(x), _) => {
            let f = agg_final_view(*x);
            match f {
                ValueView::Null => match b {
                    ValueView::Null => Some(Ordering::Equal),
                    _ => Some(Ordering::Less),
                },
                _ => spec_cmp_values(f, b),
            }
        },
        (_, ValueView::Agg(y)) => {
            let f = agg_final_view(*y);
            match f {
                ValueView::Null => match a {
                    ValueView::Null => Some(Ordering::Equal),
                    _ => Some(Ordering::Greater),
                },
                _ => spec_cmp_values(a, f),
            }
        },
        (ValueView::Null, ValueView::Null) => Some(Ordering::Equal),
        (ValueView::Null, _) => Some(Ordering::Less),
        (_, ValueView::Null) => Some(Ordering::Greater),
        (ValueView::Integer(x), ValueView::Integer(y)) => Some(ord_of(x, y)),
        (ValueView::Integer(x), ValueView::Float(y)) => if f64_is_nan(y) {
            None
        } else {
            Some(ord_of(f64_scaled(i64_to_f64_bits(x)), f64_scaled(y)))
        },
        (ValueView::Float(x), ValueView::Integer(y)) => if f64_is_nan(x) {
            None
        } else {
            Some(ord_of(f64_scaled(x), f64_scaled(i64_to_f64_bits(y))))
        },
        (ValueView::Float(x), ValueView::Float(y)) => if f64_is_nan(x) || f64_is_nan(y) {
            None
        } else {
            Some(ord_of(f64_scaled(x), f64_scaled(y)))
        },
        (
            ValueView::Integer(_) | ValueView::Float(_),
            ValueView::Text(_, _) | ValueView::Blob(_),
        ) => Some(Ordering::Less),
        (
            ValueView::Text(_, _) | ValueView::Blob(_),
            ValueView::Integer(_) | ValueView::Float(_),
        ) => Some(Ordering::Greater),
        (ValueView::Text(x, _), ValueView::Text(y, _)) => Some(
            spec_cmp_bytes(encode_utf8(x), encode_utf8(y)),
        ),
        (ValueView::Text(_, _), ValueView::Blob(_)) => Some(Ordering::Less),
        (ValueView::Blob(_), ValueView::Text(_, _)) => Some(Ordering::Greater),
        (ValueView::Blob(x), ValueView::Blob(y)) => Some(spec_cmp_bytes(x, y)),
        (ValueView::Record(x), ValueView::Record(y)) => spec_cmp_records(x, y),
        _ => None,
    }
}

/// Field-wise order of two records: the first differing field decides, a
/// missing field sorts first.
pub open spec fn spec_cmp_records(x: Seq<ValueView>, y: Seq<ValueView>) -> Option<Ordering>
    decreases x, y,
{
    if x.len() == 0 && y.len() == 0 {
        Some(Ordering::Equal)
    } else if x.len() == 0 {
        Some(Ordering::Less)
    } else if y.len() == 0 {
        Some(Ordering::Greater)
    } else {
        match spec_cmp_values(x[0], y[0]) {
            None => None,
            Some(Ordering::Equal) => spec_cmp_records(
                x.subrange(1, x.len() as int),
                y.subrange(1, y.len() as int),
            ),
            Some(o) => Some(o),
        }
    }
}

#[via_fn]
proof fn spec_cmp_values_decreases(a: ValueView, b: ValueView) {
    match (a, b) {
        (ValueView::Agg(x), ValueView::Agg(y)) => {
            lemma_agg_final_decreases(a, *x);
            lemma_agg_final_decreases(b, *y);
        },
        (ValueView::Agg(x), _) => {
            lemma_agg_final_decreases(a, *x);
        },
        (_, ValueView::Agg(y)) => {
            lemma_agg_final_decreases(b, *y);
        },
        _ => {},
    }
}

/// An aggregate's final value sits below the aggregate in the structural
/// order, unless it is Null.
proof fn lemma_agg_final_decreases(a: ValueView, x: AggView)
    requires
        a == ValueView::Agg(Box::new(x)),
    ensures
        !(agg_final_view(x) is Null) ==> decreases_to!(a => agg_final_view(x)),
{
    assert(decreases_to!(a => a->Agg_0));
    assert(a->Agg_0 == Box::new(x));
    match x {
        AggView::Avg(acc, _) => {
            assert(decreases_to!(x => x->Avg_0));
        },
        AggView::Sum(acc) => {
            assert(decreases_to!(x => x->Sum_0));
        },
        AggView::Count(acc) => {
            assert(decreases_to!(x => x->Count_0));
        },
        AggView::Max(m) => {
            if let Some(v) = m {
                assert(decreases_to!(x => x->Max_0));
                assert(decreases_to!(x->Max_0 => x->Max_0->Some_0));
            }
        },
        AggView::Min(m) => {
            if let Some(v) = m {
                assert(decreases_to!(x => x->Min_0));
                assert(decreases_to!(x->Min_0 => x->Min_0->Some_0));
            }
        },
        AggView::GroupConcat(acc) => {
            assert(decreases_to!(x => x->GroupConcat_0));
        },
    }
}

impl OwnedValue {
    /// Compares two values under the collation order. Nothing is returned
    /// where the order is undefined: a NaN float against a numeric,
    /// aggregate accumulators of unlike variants, or a record against
    /// anything but a record.
    pub fn compare(&self, other: &Self) -> (r: Option<Ordering>)
        ensures
            r == spec_cmp_values(self@, other@),
        decreases self@, other@,
    {
        match (self, other) {
            (OwnedValue::Agg(x), OwnedValue::Agg(y)) => {
                let fx = x.final_value();
                let fy = y.final_value();
                proof {
                    lemma_agg_final_decreases(self@, crate::value::agg_view(**x));
                    lemma_agg_final_decreases(other@, crate::value::agg_view(**y));
                    assert(self@ == ValueView::Agg(Box::new(crate::value::agg_view(**x))));
                    assert(other@ == ValueView::Agg(Box::new(crate::value::agg_view(**y))));
                    assert(fx@ == agg_final_view(crate::value::agg_view(**x)));
                    assert(fy@ == agg_final_view(crate::value::agg_view(**y)));
                }
                match (&fx, &fy) {
                    (OwnedValue::Null, OwnedValue::Null) => Some(Ordering::Equal),
                    (OwnedValue::Null, _) => Some(Ordering::Less),
                    (_, OwnedValue::Null) => Some(Ordering::Greater),
                    _ => fx.compare(&fy),
                }
            },
            (OwnedValue::Agg(x), _) => {
                let f = x.final_value();
                proof {
                    lemma_agg_final_decreases(self@, crate::value::agg_view(**x));
                    assert(self@ == ValueView::Agg(Box::new(crate::value::agg_view(**x))));
                    assert(f@ == agg_final_view(crate::value::agg_view(**x)));
                }
                match f {
                    OwnedValue::Null => match other {
                        OwnedValue::Null => Some(Ordering::Equal),
                        _ => Some(Ordering::Less),
                    },
                    _ => f.compare(other),
                }
            },
            (_, OwnedValue::Agg(y)) => {
                let f = y.final_value();
                proof {
                    lemma_agg_final_decreases(other@, crate::value::agg_view(**y));
                    assert(other@ == ValueView::Agg(Box::new(crate::value::agg_view(**y))));
                    assert(f@ == agg_final_view(crate::value::agg_view(**y)));
                }
                match f {
                    OwnedValue::Null => match self {
                        OwnedValue::Null => Some(Ordering::Equal),
                        _ => Some(Ordering::Greater),
                    },
                    _ => self.compare(&f),
                }
            },
            (OwnedValue::Null, OwnedValue::Null) => Some(Ordering::Equal),
            (OwnedValue::Null, _) => Some(Ordering::Less),
            (_, OwnedValue::Null) => Some(Ordering::Greater),
            (OwnedValue::Integer(x), OwnedValue::Integer(y)) => {
                if x < y {
                    Some(Ordering::Less)
                } else if x == y {
                    Some(Ordering::Equal)
                } else {
                    Some(Ordering::Greater)
                }
            },
            (OwnedValue::Integer(x), OwnedValue::Float(y)) => {
                if is_nan_bits(*y) {
                    None
                } else {
                    let px = promote_i64(*x);
                    Some(cmp_f64_bits(px, *y))
                }
            },
            (OwnedValue::Float(x), OwnedValue::Integer(y)) => {
                if is_nan_bits(*x) {
                    None
                } else {
                    let py = promote_i64(*y);
                    Some(cmp_f64_bits(*x, py))
                }
            },
            (OwnedValue::Float(x), OwnedValue::Float(y)) => {
                if is_nan_bits(*x) || is_nan_bits(*y) {
                    None
                } else {
                    Some(cmp_f64_bits(*x, *y))
                }
            },
            (
                OwnedValue::Integer(_) | OwnedValue::Float(_),
                OwnedValue::Text(_) | OwnedValue::Blob(_),
            ) => Some(Ordering::Less),
            (
                OwnedValue::Text(_) | OwnedValue::Blob(_),
                OwnedValue::Integer(_) | OwnedValue::Float(_),
            ) => Some(Ordering::Greater),
            (OwnedValue::Text(x), OwnedValue::Text(y)) => Some(
                cmp_bytes(x.value.as_str().as_bytes(), y.value.as_str().as_bytes()),
            ),
            (OwnedValue::Text(_), OwnedValue::Blob(_)) => Some(Ordering::Less),
            (OwnedValue::Blob(_), OwnedValue::Text(_)) => Some(Ordering::Greater),
            (OwnedValue::Blob(x), OwnedValue::Blob(y)) => Some(
                cmp_bytes(x.as_slice(), y.as_slice()),
            ),
            (OwnedValue::Record(x), OwnedValue::Record(y)) => {
                proof {
                    assert(decreases_to!(self@ => self@->Record_0));
                    assert(decreases_to!(other@ => other@->Record_0));
                }
                cmp_records(x, y)
            },
            _ => None,
        }
    }
}

/// Tests a float bit pattern for NaN.
fn is_nan_bits(bits: u64) -> (r: bool)
    ensures
        r == f64_is_nan(bits),
{
    let e = (bits / 0x10_0000_0000_0000) % 0x800;
    let f = bits % 0x10_0000_0000_0000;
    e == 0x7ff && f != 0
}

/// Compares two records field by field.
fn cmp_records(x: &crate::value::OwnedRecord, y: &crate::value::OwnedRecord) -> (r: Option<
    Ordering,
>)
    ensures
        r == spec_cmp_records(x@, y@),
    decreases x@, y@,
{
    proof {
        crate::value::lemma_values_view_index(x.values@);
        crate::value::lemma_values_view_index(y.values@);
    }
    let xn = x.values.len();
    let yn = y.values.len();
    let mut i: usize = 0;
    proof {
        assert(x@.subrange(0, xn as int) =~= x@);
        assert(y@.subrange(0, yn as int) =~= y@);
    }
    loop
        invariant
            0 <= i <= xn,
            i <= yn,
            xn == x@.len(),
            yn == y@.len(),
            xn == x.values@.len(),
            yn == y.values@.len(),
            x@ == crate::value::values_view(x.values@),
            y@ == crate::value::values_view(y.values@),
            forall|j: int| 0 <= j < xn ==> x@[j] == crate::value::value_view(x.values@[j]),
            forall|j: int| 0 <= j < yn ==> y@[j] == crate::value::value_view(y.values@[j]),
            spec_cmp_records(x@, y@) == spec_cmp_records(
                x@.subrange(i as int, xn as int),
                y@.subrange(i as int, yn as int),
            ),
        decreases x@, y@, xn - i,
    {
        let ghost xs = x@.subrange(i as int, xn as int);
        let ghost ys = y@.subrange(i as int, yn as int);
        if i == xn || i == yn {
            if xn == yn {
                return Some(Ordering::Equal);
            } else if i == xn {
                return Some(Ordering::Less);
            } else {
                return Some(Ordering::Greater);
            }
        }
        proof {
            assert(xs[0] == x@[i as int]);
            assert(ys[0] == y@[i as int]);
            assert(decreases_to!(x@ => x@[i as int]));
            assert(xs.subrange(1, xs.len() as int) =~= x@.subrange(i + 1, xn as int));
            assert(ys.subrange(1, ys.len() as int) =~= y@.subrange(i + 1, yn as int));
        }
        let c = x.values[i].compare(&y.values[i]);
        match c {
            None => {
                return None;
            },
            Some(Ordering::Equal) => {},
            Some(o) => {
                return Some(o);
            },
        }
        i = i + 1;
    }
}

impl PartialOrd for OwnedValue {
    /// The collation order, exposed through the standard comparison
    /// operators.
    fn partial_cmp(&self, other: &Self) -> (r: Option<Ordering>) {
        self.compare(other)
    }
}

impl vstd::std_specs::cmp::PartialOrdSpecImpl for OwnedValue {
    open spec fn obeys_partial_cmp_spec() -> bool {
        true
    }

    open spec fn partial_cmp_spec(&self, other: &Self) -> Option<Ordering> {
        spec_cmp_values(self@, other@)
    }
}

impl OwnedValue {
    /// The collation order as a total comparison; the operands must be
    /// comparable.
    pub fn cmp(&self, other: &Self) -> (r: Ordering)
        requires
            spec_cmp_values(self@, other@) is Some,
        ensures
            Some(r) == spec_cmp_values(self@, other@),
    {
        match self.compare(other) {
            Some(o) => o,
            None => {
                proof {
                    assert(false);
                }
                Ordering::Equal
            },
        }
    }
}

} // verus!
