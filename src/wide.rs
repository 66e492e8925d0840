//! Exact `floor(a * b / d)` on 128-bit amounts through a 256-bit intermediate
//! product, so that multiplying two balances before dividing never wraps.
use vstd::arithmetic::div_mod::*;
use vstd::arithmetic::mul::*;
use vstd::arithmetic::power2::*;
use vstd::prelude::*;

verus! {

/// 2^64, the base of the half-words used by the wide product.
pub open spec fn half_base() -> int {
    0x1_0000_0000_0000_0000
}

/// 2^128, the base of the two words of a 256-bit value.
pub open spec fn word_base() -> int {
    u128::MAX as int + 1
}

/// Dividing `x * c + y` by `c` takes `x` whole and divides `y` alone.
pub(crate) proof fn lemma_div_split(x: int, y: int, c: int)
    requires
        c > 0,
        x >= 0,
        y >= 0,
    ensures
        (x * c + y) / c == x + y / c,
        (x * c + y) % c == y % c,
{
    lemma_fundamental_div_mod(y, c);
    lemma_mod_pos_bound(y, c);
    assert(x * c + y == (x + y / c) * c + y % c) by (nonlinear_arith)
        requires
            y == c * (y / c) + y % c,
    ;
    lemma_fundamental_div_mod_converse(x * c + y, c, x + y / c, y % c);
}

proof fn lemma_split_product(w: int, x1: int, x0: int, y1: int, y0: int)
    ensures
        (w * x1 + x0) * (w * y1 + y0) == (x1 * y1) * (w * w) + (x0 * y1 + x1 * y0) * w + x0 * y0,
{
    broadcast use group_mul_properties;

    assert((w * x1 + x0) * (w * y1 + y0) == (w * x1) * (w * y1) + (w * x1) * y0 + x0 * (w * y1)
        + x0 * y0);
    assert((w * x1) * (w * y1) == (x1 * y1) * (w * w));
    assert((w * x1) * y0 == (x1 * y0) * w);
    assert(x0 * (w * y1) == (x0 * y1) * w);
}

proof fn lemma_half_word_product(x: int, y: int)
    requires
        0 <= x < half_base(),
        0 <= y < half_base(),
    ensures
        0 <= x * y <= (half_base() - 1) * (half_base() - 1),
        x * y < half_base() * (half_base() - 1),
{
    lemma_mul_nonnegative(x, y);
    let c = half_base() - 1;
    assert(x * y <= c * c) by (nonlinear_arith)
        requires
            0 <= x <= c,
            0 <= y <= c,
    ;
}

/// The full product of two words, as its high and low word.
fn wide_mul(a: u128, b: u128) -> (r: (u128, u128))
    ensures
        r.0 as int * word_base() + r.1 as int == a as int * b as int,
{
    let base: u128 = 0x1_0000_0000_0000_0000;
    let a1 = a / base;
    let a0 = a % base;
    let b1 = b / base;
    let b0 = b % base;
    proof {
        assert(half_base() * half_base() == word_base());
        lemma_multiply_divide_lt(a as int, half_base(), half_base());
        lemma_multiply_divide_lt(b as int, half_base(), half_base());
        lemma_half_word_product(a0 as int, b0 as int);
        lemma_half_word_product(a0 as int, b1 as int);
        lemma_half_word_product(a1 as int, b0 as int);
        lemma_half_word_product(a1 as int, b1 as int);
    }
    let p00 = a0 * b0;
    let p01 = a0 * b1;
    let p10 = a1 * b0;
    let p11 = a1 * b1;
    proof {
        lemma_multiply_divide_lt(p00 as int, half_base(), half_base() - 1);
        lemma_multiply_divide_lt(p01 as int, half_base(), half_base() - 1);
        lemma_multiply_divide_lt(p10 as int, half_base(), half_base() - 1);
    }
    let mid = p00 / base + p01 % base + p10 % base;
    proof {
        lemma_multiply_divide_lt(mid as int, half_base(), 3);
    }
    let lo = (mid % base) * base + p00 % base;
    let hi = p11 + p01 / base + p10 / base + mid / base;
    proof {
        let w = half_base();
        lemma_fundamental_div_mod(a as int, w);
        lemma_fundamental_div_mod(b as int, w);
        lemma_fundamental_div_mod(p00 as int, w);
        lemma_fundamental_div_mod(p01 as int, w);
        lemma_fundamental_div_mod(p10 as int, w);
        lemma_fundamental_div_mod(mid as int, w);
        lemma_split_product(w, a1 as int, a0 as int, b1 as int, b0 as int);
        let (q00, r00) = (p00 as int / w, p00 as int % w);
        let (q01, r01) = (p01 as int / w, p01 as int % w);
        let (q10, r10) = (p10 as int / w, p10 as int % w);
        let (qm, rm) = (mid as int / w, mid as int % w);
        assert(hi as int * (w * w) + lo as int == p11 as int * (w * w) + (p01 as int + p10 as int)
            * w + p00 as int) by (nonlinear_arith)
            requires
                p00 as int == w * q00 + r00,
                p01 as int == w * q01 + r01,
                p10 as int == w * q10 + r10,
                mid as int == w * qm + rm,
                mid as int == q00 + r01 + r10,
                lo as int == rm * w + r00,
                hi as int == p11 as int + q01 + q10 + qm,
        ;
    }
    (hi, lo)
}

/// Long division of the 256-bit value `hi * 2^128 + lo` by `d`, where `hi < d`
/// makes the quotient fit one word.
fn div_wide(hi: u128, lo: u128, d: u128) -> (r: (u128, u128))
    requires
        hi < d,
    ensures
        r.0 as int * d as int + r.1 as int == hi as int * word_base() + lo as int,
        r.1 < d,
{
    let ghost n: int = hi as int * word_base() + lo as int;
    let mut pow: u128 = 0x8000_0000_0000_0000_0000_0000_0000_0000;
    let ghost mut k: nat = 127;
    let ghost mut m: int = 1;
    let ghost mut bits: nat = 0;
    let mut q: u128 = 0;
    let mut rem: u128 = hi;
    proof {
        lemma2_to64();
        lemma2_to64_rest();
        lemma_pow2_adds(64, 63);
        assert(pow2(127) == pow2(64) * pow2(63));
        assert(pow2(127) == 0x8000_0000_0000_0000_0000_0000_0000_0000);
        lemma_div_split(hi as int, lo as int, word_base());
        lemma_small_div_converse(lo as int, word_base());
    }
    loop
        invariant
            pow as int == pow2(k),
            k <= 127,
            bits + k == 127,
            2 * pow * m == word_base(),
            m >= 1,
            q as int * d as int + rem as int == n / (2 * pow),
            rem < d,
            q < pow2(bits),
            n == hi as int * word_base() + lo as int,
        decreases k,
    {
        let bit = (lo / pow) % 2;
        proof {
            lemma_pow2_pos(k);
            lemma_pow2_pos(bits);
            let p = pow as int;
            lemma_div_split(hi as int * m, lo as int, 2 * p);
            lemma_div_split(hi as int * (2 * m), lo as int, p);
            assert(n == (hi as int * m) * (2 * p) + lo as int) by (nonlinear_arith)
                requires
                    n == hi as int * word_base() + lo as int,
                    2 * p * m == word_base(),
            ;
            assert(n == (hi as int * (2 * m)) * p + lo as int) by (nonlinear_arith)
                requires
                    n == hi as int * word_base() + lo as int,
                    2 * p * m == word_base(),
            ;
            lemma_div_denominator(lo as int, p, 2);
            lemma_fundamental_div_mod(lo as int / p, 2);
            assert(p * 2 == 2 * p);
            assert(hi as int * (2 * m) == 2 * (hi as int * m)) by (nonlinear_arith);
            assert(n / p == 2 * (n / (2 * p)) + bit as int);
            lemma_pow2_unfold(bits + 1);
            lemma_pow2_strictly_increases(bits, 128);
            lemma2_to64();
            lemma2_to64_rest();
            lemma_pow2_adds(64, 63);
            if bits < 127 {
                lemma_pow2_strictly_increases(bits, 127);
            }
            assert(pow2(128) == word_base()) by {
                lemma_pow2_adds(64, 64);
                assert(pow2(128) == pow2(64) * pow2(64));
            }
        }
        let ghost (q0, r0) = (q as int, rem as int);
        let t = d - rem;
        if rem + bit >= t {
            rem = rem + bit - t;
            q = 2 * q + 1;
            assert(q as int * d as int + rem as int == 2 * (q0 * d + r0) + bit) by (nonlinear_arith)
                requires
                    q as int == 2 * q0 + 1,
                    rem as int == r0 + bit - (d - r0),
            ;
        } else {
            rem = 2 * rem + bit;
            q = 2 * q;
            assert(q as int * d as int + rem as int == 2 * (q0 * d + r0) + bit) by (nonlinear_arith)
                requires
                    q as int == 2 * q0,
                    rem as int == 2 * r0 + bit,
            ;
        }
        proof {
            bits = bits + 1;
        }
        if pow == 1 {
            proof {
                lemma_div_basics(n);
            }
            return (q, rem);
        }
        proof {
            assert(k > 0) by {
                lemma2_to64();
            }
            lemma_pow2_unfold(k);
            let p = pow as int;
            assert(2 * (p / 2) * (2 * m) == 2 * p * m) by (nonlinear_arith)
                requires
                    p == 2 * pow2((k - 1) as nat),
            ;
            k = (k - 1) as nat;
            m = 2 * m;
        }
        pow = pow / 2;
    }
}

/// `a * b`, split into quotient and remainder by `d`; `None` exactly when the
/// quotient does not fit in 128 bits.
pub fn mul_div_rem(a: u128, b: u128, d: u128) -> (r: Option<(u128, u128)>)
    requires
        d > 0,
    ensures
        match r {
            Some((q, rem)) => q as int == (a as int * b as int) / d as int && rem as int == (a as int
                * b as int) % d as int,
            None => (a as int * b as int) / d as int > u128::MAX,
        },
{
    let (hi, lo) = wide_mul(a, b);
    let ghost n = a as int * b as int;
    if hi >= d {
        proof {
            lemma_mul_inequality(d as int, hi as int, word_base());
            lemma_div_is_ordered(d as int * word_base(), n, d as int);
            lemma_div_multiples_vanish(word_base(), d as int);
        }
        return None;
    }
    let (q, rem) = div_wide(hi, lo, d);
    proof {
        lemma_fundamental_div_mod_converse(n, d as int, q as int, rem as int);
    }
    Some((q, rem))
}

/// Value of a 256-bit number held as its high and low word.
pub open spec fn pair_value(p: (u128, u128)) -> int {
    p.0 as int * word_base() + p.1 as int
}

/// 2^127, half of a word.
pub open spec fn half_word() -> int {
    0x8000_0000_0000_0000_0000_0000_0000_0000
}

proof fn lemma_pair_nonneg(p: (u128, u128))
    ensures
        0 <= p.0 as int * word_base() <= pair_value(p),
        pair_value(p) < (p.0 as int + 1) * word_base(),
{
    lemma_mul_nonnegative(p.0 as int, word_base());
    lemma_mul_is_distributive_add_other_way(word_base(), p.0 as int, 1);
}

/// A 256-bit value below `bound` words has a high word below `bound`.
pub(crate) proof fn lemma_pair_high(p: (u128, u128), bound: int)
    requires
        bound >= 0,
        pair_value(p) < bound * word_base(),
    ensures
        p.0 < bound,
{
    lemma_pair_nonneg(p);
    if p.0 >= bound {
        lemma_mul_inequality(bound, p.0 as int, word_base());
    }
}

fn pair_ge(a: (u128, u128), b: (u128, u128)) -> (r: bool)
    ensures
        r == (pair_value(a) >= pair_value(b)),
{
    proof {
        lemma_pair_nonneg(a);
        lemma_pair_nonneg(b);
        if a.0 > b.0 {
            lemma_mul_inequality(b.0 as int + 1, a.0 as int, word_base());
        }
        if a.0 < b.0 {
            lemma_mul_inequality(a.0 as int + 1, b.0 as int, word_base());
        }
    }
    a.0 > b.0 || (a.0 == b.0 && a.1 >= b.1)
}

fn pair_sub(a: (u128, u128), b: (u128, u128)) -> (r: (u128, u128))
    requires
        pair_value(a) >= pair_value(b),
    ensures
        pair_value(r) == pair_value(a) - pair_value(b),
{
    proof {
        lemma_pair_nonneg(a);
        lemma_pair_nonneg(b);
        if a.0 < b.0 {
            lemma_mul_inequality(a.0 as int + 1, b.0 as int, word_base());
        }
    }
    let ghost w = word_base();
    if a.1 >= b.1 {
        let r = (a.0 - b.0, a.1 - b.1);
        assert(pair_value(r) == pair_value(a) - pair_value(b)) by (nonlinear_arith)
            requires
                r.0 as int == a.0 - b.0,
                r.1 as int == a.1 - b.1,
                pair_value(r) == r.0 as int * w + r.1,
                pair_value(a) == a.0 as int * w + a.1,
                pair_value(b) == b.0 as int * w + b.1,
        ;
        r
    } else {
        let r = (a.0 - b.0 - 1, a.1 + (u128::MAX - b.1) + 1);
        assert(pair_value(r) == pair_value(a) - pair_value(b)) by (nonlinear_arith)
            requires
                r.0 as int == a.0 - b.0 - 1,
                r.1 as int == a.1 + w - b.1,
                pair_value(r) == r.0 as int * w + r.1,
                pair_value(a) == a.0 as int * w + a.1,
                pair_value(b) == b.0 as int * w + b.1,
        ;
        r
    }
}

fn pair_twice_plus(a: (u128, u128), bit: u128) -> (r: (u128, u128))
    requires
        a.0 < half_word(),
        bit <= 1,
    ensures
        pair_value(r) == 2 * pair_value(a) + bit,
{
    let h: u128 = 0x8000_0000_0000_0000_0000_0000_0000_0000;
    proof {
        lemma_multiply_divide_lt(a.1 as int, half_word(), 2);
        lemma_fundamental_div_mod(a.1 as int, half_word());
        lemma_mod_pos_bound(a.1 as int, half_word());
    }
    let r = (2 * a.0 + a.1 / h, 2 * (a.1 % h) + bit);
    proof {
        let w = word_base();
        let (qa, ra) = (a.1 as int / half_word(), a.1 as int % half_word());
        assert(pair_value(r) == 2 * pair_value(a) + bit) by (nonlinear_arith)
            requires
                w == 2 * half_word(),
                a.1 as int == half_word() * qa + ra,
                r.0 as int == 2 * a.0 + qa,
                r.1 as int == 2 * ra + bit,
                pair_value(r) == r.0 as int * w + r.1,
                pair_value(a) == a.0 as int * w + a.1,
        ;
    }
    r
}

/// Shifts the 128 bits of `w` into a long division by `d` whose quotient and
/// remainder so far are `q` and `r`.
fn div_word(w: u128, d: (u128, u128), q: (u128, u128), r: (u128, u128)) -> (res: (
    (u128, u128),
    (u128, u128),
))
    requires
        0 < pair_value(d) < half_word() * word_base(),
        pair_value(r) < pair_value(d),
        pair_value(q) * pair_value(d) + pair_value(r) < word_base(),
    ensures
        pair_value(res.0) * pair_value(d) + pair_value(res.1) == (pair_value(q) * pair_value(d)
            + pair_value(r)) * word_base() + w,
        pair_value(res.1) < pair_value(d),
{
    let ghost dv = pair_value(d);
    let ghost pre = pair_value(q) * dv + pair_value(r);
    let ghost n: int = pre * word_base() + w as int;
    let mut pow: u128 = 0x8000_0000_0000_0000_0000_0000_0000_0000;
    let ghost mut k: nat = 127;
    let ghost mut m: int = 1;
    let mut quo = q;
    let mut rem = r;
    proof {
        lemma2_to64();
        lemma2_to64_rest();
        lemma_pow2_adds(64, 63);
        assert(pow2(127) == pow2(64) * pow2(63));
        assert(pow2(127) == 0x8000_0000_0000_0000_0000_0000_0000_0000);
        lemma_mul_nonnegative(pair_value(quo), dv);
        lemma_div_split(pre, w as int, word_base());
        lemma_small_div_converse(w as int, word_base());
    }
    loop
        invariant
            pow as int == pow2(k),
            k <= 127,
            2 * pow * m == word_base(),
            m >= 1,
            pair_value(quo) * dv + pair_value(rem) == n / (2 * pow),
            pair_value(rem) < dv,
            0 <= pre < word_base(),
            pre == pair_value(q) * dv + pair_value(r),
            n == pre * word_base() + w as int,
            dv == pair_value(d),
            0 < dv < half_word() * word_base(),
        decreases k,
    {
        let bit = (w / pow) % 2;
        proof {
            lemma_pow2_pos(k);
            let p = pow as int;
            lemma_div_split(pre * m, w as int, 2 * p);
            lemma_div_split(pre * (2 * m), w as int, p);
            assert(n == (pre * m) * (2 * p) + w as int) by (nonlinear_arith)
                requires
                    n == pre * word_base() + w as int,
                    2 * p * m == word_base(),
            ;
            assert(n == (pre * (2 * m)) * p + w as int) by (nonlinear_arith)
                requires
                    n == pre * word_base() + w as int,
                    2 * p * m == word_base(),
            ;
            lemma_div_denominator(w as int, p, 2);
            lemma_fundamental_div_mod(w as int / p, 2);
            assert(p * 2 == 2 * p);
            assert(pre * (2 * m) == 2 * (pre * m)) by (nonlinear_arith);
            assert(n / p == 2 * (n / (2 * p)) + bit as int);
            // the quotient so far is at most n / 2 < 2^255
            assert(n < 2 * half_word() * word_base()) by (nonlinear_arith)
                requires
                    n == pre * word_base() + w as int,
                    0 <= pre < word_base(),
                    0 <= w < word_base(),
                    word_base() == 2 * half_word(),
            ;
            lemma_div_is_ordered_by_denominator(n, 2, 2 * p);
            assert(n < 2 * (half_word() * word_base())) by (nonlinear_arith)
                requires
                    n < 2 * half_word() * word_base(),
            ;
            lemma_multiply_divide_lt(n, 2, half_word() * word_base());
            lemma_pair_nonneg(quo);
            lemma_pair_nonneg(rem);
            assert(pair_value(quo) <= pair_value(quo) * dv) by (nonlinear_arith)
                requires
                    dv >= 1,
                    pair_value(quo) >= 0,
            ;
            lemma_pair_high(quo, half_word());
            lemma_pair_high(rem, half_word());
        }
        let ghost (q0, r0) = (pair_value(quo), pair_value(rem));
        let doubled = pair_twice_plus(rem, bit);
        if pair_ge(doubled, d) {
            rem = pair_sub(doubled, d);
            quo = pair_twice_plus(quo, 1);
            assert(pair_value(quo) * dv + pair_value(rem) == 2 * (q0 * dv + r0) + bit) by (nonlinear_arith)
                requires
                    pair_value(quo) == 2 * q0 + 1,
                    pair_value(rem) == 2 * r0 + bit - dv,
            ;
        } else {
            rem = doubled;
            quo = pair_twice_plus(quo, 0);
            assert(pair_value(quo) * dv + pair_value(rem) == 2 * (q0 * dv + r0) + bit) by (nonlinear_arith)
                requires
                    pair_value(quo) == 2 * q0,
                    pair_value(rem) == 2 * r0 + bit,
            ;
        }
        if pow == 1 {
            proof {
                lemma_div_basics(n);
                assert(pair_value(quo) * dv + pair_value(rem) == n);
            }
            return (quo, rem);
        }
        proof {
            assert(k > 0) by {
                lemma2_to64();
            }
            lemma_pow2_unfold(k);
            let p = pow as int;
            assert(2 * (p / 2) * (2 * m) == 2 * p * m) by (nonlinear_arith)
                requires
                    p == 2 * pow2((k - 1) as nat),
            ;
            k = (k - 1) as nat;
            m = 2 * m;
        }
        pow = pow / 2;
    }
}

/// Quotient and remainder of two 256-bit numbers, the divisor below 2^255.
pub fn div_pair(n: (u128, u128), d: (u128, u128)) -> (res: ((u128, u128), (u128, u128)))
    requires
        0 < pair_value(d) < half_word() * word_base(),
    ensures
        pair_value(res.0) == pair_value(n) / pair_value(d),
        pair_value(res.1) == pair_value(n) % pair_value(d),
{
    let zero: (u128, u128) = (0, 0);
    proof {
        assert(pair_value(zero) == 0);
        assert(pair_value(zero) * pair_value(d) == 0);
    }
    let (q, r) = div_word(n.0, d, zero, zero);
    proof {
        assert(pair_value(q) * pair_value(d) + pair_value(r) == n.0);
    }
    let (q, r) = div_word(n.1, d, q, r);
    proof {
        lemma_pair_nonneg(r);
        lemma_mul_nonnegative(pair_value(q), pair_value(d));
        lemma_fundamental_div_mod_converse(pair_value(n), pair_value(d), pair_value(q), pair_value(r));
    }
    (q, r)
}

/// `a * b` as a 256-bit number.
pub fn mul_wide(a: u128, b: u128) -> (r: (u128, u128))
    ensures
        pair_value(r) == a as int * b as int,
{
    wide_mul(a, b)
}

/// `floor(a * b / d)`; `None` exactly when it does not fit in 128 bits.
pub fn mul_div(a: u128, b: u128, d: u128) -> (r: Option<u128>)
    requires
        d > 0,
    ensures
        match r {
            Some(v) => v as int == (a as int * b as int) / d as int,
            None => (a as int * b as int) / d as int > u128::MAX,
        },
{
    match mul_div_rem(a, b, d) {
        Some((q, _)) => Some(q),
        None => None,
    }
}

} // verus!
