//! The distance between two texts.
//!
//! The distance is derived from a bigram-overlap similarity coefficient in
//! `[0, 1]`: the closer the coefficient is to one, the smaller the distance.
//! The coefficient arrives as the bit pattern of a double-precision number and
//! is scaled to the whole range of `usize` with exact integer arithmetic.

use vstd::prelude::*;
use vstd::arithmetic::power2::*;
use vstd::arithmetic::div_mod::*;

verus! {

/// Bit pattern of the double-precision number one: the coefficient of two
/// identical texts.
pub const UNIT_BITS: u64 = 0x3FF0_0000_0000_0000;

/// Smallest bit pattern with the sign bit set.
pub const SIGN_BITS: u64 = 0x8000_0000_0000_0000;

/// Two to the power 52: the weight of the implicit leading bit of a
/// double-precision mantissa.
pub const HIDDEN_BIT: u64 = 0x10_0000_0000_0000;

/// The bit pattern of the Sørensen–Dice coefficient that `strsim` computes
/// for two texts.
pub uninterp spec fn similarity_bits(a: Seq<char>, b: Seq<char>) -> u64;

/// Calls `strsim::sorensen_dice` and hands back the bit pattern of the
/// coefficient.
///
/// Trusted. The contract names the result, and claims of it what the
/// function's source shows: the coefficient depends on the two texts alone,
/// it does not change when they are swapped (it is computed from the size of
/// the intersection of the two bigram multisets and from the sum of the two
/// lengths), and for equal texts it is exactly one.
#[verifier::external_body]
pub(crate) fn coefficient_bits(a: &str, b: &str) -> (bits: u64)
    ensures
        bits == similarity_bits(a@, b@),
        bits == similarity_bits(b@, a@),
        a@ == b@ ==> bits == UNIT_BITS,
{
    strsim::sorensen_dice(a, b).to_bits()
}

/// The integer mantissa of a non-negative double-precision bit pattern,
/// with the implicit leading bit where the number is normal.
pub open spec fn mantissa(bits: u64) -> nat {
    if bits / HIDDEN_BIT == 0 {
        (bits % HIDDEN_BIT) as nat
    } else {
        (HIDDEN_BIT + bits % HIDDEN_BIT) as nat
    }
}

/// The number `k` for which a non-negative double-precision bit pattern
/// below one stands for `mantissa / 2^k`.
pub open spec fn scale(bits: u64) -> nat {
    if bits / HIDDEN_BIT == 0 {
        1074
    } else {
        (1075 - bits / HIDDEN_BIT) as nat
    }
}

/// `(1 - num / den) * usize::MAX`, rounded to the nearest integer, halves
/// upwards.
pub open spec fn scaled_complement(num: nat, den: nat) -> int {
    (2 * (den - num) * usize::MAX + den) / (2 * den as int)
}

/// The distance that belongs to the bit pattern of a coefficient.
///
/// A coefficient `c` in `[0, 1)` gives `round((1 - c) * usize::MAX)`. A
/// pattern of one or more (or one that is not a number) gives zero, a
/// negative one gives the largest distance.
pub open spec fn distance_from_bits(bits: u64) -> usize {
    if bits >= SIGN_BITS {
        usize::MAX
    } else if bits >= UNIT_BITS {
        0
    } else {
        scaled_complement(mantissa(bits), pow2(scale(bits))) as usize
    }
}

/// The distance between two texts.
pub open spec fn text_distance(a: Seq<char>, b: Seq<char>) -> usize {
    distance_from_bits(similarity_bits(a, b))
}

/// Two to the power `k`.
fn power_of_two(k: u64) -> (p: u128)
    requires
        k <= 126,
    ensures
        p == pow2(k as nat),
{
    let mut p: u128 = 1;
    let mut i: u64 = 0;
    proof {
        lemma2_to64();
    }
    while i < k
        invariant
            i <= k <= 126,
            p == pow2(i as nat),
        decreases k - i,
    {
        proof {
            lemma_pow2_unfold((i + 1) as nat);
            lemma_pow2_small(i as nat);
        }
        p = p * 2;
        i = i + 1;
    }
    p
}

/// Powers of two below `2^126` stay below `2^126`.
proof fn lemma_pow2_small(e: nat)
    requires
        e < 126,
    ensures
        pow2(e) <= 0x2000_0000_0000_0000_0000_0000_0000_0000,
{
    lemma2_to64();
    lemma2_to64_rest();
    lemma_pow2_adds(63, 62);
    assert(pow2(125) == 0x2000_0000_0000_0000_0000_0000_0000_0000) by {
        assert(pow2(63) == 0x8000_0000_0000_0000);
        assert(pow2(62) == 0x4000_0000_0000_0000);
        assert(0x8000_0000_0000_0000int * 0x4000_0000_0000_0000int
            == 0x2000_0000_0000_0000_0000_0000_0000_0000int) by (nonlinear_arith);
    }
    if e < 125 {
        lemma_pow2_strictly_increases(e, 125);
    }
}

/// A rounded quotient is the one integer whose multiples of the divisor
/// enclose the dividend.
proof fn lemma_scaled_complement(num: nat, den: nat, d: int)
    requires
        0 < den,
        2 * den * d <= 2 * (den - num) * usize::MAX + den < 2 * den * (d + 1),
    ensures
        scaled_complement(num, den) == d,
{
    let y = 2 * (den - num) * usize::MAX + den;
    let r = y - 2 * den * d;
    assert(2 * den * (d + 1) == 2 * den * d + 2 * den) by (nonlinear_arith);
    assert(y == d * (2 * den) + r) by (nonlinear_arith)
        requires
            r == y - 2 * den * d,
    ;
    lemma_fundamental_div_mod_converse(y, 2 * den as int, d, r);
}

/// Turns the bit pattern of a coefficient into a distance.
pub fn distance_of_bits(bits: u64) -> (d: usize)
    ensures
        d == distance_from_bits(bits),
{
    if bits >= SIGN_BITS {
        return usize::MAX;
    }
    if bits >= UNIT_BITS {
        return 0;
    }
    let e: u64 = bits / HIDDEN_BIT;
    let f: u64 = bits % HIDDEN_BIT;
    let m: u64 = if e == 0 { f } else { HIDDEN_BIT + f };
    let k: u64 = if e == 0 { 1074 } else { 1075 - e };
    let max: u128 = usize::MAX as u128;
    assert(m as nat == mantissa(bits) && k as nat == scale(bits) && 53 <= k);
    assert(m < 0x20_0000_0000_0000);
    assert(m * max <= 0x20_0000_0000_0000 * 0xFFFF_FFFF_FFFF_FFFF) by (nonlinear_arith)
        requires
            m < 0x20_0000_0000_0000,
            max <= 0xFFFF_FFFF_FFFF_FFFF,
    ;
    if k >= 118 {
        proof {
            let den = pow2(k as nat);
            lemma_pow2_large(k as nat);
            assert(2 * den * usize::MAX <= 2 * (den - m) * usize::MAX + den) by (nonlinear_arith)
                requires
                    2 * (m * max) <= den,
                    max == usize::MAX,
            ;
            assert(2 * (den - m) * usize::MAX + den < 2 * den * (usize::MAX + 1)) by (nonlinear_arith)
                requires
                    0 < den,
                    0 <= m,
            ;
            lemma_scaled_complement(m as nat, den, usize::MAX as int);
        }
        return usize::MAX;
    }
    let den: u128 = power_of_two(k);
    proof {
        lemma_pow2_small(k as nat);
        lemma_pow2_mantissa(k as nat);
    }
    let x: u128 = 2 * (m as u128 * max) + den - 1;
    let c: u128 = x / (2 * den);
    proof {
        let q = x as int / (2 * den as int);
        lemma_fundamental_div_mod(x as int, 2 * den as int);
        lemma_mod_bound(x as int, 2 * den as int);
        let r = x as int % (2 * den as int);
        assert(x == (2 * den) * q + r);
        assert(c == q);
        assert(c <= max) by (nonlinear_arith)
            requires
                x == (2 * den) * c + r,
                0 <= r,
                x == 2 * (m * max) + den - 1,
                m < den,
                0 <= max,
        ;
        let d = max - c;
        assert(2 * den * d <= 2 * (den - m) * max + den) by (nonlinear_arith)
            requires
                x == (2 * den) * c + r,
                r < 2 * den,
                x == 2 * (m * max) + den - 1,
                d == max - c,
        ;
        assert(2 * (den - m) * max + den < 2 * den * (d + 1)) by (nonlinear_arith)
            requires
                x == (2 * den) * c + r,
                0 <= r,
                x == 2 * (m * max) + den - 1,
                d == max - c,
        ;
        lemma_scaled_complement(m as nat, den as nat, d as int);
    }
    (max - c) as usize
}

/// From `2^118` on, a power of two is more than twice any mantissa scaled to
/// the range of `usize`.
proof fn lemma_pow2_large(e: nat)
    requires
        118 <= e,
    ensures
        2 * (0x20_0000_0000_0000 * 0xFFFF_FFFF_FFFF_FFFF) <= pow2(e),
{
    lemma2_to64();
    lemma2_to64_rest();
    lemma_pow2_adds(64, 54);
    assert(pow2(64) == 0x1_0000_0000_0000_0000);
    assert(pow2(54) == 0x40_0000_0000_0000);
    if 118 < e {
        lemma_pow2_strictly_increases(118, e);
    }
    assert(2 * (0x20_0000_0000_0000int * 0xFFFF_FFFF_FFFF_FFFFint)
        <= 0x1_0000_0000_0000_0000int * 0x40_0000_0000_0000int) by (nonlinear_arith);
}

/// From `2^53` on, a power of two is larger than any mantissa.
proof fn lemma_pow2_mantissa(e: nat)
    requires
        53 <= e,
    ensures
        0x20_0000_0000_0000 <= pow2(e),
{
    lemma2_to64_rest();
    if 53 < e {
        lemma_pow2_strictly_increases(53, e);
    }
}

/// A scaled complement lies in the range of `usize`, and it does not grow
/// when the fraction grows.
proof fn lemma_scaled_order(na: nat, da: nat, nb: nat, db: nat)
    requires
        0 < da,
        0 < db,
        na <= da,
        nb <= db,
        na * db <= nb * da,
    ensures
        0 <= scaled_complement(nb, db) <= scaled_complement(na, da) <= usize::MAX,
{
    let max = usize::MAX as int;
    let ya = 2 * (da - na) * max + da;
    let yb = 2 * (db - nb) * max + db;
    let qa = scaled_complement(na, da);
    let qb = scaled_complement(nb, db);
    lemma_fundamental_div_mod(ya, 2 * da as int);
    lemma_fundamental_div_mod(yb, 2 * db as int);
    lemma_mod_bound(ya, 2 * da as int);
    lemma_mod_bound(yb, 2 * db as int);
    let ra = ya % (2 * da as int);
    let rb = yb % (2 * db as int);
    assert(ya == (2 * da) * qa + ra);
    assert(yb == (2 * db) * qb + rb);
    assert(0 <= ya && 0 <= yb) by (nonlinear_arith)
        requires
            ya == 2 * (da - na) * max + da,
            yb == 2 * (db - nb) * max + db,
            na <= da,
            nb <= db,
            0 <= max,
    ;
    assert(0 <= qb) by (nonlinear_arith)
        requires
            yb == (2 * db) * qb + rb,
            0 <= yb,
            rb < 2 * db,
            0 < db,
    ;
    assert(qa <= max) by (nonlinear_arith)
        requires
            ya == (2 * da) * qa + ra,
            ya == 2 * (da - na) * max + da,
            0 <= ra,
            0 < da,
            0 <= na,
            0 <= max,
    ;
    assert(qb <= qa) by (nonlinear_arith)
        requires
            ya == (2 * da) * qa + ra,
            yb == (2 * db) * qb + rb,
            ya == 2 * (da - na) * max + da,
            yb == 2 * (db - nb) * max + db,
            0 <= ra < 2 * da,
            0 <= rb < 2 * db,
            0 < da,
            0 < db,
            na * db <= nb * da,
            0 <= max,
    ;
}

/// The distance never grows with the coefficient: of two bit patterns of
/// non-negative numbers, the one of the larger number gives the smaller
/// distance, or the same.
pub proof fn law_distance_descends(low: u64, high: u64)
    requires
        low <= high < SIGN_BITS,
    ensures
        distance_from_bits(high) <= distance_from_bits(low),
{
    if high < UNIT_BITS {
        let na = mantissa(low);
        let nb = mantissa(high);
        let ka = scale(low);
        let kb = scale(high);
        let da = pow2(ka);
        let db = pow2(kb);
        lemma_pow2_mantissa(ka);
        lemma_pow2_mantissa(kb);
        if ka == kb {
            assert(na * db <= nb * da) by (nonlinear_arith)
                requires
                    na <= nb,
                    da == db,
                    0 <= da,
            ;
        } else {
            lemma_pow2_adds((ka - kb) as nat, kb);
            lemma_pow2_strictly_increases(0, (ka - kb) as nat);
            lemma2_to64();
            assert(na * db <= nb * da) by (nonlinear_arith)
                requires
                    na <= 2 * nb,
                    da == pow2((ka - kb) as nat) * db,
                    pow2((ka - kb) as nat) >= 2,
                    0 <= db,
                    0 <= nb,
            ;
        }
        lemma_scaled_order(na, da, nb, db);
    }
}

/// The distance between two texts: zero where they are equal, the same in
/// both directions, and the smaller the more bigrams the two texts share.
pub fn dice(a: &str, b: &str) -> (d: usize)
    ensures
        d == text_distance(a@, b@),
        d == text_distance(b@, a@),
        a@ == b@ ==> d == 0,
{
    distance_of_bits(coefficient_bits(a, b))
}

} // verus!
