//! Threshold derivation and selection for stake-weighted sortition.
//!
//! A selection probability (a binary64 value in `[0, 1)`, handed over as
//! its raw bit pattern) is turned into an exact dyadic rational
//! `n / 2^k`, and from that into an integer threshold over the full
//! 128-bit output space: `(u128::MAX / 2^k) * n`, with the division
//! deliberately performed before the multiplication so the product cannot
//! overflow. A participant is selected when the 16-byte verifiable-random
//! sample, read as a little-endian 128-bit integer, falls below the
//! threshold.
use vstd::prelude::*;
use vstd::arithmetic::power2::{
    pow2, lemma_pow2_adds, lemma_pow2_strictly_increases, lemma_pow2_pos, lemma2_to64,
    lemma2_to64_rest,
};
use vstd::arithmetic::mul::lemma_mul_inequality;
use vstd::arithmetic::div_mod::{lemma_basic_div, lemma_fundamental_div_mod, lemma_mod_bound};

verus! {

/// Concrete values of the powers of two that the proofs below lean on.
proof fn lemma_pow2_named()
    ensures
        pow2(0) == 1,
        pow2(1) == 2,
        pow2(8) == 256,
        pow2(52) == SIG_WEIGHT,
        pow2(53) == 2 * SIG_WEIGHT,
        pow2(127) == 0x8000_0000_0000_0000_0000_0000_0000_0000,
        pow2(128) == 0x1_0000_0000_0000_0000_0000_0000_0000_0000,
{
    lemma2_to64();
    lemma2_to64_rest();
    lemma_pow2_adds(64, 63);
    lemma_pow2_adds(64, 64);
}

/// 2^52, the weight of the lowest exponent bit in a binary64 pattern.
pub const SIG_WEIGHT: u64 = 0x10_0000_0000_0000;

/// Bit pattern of 1.0 in binary64; every level must lie strictly below it.
pub const ONE_BITS: u64 = 0x3FF0_0000_0000_0000;

/// The integer significand of the binary64 value encoded by `bits`
/// (assumed non-negative): the stored fraction, plus the implicit
/// leading digit for normal numbers.
pub open spec fn level_sig(bits: u64) -> nat {
    if bits / SIG_WEIGHT == 0 {
        (bits % SIG_WEIGHT) as nat
    } else {
        (bits % SIG_WEIGHT + SIG_WEIGHT) as nat
    }
}

/// The power-of-two denominator exponent of the encoded value:
/// the value equals `level_sig(bits) / 2^level_shift(bits)`.
pub open spec fn level_shift(bits: u64) -> nat {
    if bits / SIG_WEIGHT == 0 {
        1074nat
    } else {
        (1075 - bits / SIG_WEIGHT) as nat
    }
}

/// Lowest terms of the dyadic rational `n / 2^k`.
pub open spec fn reduce_pow2(n: nat, k: nat) -> (nat, nat)
    decreases n,
{
    if n > 0 && n % 2 == 0 && k > 0 {
        reduce_pow2(n / 2, (k - 1) as nat)
    } else {
        (n, k)
    }
}

/// The threshold that a selection level in `[0, 1)` derives: with the
/// level in lowest terms `n / 2^k`, the value `(u128::MAX / 2^k) * n`
/// (zero when the level is zero or the denominator outgrows 128 bits).
pub open spec fn threshold_of_level(bits: u64) -> int {
    let nk = reduce_pow2(level_sig(bits), level_shift(bits));
    if nk.0 == 0 || nk.1 >= 128 {
        0
    } else {
        (u128::MAX as int / pow2(nk.1) as int) * nk.0
    }
}

/// 2^k as a 128-bit integer.
fn pow2_u128(k: u64) -> (r: u128)
    requires
        k < 128,
    ensures
        r as nat == pow2(k as nat),
{
    let mut i: u64 = 0;
    let mut d: u128 = 1;
    proof {
        lemma_pow2_named();
    }
    while i < k
        invariant
            i <= k,
            k < 128,
            d as nat == pow2(i as nat),
        decreases k - i,
    {
        proof {
            lemma_pow2_named();
            lemma_pow2_adds(i as nat, 1);
            lemma_pow2_strictly_increases(i as nat, 127);
        }
        d = d * 2;
        i = i + 1;
    }
    d
}

/// Derives the sortition threshold from a selection level.
///
/// `bits` is the bit pattern of a binary64 selection probability in
/// `[0, 1)` (hence the bound by the pattern of 1.0). The level is
/// decomposed exactly into `n / 2^k` in lowest terms and the threshold is
/// `(u128::MAX / 2^k) * n`: dividing first keeps the product within
/// 128 bits, which a floating multiplication at the extremes would not.
pub fn threshold_from_level(bits: u64) -> (t: u128)
    requires
        bits < ONE_BITS,
    ensures
        t as int == threshold_of_level(bits),
{
    let exp: u64 = bits / SIG_WEIGHT;
    let mut n: u64 = if exp == 0 { bits % SIG_WEIGHT } else { bits % SIG_WEIGHT + SIG_WEIGHT };
    let mut k: u64 = if exp == 0 { 1074 } else { 1075 - exp };
    proof {
        assert(n as nat == level_sig(bits));
        assert(k as nat == level_shift(bits));
        lemma_pow2_named();
        if exp == 0 {
            lemma_pow2_strictly_increases(52, 1074);
        } else {
            assert(exp <= 1022);
            if k > 53 {
                lemma_pow2_strictly_increases(53, k as nat);
            }
        }
        assert((n as nat) < pow2(k as nat));
    }
    if n == 0 {
        return 0;
    }
    while n % 2 == 0 && k > 0
        invariant
            n > 0,
            reduce_pow2(n as nat, k as nat)
                == reduce_pow2(level_sig(bits), level_shift(bits)),
            (n as nat) < pow2(k as nat),
        decreases n,
    {
        proof {
            lemma_pow2_named();
            lemma_pow2_adds((k - 1) as nat, 1);
        }
        n = n / 2;
        k = k - 1;
    }
    let ghost nk = reduce_pow2(level_sig(bits), level_shift(bits));
    proof {
        assert(reduce_pow2(n as nat, k as nat) == (n as nat, k as nat));
        assert(nk == (n as nat, k as nat));
    }
    if k >= 128 {
        proof {
            lemma_pow2_named();
            if k > 128 {
                lemma_pow2_strictly_increases(128, k as nat);
            }
            lemma_basic_div(u128::MAX as int, pow2(k as nat) as int);
            assert(u128::MAX as int / pow2(k as nat) as int == 0);
        }
        return 0;
    }
    let d: u128 = pow2_u128(k);
    let q: u128 = u128::MAX / d;
    proof {
        lemma_pow2_pos(k as nat);
        // q * d does not exceed u128::MAX, and n <= d - 1, so q * n fits.
        lemma_fundamental_div_mod(u128::MAX as int, d as int);
        lemma_mod_bound(u128::MAX as int, d as int);
        assert(d * q <= u128::MAX);
        lemma_mul_inequality(n as int, d as int - 1, q as int);
        assert((d - 1) * q == d * q - q) by (nonlinear_arith);
        assert(n * q <= u128::MAX);
        assert(q * n == n * q) by (nonlinear_arith);
    }
    q * (n as u128)
}

/// Halving a factor of `2^j` out of the significand cancels `j`
/// doublings of the denominator.
proof fn lemma_reduce_pow2_shift(n: nat, j: nat, k: nat)
    requires
        n % 2 == 1,
        j <= k,
    ensures
        reduce_pow2(n * pow2(j), k) == reduce_pow2(n, (k - j) as nat),
    decreases j,
{
    lemma_pow2_named();
    if j == 0 {
        assert(n * pow2(0) == n);
    } else {
        lemma_pow2_adds((j - 1) as nat, 1);
        lemma_pow2_pos((j - 1) as nat);
        assert(n * pow2(j) == 2 * (n * pow2((j - 1) as nat))) by (nonlinear_arith)
            requires pow2(j) == pow2((j - 1) as nat) * 2;
        let m = n * pow2(j);
        assert(n * pow2((j - 1) as nat) >= 1) by (nonlinear_arith)
            requires n >= 1, pow2((j - 1) as nat) >= 1;
        assert(m % 2 == 0 && m > 0 && m / 2 == n * pow2((j - 1) as nat));
        assert(reduce_pow2(m, k) == reduce_pow2(m / 2, (k - 1) as nat));
        lemma_reduce_pow2_shift(n, (j - 1) as nat, (k - 1) as nat);
    }
}

/// With full relative stake and a participation rate of one half, the
/// selection level is exactly one half, and the threshold it derives is
/// exactly half of the output space: `u128::MAX / 2`. The level is given
/// as the bit pattern of one half.
pub proof fn lemma_threshold_of_half()
    ensures
        threshold_of_level(0x3FE0_0000_0000_0000u64) == u128::MAX as int / 2,
{
    let bits = 0x3FE0_0000_0000_0000u64;
    lemma_pow2_named();
    assert(bits / SIG_WEIGHT == 0x3FE && bits % SIG_WEIGHT == 0);
    assert(level_sig(bits) == SIG_WEIGHT as nat);
    assert(level_shift(bits) == 53);
    lemma_reduce_pow2_shift(1, 52, 53);
    assert(1 * pow2(52) == pow2(52));
    assert(reduce_pow2(level_sig(bits), level_shift(bits)) == reduce_pow2(1, 1));
    assert(reduce_pow2(1nat, 1nat) == (1nat, 1nat));
    assert(threshold_of_level(bits) == (u128::MAX as int / 2) * 1);
}

/// The little-endian integer value of a byte string.
pub open spec fn le_value(s: Seq<u8>) -> nat
    decreases s.len(),
{
    if s.len() == 0 {
        0
    } else {
        (s[0] + 256 * le_value(s.subrange(1, s.len() as int))) as nat
    }
}

/// The little-endian value of `len` bytes stays below `2^(8 * len)`.
pub proof fn lemma_le_value_bound(s: Seq<u8>)
    ensures
        le_value(s) < pow2(8 * s.len()),
    decreases s.len(),
{
    if s.len() == 0 {
        lemma_pow2_named();
    } else {
        let tail = s.subrange(1, s.len() as int);
        lemma_le_value_bound(tail);
        lemma_pow2_adds(8, 8 * tail.len());
        lemma_pow2_named();
        assert(s[0] + 256 * le_value(tail) < 256 * pow2(8 * tail.len())) by (nonlinear_arith)
            requires s[0] < 256, le_value(tail) < pow2(8 * tail.len());
    }
}

/// Reads 16 bytes as a little-endian 128-bit integer.
pub fn le_bytes_to_u128(bytes: &[u8; 16]) -> (v: u128)
    ensures
        v as nat == le_value(bytes@),
{
    let mut v: u128 = 0;
    let mut i: usize = 16;
    proof {
        assert(bytes@.subrange(16, 16) =~= Seq::<u8>::empty());
    }
    while i > 0
        invariant
            i <= 16,
            v as nat == le_value(bytes@.subrange(i as int, 16)),
        decreases i,
    {
        i = i - 1;
        proof {
            let s = bytes@.subrange(i as int, 16);
            let tail = bytes@.subrange(i as int + 1, 16);
            assert(s[0] == bytes@[i as int]);
            assert(s.subrange(1, s.len() as int) =~= tail);
            assert(le_value(s) == s[0] + 256 * le_value(tail));
            lemma_le_value_bound(tail);
            lemma_pow2_named();
            lemma_pow2_adds(8, 120);
            if 8 * tail.len() < 120 {
                lemma_pow2_strictly_increases(8 * tail.len(), 120);
            }
        }
        v = (bytes[i] as u128) + 256 * v;
    }
    proof {
        assert(bytes@.subrange(0, 16) =~= bytes@);
    }
    v
}

/// Decides selection: the 16-byte verifiable-random sample, read as a
/// little-endian 128-bit integer, must fall strictly below the threshold.
/// The result is a pure function of the two arguments, so the decision is
/// the same on every replica and on every repeated call.
pub fn is_selected(random_output: &[u8; 16], threshold: u128) -> (r: bool)
    ensures
        r == (le_value(random_output@) < threshold),
{
    let v = le_bytes_to_u128(random_output);
    v < threshold
}

/// Selection is deterministic: any two results that meet `is_selected`'s
/// contract for the same sample bytes and threshold are the same boolean.
pub proof fn lemma_selection_deterministic(bytes: Seq<u8>, threshold: u128, r1: bool, r2: bool)
    requires
        r1 == (le_value(bytes) < threshold),
        r2 == (le_value(bytes) < threshold),
    ensures
        r1 == r2,
{
}

} // verus!
