use vstd::prelude::*;

use vstd::arithmetic::div_mod::{
    lemma_div_is_ordered, lemma_div_is_ordered_by_denominator, lemma_fundamental_div_mod_converse,
};
use vstd::arithmetic::mul::lemma_mul_inequality;
use vstd::arithmetic::power2::{lemma2_to64, lemma2_to64_rest, pow2};

use crate::FilterError;

verus! {

/// A hash function fixed at filter construction. One instance must map each
/// content to one unsigned integer, the same every time it is asked.
pub trait ContentHasher: Sized {
    /// The integer this hasher assigns to the given content.
    spec fn hash_spec(&self, content: Seq<char>) -> u64;

    /// Hash the content; the answer depends only on the hasher and the content.
    fn hash_content(&self, content: &str) -> (r: u64)
        ensures
            r == self.hash_spec(content@);
}

/// The digest seahash assigns to a string under the four given seeds.
pub uninterp spec fn sea_hash_of(k0: u64, k1: u64, k2: u64, k3: u64, content: Seq<char>) -> u64;

/// Relies on seahash::hash_seeded: the digest of a byte string under fixed
/// seeds is a pure function of the seeds and the bytes, the same in every
/// process and on every machine.
#[verifier::external_body]
fn sea_hash_digest(k0: u64, k1: u64, k2: u64, k3: u64, content: &str) -> (r: u64)
    ensures
        r == sea_hash_of(k0, k1, k2, k3, content@),
{
    seahash::hash_seeded(content.as_bytes(), k0, k1, k2, k3)
}

/// Relies on rand::random: draws a fresh value from the thread's generator;
/// nothing is promised of the value.
#[verifier::external_body]
fn random_seed() -> u64 {
    rand::random::<u64>()
}

/// A seahash-backed hash function, fully determined by its four seeds.
#[derive(Clone, Copy)]
pub struct SeaHashFn {
    k0: u64,
    k1: u64,
    k2: u64,
    k3: u64,
}

impl SeaHashFn {
    /// The hash function that seahash computes under the given seeds.
    pub fn with_seeds(k0: u64, k1: u64, k2: u64, k3: u64) -> (r: SeaHashFn)
        ensures
            forall|c: Seq<char>| #[trigger] r.hash_spec(c) == sea_hash_of(k0, k1, k2, k3, c),
    {
        SeaHashFn { k0, k1, k2, k3 }
    }
}

impl ContentHasher for SeaHashFn {
    closed spec fn hash_spec(&self, content: Seq<char>) -> u64 {
        sea_hash_of(self.k0, self.k1, self.k2, self.k3, content)
    }

    fn hash_content(&self, content: &str) -> (r: u64) {
        sea_hash_digest(self.k0, self.k1, self.k2, self.k3, content)
    }
}

/// Hash a content with the provided hasher.
pub fn hash<H: ContentHasher>(hasher: &H, content: &str) -> (r: u64)
    ensures
        r == hasher.hash_spec(content@),
{
    hasher.hash_content(content)
}

/// Build an n-sized collection of independently seeded seahash functions.
pub fn build_seahash_functions(n: usize) -> (r: Vec<SeaHashFn>)
    ensures
        r@.len() == n,
{
    let mut fns: Vec<SeaHashFn> = Vec::new();
    let mut i: usize = 0;
    while i < n
        invariant
            i <= n,
            fns@.len() == i as nat,
        decreases n - i,
    {
        let f = SeaHashFn::with_seeds(random_seed(), random_seed(), random_seed(), random_seed());
        fns.push(f);
        i = i + 1;
    }
    fns
}

/// Fixed-point scale used by the parameter calculations: 2^40.
pub const SCALE: u128 = 1099511627776;

/// floor(ln 2 * 2^40).
pub const LN2_FIXED: u128 = 762123384785;

/// floor((ln 2)^2 * 2^40).
pub const LN2_SQ_FIXED: u128 = 528263675403;

/// How many odd-power terms of the logarithm series are summed.
pub const SERIES_ROUNDS: u32 = 20;

/// The largest power-of-two multiple of `num` that is not above `den`.
pub open spec fn norm_divisor(num: int, den: int) -> int
    decreases den - num
        when 1 <= num
{
    if num * 2 <= den {
        norm_divisor(num * 2, den)
    } else {
        num
    }
}

/// How many doublings take `num` to its largest power-of-two multiple not
/// above `den`.
pub open spec fn norm_steps(num: int, den: int) -> nat
    decreases den - num
        when 1 <= num
{
    if num * 2 <= den {
        1 + norm_steps(num * 2, den)
    } else {
        0
    }
}

/// Sum of `rounds` terms `zpow / t`, where `zpow` gains a factor `z2 / SCALE`
/// and `t` grows by two from term to term; every division truncates.
pub open spec fn series_tail(z2: int, zpow: int, t: int, rounds: nat) -> int
    decreases rounds,
{
    if rounds == 0 {
        0
    } else {
        zpow / t + series_tail(z2, zpow * z2 / (SCALE as int), t + 2, (rounds - 1) as nat)
    }
}

/// The natural logarithm of `den / num` in units of 2^-40: the ratio is
/// normalized to `r` in [1, 2) by a power of two, and the series for
/// 2 atanh((r - 1) / (r + 1)) is summed. Every division truncates, so this
/// names one fixed computable approximation of the logarithm.
pub open spec fn ln_ratio_spec(num: int, den: int) -> int {
    let d = norm_divisor(num, den);
    let k = norm_steps(num, den);
    let r = den * (SCALE as int) / d;
    let z = (r - SCALE as int) * (SCALE as int) / (r + SCALE as int);
    let z2 = z * z / (SCALE as int);
    k * (LN2_FIXED as int) + 2 * series_tail(z2, z, 1, SERIES_ROUNDS as nat)
}

/// A valid false-positive rate lies strictly between zero and one.
pub open spec fn valid_rate(num: int, den: int) -> bool {
    0 < num < den
}

/// ceil(m * ln(den / num) / (ln 2)^2), in the library's fixed-point
/// arithmetic: the slot count that minimizes the false-positive probability
/// for `m` expected items at rate `num / den`.
pub open spec fn bit_size_formula(m: int, num: int, den: int) -> int {
    (m * ln_ratio_spec(num, den) + (LN2_SQ_FIXED as int - 1)) / (LN2_SQ_FIXED as int)
}

/// max(1, ceil(bit_size * ln 2 / m)), in the library's fixed-point
/// arithmetic: the hash-function count that minimizes the false-positive
/// probability for `m` expected items in `bit_size` slots.
pub open spec fn hash_count_formula(m: int, bit_size: int) -> int {
    let q = (bit_size * (LN2_FIXED as int) + (m * (SCALE as int) - 1)) / (m * (SCALE as int));
    if q < 1 {
        1
    } else {
        q
    }
}

/// `v`, stopped at the largest usize.
pub open spec fn clamp_to_usize(v: int) -> int {
    if v > usize::MAX as int {
        usize::MAX as int
    } else {
        v
    }
}

/// Compute `ln_ratio_spec(num, den)`: the natural logarithm of `den / num`
/// in units of 2^-40.
fn ln_ratio_fixed(num: u64, den: u64) -> (res: u128)
    requires
        1 <= num < den,
    ensures
        res as int == ln_ratio_spec(num as int, den as int),
        res <= 84 * SCALE,
{
    let mut d: u64 = num;
    let mut k: u32 = 0;
    proof {
        lemma2_to64();
        lemma2_to64_rest();
        assert(pow2(0) == 1);
    }
    while d <= den / 2
        invariant
            1 <= num < den,
            num <= d <= den,
            k <= 63,
            pow2(k as nat) <= d,
            norm_divisor(num as int, den as int) == norm_divisor(d as int, den as int),
            norm_steps(num as int, den as int) == k + norm_steps(d as int, den as int),
        decreases den - d,
    {
        proof {
            lemma2_to64();
            lemma2_to64_rest();
            assert(pow2(k as nat + 1) == 2 * pow2(k as nat)) by {
                vstd::arithmetic::power2::lemma_pow2_adds(1, k as nat);
            }
            assert(k < 63) by {
                if k == 63 {
                    assert(pow2(63) == 0x8000000000000000);
                    assert(d >= 0x8000000000000000);
                    assert(d * 2 > u64::MAX);
                }
            }
        }
        d = d * 2;
        k = k + 1;
    }
    proof {
        assert(norm_divisor(d as int, den as int) == d as int);
        assert(norm_steps(d as int, den as int) == 0);
    }
    let r = (den as u128) * SCALE / (d as u128);
    proof {
        let di = d as int;
        let deni = den as int;
        let s = SCALE as int;
        lemma_mul_inequality(deni, 2 * di - 1, s);
        assert((2 * di - 1) * s == 2 * di * s - s) by (nonlinear_arith);
        assert(di * (2 * s - 1) + (di - 1) == 2 * di * s - 1) by (nonlinear_arith);
        lemma_fundamental_div_mod_converse(di * (2 * s - 1) + (di - 1), di, 2 * s - 1, di - 1);
        lemma_div_is_ordered(deni * s, di * (2 * s - 1) + (di - 1), di);
        assert(r as int <= 2 * s - 1);
        lemma_fundamental_div_mod_converse(di * s, di, s, 0);
        lemma_div_is_ordered(di * s, deni * s, di);
        lemma_mul_inequality(di, deni, s);
        assert(r as int >= s);
    }
    let z = (r - SCALE) * SCALE / (r + SCALE);
    proof {
        let s = SCALE as int;
        lemma_mul_inequality((r - SCALE) as int, s, s);
        lemma_div_is_ordered((r - SCALE) as int * s, s * s, (r + SCALE) as int);
        lemma_div_is_ordered_by_denominator(s * s, 2 * s, (r + SCALE) as int);
        lemma_fundamental_div_mod_converse(s * s, 2 * s, s / 2, 0);
        assert(z <= SCALE / 2);
        lemma_mul_inequality(z as int, s, z as int);
        lemma_mul_inequality(z as int, s, s);
    }
    let z2 = z * z / SCALE;
    proof {
        let s = SCALE as int;
        lemma_div_is_ordered(z as int * z as int, s * s, s);
        lemma_fundamental_div_mod_converse(s * s, s, s, 0);
        assert(z2 <= SCALE);
    }
    let mut acc: u128 = 0;
    let mut zpow: u128 = z;
    let mut t: u128 = 1;
    let mut rounds: u32 = SERIES_ROUNDS;
    while rounds > 0
        invariant
            z <= SCALE,
            z2 as int == z as int * z as int / (SCALE as int),
            z2 <= SCALE,
            zpow <= SCALE,
            t as int == 1 + 2 * (SERIES_ROUNDS - rounds),
            rounds <= SERIES_ROUNDS,
            acc <= (SERIES_ROUNDS - rounds) * SCALE,
            acc as int + series_tail(z2 as int, zpow as int, t as int, rounds as nat)
                == series_tail(z2 as int, z as int, 1, SERIES_ROUNDS as nat),
        decreases rounds,
    {
        acc = acc + zpow / t;
        proof {
            let s = SCALE as int;
            lemma_mul_inequality(zpow as int, s, z2 as int);
            lemma_mul_inequality(z2 as int, s, s);
            lemma_div_is_ordered(zpow as int * z2 as int, s * s, s);
            lemma_fundamental_div_mod_converse(s * s, s, s, 0);
        }
        zpow = zpow * z2 / SCALE;
        t = t + 2;
        rounds = rounds - 1;
    }
    let res = (k as u128) * LN2_FIXED + 2 * acc;
    proof {
        assert(k as u128 * LN2_FIXED <= 63 * LN2_FIXED) by {
            lemma_mul_inequality(k as int, 63, LN2_FIXED as int);
        }
    }
    res
}

/// Calculate the optimal bit size for a bloom filter holding `m` expected
/// items at false-positive rate `rate_num / rate_den`, stopped at the largest
/// usize. Fails exactly when `m` is zero or the rate does not lie strictly
/// between zero and one.
pub fn optimal_bit_size(m: usize, rate_num: u64, rate_den: u64) -> (r: Result<usize, FilterError>)
    ensures
        r is Ok <==> (m > 0 && valid_rate(rate_num as int, rate_den as int)),
        r matches Ok(b) ==> b as int == clamp_to_usize(
            bit_size_formula(m as int, rate_num as int, rate_den as int),
        ),
        r matches Err(e) ==> e == FilterError::InvalidParameter,
{
    if m == 0 || rate_num == 0 || rate_num >= rate_den {
        return Err(FilterError::InvalidParameter);
    }
    let l = ln_ratio_fixed(rate_num, rate_den);
    proof {
        lemma_mul_inequality(m as int, u64::MAX as int, l as int);
        lemma_mul_inequality(l as int, 84 * SCALE as int, u64::MAX as int);
    }
    let total = (m as u128) * l;
    let q = (total + (LN2_SQ_FIXED - 1)) / LN2_SQ_FIXED;
    if q > usize::MAX as u128 {
        Ok(usize::MAX)
    } else {
        Ok(q as usize)
    }
}

/// Calculate the optimal hash count for a bloom filter of `bit_size` slots
/// holding `m` expected items; never less than one.
pub fn optimal_hash_count(m: usize, bit_size: usize) -> (r: usize)
    requires
        m > 0,
    ensures
        r as int == hash_count_formula(m as int, bit_size as int),
{
    proof {
        lemma_mul_inequality(m as int, u64::MAX as int, SCALE as int);
    }
    let ms = (m as u128) * SCALE;
    proof {
        lemma_mul_inequality(bit_size as int, u64::MAX as int, LN2_FIXED as int);
    }
    let q = ((bit_size as u128) * LN2_FIXED + (ms - 1)) / ms;
    proof {
        let s = SCALE as int;
        let msi = ms as int;
        let n = bit_size as int;
        lemma_mul_inequality(1, m as int, s);
        lemma_mul_inequality(LN2_FIXED as int, msi, n);
        assert((n + 1) * msi == msi * n + msi) by (nonlinear_arith);
        lemma_fundamental_div_mod_converse(msi * n + (msi - 1), msi, n, msi - 1);
        lemma_div_is_ordered(n * LN2_FIXED as int + (msi - 1), msi * n + (msi - 1), msi);
        assert(q as int <= n);
    }
    if q < 1 {
        1
    } else {
        q as usize
    }
}

} // verus!
