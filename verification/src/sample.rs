use vstd::prelude::*;

use crate::bits::all_false;
use crate::utils::{
    bit_size_formula, build_seahash_functions, clamp_to_usize, hash_count_formula,
    optimal_bit_size, optimal_hash_count, valid_rate, SeaHashFn,
};
use crate::variants::counting_bloom::all_zero;
use crate::{BloomFilter, CountingBloomFilter, FilterError};

verus! {

/// Create a bloom filter which uses seahash for its underlying hash, sized
/// for `m` expected items at false-positive rate `rate_num / rate_den`.
/// Fails exactly when the rate is not strictly between zero and one, `m` is
/// zero, or the computed bit size is zero.
pub fn seahash_bloom_filter(m: usize, rate_num: u64, rate_den: u64) -> (r: Result<
    BloomFilter<SeaHashFn>,
    FilterError,
>)
    ensures
        r is Ok <==> (m > 0 && valid_rate(rate_num as int, rate_den as int) && clamp_to_usize(
            bit_size_formula(m as int, rate_num as int, rate_den as int),
        ) > 0),
        r matches Ok(f) ==> {
            &&& f@.wf()
            &&& f@.bits.len() == clamp_to_usize(
                bit_size_formula(m as int, rate_num as int, rate_den as int),
            )
            &&& f@.hashers.len() == hash_count_formula(m as int, f@.bits.len() as int)
            &&& f@.bits == all_false(f@.bits.len())
        },
        r matches Err(e) ==> e == FilterError::InvalidParameter,
{
    let bit_size = match optimal_bit_size(m, rate_num, rate_den) {
        Ok(b) => b,
        Err(e) => {
            return Err(e);
        },
    };
    if bit_size == 0 {
        return Err(FilterError::InvalidParameter);
    }
    let hash_count = optimal_hash_count(m, bit_size);
    let hashers = build_seahash_functions(hash_count);
    Ok(BloomFilter::new(bit_size, hashers))
}

/// Create a counting bloom filter which uses seahash for its underlying
/// hash, sized like `seahash_bloom_filter` and failing on the same inputs.
pub fn seahash_counting_bloom_filter(m: usize, rate_num: u64, rate_den: u64) -> (r: Result<
    CountingBloomFilter<SeaHashFn>,
    FilterError,
>)
    ensures
        r is Ok <==> (m > 0 && valid_rate(rate_num as int, rate_den as int) && clamp_to_usize(
            bit_size_formula(m as int, rate_num as int, rate_den as int),
        ) > 0),
        r matches Ok(f) ==> {
            &&& f@.wf()
            &&& f@.bits.len() == clamp_to_usize(
                bit_size_formula(m as int, rate_num as int, rate_den as int),
            )
            &&& f@.hashers.len() == hash_count_formula(m as int, f@.bits.len() as int)
            &&& f@.bits == all_false(f@.bits.len())
            &&& f@.counts == all_zero(f@.bits.len())
        },
        r matches Err(e) ==> e == FilterError::InvalidParameter,
{
    let bit_size = match optimal_bit_size(m, rate_num, rate_den) {
        Ok(b) => b,
        Err(e) => {
            return Err(e);
        },
    };
    if bit_size == 0 {
        return Err(FilterError::InvalidParameter);
    }
    let hash_count = optimal_hash_count(m, bit_size);
    let hashers = build_seahash_functions(hash_count);
    Ok(CountingBloomFilter::new(bit_size, hashers))
}

} // verus!
