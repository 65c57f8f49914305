//! A small key that shares its words with a large one.

use vstd::prelude::*;

verus! {

/// The key of `new_dimension` words whose words are the first words of the
/// input key.
pub fn allocate_and_generate_new_reused_lwe_key(input_lwe_sk: &Vec<u64>, new_dimension: usize) -> (key:
    Vec<u64>)
    requires
        0 < new_dimension <= input_lwe_sk.len(),
    ensures
        key@ == input_lwe_sk@.subrange(0, new_dimension as int),
{
    let mut lwe_secret_key: Vec<u64> = Vec::with_capacity(new_dimension);
    let mut i: usize = 0;
    while i < new_dimension
        invariant
            i <= new_dimension <= input_lwe_sk.len(),
            lwe_secret_key@ == input_lwe_sk@.subrange(0, i as int),
        decreases new_dimension - i,
    {
        lwe_secret_key.push(input_lwe_sk[i]);
        proof {
            assert(lwe_secret_key@ =~= input_lwe_sk@.subrange(0, i + 1));
        }
        i += 1;
    }
    lwe_secret_key
}

} // verus!
