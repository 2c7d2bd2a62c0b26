//! The transform the sample plugin exposes over the plugin ABI: it flips
//! the lowest bit of every byte, in both directions. The application crate
//! wraps these functions in the C calling convention; the logic itself is
//! verified here.

use vstd::prelude::*;

verus! {

/// Why the sample transform failed (it never does; the variants exist so
/// the plugin can surface errors over the ABI).
#[derive(Clone, Copy, Debug)]
pub enum MutateError {
    Drive(&'static str),
    Revert(&'static str),
}

/// Every byte with its lowest bit flipped.
pub open spec fn sample_mask_spec(data: Seq<u8>) -> Seq<u8> {
    Seq::new(data.len(), |i: int| data[i] ^ 1)
}

/// Round-trip law for the sample transform: applying it twice restores
/// every byte sequence.
pub proof fn lemma_sample_roundtrip(data: Seq<u8>)
    ensures
        sample_mask_spec(sample_mask_spec(data)) == data,
{
    assert forall|i: int| 0 <= i < data.len() implies sample_mask_spec(sample_mask_spec(data))[i]
        == data[i] by {
        let b = data[i];
        assert((b ^ 1) ^ 1 == b) by (bit_vector);
    }
    assert(sample_mask_spec(sample_mask_spec(data)) =~= data);
}

/// Forward transform: flip the lowest bit of every byte.
#[verifier::loop_isolation(false)]
pub fn drive_mutation(data: &[u8], vec: &mut Vec<u8>) -> (r: Result<(), MutateError>)
    ensures
        r is Ok,
        final(vec)@ == sample_mask_spec(data@),
{
    vec.clear();
    let mut i: usize = 0;
    while i < data.len()
        invariant
            0 <= i <= data@.len(),
            vec@ == sample_mask_spec(data@).take(i as int),
        decreases data@.len() - i,
    {
        vec.push(data[i] ^ 1);
        proof {
            assert(vec@ =~= sample_mask_spec(data@).take(i + 1 as int));
        }
        i = i + 1;
    }
    proof {
        assert(sample_mask_spec(data@).take(data@.len() as int) =~= sample_mask_spec(data@));
    }
    Ok(())
}

/// Backward transform: the same bit flip, its own inverse.
pub fn revert_mutation(data: &[u8], vec: &mut Vec<u8>) -> (r: Result<(), MutateError>)
    ensures
        r is Ok,
        final(vec)@ == sample_mask_spec(data@),
{
    drive_mutation(data, vec)
}

} // verus!
