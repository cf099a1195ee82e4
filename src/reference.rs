use vstd::prelude::*;

use vstd::bytes::{spec_u64_from_le_bytes, u64_from_le_bytes};
use vstd::slice::slice_subrange;

verus! {

/// Why a mean cannot be taken.
#[derive(PartialEq, Eq, Structural, Clone, Copy, Debug)]
pub enum ReductionError {
    /// There is nothing to average.
    EmptyInput,
}

/// The samples of a reference stream: the bit pattern of one little-endian
/// 64-bit float for each complete group of eight bytes. A trailing group of
/// fewer than eight bytes is not a sample.
pub open spec fn sample_words(b: Seq<u8>) -> Seq<u64> {
    Seq::new(b.len() / 8, |k: int| spec_u64_from_le_bytes(b.subrange(8 * k, 8 * k + 8)))
}

/// Decodes a reference stream into the bit patterns of its samples, in
/// order; fails when it holds no complete sample.
pub fn decode_reference(bytes: &[u8]) -> (r: Result<Vec<u64>, ReductionError>)
    ensures
        bytes@.len() < 8 ==> r == Err::<Vec<u64>, ReductionError>(ReductionError::EmptyInput),
        bytes@.len() >= 8 ==> r is Ok && r->Ok_0@ == sample_words(bytes@),
{
    let n = bytes.len() / 8;
    if n == 0 {
        return Err(ReductionError::EmptyInput);
    }
    let mut words: Vec<u64> = Vec::new();
    let mut k: usize = 0;
    let mut at: usize = 0;
    while k < n
        invariant
            n == bytes.len() / 8,
            k <= n,
            at == 8 * k,
            words@ =~= sample_words(bytes@).subrange(0, k as int),
        decreases n - k,
    {
        let group = slice_subrange(bytes, at, at + 8);
        let w = u64_from_le_bytes(group);
        words.push(w);
        k = k + 1;
        at = at + 8;
    }
    assert(words@ =~= sample_words(bytes@));
    Ok(words)
}

} // verus!
