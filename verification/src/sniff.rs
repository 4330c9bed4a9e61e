//! Binary sniffing: classifies a byte buffer as binary or text by looking for
//! a NUL byte in a bounded leading sample.

use vstd::prelude::*;

verus! {

/// True when the leading `sample_size` bytes of `content` (or all of it, if
/// shorter) contain a NUL byte.
pub open spec fn is_binary_spec(content: Seq<u8>, sample_size: nat) -> bool {
    exists|i: int| 0 <= i < content.len() && i < sample_size && content[i] == 0u8
}

/// Checks if a buffer is binary: true when some byte of the leading sample
/// (at most `sample_size` bytes) is NUL.
pub fn is_binary(content: &[u8], sample_size: usize) -> (r: bool)
    ensures
        r == is_binary_spec(content@, sample_size as nat),
{
    let n = if content.len() > sample_size {
        sample_size
    } else {
        content.len()
    };
    let mut i: usize = 0;
    while i < n
        invariant
            0 <= i <= n,
            n <= content@.len(),
            n <= sample_size,
            n == sample_size || n == content@.len(),
            forall|j: int| 0 <= j < i ==> content@[j] != 0u8,
        decreases n - i,
    {
        if content[i] == 0 {
            return true;
        }
        i += 1;
    }
    false
}

} // verus!
