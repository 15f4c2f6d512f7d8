//! The one-time pad: byte-wise XOR of a data buffer with a key stream.

use vstd::prelude::*;
use crate::error::CipherError;

verus! {

/// Byte-wise XOR of `data` with the first `data.len()` bytes of `key`.
pub open spec fn xor_combine(data: Seq<u8>, key: Seq<u8>) -> Seq<u8>
    recommends
        data.len() <= key.len(),
{
    Seq::new(data.len(), |k: int| data[k] ^ key[k])
}

/// Combine `data` with `key` by XOR. The key must be at least as long as the
/// data; a shorter key is rejected as a length mismatch rather than silently
/// truncating the output. The output has exactly the length of `data`.
pub fn combine(data: &[u8], key: &[u8]) -> (r: Result<Vec<u8>, CipherError>)
    ensures
        data@.len() <= key@.len() ==> r is Ok && r->Ok_0@ == xor_combine(data@, key@),
        data@.len() > key@.len() ==> r == Err::<Vec<u8>, CipherError>(CipherError::LengthMismatch),
{
    if data.len() > key.len() {
        return Err(CipherError::LengthMismatch);
    }
    let mut out: Vec<u8> = Vec::new();
    let mut k: usize = 0;
    while k < data.len()
        invariant
            k <= data@.len() <= key@.len(),
            out@.len() == k,
            forall|i: int| 0 <= i < k ==> out@[i] == (data@[i] ^ key@[i]),
        decreases data@.len() - k,
    {
        out.push(data[k] ^ key[k]);
        k = k + 1;
    }
    assert(out@ =~= xor_combine(data@, key@));
    Ok(out)
}

/// The one-time pad is self-inverse: combining a buffer with the same
/// equal-length key twice gives back the original buffer.
pub proof fn lemma_combine_self_inverse(a: Seq<u8>, k: Seq<u8>)
    requires
        a.len() == k.len(),
    ensures
        xor_combine(xor_combine(a, k), k) == a,
{
    let once = xor_combine(a, k);
    assert forall|i: int| 0 <= i < a.len() implies xor_combine(once, k)[i] == a[i] by {
        let x = a[i];
        let y = k[i];
        assert((x ^ y) ^ y == x) by (bit_vector);
    }
    assert(xor_combine(once, k) =~= a);
}

} // verus!
