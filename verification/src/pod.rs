//! The call into `bytemuck`, which the verifier takes on trust.

use vstd::layout::size_of;
use vstd::prelude::*;

verus! {

/// `bytemuck::cast_slice` from arrays of `N` bytes to bytes, which hands out
/// the memory of a slice as a slice of bytes without copying. Claimed: the
/// bytes are `N` for each array, which is an array's size, and byte `c` of
/// array `i` is byte `i * N + c` of the result. A cast to bytes never fails:
/// no alignment is stricter than that of a byte, and every size is a whole
/// number of bytes.
#[verifier::external_body]
pub(crate) fn cast_bytes<const N: usize>(items: &[[u8; N]]) -> (bytes: &[u8])
    ensures
        bytes@.len() == items@.len() * N,
        bytes@.len() == items@.len() * size_of::<[u8; N]>(),
        forall|i: int, c: int|
            0 <= i < items@.len() && 0 <= c < N ==> bytes@[i * N + c] == #[trigger] items@[i]@[c],
{
    bytemuck::cast_slice(items)
}

} // verus!
