//! Pixel representations that a texture buffer can hand over as bytes.

use crate::pod::cast_bytes;
use vstd::layout::size_of;
use vstd::prelude::*;

verus! {

/// What a pixel representation is in memory.
pub trait TexelLayout: Sized {
    /// The value whose bytes are all zero.
    spec fn zero() -> Self;

    /// The bytes of the value, in the order in which memory holds them.
    spec fn bytes(self) -> Seq<u8>;

    /// Every byte of the zero value is zero.
    proof fn lemma_zero_bytes()
        ensures
            forall|i: int|
                0 <= i < Self::zero().bytes().len() ==> (#[trigger] Self::zero().bytes()[i])
                    == 0u8,
    ;
}

/// The bytes of `texels`, one texel after the other.
pub open spec fn texel_bytes<T: TexelLayout>(texels: Seq<T>) -> Seq<u8>
    decreases texels.len(),
{
    if texels.len() == 0 {
        Seq::empty()
    } else {
        texel_bytes(texels.drop_last()) + texels.last().bytes()
    }
}

/// A pixel representation of a fixed number of bytes, none of which is
/// padding: what a texture buffer stores and hands to a graphics device.
pub trait Texel: TexelLayout + Copy {
    /// The value whose bytes are all zero.
    fn zeroed() -> (texel: Self)
        ensures
            texel == Self::zero(),
    ;

    /// The bytes of `texels`, one texel after the other, as a view of the
    /// same memory.
    fn bytes_of(texels: &[Self]) -> (bytes: &[u8])
        ensures
            bytes@ == texel_bytes(texels@),
            bytes@.len() == texels@.len() * size_of::<Self>(),
    ;
}

/// The bytes of a sequence of byte arrays are the bytes of the arrays, one
/// array after the other: byte `c` of array `i` is byte `i * N + c`.
pub proof fn lemma_bytes_of_byte_arrays<const N: usize>(texels: Seq<[u8; N]>)
    ensures
        texel_bytes(texels).len() == texels.len() * N,
        forall|i: int, c: int|
            0 <= i < texels.len() && 0 <= c < N ==> texel_bytes(texels)[i * N + c]
                == #[trigger] texels[i]@[c],
    decreases texels.len(),
{
    if texels.len() > 0 {
        let front = texels.drop_last();
        lemma_bytes_of_byte_arrays(front);
        let n = N as int;
        let len = texels.len() as int;
        assert((len - 1) * n + n == len * n) by (nonlinear_arith);
        assert forall|i: int, c: int| 0 <= i < texels.len() && 0 <= c < N implies texel_bytes(
            texels,
        )[i * N + c] == #[trigger] texels[i]@[c] by {
            if i < len - 1 {
                assert(i * n + c < (len - 1) * n) by (nonlinear_arith)
                    requires
                        0 <= i < len - 1,
                        0 <= c < n,
                ;
                assert(front[i] == texels[i]);
            } else {
                assert(i * n + c - (len - 1) * n == c) by (nonlinear_arith)
                    requires
                        i == len - 1,
                ;
            }
        }
    }
}

impl<const N: usize> TexelLayout for [u8; N] {
    open spec fn zero() -> [u8; N] {
        [0u8;N]
    }

    open spec fn bytes(self) -> Seq<u8> {
        self@
    }

    proof fn lemma_zero_bytes() {
    }
}

impl<const N: usize> Texel for [u8; N] {
    fn zeroed() -> (texel: [u8; N]) {
        [0u8;N]
    }

    fn bytes_of(texels: &[[u8; N]]) -> (bytes: &[u8]) {
        let bytes = cast_bytes(texels);
        proof {
            lemma_bytes_of_byte_arrays(texels@);
            let n = N as int;
            assert forall|k: int| 0 <= k < bytes@.len() implies bytes@[k] == texel_bytes(
                texels@,
            )[k] by {
                let i = k / n;
                let c = k % n;
                assert(n > 0) by (nonlinear_arith)
                    requires
                        0 <= k < texels@.len() * n,
                ;
                vstd::arithmetic::div_mod::lemma_fundamental_div_mod(k, n);
                assert(0 <= i < texels@.len()) by (nonlinear_arith)
                    requires
                        0 <= k < texels@.len() * n,
                        n > 0,
                        k == n * i + c,
                        0 <= c < n,
                ;
                assert(i * n + c == k) by (nonlinear_arith)
                    requires
                        k == n * i + c,
                ;
                assert(bytes@[i * N + c] == texels@[i]@[c]);
            }
            assert(bytes@ =~= texel_bytes(texels@));
        }
        bytes
    }
}

} // verus!
