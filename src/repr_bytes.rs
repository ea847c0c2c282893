use vstd::prelude::*;

use crate::error::Error;

verus! {

/// An array of `N` zero bytes.
pub(crate) fn zero_array<const N: usize>() -> (r: [u8; N])
    ensures
        r@ == Seq::new(N as nat, |i: int| 0u8),
{
    let a: [u8; N] = vstd::array::array_fill_for_copy_types(0u8);
    assert(forall|i: int| 0 <= i < N ==> a@[i] == 0u8);
    assert(a@ =~= Seq::new(N as nat, |i: int| 0u8));
    a
}

/// A value that is stored as exactly `N` bytes.
pub trait ReprBytes<const N: usize>: Sized {
    /// The `N` bytes that stand for the value.
    spec fn repr(&self) -> Seq<u8>;

    /// Builds the value that the given bytes stand for.
    fn from_bytes(input: [u8; N]) -> (r: Self)
        ensures
            r.repr() == input@,
    ;

    /// The bytes that stand for the value.
    fn as_bytes(&self) -> (r: [u8; N])
        ensures
            r@ == self.repr(),
    ;

    /// The value whose bytes are all zero.
    fn zero() -> (r: Self)
        ensures
            r.repr() == Seq::new(N as nat, |i: int| 0u8),
    {
        Self::from_bytes(zero_array())
    }

    /// The bytes that stand for the value, as a vector.
    fn to_bytes(&self) -> (r: Vec<u8>)
        ensures
            r@ == self.repr(),
    {
        let a = self.as_bytes();
        let mut out: Vec<u8> = Vec::with_capacity(N);
        let mut i: usize = 0;
        while i < N
            invariant
                i <= N,
                a@.len() == N,
                out@ == a@.subrange(0, i as int),
            decreases N - i,
        {
            out.push(a[i]);
            i += 1;
            assert(out@ =~= a@.subrange(0, i as int));
        }
        assert(out@ =~= a@);
        out
    }

    /// Builds the value from a slice, which must hold exactly `N` bytes.
    fn from_slice(input: &[u8]) -> (r: Result<Self, Error>)
        ensures
            input@.len() == N ==> (r matches Ok(v) && v.repr() == input@),
            input@.len() != N ==> r == Err::<Self, Error>(
                Error::InvalidDataSize { expected: N, got: input@.len() as usize },
            ),
    {
        if input.len() != N {
            return Err(Error::InvalidDataSize { expected: N, got: input.len() });
        }
        let mut a = [0u8; N];
        let mut i: usize = 0;
        while i < N
            invariant
                i <= N,
                input@.len() == N,
                a@.len() == N,
                forall|j: int| 0 <= j < i ==> a@[j] == input@[j],
            decreases N - i,
        {
            a[i] = input[i];
            i += 1;
        }
        assert(a@ =~= input@);
        Ok(Self::from_bytes(a))
    }
}

} // verus!
