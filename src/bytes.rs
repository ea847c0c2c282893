use vstd::prelude::*;

use crate::repr_bytes::ReprBytes;

verus! {

/// Width of the lanes in which two values are compared.
pub const LANE: usize = 16;

/// An owned value of exactly `N` bytes.
#[derive(Clone, Copy, Debug, Eq, PartialOrd, Ord, Hash)]
pub struct Bytes<const N: usize>([u8; N]);

impl<const N: usize> View for Bytes<N> {
    type V = Seq<u8>;

    closed spec fn view(&self) -> Seq<u8> {
        self.0@
    }
}

/// `acc | (x ^ y)` is zero exactly when `acc` is zero and `x == y`.
proof fn lemma_fold_difference(acc: u8, x: u8, y: u8)
    ensures
        (acc | (x ^ y)) == 0 <==> (acc == 0 && x == y),
{
    assert((acc | (x ^ y)) == 0 <==> (acc == 0 && x == y)) by (bit_vector);
}

impl<const N: usize> Bytes<N> {
    /// A value has exactly `N` bytes.
    pub proof fn lemma_len(&self)
        ensures
            self@.len() == N,
    {
    }

    /// Whether the 16 bytes from `start` on agree in both arrays; all of
    /// them are looked at, whatever the first difference.
    fn lane_equal(a: &[u8; N], b: &[u8; N], start: usize) -> (r: bool)
        requires
            start + LANE <= N,
        ensures
            r == (a@.subrange(start as int, start + LANE) == b@.subrange(start as int, start + LANE)),
    {
        let mut acc: u8 = 0;
        let mut k: usize = 0;
        while k < LANE
            invariant
                k <= LANE,
                start + LANE <= N,
                a@.len() == N,
                b@.len() == N,
                (acc == 0) == (forall|j: int| start <= j < start + k ==> a@[j] == b@[j]),
            decreases LANE - k,
        {
            proof {
                lemma_fold_difference(acc, a@[start + k], b@[start + k]);
            }
            acc = acc | (a[start + k] ^ b[start + k]);
            k += 1;
        }
        let r = acc == 0;
        let ghost sa = a@.subrange(start as int, start + LANE);
        let ghost sb = b@.subrange(start as int, start + LANE);
        if r {
            assert(sa =~= sb);
        } else {
            let ghost j = choose|j: int| start <= j < start + LANE && a@[j] != b@[j];
            assert(sa[j - start] != sb[j - start]);
        }
        r
    }

    /// Whether the two values hold the same bytes.
    ///
    /// The bytes are compared in lanes of 16 and then one by one, and the
    /// comparison stops at the first lane that differs, so its time depends
    /// on where the values differ: it is no comparison for secrets.
    pub fn equals(&self, other: &Self) -> (r: bool)
        ensures
            r == (self@ == other@),
    {
        let a = &self.0;
        let b = &other.0;
        let mut i: usize = 0;
        while LANE <= N - i
            invariant
                i <= N,
                a@.len() == N,
                b@.len() == N,
                a@ == self@,
                b@ == other@,
                forall|j: int| 0 <= j < i ==> a@[j] == b@[j],
            decreases N - i,
        {
            if !Self::lane_equal(a, b, i) {
                assert(self@ != other@) by {
                    if self@ == other@ {
                        assert(a@.subrange(i as int, i + LANE) == b@.subrange(i as int, i + LANE));
                    }
                }
                return false;
            }
            assert forall|j: int| 0 <= j < i + LANE implies a@[j] == b@[j] by {
                if j >= i {
                    assert(a@.subrange(i as int, i + LANE)[j - i] == b@.subrange(i as int, i + LANE)[j - i]);
                }
            }
            i += LANE;
        }
        while i < N
            invariant
                i <= N,
                a@.len() == N,
                b@.len() == N,
                a@ == self@,
                b@ == other@,
                forall|j: int| 0 <= j < i ==> a@[j] == b@[j],
            decreases N - i,
        {
            if a[i] != b[i] {
                assert(self@[i as int] != other@[i as int]);
                return false;
            }
            i += 1;
        }
        assert(a@ =~= b@);
        true
    }
}

impl<const N: usize> PartialEq for Bytes<N> {
    fn eq(&self, other: &Self) -> (r: bool) {
        self.equals(other)
    }
}

impl<const N: usize> vstd::std_specs::cmp::PartialEqSpecImpl for Bytes<N> {
    open spec fn obeys_eq_spec() -> bool {
        true
    }

    open spec fn eq_spec(&self, other: &Self) -> bool {
        self@ == other@
    }
}

impl<const N: usize> ReprBytes<N> for Bytes<N> {
    open spec fn repr(&self) -> Seq<u8> {
        self@
    }

    fn from_bytes(input: [u8; N]) -> (r: Self)
        ensures
            r@ == input@,
    {
        Bytes(input)
    }

    fn as_bytes(&self) -> (r: [u8; N])
        ensures
            r@ == self@,
    {
        self.0
    }
}

impl<const N: usize> core::ops::Deref for Bytes<N> {
    type Target = [u8; N];

    fn deref(&self) -> (r: &[u8; N])
        ensures
            r@ == self@,
    {
        &self.0
    }
}

impl<const N: usize> AsRef<[u8]> for Bytes<N> {
    fn as_ref(&self) -> (r: &[u8])
        ensures
            r@ == self@,
    {
        &self.0
    }
}

impl<const N: usize> Default for Bytes<N> {
    fn default() -> (r: Self)
        ensures
            r@ == Seq::new(N as nat, |i: int| 0u8),
    {
        Self::zero()
    }
}

impl<const N: usize> Bytes<N> {
    /// `equals` agrees with comparing the bytes that `as_bytes` gives, and
    /// with `==` on values.
    pub proof fn lemma_equals_agreement(a: Bytes<N>, b: Bytes<N>)
        ensures
            (a@ == b@) == (a.repr() == b.repr()),
            (a@ == b@) == (a == b),
    {
        if a@ == b@ {
            assert(a.0 =~= b.0);
        }
    }
}

} // verus!
