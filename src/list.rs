use vstd::arithmetic::power2::{
    lemma2_to64, lemma2_to64_rest, lemma_pow2_pos, lemma_pow2_strictly_increases, pow2,
};
use vstd::bits::{low_bits_mask, lemma_u64_low_bits_mask_is_mod, lemma_u64_shl_is_mul};
use vstd::prelude::*;

use crate::error::Error;
use crate::packed::{
    bits_needed, bytes_per_value, envelope, envelope_decode, le_byte, le_value,
    lemma_bits_needed_at_most, lemma_bits_needed_bound, lemma_block, lemma_le_value_push_front,
    lemma_max_value, lemma_max_value_below, lemma_next_byte, max_value, packed_payload,
    read_value, ReprPacked, SENTINEL,
};

verus! {

/// An unsigned integer type that lists can hold: 16, 32 or 64 bits.
pub trait Element: Copy {
    /// The value as a natural number.
    spec fn value(self) -> nat;

    /// The number of bits of the type.
    spec fn bits() -> nat;

    /// The number of bits of the type.
    fn bit_count() -> (r: usize)
        ensures
            r == Self::bits(),
            r == 16 || r == 32 || r == 64,
    ;

    /// Every value fits the number of bits of the type.
    proof fn lemma_fits(self)
        ensures
            self.value() < pow2(Self::bits()),
    ;

    /// The value, widened.
    fn to_u64(self) -> (r: u64)
        ensures
            r == self.value(),
            r < pow2(Self::bits()),
    ;

    /// The value `v`, which fits the type.
    fn from_u64(v: u64) -> (r: Self)
        requires
            v < pow2(Self::bits()),
        ensures
            r.value() == v,
    ;
}

impl Element for u16 {
    open spec fn value(self) -> nat {
        self as nat
    }

    open spec fn bits() -> nat {
        16
    }

    proof fn lemma_fits(self) {
        lemma2_to64();
        lemma2_to64_rest();
    }

    fn bit_count() -> (r: usize) {
        16
    }

    fn to_u64(self) -> (r: u64) {
        proof {
            lemma2_to64();
        }
        self as u64
    }

    fn from_u64(v: u64) -> (r: Self) {
        proof {
            lemma2_to64();
        }
        v as u16
    }
}

impl Element for u32 {
    open spec fn value(self) -> nat {
        self as nat
    }

    open spec fn bits() -> nat {
        32
    }

    proof fn lemma_fits(self) {
        lemma2_to64();
        lemma2_to64_rest();
    }

    fn bit_count() -> (r: usize) {
        32
    }

    fn to_u64(self) -> (r: u64) {
        proof {
            lemma2_to64();
        }
        self as u64
    }

    fn from_u64(v: u64) -> (r: Self) {
        proof {
            lemma2_to64();
        }
        v as u32
    }
}

impl Element for u64 {
    open spec fn value(self) -> nat {
        self as nat
    }

    open spec fn bits() -> nat {
        64
    }

    proof fn lemma_fits(self) {
        lemma2_to64();
        lemma2_to64_rest();
    }

    fn bit_count() -> (r: usize) {
        64
    }

    fn to_u64(self) -> (r: u64) {
        proof {
            lemma2_to64();
            lemma2_to64_rest();
        }
        self
    }

    fn from_u64(v: u64) -> (r: Self) {
        v
    }
}

/// Exactly `N` unsigned values of type `T`.
#[derive(Clone, Copy, Debug, PartialEq, Eq)]
pub struct PackedList<T: Element, const N: usize>([T; N]);

/// A list of `N` values of 16 bits.
pub type ListU16<const N: usize> = PackedList<u16, N>;

/// A list of `N` values of 32 bits.
pub type ListU32<const N: usize> = PackedList<u32, N>;

/// A list of `N` values of 64 bits.
pub type ListU64<const N: usize> = PackedList<u64, N>;

impl<T: Element, const N: usize> View for PackedList<T, N> {
    type V = Seq<nat>;

    closed spec fn view(&self) -> Seq<nat> {
        self.0@.map_values(|x: T| x.value())
    }
}

impl<T: Element, const N: usize> PackedList<T, N> {
    /// The list of the given values.
    pub fn new(values: [T; N]) -> (r: Self)
        ensures
            r@ == values@.map_values(|x: T| x.value()),
    {
        PackedList(values)
    }

    /// The values, as an array.
    pub fn to_array(&self) -> (r: [T; N])
        ensures
            r@.map_values(|x: T| x.value()) == self@,
    {
        self.0
    }

    /// A list has `N` values, each of which fits its type.
    pub proof fn lemma_wf(&self)
        ensures
            self@.len() == N,
            forall|i: int| 0 <= i < N ==> #[trigger] self@[i] < pow2(T::bits()),
    {
        assert forall|i: int| 0 <= i < N implies #[trigger] self@[i] < pow2(T::bits()) by {
            self.0@[i].lemma_fits();
        }
    }
}

/// The payload of `n` values of `bits` bits is no longer than the values.
proof fn lemma_payload_fits(n: nat, bit_width: nat, bits: nat)
    requires
        bit_width <= bits,
        bits % 8 == 0,
        bits <= 64,
        n <= usize::MAX,
    ensures
        n * bit_width + 7 <= u128::MAX,
        (n * bit_width + 7) / 8 <= n * bits / 8,
{
    assert(n * bit_width <= n * bits) by (nonlinear_arith)
        requires
            bit_width <= bits,
    ;
    assert(n * bits <= usize::MAX * 64) by (nonlinear_arith)
        requires
            n <= usize::MAX,
            bits <= 64,
    ;
    let q = bits / 8;
    assert(n * bits == 8 * (n * q)) by (nonlinear_arith)
        requires
            bits == 8 * q,
    ;
}

/// The number of bits that `m` needs.
fn bit_length(m: u64) -> (r: usize)
    ensures
        r == bits_needed(m as nat),
        r <= 64,
{
    proof {
        lemma2_to64_rest();
        lemma_bits_needed_at_most(m as nat, 64);
    }
    let mut x = m;
    let mut k: usize = 0;
    while x != 0
        invariant
            bits_needed(m as nat) == k + bits_needed(x as nat),
            bits_needed(m as nat) <= 64,
        decreases x,
    {
        x = x / 2;
        k += 1;
    }
    k
}

/// The mask of the low `n` bits.
fn low_mask(n: usize) -> (r: u64)
    requires
        n <= 64,
    ensures
        r == low_bits_mask(n as nat),
{
    proof {
        lemma2_to64();
        lemma2_to64_rest();
    }
    if n < 64 {
        proof {
            lemma_pow2_strictly_increases(n as nat, 64);
            lemma_u64_shl_is_mul(1, n as u64);
        }
        (1u64 << (n as u64)) - 1
    } else {
        u64::MAX
    }
}

/// Keeping the low `n` bits of `x` is taking it modulo `2^n`.
proof fn lemma_mask(x: u64, n: nat)
    requires
        n <= 64,
    ensures
        x & (low_bits_mask(n) as u64) == x as nat % pow2(n),
        x as nat % pow2(n) < pow2(n),
{
    lemma_pow2_pos(n);
    if n < 64 {
        lemma_u64_low_bits_mask_is_mod(x, n);
        lemma_pow2_strictly_increases(n, 64);
        lemma2_to64_rest();
    } else {
        lemma2_to64_rest();
        assert(low_bits_mask(64) == 0xffff_ffff_ffff_ffff) by {
            vstd::bits::lemma_low_bits_mask_values();
        }
        assert(x & 0xffff_ffff_ffff_ffffu64 == x) by (bit_vector);
    }
}

/// Appends the `count` low bytes of `x`, least significant first.
fn push_le_bytes(out: &mut Vec<u8>, x: u64, count: usize)
    ensures
        final(out)@ == old(out)@ + Seq::new(count as nat, |k: int| le_byte(x as nat, k as nat)),
{
    let ghost start = out@;
    let mut y = x;
    let mut k: usize = 0;
    proof {
        lemma2_to64();
        assert(x as nat / pow2(0) == x);
    }
    while k < count
        invariant
            k <= count,
            y == x as nat / pow2(8 * k as nat),
            out@ == start + Seq::new(k as nat, |j: int| le_byte(x as nat, j as nat)),
        decreases count - k,
    {
        proof {
            lemma_next_byte(x as nat, k as nat);
        }
        out.push((y % 256) as u8);
        y = y / 256;
        k += 1;
        assert(out@ =~= start + Seq::new(k as nat, |j: int| le_byte(x as nat, j as nat)));
    }
}

/// The little-endian number in bytes `start` to `end` of `t`.
fn read_le(t: &[u8], start: usize, end: usize) -> (r: u64)
    requires
        start <= end <= t@.len(),
        end - start <= 8,
    ensures
        r == le_value(t@.subrange(start as int, end as int)),
{
    proof {
        lemma2_to64();
        lemma2_to64_rest();
    }
    let mut v: u64 = 0;
    let mut k = end;
    assert(t@.subrange(end as int, end as int) =~= Seq::<u8>::empty());
    while k > start
        invariant
            start <= k <= end <= t@.len(),
            end - start <= 8,
            v == le_value(t@.subrange(k as int, end as int)),
            v < pow2(8 * (end - k) as nat),
            pow2(64) == 0x1_0000_0000_0000_0000,
        decreases k - start,
    {
        k -= 1;
        let ghost rest = t@.subrange(k + 1, end as int);
        proof {
            lemma_le_value_push_front(rest, t@[k as int]);
            assert(seq![t@[k as int]] + rest =~= t@.subrange(k as int, end as int));
            if 8 * (end - k) < 64 {
                lemma_pow2_strictly_increases(8 * (end - k) as nat, 64);
            }
        }
        v = (t[k] as u64) + 256 * v;
    }
    v
}

impl<T: Element, const N: usize> ReprPacked for PackedList<T, N> {
    open spec fn values(&self) -> Seq<nat> {
        self@
    }

    open spec fn count() -> nat {
        N as nat
    }

    open spec fn value_bits() -> nat {
        T::bits()
    }

    fn pack(&self) -> (r: (usize, Vec<u8>)) {
        let bits = T::bit_count();
        proof {
            self.lemma_wf();
        }
        // The largest value decides the width.
        let mut m: u64 = 0;
        let mut i: usize = 0;
        while i < N
            invariant
                i <= N,
                self@.len() == N,
                m == max_value(self@.subrange(0, i as int)),
            decreases N - i,
        {
            let v = self.0[i].to_u64();
            proof {
                assert(self@.subrange(0, i + 1).drop_last() =~= self@.subrange(0, i as int));
                assert(self@[i as int] == v);
            }
            if v > m {
                m = v;
            }
            i += 1;
        }
        proof {
            assert(self@.subrange(0, N as int) =~= self@);
        }
        let bit_width = bit_length(m);
        let ghost bw = bit_width as nat;
        proof {
            lemma_pow2_pos(T::bits());
            lemma_max_value_below(self@, pow2(T::bits()));
            lemma_bits_needed_at_most(m as nat, T::bits());
            lemma_bits_needed_bound(m as nat);
            lemma_max_value(self@);
        }
        proof {
            lemma_payload_fits(N as nat, bw, T::bits());
        }
        let byte_size = ((N as u128 * bit_width as u128 + 7) / 8) as usize;
        let per = (bit_width + 7) / 8;
        let mask = low_mask(bit_width);
        let mut out: Vec<u8> = Vec::new();
        let mut i: usize = 0;
        while i < N
            invariant
                i <= N,
                self@.len() == N,
                bw == bit_width,
                bw <= 64,
                per == bytes_per_value(bw),
                mask == low_bits_mask(bw),
                forall|j: int| 0 <= j < N ==> #[trigger] self@[j] < pow2(bw),
                out@.len() == i * per,
                forall|p: int|
                    0 <= p < i * per ==> #[trigger] out@[p] == le_byte(
                        self@[p / per as int] % pow2(bw),
                        (p % per as int) as nat,
                    ),
            decreases N - i,
        {
            let v = self.0[i].to_u64();
            proof {
                lemma_mask(v, bw);
                assert(self@[i as int] == v);
            }
            let ghost before = out@;
            push_le_bytes(&mut out, v & mask, per);
            proof {
                assert forall|p: int| 0 <= p < (i + 1) * per implies #[trigger] out@[p] == le_byte(
                    self@[p / per as int] % pow2(bw),
                    (p % per as int) as nat,
                ) by {
                    if p >= i * per {
                        assert((i + 1) * per == i * per + per) by (nonlinear_arith);
                        lemma_block(p, i as int, per as int);
                    } else {
                        assert(out@[p] == before[p]);
                    }
                }
                assert(out@.len() == (i + 1) * per) by (nonlinear_arith)
                    requires
                        out@.len() == i * per + per,
                ;
            }
            i += 1;
        }
        proof {
            assert(byte_size <= N * per) by (nonlinear_arith)
                requires
                    byte_size == (N * bw + 7) / 8,
                    per == (bw + 7) / 8,
            ;
        }
        out.truncate(byte_size);
        proof {
            assert forall|p: int| 0 <= p < byte_size implies #[trigger] out@[p] == packed_payload(
                self@,
                bw,
            )[p] by {}
            assert(out@ =~= packed_payload(self@, bw));
        }
        (bit_width, out)
    }

    fn unpack(bit_width: usize, input: &[u8]) -> (r: Result<Self, Error>) {
        proof {
            lemma2_to64();
            lemma2_to64_rest();
            lemma_pow2_pos(T::bits());
        }
        let zero = T::from_u64(0);
        let mut out: [T; N] = vstd::array::array_fill_for_copy_types(zero);
        if bit_width == 0 {
            let r = PackedList(out);
            assert(r@ =~= Seq::new(N as nat, |i: int| 0nat));
            return Ok(r);
        }
        let bits = T::bit_count();
        if bit_width > bits {
            return Err(Error::InvalidDataSize { expected: bits, got: bit_width });
        }
        proof {
            lemma_payload_fits(N as nat, bit_width as nat, T::bits());
        }
        let expected = ((N as u128 * bit_width as u128 + 7) / 8) as usize;
        let len = input.len();
        if len != expected {
            return Err(Error::InvalidDataSize { expected, got: len });
        }
        let ghost bw = bit_width as nat;
        let per = (bit_width + 7) / 8;
        let mask = low_mask(bit_width);
        let mut i: usize = 0;
        let mut start: usize = 0;
        while i < N && start < len
            invariant
                i <= N,
                bw == bit_width,
                1 <= bw <= T::bits(),
                T::bits() <= 64,
                per == bytes_per_value(bw),
                mask == low_bits_mask(bw),
                len == input@.len(),
                start <= len,
                start == i * per || (start == len && len <= i * per),
                forall|j: int| 0 <= j < i ==> #[trigger] out@[j].value() == read_value(input@, bw, j),
                forall|j: int| i <= j < N ==> #[trigger] out@[j].value() == 0,
            decreases N - i,
        {
            let end = if len - start < per { len } else { start + per };
            let v = read_le(input, start, end);
            proof {
                lemma_mask(v, bw);
                if bw < T::bits() {
                    lemma_pow2_strictly_increases(bw, T::bits());
                }
            }
            out[i] = T::from_u64(v & mask);
            proof {
                assert((i + 1) * per == i * per + per) by (nonlinear_arith);
                assert(out@[i as int].value() == read_value(input@, bw, i as int));
            }
            start = end;
            i += 1;
        }
        let r = PackedList(out);
        proof {
            assert forall|j: int| 0 <= j < N implies #[trigger] r@[j] == read_value(input@, bw, j) by {
                if j >= i {
                    assert(j * per >= i * per) by (nonlinear_arith)
                        requires
                            j >= i,
                            per >= 0,
                    ;
                }
            }
            assert(r@ =~= Seq::new(N as nat, |j: int| read_value(input@, bw, j)));
        }
        Ok(r)
    }
}

impl<T: Element, const N: usize> PackedList<T, N> {
    /// The list of `N` zeros.
    pub fn zero() -> (r: Self)
        ensures
            r@ == Seq::new(N as nat, |i: int| 0nat),
    {
        proof {
            lemma_pow2_pos(T::bits());
        }
        let zero = T::from_u64(0);
        let r = PackedList(vstd::array::array_fill_for_copy_types(zero));
        assert(r@ =~= Seq::new(N as nat, |i: int| 0nat));
        r
    }

    /// The envelope of the list: `N * size_of::<T>() + 1` bytes, whatever the
    /// bit width.
    pub fn as_bytes(&self) -> (r: Vec<u8>)
        requires
            N * T::bits() / 8 < usize::MAX,
        ensures
            r@ == envelope(self@, T::bits()),
            r@.len() == N * T::bits() / 8 + 1,
    {
        let bits = T::bit_count();
        proof {
            lemma_payload_fits(N as nat, bits as nat, bits as nat);
            assert(N * (bits / 8) == N * bits / 8) by (nonlinear_arith)
                requires
                    bits % 8 == 0,
            ;
        }
        let total = N * (bits / 8) + 1;
        let (bit_width, packed) = self.pack();
        let ghost want = envelope(self@, T::bits());
        proof {
            self.lemma_wf();
            lemma_pow2_pos(T::bits());
            lemma_max_value_below(self@, pow2(T::bits()));
            lemma_bits_needed_at_most(max_value(self@), T::bits());
            lemma_payload_fits(N as nat, bit_width as nat, bits as nat);
        }
        let data_size = packed.len();
        let mut out: Vec<u8> = Vec::new();
        out.push(bit_width as u8);
        let mut i: usize = 0;
        while i < data_size
            invariant
                i <= data_size,
                data_size == packed@.len(),
                1 + data_size <= total,
                total == want.len(),
                want == envelope(self@, T::bits()),
                packed@ == packed_payload(self@, bit_width as nat),
                bit_width == bits_needed(max_value(self@)),
                out@.len() == 1 + i,
                forall|j: int| 0 <= j < 1 + i ==> #[trigger] out@[j] == want[j],
            decreases data_size - i,
        {
            out.push(packed[i]);
            i += 1;
        }
        while out.len() < total - 1
            invariant
                1 + data_size <= out@.len() <= total,
                data_size == packed@.len(),
                total == want.len(),
                want == envelope(self@, T::bits()),
                packed@ == packed_payload(self@, bit_width as nat),
                bit_width == bits_needed(max_value(self@)),
                forall|j: int| 0 <= j < out@.len() ==> #[trigger] out@[j] == want[j],
            decreases total - out@.len(),
        {
            out.push(0);
        }
        if out.len() < total {
            out.push(SENTINEL);
        }
        assert(out@ =~= want);
        out
    }

    /// Reads the list back from its envelope.
    pub fn from_bytes(input: &[u8]) -> (r: Result<Self, Error>)
        requires
            N * T::bits() / 8 < usize::MAX,
        ensures
            match envelope_decode(N as nat, T::bits(), input@) {
                Ok(v) => r matches Ok(l) && l@ == v,
                Err(e) => r == Err::<Self, Error>(e),
            },
    {
        let bits = T::bit_count();
        proof {
            lemma_payload_fits(N as nat, bits as nat, bits as nat);
            assert(N * (bits / 8) == N * bits / 8) by (nonlinear_arith)
                requires
                    bits % 8 == 0,
            ;
        }
        let total = N * (bits / 8) + 1;
        if input.len() != total {
            return Err(Error::InvalidDataSize { expected: total, got: input.len() });
        }
        let bit_width = input[0] as usize;
        if bit_width > bits {
            return Err(Error::InvalidDataSize { expected: bits, got: bit_width });
        }
        proof {
            lemma_payload_fits(N as nat, bit_width as nat, bits as nat);
        }
        let data_size = ((N as u128 * bit_width as u128 + 7) / 8) as usize;
        let payload = vstd::slice::slice_subrange(input, 1, 1 + data_size);
        Self::unpack(bit_width, payload)
    }
}

impl<T: Element, const N: usize> core::ops::Deref for PackedList<T, N> {
    type Target = [T; N];

    fn deref(&self) -> (r: &[T; N])
        ensures
            r@.map_values(|x: T| x.value()) == self@,
    {
        &self.0
    }
}

impl<T: Element, const N: usize> AsRef<[T]> for PackedList<T, N> {
    fn as_ref(&self) -> (r: &[T])
        ensures
            r@.map_values(|x: T| x.value()) == self@,
    {
        &self.0
    }
}

impl<T: Element, const N: usize> Default for PackedList<T, N> {
    fn default() -> (r: Self)
        ensures
            r@ == Seq::new(N as nat, |i: int| 0nat),
    {
        Self::zero()
    }
}

} // verus!
