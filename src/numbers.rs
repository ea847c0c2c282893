use vstd::arithmetic::power2::{lemma2_to64, lemma2_to64_rest, lemma_pow2_adds, pow2};
use vstd::prelude::*;

use crate::base64::ReprBase64;
use crate::bytes::Bytes;
use crate::error::Error;
use crate::hex::ReprHex;
use crate::packed::{le_byte, le_value, lemma_le_value_push_front};
use crate::repr_bytes::{zero_array, ReprBytes};

verus! {

/// The `m` low bytes of `v`, least significant first.
pub open spec fn le_bytes(v: nat, m: nat) -> Seq<u8> {
    Seq::new(m, |k: int| le_byte(v, k as nat))
}

/// The `M` low bytes of `v`, least significant first.
fn u128_to_le<const M: usize>(v: u128) -> (r: [u8; M])
    requires
        M <= 16,
    ensures
        r@ == le_bytes(v as nat, M as nat),
{
    let mut out = zero_array::<M>();
    let mut y = v;
    let mut k: usize = 0;
    proof {
        lemma2_to64();
        assert(v as nat / pow2(0) == v);
    }
    while k < M
        invariant
            k <= M,
            out@.len() == M,
            y == v as nat / pow2(8 * k as nat),
            forall|j: int| 0 <= j < k ==> out@[j] == le_byte(v as nat, j as nat),
        decreases M - k,
    {
        proof {
            crate::packed::lemma_next_byte(v as nat, k as nat);
        }
        out[k] = (y % 256) as u8;
        y = y / 256;
        k += 1;
    }
    assert(out@ =~= le_bytes(v as nat, M as nat));
    out
}

/// The number that `M` little-endian bytes stand for.
fn u128_from_le<const M: usize>(b: [u8; M]) -> (r: u128)
    requires
        M <= 16,
    ensures
        r == le_value(b@),
        r < pow2(8 * M as nat),
        le_bytes(r as nat, M as nat) == b@,
{
    proof {
        lemma2_to64();
        lemma2_to64_rest();
        lemma_pow2_adds(64, 64);
    }
    let mut v: u128 = 0;
    let mut k: usize = M;
    assert(b@.subrange(M as int, M as int) =~= Seq::<u8>::empty());
    while k > 0
        invariant
            k <= M <= 16,
            b@.len() == M,
            v == le_value(b@.subrange(k as int, M as int)),
            v < pow2(8 * (M - k) as nat),
            pow2(128) == 0x1_0000_0000_0000_0000_0000_0000_0000_0000,
        decreases k,
    {
        k -= 1;
        let ghost rest = b@.subrange(k + 1, M as int);
        proof {
            lemma_le_value_push_front(rest, b@[k as int]);
            assert(seq![b@[k as int]] + rest =~= b@.subrange(k as int, M as int));
            if 8 * (M - k) < 128 {
                vstd::arithmetic::power2::lemma_pow2_strictly_increases(8 * (M - k) as nat, 128);
            }
        }
        v = (b[k] as u128) + 256 * v;
    }
    assert(b@.subrange(0, M as int) =~= b@);
    proof {
        lemma_le_bytes_of_value(b@);
    }
    v
}

/// Bytes are the low bytes of the number they stand for.
proof fn lemma_le_bytes_of_value(s: Seq<u8>)
    ensures
        le_bytes(le_value(s), s.len()) == s,
    decreases s.len(),
{
    lemma2_to64();
    if s.len() > 0 {
        let rest = s.drop_first();
        lemma_le_bytes_of_value(rest);
        let v = le_value(s);
        assert(v == s[0] + 256 * le_value(rest));
        assert(v / 256 == le_value(rest));
        assert(v % 256 == s[0]);
        assert forall|k: int| 0 <= k < s.len() implies #[trigger] le_bytes(v, s.len())[k] == s[k] by {
            if k > 0 {
                crate::packed::lemma_le_byte_shift(v, (k - 1) as nat);
                assert(le_bytes(le_value(rest), rest.len())[k - 1] == rest[k - 1]);
                assert(le_byte(v, k as nat) == le_byte(v / 256, (k - 1) as nat));
                assert(rest[k - 1] == s[k]);
            } else {
                assert(pow2(8 * 0) == 1);
                assert(le_byte(v, 0) == (v / 1) % 256);
            }
        }
        assert(le_bytes(v, s.len()) =~= s);
    }
}

/// The number in `0 .. 2^bits` whose low `bits` bits are those of `x` in
/// two's complement.
pub open spec fn twos_complement(x: int, bits: nat) -> nat {
    if x >= 0 {
        x as nat
    } else {
        (x + pow2(bits)) as nat
    }
}

/// Powers of two that the byte widths of the integer types reach.
proof fn lemma_widths()
    ensures
        pow2(8) == 0x100,
        pow2(16) == 0x1_0000,
        pow2(32) == 0x1_0000_0000,
        pow2(64) == 0x1_0000_0000_0000_0000,
        pow2(128) == 0x1_0000_0000_0000_0000_0000_0000_0000_0000,
{
    lemma2_to64();
    lemma2_to64_rest();
    lemma_pow2_adds(64, 64);
}

impl ReprBytes<1> for u8 {
    open spec fn repr(&self) -> Seq<u8> {
        le_bytes(*self as nat, 1)
    }

    fn from_bytes(input: [u8; 1]) -> (r: Self) {
        let v = u128_from_le(input);
        proof {
            lemma_widths();
        }
        v as u8
    }

    fn as_bytes(&self) -> (r: [u8; 1]) {
        u128_to_le(*self as u128)
    }
}

impl ReprBytes<2> for u16 {
    open spec fn repr(&self) -> Seq<u8> {
        le_bytes(*self as nat, 2)
    }

    fn from_bytes(input: [u8; 2]) -> (r: Self) {
        let v = u128_from_le(input);
        proof {
            lemma_widths();
        }
        v as u16
    }

    fn as_bytes(&self) -> (r: [u8; 2]) {
        u128_to_le(*self as u128)
    }
}

impl ReprBytes<4> for u32 {
    open spec fn repr(&self) -> Seq<u8> {
        le_bytes(*self as nat, 4)
    }

    fn from_bytes(input: [u8; 4]) -> (r: Self) {
        let v = u128_from_le(input);
        proof {
            lemma_widths();
        }
        v as u32
    }

    fn as_bytes(&self) -> (r: [u8; 4]) {
        u128_to_le(*self as u128)
    }
}

impl ReprBytes<8> for u64 {
    open spec fn repr(&self) -> Seq<u8> {
        le_bytes(*self as nat, 8)
    }

    fn from_bytes(input: [u8; 8]) -> (r: Self) {
        let v = u128_from_le(input);
        proof {
            lemma_widths();
        }
        v as u64
    }

    fn as_bytes(&self) -> (r: [u8; 8]) {
        u128_to_le(*self as u128)
    }
}

impl ReprBytes<16> for u128 {
    open spec fn repr(&self) -> Seq<u8> {
        le_bytes(*self as nat, 16)
    }

    fn from_bytes(input: [u8; 16]) -> (r: Self) {
        let v = u128_from_le(input);
        proof {
            lemma_widths();
        }
        v as u128
    }

    fn as_bytes(&self) -> (r: [u8; 16]) {
        u128_to_le(*self as u128)
    }
}

impl ReprBytes<1> for i8 {
    open spec fn repr(&self) -> Seq<u8> {
        le_bytes(twos_complement(*self as int, 8), 1)
    }

    fn from_bytes(input: [u8; 1]) -> (r: Self) {
        let v = u128_from_le(input);
        proof {
            lemma_widths();
        }
        if v < 0x80 {
            v as i8
        } else {
            (v as i128 - 0x100) as i8
        }
    }

    fn as_bytes(&self) -> (r: [u8; 1]) {
        proof {
            lemma_widths();
        }
        let u = if *self >= 0 {
            *self as u128
        } else {
            (*self as i128 + 0x100) as u128
        };
        u128_to_le(u)
    }
}

impl ReprBytes<2> for i16 {
    open spec fn repr(&self) -> Seq<u8> {
        le_bytes(twos_complement(*self as int, 16), 2)
    }

    fn from_bytes(input: [u8; 2]) -> (r: Self) {
        let v = u128_from_le(input);
        proof {
            lemma_widths();
        }
        if v < 0x8000 {
            v as i16
        } else {
            (v as i128 - 0x1_0000) as i16
        }
    }

    fn as_bytes(&self) -> (r: [u8; 2]) {
        proof {
            lemma_widths();
        }
        let u = if *self >= 0 {
            *self as u128
        } else {
            (*self as i128 + 0x1_0000) as u128
        };
        u128_to_le(u)
    }
}

impl ReprBytes<4> for i32 {
    open spec fn repr(&self) -> Seq<u8> {
        le_bytes(twos_complement(*self as int, 32), 4)
    }

    fn from_bytes(input: [u8; 4]) -> (r: Self) {
        let v = u128_from_le(input);
        proof {
            lemma_widths();
        }
        if v < 0x8000_0000 {
            v as i32
        } else {
            (v as i128 - 0x1_0000_0000) as i32
        }
    }

    fn as_bytes(&self) -> (r: [u8; 4]) {
        proof {
            lemma_widths();
        }
        let u = if *self >= 0 {
            *self as u128
        } else {
            (*self as i128 + 0x1_0000_0000) as u128
        };
        u128_to_le(u)
    }
}

impl ReprBytes<8> for i64 {
    open spec fn repr(&self) -> Seq<u8> {
        le_bytes(twos_complement(*self as int, 64), 8)
    }

    fn from_bytes(input: [u8; 8]) -> (r: Self) {
        let v = u128_from_le(input);
        proof {
            lemma_widths();
        }
        if v < 0x8000_0000_0000_0000 {
            v as i64
        } else {
            (v as i128 - 0x1_0000_0000_0000_0000) as i64
        }
    }

    fn as_bytes(&self) -> (r: [u8; 8]) {
        proof {
            lemma_widths();
        }
        let u = if *self >= 0 {
            *self as u128
        } else {
            (*self as i128 + 0x1_0000_0000_0000_0000) as u128
        };
        u128_to_le(u)
    }
}

impl ReprBytes<16> for i128 {
    open spec fn repr(&self) -> Seq<u8> {
        le_bytes(twos_complement(*self as int, 128), 16)
    }

    fn from_bytes(input: [u8; 16]) -> (r: Self) {
        let v = u128_from_le(input);
        proof {
            lemma_widths();
        }
        if v <= i128::MAX as u128 {
            v as i128
        } else {
            (v - 0x8000_0000_0000_0000_0000_0000_0000_0000) as i128 - i128::MAX - 1
        }
    }

    fn as_bytes(&self) -> (r: [u8; 16]) {
        proof {
            lemma_widths();
        }
        let u = if *self >= 0 {
            *self as u128
        } else {
            (*self + i128::MAX + 1) as u128 + 0x8000_0000_0000_0000_0000_0000_0000_0000
        };
        u128_to_le(u)
    }
}

impl ReprHex<1> for u8 {
    fn to_hex(&self) -> (r: String) {
        Bytes::<1>::from_bytes(self.as_bytes()).to_hex()
    }

    fn from_hex(input: &str) -> (r: Result<Self, Error>) {
        match Bytes::<1>::from_hex(input) {
            Ok(b) => Ok(Self::from_bytes(b.as_bytes())),
            Err(e) => Err(e),
        }
    }
}

impl ReprBase64<1> for u8 {
    fn to_base64(&self) -> (r: String) {
        Bytes::<1>::from_bytes(self.as_bytes()).to_base64()
    }

    fn from_base64(input: &str) -> (r: Result<Self, Error>) {
        match Bytes::<1>::from_base64(input) {
            Ok(b) => Ok(Self::from_bytes(b.as_bytes())),
            Err(e) => Err(e),
        }
    }
}

impl ReprHex<2> for u16 {
    fn to_hex(&self) -> (r: String) {
        Bytes::<2>::from_bytes(self.as_bytes()).to_hex()
    }

    fn from_hex(input: &str) -> (r: Result<Self, Error>) {
        match Bytes::<2>::from_hex(input) {
            Ok(b) => Ok(Self::from_bytes(b.as_bytes())),
            Err(e) => Err(e),
        }
    }
}

impl ReprBase64<2> for u16 {
    fn to_base64(&self) -> (r: String) {
        Bytes::<2>::from_bytes(self.as_bytes()).to_base64()
    }

    fn from_base64(input: &str) -> (r: Result<Self, Error>) {
        match Bytes::<2>::from_base64(input) {
            Ok(b) => Ok(Self::from_bytes(b.as_bytes())),
            Err(e) => Err(e),
        }
    }
}

impl ReprHex<4> for u32 {
    fn to_hex(&self) -> (r: String) {
        Bytes::<4>::from_bytes(self.as_bytes()).to_hex()
    }

    fn from_hex(input: &str) -> (r: Result<Self, Error>) {
        match Bytes::<4>::from_hex(input) {
            Ok(b) => Ok(Self::from_bytes(b.as_bytes())),
            Err(e) => Err(e),
        }
    }
}

impl ReprBase64<4> for u32 {
    fn to_base64(&self) -> (r: String) {
        Bytes::<4>::from_bytes(self.as_bytes()).to_base64()
    }

    fn from_base64(input: &str) -> (r: Result<Self, Error>) {
        match Bytes::<4>::from_base64(input) {
            Ok(b) => Ok(Self::from_bytes(b.as_bytes())),
            Err(e) => Err(e),
        }
    }
}

impl ReprHex<8> for u64 {
    fn to_hex(&self) -> (r: String) {
        Bytes::<8>::from_bytes(self.as_bytes()).to_hex()
    }

    fn from_hex(input: &str) -> (r: Result<Self, Error>) {
        match Bytes::<8>::from_hex(input) {
            Ok(b) => Ok(Self::from_bytes(b.as_bytes())),
            Err(e) => Err(e),
        }
    }
}

impl ReprBase64<8> for u64 {
    fn to_base64(&self) -> (r: String) {
        Bytes::<8>::from_bytes(self.as_bytes()).to_base64()
    }

    fn from_base64(input: &str) -> (r: Result<Self, Error>) {
        match Bytes::<8>::from_base64(input) {
            Ok(b) => Ok(Self::from_bytes(b.as_bytes())),
            Err(e) => Err(e),
        }
    }
}

impl ReprHex<16> for u128 {
    fn to_hex(&self) -> (r: String) {
        Bytes::<16>::from_bytes(self.as_bytes()).to_hex()
    }

    fn from_hex(input: &str) -> (r: Result<Self, Error>) {
        match Bytes::<16>::from_hex(input) {
            Ok(b) => Ok(Self::from_bytes(b.as_bytes())),
            Err(e) => Err(e),
        }
    }
}

impl ReprBase64<16> for u128 {
    fn to_base64(&self) -> (r: String) {
        Bytes::<16>::from_bytes(self.as_bytes()).to_base64()
    }

    fn from_base64(input: &str) -> (r: Result<Self, Error>) {
        match Bytes::<16>::from_base64(input) {
            Ok(b) => Ok(Self::from_bytes(b.as_bytes())),
            Err(e) => Err(e),
        }
    }
}

impl ReprHex<1> for i8 {
    fn to_hex(&self) -> (r: String) {
        Bytes::<1>::from_bytes(self.as_bytes()).to_hex()
    }

    fn from_hex(input: &str) -> (r: Result<Self, Error>) {
        match Bytes::<1>::from_hex(input) {
            Ok(b) => Ok(Self::from_bytes(b.as_bytes())),
            Err(e) => Err(e),
        }
    }
}

impl ReprBase64<1> for i8 {
    fn to_base64(&self) -> (r: String) {
        Bytes::<1>::from_bytes(self.as_bytes()).to_base64()
    }

    fn from_base64(input: &str) -> (r: Result<Self, Error>) {
        match Bytes::<1>::from_base64(input) {
            Ok(b) => Ok(Self::from_bytes(b.as_bytes())),
            Err(e) => Err(e),
        }
    }
}

impl ReprHex<2> for i16 {
    fn to_hex(&self) -> (r: String) {
        Bytes::<2>::from_bytes(self.as_bytes()).to_hex()
    }

    fn from_hex(input: &str) -> (r: Result<Self, Error>) {
        match Bytes::<2>::from_hex(input) {
            Ok(b) => Ok(Self::from_bytes(b.as_bytes())),
            Err(e) => Err(e),
        }
    }
}

impl ReprBase64<2> for i16 {
    fn to_base64(&self) -> (r: String) {
        Bytes::<2>::from_bytes(self.as_bytes()).to_base64()
    }

    fn from_base64(input: &str) -> (r: Result<Self, Error>) {
        match Bytes::<2>::from_base64(input) {
            Ok(b) => Ok(Self::from_bytes(b.as_bytes())),
            Err(e) => Err(e),
        }
    }
}

impl ReprHex<4> for i32 {
    fn to_hex(&self) -> (r: String) {
        Bytes::<4>::from_bytes(self.as_bytes()).to_hex()
    }

    fn from_hex(input: &str) -> (r: Result<Self, Error>) {
        match Bytes::<4>::from_hex(input) {
            Ok(b) => Ok(Self::from_bytes(b.as_bytes())),
            Err(e) => Err(e),
        }
    }
}

impl ReprBase64<4> for i32 {
    fn to_base64(&self) -> (r: String) {
        Bytes::<4>::from_bytes(self.as_bytes()).to_base64()
    }

    fn from_base64(input: &str) -> (r: Result<Self, Error>) {
        match Bytes::<4>::from_base64(input) {
            Ok(b) => Ok(Self::from_bytes(b.as_bytes())),
            Err(e) => Err(e),
        }
    }
}

impl ReprHex<8> for i64 {
    fn to_hex(&self) -> (r: String) {
        Bytes::<8>::from_bytes(self.as_bytes()).to_hex()
    }

    fn from_hex(input: &str) -> (r: Result<Self, Error>) {
        match Bytes::<8>::from_hex(input) {
            Ok(b) => Ok(Self::from_bytes(b.as_bytes())),
            Err(e) => Err(e),
        }
    }
}

impl ReprBase64<8> for i64 {
    fn to_base64(&self) -> (r: String) {
        Bytes::<8>::from_bytes(self.as_bytes()).to_base64()
    }

    fn from_base64(input: &str) -> (r: Result<Self, Error>) {
        match Bytes::<8>::from_base64(input) {
            Ok(b) => Ok(Self::from_bytes(b.as_bytes())),
            Err(e) => Err(e),
        }
    }
}

impl ReprHex<16> for i128 {
    fn to_hex(&self) -> (r: String) {
        Bytes::<16>::from_bytes(self.as_bytes()).to_hex()
    }

    fn from_hex(input: &str) -> (r: Result<Self, Error>) {
        match Bytes::<16>::from_hex(input) {
            Ok(b) => Ok(Self::from_bytes(b.as_bytes())),
            Err(e) => Err(e),
        }
    }
}

impl ReprBase64<16> for i128 {
    fn to_base64(&self) -> (r: String) {
        Bytes::<16>::from_bytes(self.as_bytes()).to_base64()
    }

    fn from_base64(input: &str) -> (r: Result<Self, Error>) {
        match Bytes::<16>::from_base64(input) {
            Ok(b) => Ok(Self::from_bytes(b.as_bytes())),
            Err(e) => Err(e),
        }
    }
}

} // verus!
