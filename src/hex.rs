use vstd::prelude::*;
use vstd::string::StringSliceAdditionalSpecFns;
use vstd::utf8::encode_utf8;

use crate::bytes::Bytes;
use crate::error::Error;
use crate::repr_bytes::ReprBytes;
use crate::text::{all_accepted, first_refused, lemma_ascii_bytes, lemma_first_refused, push_char};

verus! {

/// ASCII code of `0`.
pub const ASCII_0: u8 = 0x30;

/// ASCII code of `9`.
pub const ASCII_9: u8 = 0x39;

/// ASCII code of `a`.
pub const ASCII_A: u8 = 0x61;

/// ASCII code of `f`.
pub const ASCII_F: u8 = 0x66;

/// The ASCII code of the lowercase hex digit for `d`, which is below 16.
pub open spec fn hex_digit(d: int) -> u8 {
    if d < 10 {
        (ASCII_0 + d) as u8
    } else {
        (ASCII_A + d - 10) as u8
    }
}

/// The hex text of `b`: two lowercase digits per byte, the high half first.
pub open spec fn hex_text(b: Seq<u8>) -> Seq<char> {
    Seq::new(
        2 * b.len(),
        |i: int|
            (if i % 2 == 0 {
                hex_digit(b[i / 2] as int / 16)
            } else {
                hex_digit(b[i / 2] as int % 16)
            }) as char,
    )
}

/// Whether `c` is the ASCII code of a lowercase hex digit.
pub open spec fn is_hex_digit(c: u8) -> bool {
    (ASCII_0 <= c <= ASCII_9) || (ASCII_A <= c <= ASCII_F)
}

/// The value of the hex digit whose ASCII code is `c`.
pub open spec fn hex_digit_value(c: u8) -> int {
    if c <= ASCII_9 {
        c - ASCII_0
    } else {
        c - ASCII_A + 10
    }
}

/// The test that every byte of hex text must pass.
pub open spec fn hex_digit_test() -> spec_fn(u8) -> bool {
    |c: u8| is_hex_digit(c)
}

/// What hex text, given as its bytes `t`, decodes to for a value of `n`
/// bytes: the length is checked first, then the first byte that is no
/// lowercase hex digit is reported.
pub open spec fn hex_decode(t: Seq<u8>, n: nat) -> Result<Seq<u8>, Error> {
    if t.len() != 2 * n {
        Err(Error::InvalidDataSize { expected: (2 * n) as usize, got: t.len() as usize })
    } else if !all_accepted(t, hex_digit_test()) {
        Err(Error::InvalidHexDigit(t[first_refused(t, hex_digit_test())] as char))
    } else {
        Ok(hex_pairs(t, n))
    }
}

/// The `n` bytes that the pairs of hex digits in `t` stand for.
pub open spec fn hex_pairs(t: Seq<u8>, n: nat) -> Seq<u8> {
    Seq::new(n, |j: int| (16 * hex_digit_value(t[2 * j]) + hex_digit_value(t[2 * j + 1])) as u8)
}

/// A value of `N` bytes that reads and writes lowercase hex text.
pub trait ReprHex<const N: usize>: ReprBytes<N> {
    /// The hex text of the value, `2 * N` characters long.
    fn to_hex(&self) -> (r: String)
        ensures
            r@ == hex_text(self.repr()),
    ;

    /// Reads the value back from its hex text.
    fn from_hex(input: &str) -> (r: Result<Self, Error>)
        requires
            N <= usize::MAX / 2,
        ensures
            match hex_decode(input.spec_bytes(), N as nat) {
                Ok(b) => r matches Ok(v) && v.repr() == b,
                Err(e) => r == Err::<Self, Error>(e),
            },
    ;
}

/// The value of one hex digit, or the error that names it.
pub fn from_hex_digit(digit: u8) -> (r: Result<u8, Error>)
    ensures
        is_hex_digit(digit) ==> r == Ok::<u8, Error>(hex_digit_value(digit) as u8),
        !is_hex_digit(digit) ==> r == Err::<u8, Error>(Error::InvalidHexDigit(digit as char)),
{
    if ASCII_0 <= digit && digit <= ASCII_9 {
        Ok(digit - ASCII_0)
    } else if ASCII_A <= digit && digit <= ASCII_F {
        Ok(digit - ASCII_A + 10)
    } else {
        Err(Error::InvalidHexDigit(digit as char))
    }
}

/// The lowercase hex digit for `d`.
fn hex_digit_char(d: u8) -> (c: char)
    requires
        d < 16,
    ensures
        c == hex_digit(d as int) as char,
{
    if d < 10 {
        (ASCII_0 + d) as char
    } else {
        (ASCII_A + (d - 10)) as char
    }
}

/// Appends the two hex digits of `x`.
fn push_hex_pair(s: &mut String, hi: u8, lo: u8, x: u8)
    requires
        hi == x / 16,
        lo == x % 16,
    ensures
        final(s)@ == old(s)@ + hex_text(seq![x]),
{
    push_char(s, hex_digit_char(hi));
    push_char(s, hex_digit_char(lo));
    assert(final(s)@ =~= old(s)@ + hex_text(seq![x]));
}

/// The byte that two hex digits stand for.
fn join_nibbles(hi: u8, lo: u8) -> (r: u8)
    requires
        hi < 16,
        lo < 16,
    ensures
        r == 16 * hi + lo,
{
    assert((hi << 4u8) | lo == 16 * hi + lo) by (bit_vector)
        requires
            hi < 16,
            lo < 16,
    ;
    (hi << 4) | lo
}

/// Hex digits are read in groups of this many, sixteen bytes' worth.
const HEX_GROUP: usize = 32;

/// Whether all 32 bytes of `t` from `start` on are hex digits; every byte
/// is looked at, whatever the result.
fn hex_group_valid(t: &[u8], start: usize) -> (r: bool)
    requires
        start + HEX_GROUP <= t@.len(),
        t@.len() <= usize::MAX,
    ensures
        r == forall|i: int| start <= i < start + HEX_GROUP ==> is_hex_digit(t@[i]),
{
    let mut ok = true;
    let mut k: usize = 0;
    while k < HEX_GROUP
        invariant
            k <= HEX_GROUP,
            start + HEX_GROUP <= t@.len(),
            t@.len() <= usize::MAX,
            ok == forall|i: int| start <= i < start + k ==> is_hex_digit(t@[i]),
        decreases HEX_GROUP - k,
    {
        let c = t[start + k];
        let is_digit = ASCII_0 <= c && c <= ASCII_9;
        let is_alpha = ASCII_A <= c && c <= ASCII_F;
        let good = is_digit || is_alpha;
        ok = ok && good;
        k += 1;
    }
    ok
}

impl<const N: usize> ReprHex<N> for Bytes<N> {
    fn to_hex(&self) -> (r: String)
        ensures
            r@ == hex_text(self@),
    {
        let b = self.as_bytes();
        let mut out = String::new();
        let mut i: usize = 0;
        proof {
            self.lemma_len();
        }
        // Whole groups of 16 bytes: split every byte into its two halves,
        // then write the digits pair by pair.
        while 16 <= N - i
            invariant
                i <= N,
                b@ == self@,
                b@.len() == N,
                out@ == hex_text(b@.subrange(0, i as int)),
            decreases N - i,
        {
            let mut hi = [0u8; 16];
            let mut lo = [0u8; 16];
            let mut k: usize = 0;
            while k < 16
                invariant
                    k <= 16,
                    i + 16 <= N,
                    b@.len() == N,
                    forall|j: int| 0 <= j < k ==> hi@[j] == b@[i + j] / 16 && lo@[j] == b@[i + j] % 16,
                decreases 16 - k,
            {
                let x = b[i + k];
                assert(x >> 4u8 == x / 16 && x & 15u8 == x % 16) by (bit_vector);
                hi[k] = x >> 4;
                lo[k] = x & 15;
                k += 1;
            }
            let mut k: usize = 0;
            while k < 16
                invariant
                    k <= 16,
                    i + 16 <= N,
                    b@.len() == N,
                    forall|j: int| 0 <= j < 16 ==> hi@[j] == b@[i + j] / 16 && lo@[j] == b@[i + j] % 16,
                    out@ == hex_text(b@.subrange(0, i + k)),
                decreases 16 - k,
            {
                push_hex_pair(&mut out, hi[k], lo[k], b[i + k]);
                assert(b@.subrange(0, i + k + 1) =~= b@.subrange(0, i + k) + seq![b@[i + k]]);
                assert(hex_text(b@.subrange(0, i + k + 1)) =~= hex_text(b@.subrange(0, i + k))
                    + hex_text(seq![b@[i + k]]));
                k += 1;
            }
            i += 16;
        }
        // The bytes that are left, one by one.
        while i < N
            invariant
                i <= N,
                b@ == self@,
                b@.len() == N,
                out@ == hex_text(b@.subrange(0, i as int)),
            decreases N - i,
        {
            let x = b[i];
            assert(x >> 4u8 == x / 16 && x & 15u8 == x % 16) by (bit_vector);
            push_hex_pair(&mut out, x >> 4, x & 15, x);
            assert(b@.subrange(0, i + 1) =~= b@.subrange(0, i as int) + seq![x]);
            assert(hex_text(b@.subrange(0, i + 1)) =~= hex_text(b@.subrange(0, i as int))
                + hex_text(seq![x]));
            i += 1;
        }
        assert(b@.subrange(0, N as int) =~= b@);
        out
    }

    fn from_hex(input: &str) -> (r: Result<Self, Error>)
        ensures
            match hex_decode(input.spec_bytes(), N as nat) {
                Ok(b) => r matches Ok(v) && v@ == b,
                Err(e) => r == Err::<Self, Error>(e),
            },
    {
        let t = input.as_bytes();
        if t.len() != N * 2 {
            return Err(Error::InvalidDataSize { expected: N * 2, got: t.len() });
        }
        let ghost ts = t@;
        let mut out = crate::repr_bytes::zero_array::<N>();
        let mut i: usize = 0;
        // Whole groups of 32 digits: check them all at once, and look for
        // the first bad one only when the group holds one.
        while HEX_GROUP <= 2 * N - 2 * i
            invariant
                i <= N,
                N <= usize::MAX / 2,
                t@ == ts,
                input.spec_bytes() == ts,
                ts.len() == 2 * N,
                out@.len() == N,
                forall|j: int| 0 <= j < 2 * i ==> is_hex_digit(#[trigger] ts[j]),
                forall|j: int| 0 <= j < i ==> out@[j] == hex_pairs(ts, N as nat)[j],
            decreases N - i,
        {
            let start = 2 * i;
            assert(ts.len() <= usize::MAX);
            if !hex_group_valid(t, start) {
                let mut k: usize = 0;
                while k < HEX_GROUP
                    invariant
                        k <= HEX_GROUP,
                        start == 2 * i,
                        start + HEX_GROUP <= ts.len(),
                        ts.len() == 2 * N,
                        N <= usize::MAX / 2,
                        t@ == ts,
                        input.spec_bytes() == ts,
                        forall|j: int| 0 <= j < start + k ==> is_hex_digit(#[trigger] ts[j]),
                        !forall|j: int| start <= j < start + HEX_GROUP ==> is_hex_digit(ts[j]),
                    decreases HEX_GROUP - k,
                {
                    let c = t[start + k];
                    if !(ASCII_0 <= c && c <= ASCII_9) && !(ASCII_A <= c && c <= ASCII_F) {
                        assert(!hex_digit_test()(ts[start + k]));
                        proof {
                            lemma_first_refused(ts, hex_digit_test(), start + k);
                        }
                        return Err(Error::InvalidHexDigit(c as char));
                    }
                    k += 1;
                }
                assert(false);
            }
            let mut k: usize = 0;
            while k < 16
                invariant
                    k <= 16,
                    start == 2 * i,
                    i + 16 <= N,
                    N <= usize::MAX / 2,
                    t@ == ts,
                    input.spec_bytes() == ts,
                    ts.len() == 2 * N,
                    out@.len() == N,
                    forall|j: int| start <= j < start + HEX_GROUP ==> is_hex_digit(#[trigger] ts[j]),
                    forall|j: int| 0 <= j < i + k ==> out@[j] == hex_pairs(ts, N as nat)[j],
                decreases 16 - k,
            {
                let hi = t[start + 2 * k];
                let lo = t[start + 2 * k + 1];
                assert(is_hex_digit(ts[start + 2 * k]));
                assert(is_hex_digit(ts[start + 2 * k + 1]));
                let hv = if hi <= ASCII_9 { hi - ASCII_0 } else { hi - ASCII_A + 10 };
                let lv = if lo <= ASCII_9 { lo - ASCII_0 } else { lo - ASCII_A + 10 };
                out[i + k] = join_nibbles(hv, lv);
                k += 1;
            }
            i += 16;
        }
        // The digits that are left, pair by pair.
        while i < N
            invariant
                i <= N,
                N <= usize::MAX / 2,
                t@ == ts,
                input.spec_bytes() == ts,
                ts.len() == 2 * N,
                out@.len() == N,
                forall|j: int| 0 <= j < 2 * i ==> is_hex_digit(#[trigger] ts[j]),
                forall|j: int| 0 <= j < i ==> out@[j] == hex_pairs(ts, N as nat)[j],
            decreases N - i,
        {
            let hi = match from_hex_digit(t[2 * i]) {
                Ok(v) => v,
                Err(e) => {
                    assert(!hex_digit_test()(ts[2 * i as int]));
                    proof {
                        lemma_first_refused(ts, hex_digit_test(), 2 * i as int);
                    }
                    return Err(e);
                },
            };
            let lo = match from_hex_digit(t[2 * i + 1]) {
                Ok(v) => v,
                Err(e) => {
                    assert(!hex_digit_test()(ts[2 * i + 1]));
                    proof {
                        lemma_first_refused(ts, hex_digit_test(), 2 * i + 1);
                    }
                    return Err(e);
                },
            };
            out[i] = join_nibbles(hi, lo);
            i += 1;
        }
        assert(all_accepted(ts, hex_digit_test()));
        assert(out@ =~= hex_pairs(ts, N as nat));
        Ok(Bytes::from_bytes(out))
    }
}

/// Hex text is ASCII: its UTF-8 bytes are its characters one for one.
pub proof fn lemma_hex_text_bytes(b: Seq<u8>)
    ensures
        encode_utf8(hex_text(b)) == Seq::new(2 * b.len(), |i: int| hex_text(b)[i] as u8),
        forall|i: int| 0 <= i < 2 * b.len() ==> is_hex_digit(#[trigger] encode_utf8(hex_text(b))[i]),
{
    let c = hex_text(b);
    assert forall|i: int| 0 <= i < c.len() implies '\0' <= #[trigger] c[i] <= '\u{7f}' by {
        let d = if i % 2 == 0 { b[i / 2] as int / 16 } else { b[i / 2] as int % 16 };
        assert(0 <= d < 16);
    }
    lemma_ascii_bytes(c);
}

/// Reading back the hex text of any bytes gives those bytes.
pub proof fn lemma_hex_round_trip(b: Seq<u8>)
    ensures
        hex_decode(encode_utf8(hex_text(b)), b.len()) == Ok::<Seq<u8>, Error>(b),
{
    let t = encode_utf8(hex_text(b));
    lemma_hex_text_bytes(b);
    assert(all_accepted(t, hex_digit_test()));
    assert forall|j: int| 0 <= j < b.len() implies #[trigger] hex_pairs(t, b.len())[j] == b[j] by {
        assert(t[2 * j] == hex_digit(b[j] as int / 16));
        assert(t[2 * j + 1] == hex_digit(b[j] as int % 16));
    }
    assert(hex_pairs(t, b.len()) =~= b);
}

/// Hex text of any length but `2 * n` is refused for its size.
pub proof fn lemma_hex_wrong_length(t: Seq<u8>, n: nat)
    requires
        t.len() != 2 * n,
    ensures
        hex_decode(t, n) == Err::<Seq<u8>, Error>(
            Error::InvalidDataSize { expected: (2 * n) as usize, got: t.len() as usize },
        ),
{
}

/// Hex text of the right length whose first byte is no hex digit is
/// refused for that byte.
pub proof fn lemma_hex_bad_first_digit(t: Seq<u8>, n: nat)
    requires
        t.len() == 2 * n,
        n > 0,
        !is_hex_digit(t[0]),
    ensures
        hex_decode(t, n) == Err::<Seq<u8>, Error>(Error::InvalidHexDigit(t[0] as char)),
{
    lemma_first_refused(t, hex_digit_test(), 0);
}

/// Reading back the hex text of a value of `N` bytes gives that value.
pub proof fn lemma_bytes_hex_round_trip<const N: usize>(v: Bytes<N>)
    ensures
        hex_decode(encode_utf8(hex_text(v@)), N as nat) == Ok::<Seq<u8>, Error>(v@),
{
    v.lemma_len();
    lemma_hex_round_trip(v@);
}

} // verus!
