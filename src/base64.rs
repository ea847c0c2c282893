use vstd::prelude::*;
use vstd::string::StringSliceAdditionalSpecFns;
use vstd::utf8::encode_utf8;

use crate::bytes::Bytes;
use crate::error::Error;
use crate::repr_bytes::{zero_array, ReprBytes};
use crate::text::{
    all_accepted, first_refused, lemma_ascii_bytes, lemma_first_refused,
    lemma_first_refused_exists, push_char,
};

verus! {

/// ASCII code of `=`, the padding character.
pub const PAD: u8 = 0x3d;

/// ASCII code of `A`.
pub const UPPER_A: u8 = 0x41;

/// ASCII code of `Z`.
pub const UPPER_Z: u8 = 0x5a;

/// ASCII code of `a`.
pub const LOWER_A: u8 = 0x61;

/// ASCII code of `z`.
pub const LOWER_Z: u8 = 0x7a;

/// ASCII code of `0`.
pub const DIGIT_0: u8 = 0x30;

/// ASCII code of `9`.
pub const DIGIT_9: u8 = 0x39;

/// ASCII code of `+`.
pub const PLUS: u8 = 0x2b;

/// ASCII code of `/`.
pub const SLASH: u8 = 0x2f;

/// Bytes encoded together in one step: eight groups of three.
pub const ENCODE_CHUNK: usize = 24;

/// Characters decoded together in one step: eight groups of four.
pub const DECODE_CHUNK: usize = 32;

/// The ASCII code of the base64 digit for `v`, which is below 64.
pub open spec fn base64_digit(v: int) -> u8 {
    if v < 26 {
        (UPPER_A + v) as u8
    } else if v < 52 {
        (LOWER_A + v - 26) as u8
    } else if v < 62 {
        (DIGIT_0 + v - 52) as u8
    } else if v == 62 {
        PLUS
    } else {
        SLASH
    }
}

/// The six-bit field `q` (0 to 3, most significant first) of the 24 bits
/// `b0 b1 b2`.
pub open spec fn sextet(b0: u8, b1: u8, b2: u8, q: int) -> int {
    if q == 0 {
        b0 as int / 4
    } else if q == 1 {
        (b0 % 4) * 16 + b1 / 16
    } else if q == 2 {
        (b1 % 16) * 4 + b2 / 64
    } else {
        b2 as int % 64
    }
}

/// Byte `i` of `b`, or zero past its end.
pub open spec fn byte_or_zero(b: Seq<u8>, i: int) -> u8 {
    if i < b.len() {
        b[i]
    } else {
        0
    }
}

/// The length of the base64 text of `n` bytes.
pub open spec fn base64_len(n: nat) -> nat {
    (n + 2) / 3 * 4
}

/// The ASCII code of character `i` of the base64 text of `b`: group `i / 4`
/// stands for bytes `3 * (i / 4)` on, and a field that no byte reaches is
/// padding.
pub open spec fn base64_code(b: Seq<u8>, i: int) -> u8 {
    let g = i / 4;
    let q = i % 4;
    if q >= 2 && 3 * g + q - 1 >= b.len() {
        PAD
    } else {
        base64_digit(
            sextet(byte_or_zero(b, 3 * g), byte_or_zero(b, 3 * g + 1), byte_or_zero(b, 3 * g + 2), q),
        )
    }
}

/// The standard base64 text of `b`, with `=` padding.
pub open spec fn base64_text(b: Seq<u8>) -> Seq<char> {
    Seq::new(base64_len(b.len()), |i: int| base64_code(b, i) as char)
}

/// Whether `c` is a base64 digit or `=`.
pub open spec fn is_base64_char(c: u8) -> bool {
    (UPPER_A <= c <= UPPER_Z) || (LOWER_A <= c <= LOWER_Z) || (DIGIT_0 <= c <= DIGIT_9) || c == PLUS
        || c == SLASH || c == PAD
}

/// The test that every byte of base64 text must pass.
pub open spec fn base64_char_test() -> spec_fn(u8) -> bool {
    |c: u8| is_base64_char(c)
}

/// The six-bit value of a base64 character; `=` counts as zero.
pub open spec fn base64_value(c: u8) -> int {
    if UPPER_A <= c <= UPPER_Z {
        c - UPPER_A
    } else if LOWER_A <= c <= LOWER_Z {
        c - LOWER_A + 26
    } else if DIGIT_0 <= c <= DIGIT_9 {
        c - DIGIT_0 + 52
    } else if c == PLUS {
        62
    } else if c == SLASH {
        63
    } else {
        0
    }
}

/// Byte `p` (0 to 2) of the 24 bits that four six-bit values hold.
pub open spec fn join_sextets(v0: int, v1: int, v2: int, v3: int, p: int) -> int {
    if p == 0 {
        (v0 % 64) * 4 + v1 / 16
    } else if p == 1 {
        (v1 % 16) * 16 + v2 / 4
    } else {
        (v2 % 4) * 64 + v3
    }
}

/// Byte `j` of the `n` bytes that the base64 text `t` decodes to. The
/// bytes of whole 24-byte chunks come from all four characters of their
/// group; after them, a byte whose last character is `=` is zero.
pub open spec fn base64_byte(t: Seq<u8>, n: nat, j: int) -> u8 {
    let g = j / 3;
    let p = j % 3;
    let in_tail = j >= ENCODE_CHUNK * (n / ENCODE_CHUNK as nat);
    if in_tail && p >= 1 && t[4 * g + p + 1] == PAD {
        0
    } else {
        join_sextets(
            base64_value(t[4 * g]),
            base64_value(t[4 * g + 1]),
            base64_value(t[4 * g + 2]),
            base64_value(t[4 * g + 3]),
            p,
        ) as u8
    }
}

/// What base64 text, given as its bytes `t`, decodes to for a value of `n`
/// bytes: the length is checked first, then the first byte that is neither
/// a base64 digit nor `=` is reported.
pub open spec fn base64_decode(t: Seq<u8>, n: nat) -> Result<Seq<u8>, Error> {
    if t.len() != base64_len(n) {
        Err(Error::InvalidDataSize { expected: base64_len(n) as usize, got: t.len() as usize })
    } else if !all_accepted(t, base64_char_test()) {
        Err(Error::InvalidBase64Character(t[first_refused(t, base64_char_test())] as char))
    } else {
        Ok(Seq::new(n, |j: int| base64_byte(t, n, j)))
    }
}

/// A value of `N` bytes that reads and writes standard base64 text.
pub trait ReprBase64<const N: usize>: ReprBytes<N> {
    /// The base64 text of the value, `(N + 2) / 3 * 4` characters long.
    fn to_base64(&self) -> (r: String)
        requires
            N <= usize::MAX / 2,
        ensures
            r@ == base64_text(self.repr()),
    ;

    /// Reads the value back from its base64 text.
    fn from_base64(input: &str) -> (r: Result<Self, Error>)
        requires
            N <= usize::MAX / 2,
        ensures
            match base64_decode(input.spec_bytes(), N as nat) {
                Ok(b) => r matches Ok(v) && v.repr() == b,
                Err(e) => r == Err::<Self, Error>(e),
            },
    ;
}

/// The four six-bit fields of three bytes.
fn split_group(b0: u8, b1: u8, b2: u8) -> (r: (u8, u8, u8, u8))
    ensures
        r.0 == sextet(b0, b1, b2, 0),
        r.1 == sextet(b0, b1, b2, 1),
        r.2 == sextet(b0, b1, b2, 2),
        r.3 == sextet(b0, b1, b2, 3),
{
    assert(b0 >> 2u8 == b0 / 4) by (bit_vector);
    assert(((b0 & 3u8) << 4u8) | (b1 >> 4u8) == (b0 % 4) * 16 + b1 / 16) by (bit_vector);
    assert(((b1 & 15u8) << 2u8) | (b2 >> 6u8) == (b1 % 16) * 4 + b2 / 64) by (bit_vector);
    assert(b2 & 63u8 == b2 % 64) by (bit_vector);
    (b0 >> 2, ((b0 & 3) << 4) | (b1 >> 4), ((b1 & 15) << 2) | (b2 >> 6), b2 & 63)
}

/// The ASCII code of the base64 digit for `v`.
fn base64_digit_code(v: u8) -> (r: u8)
    requires
        v < 64,
    ensures
        r == base64_digit(v as int),
{
    if v < 26 {
        UPPER_A + v
    } else if v < 52 {
        LOWER_A + (v - 26)
    } else if v < 62 {
        DIGIT_0 + (v - 52)
    } else if v == 62 {
        PLUS
    } else {
        SLASH
    }
}

/// Splits the first 24 bytes of `input`, in eight groups of three, into
/// the 32 six-bit fields that stand for them.
pub fn enc_reshuffle(input: [u8; 32]) -> (r: [u8; 32])
    ensures
        forall|k: int|
            0 <= k < 32 ==> #[trigger] r@[k] == sextet(
                input@[3 * (k / 4)],
                input@[3 * (k / 4) + 1],
                input@[3 * (k / 4) + 2],
                k % 4,
            ),
{
    let mut r = [0u8; 32];
    let mut i: usize = 0;
    while i < 8
        invariant
            i <= 8,
            forall|k: int|
                0 <= k < 4 * i ==> #[trigger] r@[k] == sextet(
                    input@[3 * (k / 4)],
                    input@[3 * (k / 4) + 1],
                    input@[3 * (k / 4) + 2],
                    k % 4,
                ),
        decreases 8 - i,
    {
        let (s0, s1, s2, s3) = split_group(input[3 * i], input[3 * i + 1], input[3 * i + 2]);
        r[4 * i] = s0;
        r[4 * i + 1] = s1;
        r[4 * i + 2] = s2;
        r[4 * i + 3] = s3;
        i += 1;
    }
    r
}

/// Turns each of 32 six-bit fields into the ASCII code of its base64 digit;
/// bits above the sixth are ignored.
pub fn enc_translate(input: [u8; 32]) -> (r: [u8; 32])
    ensures
        forall|k: int| 0 <= k < 32 ==> #[trigger] r@[k] == base64_digit(input@[k] as int % 64),
{
    let mut r = [0u8; 32];
    let mut i: usize = 0;
    while i < 32
        invariant
            i <= 32,
            forall|k: int| 0 <= k < i ==> #[trigger] r@[k] == base64_digit(input@[k] as int % 64),
        decreases 32 - i,
    {
        let x = input[i];
        assert(x & 63u8 == x % 64) by (bit_vector);
        r[i] = base64_digit_code(x & 63);
        i += 1;
    }
    r
}

/// The six-bit value of a base64 character, or the error that names it.
pub fn dec_byte(input: u8) -> (r: Result<u8, Error>)
    ensures
        is_base64_char(input) ==> r == Ok::<u8, Error>(base64_value(input) as u8),
        !is_base64_char(input) ==> r == Err::<u8, Error>(
            Error::InvalidBase64Character(input as char),
        ),
{
    if UPPER_A <= input && input <= UPPER_Z {
        Ok(input - UPPER_A)
    } else if LOWER_A <= input && input <= LOWER_Z {
        Ok(input - LOWER_A + 26)
    } else if DIGIT_0 <= input && input <= DIGIT_9 {
        Ok(input - DIGIT_0 + 52)
    } else if input == PLUS {
        Ok(62)
    } else if input == SLASH {
        Ok(63)
    } else if input == PAD {
        Ok(0)
    } else {
        Err(Error::InvalidBase64Character(input as char))
    }
}

/// The six-bit values of 32 base64 characters, or the error that names the
/// first one that is neither a digit nor `=`.
pub fn dec_translate(input: [u8; 32]) -> (r: Result<[u8; 32], Error>)
    ensures
        all_accepted(input@, base64_char_test()) ==> (r matches Ok(o) && forall|k: int|
            0 <= k < 32 ==> #[trigger] o@[k] == base64_value(input@[k])),
        !all_accepted(input@, base64_char_test()) ==> r == Err::<[u8; 32], Error>(
            Error::InvalidBase64Character(
                input@[first_refused(input@, base64_char_test())] as char,
            ),
        ),
{
    let mut r = [0u8; 32];
    let mut i: usize = 0;
    while i < 32
        invariant
            i <= 32,
            forall|k: int| 0 <= k < i ==> is_base64_char(#[trigger] input@[k]),
            forall|k: int| 0 <= k < i ==> #[trigger] r@[k] == base64_value(input@[k]),
        decreases 32 - i,
    {
        match dec_byte(input[i]) {
            Ok(v) => {
                r[i] = v;
            },
            Err(e) => {
                proof {
                    lemma_first_refused(input@, base64_char_test(), i as int);
                }
                return Err(e);
            },
        }
        i += 1;
    }
    assert(all_accepted(input@, base64_char_test()));
    Ok(r)
}

/// Joins 32 six-bit values, in eight groups of four, into the 24 bytes
/// they hold; the last eight bytes of the result are zero.
pub fn dec_reshuffle(input: [u8; 32]) -> (r: [u8; 32])
    requires
        forall|k: int| 0 <= k < 32 ==> #[trigger] input@[k] < 64,
    ensures
        forall|j: int|
            0 <= j < 24 ==> #[trigger] r@[j] == join_sextets(
                input@[4 * (j / 3)] as int,
                input@[4 * (j / 3) + 1] as int,
                input@[4 * (j / 3) + 2] as int,
                input@[4 * (j / 3) + 3] as int,
                j % 3,
            ),
        forall|j: int| 24 <= j < 32 ==> #[trigger] r@[j] == 0,
{
    let mut r = [0u8; 32];
    let mut i: usize = 0;
    while i < 8
        invariant
            i <= 8,
            forall|k: int| 0 <= k < 32 ==> #[trigger] input@[k] < 64,
            forall|j: int|
                0 <= j < 3 * i ==> #[trigger] r@[j] == join_sextets(
                    input@[4 * (j / 3)] as int,
                    input@[4 * (j / 3) + 1] as int,
                    input@[4 * (j / 3) + 2] as int,
                    input@[4 * (j / 3) + 3] as int,
                    j % 3,
                ),
            forall|j: int| 24 <= j < 32 ==> #[trigger] r@[j] == 0,
        decreases 8 - i,
    {
        let (x0, x1, x2) = join_group(input[4 * i], input[4 * i + 1], input[4 * i + 2], input[4 * i + 3]);
        r[3 * i] = x0;
        r[3 * i + 1] = x1;
        r[3 * i + 2] = x2;
        i += 1;
    }
    r
}

/// The three bytes that four six-bit values hold.
fn join_group(v0: u8, v1: u8, v2: u8, v3: u8) -> (r: (u8, u8, u8))
    requires
        v0 < 64,
        v1 < 64,
        v2 < 64,
        v3 < 64,
    ensures
        r.0 == join_sextets(v0 as int, v1 as int, v2 as int, v3 as int, 0),
        r.1 == join_sextets(v0 as int, v1 as int, v2 as int, v3 as int, 1),
        r.2 == join_sextets(v0 as int, v1 as int, v2 as int, v3 as int, 2),
{
    assert((v0 << 2u8) | (v1 >> 4u8) == (v0 % 64) * 4 + v1 / 16) by (bit_vector)
        requires
            v0 < 64,
            v1 < 64,
    ;
    assert((v1 << 4u8) | (v2 >> 2u8) == (v1 % 16) * 16 + v2 / 4) by (bit_vector)
        requires
            v2 < 64,
    ;
    assert((v2 << 6u8) | v3 == (v2 % 4) * 64 + v3) by (bit_vector)
        requires
            v3 < 64,
    ;
    ((v0 << 2) | (v1 >> 4), (v1 << 4) | (v2 >> 2), (v2 << 6) | v3)
}

/// The 32 bytes of `t` from `start` on.
fn load_chunk(t: &[u8], start: usize) -> (r: [u8; 32])
    requires
        start + DECODE_CHUNK <= t@.len(),
        t@.len() <= usize::MAX,
    ensures
        r@ == t@.subrange(start as int, start + DECODE_CHUNK),
{
    let mut r = [0u8; 32];
    let mut k: usize = 0;
    while k < DECODE_CHUNK
        invariant
            k <= DECODE_CHUNK,
            start + DECODE_CHUNK <= t@.len(),
            t@.len() <= usize::MAX,
            forall|j: int| 0 <= j < k ==> r@[j] == t@[start + j],
        decreases DECODE_CHUNK - k,
    {
        r[k] = t[start + k];
        k += 1;
    }
    assert(r@ =~= t@.subrange(start as int, start + DECODE_CHUNK));
    r
}

/// Where a group of four characters and the bytes it stands for begin.
proof fn lemma_group_index(g: int, k: int)
    requires
        0 <= g,
        0 <= k < 32,
        g % 8 == 0,
    ensures
        (4 * g + k) / 4 == g + k / 4,
        (4 * g + k) % 4 == k % 4,
        3 * ((4 * g + k) / 4) == 3 * g + 3 * (k / 4),
{
}

/// Byte `j`, in the group that starts at byte `3 * g`, is in the tail of
/// `n` bytes once `3 * g` is past the last whole chunk.
proof fn lemma_tail_start(n: int, g: int)
    requires
        0 <= g,
        0 <= n,
        g % 8 == 0,
        3 * g <= n,
        n < 3 * g + 24,
    ensures
        3 * g == 24 * (n / 24),
{
}

/// A chunk of eight groups that ends by byte `n` is not in the tail.
proof fn lemma_chunk_before_tail(n: int, g: int)
    requires
        0 <= g,
        g % 8 == 0,
        3 * g + 24 <= n,
    ensures
        3 * g + 24 <= 24 * (n / 24),
        4 * g + 32 <= (n + 2) / 3 * 4,
{
}

/// The 24 bytes that a whole chunk decodes to are those of the text.
proof fn lemma_chunk_bytes(ts: Seq<u8>, n: nat, g: int, values: [u8; 32], bytes: [u8; 32])
    requires
        0 <= g,
        g % 8 == 0,
        3 * g + 24 <= 24 * (n / 24),
        4 * g + 32 <= ts.len(),
        forall|j: int| 0 <= j < 32 ==> #[trigger] values@[j] == base64_value(ts[4 * g + j]),
        forall|j: int|
            0 <= j < 24 ==> #[trigger] bytes@[j] == join_sextets(
                values@[4 * (j / 3)] as int,
                values@[4 * (j / 3) + 1] as int,
                values@[4 * (j / 3) + 2] as int,
                values@[4 * (j / 3) + 3] as int,
                j % 3,
            ),
    ensures
        forall|k: int| 0 <= k < 24 ==> #[trigger] bytes@[k] == base64_byte(ts, n, 3 * g + k),
{
    assert forall|k: int| 0 <= k < 24 implies #[trigger] bytes@[k] == base64_byte(ts, n, 3 * g + k) by {
        let j = 3 * g + k;
        assert(j / 3 == g + k / 3);
        assert(j % 3 == k % 3);
        let q = 4 * (k / 3);
        assert(values@[q] == base64_value(ts[4 * g + q]));
        assert(values@[q + 1] == base64_value(ts[4 * g + q + 1]));
        assert(values@[q + 2] == base64_value(ts[4 * g + q + 2]));
        assert(values@[q + 3] == base64_value(ts[4 * g + q + 3]));
    }
}

impl<const N: usize> ReprBase64<N> for Bytes<N> {
    fn to_base64(&self) -> (r: String)
        ensures
            r@ == base64_text(self@),
    {
        let b = self.as_bytes();
        proof {
            self.lemma_len();
        }
        let mut out = String::new();
        let mut g: usize = 0;
        // Whole chunks of 24 bytes: split each group of three into four
        // fields, then turn every field into its digit.
        while ENCODE_CHUNK <= N - 3 * g
            invariant
                3 * g <= N,
                g % 8 == 0,
                b@ == self@,
                b@.len() == N,
                out@.len() == 4 * g,
                forall|k: int| 0 <= k < 4 * g ==> #[trigger] out@[k] == base64_code(b@, k) as char,
            decreases N - 3 * g,
        {
            let start = 3 * g;
            let mut padded = [0u8; 32];
            let mut k: usize = 0;
            while k < ENCODE_CHUNK
                invariant
                    k <= ENCODE_CHUNK,
                    start + ENCODE_CHUNK <= N,
                    b@.len() == N,
                    forall|j: int| 0 <= j < k ==> padded@[j] == b@[start + j],
                decreases ENCODE_CHUNK - k,
            {
                padded[k] = b[start + k];
                k += 1;
            }
            let codes = enc_translate(enc_reshuffle(padded));
            let mut k: usize = 0;
            while k < DECODE_CHUNK
                invariant
                    k <= DECODE_CHUNK,
                    start == 3 * g,
                    g % 8 == 0,
                    start + ENCODE_CHUNK <= N,
                    b@.len() == N,
                    forall|j: int| 0 <= j < ENCODE_CHUNK ==> padded@[j] == b@[start + j],
                    forall|j: int|
                        0 <= j < 32 ==> #[trigger] codes@[j] == base64_digit(
                            sextet(
                                padded@[3 * (j / 4)],
                                padded@[3 * (j / 4) + 1],
                                padded@[3 * (j / 4) + 2],
                                j % 4,
                            ) % 64,
                        ),
                    out@.len() == 4 * g + k,
                    forall|j: int| 0 <= j < 4 * g + k ==> #[trigger] out@[j] == base64_code(b@, j) as char,
                decreases DECODE_CHUNK - k,
            {
                proof {
                    lemma_group_index(g as int, k as int);
                    let q = k / 4;
                    assert(padded@[3 * q] == b@[start + 3 * q]);
                    assert(padded@[3 * q + 1] == b@[start + 3 * q + 1]);
                    assert(padded@[3 * q + 2] == b@[start + 3 * q + 2]);
                }
                push_char(&mut out, codes[k] as char);
                k += 1;
            }
            g += 8;
        }
        // The groups that are left, padded with `=` where bytes run out.
        while 3 * g < N
            invariant
                3 * g <= N + 2,
                N <= usize::MAX / 2,
                b@ == self@,
                b@.len() == N,
                out@.len() == 4 * g,
                forall|k: int| 0 <= k < 4 * g ==> #[trigger] out@[k] == base64_code(b@, k) as char,
            decreases N + 2 - 3 * g,
        {
            let i = 3 * g;
            let b0 = b[i];
            let b1 = if i + 1 < N { b[i + 1] } else { 0 };
            let b2 = if i + 2 < N { b[i + 2] } else { 0 };
            let (s0, s1, s2, s3) = split_group(b0, b1, b2);
            push_char(&mut out, base64_digit_code(s0) as char);
            push_char(&mut out, base64_digit_code(s1) as char);
            if i + 1 < N {
                push_char(&mut out, base64_digit_code(s2) as char);
            } else {
                push_char(&mut out, PAD as char);
            }
            if i + 2 < N {
                push_char(&mut out, base64_digit_code(s3) as char);
            } else {
                push_char(&mut out, PAD as char);
            }
            proof {
                assert(b0 == byte_or_zero(b@, 3 * g as int));
                assert(b1 == byte_or_zero(b@, 3 * g + 1));
                assert(b2 == byte_or_zero(b@, 3 * g + 2));
                assert forall|k: int| 4 * g <= k < 4 * g + 4 implies #[trigger] out@[k]
                    == base64_code(b@, k) as char by {
                    assert(k / 4 == g);
                }
            }
            g += 1;
        }
        assert(4 * g == base64_len(N as nat));
        assert(out@ =~= base64_text(b@));
        out
    }

    fn from_base64(input: &str) -> (r: Result<Self, Error>)
        ensures
            match base64_decode(input.spec_bytes(), N as nat) {
                Ok(b) => r matches Ok(v) && v@ == b,
                Err(e) => r == Err::<Self, Error>(e),
            },
    {
        let t = input.as_bytes();
        let text_len = (N + 2) / 3 * 4;
        if t.len() != text_len {
            return Err(Error::InvalidDataSize { expected: text_len, got: t.len() });
        }
        let ghost ts = t@;
        let mut out = zero_array::<N>();
        let mut g: usize = 0;
        // Whole chunks of 32 characters, as long as 24 more bytes are owed.
        while ENCODE_CHUNK <= N - 3 * g
            invariant
                3 * g <= N,
                g % 8 == 0,
                N <= usize::MAX / 2,
                t@ == ts,
                input.spec_bytes() == ts,
                ts.len() == base64_len(N as nat),
                out@.len() == N,
                forall|k: int| 0 <= k < 4 * g ==> is_base64_char(#[trigger] ts[k]),
                forall|j: int| 0 <= j < 3 * g ==> #[trigger] out@[j] == base64_byte(ts, N as nat, j),
                forall|j: int| 3 * g <= j < N ==> #[trigger] out@[j] == 0,
            decreases N - 3 * g,
        {
            proof {
                lemma_chunk_before_tail(N as int, g as int);
            }
            let start = 4 * g;
            let chunk = load_chunk(t, start);
            let values = match dec_translate(chunk) {
                Ok(v) => v,
                Err(e) => {
                    proof {
                        lemma_first_refused_exists(chunk@, base64_char_test());
                        let k = first_refused(chunk@, base64_char_test());
                        assert(chunk@[k] == ts[start + k]);
                        assert forall|j: int| 0 <= j < start + k implies base64_char_test()(ts[j]) by {
                            if j >= start {
                                assert(chunk@[j - start] == ts[j]);
                            }
                        }
                        lemma_first_refused(ts, base64_char_test(), start + k);
                    }
                    return Err(e);
                },
            };
            proof {
                assert forall|k: int| 0 <= k < 32 implies #[trigger] values@[k] < 64 by {
                    assert(chunk@[k] == ts[start + k]);
                }
            }
            let bytes = dec_reshuffle(values);
            proof {
                assert forall|j: int| 0 <= j < 32 implies #[trigger] values@[j] == base64_value(
                    ts[4 * g + j],
                ) by {
                    assert(chunk@[j] == ts[start + j]);
                }
                lemma_chunk_bytes(ts, N as nat, g as int, values, bytes);
            }
            let mut k: usize = 0;
            while k < ENCODE_CHUNK
                invariant
                    k <= ENCODE_CHUNK,
                    3 * g + ENCODE_CHUNK <= N,
                    out@.len() == N,
                    forall|j: int| 0 <= j < 24 ==> #[trigger] bytes@[j] == base64_byte(ts, N as nat, 3 * g + j),
                    forall|j: int| 0 <= j < 3 * g + k ==> #[trigger] out@[j] == base64_byte(ts, N as nat, j),
                    forall|j: int| 3 * g + k <= j < N ==> #[trigger] out@[j] == 0,
                decreases ENCODE_CHUNK - k,
            {
                out[3 * g + k] = bytes[k];
                proof {
                    assert(out@[3 * g + k] == base64_byte(ts, N as nat, 3 * g + k));
                }
                k += 1;
            }
            proof {
                assert forall|k: int| 0 <= k < 4 * g + 32 implies is_base64_char(#[trigger] ts[k]) by {
                    if k >= 4 * g {
                        assert(chunk@[k - 4 * g] == ts[k]);
                    }
                }
            }
            g += 8;
        }
        proof {
            lemma_tail_start(N as int, g as int);
        }
        // The groups that are left, one by one; `=` marks a byte that the
        // group does not hold.
        while 3 * g < N
            invariant
                3 * g <= N + 2,
                3 * g >= 24 * (N / 24),
                N <= usize::MAX / 2,
                t@ == ts,
                input.spec_bytes() == ts,
                ts.len() == base64_len(N as nat),
                out@.len() == N,
                forall|k: int| 0 <= k < 4 * g ==> is_base64_char(#[trigger] ts[k]),
                forall|j: int| 0 <= j < 3 * g && j < N ==> #[trigger] out@[j] == base64_byte(ts, N as nat, j),
                forall|j: int| 3 * g <= j < N ==> #[trigger] out@[j] == 0,
            decreases N + 2 - 3 * g,
        {
            let start = 4 * g;
            assert(start + 4 <= ts.len());
            let c0 = t[start];
            let c1 = t[start + 1];
            let c2 = t[start + 2];
            let c3 = t[start + 3];
            let v0 = match dec_byte(c0) {
                Ok(v) => v,
                Err(e) => {
                    proof {
                        lemma_first_refused(ts, base64_char_test(), start as int);
                    }
                    return Err(e);
                },
            };
            let v1 = match dec_byte(c1) {
                Ok(v) => v,
                Err(e) => {
                    proof {
                        lemma_first_refused(ts, base64_char_test(), start + 1);
                    }
                    return Err(e);
                },
            };
            let v2 = if c2 == PAD {
                0
            } else {
                match dec_byte(c2) {
                    Ok(v) => v,
                    Err(e) => {
                        proof {
                            lemma_first_refused(ts, base64_char_test(), start + 2);
                        }
                        return Err(e);
                    },
                }
            };
            let v3 = if c3 == PAD {
                0
            } else {
                match dec_byte(c3) {
                    Ok(v) => v,
                    Err(e) => {
                        proof {
                            lemma_first_refused(ts, base64_char_test(), start + 3);
                        }
                        return Err(e);
                    },
                }
            };
            let (x0, x1, x2) = join_group(v0, v1, v2, v3);
            let i = 3 * g;
            out[i] = x0;
            if i + 1 < N && c2 != PAD {
                out[i + 1] = x1;
            }
            if i + 2 < N && c3 != PAD {
                out[i + 2] = x2;
            }
            proof {
                assert forall|j: int| 3 * g <= j < 3 * g + 3 && j < N implies #[trigger] out@[j]
                    == base64_byte(ts, N as nat, j) by {
                    assert(j / 3 == g);
                }
            }
            g += 1;
        }
        proof {
            assert(4 * g == ts.len());
            assert(all_accepted(ts, base64_char_test()));
        }
        assert(out@ =~= Seq::new(N as nat, |j: int| base64_byte(ts, N as nat, j)));
        Ok(Bytes::from_bytes(out))
    }
}

/// A base64 digit reads back as the value it was written for, and is no `=`.
proof fn lemma_digit_value(v: int)
    requires
        0 <= v < 64,
    ensures
        base64_value(base64_digit(v)) == v,
        base64_digit(v) != PAD,
        is_base64_char(base64_digit(v)),
        base64_digit(v) < 128,
{
}

/// The four fields of three bytes join back into those bytes.
proof fn lemma_sextets_join(b0: u8, b1: u8, b2: u8)
    ensures
        join_sextets(sextet(b0, b1, b2, 0), sextet(b0, b1, b2, 1), sextet(b0, b1, b2, 2), sextet(b0, b1, b2, 3), 0) == b0,
        join_sextets(sextet(b0, b1, b2, 0), sextet(b0, b1, b2, 1), sextet(b0, b1, b2, 2), sextet(b0, b1, b2, 3), 1) == b1,
        join_sextets(sextet(b0, b1, b2, 0), sextet(b0, b1, b2, 1), sextet(b0, b1, b2, 2), sextet(b0, b1, b2, 3), 2) == b2,
        0 <= sextet(b0, b1, b2, 0) < 64,
        0 <= sextet(b0, b1, b2, 1) < 64,
        0 <= sextet(b0, b1, b2, 2) < 64,
        0 <= sextet(b0, b1, b2, 3) < 64,
{
}

/// Base64 text is ASCII: its UTF-8 bytes are the codes of its characters.
pub proof fn lemma_base64_text_bytes(b: Seq<u8>)
    ensures
        forall|i: int|
            0 <= i < base64_len(b.len()) ==> #[trigger] encode_utf8(base64_text(b))[i]
                == base64_code(b, i),
        encode_utf8(base64_text(b)).len() == base64_len(b.len()),
{
    let c = base64_text(b);
    assert forall|i: int| 0 <= i < c.len() implies '\0' <= #[trigger] c[i] <= '\u{7f}' by {
        let g = i / 4;
        let q = i % 4;
        lemma_sextets_join(byte_or_zero(b, 3 * g), byte_or_zero(b, 3 * g + 1), byte_or_zero(b, 3 * g + 2));
        lemma_digit_value(
            sextet(byte_or_zero(b, 3 * g), byte_or_zero(b, 3 * g + 1), byte_or_zero(b, 3 * g + 2), q),
        );
    }
    lemma_ascii_bytes(c);
}

/// Reading back the base64 text of any bytes gives those bytes.
pub proof fn lemma_base64_round_trip(b: Seq<u8>)
    ensures
        base64_decode(encode_utf8(base64_text(b)), b.len()) == Ok::<Seq<u8>, Error>(b),
{
    let n = b.len();
    let t = encode_utf8(base64_text(b));
    lemma_base64_text_bytes(b);
    assert forall|i: int| 0 <= i < t.len() implies #[trigger] base64_char_test()(t[i]) by {
        let g = i / 4;
        let q = i % 4;
        lemma_sextets_join(byte_or_zero(b, 3 * g), byte_or_zero(b, 3 * g + 1), byte_or_zero(b, 3 * g + 2));
        lemma_digit_value(
            sextet(byte_or_zero(b, 3 * g), byte_or_zero(b, 3 * g + 1), byte_or_zero(b, 3 * g + 2), q),
        );
    }
    assert(all_accepted(t, base64_char_test()));
    assert forall|j: int| 0 <= j < n implies #[trigger] base64_byte(t, n, j) == b[j] by {
        let g = j / 3;
        let p = j % 3;
        let b0 = byte_or_zero(b, 3 * g);
        let b1 = byte_or_zero(b, 3 * g + 1);
        let b2 = byte_or_zero(b, 3 * g + 2);
        lemma_sextets_join(b0, b1, b2);
        assert(4 * g + 3 < base64_len(n));
        assert((4 * g) / 4 == g && (4 * g) % 4 == 0);
        assert((4 * g + 1) / 4 == g && (4 * g + 1) % 4 == 1);
        assert((4 * g + 2) / 4 == g && (4 * g + 2) % 4 == 2);
        assert((4 * g + 3) / 4 == g && (4 * g + 3) % 4 == 3);
        let v0 = sextet(b0, b1, b2, 0);
        let v1 = sextet(b0, b1, b2, 1);
        let v2 = sextet(b0, b1, b2, 2);
        let v3 = sextet(b0, b1, b2, 3);
        lemma_digit_value(v0);
        lemma_digit_value(v1);
        lemma_digit_value(v2);
        lemma_digit_value(v3);
        assert(t[4 * g] == base64_digit(v0));
        assert(t[4 * g + 1] == base64_digit(v1));
        if p == 0 {
            assert(b[j] == b0);
        } else if p == 1 {
            assert(t[4 * g + 2] == base64_digit(v2));
            assert(b[j] == b1);
        } else {
            assert(t[4 * g + 2] == base64_digit(v2));
            assert(t[4 * g + 3] == base64_digit(v3));
            assert(b[j] == b2);
        }
    }
    assert(Seq::new(n, |j: int| base64_byte(t, n, j)) =~= b);
}

/// Base64 text of any length but `base64_len(n)` is refused for its size.
pub proof fn lemma_base64_wrong_length(t: Seq<u8>, n: nat)
    requires
        t.len() != base64_len(n),
    ensures
        base64_decode(t, n) == Err::<Seq<u8>, Error>(
            Error::InvalidDataSize { expected: base64_len(n) as usize, got: t.len() as usize },
        ),
{
}

/// Base64 text of the right length whose first byte is neither a digit
/// nor `=` is refused for that byte.
pub proof fn lemma_base64_bad_first_char(t: Seq<u8>, n: nat)
    requires
        t.len() == base64_len(n),
        n > 0,
        !is_base64_char(t[0]),
    ensures
        base64_decode(t, n) == Err::<Seq<u8>, Error>(Error::InvalidBase64Character(t[0] as char)),
{
    lemma_first_refused(t, base64_char_test(), 0);
}

/// Reading back the base64 text of a value of `N` bytes gives that value.
pub proof fn lemma_bytes_base64_round_trip<const N: usize>(v: Bytes<N>)
    requires
        N <= usize::MAX / 2,
    ensures
        base64_decode(encode_utf8(base64_text(v@)), N as nat) == Ok::<Seq<u8>, Error>(v@),
{
    v.lemma_len();
    lemma_base64_round_trip(v@);
}

} // verus!
