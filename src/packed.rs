use vstd::arithmetic::div_mod::{
    lemma_div_denominator, lemma_fundamental_div_mod_converse_div,
    lemma_fundamental_div_mod_converse_mod, lemma_mod_breakdown, lemma_mod_decreases, lemma_small_mod,
};
use vstd::arithmetic::power2::{lemma2_to64, lemma_pow2_adds, lemma_pow2_pos, lemma_pow2_unfold, pow2};
use vstd::prelude::*;

use crate::error::Error;

verus! {

/// The number of bits that `v` needs: zero for zero.
pub open spec fn bits_needed(v: nat) -> nat
    decreases v,
{
    if v == 0 {
        0
    } else {
        1 + bits_needed(v / 2)
    }
}

/// The largest of the values, or zero when there are none.
pub open spec fn max_value(s: Seq<nat>) -> nat
    decreases s.len(),
{
    if s.len() == 0 {
        0
    } else {
        let m = max_value(s.drop_last());
        if s.last() > m {
            s.last()
        } else {
            m
        }
    }
}

/// The whole bytes that each value takes at a bit width.
pub open spec fn bytes_per_value(bit_width: nat) -> nat {
    (bit_width + 7) / 8
}

/// The length of the packed payload of `n` values at a bit width.
pub open spec fn payload_len(n: nat, bit_width: nat) -> nat {
    (n * bit_width + 7) / 8
}

/// Byte `k` of `v`, least significant first.
pub open spec fn le_byte(v: nat, k: nat) -> u8 {
    ((v / pow2(8 * k)) % 256) as u8
}

/// The packed payload of `vals` at a bit width: each value, cut to its low
/// `bit_width` bits, written as `bytes_per_value` little-endian bytes, one
/// value after the other, and the whole cut to `payload_len` bytes.
pub open spec fn packed_payload(vals: Seq<nat>, bit_width: nat) -> Seq<u8> {
    let d = bytes_per_value(bit_width);
    Seq::new(
        payload_len(vals.len(), bit_width),
        |p: int| le_byte(vals[p / d as int] % pow2(bit_width), (p % d as int) as nat),
    )
}

/// The number that little-endian bytes stand for.
pub open spec fn le_value(s: Seq<u8>) -> nat
    decreases s.len(),
{
    if s.len() == 0 {
        0
    } else {
        (s[0] + 256 * le_value(s.drop_first())) as nat
    }
}

/// How many bytes of value `i` the payload of `n` values keeps.
pub open spec fn kept_bytes(n: nat, bit_width: nat, i: int) -> nat {
    let d = bytes_per_value(bit_width);
    let len = payload_len(n, bit_width);
    if len <= i * d {
        0
    } else if len - i * d < d {
        (len - i * d) as nat
    } else {
        d
    }
}

/// Value `i` as read from a payload: the little-endian number in its bytes
/// (fewer at the end of the payload, none past it), cut to `bit_width` bits.
pub open spec fn read_value(t: Seq<u8>, bit_width: nat, i: int) -> nat {
    let d = bytes_per_value(bit_width);
    let start = i * d;
    if t.len() <= start {
        0
    } else {
        le_value(t.subrange(start, if t.len() - start < d { t.len() as int } else { start + d }))
            % pow2(bit_width)
    }
}

/// Whether packing `vals` loses nothing: every value fits in the bytes of
/// it that the payload keeps. The payload has `payload_len` bytes while the
/// values take `bytes_per_value` each, so where the width is no multiple of
/// eight the last values lose their high bytes, or all of them.
pub open spec fn packing_is_lossless(vals: Seq<nat>) -> bool {
    let bw = bits_needed(max_value(vals));
    forall|i: int| 0 <= i < vals.len() ==> #[trigger] vals[i] < pow2(8 * kept_bytes(vals.len(), bw, i))
}

/// What reading `n` values of `bits` bits each at a bit width from `t`
/// gives: a width of zero means all values are zero; a width wider than the
/// values is refused; otherwise the payload must have its exact length.
pub open spec fn unpack_result(n: nat, bits: nat, bit_width: nat, t: Seq<u8>) -> Result<
    Seq<nat>,
    Error,
> {
    if bit_width == 0 {
        Ok(Seq::new(n, |i: int| 0nat))
    } else if bit_width > bits {
        Err(Error::InvalidDataSize { expected: bits as usize, got: bit_width as usize })
    } else if t.len() != payload_len(n, bit_width) {
        Err(Error::InvalidDataSize { expected: payload_len(n, bit_width) as usize, got: t.len() as usize })
    } else {
        Ok(Seq::new(n, |i: int| read_value(t, bit_width, i)))
    }
}

/// The marker that closes an envelope.
pub const SENTINEL: u8 = 0xff;

/// The size of the envelope of `n` values of `bits` bits: one byte of
/// width, then room for all the values at full width.
pub open spec fn envelope_len(n: nat, bits: nat) -> nat {
    n * bits / 8 + 1
}

/// The envelope of `vals`, values of `bits` bits each: the bit width, the
/// packed payload, zeros, and the sentinel `0xff` as the last byte whenever
/// the payload leaves that byte free.
pub open spec fn envelope(vals: Seq<nat>, bits: nat) -> Seq<u8> {
    let bw = bits_needed(max_value(vals));
    let payload = packed_payload(vals, bw);
    let total = envelope_len(vals.len(), bits);
    Seq::new(
        total,
        |i: int|
            if i == 0 {
                bw as u8
            } else if i <= payload.len() {
                payload[i - 1]
            } else if i == total - 1 {
                SENTINEL
            } else {
                0
            },
    )
}

/// What reading `n` values of `bits` bits each from the envelope `t` gives:
/// its size is checked, then its first byte is the bit width at which the
/// payload that follows is read; the bytes after the payload are ignored.
pub open spec fn envelope_decode(n: nat, bits: nat, t: Seq<u8>) -> Result<Seq<nat>, Error> {
    if t.len() != envelope_len(n, bits) {
        Err(Error::InvalidDataSize { expected: envelope_len(n, bits) as usize, got: t.len() as usize })
    } else if t[0] > bits {
        Err(Error::InvalidDataSize { expected: bits as usize, got: t[0] as usize })
    } else {
        unpack_result(n, bits, t[0] as nat, t.subrange(1, 1 + payload_len(n, t[0] as nat) as int))
    }
}

/// A fixed number of unsigned values that pack into as few bits as their
/// largest one needs.
pub trait ReprPacked: Sized {
    /// The values, in order.
    spec fn values(&self) -> Seq<nat>;

    /// How many values there are.
    spec fn count() -> nat;

    /// How many bits each value has.
    spec fn value_bits() -> nat;

    /// The bit width that the largest value needs, and the values packed at
    /// that width.
    fn pack(&self) -> (r: (usize, Vec<u8>))
        requires
            Self::count() * Self::value_bits() / 8 < usize::MAX,
        ensures
            r.0 == bits_needed(max_value(self.values())),
            r.1@ == packed_payload(self.values(), r.0 as nat),
    ;

    /// Reads the values back from a payload packed at `bit_width`.
    fn unpack(bit_width: usize, input: &[u8]) -> (r: Result<Self, Error>)
        requires
            Self::count() * Self::value_bits() / 8 < usize::MAX,
        ensures
            match unpack_result(Self::count(), Self::value_bits(), bit_width as nat, input@) {
                Ok(v) => r matches Ok(l) && l.values() == v,
                Err(e) => r == Err::<Self, Error>(e),
            },
    ;
}

/// A value is below two to the power of the bits it needs.
pub proof fn lemma_bits_needed_bound(v: nat)
    ensures
        v < pow2(bits_needed(v)),
    decreases v,
{
    if v == 0 {
        lemma_pow2_pos(0);
    } else {
        lemma_bits_needed_bound(v / 2);
        lemma_pow2_unfold(bits_needed(v));
    }
}

/// A value below `2^b` needs at most `b` bits.
pub proof fn lemma_bits_needed_at_most(v: nat, b: nat)
    requires
        v < pow2(b),
    ensures
        bits_needed(v) <= b,
    decreases v,
{
    if v > 0 {
        if b == 0 {
            assert(pow2(0) == 1) by {
                lemma2_to64();
            }
        } else {
            lemma_pow2_unfold(b);
            lemma_bits_needed_at_most(v / 2, (b - 1) as nat);
        }
    }
}

/// No value is above the largest one.
pub proof fn lemma_max_value(s: Seq<nat>)
    ensures
        forall|i: int| 0 <= i < s.len() ==> #[trigger] s[i] <= max_value(s),
    decreases s.len(),
{
    if s.len() > 0 {
        lemma_max_value(s.drop_last());
        assert forall|i: int| 0 <= i < s.len() implies #[trigger] s[i] <= max_value(s) by {
            if i < s.len() - 1 {
                assert(s.drop_last()[i] == s[i]);
            }
        }
    }
}

/// The largest of values that are all below a bound is below it too.
pub proof fn lemma_max_value_below(s: Seq<nat>, bound: nat)
    requires
        bound > 0,
        forall|i: int| 0 <= i < s.len() ==> #[trigger] s[i] < bound,
    ensures
        max_value(s) < bound,
    decreases s.len(),
{
    if s.len() > 0 {
        lemma_max_value_below(s.drop_last(), bound);
    }
}

/// Position `p` of a run of blocks of `d` lies in block `i` at `p - i * d`.
pub proof fn lemma_block(p: int, i: int, d: int)
    requires
        0 < d,
        i * d <= p < i * d + d,
    ensures
        p / d == i,
        p % d == p - i * d,
{
    lemma_fundamental_div_mod_converse_div(p, d, i, p - i * d);
    lemma_fundamental_div_mod_converse_mod(p, d, i, p - i * d);
}

/// Dropping the lowest byte of `v / 2^(8k)` gives `v / 2^(8k + 8)`.
pub proof fn lemma_next_byte(v: nat, k: nat)
    ensures
        (v / pow2(8 * k)) / 256 == v / pow2(8 * (k + 1)),
{
    lemma_pow2_pos(8 * k);
    lemma_pow2_adds(8 * k, 8);
    lemma2_to64();
    assert(8 * (k + 1) == 8 * k + 8);
    lemma_div_denominator(v as int, pow2(8 * k) as int, 256);
}

/// One more byte on the low end of a little-endian number.
pub proof fn lemma_le_value_push_front(s: Seq<u8>, b: u8)
    ensures
        le_value(seq![b] + s) == b + 256 * le_value(s),
        le_value(s) < pow2(8 * s.len()) ==> le_value(seq![b] + s) < pow2(8 * (s.len() + 1)),
{
    assert((seq![b] + s).drop_first() =~= s);
    lemma_pow2_adds(8 * s.len(), 8);
    lemma2_to64();
    assert(8 * (s.len() + 1) == 8 * s.len() + 8);
}

/// Byte `k + 1` of `v` is byte `k` of `v / 256`.
pub proof fn lemma_le_byte_shift(v: nat, k: nat)
    ensures
        le_byte(v, k + 1) == le_byte(v / 256, k),
{
    lemma_next_byte(v, 0);
    lemma_pow2_pos(8 * k);
    lemma_pow2_adds(8, 8 * k);
    lemma2_to64();
    assert(8 * (k + 1) == 8 + 8 * k);
    assert(pow2(8 * 0) == 1);
    lemma_div_denominator(v as int, 256, pow2(8 * k) as int);
}

/// The `m` low bytes of `v` stand for `v` modulo `2^(8m)`.
pub proof fn lemma_le_value_of_bytes(v: nat, m: nat)
    ensures
        le_value(Seq::new(m, |k: int| le_byte(v, k as nat))) == v % pow2(8 * m),
    decreases m,
{
    let s = Seq::new(m, |k: int| le_byte(v, k as nat));
    lemma2_to64();
    if m == 0 {
        assert(v % 1 == 0);
    } else {
        let rest = Seq::new((m - 1) as nat, |k: int| le_byte(v / 256, k as nat));
        assert forall|k: int| 0 <= k < m - 1 implies #[trigger] s.drop_first()[k] == rest[k] by {
            lemma_le_byte_shift(v, k as nat);
        }
        assert(s.drop_first() =~= rest);
        lemma_le_value_of_bytes(v / 256, (m - 1) as nat);
        lemma_pow2_pos(8 * (m - 1) as nat);
        lemma_pow2_adds(8, 8 * (m - 1) as nat);
        assert(8 * m == 8 + 8 * (m - 1));
        lemma_mod_breakdown(v as int, 256, pow2(8 * (m - 1) as nat) as int);
        assert(s[0] == v % 256) by {
            assert(pow2(8 * 0) == 1);
        }
    }
}

/// Reading back the packed payload of values gives those values exactly
/// when the payload keeps them whole.
pub proof fn lemma_pack_round_trip(vals: Seq<nat>, bits: nat)
    requires
        forall|i: int| 0 <= i < vals.len() ==> #[trigger] vals[i] < pow2(bits),
    ensures
        unpack_result(
            vals.len(),
            bits,
            bits_needed(max_value(vals)),
            packed_payload(vals, bits_needed(max_value(vals))),
        ) == Ok::<Seq<nat>, Error>(vals) <==> packing_is_lossless(vals),
{
    let n = vals.len();
    let bw = bits_needed(max_value(vals));
    let t = packed_payload(vals, bw);
    let d = bytes_per_value(bw);
    lemma_max_value(vals);
    lemma_bits_needed_bound(max_value(vals));
    lemma_pow2_pos(bits);
    lemma2_to64();
    if bw == 0 {
        assert(Seq::new(n, |i: int| 0nat) =~= vals);
        assert forall|i: int| 0 <= i < n implies #[trigger] vals[i] < pow2(8 * kept_bytes(n, bw, i)) by {
            assert(kept_bytes(n, bw, i) == 0);
        }
    } else {
        lemma_max_value_below(vals, pow2(bits));
        lemma_bits_needed_at_most(max_value(vals), bits);
        assert forall|i: int| 0 <= i < n implies (#[trigger] read_value(t, bw, i) == vals[i] <==> vals[i]
            < pow2(8 * kept_bytes(n, bw, i))) by {
            let start = i * d;
            let m = kept_bytes(n, bw, i);
            lemma_small_mod(vals[i], pow2(bw));
            lemma_pow2_pos(8 * m);
            if t.len() > start {
                let end = if t.len() - start < d { t.len() as int } else { start + d };
                assert(end - start == m);
                let chunk = t.subrange(start, end);
                assert forall|k: int| 0 <= k < m implies #[trigger] chunk[k] == le_byte(vals[i], k as nat) by {
                    lemma_block(start + k, i, d as int);
                }
                assert(chunk =~= Seq::new(m, |k: int| le_byte(vals[i], k as nat)));
                lemma_le_value_of_bytes(vals[i], m);
                let low = vals[i] % pow2(8 * m);
                lemma_pow2_pos(bw);
                lemma_mod_decreases(low, pow2(bw));
                if vals[i] < pow2(8 * m) {
                    lemma_small_mod(vals[i], pow2(8 * m));
                }
            } else {
                assert(m == 0);
                assert(pow2(8 * 0) == 1);
            }
        }
        if packing_is_lossless(vals) {
            assert(Seq::new(n, |i: int| read_value(t, bw, i)) =~= vals);
        }
        if unpack_result(n, bits, bw, t) == Ok::<Seq<nat>, Error>(vals) {
            assert forall|i: int| 0 <= i < n implies #[trigger] vals[i] < pow2(8 * kept_bytes(n, bw, i)) by {
                assert(Seq::new(n, |i: int| read_value(t, bw, i))[i] == vals[i]);
                assert(read_value(t, bw, i) == vals[i]);
            }
        }
    }
}

/// Zero needs no bits, so values that are all zero pack at width zero into
/// an empty payload.
pub proof fn lemma_zeros_pack_empty(vals: Seq<nat>)
    requires
        forall|i: int| 0 <= i < vals.len() ==> #[trigger] vals[i] == 0,
    ensures
        bits_needed(0) == 0,
        bits_needed(max_value(vals)) == 0,
        packed_payload(vals, 0).len() == 0,
{
    lemma2_to64();
    lemma_max_value_below(vals, 1);
}

/// The envelope of values is read back as those values exactly when their
/// packing loses nothing.
pub proof fn lemma_envelope_round_trip(vals: Seq<nat>, bits: nat)
    requires
        bits == 16 || bits == 32 || bits == 64,
        forall|i: int| 0 <= i < vals.len() ==> #[trigger] vals[i] < pow2(bits),
    ensures
        envelope_decode(vals.len(), bits, envelope(vals, bits)) == Ok::<Seq<nat>, Error>(vals)
            <==> packing_is_lossless(vals),
{
    let n = vals.len();
    let bw = bits_needed(max_value(vals));
    let e = envelope(vals, bits);
    lemma_pow2_pos(bits);
    lemma_max_value_below(vals, pow2(bits));
    lemma_bits_needed_at_most(max_value(vals), bits);
    assert(payload_len(n, bw) <= n * bits / 8) by (nonlinear_arith)
        requires
            bw <= bits,
            bits == 16 || bits == 32 || bits == 64,
            payload_len(n, bw) == (n * bw + 7) / 8,
    ;
    assert(e[0] == bw);
    assert(e.subrange(1, 1 + payload_len(n, bw) as int) =~= packed_payload(vals, bw));
    lemma_pack_round_trip(vals, bits);
}

/// The envelope of values that are all zero: width zero, zeros, and the
/// sentinel as the last byte.
pub proof fn lemma_zeros_envelope(vals: Seq<nat>, bits: nat)
    requires
        forall|i: int| 0 <= i < vals.len() ==> #[trigger] vals[i] == 0,
        vals.len() * bits / 8 >= 1,
    ensures
        envelope(vals, bits).len() == envelope_len(vals.len(), bits),
        envelope(vals, bits)[0] == 0,
        forall|k: int|
            1 <= k < envelope_len(vals.len(), bits) - 1 ==> #[trigger] envelope(vals, bits)[k] == 0,
        envelope(vals, bits)[envelope_len(vals.len(), bits) - 1] == SENTINEL,
{
    lemma_zeros_pack_empty(vals);
}

/// The first byte of an envelope is the width that the largest value needs.
pub proof fn lemma_envelope_header(vals: Seq<nat>, bits: nat)
    requires
        bits <= 64,
        forall|i: int| 0 <= i < vals.len() ==> #[trigger] vals[i] < pow2(bits),
    ensures
        envelope(vals, bits)[0] == bits_needed(max_value(vals)),
{
    lemma_pow2_pos(bits);
    lemma_max_value_below(vals, pow2(bits));
    lemma_bits_needed_at_most(max_value(vals), bits);
}

} // verus!
