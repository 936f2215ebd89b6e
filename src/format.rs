//! The compressed format: what a bitstream decodes to, and what the encoder emits.
use vstd::prelude::*;
use vstd::arithmetic::power2::pow2;
use crate::bits::{bits_of_bytes, bits_value, uint_bits};
use crate::decoder::DecodeError;

verus! {

/// `out` followed by `len` bytes, each copied from `dist` bytes before it.
pub open spec fn copy_back(out: Seq<u8>, dist: nat, len: nat) -> Seq<u8>
    decreases len,
{
    if len == 0 {
        out
    } else {
        let o = copy_back(out, dist, (len - 1) as nat);
        o.push(o[o.len() - dist])
    }
}

/// What the records from bit `pos` on add to `out`, and how reading stops:
/// at the end of input on a record boundary, inside a record, or at a
/// back-reference that reaches before the start of the output.
pub open spec fn decode_from(b: Seq<bool>, w: nat, l: nat, pos: int, out: Seq<u8>) -> (Seq<u8>, DecodeError)
    decreases b.len() - pos,
{
    if pos + 1 > b.len() {
        (out, DecodeError::EndOfInput)
    } else if b[pos] {
        if pos + 9 > b.len() {
            (out, DecodeError::TruncatedStream)
        } else {
            decode_from(b, w, l, pos + 9, out.push(bits_value(b, pos + 1, 8) as u8))
        }
    } else if pos + 1 + w + l > b.len() {
        (out, DecodeError::TruncatedStream)
    } else {
        let dist = bits_value(b, pos + 1, w) + 1;
        let len = bits_value(b, pos + 1 + w, l) + 1;
        if dist > out.len() {
            (out, DecodeError::IllegalBackref)
        } else {
            decode_from(b, w, l, pos + 1 + w + l, copy_back(out, dist, len))
        }
    }
}

/// The whole plaintext of a compressed byte string, and how decoding it ends.
pub open spec fn decoded(input: Seq<u8>, w: nat, l: nat) -> (Seq<u8>, DecodeError) {
    decode_from(bits_of_bytes(input), w, l, 0, Seq::empty())
}

pub proof fn lemma_copy_back(out: Seq<u8>, dist: nat, len: nat)
    requires
        1 <= dist <= out.len(),
    ensures
        copy_back(out, dist, len).len() == out.len() + len,
        copy_back(out, dist, len).subrange(0, out.len() as int) == out,
        forall|i: int|
            out.len() <= i < out.len() + len ==> #[trigger] copy_back(out, dist, len)[i]
                == copy_back(out, dist, len)[i - dist],
    decreases len,
{
    if len > 0 {
        lemma_copy_back(out, dist, (len - 1) as nat);
        let o = copy_back(out, dist, (len - 1) as nat);
        assert(o.push(o[o.len() - dist]).subrange(0, out.len() as int) =~= o.subrange(
            0,
            out.len() as int,
        ));
    }
}

/// Decoding only ever appends to the output it started from.
pub proof fn lemma_decode_from_extends(b: Seq<bool>, w: nat, l: nat, pos: int, out: Seq<u8>)
    ensures
        out.len() <= decode_from(b, w, l, pos, out).0.len(),
        decode_from(b, w, l, pos, out).0.subrange(0, out.len() as int) == out,
    decreases b.len() - pos,
{
    let r = decode_from(b, w, l, pos, out).0;
    if pos + 1 > b.len() {
        assert(out.subrange(0, out.len() as int) =~= out);
    } else if b[pos] {
        if pos + 9 > b.len() {
            assert(out.subrange(0, out.len() as int) =~= out);
        } else {
            let o2 = out.push(bits_value(b, pos + 1, 8) as u8);
            lemma_decode_from_extends(b, w, l, pos + 9, o2);
            assert(r.subrange(0, out.len() as int) =~= r.subrange(0, o2.len() as int).subrange(
                0,
                out.len() as int,
            ));
            assert(o2.subrange(0, out.len() as int) =~= out);
        }
    } else if pos + 1 + w + l > b.len() {
        assert(out.subrange(0, out.len() as int) =~= out);
    } else {
        let dist = bits_value(b, pos + 1, w) + 1;
        let len = bits_value(b, pos + 1 + w, l) + 1;
        if dist > out.len() {
            assert(out.subrange(0, out.len() as int) =~= out);
        } else {
            let o2 = copy_back(out, dist, len);
            lemma_copy_back(out, dist, len);
            lemma_decode_from_extends(b, w, l, pos + 1 + w + l, o2);
            assert(r.subrange(0, out.len() as int) =~= r.subrange(0, o2.len() as int).subrange(
                0,
                out.len() as int,
            ));
        }
    }
}

/// How far the bytes from `q` on agree with those from `p` on, counting from
/// `k` and stopping at `max`.
pub open spec fn common_len(src: Seq<u8>, p: int, q: int, k: nat, max: nat) -> nat
    decreases max - k,
{
    if k >= max || src[q + k] != src[p + k] {
        k
    } else {
        common_len(src, p, q, k + 1, max)
    }
}

/// The longest match for position `p` among the starts `lo..hi`, with its
/// start; of equally long ones the latest start wins.
pub open spec fn best_match(src: Seq<u8>, p: int, max: nat, lo: int, hi: int) -> (nat, int)
    decreases hi - lo,
{
    if hi <= lo {
        (0, p)
    } else {
        let prev = best_match(src, p, max, lo, hi - 1);
        let m = common_len(src, p, hi - 1, 0, max);
        if m >= prev.0 {
            (m, hi - 1)
        } else {
            prev
        }
    }
}

/// The first position that a back-reference from `p` may reach.
pub open spec fn window_start(p: int, w: nat) -> int {
    if p >= pow2(w) {
        p - pow2(w)
    } else {
        0
    }
}

/// How many bytes a match at `p` may cover.
pub open spec fn match_limit(src: Seq<u8>, p: int, l: nat) -> nat {
    if pow2(l) <= src.len() - p {
        pow2(l)
    } else {
        (src.len() - p) as nat
    }
}

/// The match the encoder uses at `p`.
pub open spec fn match_at(src: Seq<u8>, p: int, w: nat, l: nat) -> (nat, int) {
    best_match(src, p, match_limit(src, p, l), window_start(p, w), p)
}

/// Shortest match worth a back-reference: two bytes cost about as much as
/// one back-reference record.
pub const MIN_MATCH_LEN: usize = 2;

pub open spec fn literal_bits(v: u8) -> Seq<bool> {
    seq![true] + uint_bits(v as nat, 8)
}

pub open spec fn backref_bits(dist: nat, len: nat, w: nat, l: nat) -> Seq<bool> {
    seq![false] + uint_bits((dist - 1) as nat, w) + uint_bits((len - 1) as nat, l)
}

/// The records the encoder emits for `src` from `p` on.
pub open spec fn encoded_from(src: Seq<u8>, w: nat, l: nat, p: int) -> Seq<bool>
    decreases src.len() - p,
    via encoded_from_decreases
{
    if p >= src.len() || p < 0 {
        Seq::empty()
    } else {
        let (m, q) = match_at(src, p, w, l);
        if m >= MIN_MATCH_LEN {
            backref_bits((p - q) as nat, m, w, l) + encoded_from(src, w, l, p + m)
        } else {
            literal_bits(src[p]) + encoded_from(src, w, l, p + 1)
        }
    }
}

#[via_fn]
proof fn encoded_from_decreases(src: Seq<u8>, w: nat, l: nat, p: int) {
    if !(p >= src.len() || p < 0) {
        lemma_best_match(src, p, match_limit(src, p, l), window_start(p, w), p);
    }
}

/// The bitstream of `src`, before padding.
pub open spec fn encoded_bits(src: Seq<u8>, w: nat, l: nat) -> Seq<bool> {
    encoded_from(src, w, l, 0)
}

/// How many bytes hold `n` bits.
pub open spec fn bytes_for(n: nat) -> nat {
    (n + 7) / 8
}

/// `b` followed by zero bits up to a whole number of bytes.
pub open spec fn padded(b: Seq<bool>) -> Seq<bool> {
    b + Seq::new((8 * bytes_for(b.len()) - b.len()) as nat, |i: int| false)
}

pub proof fn lemma_common_len(src: Seq<u8>, p: int, q: int, k: nat, max: nat)
    requires
        k <= max,
    ensures
        k <= common_len(src, p, q, k, max) <= max,
        forall|i: int|
            k <= i < common_len(src, p, q, k, max) ==> #[trigger] src[q + i] == src[p + i],
    decreases max - k,
{
    if !(k >= max || src[q + k] != src[p + k]) {
        lemma_common_len(src, p, q, k + 1, max);
    }
}

pub proof fn lemma_best_match(src: Seq<u8>, p: int, max: nat, lo: int, hi: int)
    ensures
        best_match(src, p, max, lo, hi).0 <= max,
        hi > lo ==> lo <= best_match(src, p, max, lo, hi).1 < hi,
        forall|i: int|
            0 <= i < best_match(src, p, max, lo, hi).0 ==> #[trigger] src[best_match(
                src,
                p,
                max,
                lo,
                hi,
            ).1 + i] == src[p + i],
    decreases hi - lo,
{
    if hi > lo {
        lemma_best_match(src, p, max, lo, hi - 1);
        lemma_common_len(src, p, hi - 1, 0, max);
    }
}

} // verus!
