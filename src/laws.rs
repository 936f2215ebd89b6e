//! Properties that tie the encoder's output to what the decoder reads.
use vstd::prelude::*;
use vstd::arithmetic::power2::{pow2, lemma2_to64};
use vstd::arithmetic::div_mod::lemma_small_mod;
use crate::bits::{bits_of_bytes, bits_value, uint_bits, lemma_bits_value_ext, lemma_uint_bits_value};
use crate::config::Config;
use crate::format::{
    copy_back, decode_from, decoded, encoded_bits, encoded_from, lemma_best_match,
    lemma_decode_from_extends, literal_bits, backref_bits, match_at, match_limit, padded,
    window_start, MIN_MATCH_LEN,
};

verus! {

/// Copying `len` bytes from `dist` back, where the input repeats itself at
/// that distance, continues the input.
proof fn lemma_copy_back_repeats(src: Seq<u8>, p: int, dist: nat, len: nat)
    requires
        1 <= dist <= p,
        p + len <= src.len(),
        forall|i: int| 0 <= i < len ==> #[trigger] src[p + i] == src[p - dist + i],
    ensures
        copy_back(src.subrange(0, p), dist, len) == src.subrange(0, p + len),
    decreases len,
{
    if len > 0 {
        lemma_copy_back_repeats(src, p, dist, (len - 1) as nat);
        let o = src.subrange(0, p + len - 1);
        assert(src[p + (len - 1)] == src[p - dist + (len - 1)]);
        assert(o.push(o[o.len() - dist]) =~= src.subrange(0, p + len));
    }
}

/// A field written with `uint_bits` inside `b` reads back as its value.
proof fn lemma_field(b: Seq<bool>, pos: int, v: nat, n: nat)
    requires
        v < pow2(n),
        0 <= pos,
        pos + n <= b.len(),
        b.subrange(pos, pos + n) == uint_bits(v, n),
    ensures
        bits_value(b, pos, n) == v,
{
    lemma_uint_bits_value(v, n);
    lemma_small_mod(v, pow2(n));
    assert forall|i: int| 0 <= i < n implies #[trigger] uint_bits(v, n)[0 + i] == b[pos + i] by {
        assert(b.subrange(pos, pos + n)[i] == b[pos + i]);
    }
    lemma_bits_value_ext(uint_bits(v, n), 0, b, pos, n);
}

proof fn lemma_decode_encoded(src: Seq<u8>, w: nat, l: nat, p: int, b: Seq<bool>, pos: int)
    requires
        1 <= w <= 16,
        1 <= l <= 16,
        0 <= p <= src.len(),
        0 <= pos,
        pos + encoded_from(src, w, l, p).len() <= b.len(),
        b.subrange(pos, pos + encoded_from(src, w, l, p).len()) == encoded_from(src, w, l, p),
    ensures
        src.len() <= decode_from(b, w, l, pos, src.subrange(0, p)).0.len(),
        decode_from(b, w, l, pos, src.subrange(0, p)).0.subrange(0, src.len() as int) == src,
    decreases src.len() - p,
{
    let e = encoded_from(src, w, l, p);
    let out = src.subrange(0, p);
    if p == src.len() {
        lemma_decode_from_extends(b, w, l, pos, out);
        assert(out =~= src);
    } else {
        let (m, q) = match_at(src, p, w, l);
        lemma_best_match(src, p, match_limit(src, p, l), window_start(p, w), p);
        lemma2_to64();
        assert(b[pos] == e[0]) by {
            assert(b.subrange(pos, pos + e.len())[0] == b[pos]);
        }
        if m >= MIN_MATCH_LEN {
            let rec = backref_bits((p - q) as nat, m, w, l);
            let next = encoded_from(src, w, l, p + m);
            assert(e == rec + next);
            lemma_uint_bits_value((p - q - 1) as nat, w);
            lemma_uint_bits_value((m - 1) as nat, l);
            assert(rec.len() == 1 + w + l);
            let u1 = uint_bits((p - q - 1) as nat, w);
            let u2 = uint_bits((m - 1) as nat, l);
            assert forall|i: int| 0 <= i < w implies #[trigger] b.subrange(pos + 1, pos + 1 + w)[i]
                == u1[i] by {
                assert(b.subrange(pos, pos + e.len())[1 + i] == e[1 + i]);
                assert(e[1 + i] == rec[1 + i]);
                assert(rec[1 + i] == (seq![false] + u1)[1 + i]);
            }
            assert forall|i: int| 0 <= i < l implies #[trigger] b.subrange(
                pos + 1 + w,
                pos + 1 + w + l,
            )[i] == u2[i] by {
                assert(b.subrange(pos, pos + e.len())[1 + w + i] == e[1 + w + i]);
                assert(e[1 + w + i] == rec[1 + w + i]);
            }
            assert(b.subrange(pos + 1, pos + 1 + w) =~= u1);
            assert(b.subrange(pos + 1 + w, pos + 1 + w + l) =~= u2);
            lemma_field(b, pos + 1, (p - q - 1) as nat, w);
            assert(m <= pow2(l));
            lemma_field(b, pos + 1 + w, (m - 1) as nat, l);
            assert forall|i: int| 0 <= i < m implies #[trigger] src[p + i] == src[p - (p - q) as nat
                + i] by {
                assert(src[q + i] == src[p + i]);
            }
            lemma_copy_back_repeats(src, p, (p - q) as nat, m);
            assert forall|i: int| 0 <= i < next.len() implies #[trigger] b.subrange(
                pos + 1 + w + l,
                pos + 1 + w + l + next.len(),
            )[i] == next[i] by {
                assert(b.subrange(pos, pos + e.len())[1 + w + l + i] == e[1 + w + l + i]);
            }
            assert(b.subrange(pos + 1 + w + l, pos + 1 + w + l + next.len()) =~= next);
            lemma_decode_encoded(src, w, l, p + m, b, pos + 1 + w + l);
        } else {
            let rec = literal_bits(src[p]);
            let next = encoded_from(src, w, l, p + 1);
            assert(e == rec + next);
            lemma_uint_bits_value(src[p] as nat, 8);
            let u = uint_bits(src[p] as nat, 8);
            assert forall|i: int| 0 <= i < 8 implies #[trigger] b.subrange(pos + 1, pos + 9)[i]
                == u[i] by {
                assert(b.subrange(pos, pos + e.len())[1 + i] == e[1 + i]);
                assert(e[1 + i] == rec[1 + i]);
            }
            assert(b.subrange(pos + 1, pos + 9) =~= u);
            lemma_field(b, pos + 1, src[p] as nat, 8);
            assert(out.push(src[p]) =~= src.subrange(0, p + 1));
            assert(rec.len() == 9);
            assert forall|i: int| 0 <= i < next.len() implies #[trigger] b.subrange(
                pos + 9,
                pos + 9 + next.len(),
            )[i] == next[i] by {
                assert(b.subrange(pos, pos + e.len())[9 + i] == e[9 + i]);
            }
            assert(b.subrange(pos + 9, pos + 9 + next.len()) =~= next);
            lemma_decode_encoded(src, w, l, p + 1, b, pos + 9);
        }
    }
}

/// Round trip: a byte string whose bits are the encoder's padded output for
/// `src` decodes to `src`, possibly followed by bytes read from the padding.
/// So the first `src.len()` bytes that the decoder hands out are `src`.
pub proof fn lemma_round_trip(src: Seq<u8>, cfg: Config, compressed: Seq<u8>)
    requires
        cfg.wf(),
        bits_of_bytes(compressed) == padded(
            encoded_bits(src, cfg.window_bits(), cfg.lookahead_bits()),
        ),
    ensures
        src.len() <= decoded(compressed, cfg.window_bits(), cfg.lookahead_bits()).0.len(),
        decoded(compressed, cfg.window_bits(), cfg.lookahead_bits()).0.subrange(
            0,
            src.len() as int,
        ) == src,
{
    let w = cfg.window_bits();
    let l = cfg.lookahead_bits();
    let e = encoded_bits(src, w, l);
    let b = bits_of_bytes(compressed);
    assert(b.subrange(0, e.len() as int) =~= e);
    assert(src.subrange(0, 0) =~= Seq::<u8>::empty());
    lemma_decode_encoded(src, w, l, 0, b, 0);
}

/// A back-reference one byte back repeats the last byte `len` times.
pub proof fn lemma_overlap_run(out: Seq<u8>, len: nat)
    requires
        out.len() >= 1,
    ensures
        copy_back(out, 1, len) == out + Seq::new(len, |i: int| out.last()),
    decreases len,
{
    if len > 0 {
        lemma_overlap_run(out, (len - 1) as nat);
        let o = copy_back(out, 1, (len - 1) as nat);
        assert(o.push(o[o.len() - 1]) =~= out + Seq::new(len, |i: int| out.last()));
    } else {
        assert(out + Seq::new(0, |i: int| out.last()) =~= out);
    }
}

} // verus!
