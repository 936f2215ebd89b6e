//! One-shot encoder: greedy longest-match search over a sliding window.
use vstd::prelude::*;
use vstd::arithmetic::power2::{pow2, lemma2_to64, lemma_pow2_strictly_increases, lemma_pow2_pos};
use vstd::bits::lemma_u32_shl_is_mul;
use crate::bits::{bits_of_bytes, uint_bits, lemma_uint_bits_value};
use crate::config::Config;
use crate::format::{
    best_match, bytes_for, common_len, encoded_bits, encoded_from, lemma_best_match,
    lemma_common_len, match_at, match_limit, padded, window_start, literal_bits, backref_bits,
    MIN_MATCH_LEN,
};
use crate::writer::BitWriter;

verus! {

/// Why encoding failed.
#[derive(Debug, Clone, Copy, PartialEq, Eq, Structural)]
pub enum EncodeError {
    /// The destination cannot hold the whole compressed stream.
    OutputBufferTooSmall,
}

proof fn lemma_too_long(total: nat, part: nat, room: nat)
    requires
        part <= total,
        part / 8 > room,
    ensures
        bytes_for(total) > room,
{
    assert((total + 7) / 8 >= part / 8) by (nonlinear_arith)
        requires
            part <= total,
    ;
}

/// The longest match for `p` among the `window` positions before it,
/// covering at most `lookahead` bytes: its length and its start.
fn find_match(src: &[u8], p: usize, window: usize, lookahead: usize) -> (r: (usize, usize))
    requires
        p < src@.len(),
        window > 0,
    ensures
        (r.0 as nat, r.1 as int) == best_match(
            src@,
            p as int,
            if lookahead <= src@.len() - p { lookahead as nat } else { (src@.len() - p) as nat },
            if p >= window { p - window } else { 0 },
            p as int,
        ),
{
    let lo = if p >= window {
        p - window
    } else {
        0
    };
    let n = src.len();
    let max = if lookahead <= src.len() - p {
        lookahead
    } else {
        src.len() - p
    };
    let mut best_len: usize = 0;
    let mut best_q: usize = p;
    let mut q: usize = lo;
    while q < p
        invariant
            lo <= q <= p < src@.len(),
            n == src@.len(),
            max <= src@.len() - p,
            (best_len as nat, best_q as int) == best_match(src@, p as int, max as nat, lo as int, q as int),
        decreases p - q,
    {
        let mut k: usize = 0;
        while k < max && src[q + k] == src[p + k]
            invariant
                q < p,
                n == src@.len(),
                p + max <= n,
                k <= max,
                common_len(src@, p as int, q as int, k as nat, max as nat) == common_len(
                    src@,
                    p as int,
                    q as int,
                    0,
                    max as nat,
                ),
            decreases max - k,
        {
            k = k + 1;
        }
        if k >= best_len {
            best_len = k;
            best_q = q;
        }
        q = q + 1;
    }
    (best_len, best_q)
}

/// Compresses `src` into the front of `dst` and returns how many bytes of
/// `dst` hold the stream, or fails when they do not fit.
pub fn encode(src: &[u8], dst: &mut [u8], cfg: &Config) -> (r: Result<usize, EncodeError>)
    ensures
        final(dst)@.len() == old(dst)@.len(),
        r.is_ok() <==> bytes_for(
            encoded_bits(src@, cfg.window_bits(), cfg.lookahead_bits()).len(),
        ) <= old(dst)@.len(),
        r.is_ok() ==> r.unwrap() == bytes_for(
            encoded_bits(src@, cfg.window_bits(), cfg.lookahead_bits()).len(),
        ) && bits_of_bytes(final(dst)@.subrange(0, r.unwrap() as int)) == padded(
            encoded_bits(src@, cfg.window_bits(), cfg.lookahead_bits()),
        ),
        r.is_err() ==> r == Err::<usize, EncodeError>(EncodeError::OutputBufferTooSmall),
{
    proof {
        use_type_invariant(cfg);
    }
    let ghost w = cfg.window_bits();
    let ghost l = cfg.lookahead_bits();
    let ghost all = encoded_bits(src@, w, l);
    let window_sz2 = cfg.window_sz2() as u32;
    let lookahead_sz2 = cfg.lookahead_sz2() as u32;
    proof {
        lemma2_to64();
        lemma_pow2_strictly_increases(window_sz2 as nat, 32);
        lemma_pow2_strictly_increases(lookahead_sz2 as nat, 32);
        lemma_u32_shl_is_mul(1, window_sz2);
        lemma_u32_shl_is_mul(1, lookahead_sz2);
        lemma_pow2_pos(window_sz2 as nat);
    }
    let window = (1u32 << window_sz2) as usize;
    let lookahead = (1u32 << lookahead_sz2) as usize;
    let mut writer = BitWriter::new();
    let mut p: usize = 0;
    while p < src.len()
        invariant
            w == window_sz2 && l == lookahead_sz2,
            w == cfg.window_bits() && l == cfg.lookahead_bits(),
            1 <= w <= 16 && 1 <= l <= 16,
            window == pow2(w) && lookahead == pow2(l),
            window > 0,
            all == encoded_bits(src@, w, l),
            p <= src@.len(),
            dst@.len() == old(dst)@.len(),
            writer.wf(dst@),
            writer.bits() + encoded_from(src@, w, l, p as int) == all,
        decreases src@.len() - p,
    {
        let (m, q) = find_match(src, p, window, lookahead);
        let ghost rest = encoded_from(src@, w, l, p as int);
        proof {
            lemma_best_match(
                src@,
                p as int,
                match_limit(src@, p as int, l),
                window_start(p as int, w),
                p as int,
            );
            assert((m as nat, q as int) == match_at(src@, p as int, w, l));
        }
        let ghost before = writer.bits();
        proof {
            lemma2_to64();
            lemma_pow2_strictly_increases(w, 32);
            lemma_pow2_strictly_increases(l, 32);
            lemma_pow2_strictly_increases(8, 32);
        }
        let mut ok: bool;
        let ghost mut tried: Seq<bool>;
        let ghost rec: Seq<bool>;
        if m >= MIN_MATCH_LEN {
            proof {
                rec = backref_bits((p - q) as nat, m as nat, w, l);
                tried = before + uint_bits(0, 1);
                lemma_uint_bits_value(0, 1);
                lemma_uint_bits_value((p - q - 1) as nat, w);
                lemma_uint_bits_value((m - 1) as nat, l);
            }
            ok = writer.put(dst, 0, 1);
            if ok {
                proof {
                    tried = tried + uint_bits((p - q - 1) as nat, w);
                }
                ok = writer.put(dst, (p - q - 1) as u32, window_sz2);
            }
            if ok {
                proof {
                    tried = tried + uint_bits((m - 1) as nat, l);
                }
                ok = writer.put(dst, (m - 1) as u32, lookahead_sz2);
            }
            proof {
                reveal_with_fuel(uint_bits, 2);
                assert(uint_bits(0, 1) =~= seq![false]);
                assert(rest == rec + encoded_from(src@, w, l, p + m));
                if ok {
                    assert(tried =~= before + rec);
                }
            }
        } else {
            proof {
                rec = literal_bits(src@[p as int]);
                tried = before + uint_bits(1, 1);
                lemma_uint_bits_value(1, 1);
                lemma_uint_bits_value(src@[p as int] as nat, 8);
            }
            ok = writer.put(dst, 1, 1);
            if ok {
                proof {
                    tried = tried + uint_bits(src@[p as int] as nat, 8);
                }
                ok = writer.put(dst, src[p] as u32, 8);
            }
            proof {
                reveal_with_fuel(uint_bits, 2);
                assert(uint_bits(1, 1) =~= seq![true]);
                assert(rest == rec + encoded_from(src@, w, l, p + 1));
                if ok {
                    assert(tried =~= before + rec);
                }
            }
        }
        proof {
            if !ok {
                assert(tried.len() <= all.len());
                lemma_too_long(all.len(), tried.len(), dst@.len());
            }
        }
        if !ok {
            return Err(EncodeError::OutputBufferTooSmall);
        }
        p = if m >= MIN_MATCH_LEN {
            p + m
        } else {
            p + 1
        };
    }
    assert(encoded_from(src@, w, l, p as int) =~= Seq::<bool>::empty());
    assert(writer.bits() == all);
    match writer.flush(dst) {
        Some(n) => Ok(n),
        None => Err(EncodeError::OutputBufferTooSmall),
    }
}

} // verus!
