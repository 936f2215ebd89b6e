//! Bit emission into a byte slice through an accumulator, most significant bit first.
use vstd::prelude::*;
use vstd::arithmetic::power2::{pow2, lemma2_to64, lemma_pow2_pos, lemma_pow2_strictly_increases, lemma_pow2_adds};
use vstd::arithmetic::div_mod::lemma_fundamental_div_mod_converse;
use vstd::bits::{lemma_u32_shr_is_div, lemma_u32_shl_is_mul};
use crate::bits::{
    bits_of_bytes, bits_value, byte_bit, uint_bits, lemma_bits_value_bound, lemma_bits_value_split,
    lemma_bits_value_ext, lemma_bits_value_bit, lemma_uint_bits_value, lemma_bits_of_bytes_push,
};
use crate::format::{bytes_for, padded};

verus! {

/// Bits written so far: the whole bytes are in the destination, the rest
/// (fewer than eight) wait in the accumulator.
pub struct BitWriter {
    acc: u32,
    nacc: u32,
    pos: usize,
    bits: Ghost<Seq<bool>>,
}

proof fn lemma_zeros_value(b: Seq<bool>, pos: int, n: nat)
    requires
        forall|i: int| pos <= i < pos + n ==> !#[trigger] b[i],
    ensures
        bits_value(b, pos, n) == 0,
    decreases n,
{
    if n > 0 {
        lemma_zeros_value(b, pos, (n - 1) as nat);
        assert(!b[pos + n - 1]);
    }
}

/// Writing `byte` at `pos` puts the bits `b[8 * pos ..]` after the bytes already there.
proof fn lemma_store_byte(dst: Seq<u8>, pos: int, byte: u8, b: Seq<bool>)
    requires
        0 <= pos < dst.len(),
        8 * pos + 8 <= b.len(),
        bits_of_bytes(dst.subrange(0, pos)) == b.subrange(0, 8 * pos),
        byte as nat == bits_value(b, 8 * pos, 8),
    ensures
        bits_of_bytes(dst.update(pos, byte).subrange(0, pos + 1)) == b.subrange(0, 8 * pos + 8),
{
    let d2 = dst.update(pos, byte);
    assert(d2.subrange(0, pos + 1) =~= dst.subrange(0, pos).push(byte));
    lemma_bits_of_bytes_push(dst.subrange(0, pos), byte);
    let lhs = bits_of_bytes(d2.subrange(0, pos + 1));
    let rhs = b.subrange(0, 8 * pos + 8);
    assert forall|i: int| 0 <= i < lhs.len() implies lhs[i] == rhs[i] by {
        if i >= 8 * pos {
            let j = i - 8 * pos;
            lemma_bits_value_bit(b, 8 * pos, 8, j as nat);
            assert(byte_bit(byte, j) == b[8 * pos + j]);
        } else {
            assert(b.subrange(0, 8 * pos)[i] == rhs[i]);
        }
    }
    assert(lhs =~= rhs);
}

impl BitWriter {
    /// Every bit written so far.
    pub closed spec fn bits(&self) -> Seq<bool> {
        self.bits@
    }

    pub closed spec fn wf(&self, dst: Seq<u8>) -> bool {
        &&& self.nacc < 8
        &&& self.pos <= dst.len()
        &&& self.bits@.len() == 8 * self.pos + self.nacc
        &&& self.acc == bits_value(self.bits@, 8 * self.pos, self.nacc as nat)
        &&& bits_of_bytes(dst.subrange(0, self.pos as int)) == self.bits@.subrange(
            0,
            8 * self.pos,
        )
    }

    pub fn new() -> (r: Self)
        ensures
            forall|dst: Seq<u8>| r.wf(dst),
            r.bits() == Seq::<bool>::empty(),
    {
        let r = BitWriter { acc: 0, nacc: 0, pos: 0, bits: Ghost(Seq::empty()) };
        assert forall|dst: Seq<u8>| r.wf(dst) by {
            assert(bits_of_bytes(dst.subrange(0, 0)) =~= Seq::<bool>::empty().subrange(0, 0));
        }
        r
    }

    /// Appends the `n` low bits of `value`, most significant first. Fails,
    /// having written what fits, when a whole byte has no room left.
    pub fn put(&mut self, dst: &mut [u8], value: u32, n: u32) -> (ok: bool)
        requires
            old(self).wf(old(dst)@),
            1 <= n <= 16,
            value < pow2(n as nat),
        ensures
            final(dst)@.len() == old(dst)@.len(),
            ok <==> (old(self).bits() + uint_bits(value as nat, n as nat)).len() / 8 <= old(
                dst,
            )@.len(),
            ok ==> final(self).wf(final(dst)@) && final(self).bits() == old(self).bits()
                + uint_bits(value as nat, n as nat),
    {
        let ghost nb = self.bits@ + uint_bits(value as nat, n as nat);
        proof {
            lemma2_to64();
            lemma_uint_bits_value(value as nat, n as nat);
            vstd::arithmetic::div_mod::lemma_small_mod(value as nat, pow2(n as nat));
            lemma_bits_value_split(nb, 8 * self.pos, self.nacc as nat, n as nat);
            lemma_bits_value_ext(self.bits@, 8 * self.pos, nb, 8 * self.pos, self.nacc as nat);
            lemma_bits_value_ext(
                uint_bits(value as nat, n as nat),
                0,
                nb,
                8 * self.pos + self.nacc,
                n as nat,
            );
            lemma_pow2_strictly_increases(self.nacc as nat, 8);
            lemma_bits_value_bound(self.bits@, 8 * self.pos, self.nacc as nat);
            lemma_pow2_adds(8, n as nat);
            if n < 16 {
                lemma_pow2_strictly_increases(n as nat, 16);
            }
            lemma_pow2_strictly_increases(8 + n as nat, 32);
            let a = self.acc as nat;
            assert(a * pow2(n as nat) + value < pow2(8 + n as nat)) by (nonlinear_arith)
                requires
                    a < pow2(8),
                    value < pow2(n as nat),
                    pow2(8 + n as nat) == pow2(8) * pow2(n as nat),
            ;
            lemma_u32_shl_is_mul(self.acc, n);
            assert(self.acc << n < 0x1_0000_0000);
            assert(nb.subrange(0, 8 * self.pos) =~= self.bits@.subrange(0, 8 * self.pos));
            lemma_u32_shl_is_mul(1, n);
            let a32 = self.acc;
            assert(((a32 << n) | value) == (a32 << n) + value) by (bit_vector)
                requires
                    a32 < 256,
                    value < (1u32 << n),
                    n <= 16,
            ;
        }
        self.acc = (self.acc << n) | value;
        self.nacc = self.nacc + n;
        self.bits = Ghost(nb);
        while self.nacc >= 8
            invariant
                self.nacc < 24,
                self.pos <= dst@.len(),
                dst@.len() == old(dst)@.len(),
                self.bits@ == nb,
                nb == old(self).bits() + uint_bits(value as nat, n as nat),
                nb.len() == 8 * self.pos + self.nacc,
                self.acc == bits_value(nb, 8 * self.pos, self.nacc as nat),
                bits_of_bytes(dst@.subrange(0, self.pos as int)) == nb.subrange(0, 8 * self.pos),
            decreases self.nacc,
        {
            if self.pos >= dst.len() {
                let ghost dl = dst@.len();
                assert(nb.len() / 8 > dl) by (nonlinear_arith)
                    requires
                        nb.len() == 8 * self.pos + self.nacc,
                        self.nacc >= 8,
                        self.pos >= dl,
                ;
                return false;
            }
            let s = self.nacc - 8;
            let ghost p8 = 8 * self.pos;
            proof {
                lemma2_to64();
                lemma_bits_value_split(nb, p8, 8, s as nat);
                lemma_bits_value_bound(nb, p8 + 8, s as nat);
                lemma_bits_value_bound(nb, p8, 8);
                lemma_pow2_pos(s as nat);
                lemma_u32_shr_is_div(self.acc, s);
                lemma_fundamental_div_mod_converse(
                    self.acc as int,
                    pow2(s as nat) as int,
                    bits_value(nb, p8, 8) as int,
                    bits_value(nb, p8 + 8, s as nat) as int,
                );
                assert(bits_value(nb, p8, 8) * pow2(s as nat) <= self.acc) by (nonlinear_arith)
                    requires
                        self.acc == bits_value(nb, p8, 8) * pow2(s as nat) + bits_value(
                            nb,
                            p8 + 8,
                            s as nat,
                        ),
                ;
            }
            let byte = self.acc >> s;
            proof {
                lemma_u32_shl_is_mul(byte, s);
                lemma_store_byte(dst@, self.pos as int, byte as u8, nb);
            }
            dst[self.pos] = byte as u8;
            self.acc = self.acc - (byte << s);
            self.nacc = s;
            self.pos = self.pos + 1;
        }
        true
    }

    /// Writes the bits still in the accumulator, padded with zeros to a byte.
    /// Returns how many bytes hold the stream, or `None` without room for the last one.
    pub fn flush(&mut self, dst: &mut [u8]) -> (r: Option<usize>)
        requires
            old(self).wf(old(dst)@),
        ensures
            final(dst)@.len() == old(dst)@.len(),
            r.is_some() <==> bytes_for(old(self).bits().len()) <= old(dst)@.len(),
            r.is_some() ==> r.unwrap() == bytes_for(old(self).bits().len()) && bits_of_bytes(
                final(dst)@.subrange(0, r.unwrap() as int),
            ) == padded(old(self).bits()),
    {
        let ghost b = self.bits@;
        let ghost pb = padded(b);
        if self.nacc == 0 {
            assert(pb =~= b);
            assert(b.subrange(0, 8 * self.pos) =~= b);
            return Some(self.pos);
        }
        if self.pos >= dst.len() {
            return None;
        }
        let s = 8 - self.nacc;
        let ghost p8 = 8 * self.pos;
        proof {
            lemma2_to64();
            lemma_bits_value_split(pb, p8, self.nacc as nat, s as nat);
            lemma_bits_value_ext(b, p8, pb, p8, self.nacc as nat);
            lemma_zeros_value(pb, p8 + self.nacc, s as nat);
            lemma_bits_value_bound(b, p8, self.nacc as nat);
            lemma_pow2_adds(self.nacc as nat, s as nat);
            lemma_pow2_pos(s as nat);
            assert(self.acc * pow2(s as nat) < 256) by (nonlinear_arith)
                requires
                    self.acc < pow2(self.nacc as nat),
                    pow2(self.nacc as nat) * pow2(s as nat) == pow2(8),
                    pow2(8) == 256,
            ;
            lemma_u32_shl_is_mul(self.acc, s);
            assert(pb.subrange(0, p8) =~= b.subrange(0, p8));
            lemma_store_byte(dst@, self.pos as int, (self.acc << s) as u8, pb);
            assert(pb.len() == p8 + 8);
            assert(pb.subrange(0, p8 + 8) =~= pb);
        }
        dst[self.pos] = (self.acc << s) as u8;
        Some(self.pos + 1)
    }
}

} // verus!
