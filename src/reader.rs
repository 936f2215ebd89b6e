//! Bit extraction from a byte slice through a 32-bit accumulator.
use vstd::prelude::*;
use vstd::arithmetic::power2::{pow2, lemma2_to64, lemma_pow2_pos};
use vstd::arithmetic::div_mod::lemma_fundamental_div_mod_converse;
use vstd::bits::{lemma_u32_shr_is_div, lemma_u32_shl_is_mul};
use crate::bits::{bits_of_bytes, bits_value, lemma_bits_value_bound, lemma_bits_value_split, lemma_byte_value};

verus! {

/// How many whole bytes must enter an accumulator holding `pending` bits
/// before `n` bits can be served.
pub open spec fn bytes_to_load(pending: nat, n: nat) -> nat {
    if n > pending {
        ((n - pending + 7) / 8) as nat
    } else {
        0
    }
}

/// Reads bits most significant first; whole bytes enter the accumulator on
/// its low side, and requests are served from its high side.
#[derive(Clone, Copy)]
pub struct BitReader<'a> {
    input: &'a [u8],
    index: usize,
    buffer: u32,
    count: u32,
}

impl<'a> BitReader<'a> {
    pub closed spec fn bytes(&self) -> Seq<u8> {
        self.input@
    }

    pub open spec fn bits(&self) -> Seq<bool> {
        bits_of_bytes(self.bytes())
    }

    /// How many bits of the input have been handed out.
    pub closed spec fn consumed(&self) -> int {
        8 * self.index - self.count
    }

    /// How many input bytes have entered the accumulator.
    pub closed spec fn loaded(&self) -> nat {
        self.index as nat
    }

    /// How many bits wait in the accumulator.
    pub closed spec fn pending(&self) -> nat {
        self.count as nat
    }

    pub closed spec fn wf(&self) -> bool {
        &&& self.index <= self.input@.len()
        &&& self.count <= 23
        &&& self.count <= 8 * self.index
        &&& self.buffer == bits_value(self.bits(), self.consumed(), self.count as nat)
    }

    pub proof fn lemma_consumed_in_range(&self)
        requires
            self.wf(),
        ensures
            0 <= self.consumed() <= self.bits().len(),
    {
    }

    pub fn new(input: &'a [u8]) -> (r: Self)
        ensures
            r.wf(),
            r.bytes() == input@,
            r.consumed() == 0,
    {
        BitReader { input, index: 0, buffer: 0, count: 0 }
    }

    /// The next `n` bits as a number, or `None` where fewer are left.
    pub fn get_bits(&mut self, n: u32) -> (r: Option<u32>)
        requires
            old(self).wf(),
            1 <= n <= 16,
        ensures
            final(self).wf(),
            final(self).bytes() == old(self).bytes(),
            old(self).consumed() + n <= old(self).bits().len() ==> r == Some(
                bits_value(old(self).bits(), old(self).consumed(), n as nat) as u32,
            ) && final(self).consumed() == old(self).consumed() + n && final(self).loaded() == old(self).loaded() + bytes_to_load(old(self).pending(), n as nat) && final(self).pending()
                == old(self).pending() + 8 * bytes_to_load(old(self).pending(), n as nat) - n,
            old(self).consumed() + n > old(self).bits().len() ==> r.is_none()
                && final(self).consumed() == old(self).consumed() && final(self).loaded()
                == old(self).bytes().len(),
    {
        loop
            invariant
                self.wf(),
                self.bytes() == old(self).bytes(),
                self.consumed() == old(self).consumed(),
                1 <= n <= 16,
                self.count == old(self).count + 8 * (self.index - old(self).index),
                self.index > old(self).index ==> self.count < n + 8,
                self.index >= old(self).index,
            decreases self.input@.len() - self.index,
        {
            let ghost b = self.bits();
            let ghost c = self.consumed();
            if self.count >= n {
                let s = self.count - n;
                proof {
                    lemma_bits_value_split(b, c, n as nat, s as nat);
                    lemma_bits_value_bound(b, c + n, s as nat);
                    lemma_bits_value_bound(b, c, n as nat);
                    lemma_pow2_pos(s as nat);
                    lemma_u32_shr_is_div(self.buffer, s);
                    lemma_fundamental_div_mod_converse(
                        self.buffer as int,
                        pow2(s as nat) as int,
                        bits_value(b, c, n as nat) as int,
                        bits_value(b, c + n, s as nat) as int,
                    );
                    assert(bits_value(b, c, n as nat) * pow2(s as nat) <= self.buffer) by (nonlinear_arith)
                        requires
                            self.buffer == bits_value(b, c, n as nat) * pow2(s as nat)
                                + bits_value(b, c + n, s as nat),
                    ;
                }
                let ghost c0 = old(self).count as int;
                let ghost i0 = old(self).index as int;
                let ghost k = self.index - i0;
                assert(k == bytes_to_load(c0 as nat, n as nat)) by (nonlinear_arith)
                    requires
                        self.count == c0 + 8 * k,
                        k > 0 ==> self.count < n + 8,
                        k >= 0,
                        c0 >= 0,
                        self.count >= n,
                ;
                let r = self.buffer >> s;
                proof {
                    lemma_u32_shl_is_mul(r, s);
                }
                self.buffer = self.buffer - (r << s);
                self.count = s;
                return Some(r);
            }
            if self.index >= self.input.len() {
                return None;
            }
            let byte = self.input[self.index];
            proof {
                lemma_bits_value_bound(b, c, self.count as nat);
                lemma_pow2_pos(self.count as nat);
                vstd::arithmetic::power2::lemma_pow2_strictly_increases(self.count as nat, 16);
                lemma2_to64();
                lemma_bits_value_split(b, c, self.count as nat, 8);
                lemma_byte_value(self.input@, self.index as int);
                assert(c + self.count == 8 * self.index);
                let x = self.buffer;
                assert((x << 8) | (byte as u32) == x * 256 + byte) by (bit_vector)
                    requires
                        x < 0x10000,
                ;
            }
            self.buffer = (self.buffer << 8) | (byte as u32);
            self.index = self.index + 1;
            self.count = self.count + 8;
        }
    }
}

} // verus!
