//! Streaming decoder: pulls plaintext bytes one at a time out of a compressed slice.
use vstd::prelude::*;
use vstd::arithmetic::power2::{pow2, lemma2_to64, lemma_pow2_pos, lemma_pow2_strictly_increases};
use crate::bits::{bits_value, lemma_bits_value_bound, lemma_bits_value_split};
use crate::config::Config;
use crate::format::{copy_back, decode_from, decoded, lemma_copy_back, lemma_decode_from_extends};
use crate::reader::BitReader;
use crate::ring::{min_nat, OutputRing, RING_CAPACITY};

verus! {

/// Why the decoder cannot hand out another byte.
#[derive(Debug, Clone, Copy, PartialEq, Eq, Structural)]
pub enum DecodeError {
    /// The input ended where the next record would start: the normal end.
    EndOfInput,
    /// The input ended inside a record.
    TruncatedStream,
    /// A back-reference reached before the first byte of output.
    IllegalBackref,
}

/// Where the parser stands inside the current record.
#[derive(Clone, Copy)]
enum DecoderState {
    TagBit,
    YieldLiteral,
    BackrefIndexMsb,
    BackrefIndexLsb,
    BackrefCountMsb,
    BackrefCountLsb,
    YieldBackref,
    /// Nothing more can be read; the reason is kept.
    Halted(DecodeError),
}

/// The ring holds `1 << ring_sz2(w, l)` bytes: a whole window, and the
/// longest back-reference queued at once.
pub open spec fn ring_sz2(w: nat, l: nat) -> nat {
    if w >= l {
        w
    } else {
        l
    }
}

/// Decoder over a borrowed compressed slice; `next` hands out the plaintext
/// one byte at a time.
#[derive(Clone, Copy)]
pub struct HeatshrinkDecoder<'a> {
    output_count: u32,
    rewind: u32,
    state: DecoderState,
    cfg: Config,
    reader: BitReader<'a>,
    ring: OutputRing,
    record_pos: Ghost<int>,
}

impl<'a> HeatshrinkDecoder<'a> {
    /// The compressed input.
    pub closed spec fn input(&self) -> Seq<u8> {
        self.reader.bytes()
    }

    pub closed spec fn config(&self) -> Config {
        self.cfg
    }

    /// How many plaintext bytes `next` has handed out.
    pub closed spec fn returned(&self) -> nat {
        self.ring.taken()
    }

    /// The plaintext of the input and how decoding it ends.
    pub open spec fn plaintext(&self) -> (Seq<u8>, DecodeError) {
        decoded(self.input(), self.config().window_bits(), self.config().lookahead_bits())
    }

    /// Ready to hand out the first byte of `input` decoded under `cfg`.
    pub open spec fn fresh_over(&self, input: Seq<u8>, cfg: Config) -> bool {
        &&& self.wf()
        &&& self.input() == input
        &&& self.config() == cfg
        &&& self.returned() == 0
    }

    spec fn parse_ok(&self) -> bool {
        let b = self.reader.bits();
        let w = self.cfg.window_bits();
        let l = self.cfg.lookahead_bits();
        let rec = self.record_pos@;
        let c = self.reader.consumed();
        let out = self.ring.produced();
        match self.state {
            DecoderState::Halted(e) => self.plaintext() == (out, e),
            _ => {
                &&& 0 <= rec
                &&& decode_from(b, w, l, rec, out) == self.plaintext()
                &&& match self.state {
                    DecoderState::TagBit => c == rec,
                    DecoderState::YieldLiteral => c == rec + 1 && rec < b.len() && b[rec],
                    DecoderState::BackrefIndexMsb => c == rec + 1 && rec < b.len() && !b[rec] && w
                        > 8,
                    DecoderState::BackrefIndexLsb => rec < b.len() && !b[rec] && if w > 8 {
                        c == rec + 1 + (w - 8) && self.rewind == bits_value(
                            b,
                            rec + 1,
                            (w - 8) as nat,
                        ) * 256
                    } else {
                        c == rec + 1 && self.rewind == 0
                    },
                    DecoderState::BackrefCountMsb => rec < b.len() && !b[rec] && l > 8 && c == rec
                        + 1 + w && self.rewind == bits_value(b, rec + 1, w) + 1,
                    DecoderState::BackrefCountLsb => rec < b.len() && !b[rec] && self.rewind
                        == bits_value(b, rec + 1, w) + 1 && if l > 8 {
                        c == rec + 1 + w + (l - 8) && self.output_count == bits_value(
                            b,
                            rec + 1 + w,
                            (l - 8) as nat,
                        ) * 256
                    } else {
                        c == rec + 1 + w && self.output_count == 0
                    },
                    DecoderState::YieldBackref => rec + 1 + w + l <= b.len() && !b[rec] && c == rec
                        + 1 + w + l && self.rewind == bits_value(b, rec + 1, w) + 1
                        && self.output_count == bits_value(b, rec + 1 + w, l) + 1,
                    DecoderState::Halted(_) => true,
                }
            },
        }
    }

    /// The decoder's internal invariant.
    pub closed spec fn wf(&self) -> bool {
        &&& self.cfg.wf()
        &&& self.reader.wf()
        &&& self.ring.wf()
        &&& self.ring.size() == pow2(
            ring_sz2(self.cfg.window_bits(), self.cfg.lookahead_bits()),
        )
        &&& self.parse_ok()
    }

    spec fn progress(&self) -> nat {
        let left = (self.reader.bits().len() - self.reader.consumed()) as nat;
        let weight: nat = if self.ring.produced().len() > self.ring.taken() {
            0
        } else {
            match self.state {
                DecoderState::Halted(_) => 0,
                DecoderState::YieldBackref => 1,
                _ => 2,
            }
        };
        2 * left + weight
    }

    /// At least `k` more bits are left in the input.
    spec fn has_bits(&self, k: nat) -> bool {
        self.reader.consumed() + k <= self.reader.bits().len()
    }

    /// The number held by the next `k` bits of the input.
    spec fn peek(&self, k: nat) -> nat {
        bits_value(self.reader.bits(), self.reader.consumed(), k)
    }

    /// `k` bits were read from `prev`, and the output and back-reference
    /// fields are as they were.
    spec fn read_only(&self, prev: &Self, k: nat) -> bool {
        &&& self.reader.consumed() == prev.reader.consumed() + k
        &&& self.ring == prev.ring
    }

    /// Reading stopped in `prev`'s state with `e`; nothing was produced.
    spec fn halted_from(&self, prev: &Self, e: DecodeError) -> bool {
        &&& self.state == DecoderState::Halted(e)
        &&& self.ring == prev.ring
    }

    /// `self` is `prev` one parser step later.
    spec fn stepped_from(&self, prev: &Self) -> bool {
        &&& self.wf()
        &&& self.input() == prev.input()
        &&& self.config() == prev.config()
        &&& self.returned() == prev.returned()
        &&& self.progress() < prev.progress()
    }

    /// A decoder over `input`, ready to hand out its first plaintext byte.
    pub fn new(input: &'a [u8], cfg: &Config) -> (r: Self)
        ensures
            r.fresh_over(input@, *cfg),
    {
        proof {
            use_type_invariant(cfg);
        }
        let w = cfg.window_sz2();
        let l = cfg.lookahead_sz2();
        let sz2 = if w >= l {
            w
        } else {
            l
        };
        HeatshrinkDecoder {
            output_count: 0,
            rewind: 0,
            state: DecoderState::TagBit,
            cfg: *cfg,
            reader: BitReader::new(input),
            ring: OutputRing::new(sz2 as u32),
            record_pos: Ghost(0),
        }
    }

    /// Starts over on another input, keeping the configuration.
    pub fn reset(&mut self, input: &'a [u8]) -> (r: bool)
        requires
            old(self).wf(),
        ensures
            final(self).fresh_over(input@, old(self).config()),
            r,
    {
        self.output_count = 0;
        self.rewind = 0;
        self.state = DecoderState::TagBit;
        self.reader = BitReader::new(input);
        self.ring.clear();
        self.record_pos = Ghost(0);
        true
    }

    /// The next plaintext byte; once the plaintext is exhausted, how decoding ended.
    pub fn next(&mut self) -> (r: Result<u8, DecodeError>)
        requires
            old(self).wf(),
        ensures
            final(self).wf(),
            final(self).input() == old(self).input(),
            final(self).config() == old(self).config(),
            old(self).returned() < old(self).plaintext().0.len() ==> r == Ok::<u8, DecodeError>(
                old(self).plaintext().0[old(self).returned() as int],
            ) && final(self).returned() == old(self).returned() + 1,
            old(self).returned() >= old(self).plaintext().0.len() ==> r == Err::<u8, DecodeError>(
                old(self).plaintext().1,
            ) && final(self).returned() == old(self).returned(),
    {
        loop
            invariant
                self.wf(),
                self.input() == old(self).input(),
                self.config() == old(self).config(),
                self.returned() == old(self).returned(),
            decreases self.progress(),
        {
            if self.ring.pending() > 0 {
                proof {
                    if !(self.state is Halted) {
                        lemma_decode_from_extends(
                            self.reader.bits(),
                            self.cfg.window_bits(),
                            self.cfg.lookahead_bits(),
                            self.record_pos@,
                            self.ring.produced(),
                        );
                        assert(self.plaintext().0.subrange(0, self.ring.produced().len() as int)[self.returned() as int] == self.plaintext().0[self.returned() as int]);
                    }
                }
                let r = self.ring.pop();
                return Ok(r);
            }
            match self.state {
                DecoderState::Halted(e) => {
                    return Err(e);
                },
                DecoderState::TagBit => self.st_tag_bit(),
                DecoderState::YieldLiteral => self.st_yield_literal(),
                DecoderState::BackrefIndexMsb => self.st_backref_index_msb(),
                DecoderState::BackrefIndexLsb => self.st_backref_index_lsb(),
                DecoderState::BackrefCountMsb => self.st_backref_count_msb(),
                DecoderState::BackrefCountLsb => self.st_backref_count_lsb(),
                DecoderState::YieldBackref => self.st_yield_backref(),
            }
        }
    }

    fn st_tag_bit(&mut self)
        requires
            old(self).wf(),
            old(self).ring.produced().len() == old(self).ring.taken(),
            old(self).state is TagBit,
        ensures
            final(self).stepped_from(old(self)),
            old(self).has_bits(1) ==> final(self).read_only(old(self), 1) && if old(self).reader.bits()[old(self).reader.consumed()] {
                final(self).state is YieldLiteral
            } else if old(self).cfg.window_bits() > 8 {
                final(self).state is BackrefIndexMsb
            } else {
                final(self).state is BackrefIndexLsb && final(self).rewind == 0
            },
            !old(self).has_bits(1) ==> final(self).halted_from(old(self), DecodeError::EndOfInput),
    {
        let ghost b = self.reader.bits();
        let ghost rec = self.record_pos@;
        proof {
            self.reader.lemma_consumed_in_range();
            reveal_with_fuel(bits_value, 2);
        }
        match self.reader.get_bits(1) {
            Some(v) => {
                if v == 0 {
                    if self.cfg.window_sz2() > 8 {
                        self.state = DecoderState::BackrefIndexMsb;
                    } else {
                        self.rewind = 0;
                        self.state = DecoderState::BackrefIndexLsb;
                    }
                } else {
                    self.state = DecoderState::YieldLiteral;
                }
            },
            None => {
                self.state = DecoderState::Halted(DecodeError::EndOfInput);
            },
        }
        proof {
            self.reader.lemma_consumed_in_range();
        }
    }

    fn st_yield_literal(&mut self)
        requires
            old(self).wf(),
            old(self).ring.produced().len() == old(self).ring.taken(),
            old(self).state is YieldLiteral,
        ensures
            final(self).stepped_from(old(self)),
            old(self).has_bits(8) ==> final(self).reader.consumed() == old(self).reader.consumed()
                + 8 && final(self).ring.produced() == old(self).ring.produced().push(
                old(self).peek(8) as u8,
            ) && final(self).ring.storage() == old(self).ring.storage().update(
                (old(self).ring.produced().len() % old(self).ring.size()) as int,
                old(self).peek(8) as u8,
            ) && final(self).ring.taken() == old(self).ring.taken() && final(self).state is TagBit,
            !old(self).has_bits(8) ==> final(self).halted_from(
                old(self),
                DecodeError::TruncatedStream,
            ),
    {
        let ghost b = self.reader.bits();
        let ghost rec = self.record_pos@;
        proof {
            self.reader.lemma_consumed_in_range();
            lemma_bits_value_bound(b, rec + 1, 8);
            lemma2_to64();
            lemma_pow2_pos(ring_sz2(self.cfg.window_bits(), self.cfg.lookahead_bits()));
        }
        match self.reader.get_bits(8) {
            Some(v) => {
                self.ring.push(v as u8);
                self.record_pos = Ghost(rec + 9);
                self.state = DecoderState::TagBit;
            },
            None => {
                self.state = DecoderState::Halted(DecodeError::TruncatedStream);
            },
        }
        proof {
            self.reader.lemma_consumed_in_range();
        }
    }

    fn st_backref_index_msb(&mut self)
        requires
            old(self).wf(),
            old(self).ring.produced().len() == old(self).ring.taken(),
            old(self).state is BackrefIndexMsb,
        ensures
            final(self).stepped_from(old(self)),
            old(self).has_bits((old(self).cfg.window_bits() - 8) as nat) ==> final(self).read_only(
                old(self),
                (old(self).cfg.window_bits() - 8) as nat,
            ) && final(self).rewind == old(self).peek((old(self).cfg.window_bits() - 8) as nat)
                * 256 && final(self).state is BackrefIndexLsb,
            !old(self).has_bits((old(self).cfg.window_bits() - 8) as nat) ==> final(self).halted_from(old(self), DecodeError::TruncatedStream),
    {
        let ghost b = self.reader.bits();
        let ghost rec = self.record_pos@;
        let bit_ct = (self.cfg.window_sz2() - 8) as u32;
        proof {
            self.reader.lemma_consumed_in_range();
            lemma_bits_value_bound(b, rec + 1, bit_ct as nat);
            lemma2_to64();
            if bit_ct < 16 {
                lemma_pow2_strictly_increases(bit_ct as nat, 16);
            }
        }
        match self.reader.get_bits(bit_ct) {
            Some(v) => {
                assert(v << 8 == v * 256) by (bit_vector)
                    requires
                        v < 0x10000,
                ;
                self.rewind = v << 8;
                self.state = DecoderState::BackrefIndexLsb;
            },
            None => {
                self.state = DecoderState::Halted(DecodeError::TruncatedStream);
            },
        }
        proof {
            self.reader.lemma_consumed_in_range();
        }
    }

    fn st_backref_index_lsb(&mut self)
        requires
            old(self).wf(),
            old(self).ring.produced().len() == old(self).ring.taken(),
            old(self).state is BackrefIndexLsb,
        ensures
            final(self).stepped_from(old(self)),
            old(self).has_bits(min_nat(old(self).cfg.window_bits(), 8)) ==> final(self).read_only(
                old(self),
                min_nat(old(self).cfg.window_bits(), 8),
            ) && final(self).rewind == old(self).rewind + old(self).peek(
                min_nat(old(self).cfg.window_bits(), 8),
            ) + 1 && final(self).output_count == 0 && if old(self).cfg.lookahead_bits() > 8 {
                final(self).state is BackrefCountMsb
            } else {
                final(self).state is BackrefCountLsb
            },
            !old(self).has_bits(min_nat(old(self).cfg.window_bits(), 8)) ==> final(self).halted_from(old(self), DecodeError::TruncatedStream),
    {
        let ghost b = self.reader.bits();
        let ghost rec = self.record_pos@;
        let ghost w = self.cfg.window_bits();
        let window_sz2 = self.cfg.window_sz2();
        let bit_ct: u32 = if window_sz2 < 8 {
            window_sz2 as u32
        } else {
            8
        };
        proof {
            self.reader.lemma_consumed_in_range();
            lemma2_to64();
            lemma_bits_value_bound(b, rec + 1, w);
            if w > 8 {
                lemma_bits_value_bound(b, rec + 1, (w - 8) as nat);
                if w < 16 {
                    lemma_pow2_strictly_increases((w - 8) as nat, 8);
                }
                lemma_bits_value_split(b, rec + 1, (w - 8) as nat, 8);
                assert((w - 8) as nat + 8 == w);
            }
            if w < 16 {
                lemma_pow2_strictly_increases(w, 16);
            }
            lemma_bits_value_bound(b, self.reader.consumed(), bit_ct as nat);
            if bit_ct < 8 {
                lemma_pow2_strictly_increases(bit_ct as nat, 8);
            }
        }
        match self.reader.get_bits(bit_ct) {
            Some(v) => {
                let hi = self.rewind;
                assert((hi | v) == hi + v) by (bit_vector)
                    requires
                        hi % 256 == 0,
                        hi < 0x10000,
                        v < 256,
                ;
                self.rewind = (self.rewind | v) + 1;
                self.output_count = 0;
                if self.cfg.lookahead_sz2() > 8 {
                    self.state = DecoderState::BackrefCountMsb;
                } else {
                    self.state = DecoderState::BackrefCountLsb;
                }
            },
            None => {
                self.state = DecoderState::Halted(DecodeError::TruncatedStream);
            },
        }
        proof {
            self.reader.lemma_consumed_in_range();
        }
    }

    fn st_backref_count_msb(&mut self)
        requires
            old(self).wf(),
            old(self).ring.produced().len() == old(self).ring.taken(),
            old(self).state is BackrefCountMsb,
        ensures
            final(self).stepped_from(old(self)),
            old(self).has_bits((old(self).cfg.lookahead_bits() - 8) as nat) ==> final(self).read_only(old(self), (old(self).cfg.lookahead_bits() - 8) as nat) && final(self).rewind == old(self).rewind && final(self).output_count == old(self).peek(
                (old(self).cfg.lookahead_bits() - 8) as nat,
            ) * 256 && final(self).state is BackrefCountLsb,
            !old(self).has_bits((old(self).cfg.lookahead_bits() - 8) as nat) ==> final(self).halted_from(old(self), DecodeError::TruncatedStream),
    {
        let ghost b = self.reader.bits();
        let ghost rec = self.record_pos@;
        let ghost w = self.cfg.window_bits();
        let bit_ct = (self.cfg.lookahead_sz2() - 8) as u32;
        proof {
            self.reader.lemma_consumed_in_range();
            lemma_bits_value_bound(b, rec + 1 + w, bit_ct as nat);
            lemma2_to64();
            if bit_ct < 16 {
                lemma_pow2_strictly_increases(bit_ct as nat, 16);
            }
        }
        match self.reader.get_bits(bit_ct) {
            Some(v) => {
                assert(v << 8 == v * 256) by (bit_vector)
                    requires
                        v < 0x10000,
                ;
                self.output_count = v << 8;
                self.state = DecoderState::BackrefCountLsb;
            },
            None => {
                self.state = DecoderState::Halted(DecodeError::TruncatedStream);
            },
        }
        proof {
            self.reader.lemma_consumed_in_range();
        }
    }

    fn st_backref_count_lsb(&mut self)
        requires
            old(self).wf(),
            old(self).ring.produced().len() == old(self).ring.taken(),
            old(self).state is BackrefCountLsb,
        ensures
            final(self).stepped_from(old(self)),
            old(self).has_bits(min_nat(old(self).cfg.lookahead_bits(), 8)) ==> final(self).read_only(old(self), min_nat(old(self).cfg.lookahead_bits(), 8)) && final(self).rewind == old(self).rewind && final(self).output_count == old(self).output_count
                + old(self).peek(min_nat(old(self).cfg.lookahead_bits(), 8)) + 1 && final(self).state is YieldBackref,
            !old(self).has_bits(min_nat(old(self).cfg.lookahead_bits(), 8)) ==> final(self).halted_from(old(self), DecodeError::TruncatedStream),
    {
        let ghost b = self.reader.bits();
        let ghost rec = self.record_pos@;
        let ghost w = self.cfg.window_bits();
        let ghost l = self.cfg.lookahead_bits();
        let lookahead_sz2 = self.cfg.lookahead_sz2();
        let bit_ct: u32 = if lookahead_sz2 < 8 {
            lookahead_sz2 as u32
        } else {
            8
        };
        proof {
            self.reader.lemma_consumed_in_range();
            lemma2_to64();
            lemma_bits_value_bound(b, rec + 1 + w, l);
            if l > 8 {
                lemma_bits_value_bound(b, rec + 1 + w, (l - 8) as nat);
                if l < 16 {
                    lemma_pow2_strictly_increases((l - 8) as nat, 8);
                }
                lemma_bits_value_split(b, rec + 1 + w, (l - 8) as nat, 8);
                assert((l - 8) as nat + 8 == l);
            }
            if l < 16 {
                lemma_pow2_strictly_increases(l, 16);
            }
            lemma_bits_value_bound(b, self.reader.consumed(), bit_ct as nat);
            if bit_ct < 8 {
                lemma_pow2_strictly_increases(bit_ct as nat, 8);
            }
        }
        match self.reader.get_bits(bit_ct) {
            Some(v) => {
                let hi = self.output_count;
                assert((hi | v) == hi + v) by (bit_vector)
                    requires
                        hi % 256 == 0,
                        hi < 0x10000,
                        v < 256,
                ;
                self.output_count = (self.output_count | v) + 1;
                self.state = DecoderState::YieldBackref;
            },
            None => {
                self.state = DecoderState::Halted(DecodeError::TruncatedStream);
            },
        }
        proof {
            self.reader.lemma_consumed_in_range();
        }
    }

    fn st_yield_backref(&mut self)
        requires
            old(self).wf(),
            old(self).ring.produced().len() == old(self).ring.taken(),
            old(self).state is YieldBackref,
        ensures
            final(self).stepped_from(old(self)),
            final(self).reader.consumed() == old(self).reader.consumed(),
            old(self).rewind > min_nat(old(self).ring.produced().len(), old(self).ring.size())
                ==> final(self).halted_from(old(self), DecodeError::IllegalBackref),
            old(self).rewind <= min_nat(old(self).ring.produced().len(), old(self).ring.size())
                ==> final(self).ring.produced() == copy_back(
                old(self).ring.produced(),
                old(self).rewind as nat,
                old(self).output_count as nat,
            ) && final(self).ring.taken() == old(self).ring.taken() && final(self).state is TagBit,
            forall|j: int|
                old(self).ring.size() <= j < RING_CAPACITY ==> #[trigger] final(self).ring.storage()[j]
                    == old(self).ring.storage()[j],
            forall|j: int|
                old(self).ring.size() <= j < RING_CAPACITY ==> #[trigger] final(self).ring.storage()[j]
                    == old(self).ring.storage()[j],
    {
        let ghost b = self.reader.bits();
        let ghost rec = self.record_pos@;
        let ghost w = self.cfg.window_bits();
        let ghost l = self.cfg.lookahead_bits();
        proof {
            self.reader.lemma_consumed_in_range();
            lemma_bits_value_bound(b, rec + 1, w);
            lemma_bits_value_bound(b, rec + 1 + w, l);
            if w < ring_sz2(w, l) {
                lemma_pow2_strictly_increases(w, ring_sz2(w, l));
            }
            if l < ring_sz2(w, l) {
                lemma_pow2_strictly_increases(l, ring_sz2(w, l));
            }
        }
        let count = self.output_count as usize;
        let rewind = self.rewind as usize;
        if rewind > self.ring.filled() {
            self.state = DecoderState::Halted(DecodeError::IllegalBackref);
            return;
        }
        proof {
            lemma_copy_back(self.ring.produced(), rewind as nat, count as nat);
        }
        self.ring.copy_back(rewind, count);
        self.record_pos = Ghost(rec + 1 + w + l);
        self.state = DecoderState::TagBit;
    }
}

/// Resetting a decoder leaves it in the same observable state as building
/// a new one over the same input and configuration: both decode the same
/// plaintext and have handed out none of it.
pub proof fn lemma_reset_matches_new(
    a: HeatshrinkDecoder,
    b: HeatshrinkDecoder,
    input: Seq<u8>,
    cfg: Config,
)
    requires
        a.fresh_over(input, cfg),
        b.fresh_over(input, cfg),
    ensures
        a.plaintext() == b.plaintext(),
        a.returned() == b.returned(),
{
}

} // verus!
