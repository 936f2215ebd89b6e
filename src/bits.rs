//! The bit-level view of byte strings: bits are read most significant first.
use vstd::prelude::*;
use vstd::arithmetic::power2::{pow2, lemma_pow2_unfold, lemma_pow2_adds, lemma_pow2_pos, lemma2_to64};
use vstd::arithmetic::div_mod::{lemma_fundamental_div_mod_converse, lemma_div_denominator};

verus! {

/// Bit `j` of a byte, counted from the most significant one.
pub open spec fn byte_bit(b: u8, j: int) -> bool {
    (b as nat / pow2((7 - j) as nat)) % 2 == 1
}

/// The bits of a byte string, each byte most significant bit first.
pub open spec fn bits_of_bytes(s: Seq<u8>) -> Seq<bool> {
    Seq::new((8 * s.len()) as nat, |i: int| byte_bit(s[i / 8], i % 8))
}

/// The number held by `n` bits of `b` from `pos` on, the first one the most significant.
pub open spec fn bits_value(b: Seq<bool>, pos: int, n: nat) -> nat
    decreases n,
{
    if n == 0 {
        0
    } else {
        2 * bits_value(b, pos, (n - 1) as nat) + if b[pos + n - 1] {
            1nat
        } else {
            0nat
        }
    }
}

/// The `n` lowest bits of `v`, most significant first.
pub open spec fn uint_bits(v: nat, n: nat) -> Seq<bool>
    decreases n,
{
    if n == 0 {
        Seq::empty()
    } else {
        uint_bits(v / 2, (n - 1) as nat).push(v % 2 == 1)
    }
}

pub proof fn lemma_bits_value_bound(b: Seq<bool>, pos: int, n: nat)
    ensures
        bits_value(b, pos, n) < pow2(n),
    decreases n,
{
    if n == 0 {
        lemma2_to64();
    } else {
        lemma_bits_value_bound(b, pos, (n - 1) as nat);
        lemma_pow2_unfold(n);
    }
}

/// Reading `a + c` bits is reading `a` bits, then `c` more.
pub proof fn lemma_bits_value_split(b: Seq<bool>, pos: int, a: nat, c: nat)
    ensures
        bits_value(b, pos, a + c) == bits_value(b, pos, a) * pow2(c) + bits_value(b, pos + a, c),
    decreases c,
{
    if c == 0 {
        lemma2_to64();
    } else {
        lemma_bits_value_split(b, pos, a, (c - 1) as nat);
        lemma_pow2_unfold(c);
        let x = bits_value(b, pos, a);
        let y = pow2((c - 1) as nat);
        assert(2 * (x * y) == x * (2 * y)) by (nonlinear_arith);
        assert((a + c - 1) as nat == a + (c - 1) as nat);
    }
}

/// Two bit strings that agree on a stretch give that stretch the same value.
pub proof fn lemma_bits_value_ext(b1: Seq<bool>, p1: int, b2: Seq<bool>, p2: int, n: nat)
    requires
        forall|i: int| 0 <= i < n ==> #[trigger] b1[p1 + i] == b2[p2 + i],
    ensures
        bits_value(b1, p1, n) == bits_value(b2, p2, n),
    decreases n,
{
    if n > 0 {
        lemma_bits_value_ext(b1, p1, b2, p2, (n - 1) as nat);
        assert(b1[p1 + (n - 1)] == b2[p2 + (n - 1)]);
    }
}

/// Reading back the bits of a number gives the number, cut to `n` bits.
pub proof fn lemma_uint_bits_value(v: nat, n: nat)
    ensures
        uint_bits(v, n).len() == n,
        bits_value(uint_bits(v, n), 0, n) == v % pow2(n),
    decreases n,
{
    if n == 0 {
        lemma2_to64();
    } else {
        let s = uint_bits(v, n);
        let t = uint_bits(v / 2, (n - 1) as nat);
        lemma_uint_bits_value(v / 2, (n - 1) as nat);
        lemma_bits_value_ext(s, 0, t, 0, (n - 1) as nat);
        lemma_pow2_unfold(n);
        lemma_pow2_pos((n - 1) as nat);
        let p = pow2((n - 1) as nat) as int;
        // v % (2p) == 2 * ((v / 2) % p) + v % 2
        let vi = v as int;
        let q = (vi / 2) / p;
        let r = (vi / 2) % p;
        assert(vi / 2 == q * p + r && 0 <= r < p) by (nonlinear_arith)
            requires
                p > 0,
                vi >= 0,
                q == (vi / 2) / p,
                r == (vi / 2) % p,
        ;
        assert(vi == q * (2 * p) + (2 * r + vi % 2)) by (nonlinear_arith)
            requires
                vi / 2 == q * p + r,
                vi >= 0,
        ;
        lemma_fundamental_div_mod_converse(vi, 2 * p, q, 2 * r + vi % 2);
    }
}

/// Bit `j` of a value read from `n` bits is the `j`-th of those bits.
pub proof fn lemma_bits_value_bit(b: Seq<bool>, pos: int, n: nat, j: nat)
    requires
        j < n,
    ensures
        (bits_value(b, pos, n) / pow2((n - 1 - j) as nat)) % 2 == (if b[pos + j] {
            1nat
        } else {
            0nat
        }),
{
    let k = (n - 1 - j) as nat;
    lemma_bits_value_split(b, pos, j + 1, k);
    assert(j + 1 + k == n);
    lemma_bits_value_bound(b, pos + j + 1, k);
    lemma_pow2_pos(k);
    lemma_fundamental_div_mod_converse(
        bits_value(b, pos, n) as int,
        pow2(k) as int,
        bits_value(b, pos, j + 1) as int,
        bits_value(b, pos + j + 1, k) as int,
    );
    assert(bits_value(b, pos, j + 1) == 2 * bits_value(b, pos, j) + if b[pos + j] {
        1nat
    } else {
        0nat
    });
}

/// A byte's bits read back as a number give the byte.
pub proof fn lemma_byte_value(s: Seq<u8>, k: int)
    requires
        0 <= k < s.len(),
    ensures
        bits_value(bits_of_bytes(s), 8 * k, 8) == s[k],
{
    lemma_byte_prefix_value(s, k, 8);
    lemma2_to64();
}

proof fn lemma_byte_prefix_value(s: Seq<u8>, k: int, n: nat)
    requires
        0 <= k < s.len(),
        n <= 8,
    ensures
        bits_value(bits_of_bytes(s), 8 * k, n) == s[k] as nat / pow2((8 - n) as nat),
    decreases n,
{
    let x = s[k] as nat;
    if n == 0 {
        lemma2_to64();
    } else {
        lemma_byte_prefix_value(s, k, (n - 1) as nat);
        let e = (8 - n) as nat;
        lemma_pow2_pos(e);
        lemma_pow2_unfold(e + 1);
        assert((9 - n) as nat == e + 1);
        let y = x / pow2(e);
        lemma_div_denominator(x as int, pow2(e) as int, 2);
        assert(pow2(e) * 2 == pow2(e + 1));
        let i = 8 * k + n - 1;
        assert(i / 8 == k && i % 8 == n - 1) by (nonlinear_arith)
            requires
                i == 8 * k + n - 1,
                1 <= n <= 8,
        ;
        assert(bits_of_bytes(s)[i] == byte_bit(s[k], n - 1));
        assert((7 - (n - 1)) as nat == e);
        assert(2 * (y / 2) + y % 2 == y) by (nonlinear_arith);
    }
}

/// Appending a byte appends its eight bits.
pub proof fn lemma_bits_of_bytes_push(s: Seq<u8>, b: u8)
    ensures
        bits_of_bytes(s.push(b)) == bits_of_bytes(s) + Seq::new(8, |j: int| byte_bit(b, j)),
{
    let t = s.push(b);
    let lhs = bits_of_bytes(t);
    let rhs = bits_of_bytes(s) + Seq::new(8, |j: int| byte_bit(b, j));
    assert forall|i: int| 0 <= i < lhs.len() implies lhs[i] == rhs[i] by {
        if i < 8 * s.len() {
            assert(i / 8 < s.len()) by (nonlinear_arith)
                requires
                    0 <= i < 8 * s.len(),
            ;
        } else {
            assert(i / 8 == s.len() && i % 8 == i - 8 * s.len()) by (nonlinear_arith)
                requires
                    8 * s.len() <= i < 8 * s.len() + 8,
            ;
        }
    }
    assert(lhs =~= rhs);
}

} // verus!
