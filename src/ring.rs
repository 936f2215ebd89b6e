//! The decoder's output ring: the most recent plaintext, and what is queued for the caller.
use vstd::prelude::*;
use vstd::arithmetic::power2::{pow2, lemma2_to64, lemma_pow2_pos, lemma_pow2_strictly_increases};
use vstd::arithmetic::div_mod::lemma_fundamental_div_mod_converse;
use vstd::bits::lemma_u32_shl_is_mul;
use crate::format::{copy_back, lemma_copy_back};

verus! {

/// A power-of-two ring of bytes. `tail` is where the next byte is written,
/// `head` where the next queued byte is read, `pending` how many are queued.
/// Storage for the largest ring any configuration needs.
pub const RING_CAPACITY: usize = 0x10000;

#[derive(Clone, Copy)]
pub struct OutputRing {
    buffer: [u8; RING_CAPACITY],
    size: usize,
    head: usize,
    tail: usize,
    pending: usize,
    filled: usize,
    produced: Ghost<Seq<u8>>,
    taken: Ghost<nat>,
}

pub open spec fn min_nat(a: nat, b: nat) -> nat {
    if a <= b {
        a
    } else {
        b
    }
}

proof fn lemma_mod_step(n: int, m: int, d: int)
    requires
        m > 0,
        0 <= d <= m,
        d <= n,
    ensures
        (n % m + m - d) % m == (n - d) % m,
        (n % m + 1) % m == (n + 1) % m,
{
    let q = n / m;
    let r = n % m;
    assert(n == q * m + r && 0 <= r < m && q >= 0) by (nonlinear_arith)
        requires
            m > 0,
            n >= 0,
            q == n / m,
            r == n % m,
    ;
    if r >= d {
        lemma_fundamental_div_mod_converse(n - d, m, q, r - d);
        lemma_fundamental_div_mod_converse(r + m - d, m, 1, r - d);
    } else {
        assert((q - 1) * m + (r + m - d) == n - d) by (nonlinear_arith)
            requires
                n == q * m + r,
        ;
        lemma_fundamental_div_mod_converse(n - d, m, q - 1, r + m - d);
        lemma_fundamental_div_mod_converse(r + m - d, m, 0, r + m - d);
    }
    if r + 1 < m {
        lemma_fundamental_div_mod_converse(n + 1, m, q, r + 1);
        lemma_fundamental_div_mod_converse(r + 1, m, 0, r + 1);
    } else {
        assert((q + 1) * m + 0 == n + 1) by (nonlinear_arith)
            requires
                n == q * m + r,
                r + 1 == m,
        ;
        lemma_fundamental_div_mod_converse(n + 1, m, q + 1, 0);
        lemma_fundamental_div_mod_converse(r + 1, m, 1, 0);
    }
}

impl OutputRing {
    /// Every byte produced so far.
    pub closed spec fn produced(&self) -> Seq<u8> {
        self.produced@
    }

    /// How many of them were handed to the caller.
    pub closed spec fn taken(&self) -> nat {
        self.taken@
    }

    /// How many bytes of the storage form the ring.
    pub closed spec fn size(&self) -> nat {
        self.size as nat
    }

    /// The storage.
    pub closed spec fn storage(&self) -> Seq<u8> {
        self.buffer@
    }

    pub closed spec fn queued(&self) -> nat {
        self.pending as nat
    }

    pub closed spec fn wf(&self) -> bool {
        let n = self.produced@.len() as int;
        let sz = self.size as int;
        &&& self.buffer@.len() == RING_CAPACITY
        &&& sz > 0
        &&& sz <= RING_CAPACITY
        &&& self.head < sz
        &&& self.tail < sz
        &&& self.head == (self.taken@ as int) % sz
        &&& self.tail == n % sz
        &&& self.pending <= sz
        &&& n == self.taken@ + self.pending
        &&& self.filled == min_nat(n as nat, sz as nat)
        &&& forall|i: int|
            n - self.filled <= i < n ==> #[trigger] self.buffer@[i % sz] == self.produced@[i]
    }

    /// An empty ring of `1 << size_sz2` bytes.
    pub fn new(size_sz2: u32) -> (r: Self)
        requires
            size_sz2 <= 16,
        ensures
            r.wf(),
            r.produced() == Seq::<u8>::empty(),
            r.taken() == 0,
            r.size() == pow2(size_sz2 as nat),
    {
        proof {
            lemma2_to64();
            lemma_pow2_strictly_increases(size_sz2 as nat, 32);
            lemma_u32_shl_is_mul(1, size_sz2);
            lemma_pow2_pos(size_sz2 as nat);
            if size_sz2 < 16 {
                lemma_pow2_strictly_increases(size_sz2 as nat, 16);
            }
        }
        let sz = (1u32 << size_sz2) as usize;
        proof {
            vstd::arithmetic::div_mod::lemma_small_mod(0, sz as nat);
        }
        OutputRing {
            buffer: [0u8; RING_CAPACITY],
            size: sz,
            head: 0,
            tail: 0,
            pending: 0,
            filled: 0,
            produced: Ghost(Seq::empty()),
            taken: Ghost(0),
        }
    }

    /// Forgets everything produced, keeping the storage.
    pub fn clear(&mut self)
        requires
            old(self).wf(),
        ensures
            final(self).wf(),
            final(self).produced() == Seq::<u8>::empty(),
            final(self).taken() == 0,
            final(self).size() == old(self).size(),
    {
        proof {
            vstd::arithmetic::div_mod::lemma_small_mod(0, self.size as nat);
        }
        self.head = 0;
        self.tail = 0;
        self.pending = 0;
        self.filled = 0;
        self.produced = Ghost(Seq::empty());
        self.taken = Ghost(0);
    }

    pub fn pending(&self) -> (r: usize)
        requires
            self.wf(),
        ensures
            r == self.produced().len() - self.taken(),
    {
        self.pending
    }

    /// How many of the latest bytes are still held: all, or a full ring.
    pub fn filled(&self) -> (r: usize)
        requires
            self.wf(),
        ensures
            r == min_nat(self.produced().len(), self.size()),
    {
        self.filled
    }

    /// Hands out the oldest queued byte.
    pub fn pop(&mut self) -> (r: u8)
        requires
            old(self).wf(),
            old(self).taken() < old(self).produced().len(),
        ensures
            final(self).wf(),
            r == old(self).produced()[old(self).taken() as int],
            final(self).produced() == old(self).produced(),
            final(self).taken() == old(self).taken() + 1,
            final(self).size() == old(self).size(),
    {
        let sz = self.size;
        let r = self.buffer[self.head];
        proof {
            lemma_mod_step(self.taken@ as int, sz as int, 0);
        }
        self.head = (self.head + 1) % sz;
        self.pending = self.pending - 1;
        self.taken = Ghost(self.taken@ + 1);
        r
    }

    /// Appends a byte to what was produced; it is queued for the caller.
    pub fn push(&mut self, byte: u8)
        requires
            old(self).wf(),
            old(self).produced().len() - old(self).taken() < old(self).size(),
        ensures
            final(self).wf(),
            final(self).produced() == old(self).produced().push(byte),
            final(self).taken() == old(self).taken(),
            final(self).size() == old(self).size(),
            final(self).storage() == old(self).storage().update(
                (old(self).produced().len() % old(self).size()) as int,
                byte,
            ),
    {
        let sz = self.size;
        let ghost n = self.produced@.len();
        let ghost old_buf = self.buffer@;
        self.buffer[self.tail] = byte;
        proof {
            lemma_mod_step(n as int, sz as int, 0);
        }
        self.tail = (self.tail + 1) % sz;
        self.pending = self.pending + 1;
        if self.filled < sz {
            self.filled = self.filled + 1;
        }
        self.produced = Ghost(self.produced@.push(byte));
        proof {
            assert forall|i: int|
                n + 1 - self.filled <= i < n + 1 implies #[trigger] self.buffer@[i % (sz as int)]
                == self.produced@[i] by {
                if i < n {
                    assert(i % (sz as int) != (n as int) % (sz as int)) by {
                        lemma_mod_distinct(i, n as int, sz as int);
                    }
                    assert(self.buffer@[i % (sz as int)] == old_buf[i % (sz as int)]);
                }
            }
        }
    }

    /// Appends `len` bytes, each a copy of the one `dist` bytes before it.
    pub fn copy_back(&mut self, dist: usize, len: usize)
        requires
            old(self).wf(),
            1 <= dist <= old(self).produced().len(),
            dist <= old(self).size(),
            old(self).produced().len() - old(self).taken() + len <= old(self).size(),
        ensures
            final(self).wf(),
            final(self).produced() == copy_back(old(self).produced(), dist as nat, len as nat),
            final(self).taken() == old(self).taken(),
            final(self).size() == old(self).size(),
            forall|j: int|
                old(self).size() <= j < RING_CAPACITY ==> #[trigger] final(self).storage()[j]
                    == old(self).storage()[j],
    {
        let sz = self.size;
        let mut i: usize = 0;
        while i < len
            invariant
                self.wf(),
                0 <= i <= len,
                1 <= dist <= old(self).produced().len(),
                dist <= sz == self.size() == old(self).size(),
                self.taken() == old(self).taken(),
                old(self).produced().len() - old(self).taken() + len <= sz,
                self.produced() == copy_back(old(self).produced(), dist as nat, i as nat),
                forall|j: int|
                    sz <= j < RING_CAPACITY ==> #[trigger] self.storage()[j] == old(self).storage()[j],
            decreases len - i,
        {
            proof {
                lemma_copy_back(old(self).produced(), dist as nat, i as nat);
                lemma_mod_step(self.produced@.len() as int, sz as int, dist as int);
            }
            let byte = self.buffer[(self.tail + sz - dist) % sz];
            self.push(byte);
            i = i + 1;
        }
    }
}

proof fn lemma_mod_distinct(i: int, n: int, m: int)
    requires
        m > 0,
        0 <= i < n,
        n - i < m,
    ensures
        i % m != n % m,
{
    let qi = i / m;
    let qn = n / m;
    assert(i == qi * m + i % m && n == qn * m + n % m && 0 <= i % m < m && 0 <= n % m < m)
        by (nonlinear_arith)
        requires
            m > 0,
            qi == i / m,
            qn == n / m,
    ;
    if i % m == n % m {
        assert((qn - qi) * m == n - i) by (nonlinear_arith)
            requires
                i == qi * m + i % m,
                n == qn * m + n % m,
                i % m == n % m,
        ;
        assert(false) by (nonlinear_arith)
            requires
                (qn - qi) * m == n - i,
                0 < n - i < m,
                m > 0,
        ;
    }
}

} // verus!
