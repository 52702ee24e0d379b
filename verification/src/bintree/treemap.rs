//! A fixed-capacity array of bits, one for each node of a tree.
use vstd::prelude::*;
use super::def::{MAP_WORDS, MAX_NODES};

verus! {

/// Bit `b` of the word `w`.
pub open spec fn bit_at(w: u64, b: u64) -> bool {
    (w >> b) & 1 == 1
}

/// One bit for each of `MAX_NODES` nodes, packed into 64-bit words.
/// A bit that is set marks its node as used.
#[derive(Debug)]
pub struct TreeMap {
    words: [u64; MAP_WORDS],
}

impl View for TreeMap {
    type V = Seq<bool>;

    /// The bits in order: `MAX_NODES` of them.
    closed spec fn view(&self) -> Seq<bool> {
        Seq::new(MAX_NODES as nat, |i: int| bit_at(self.words@[i / 64], (i % 64) as u64))
    }
}

proof fn lemma_bit_set(w: u64, b: u64, c: u64)
    requires
        b < 64,
        c < 64,
    ensures
        bit_at(w | (1u64 << b), c) == (c == b || bit_at(w, c)),
{
    assert(((w | (1u64 << b)) >> c) & 1 == 1 <==> (c == b || (w >> c) & 1 == 1)) by (bit_vector)
        requires
            b < 64,
            c < 64,
    ;
}

proof fn lemma_bit_clear(w: u64, b: u64, c: u64)
    requires
        b < 64,
        c < 64,
    ensures
        bit_at(w & !(1u64 << b), c) == (c != b && bit_at(w, c)),
{
    assert(((w & !(1u64 << b)) >> c) & 1 == 1 <==> (c != b && (w >> c) & 1 == 1)) by (bit_vector)
        requires
            b < 64,
            c < 64,
    ;
}

proof fn lemma_bit_const(c: u64)
    requires
        c < 64,
    ensures
        !bit_at(0u64, c),
        bit_at(0xffff_ffff_ffff_ffffu64, c),
{
    assert((0u64 >> c) & 1 == 0) by (bit_vector);
    assert((0xffff_ffff_ffff_ffffu64 >> c) & 1 == 1) by (bit_vector)
        requires
            c < 64,
    ;
}

impl TreeMap {
    /// A map with every bit clear.
    pub fn new() -> (r: Self)
        ensures
            r@.len() == MAX_NODES,
            forall|i: int| 0 <= i < MAX_NODES ==> !r@[i],
    {
        let r = TreeMap { words: [0u64; MAP_WORDS] };
        proof {
            assert forall|i: int| 0 <= i < MAX_NODES implies !r@[i] by {
                lemma_bit_const((i % 64) as u64);
            }
        }
        r
    }

    /// The number of bits is fixed.
    pub proof fn lemma_len(&self)
        ensures
            self@.len() == MAX_NODES,
    {
    }

    /// Sets bit `i`: marks node `i` as used.
    pub fn set_bit(&mut self, i: usize)
        requires
            i < MAX_NODES,
        ensures
            final(self)@ == old(self)@.update(i as int, true),
    {
        let k: usize = i / 64;
        let b: u64 = (i % 64) as u64;
        let w: u64 = self.words[k];
        self.words[k] = w | (1u64 << b);
        proof {
            assert forall|j: int| 0 <= j < MAX_NODES implies self@[j] == old(self)@.update(
                i as int,
                true,
            )[j] by {
                if j / 64 == k as int {
                    lemma_bit_set(w, b, (j % 64) as u64);
                }
            }
            assert(self@ =~= old(self)@.update(i as int, true));
        }
    }

    /// Clears bit `i`: marks node `i` as free.
    pub fn unset_bit(&mut self, i: usize)
        requires
            i < MAX_NODES,
        ensures
            final(self)@ == old(self)@.update(i as int, false),
    {
        let k: usize = i / 64;
        let b: u64 = (i % 64) as u64;
        let w: u64 = self.words[k];
        self.words[k] = w & !(1u64 << b);
        proof {
            assert forall|j: int| 0 <= j < MAX_NODES implies self@[j] == old(self)@.update(
                i as int,
                false,
            )[j] by {
                if j / 64 == k as int {
                    lemma_bit_clear(w, b, (j % 64) as u64);
                }
            }
            assert(self@ =~= old(self)@.update(i as int, false));
        }
    }

    /// Bit `i`: whether node `i` is used.
    pub fn get_bit(&self, i: usize) -> (r: bool)
        requires
            i < MAX_NODES,
        ensures
            r == self@[i as int],
    {
        let b: u64 = (i % 64) as u64;
        (self.words[i / 64] >> b) & 1 == 1
    }

    /// Whether bit `i` is clear: whether node `i` is free.
    pub fn is_empty(&self, i: usize) -> (r: bool)
        requires
            i < MAX_NODES,
        ensures
            r == !self@[i as int],
    {
        !self.get_bit(i)
    }

    /// Sets every bit: marks every node as used.
    pub fn set_bit_all(&mut self)
        ensures
            final(self)@ == Seq::new(MAX_NODES as nat, |i: int| true),
    {
        let mut k: usize = 0;
        while k < MAP_WORDS
            invariant
                k <= MAP_WORDS,
                forall|j: int| 0 <= j < k ==> self.words@[j] == 0xffff_ffff_ffff_ffffu64,
            decreases MAP_WORDS - k,
        {
            self.words[k] = 0xffff_ffff_ffff_ffffu64;
            k += 1;
        }
        proof {
            assert forall|i: int| 0 <= i < MAX_NODES implies self@[i] by {
                lemma_bit_const((i % 64) as u64);
            }
            assert(self@ =~= Seq::new(MAX_NODES as nat, |i: int| true));
        }
    }
}

} // verus!
