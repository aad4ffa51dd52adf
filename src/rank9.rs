use vstd::prelude::*;
use crate::bits::{BitVector, rank_of, ones_of, lemma_rank_bounds, popcount_low};

verus! {

/// Rank index over a [`BitVector`]: an absolute count of the set bits before
/// each block of eight words, and a count relative to its block before each
/// word.
pub struct Rank9 {
    bits: BitVector,
    blocks: Vec<usize>,
    subs: Vec<u16>,
    ones: usize,
}

impl View for Rank9 {
    type V = Seq<bool>;

    open spec fn view(&self) -> Seq<bool> {
        self.bit_vector()@
    }
}

impl Rank9 {
    /// The indexed bits.
    pub closed spec fn bit_vector(&self) -> BitVector {
        self.bits
    }

    /// The counters agree with the bits.
    pub closed spec fn counters_wf(&self) -> bool {
        let n = self.bits.num_words() as int;
        &&& self.blocks@.len() == (n + 7) / 8
        &&& self.subs@.len() == n
        &&& self.ones == ones_of(self.bits@)
        &&& forall|k: int|
            0 <= k < n ==> self.blocks@[k / 8] + #[trigger] self.subs@[k]
                == self.bits.word_start_rank(k)
    }

    pub open spec fn wf(&self) -> bool {
        self.bit_vector().wf() && self.counters_wf()
    }

    /// Builds the counters over `bits`.
    pub fn new(bits: BitVector) -> (r: Rank9)
        requires
            bits.wf(),
        ensures
            r.wf(),
            r.bit_vector() == bits,
    {
        let n = bits.num_words_exec();
        let mut blocks: Vec<usize> = Vec::new();
        let mut subs: Vec<u16> = Vec::new();
        let mut c: usize = 0;
        let mut k: usize = 0;
        while k < n
            invariant
                bits.wf(),
                n == bits.num_words(),
                k <= n,
                c == bits.word_start_rank(k as int),
                blocks@.len() == (k + 7) / 8,
                subs@.len() == k,
                forall|b: int|
                    0 <= b < blocks@.len() ==> #[trigger] blocks@[b] == bits.word_start_rank(8 * b),
                forall|t: int|
                    0 <= t < k ==> blocks@[t / 8] + #[trigger] subs@[t] == bits.word_start_rank(t),
            decreases n - k,
        {
            if k % 8 == 0 {
                blocks.push(c);
            }
            let base = blocks[k / 8];
            proof {
                let len = bits.len_spec() as int;
                let a = if 64 * (8 * (k / 8)) < len {
                    64 * (8 * (k / 8))
                } else {
                    len
                };
                let b = if 64 * k < len {
                    64 * k
                } else {
                    len
                };
                lemma_rank_bounds(bits@, a, b);
            }
            subs.push((c - base) as u16);
            proof {
                bits.lemma_word_rank(k as int, 64);
                let e = if 64 * k + 64 < bits.len_spec() {
                    64 * k + 64
                } else {
                    bits.len_spec() as int
                };
                lemma_rank_bounds(bits@, 0, e);
            }
            c = c + popcount_low(bits.get_word(k), 64);
            k = k + 1;
        }
        Rank9 { bits, blocks, subs, ones: c }
    }

    /// The indexed bits.
    pub fn bits(&self) -> (r: &BitVector)
        ensures
            *r == self.bit_vector(),
    {
        &self.bits
    }

    /// The number of bits.
    pub fn len(&self) -> (r: usize)
        requires
            self.wf(),
        ensures
            r == self@.len(),
    {
        self.bits.len()
    }

    /// Writes the serialized form of the indexed bits at the end of `out`;
    /// the counters are rebuilt on reading.
    pub fn serialize(&self, out: &mut Vec<u64>)
        requires
            self.wf(),
        ensures
            final(out)@ == old(out)@ + self.bit_vector().to_words(),
    {
        self.bits.serialize(out);
    }

    /// Reads serialized bits starting at `data[at]` and indexes them,
    /// returning the index with the position just past the bits.
    pub fn deserialize(data: &[u64], at: usize) -> (r: Option<(Rank9, usize)>)
        ensures
            r is Some <==> BitVector::parse_ok(data@, at as int),
            r matches Some((x, next)) ==> {
                &&& x.wf()
                &&& next <= data@.len()
                &&& x.bit_vector().to_words() == data@.subrange(at as int, next as int)
            },
    {
        match BitVector::deserialize(data, at) {
            None => None,
            Some((bits, next)) => Some((Rank9::new(bits), next)),
        }
    }

    /// The number of set bits.
    pub fn count_ones(&self) -> (r: usize)
        requires
            self.wf(),
        ensures
            r == ones_of(self@),
    {
        self.ones
    }

    /// The number of set bits before word `k`, or before the end for `k`
    /// equal to the number of words.
    pub fn word_start(&self, k: usize) -> (r: usize)
        requires
            self.wf(),
            k <= self.bit_vector().num_words(),
        ensures
            r == self.bit_vector().word_start_rank(k as int),
    {
        if k == self.subs.len() {
            self.ones
        } else {
            proof {
                let len = self.bits.len_spec() as int;
                lemma_rank_bounds(self@, 0, if 64 * k < len {
                    64 * k
                } else {
                    len
                });
            }
            self.blocks[k / 8] + self.subs[k] as usize
        }
    }

    /// The number of set bits in positions `[0, pos)`.
    pub fn rank(&self, pos: usize) -> (r: usize)
        requires
            self.wf(),
            pos <= self@.len(),
        ensures
            r == rank_of(self@, pos as int),
    {
        if pos == self.bits.len() {
            return self.ones;
        }
        let k = pos / 64;
        proof {
            self.bits.lemma_word_rank(k as int, (pos % 64) as int);
            lemma_rank_bounds(self@, 0, pos as int);
            lemma_rank_bounds(self@, 64 * k, pos as int);
        }
        let base = self.blocks[k / 8] + self.subs[k] as usize;
        base + popcount_low(self.bits.get_word(k), (pos % 64) as u32)
    }
}

} // verus!
