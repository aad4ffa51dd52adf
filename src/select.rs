use vstd::prelude::*;
use crate::bits::{
    BitVector,
    word_bit,
    word_rank,
    rank_of,
    ones_of,
    is_select,
    select_of,
    lemma_rank_bounds,
    lemma_select_unique,
    popcount_low,
};
use crate::rank9::Rank9;

verus! {

/// Number of set bits between two consecutive inventory samples of [`Select9`].
pub const SELECT9_ONES_PER_INVENTORY: usize = 512;

/// Position of the `(t+1)`-th set bit of `w`.
fn select_in_word(w: u64, t: usize) -> (r: u32)
    requires
        t < word_rank(w, 64),
    ensures
        r < 64,
        word_bit(w, r as u64),
        word_rank(w, r as int) == t,
{
    let mut c: usize = 0;
    let mut j: u32 = 0;
    while j < 64
        invariant
            j <= 64,
            c == word_rank(w, j as int),
            c <= t,
            t < word_rank(w, 64),
        decreases 64 - j,
    {
        if (w >> (j as u64)) & 1u64 == 1u64 {
            if c == t {
                return j;
            }
            c = c + 1;
        }
        j = j + 1;
    }
    j
}

/// Where word `k` holds the set bit of rank `t`, counting from the start of
/// the word, that bit is the `(s+1)`-th set bit of the vector, `s` being `t`
/// plus the rank at the start of the word.
proof fn lemma_select_in_word(bits: &BitVector, k: int, r: u32, s: int)
    requires
        bits.wf(),
        0 <= k < bits.num_words(),
        r < 64,
        word_bit(bits.word(k), r as u64),
        s == bits.word_start_rank(k) + word_rank(bits.word(k), r as int),
    ensures
        is_select(bits@, s, 64 * k + r),
        select_of(bits@, s) == 64 * k + r,
{
    let p = 64 * k + r;
    bits.lemma_word_rank(k, r as int);
    assert(p / 64 == k && p % 64 == r as int);
    if p >= bits.len_spec() {
        assert(!word_bit(bits.word(p / 64), (p % 64) as u64));
    }
    lemma_select_unique(bits@, s, p, select_of(bits@, s));
}

/// The rank at the start of the word of a position is at most its rank.
proof fn lemma_word_start_le(bits: &BitVector, p: int)
    requires
        bits.wf(),
        0 <= p < bits.len_spec(),
    ensures
        p / 64 < bits.num_words(),
        bits.word_start_rank(p / 64) <= rank_of(bits@, p),
{
    lemma_rank_bounds(bits@, 64 * (p / 64), p);
}

/// Positions of every `m`-th set bit of `bits`: entry `j` is the position of
/// the set bit of rank `j * m`.
fn build_inventory(bits: &BitVector, m: usize) -> (inv: Vec<usize>)
    requires
        bits.wf(),
        m > 0,
    ensures
        ones_of(bits@) <= inv@.len() * m,
        forall|j: int| 0 <= j < inv@.len() ==> is_select(bits@, j * m, (#[trigger] inv@[j]) as int),
{
    let n = bits.len();
    let mut inv: Vec<usize> = Vec::new();
    let mut c: usize = 0;
    let mut until: usize = 0;
    let ghost mut next: int = 0;
    let mut p: usize = 0;
    assert(inv@.len() * m == 0) by (nonlinear_arith)
        requires
            inv@.len() == 0,
    ;
    while p < n
        invariant
            bits.wf(),
            n == bits@.len(),
            m > 0,
            p <= n,
            c == rank_of(bits@, p as int),
            next == inv@.len() * m,
            c + until == next,
            until < m,
            forall|j: int| 0 <= j < inv@.len() ==> is_select(bits@, j * m, (#[trigger] inv@[j]) as int),
        decreases n - p,
    {
        proof {
            lemma_rank_bounds(bits@, 0, p as int);
        }
        if bits.get(p) {
            if until == 0 {
                assert(is_select(bits@, inv@.len() * m, p as int));
                inv.push(p);
                proof {
                    assert(inv@.len() * m == (inv@.len() - 1) * m + m) by (nonlinear_arith);
                    next = next + m;
                }
                until = m - 1;
            } else {
                until = until - 1;
            }
            c = c + 1;
        }
        p = p + 1;
    }
    inv
}

/// The inventory sample that precedes the `(k+1)`-th set bit.
proof fn lemma_inventory_start(bits: &BitVector, inv: Seq<usize>, m: int, k: int)
    requires
        bits.wf(),
        m > 0,
        0 <= k < ones_of(bits@),
        ones_of(bits@) <= inv.len() * m,
        forall|j: int| 0 <= j < inv.len() ==> is_select(bits@, j * m, (#[trigger] inv[j]) as int),
    ensures
        k / m < inv.len(),
        (k / m) * m <= k,
        is_select(bits@, (k / m) * m, inv[k / m] as int),
        bits.word_start_rank(inv[k / m] as int / 64) <= k,
{
    assert((k / m) * m <= k) by (nonlinear_arith)
        requires
            m > 0,
            k >= 0,
    ;
    assert(k / m < inv.len()) by (nonlinear_arith)
        requires
            m > 0,
            0 <= k < inv.len() * m,
    ;
    assert(is_select(bits@, (k / m) * m, inv[k / m] as int));
    lemma_word_start_le(bits, inv[k / m] as int);
}

/// Select index over a [`Rank9`]: an inventory of every
/// [`SELECT9_ONES_PER_INVENTORY`]-th set bit, from which the rank counters
/// lead to the word holding the answer.
pub struct Select9 {
    rank9: Rank9,
    inventory: Vec<usize>,
}

impl View for Select9 {
    type V = Seq<bool>;

    open spec fn view(&self) -> Seq<bool> {
        self.rank_index()@
    }
}

impl Select9 {
    /// The underlying rank index.
    pub closed spec fn rank_index(&self) -> Rank9 {
        self.rank9
    }

    pub closed spec fn inventory_wf(&self) -> bool {
        let s = self.rank9@;
        let m = SELECT9_ONES_PER_INVENTORY as int;
        &&& ones_of(s) <= self.inventory@.len() * m
        &&& forall|j: int|
            0 <= j < self.inventory@.len() ==> is_select(s, j * m, (#[trigger] self.inventory@[j]) as int)
    }

    pub open spec fn wf(&self) -> bool {
        self.rank_index().wf() && self.inventory_wf()
    }

    /// Builds the inventory over the bits of `rank9`.
    pub fn new(rank9: Rank9) -> (r: Select9)
        requires
            rank9.wf(),
        ensures
            r.wf(),
            r.rank_index() == rank9,
    {
        let inventory = build_inventory(rank9.bits(), SELECT9_ONES_PER_INVENTORY);
        Select9 { rank9, inventory }
    }

    /// The underlying rank index.
    pub fn rank9(&self) -> (r: &Rank9)
        ensures
            *r == self.rank_index(),
    {
        &self.rank9
    }

    /// Writes the serialized form of the indexed bits at the end of `out`;
    /// the counters and the inventory are rebuilt on reading.
    pub fn serialize(&self, out: &mut Vec<u64>)
        requires
            self.wf(),
        ensures
            final(out)@ == old(out)@ + self.rank_index().bit_vector().to_words(),
    {
        self.rank9.serialize(out);
    }

    /// Reads serialized bits starting at `data[at]` and indexes them,
    /// returning the index with the position just past the bits.
    pub fn deserialize(data: &[u64], at: usize) -> (r: Option<(Select9, usize)>)
        ensures
            r is Some <==> BitVector::parse_ok(data@, at as int),
            r matches Some((x, next)) ==> {
                &&& x.wf()
                &&& next <= data@.len()
                &&& x.rank_index().bit_vector().to_words() == data@.subrange(at as int, next as int)
            },
    {
        match Rank9::deserialize(data, at) {
            None => None,
            Some((rank9, next)) => Some((Select9::new(rank9), next)),
        }
    }

    /// The number of bits.
    pub fn len(&self) -> (r: usize)
        requires
            self.wf(),
        ensures
            r == self@.len(),
    {
        self.rank9.len()
    }

    /// The number of set bits.
    pub fn count_ones(&self) -> (r: usize)
        requires
            self.wf(),
        ensures
            r == ones_of(self@),
    {
        self.rank9.count_ones()
    }

    /// The number of set bits in positions `[0, pos)`.
    pub fn rank(&self, pos: usize) -> (r: usize)
        requires
            self.wf(),
            pos <= self@.len(),
        ensures
            r == rank_of(self@, pos as int),
    {
        self.rank9.rank(pos)
    }

    /// The position of the `(k+1)`-th set bit; `k` must be below the number
    /// of set bits.
    pub fn select_unchecked(&self, k: usize) -> (r: usize)
        requires
            self.wf(),
            k < ones_of(self@),
        ensures
            r == select_of(self@, k as int),
            is_select(self@, k as int, r as int),
    {
        let bits = self.rank9.bits();
        let m = SELECT9_ONES_PER_INVENTORY;
        proof {
            lemma_inventory_start(bits, self.inventory@, m as int, k as int);
        }
        let n = bits.num_words_exec();
        let mut w = self.inventory[k / m] / 64;
        while w + 1 < n && self.rank9.word_start(w + 1) <= k
            invariant
                self.wf(),
                *bits == self.rank_index().bit_vector(),
                n == bits.num_words(),
                w < n,
                bits.word_start_rank(w as int) <= k,
            decreases n - w,
        {
            w = w + 1;
        }
        let base = self.rank9.word_start(w);
        let last = self.rank9.word_start(w + 1);
        proof {
            bits.lemma_word_rank(w as int, 64);
        }
        let r = select_in_word(bits.get_word(w), k - base);
        proof {
            lemma_select_in_word(bits, w as int, r, k as int);
        }
        w * 64 + r as usize
    }

    /// The position of the `(k+1)`-th set bit, or `None` where there are at
    /// most `k` set bits.
    pub fn select(&self, k: usize) -> (r: Option<usize>)
        requires
            self.wf(),
        ensures
            k < ones_of(self@) ==> r == Some(select_of(self@, k as int) as usize),
            k >= ones_of(self@) ==> r is None,
    {
        if k < self.rank9.count_ones() {
            Some(self.select_unchecked(k))
        } else {
            None
        }
    }
}

/// Select index straight over a [`BitVector`]. Its sampling interval follows
/// the density of the vector: about `2^quantum` words lie between two samples,
/// whatever the share of set bits, so that the words scanned per query stay
/// few in dense and in sparse vectors alike.
pub struct SelectAdapt {
    bits: BitVector,
    inventory: Vec<usize>,
    ones_per_inventory: usize,
    ones: usize,
}

impl View for SelectAdapt {
    type V = Seq<bool>;

    open spec fn view(&self) -> Seq<bool> {
        self.bit_vector()@
    }
}

impl SelectAdapt {
    /// The indexed bits.
    pub closed spec fn bit_vector(&self) -> BitVector {
        self.bits
    }

    pub closed spec fn inventory_wf(&self) -> bool {
        let s = self.bits@;
        let m = self.ones_per_inventory as int;
        &&& m > 0
        &&& self.ones == ones_of(s)
        &&& ones_of(s) <= self.inventory@.len() * m
        &&& forall|j: int|
            0 <= j < self.inventory@.len() ==> is_select(s, j * m, (#[trigger] self.inventory@[j]) as int)
    }

    pub open spec fn wf(&self) -> bool {
        self.bit_vector().wf() && self.inventory_wf()
    }

    /// Builds the inventory over `bits`, with about `2^quantum` words
    /// between samples.
    pub fn new(bits: BitVector, quantum: usize) -> (r: SelectAdapt)
        requires
            bits.wf(),
        ensures
            r.wf(),
            r.bit_vector() == bits,
    {
        let ones = bits.count_ones();
        let n = bits.num_words_exec();
        proof {
            lemma_rank_bounds(bits@, 0, bits@.len() as int);
        }
        let per_word = if n == 0 || ones / n == 0 {
            1
        } else {
            ones / n
        };
        let mut m: usize = per_word;
        if m > 64 {
            m = 64;
        }
        let mut i: usize = 0;
        while i < quantum && m <= 0x20_0000
            invariant
                1 <= m <= 0x40_0000,
            decreases quantum - i,
        {
            m = m * 2;
            i = i + 1;
        }
        let inventory = build_inventory(&bits, m);
        SelectAdapt { bits, inventory, ones_per_inventory: m, ones }
    }

    /// The indexed bits.
    pub fn bits(&self) -> (r: &BitVector)
        ensures
            *r == self.bit_vector(),
    {
        &self.bits
    }

    /// Writes the serialized form of the indexed bits at the end of `out`;
    /// the inventory is rebuilt on reading, with the given quantum.
    pub fn serialize(&self, out: &mut Vec<u64>)
        requires
            self.wf(),
        ensures
            final(out)@ == old(out)@ + self.bit_vector().to_words(),
    {
        self.bits.serialize(out);
    }

    /// Reads serialized bits starting at `data[at]` and indexes them,
    /// returning the index with the position just past the bits.
    pub fn deserialize(data: &[u64], at: usize, quantum: usize) -> (r: Option<(SelectAdapt, usize)>)
        ensures
            r is Some <==> BitVector::parse_ok(data@, at as int),
            r matches Some((x, next)) ==> {
                &&& x.wf()
                &&& next <= data@.len()
                &&& x.bit_vector().to_words() == data@.subrange(at as int, next as int)
            },
    {
        match BitVector::deserialize(data, at) {
            None => None,
            Some((bits, next)) => Some((SelectAdapt::new(bits, quantum), next)),
        }
    }

    /// The number of bits.
    pub fn len(&self) -> (r: usize)
        requires
            self.wf(),
        ensures
            r == self@.len(),
    {
        self.bits.len()
    }

    /// The number of set bits.
    pub fn count_ones(&self) -> (r: usize)
        requires
            self.wf(),
        ensures
            r == ones_of(self@),
    {
        self.ones
    }

    /// The position of the `(k+1)`-th set bit; `k` must be below the number
    /// of set bits.
    pub fn select_unchecked(&self, k: usize) -> (r: usize)
        requires
            self.wf(),
            k < ones_of(self@),
        ensures
            r == select_of(self@, k as int),
            is_select(self@, k as int, r as int),
    {
        let bits = &self.bits;
        let m = self.ones_per_inventory;
        proof {
            lemma_inventory_start(bits, self.inventory@, m as int, k as int);
        }
        let n = bits.num_words_exec();
        let j = k / m;
        let p0 = self.inventory[j];
        let mut w = p0 / 64;
        proof {
            bits.lemma_word_rank(w as int, (p0 % 64) as int);
            assert(64 * (w as int) + (p0 % 64) as int == p0 as int);
        }
        let mut c: usize = j * m - popcount_low(bits.get_word(w), (p0 % 64) as u32);
        loop
            invariant
                self.wf(),
                *bits == self.bit_vector(),
                n == bits.num_words(),
                w < n,
                c == bits.word_start_rank(w as int),
                c <= k,
                k < ones_of(bits@),
            decreases n - w,
        {
            proof {
                bits.lemma_word_rank(w as int, 64);
                let e = if 64 * w + 64 < bits.len_spec() {
                    64 * w + 64
                } else {
                    bits.len_spec() as int
                };
                lemma_rank_bounds(bits@, e, bits.len_spec() as int);
                if w + 1 == n {
                    assert(64 * w + 64 >= bits.len_spec());
                    assert(e == bits.len_spec());
                    assert(bits@.len() == bits.len_spec());
                    assert(rank_of(bits@, e) == ones_of(bits@));
                }
            }
            let pc = popcount_low(bits.get_word(w), 64);
            if k < c + pc {
                let r = select_in_word(bits.get_word(w), k - c);
                proof {
                    lemma_select_in_word(bits, w as int, r, k as int);
                }
                return w * 64 + r as usize;
            }
            c = c + pc;
            w = w + 1;
        }
    }

    /// The position of the `(k+1)`-th set bit, or `None` where there are at
    /// most `k` set bits.
    pub fn select(&self, k: usize) -> (r: Option<usize>)
        requires
            self.wf(),
        ensures
            k < ones_of(self@) ==> r == Some(select_of(self@, k as int) as usize),
            k >= ones_of(self@) ==> r is None,
    {
        if k < self.ones {
            Some(self.select_unchecked(k))
        } else {
            None
        }
    }
}

} // verus!
