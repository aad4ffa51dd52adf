use vstd::prelude::*;

verus! {

/// Bit `j` (counted from the least significant end) of the word `w`.
pub open spec fn word_bit(w: u64, j: u64) -> bool {
    (w >> j) & 1u64 == 1u64
}

/// Number of set bits among the `j` lowest bits of `w`.
pub open spec fn word_rank(w: u64, j: int) -> nat
    decreases j,
{
    if j <= 0 {
        0
    } else {
        word_rank(w, j - 1) + (if word_bit(w, (j - 1) as u64) {
            1nat
        } else {
            0nat
        })
    }
}

/// Number of `true` values of `s` in `s[0..i)`.
pub open spec fn rank_of(s: Seq<bool>, i: int) -> nat
    decreases i,
{
    if i <= 0 {
        0
    } else {
        rank_of(s, i - 1) + (if s[i - 1] {
            1nat
        } else {
            0nat
        })
    }
}

/// `p` is the position of the `(k+1)`-th set bit of `s`.
pub open spec fn is_select(s: Seq<bool>, k: int, p: int) -> bool {
    0 <= p < s.len() && s[p] && rank_of(s, p) == k
}

/// The position of the `(k+1)`-th set bit of `s`, where there is one.
pub open spec fn select_of(s: Seq<bool>, k: int) -> int {
    choose|p: int| is_select(s, k, p)
}

/// The total number of set bits of `s`.
pub open spec fn ones_of(s: Seq<bool>) -> nat {
    rank_of(s, s.len() as int)
}

proof fn lemma_bits_of_zero(j: u64)
    ensures
        !word_bit(0u64, j),
{
    assert(!((0u64 >> j) & 1u64 == 1u64)) by (bit_vector);
}

proof fn lemma_bits_of_or(w: u64, j: u64, k: u64)
    requires
        j < 64,
        k < 64,
    ensures
        word_bit(w | (1u64 << j), k) == (k == j || word_bit(w, k)),
{
    assert(((w | (1u64 << j)) >> k) & 1u64 == 1u64 <==> (k == j || (w >> k) & 1u64 == 1u64))
        by (bit_vector)
        requires
            j < 64,
            k < 64,
    ;
}

proof fn lemma_bits_of_and_not(w: u64, j: u64, k: u64)
    requires
        j < 64,
        k < 64,
    ensures
        word_bit(w & !(1u64 << j), k) == (k != j && word_bit(w, k)),
{
    assert(((w & !(1u64 << j)) >> k) & 1u64 == 1u64 <==> (k != j && (w >> k) & 1u64 == 1u64))
        by (bit_vector)
        requires
            j < 64,
            k < 64,
    ;
}

/// The rank is the number of `true` values in the prefix.
pub proof fn lemma_rank_is_count(s: Seq<bool>, i: int)
    requires
        0 <= i <= s.len(),
    ensures
        rank_of(s, i) == s.subrange(0, i).filter(|x: bool| x).len(),
    decreases i,
{
    reveal(Seq::filter);
    if i > 0 {
        lemma_rank_is_count(s, i - 1);
        assert(s.subrange(0, i).drop_last() =~= s.subrange(0, i - 1));
    }
}

/// Counting set bits over a range gives at least nothing and at most its length.
pub proof fn lemma_rank_bounds(s: Seq<bool>, a: int, b: int)
    requires
        0 <= a <= b,
    ensures
        rank_of(s, a) <= rank_of(s, b) <= rank_of(s, a) + (b - a),
    decreases b - a,
{
    if a < b {
        lemma_rank_bounds(s, a, b - 1);
    }
}

/// The rank of a later set bit is strictly larger.
pub proof fn lemma_rank_strict(s: Seq<bool>, p: int, q: int)
    requires
        0 <= p < q,
        p < s.len(),
        s[p],
    ensures
        rank_of(s, p) < rank_of(s, q),
{
    lemma_rank_bounds(s, p + 1, q);
}

/// Where `k` is below the number of set bits in `s[0..n)`, the `(k+1)`-th
/// set bit stands before `n`.
pub proof fn lemma_select_exists(s: Seq<bool>, k: int, n: int)
    requires
        0 <= k < rank_of(s, n),
        n <= s.len(),
    ensures
        is_select(s, k, select_of(s, k)),
        select_of(s, k) < n,
    decreases n,
{
    if rank_of(s, n - 1) > k {
        lemma_select_exists(s, k, n - 1);
    } else {
        assert(is_select(s, k, n - 1));
        lemma_select_unique(s, k, n - 1, select_of(s, k));
    }
}

/// At most one position is the `(k+1)`-th set bit.
pub proof fn lemma_select_unique(s: Seq<bool>, k: int, p: int, q: int)
    requires
        is_select(s, k, p),
        is_select(s, k, q),
    ensures
        p == q,
{
    if p < q {
        lemma_rank_strict(s, p, q);
    } else if q < p {
        lemma_rank_strict(s, q, p);
    }
}

/// Ranking the `(k+1)`-th set bit gives back `k`.
pub proof fn lemma_rank_of_select(s: Seq<bool>, k: int)
    requires
        0 <= k < ones_of(s),
    ensures
        rank_of(s, select_of(s, k)) == k,
        s[select_of(s, k)],
{
    lemma_select_exists(s, k, s.len() as int);
}

/// Selecting by the rank of a set bit gives back its position.
pub proof fn lemma_select_of_rank(s: Seq<bool>, p: int)
    requires
        0 <= p < s.len(),
        s[p],
    ensures
        select_of(s, rank_of(s, p) as int) == p,
{
    let k = rank_of(s, p) as int;
    assert(is_select(s, k, p));
    lemma_select_unique(s, k, p, select_of(s, k));
}

/// Changing a bit leaves the ranks up to its position as they were.
pub proof fn lemma_rank_update(s: Seq<bool>, p: int, b: bool, q: int)
    requires
        0 <= p < s.len(),
        q <= p,
    ensures
        rank_of(s.update(p, b), q) == rank_of(s, q),
    decreases q,
{
    if q > 0 {
        lemma_rank_update(s, p, b, q - 1);
    }
}

/// Over a run of zeros the rank stays the same.
pub proof fn lemma_rank_zeros(s: Seq<bool>, a: int, b: int)
    requires
        0 <= a <= b <= s.len(),
        forall|q: int| a <= q < b ==> !#[trigger] s[q],
    ensures
        rank_of(s, b) == rank_of(s, a),
    decreases b - a,
{
    if a < b {
        lemma_rank_zeros(s, a, b - 1);
    }
}

/// A fixed-length sequence of bits packed into 64-bit words, least
/// significant bit first.
pub struct BitVector {
    words: Vec<u64>,
    len: usize,
}

impl View for BitVector {
    type V = Seq<bool>;

    open spec fn view(&self) -> Seq<bool> {
        Seq::new(self.len_spec() as nat, |i: int| word_bit(self.word(i / 64), (i % 64) as u64))
    }
}

impl BitVector {
    /// The number of bits.
    pub closed spec fn len_spec(&self) -> usize {
        self.len
    }

    /// The number of backing words.
    pub closed spec fn num_words(&self) -> nat {
        self.words@.len()
    }

    /// The `k`-th backing word.
    pub closed spec fn word(&self, k: int) -> u64 {
        self.words@[k]
    }

    /// Exactly enough words back the bits, and the bits past the end are zero.
    pub open spec fn wf(&self) -> bool {
        &&& self.num_words() == (self.len_spec() + 63) / 64
        &&& forall|i: int|
            #![trigger word_bit(self.word(i / 64), (i % 64) as u64)]
            self.len_spec() <= i < self.num_words() * 64 ==> !word_bit(
                self.word(i / 64),
                (i % 64) as u64,
            )
    }

    /// The number of set bits before the start of word `k`, or before the
    /// end if that comes first.
    pub open spec fn word_start_rank(&self, k: int) -> nat {
        rank_of(self@, if 64 * k < self.len_spec() {
            64 * k
        } else {
            self.len_spec() as int
        })
    }

    /// A vector of `len` zero bits.
    pub fn new(len: usize) -> (r: BitVector)
        ensures
            r.wf(),
            r@ == Seq::new(len as nat, |i: int| false),
    {
        let n: usize = len / 64 + if len % 64 == 0 {
            0
        } else {
            1
        };
        let mut words: Vec<u64> = Vec::new();
        let mut k: usize = 0;
        while k < n
            invariant
                k <= n,
                words@.len() == k,
                forall|t: int| 0 <= t < k ==> words@[t] == 0u64,
            decreases n - k,
        {
            words.push(0u64);
            k = k + 1;
        }
        let r = BitVector { words, len };
        assert forall|i: int| 0 <= i < r.num_words() * 64 implies !word_bit(
            #[trigger] r.word(i / 64),
            (i % 64) as u64,
        ) by {
            lemma_bits_of_zero((i % 64) as u64);
        }
        assert(r@ =~= Seq::new(len as nat, |i: int| false));
        r
    }

    /// A vector holding the given bits in order.
    pub fn from_bools(b: &Vec<bool>) -> (r: BitVector)
        ensures
            r.wf(),
            r@ == b@,
    {
        let mut r = BitVector::new(b.len());
        let mut i: usize = 0;
        while i < b.len()
            invariant
                r.wf(),
                r@.len() == b@.len(),
                i <= b@.len(),
                forall|t: int| 0 <= t < i ==> r@[t] == b@[t],
            decreases b@.len() - i,
        {
            r.set(i, b[i]);
            i = i + 1;
        }
        assert(r@ =~= b@);
        r
    }

    /// The number of bits.
    pub fn len(&self) -> (r: usize)
        ensures
            r == self@.len(),
            r == self.len_spec(),
    {
        self.len
    }

    /// The number of backing words.
    pub fn num_words_exec(&self) -> (r: usize)
        ensures
            r == self.num_words(),
    {
        self.words.len()
    }

    /// The `k`-th backing word.
    pub fn get_word(&self, k: usize) -> (r: u64)
        requires
            k < self.num_words(),
        ensures
            r == self.word(k as int),
    {
        self.words[k]
    }

    /// Bit `i`.
    pub fn get(&self, i: usize) -> (r: bool)
        requires
            self.wf(),
            i < self@.len(),
        ensures
            r == self@[i as int],
    {
        (self.words[i / 64] >> ((i % 64) as u64)) & 1u64 == 1u64
    }

    /// Sets bit `i` to `b`.
    pub fn set(&mut self, i: usize, b: bool)
        requires
            old(self).wf(),
            i < old(self)@.len(),
        ensures
            final(self).wf(),
            final(self)@ == old(self)@.update(i as int, b),
    {
        let ghost pre = *self;
        let k = i / 64;
        let j = (i % 64) as u64;
        let w = self.words[k];
        let nw = if b {
            w | (1u64 << j)
        } else {
            w & !(1u64 << j)
        };
        self.words.set(k, nw);
        assert forall|t: int| 0 <= t < 64 implies #[trigger] word_bit(nw, t as u64) == (if t == j {
            b
        } else {
            word_bit(w, t as u64)
        }) by {
            if b {
                lemma_bits_of_or(w, j, t as u64);
            } else {
                lemma_bits_of_and_not(w, j, t as u64);
            }
        }
        assert forall|q: int| 0 <= q < self.num_words() * 64 implies word_bit(
            #[trigger] self.word(q / 64),
            (q % 64) as u64,
        ) == if q == i {
            b
        } else {
            word_bit(pre.word(q / 64), (q % 64) as u64)
        } by {
            if q / 64 == k as int {
                assert(word_bit(nw, (q % 64) as u64) == (if (q % 64) == j as int {
                    b
                } else {
                    word_bit(w, (q % 64) as u64)
                }));
            }
        }
        assert(self@ =~= pre@.update(i as int, b));
    }

    /// The serialized form: the length, then the backing words.
    pub closed spec fn to_words(&self) -> Seq<u64> {
        seq![self.len as u64].add(self.words@)
    }

    /// `data[at..]` starts with a well-formed serialized bit vector.
    pub open spec fn parse_ok(data: Seq<u64>, at: int) -> bool {
        &&& 0 <= at < data.len()
        &&& data[at] <= usize::MAX
        &&& at + 1 + (data[at] + 63) / 64 <= data.len()
        &&& (data[at] % 64 != 0 ==> forall|j: u64|
            (data[at] % 64) as u64 <= j < 64 ==> !#[trigger] word_bit(
                data[at + (data[at] + 63) / 64],
                j,
            ))
    }

    /// The number of words that the serialized form of a vector of `len`
    /// bits takes.
    pub open spec fn serialized_words(len: nat) -> nat {
        1 + (len + 63) / 64
    }

    /// Writes the serialized form at the end of `out`.
    pub fn serialize(&self, out: &mut Vec<u64>)
        requires
            self.wf(),
        ensures
            final(out)@ == old(out)@ + self.to_words(),
    {
        let ghost pre = out@;
        out.push(self.len as u64);
        let mut k: usize = 0;
        while k < self.words.len()
            invariant
                k <= self.words@.len(),
                out@ == pre + seq![self.len as u64] + self.words@.subrange(0, k as int),
            decreases self.words@.len() - k,
        {
            out.push(self.words[k]);
            k = k + 1;
            assert(out@ =~= pre + seq![self.len as u64] + self.words@.subrange(0, k as int));
        }
        assert(self.words@.subrange(0, k as int) =~= self.words@);
        assert(out@ =~= pre + self.to_words());
    }

    /// Reads a serialized vector starting at `data[at]`, returning it with
    /// the position just past it; `None` where the data there is not one.
    pub fn deserialize(data: &[u64], at: usize) -> (r: Option<(BitVector, usize)>)
        ensures
            r is Some <==> Self::parse_ok(data@, at as int),
            r matches Some((b, next)) ==> {
                &&& b.wf()
                &&& next == at + Self::serialized_words(b@.len())
                &&& next <= data@.len()
                &&& b.to_words() == data@.subrange(at as int, next as int)
            },
    {
        if at >= data.len() {
            return None;
        }
        let len64 = data[at];
        if len64 > usize::MAX as u64 {
            return None;
        }
        let len = len64 as usize;
        let n: usize = len / 64 + if len % 64 == 0 {
            0
        } else {
            1
        };
        if data.len() - at - 1 < n {
            return None;
        }
        if len % 64 != 0 {
            let last = data[at + n];
            let mut j: u64 = (len % 64) as u64;
            while j < 64
                invariant
                    len == data@[at as int],
                    n == (len + 63) / 64,
                    len % 64 != 0,
                    at + n < data@.len(),
                    last == data@[at + n],
                    (len % 64) as u64 <= j <= 64,
                    forall|t: u64| (len % 64) as u64 <= t < j ==> !word_bit(last, t),
                decreases 64 - j,
            {
                if (last >> j) & 1u64 == 1u64 {
                    assert(n == (data@[at as int] + 63) / 64);
                    assert(word_bit(data@[at + (data@[at as int] + 63) / 64], j));
                    assert((data@[at as int] % 64) as u64 <= j < 64);
                    assert(data@[at as int] % 64 != 0);
                    return None;
                }
                j = j + 1;
            }
        }
        let dl = data.len();
        let mut words: Vec<u64> = Vec::new();
        let mut k: usize = 0;
        while k < n
            invariant
                dl == data@.len(),
                k <= n,
                at + 1 + n <= data@.len(),
                words@ == data@.subrange(at + 1, at + 1 + k),
            decreases n - k,
        {
            words.push(data[at + 1 + k]);
            k = k + 1;
            assert(words@ =~= data@.subrange(at + 1, at + 1 + k));
        }
        let b = BitVector { words, len };
        proof {
            assert forall|i: int| len <= i < n * 64 implies !word_bit(
                #[trigger] b.word(i / 64),
                (i % 64) as u64,
            ) by {
                let w = b.word(i / 64);
                let j = (i % 64) as u64;
                assert(i / 64 == n - 1);
                assert(w == data@[at + n as int]);
                assert((len % 64) as u64 <= j);
            }
            assert(b.to_words() =~= data@.subrange(at as int, at + 1 + n));
        }
        Some((b, at + 1 + n))
    }

    /// The number of set bits.
    pub fn count_ones(&self) -> (r: usize)
        requires
            self.wf(),
        ensures
            r == ones_of(self@),
    {
        let n = self.words.len();
        let mut c: usize = 0;
        let mut k: usize = 0;
        while k < n
            invariant
                self.wf(),
                n == self.num_words(),
                k <= n,
                c == self.word_start_rank(k as int),
            decreases n - k,
        {
            proof {
                self.lemma_word_rank(k as int, 64);
                let e = if 64 * k + 64 < self.len_spec() {
                    64 * k + 64
                } else {
                    self.len_spec() as int
                };
                lemma_rank_bounds(self@, 0, e);
            }
            c = c + popcount_low(self.words[k], 64);
            k = k + 1;
        }
        c
    }

    /// What the serialized form says of the vector.
    pub proof fn lemma_to_words(&self)
        ensures
            self.to_words().len() == 1 + self.num_words(),
            self.to_words()[0] == self.len_spec(),
            forall|k: int| 0 <= k < self.num_words() ==> self.to_words()[k + 1] == #[trigger] self.word(k),
    {
    }

    /// Inside word `k`, the rank grows as the word's own low-bit count.
    pub proof fn lemma_word_rank(&self, k: int, r: int)
        requires
            self.wf(),
            0 <= k < self.num_words(),
            0 <= r <= 64,
        ensures
            rank_of(self@, if 64 * k + r < self.len_spec() {
                64 * k + r
            } else {
                self.len_spec() as int
            }) == self.word_start_rank(k) + word_rank(self.word(k), r),
            64 * k < self.len_spec(),
        decreases r,
    {
        if r > 0 {
            self.lemma_word_rank(k, r - 1);
            let q = 64 * k + r - 1;
            assert(q / 64 == k && q % 64 == r - 1);
            if q >= self.len_spec() {
                assert(!word_bit(self.word(q / 64), (q % 64) as u64));
            }
        }
    }
}

/// Number of set bits among the `j` lowest bits of `w`.
pub fn popcount_low(w: u64, j: u32) -> (r: usize)
    requires
        j <= 64,
    ensures
        r == word_rank(w, j as int),
        r <= j,
{
    let mut c: usize = 0;
    let mut t: u32 = 0;
    while t < j
        invariant
            t <= j <= 64,
            c == word_rank(w, t as int),
            c <= t,
        decreases j - t,
    {
        if (w >> (t as u64)) & 1u64 == 1u64 {
            c = c + 1;
        }
        t = t + 1;
    }
    c
}

/// Reading back what `serialize` wrote gives the same bits: the serialized
/// form of a well-formed vector is accepted, and any vector with the same
/// serialized form has the same contents.
pub proof fn lemma_bit_vector_round_trip(x: &BitVector, y: &BitVector)
    requires
        x.wf(),
        y.to_words() == x.to_words(),
    ensures
        BitVector::parse_ok(x.to_words(), 0),
        x.to_words().len() == BitVector::serialized_words(x@.len()),
        y@ == x@,
{
    x.lemma_to_words();
    y.lemma_to_words();
    assert(y.num_words() == x.num_words());
    assert forall|k: int| 0 <= k < x.num_words() implies y.word(k) == x.word(k) by {
        assert(y.to_words()[k + 1] == x.to_words()[k + 1]);
    }
    assert(y@ =~= x@);
    let w = x.to_words();
    let len = x.len_spec() as int;
    let n = (len + 63) / 64;
    if len % 64 != 0 {
        let last = x.word(n - 1);
        let r = (len % 64) as u64;
        assert(64 * (n - 1) + r == len);
        assert forall|j: u64| r <= j < 64 implies !#[trigger] word_bit(w[0 + (w[0] + 63) / 64], j) by {
            let i = 64 * (n - 1) + j;
            assert(i / 64 == n - 1 && i % 64 == j);
            assert(w[0] == len);
            assert(w[0 + (w[0] + 63) / 64] == w[n]);
            assert(w[(n - 1) + 1] == x.word(n - 1));
            assert(len <= i < x.num_words() * 64);
            assert(!word_bit(x.word(i / 64), (i % 64) as u64));
        }
    }
}

/// A well-formed vector's serialized form is accepted wherever it stands.
pub proof fn lemma_parse_ok_at(x: &BitVector, data: Seq<u64>, at: int)
    requires
        x.wf(),
        0 <= at,
        at + x.to_words().len() <= data.len(),
        data.subrange(at, at + x.to_words().len()) == x.to_words(),
    ensures
        BitVector::parse_ok(data, at),
{
    let w = x.to_words();
    lemma_bit_vector_round_trip(x, x);
    assert(data[at] == w[0]);
    let n = (w[0] + 63) / 64;
    assert(BitVector::parse_ok(w, 0));
    assert(data[at + n] == w[n]);
    assert(data[at] % 64 != 0 ==> forall|j: u64|
        (data[at] % 64) as u64 <= j < 64 ==> !#[trigger] word_bit(data[at + (data[at] + 63) / 64], j)) by {
        if data[at] % 64 != 0 {
            assert forall|j: u64| (data[at] % 64) as u64 <= j < 64 implies !#[trigger] word_bit(
                data[at + (data[at] + 63) / 64],
                j,
            ) by {
                assert(!word_bit(w[0 + (w[0] + 63) / 64], j));
            }
        }
    }
}

} // verus!
