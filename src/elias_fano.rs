use vstd::prelude::*;
use vstd::arithmetic::power2::{pow2, lemma_pow2_pos};
use vstd::arithmetic::div_mod::{
    lemma_fundamental_div_mod,
    lemma_fundamental_div_mod_converse,
    lemma_div_is_ordered,
};
use vstd::bits::{lemma_u64_shl_is_mul, lemma_u64_shr_is_div, lemma_u64_pow2_no_overflow};
use crate::bits::{
    BitVector,
    rank_of,
    ones_of,
    is_select,
    lemma_rank_strict,
    lemma_rank_update,
    lemma_rank_zeros,
    lemma_select_unique,
    lemma_rank_bounds,
    lemma_bit_vector_round_trip,
    lemma_parse_ok_at,
};
use crate::compact_array::{CompactArray, lemma_compact_array_round_trip, lemma_compact_array_parse_ok_at};
use crate::select::SelectAdapt;

verus! {

/// `floor(log2(q))` for `q >= 1`, and zero for `q == 0`.
pub open spec fn log2_floor(q: nat) -> nat
    decreases q,
{
    if q <= 1 {
        0
    } else {
        1 + log2_floor(q / 2)
    }
}

/// The number of low bits kept apart for `n` values below `universe`.
pub open spec fn low_bits_for(universe: u64, n: usize) -> nat {
    if n == 0 {
        0
    } else {
        log2_floor(universe as nat / n as nat)
    }
}

/// The high part of `v`: what is left after dropping `l` low bits.
pub open spec fn high_of(v: u64, l: nat) -> int {
    (v as nat / pow2(l)) as int
}

/// The low part of `v`: its `l` low bits.
pub open spec fn low_of(v: u64, l: nat) -> u64 {
    (v as nat % pow2(l)) as u64
}

/// `s` never decreases.
pub open spec fn non_decreasing(s: Seq<u64>) -> bool {
    forall|a: int, b: int| 0 <= a <= b < s.len() ==> s[a] <= s[b]
}

/// Why a value was refused by an [`EliasFanoBuilder`].
#[derive(Debug, Clone, Copy, PartialEq, Eq)]
pub enum EliasFanoError {
    /// All the values that the builder was sized for were pushed already.
    TooManyValues,
    /// The value is not below the universe.
    ValueTooLarge,
    /// The value is smaller than the one pushed before it.
    NotMonotone,
}

/// Each value sits in `high` as a set bit at its high part plus its index,
/// and in `low` as its low part.
pub open spec fn encodes(high: Seq<bool>, low: Seq<u64>, l: nat, values: Seq<u64>) -> bool {
    forall|i: int|
        0 <= i < values.len() ==> is_select(high, i, high_of(#[trigger] values[i], l) + i)
            && low[i] == low_of(values[i], l)
}

fn low_bits_exec(universe: u64, n: usize) -> (r: usize)
    ensures
        r == low_bits_for(universe, n),
        r < 64,
{
    if n == 0 {
        return 0;
    }
    let mut q: u64 = universe / (n as u64);
    let mut l: usize = 0;
    proof {
        lemma_log2_floor_bound(q as nat);
        if q > 0 && log2_floor(q as nat) >= 64 {
            if log2_floor(q as nat) > 64 {
                vstd::arithmetic::power2::lemma_pow2_strictly_increases(64, log2_floor(q as nat));
            }
            vstd::arithmetic::power2::lemma2_to64();
        }
    }
    while q > 1
        invariant
            l + log2_floor(q as nat) == log2_floor(universe as nat / n as nat),
            l + q <= 0xffff_ffff_ffff_ffff,
            l < 64,
            q > 0 ==> l + log2_floor(q as nat) < 64,
        decreases q,
    {
        proof {
            lemma_log2_floor_bound(q as nat);
        }
        q = q / 2;
        l = l + 1;
    }
    l
}

proof fn lemma_log2_floor_bound(q: nat)
    ensures
        q > 0 ==> pow2(log2_floor(q)) <= q,
        log2_floor(q) <= q,
    decreases q,
{
    if q > 1 {
        lemma_log2_floor_bound(q / 2);
        vstd::arithmetic::power2::lemma_pow2_unfold(log2_floor(q));
    } else if q == 1 {
        vstd::arithmetic::power2::lemma2_to64();
    }
}

/// Collects a non-decreasing sequence of values below a universe, one value
/// at a time, into an Elias–Fano representation.
pub struct EliasFanoBuilder {
    universe: u64,
    n: usize,
    low_bits: usize,
    high: BitVector,
    low: CompactArray,
    count: usize,
    last: u64,
    values: Ghost<Seq<u64>>,
}

impl View for EliasFanoBuilder {
    type V = Seq<u64>;

    closed spec fn view(&self) -> Seq<u64> {
        self.values@
    }
}

impl EliasFanoBuilder {
    /// The exclusive upper bound of the values.
    pub closed spec fn universe_spec(&self) -> u64 {
        self.universe
    }

    /// The number of values the builder was sized for.
    pub closed spec fn capacity(&self) -> usize {
        self.n
    }

    /// The number of low bits of each value kept apart.
    pub closed spec fn low_bits_spec(&self) -> nat {
        self.low_bits as nat
    }

    /// The first free position of the high bits.
    closed spec fn next_free(&self) -> int {
        if self.count == 0 {
            0
        } else {
            high_of(self.last, self.low_bits as nat) + self.count
        }
    }

    pub closed spec fn wf(&self) -> bool {
        let l = self.low_bits as nat;
        let v = self.values@;
        &&& self.high.wf()
        &&& self.low.wf()
        &&& self.low.width() == self.low_bits
        &&& self.low_bits < 64
        &&& self.low@.len() == self.n
        &&& self.high@.len() == self.n + self.universe as nat / pow2(l) + 1
        &&& v.len() == self.count
        &&& self.count <= self.n
        &&& non_decreasing(v)
        &&& forall|i: int| 0 <= i < v.len() ==> #[trigger] v[i] < self.universe
        &&& self.count > 0 ==> self.last == v[self.count - 1]
        &&& encodes(self.high@, self.low@, l, v)
        &&& 0 <= self.next_free() <= self.high@.len()
        &&& rank_of(self.high@, self.next_free()) == self.count
        &&& forall|q: int| self.next_free() <= q < self.high@.len() ==> !#[trigger] self.high@[q]
    }

    /// A builder for `n` values below `universe`.
    pub fn new(universe: u64, n: usize) -> (r: EliasFanoBuilder)
        requires
            n as int + universe as int + 1 <= usize::MAX,
        ensures
            r.wf(),
            r@ == Seq::<u64>::empty(),
            r.universe_spec() == universe,
            r.capacity() == n,
            r.low_bits_spec() == low_bits_for(universe, n),
    {
        let l = low_bits_exec(universe, n);
        proof {
            lemma_u64_shr_is_div(universe, l as u64);
            lemma_pow2_pos(l as nat);
            assert(universe as nat / pow2(l as nat) <= universe as nat) by (nonlinear_arith)
                requires
                    pow2(l as nat) > 0,
            ;
            if n > 0 {
                lemma_log2_floor_bound(universe as nat / n as nat);
                assert(n as int * l as int <= universe) by (nonlinear_arith)
                    requires
                        n > 0,
                        l <= universe as nat / n as nat,
                ;
            }
        }
        let high_len = n + (universe >> (l as u64)) as usize + 1;
        let high = BitVector::new(high_len);
        let low = CompactArray::new(l, n);
        let r = EliasFanoBuilder {
            universe,
            n,
            low_bits: l,
            high,
            low,
            count: 0,
            last: 0,
            values: Ghost(Seq::empty()),
        };
        assert(encodes(r.high@, r.low@, l as nat, Seq::<u64>::empty()));
        r
    }

    /// Appends `v`. Fails, leaving the builder as it was, where all the
    /// values it was sized for are in, where `v` is not below the universe,
    /// or where `v` is smaller than the previous value.
    pub fn push(&mut self, v: u64) -> (r: Result<(), EliasFanoError>)
        requires
            old(self).wf(),
        ensures
            final(self).wf(),
            final(self).universe_spec() == old(self).universe_spec(),
            final(self).capacity() == old(self).capacity(),
            final(self).low_bits_spec() == old(self).low_bits_spec(),
            old(self)@.len() == old(self).capacity() ==> r == Err::<(), EliasFanoError>(
                EliasFanoError::TooManyValues,
            ),
            old(self)@.len() < old(self).capacity() && v >= old(self).universe_spec() ==> r
                == Err::<(), EliasFanoError>(EliasFanoError::ValueTooLarge),
            old(self)@.len() < old(self).capacity() && v < old(self).universe_spec() && old(
                self,
            )@.len() > 0 && v < old(self)@.last() ==> r == Err::<(), EliasFanoError>(
                EliasFanoError::NotMonotone,
            ),
            r is Ok <==> (old(self)@.len() < old(self).capacity() && v < old(self).universe_spec()
                && (old(self)@.len() == 0 || v >= old(self)@.last())),
            r is Ok ==> final(self)@ == old(self)@.push(v),
            r is Err ==> final(self)@ == old(self)@,
    {
        if self.count == self.n {
            return Err(EliasFanoError::TooManyValues);
        }
        if v >= self.universe {
            return Err(EliasFanoError::ValueTooLarge);
        }
        if self.count > 0 && v < self.last {
            return Err(EliasFanoError::NotMonotone);
        }
        let ghost pre = *self;
        let ghost l = self.low_bits as nat;
        let ghost hs = self.high@;
        let ghost vs = self.values@;
        let lb = self.low_bits;
        proof {
            lemma_u64_pow2_no_overflow(l);
            lemma_pow2_pos(l);
            lemma_u64_shl_is_mul(1u64, lb as u64);
            lemma_u64_shr_is_div(v, lb as u64);
            lemma_div_is_ordered(v as int, self.universe as int, pow2(l) as int);
            if self.count > 0 {
                lemma_div_is_ordered(self.last as int, v as int, pow2(l) as int);
            }
        }
        let m: u64 = 1u64 << (lb as u64);
        let hi = (v >> (lb as u64)) as usize;
        let p = hi + self.count;
        let lo = v % m;
        let res = self.low.set(self.count, lo);
        let ghost nf = pre.next_free();
        proof {
            assert(nf <= p);
            lemma_rank_zeros(hs, nf, p as int);
            lemma_rank_update(hs, p as int, true, p as int);
            assert forall|i: int| 0 <= i < vs.len() implies is_select(
                hs.update(p as int, true),
                i,
                high_of(#[trigger] vs[i], l) + i,
            ) by {
                let q = high_of(vs[i], l) + i;
                assert(is_select(hs, i, q));
                lemma_rank_update(hs, p as int, true, q);
            }
        }
        self.high.set(p, true);
        self.values = Ghost(vs.push(v));
        self.count = self.count + 1;
        self.last = v;
        proof {
            let ns = self.high@;
            assert(ns == hs.update(p as int, true));
            assert(rank_of(ns, p + 1) == rank_of(ns, p as int) + 1);
            assert(self.next_free() == p + 1);
            assert(encodes(self.high@, self.low@, l, self.values@)) by {
                assert forall|i: int| 0 <= i < self.values@.len() implies is_select(
                    self.high@,
                    i,
                    high_of(#[trigger] self.values@[i], l) + i,
                ) && self.low@[i] == low_of(self.values@[i], l) by {
                    if i < vs.len() {
                        assert(self.values@[i] == vs[i]);
                    }
                }
            }
        }
        Ok(())
    }

    /// A bound, in bits, on the space of `n` values below `universe`:
    /// `2n + n * ceil(log2(universe / n))`, and zero for `n == 0`.
    pub fn mem_upperbound(universe: u64, n: usize) -> (r: u128)
        ensures
            n == 0 ==> r == 0,
            n > 0 ==> exists|k: nat|
                #![trigger pow2(k)]
                n * pow2(k) >= universe && (k == 0 || n * pow2((k - 1) as nat) < universe) && r == 2
                    * n + n * k,
    {
        if n == 0 {
            return 0;
        }
        let mut p: u128 = n as u128;
        let mut k: u32 = 0;
        proof {
            vstd::arithmetic::power2::lemma2_to64();
        }
        while p < universe as u128
            invariant
                n > 0,
                p == n * pow2(k as nat),
                k == 0 || n * pow2((k - 1) as nat) < universe,
                k <= 64,
                pow2(64) == 0x1_0000_0000_0000_0000,
            decreases 64 - k,
        {
            proof {
                vstd::arithmetic::power2::lemma_pow2_unfold((k + 1) as nat);
                assert(n * pow2((k + 1) as nat) == 2 * p) by (nonlinear_arith)
                    requires
                        pow2((k + 1) as nat) == 2 * pow2(k as nat),
                        p == n * pow2(k as nat),
                ;
                if k == 64 {
                    assert(p >= 0x1_0000_0000_0000_0000) by (nonlinear_arith)
                        requires
                            n > 0,
                            p == n * pow2(k as nat),
                            pow2(k as nat) == 0x1_0000_0000_0000_0000,
                    ;
                }
            }
            p = p * 2;
            k = k + 1;
        }
        proof {
            assert(n * pow2(k as nat) >= universe && (k == 0 || n * pow2((k - 1) as nat) < universe));
            assert((n as int) * (k as int) <= 0xffff_ffff_ffff_ffff * 64) by (nonlinear_arith)
                requires
                    n <= 0xffff_ffff_ffff_ffffint,
                    k <= 64,
            ;
        }
        2 * (n as u128) + (n as u128) * (k as u128)
    }

    /// The number of values pushed so far.
    pub fn len(&self) -> (r: usize)
        requires
            self.wf(),
        ensures
            r == self@.len(),
    {
        self.count
    }

    /// Finishes the sequence: the high bits get a select index.
    pub fn build(self) -> (r: EliasFano)
        requires
            self.wf(),
        ensures
            r.wf(),
            r@ == self@,
    {
        let high = SelectAdapt::new(self.high, 3);
        EliasFano {
            high,
            low: self.low,
            low_bits: self.low_bits,
            len: self.count,
            values: self.values,
        }
    }
}

/// A non-decreasing sequence of integers in Elias–Fano form: the high part
/// of each value in unary in a bit vector with a select index, and the low
/// part in a [`CompactArray`].
pub struct EliasFano {
    high: SelectAdapt,
    low: CompactArray,
    low_bits: usize,
    len: usize,
    values: Ghost<Seq<u64>>,
}

impl View for EliasFano {
    type V = Seq<u64>;

    closed spec fn view(&self) -> Seq<u64> {
        self.values@
    }
}

impl EliasFano {
    pub closed spec fn wf(&self) -> bool {
        &&& self.high.wf()
        &&& self.low.wf()
        &&& self.low.width() == self.low_bits
        &&& self.low_bits < 64
        &&& self.values@.len() == self.len
        &&& self.len <= self.low@.len()
        &&& non_decreasing(self.values@)
        &&& encodes(self.high@, self.low@, self.low_bits as nat, self.values@)
    }

    /// Well-formed sequences never decrease.
    pub proof fn lemma_sorted(&self)
        requires
            self.wf(),
        ensures
            non_decreasing(self@),
    {
    }

    /// The serialized form: the number of low bits, the length, the high
    /// bits, then the low parts.
    pub closed spec fn to_words(&self) -> Seq<u64> {
        seq![self.low_bits as u64, self.len as u64].add(self.high.bit_vector().to_words()).add(
            self.low.to_words(),
        )
    }

    /// Writes the serialized form at the end of `out`.
    pub fn serialize(&self, out: &mut Vec<u64>)
        requires
            self.wf(),
        ensures
            final(out)@ == old(out)@ + self.to_words(),
    {
        let ghost pre = out@;
        out.push(self.low_bits as u64);
        out.push(self.len as u64);
        self.high.bits().serialize(out);
        self.low.serialize(out);
        assert(out@ =~= pre + self.to_words());
    }

    /// Reads a serialized sequence starting at `data[at]`, returning it with
    /// the position just past it. Where the data there is the serialized
    /// form of a sequence, the result holds the same values.
    pub fn deserialize(data: &[u64], at: usize) -> (r: Option<(EliasFano, usize)>)
        ensures
            r matches Some((e, next)) ==> {
                &&& e.wf()
                &&& at < next <= data@.len()
                &&& e.to_words() == data@.subrange(at as int, next as int)
            },
            forall|x: EliasFano|
                #[trigger] stored_at(data@, at as int, x) ==> (r matches Some((e, next)) && e@ == x@
                    && next == at + x.to_words().len()),
    {
        proof {
            assert forall|x: EliasFano| #[trigger] stored_at(data@, at as int, x) implies at + 2
                <= data@.len() && data@[at as int] == x.low_bits && data@[at + 1] == x.len
                && BitVector::parse_ok(data@, at + 2) by {
                lemma_stored_header(data@, at as int, x);
            }
        }
        if at >= data.len() || data.len() - at < 2 {
            return None;
        }
        let l64 = data[at];
        let n64 = data[at + 1];
        if l64 >= 64 || n64 > usize::MAX as u64 {
            proof {
                assert forall|x: EliasFano| !#[trigger] stored_at(data@, at as int, x) by {
                    if stored_at(data@, at as int, x) {
                        lemma_stored_header(data@, at as int, x);
                    }
                }
            }
            return None;
        }
        let lb = l64 as usize;
        let len = n64 as usize;
        let (hb, n1) = match BitVector::deserialize(data, at + 2) {
            None => {
                return None;
            },
            Some(t) => t,
        };
        proof {
            assert forall|x: EliasFano| #[trigger] stored_at(data@, at as int, x) implies hb@
                == x.high@ && CompactArray::parse_ok(data@, n1 as int) by {
                lemma_stored_high(data@, at as int, x, hb, n1 as int);
            }
        }
        let (low, n2) = match CompactArray::deserialize(data, n1) {
            None => {
                return None;
            },
            Some(t) => t,
        };
        proof {
            assert forall|x: EliasFano| #[trigger] stored_at(data@, at as int, x) implies low@
                == x.low@ && low.width() == x.low_bits && n2 == at + x.to_words().len() by {
                lemma_stored_high(data@, at as int, x, hb, n1 as int);
                lemma_stored_low(data@, at as int, x, n1 as int, low, n2 as int);
            }
        }
        if low.bit_width() != lb || len > low.len() {
            return None;
        }
        let high = SelectAdapt::new(hb, 3);
        if len > high.count_ones() {
            proof {
                assert forall|x: EliasFano| !#[trigger] stored_at(data@, at as int, x) by {
                    if stored_at(data@, at as int, x) {
                        let k = len - 1;
                        assert(is_select(high@, k, high_of(x@[k], lb as nat) + k));
                        lemma_rank_strict(high@, high_of(x@[k], lb as nat) + k, high@.len() as int);
                    }
                }
            }
            return None;
        }
        let ghost l = lb as nat;
        proof {
            lemma_u64_pow2_no_overflow(l);
            lemma_pow2_pos(l);
            lemma_u64_shl_is_mul(1u64, lb as u64);
        }
        let m: u64 = 1u64 << (lb as u64);
        proof {
            if l < 63 {
                vstd::arithmetic::power2::lemma_pow2_strictly_increases(l, 63);
            }
            vstd::arithmetic::power2::lemma2_to64_rest();
        }
        let mut vals: Ghost<Seq<u64>> = Ghost(Seq::empty());
        proof {
            assert forall|x: EliasFano| #[trigger] stored_at(data@, at as int, x) implies x.low_bits
                == lb && x.len == len && vals@ == x@.subrange(0, 0) by {
                lemma_stored_header(data@, at as int, x);
                assert(vals@ =~= x@.subrange(0, 0));
            }
        }
        let mut prev: u64 = 0;
        let mut i: usize = 0;
        while i < len
            invariant
                high.wf(),
                low.wf(),
                high@ == hb@,
                low.width() == lb,
                l == lb as nat,
                lb < 64,
                m == pow2(l),
                m <= 0x8000_0000_0000_0000u64,
                len <= low@.len(),
                len <= ones_of(high@),
                i <= len,
                vals@.len() == i,
                non_decreasing(vals@),
                i > 0 ==> prev == vals@[i - 1],
                encodes(high@, low@, l, vals@),
                forall|x: EliasFano|
                    #[trigger] stored_at(data@, at as int, x) ==> low@ == x.low@ && hb@ == x.high@
                        && x.low_bits == lb && x.len == len && vals@ == x@.subrange(0, i as int),
            decreases len - i,
        {
            let p = high.select_unchecked(i);
            proof {
                lemma_rank_bounds(high@, 0, p as int);
            }
            let hi = (p - i) as u128;
            let lo = low.get(i);
            proof {
                assert((hi as int) * (m as int) <= 0xffff_ffff_ffff_ffffint * 0x8000_0000_0000_0000)
                    by (nonlinear_arith)
                    requires
                        hi <= 0xffff_ffff_ffff_ffffint,
                        m <= 0x8000_0000_0000_0000int,
                ;
                assert forall|x: EliasFano| #[trigger] stored_at(data@, at as int, x) implies x@[i as int]
                    == hi * m + lo by {
                    let xv = x@[i as int];
                    lemma_stored_value(x, i as int);
                    lemma_select_unique(high@, i as int, p as int, high_of(xv, l) + i);
                    lemma_fundamental_div_mod(xv as int, pow2(l) as int);
                    assert(x.low_bits == lb);
                    assert(x.high@ == high@);
                    assert(hi == xv as nat / pow2(l));
                    assert(lo == x.low@[i as int]);
                    assert(lo == xv as nat % pow2(l));
                    assert(hi * m == pow2(l) * (xv as nat / pow2(l))) by (nonlinear_arith)
                        requires
                            hi == xv as nat / pow2(l),
                            m == pow2(l),
                    ;
                }
            }
            let v128 = hi * (m as u128) + lo as u128;
            if v128 > u64::MAX as u128 {
                return None;
            }
            let v = v128 as u64;
            if i > 0 && v < prev {
                proof {
                    assert forall|x: EliasFano| !#[trigger] stored_at(data@, at as int, x) by {
                        if stored_at(data@, at as int, x) {
                            x.lemma_sorted();
                            assert(x@[i - 1] == vals@[i - 1]);
                        }
                    }
                }
                return None;
            }
            proof {
                lemma_fundamental_div_mod_converse(v as int, pow2(l) as int, hi as int, lo as int);
                assert forall|x: EliasFano| #[trigger] stored_at(data@, at as int, x) implies vals@.push(
                    v,
                ) == x@.subrange(0, i + 1) by {
                    assert(vals@.push(v) =~= x@.subrange(0, i + 1));
                }
                assert forall|t: int| 0 <= t < i + 1 implies is_select(
                    high@,
                    t,
                    high_of(#[trigger] vals@.push(v)[t], l) + t,
                ) && low@[t] == low_of(vals@.push(v)[t], l) by {
                    if t < i {
                        assert(vals@.push(v)[t] == vals@[t]);
                    }
                }
            }
            vals = Ghost(vals@.push(v));
            prev = v;
            i = i + 1;
        }
        let e = EliasFano { high, low, low_bits: lb, len, values: vals };
        proof {
            assert forall|x: EliasFano| #[trigger] stored_at(data@, at as int, x) implies e@ == x@ by {
                assert(vals@ =~= x@);
            }
            hb.lemma_to_words();
            assert(e.to_words() =~= data@.subrange(at as int, n2 as int));
        }
        Some((e, n2))
    }

    /// The Elias–Fano form of `values`, or an error where they decrease
    /// somewhere or reach `universe`.
    pub fn from_sorted(universe: u64, values: &Vec<u64>) -> (r: Result<EliasFano, EliasFanoError>)
        requires
            values@.len() + universe + 1 <= usize::MAX,
        ensures
            r is Ok <==> non_decreasing(values@) && forall|i: int|
                0 <= i < values@.len() ==> #[trigger] values@[i] < universe,
            r matches Ok(e) ==> e.wf() && e@ == values@,
            r matches Err(err) ==> err == EliasFanoError::ValueTooLarge || err
                == EliasFanoError::NotMonotone,
    {
        let mut b = EliasFanoBuilder::new(universe, values.len());
        let mut i: usize = 0;
        while i < values.len()
            invariant
                b.wf(),
                b.universe_spec() == universe,
                b.capacity() == values@.len(),
                i <= values@.len(),
                b@ == values@.subrange(0, i as int),
                non_decreasing(values@.subrange(0, i as int)),
                forall|t: int| 0 <= t < i ==> #[trigger] values@[t] < universe,
            decreases values@.len() - i,
        {
            let res = b.push(values[i]);
            match res {
                Ok(()) => {},
                Err(err) => {
                    proof {
                        if i > 0 {
                            assert(values@[i - 1] == b@.last());
                        }
                    }
                    return Err(err);
                },
            }
            i = i + 1;
            assert(b@ =~= values@.subrange(0, i as int));
        }
        assert(values@.subrange(0, i as int) =~= values@);
        Ok(b.build())
    }

    /// The number of values.
    pub fn len(&self) -> (r: usize)
        requires
            self.wf(),
        ensures
            r == self@.len(),
    {
        self.len
    }

    /// Value `i`; `i` must be below the length.
    pub fn get_unchecked(&self, i: usize) -> (r: u64)
        requires
            self.wf(),
            i < self@.len(),
        ensures
            r == self@[i as int],
    {
        let ghost l = self.low_bits as nat;
        let ghost v = self.values@[i as int];
        let ghost pos = high_of(v, l) + i;
        let lb = self.low_bits;
        proof {
            assert(is_select(self.high@, i as int, pos));
            lemma_rank_strict(self.high@, pos, self.high@.len() as int);
            lemma_pow2_pos(l);
            lemma_u64_pow2_no_overflow(l);
            lemma_fundamental_div_mod(v as int, pow2(l) as int);
        }
        let p = self.high.select_unchecked(i);
        proof {
            lemma_select_unique(self.high@, i as int, pos, p as int);
        }
        let hi = (p - i) as u64;
        let lo = self.low.get(i);
        proof {
            assert(hi as int * pow2(l) <= v) by (nonlinear_arith)
                requires
                    v == pow2(l) * hi + v as nat % pow2(l),
                    v as nat % pow2(l) >= 0,
            ;
            lemma_u64_shl_is_mul(hi, lb as u64);
        }
        (hi << (lb as u64)) + lo
    }

    /// Value `i`, or `None` past the end.
    pub fn get(&self, i: usize) -> (r: Option<u64>)
        requires
            self.wf(),
        ensures
            i < self@.len() ==> r == Some(self@[i as int]),
            i >= self@.len() ==> r is None,
    {
        if i < self.len {
            Some(self.get_unchecked(i))
        } else {
            None
        }
    }
}

/// `data[at..]` starts with the serialized form of the well-formed `x`.
pub open spec fn stored_at(data: Seq<u64>, at: int, x: EliasFano) -> bool {
    &&& x.wf()
    &&& 0 <= at
    &&& at + x.to_words().len() <= data.len()
    &&& data.subrange(at, at + x.to_words().len()) == x.to_words()
}

proof fn lemma_stored_header(data: Seq<u64>, at: int, x: EliasFano)
    requires
        stored_at(data, at, x),
    ensures
        at + 2 <= data.len(),
        data[at] == x.low_bits,
        data[at + 1] == x.len,
        x.low_bits < 64,
        BitVector::parse_ok(data, at + 2),
{
    let hw = x.high.bit_vector().to_words();
    let w = x.to_words();
    assert(w[0] == data[at] && w[1] == data[at + 1]);
    assert(data.subrange(at + 2, at + 2 + hw.len()) =~= hw) by {
        assert forall|k: int| 0 <= k < hw.len() implies data[at + 2 + k] == #[trigger] hw[k] by {
            assert(w[2 + k] == hw[k]);
        }
    }
    lemma_parse_ok_at(&x.high.bit_vector(), data, at + 2);
}

proof fn lemma_stored_high(data: Seq<u64>, at: int, x: EliasFano, hb: BitVector, n1: int)
    requires
        stored_at(data, at, x),
        hb.wf(),
        n1 == at + 2 + BitVector::serialized_words(hb@.len()),
        n1 <= data.len(),
        hb.to_words() == data.subrange(at + 2, n1),
    ensures
        hb@ == x.high@,
        n1 == at + 2 + x.high.bit_vector().to_words().len(),
        CompactArray::parse_ok(data, n1),
        data.subrange(n1, n1 + x.low.to_words().len()) == x.low.to_words(),
{
    let xb = x.high.bit_vector();
    let hw = xb.to_words();
    let lw = x.low.to_words();
    let w = x.to_words();
    lemma_bit_vector_round_trip(&xb, &xb);
    xb.lemma_to_words();
    hb.lemma_to_words();
    assert(w[2] == hw[0]);
    assert(data[at + 2] == hb.to_words()[0]);
    assert(hb.to_words() =~= hw) by {
        assert forall|k: int| 0 <= k < hw.len() implies hb.to_words()[k] == #[trigger] hw[k] by {
            assert(w[2 + k] == hw[k]);
        }
    }
    lemma_bit_vector_round_trip(&xb, &hb);
    assert(data.subrange(n1, n1 + lw.len()) =~= lw) by {
        assert forall|k: int| 0 <= k < lw.len() implies data[n1 + k] == #[trigger] lw[k] by {
            assert(w[2 + hw.len() + k] == lw[k]);
        }
    }
    lemma_compact_array_parse_ok_at(&x.low, data, n1);
}

proof fn lemma_stored_low(
    data: Seq<u64>,
    at: int,
    x: EliasFano,
    n1: int,
    low: CompactArray,
    n2: int,
)
    requires
        stored_at(data, at, x),
        n1 == at + 2 + x.high.bit_vector().to_words().len(),
        data.subrange(n1, n1 + x.low.to_words().len()) == x.low.to_words(),
        low.wf(),
        n1 < n2 <= data.len(),
        low.to_words() == data.subrange(n1, n2),
    ensures
        low@ == x.low@,
        low.width() == x.low_bits,
        n2 == at + x.to_words().len(),
{
    let lw = x.low.to_words();
    x.low.lemma_to_words();
    low.lemma_to_words();
    x.low.bit_vector().lemma_to_words();
    low.bit_vector().lemma_to_words();
    lemma_bit_vector_round_trip(&x.low.bit_vector(), &x.low.bit_vector());
    lemma_bit_vector_round_trip(&low.bit_vector(), &low.bit_vector());
    assert(low.to_words()[2] == lw[2]);
    assert(low.to_words().len() == lw.len());
    assert(low.to_words() =~= lw);
    lemma_compact_array_round_trip(&x.low, &low);
}

proof fn lemma_stored_value(x: EliasFano, i: int)
    requires
        x.wf(),
        0 <= i < x@.len(),
    ensures
        is_select(x.high@, i, high_of(x@[i], x.low_bits as nat) + i),
        x.low@[i] == low_of(x@[i], x.low_bits as nat),
{
}

} // verus!
