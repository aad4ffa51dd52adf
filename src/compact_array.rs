use vstd::prelude::*;
use vstd::arithmetic::power2::{pow2, lemma_pow2_unfold, lemma_pow2_pos, lemma2_to64, lemma2_to64_rest};
use vstd::arithmetic::div_mod::lemma_mod_breakdown;
use vstd::bits::{lemma_u64_shl_is_mul, lemma_u64_shr_is_div, lemma_u64_pow2_no_overflow};
use crate::bits::{BitVector, word_bit, lemma_bit_vector_round_trip, lemma_parse_ok_at};

verus! {

/// The number whose binary digits, least significant first, are
/// `s[start..start + k)`.
pub open spec fn from_bits(s: Seq<bool>, start: int, k: nat) -> nat
    decreases k,
{
    if k == 0 {
        0
    } else {
        from_bits(s, start, (k - 1) as nat) + (if s[start + (k - 1)] {
            pow2((k - 1) as nat)
        } else {
            0
        })
    }
}

proof fn lemma_from_bits_bound(s: Seq<bool>, start: int, k: nat)
    ensures
        from_bits(s, start, k) < pow2(k),
    decreases k,
{
    lemma_pow2_pos(k);
    if k > 0 {
        lemma_from_bits_bound(s, start, (k - 1) as nat);
        lemma_pow2_unfold(k);
    }
}

proof fn lemma_from_bits_frame(s: Seq<bool>, t: Seq<bool>, start: int, k: nat)
    requires
        forall|u: int| 0 <= u < k ==> #[trigger] s[start + u] == t[start + u],
    ensures
        from_bits(s, start, k) == from_bits(t, start, k),
    decreases k,
{
    if k > 0 {
        assert(s[start + (k - 1)] == t[start + (k - 1)]);
        lemma_from_bits_frame(s, t, start, (k - 1) as nat);
    }
}

proof fn lemma_from_bits_of(s: Seq<bool>, start: int, k: nat, x: u64)
    requires
        k <= 64,
        forall|u: int| 0 <= u < k ==> #[trigger] s[start + u] == word_bit(x, u as u64),
    ensures
        from_bits(s, start, k) == x as nat % pow2(k),
    decreases k,
{
    if k == 0 {
        lemma2_to64();
        assert(x as nat % 1 == 0);
        assert(from_bits(s, start, k) == 0);
    } else {
        let j = (k - 1) as nat;
        lemma_from_bits_of(s, start, j, x);
        assert(from_bits(s, start, k) == from_bits(s, start, j) + (if s[start + j] {
            pow2(j)
        } else {
            0
        }));
        assert(s[start + j] == word_bit(x, j as u64));
        lemma_pow2_unfold(k);
        lemma_pow2_pos(j);
        lemma_mod_breakdown(x as int, pow2(j) as int, 2);
        lemma_u64_shr_is_div(x, j as u64);
        let y = x >> (j as u64);
        assert((y & 1u64 == 1u64) <==> y % 2 == 1) by (bit_vector);
        assert(pow2(j) * 2 == pow2(k));
        let q = (x as nat / pow2(j)) % 2;
        assert(x as nat % pow2(k) == pow2(j) * q + x as nat % pow2(j));
        assert(y as nat == x as nat / pow2(j));
        if word_bit(x, j as u64) {
            assert(q == 1);
            assert(from_bits(s, start, k) == x as nat % pow2(j) + pow2(j));
            assert(pow2(j) * q == pow2(j)) by (nonlinear_arith)
                requires
                    q == 1,
            ;
        } else {
            assert(q == 0);
            assert(pow2(j) * q == 0) by (nonlinear_arith)
                requires
                    q == 0,
            ;
        }
    }
}

proof fn lemma_from_bits_zero(s: Seq<bool>, start: int, k: nat)
    requires
        forall|u: int| 0 <= u < k ==> !#[trigger] s[start + u],
    ensures
        from_bits(s, start, k) == 0,
    decreases k,
{
    if k > 0 {
        assert(!s[start + (k - 1)]);
        lemma_from_bits_zero(s, start, (k - 1) as nat);
    }
}

proof fn lemma_slots_apart(i: int, j: int, w: int, u: int, n: int)
    requires
        0 <= i < n,
        0 <= j < n,
        i != j,
        0 <= u < w,
    ensures
        !(i * w <= j * w + u < i * w + w),
        j * w + u < n * w,
        0 <= j * w,
{
    assert(!(i * w <= j * w + u < i * w + w) && j * w + u < n * w && 0 <= j * w) by (nonlinear_arith)
        requires
            0 <= i < n,
            0 <= j < n,
            i != j,
            0 <= u < w,
    ;
}

proof fn lemma_slot_in_range(i: int, w: int, u: int, n: int)
    requires
        0 <= i < n,
        0 <= u <= w,
    ensures
        0 <= i * w,
        i * w + u <= n * w,
        u < w ==> i * w + u < n * w,
{
    assert(0 <= i * w && i * w + u <= n * w && (u < w ==> i * w + u < n * w)) by (nonlinear_arith)
        requires
            0 <= i < n,
            0 <= u <= w,
    ;
}

/// A value does not fit in the array's bit width.
#[derive(Debug, Clone, Copy, PartialEq, Eq)]
pub struct ValueTooWide;

/// A fixed-length array of unsigned integers of `bit_width` bits each, packed
/// one after another in a [`BitVector`].
pub struct CompactArray {
    bits: BitVector,
    bit_width: usize,
    len: usize,
}

impl View for CompactArray {
    type V = Seq<u64>;

    open spec fn view(&self) -> Seq<u64> {
        Seq::new(
            self.len_spec() as nat,
            |i: int| from_bits(self.bit_vector()@, i * self.width(), self.width() as nat) as u64,
        )
    }
}

impl CompactArray {
    pub closed spec fn bit_vector(&self) -> BitVector {
        self.bits
    }

    pub closed spec fn width(&self) -> int {
        self.bit_width as int
    }

    pub closed spec fn len_spec(&self) -> usize {
        self.len
    }

    pub open spec fn wf(&self) -> bool {
        &&& self.bit_vector().wf()
        &&& 0 <= self.width() <= 64
        &&& self.bit_vector()@.len() == self.len_spec() * self.width()
    }

    /// `x` has at most `width` significant bits.
    pub open spec fn fits(x: u64, width: int) -> bool {
        (x as nat) < pow2(width as nat)
    }

    /// What the serialized form says of the array.
    pub proof fn lemma_to_words(&self)
        ensures
            self.to_words().len() == 2 + self.bit_vector().to_words().len(),
            self.to_words()[0] == self.width(),
            self.to_words()[1] == self.len_spec(),
            self.to_words().subrange(2, self.to_words().len() as int) == self.bit_vector().to_words(),
    {
        assert(self.to_words().subrange(2, self.to_words().len() as int) =~= self.bits.to_words());
    }

    /// An array of `len` zeros of `bit_width` bits each.
    pub fn new(bit_width: usize, len: usize) -> (r: CompactArray)
        requires
            bit_width <= 64,
            len * bit_width <= usize::MAX,
        ensures
            r.wf(),
            r.width() == bit_width,
            r@ == Seq::new(len as nat, |i: int| 0u64),
    {
        let bits = BitVector::new(len * bit_width);
        let r = CompactArray { bits, bit_width, len };
        assert forall|i: int| 0 <= i < len implies #[trigger] from_bits(bits@, i * bit_width, bit_width as nat)
            == 0 by {
            assert forall|u: int| 0 <= u < bit_width implies !#[trigger] bits@[i * bit_width + u] by {
                lemma_slot_in_range(i, bit_width as int, u, len as int);
            }
            lemma_from_bits_zero(bits@, i * bit_width, bit_width as nat);
        }
        assert(r@ =~= Seq::new(len as nat, |i: int| 0u64));
        r
    }

    /// The serialized form: the bit width, the length, then the bits.
    pub closed spec fn to_words(&self) -> Seq<u64> {
        seq![self.bit_width as u64, self.len as u64].add(self.bits.to_words())
    }

    /// `data[at..]` starts with a well-formed serialized array.
    pub open spec fn parse_ok(data: Seq<u64>, at: int) -> bool {
        &&& 0 <= at
        &&& at + 2 <= data.len()
        &&& data[at] <= 64
        &&& data[at + 1] <= usize::MAX
        &&& BitVector::parse_ok(data, at + 2)
        &&& data[at + 2] == data[at] * data[at + 1]
    }

    /// Writes the serialized form at the end of `out`.
    pub fn serialize(&self, out: &mut Vec<u64>)
        requires
            self.wf(),
        ensures
            final(out)@ == old(out)@ + self.to_words(),
    {
        let ghost pre = out@;
        out.push(self.bit_width as u64);
        out.push(self.len as u64);
        self.bits.serialize(out);
        assert(out@ =~= pre + self.to_words());
    }

    /// Reads a serialized array starting at `data[at]`, returning it with
    /// the position just past it; `None` where the data there is not one.
    pub fn deserialize(data: &[u64], at: usize) -> (r: Option<(CompactArray, usize)>)
        ensures
            r is Some <==> Self::parse_ok(data@, at as int),
            r matches Some((c, next)) ==> {
                &&& c.wf()
                &&& at < next <= data@.len()
                &&& c.to_words() == data@.subrange(at as int, next as int)
            },
    {
        if at >= data.len() || data.len() - at < 2 {
            return None;
        }
        let w = data[at];
        let n = data[at + 1];
        if w > 64 || n > usize::MAX as u64 {
            return None;
        }
        match BitVector::deserialize(data, at + 2) {
            None => None,
            Some((bits, next)) => {
                proof {
                    bits.lemma_to_words();
                    assert(bits.to_words()[0] == data@.subrange(at + 2, next as int)[0]);
                    assert(data@[at + 2] == bits.to_words()[0]);
                    assert((w as int) * (n as int) <= 64 * 0xffff_ffff_ffff_ffffint) by (nonlinear_arith)
                        requires
                            w <= 64,
                            n <= 0xffff_ffff_ffff_ffffint,
                    ;
                }
                if (bits.len() as u128) != (w as u128) * (n as u128) {
                    return None;
                }
                let c = CompactArray { bits, bit_width: w as usize, len: n as usize };
                proof {
                    assert(c.to_words() =~= data@.subrange(at as int, next as int));
                }
                Some((c, next))
            },
        }
    }

    /// The number of values.
    pub fn len(&self) -> (r: usize)
        ensures
            r == self@.len(),
    {
        self.len
    }

    /// The number of bits of each value.
    pub fn bit_width(&self) -> (r: usize)
        ensures
            r == self.width(),
    {
        self.bit_width
    }

    /// Value `i`.
    pub fn get(&self, i: usize) -> (r: u64)
        requires
            self.wf(),
            i < self@.len(),
        ensures
            r == self@[i as int],
            Self::fits(r, self.width()),
    {
        let w = self.bit_width;
        let ghost s = self.bits@;
        proof {
            lemma_slot_in_range(i as int, w as int, 0, self.len as int);
            lemma_from_bits_bound(s, i * w, w as nat);
            lemma2_to64();
            lemma2_to64_rest();
        }
        let start = i * w;
        let mut r: u64 = 0;
        let mut t: usize = 0;
        while t < w
            invariant
                self.wf(),
                s == self.bits@,
                w == self.bit_width,
                i < self.len,
                start == i * w,
                t <= w,
                r == from_bits(s, start as int, t as nat),
                pow2(64) == 0x1_0000_0000_0000_0000,
            decreases w - t,
        {
            proof {
                lemma_slot_in_range(i as int, w as int, t as int, self.len as int);
                lemma_from_bits_bound(s, start as int, t as nat);
                lemma_pow2_unfold((t + 1) as nat);
                if t + 1 < 64 {
                    lemma_u64_pow2_no_overflow((t + 1) as nat);
                }
                lemma_u64_pow2_no_overflow(t as nat);
                lemma_u64_shl_is_mul(1u64, t as u64);
            }
            if self.bits.get(start + t) {
                r = r + (1u64 << (t as u64));
            }
            t = t + 1;
        }
        r
    }

    /// Writes `x` into slot `i`, or fails where `x` has more than
    /// `bit_width` significant bits, leaving the array as it was.
    pub fn set(&mut self, i: usize, x: u64) -> (r: Result<(), ValueTooWide>)
        requires
            old(self).wf(),
            i < old(self)@.len(),
        ensures
            final(self).wf(),
            final(self).width() == old(self).width(),
            r is Ok <==> Self::fits(x, old(self).width()),
            r is Ok ==> final(self)@ == old(self)@.update(i as int, x),
            r is Err ==> *final(self) == *old(self),
    {
        let w = self.bit_width;
        proof {
            lemma2_to64();
            lemma2_to64_rest();
        }
        if w < 64 {
            proof {
                lemma_u64_shr_is_div(x, w as u64);
                lemma_pow2_pos(w as nat);
            }
            proof {
                let d = pow2(w as nat) as int;
                assert((x as int / d == 0) <==> (x as int) < d) by (nonlinear_arith)
                    requires
                        d > 0,
                ;
            }
            if x >> (w as u64) != 0 {
                return Err(ValueTooWide);
            }
        }
        let ghost pre = *self;
        let ghost s0 = self.bits@;
        proof {
            lemma_slot_in_range(i as int, w as int, 0, self.len as int);
        }
        let start = i * w;
        let mut t: usize = 0;
        while t < w
            invariant
                self.bits.wf(),
                self.bit_width == w,
                self.len == pre.len,
                w <= 64,
                i < self.len,
                start == i * w,
                t <= w,
                self.bits@.len() == s0.len(),
                s0.len() == self.len * w,
                forall|q: int|
                    0 <= q < s0.len() && !(start <= q < start + t) ==> #[trigger] self.bits@[q]
                        == s0[q],
                forall|u: int| 0 <= u < t ==> #[trigger] self.bits@[start + u] == word_bit(x, u as u64),
            decreases w - t,
        {
            proof {
                lemma_slot_in_range(i as int, w as int, t as int, self.len as int);
            }
            self.bits.set(start + t, (x >> (t as u64)) & 1u64 == 1u64);
            t = t + 1;
        }
        let ghost s1 = self.bits@;
        proof {
            lemma_from_bits_of(s1, start as int, w as nat, x);
            vstd::arithmetic::div_mod::lemma_small_mod(x as nat, pow2(w as nat));
            assert forall|j: int| 0 <= j < self.len && j != i implies #[trigger] from_bits(s1, j * w, w as nat)
                == from_bits(s0, j * w, w as nat) by {
                assert forall|u: int| 0 <= u < w implies #[trigger] s1[j * w + u] == s0[j * w + u] by {
                    lemma_slots_apart(i as int, j, w as int, u, self.len as int);
                }
                lemma_from_bits_frame(s1, s0, j * w, w as nat);
            }
        }
        assert(self@ =~= pre@.update(i as int, x));
        Ok(())
    }
}

/// Reading back what `serialize` wrote gives the same array: the serialized
/// form of a well-formed array is accepted, and any array with the same
/// serialized form holds the same values.
pub proof fn lemma_compact_array_round_trip(x: &CompactArray, y: &CompactArray)
    requires
        x.wf(),
        y.to_words() == x.to_words(),
    ensures
        CompactArray::parse_ok(x.to_words(), 0),
        y@ == x@,
{
    x.lemma_to_words();
    y.lemma_to_words();
    let xb = x.bit_vector();
    let yb = y.bit_vector();
    assert(yb.to_words() =~= y.to_words().subrange(2, y.to_words().len() as int));
    assert(xb.to_words() =~= x.to_words().subrange(2, x.to_words().len() as int));
    lemma_bit_vector_round_trip(&xb, &yb);
    xb.lemma_to_words();
    lemma_parse_ok_at(&xb, x.to_words(), 2);
    assert(x.to_words()[2] == xb.to_words()[0]);
    assert(y@ =~= x@);
}

/// A well-formed array's serialized form is accepted wherever it stands.
pub proof fn lemma_compact_array_parse_ok_at(x: &CompactArray, data: Seq<u64>, at: int)
    requires
        x.wf(),
        0 <= at,
        at + x.to_words().len() <= data.len(),
        data.subrange(at, at + x.to_words().len()) == x.to_words(),
    ensures
        CompactArray::parse_ok(data, at),
{
    let w = x.to_words();
    x.lemma_to_words();
    let xb = x.bit_vector();
    xb.lemma_to_words();
    assert(data[at] == w[0] && data[at + 1] == w[1]);
    assert(data.subrange(at + 2, at + 2 + xb.to_words().len()) =~= xb.to_words());
    lemma_parse_ok_at(&xb, data, at + 2);
    assert(data[at + 2] == xb.to_words()[0]);
}

} // verus!
