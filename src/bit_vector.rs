use std::collections::VecDeque;

use vstd::arithmetic::power2::{
    lemma2_to64, lemma_pow2_strictly_increases, lemma_pow2_unfold, pow2,
};
use vstd::prelude::*;

use crate::arithmetic::bit;
use crate::formula_builder::{formula_holds, lemma_models_of_extension, lemma_models_of_suffix, TaggedVariableFormulaBuilder};
use crate::literal::Literal;

verus! {

/// Whether `w` bits are exactly what the values `0..n` need: `n <= 2^w`, and `w` is the least
/// such width. This is `n.next_power_of_two().trailing_zeros()`.
pub open spec fn is_width(n: int, w: int) -> bool {
    &&& 0 <= w
    &&& n <= pow2(w as nat)
    &&& (w == 0 || pow2((w - 1) as nat) < n)
}

proof fn lemma_pow2_le(e1: nat, e2: nat)
    requires
        e1 <= e2,
    ensures
        pow2(e1) <= pow2(e2),
{
    if e1 < e2 {
        lemma_pow2_strictly_increases(e1, e2);
    }
}

/// A larger bound never needs fewer bits.
proof fn lemma_width_monotone(n1: int, w1: int, n2: int, w2: int)
    requires
        n1 <= n2,
        is_width(n1, w1),
        is_width(n2, w2),
    ensures
        w1 <= w2,
{
    if w1 > w2 {
        lemma_pow2_le(w2 as nat, (w1 - 1) as nat);
    }
}

/// The width of a sum's bound lies between the wider input's width and one bit more; it adds no
/// bit when one input can only be zero.
proof fn lemma_width_of_sum(a_end: int, wa: int, b_end: int, wb: int, c_end: int, wc: int)
    requires
        a_end >= 1,
        b_end >= 1,
        c_end == a_end + b_end - 1,
        is_width(a_end, wa),
        is_width(b_end, wb),
        is_width(c_end, wc),
    ensures
        wa <= wc,
        wb <= wc,
        wc <= (if wa > wb { wa } else { wb }) + 1,
        (wa == 0 || wb == 0) ==> wc == (if wa > wb { wa } else { wb }),
{
    lemma_width_monotone(a_end, wa, c_end, wc);
    lemma_width_monotone(b_end, wb, c_end, wc);
    let m = if wa > wb { wa } else { wb };
    lemma_pow2_le(wa as nat, m as nat);
    lemma_pow2_le(wb as nat, m as nat);
    lemma_pow2_unfold((m + 1) as nat);
    if wc > m + 1 {
        lemma_pow2_le((m + 1) as nat, (wc - 1) as nat);
    }
    if wa == 0 {
        assert(a_end == 1) by {
            lemma2_to64();
        }
        lemma_width_monotone(c_end, wc, b_end, wb);
    }
    if wb == 0 {
        assert(b_end == 1) by {
            lemma2_to64();
        }
        lemma_width_monotone(c_end, wc, a_end, wa);
    }
}

/// The width that suits a bound is unique.
pub proof fn lemma_width_unique(n: int, w1: int, w2: int)
    requires
        is_width(n, w1),
        is_width(n, w2),
    ensures
        w1 == w2,
{
    lemma_width_monotone(n, w1, n, w2);
    lemma_width_monotone(n, w2, n, w1);
}

/// Seven bits are what the values `0..82` need.
pub proof fn lemma_width_82()
    ensures
        is_width(82, 7),
{
    lemma2_to64();
}

fn bit_width(n: u32) -> (w: usize)
    ensures
        is_width(n as int, w as int),
        w <= 32,
{
    proof {
        lemma2_to64();
    }
    let mut w: usize = 0;
    let mut p: u64 = 1;
    while p < n as u64
        invariant
            w <= 32,
            p == pow2(w as nat),
            p >= 1,
            w == 0 || pow2((w - 1) as nat) < n,
        decreases 32 - w,
    {
        proof {
            lemma2_to64();
            if w >= 32 {
                lemma_pow2_le(32, w as nat);
            }
            lemma_pow2_unfold((w + 1) as nat);
        }
        p = p * 2;
        w = w + 1;
    }
    w
}

/// An unsigned number in binary, little-endian, that takes its values in `range`.
#[derive(Clone, Debug)]
pub struct BitVector {
    start: u32,
    end: u32,
    bits: Vec<Literal>,
}

impl BitVector {
    /// The least value the vector can take.
    pub closed spec fn lo(&self) -> int {
        self.start as int
    }

    /// One past the greatest value the vector can take.
    pub closed spec fn hi(&self) -> int {
        self.end as int
    }

    /// The bits, least significant first.
    pub closed spec fn bit_literals(&self) -> Seq<int> {
        self.bits@.map_values(|l: Literal| l@)
    }

    pub open spec fn wf(&self) -> bool {
        &&& self.lo() < self.hi()
        &&& is_width(self.hi(), self.bit_literals().len() as int)
    }

    /// Whether every bit is a literal over a variable of `f`.
    pub open spec fn allocated_in(&self, f: &TaggedVariableFormulaBuilder) -> bool {
        forall|k: int| 0 <= k < self.bit_literals().len() ==> f.allocated(#[trigger] self.bit_literals()[k])
    }

    pub fn range(&self) -> (r: core::ops::Range<u32>)
        ensures
            r.start == self.lo(),
            r.end == self.hi(),
    {
        core::ops::Range { start: self.start, end: self.end }
    }

    pub fn bits(&self) -> (r: &[Literal])
        ensures
            r@.map_values(|l: Literal| l@) == self.bit_literals(),
    {
        self.bits.as_slice()
    }

    pub fn len(&self) -> (r: usize)
        ensures
            r == self.bit_literals().len(),
    {
        self.bits.len()
    }

    /// The one-bit vector holding `literal`, with range `0..2`.
    pub fn from_literal(literal: Literal) -> (r: Self)
        ensures
            r.wf(),
            r.lo() == 0,
            r.hi() == 2,
            r.bit_literals() == seq![literal@],
    {
        let r = BitVector { start: 0, end: 2, bits: vec![literal] };
        proof {
            lemma2_to64();
            assert(r.bit_literals() =~= seq![literal@]);
        }
        r
    }
}

/// The number that the little-endian bits `s` stand for under `model`.
pub open spec fn bits_value(model: spec_fn(int) -> bool, s: Seq<int>) -> int
    decreases s.len(),
{
    if s.len() == 0 {
        0
    } else {
        bits_value(model, s.drop_last()) + bit(model, s.last()) * pow2((s.len() - 1) as nat)
    }
}

/// Whether, in every model of `f`, the value of `bv` lies below its bound.
pub open spec fn bounded_in(bv: &BitVector, f: &TaggedVariableFormulaBuilder) -> bool {
    forall|m: spec_fn(int) -> bool|
        #[trigger] formula_holds(m, f.clauses()) ==> bits_value(m, bv.bit_literals()) < bv.hi()
}

/// The value of a carry under `model`: 0 when there is none.
pub open spec fn carry_value(model: spec_fn(int) -> bool, c: Option<Literal>) -> int {
    match c {
        Some(x) => bit(model, x@),
        None => 0,
    }
}

proof fn lemma_bits_value_nonneg(model: spec_fn(int) -> bool, s: Seq<int>)
    ensures
        bits_value(model, s) >= 0,
    decreases s.len(),
{
    if s.len() > 0 {
        lemma_bits_value_nonneg(model, s.drop_last());
        vstd::arithmetic::power2::lemma_pow2_pos((s.len() - 1) as nat);
        assert(bit(model, s.last()) * pow2((s.len() - 1) as nat) >= 0) by (nonlinear_arith)
            requires
                bit(model, s.last()) >= 0,
                pow2((s.len() - 1) as nat) > 0,
        ;
    }
}

proof fn lemma_bits_value_push(model: spec_fn(int) -> bool, s: Seq<int>, x: int)
    ensures
        bits_value(model, s.push(x)) == bits_value(model, s) + bit(model, x) * pow2(s.len()),
{
    assert(s.push(x).drop_last() =~= s);
}

proof fn lemma_take_step(s: Seq<int>, k: int)
    requires
        0 <= k < s.len(),
    ensures
        s.take(k + 1) =~= s.take(k).push(s[k]),
{
}

/// One position of a ripple-carry addition keeps the running equation
/// `value(c) + carry·2^k = value(a below k) + value(b below k)`.
proof fn lemma_position_adds(
    m: spec_fn(int) -> bool,
    c0: Seq<int>,
    s: int,
    cy: int,
    carry0: Option<Literal>,
    a: Seq<int>,
    b: Seq<int>,
    k: int,
    wa: int,
    wb: int,
)
    requires
        0 <= k,
        c0.len() == k,
        wa == a.len(),
        wb == b.len(),
        bits_value(m, c0) + carry_value(m, carry0) * pow2(k as nat) == bits_value(
            m,
            a.take(if k < wa { k } else { wa }),
        ) + bits_value(m, b.take(if k < wb { k } else { wb })),
        bit(m, s) + 2 * cy == (if k < wa { bit(m, a[k]) } else { 0 }) + (if k < wb {
            bit(m, b[k])
        } else {
            0
        }) + carry_value(m, carry0),
    ensures
        bits_value(m, c0.push(s)) + cy * pow2((k + 1) as nat) == bits_value(
            m,
            a.take(if k + 1 < wa { k + 1 } else { wa }),
        ) + bits_value(m, b.take(if k + 1 < wb { k + 1 } else { wb })),
{
    let p = pow2(k as nat);
    lemma_pow2_unfold((k + 1) as nat);
    lemma_bits_value_push(m, c0, s);
    let ta = if k < wa { bit(m, a[k]) } else { 0 };
    let tb = if k < wb { bit(m, b[k]) } else { 0 };
    if k < wa {
        lemma_take_step(a, k);
        lemma_bits_value_push(m, a.take(k), a[k]);
    } else {
        assert(a.take(wa) == a.take(if k + 1 < wa { k + 1 } else { wa }));
    }
    if k < wb {
        lemma_take_step(b, k);
        lemma_bits_value_push(m, b.take(k), b[k]);
    } else {
        assert(b.take(wb) == b.take(if k + 1 < wb { k + 1 } else { wb }));
    }
    assert(bit(m, s) * p + cy * (2 * p) == ta * p + tb * p + carry_value(m, carry0) * p) by (nonlinear_arith)
        requires
            bit(m, s) + 2 * cy == ta + tb + carry_value(m, carry0),
    ;
}

/// A one-bit vector stands for its bit.
pub proof fn lemma_one_bit_value(model: spec_fn(int) -> bool, x: int)
    ensures
        bits_value(model, seq![x]) == bit(model, x),
{
    assert(seq![x].drop_last() =~= Seq::<int>::empty());
    assert(bits_value(model, Seq::<int>::empty()) == 0);
    assert(seq![x].last() == x);
    vstd::arithmetic::power2::lemma2_to64();
    assert(pow2(0) == 1);
}

/// Bits that spell the binary digits of `g` stand for `g` modulo `2^j`, over the first `j`.
pub proof fn lemma_bits_spell(model: spec_fn(int) -> bool, s: Seq<int>, g: nat, j: int)
    requires
        0 <= j <= s.len(),
        forall|k: int| 0 <= k < s.len() ==> #[trigger] bit(model, s[k]) == (g / pow2(k as nat)) % 2,
    ensures
        bits_value(model, s.take(j)) == g % pow2(j as nat),
    decreases j,
{
    vstd::arithmetic::power2::lemma_pow2_pos(j as nat);
    if j == 0 {
        vstd::arithmetic::power2::lemma2_to64();
        assert(s.take(0).len() == 0);
    } else {
        lemma_bits_spell(model, s, g, j - 1);
        lemma_take_step(s, j - 1);
        lemma_bits_value_push(model, s.take(j - 1), s[j - 1]);
        lemma_pow2_unfold(j as nat);
        vstd::arithmetic::power2::lemma_pow2_pos((j - 1) as nat);
        vstd::arithmetic::div_mod::lemma_breakdown(g as int, pow2((j - 1) as nat) as int, 2);
        assert(pow2((j - 1) as nat) * 2 == pow2(j as nat));
        assert(bit(model, s[j - 1]) * pow2((j - 1) as nat) == pow2((j - 1) as nat) * ((g / pow2(
            (j - 1) as nat,
        )) % 2)) by (nonlinear_arith)
            requires
                bit(model, s[j - 1]) == (g / pow2((j - 1) as nat)) % 2,
        ;
    }
}

/// The sum of the least values of the vectors of `s`.
pub open spec fn sum_lo(s: Seq<BitVector>) -> int
    decreases s.len(),
{
    if s.len() == 0 {
        0
    } else {
        sum_lo(s.drop_last()) + s.last().lo()
    }
}

/// The sum of the greatest values of the vectors of `s`.
pub open spec fn sum_max(s: Seq<BitVector>) -> int
    decreases s.len(),
{
    if s.len() == 0 {
        0
    } else {
        sum_max(s.drop_last()) + s.last().hi() - 1
    }
}

proof fn lemma_sums_drop_first(s: Seq<BitVector>)
    requires
        s.len() >= 1,
    ensures
        sum_lo(s) == s[0].lo() + sum_lo(s.drop_first()),
        sum_max(s) == s[0].hi() - 1 + sum_max(s.drop_first()),
    decreases s.len(),
{
    if s.len() > 1 {
        lemma_sums_drop_first(s.drop_last());
        assert(s.drop_last().drop_first() =~= s.drop_first().drop_last());
        assert(s.drop_first().last() == s.last());
        assert(s.drop_last()[0] == s[0]);
        assert(sum_lo(s.drop_first()) == sum_lo(s.drop_first().drop_last()) + s.last().lo());
        assert(sum_max(s.drop_first()) == sum_max(s.drop_first().drop_last()) + s.last().hi() - 1);
    } else {
        assert(s.drop_first().len() == 0);
        assert(s.drop_last().len() == 0);
        assert(s.last() == s[0]);
        assert(sum_lo(s.drop_first()) == 0);
        assert(sum_lo(s.drop_last()) == 0);
        assert(sum_max(s.drop_first()) == 0);
        assert(sum_max(s.drop_last()) == 0);
    }
}

proof fn lemma_sum_max_nonneg(s: Seq<BitVector>)
    requires
        forall|i: int| 0 <= i < s.len() ==> (#[trigger] s[i]).wf() && s[i].lo() >= 0,
    ensures
        sum_max(s) >= 0,
    decreases s.len(),
{
    if s.len() > 0 {
        lemma_sum_max_nonneg(s.drop_last());
    }
}

/// The sum of the values of the vectors of `s` under `model`.
pub open spec fn sum_values(model: spec_fn(int) -> bool, s: Seq<BitVector>) -> int
    decreases s.len(),
{
    if s.len() == 0 {
        0
    } else {
        sum_values(model, s.drop_last()) + bits_value(model, s.last().bit_literals())
    }
}

proof fn lemma_sum_values_drop_first(model: spec_fn(int) -> bool, s: Seq<BitVector>)
    requires
        s.len() >= 1,
    ensures
        sum_values(model, s) == bits_value(model, s[0].bit_literals()) + sum_values(model, s.drop_first()),
    decreases s.len(),
{
    if s.len() > 1 {
        lemma_sum_values_drop_first(model, s.drop_last());
        assert(s.drop_last().drop_first() =~= s.drop_first().drop_last());
        assert(s.drop_first().last() == s.last());
        assert(s.drop_last()[0] == s[0]);
        assert(sum_values(model, s.drop_first()) == sum_values(model, s.drop_first().drop_last())
            + bits_value(model, s.last().bit_literals()));
    } else {
        assert(s.drop_first().len() == 0);
        assert(s.drop_last().len() == 0);
        assert(s.last() == s[0]);
        assert(sum_values(model, s.drop_first()) == 0);
        assert(sum_values(model, s.drop_last()) == 0);
    }
}

pub proof fn lemma_bounded_grows(bv: &BitVector, f1: &TaggedVariableFormulaBuilder, f2: &TaggedVariableFormulaBuilder)
    requires
        bounded_in(bv, f1),
        f2.extends(f1),
    ensures
        bounded_in(bv, f2),
{
    assert forall|m: spec_fn(int) -> bool| #[trigger] formula_holds(m, f2.clauses()) implies bits_value(m, bv.bit_literals()) < bv.hi() by {
        lemma_models_of_extension(f1, f2, m);
    }
}

pub proof fn lemma_bits_grow(bv: &BitVector, f1: &TaggedVariableFormulaBuilder, f2: &TaggedVariableFormulaBuilder)
    requires
        bv.allocated_in(f1),
        f1.num_vars() <= f2.num_vars(),
    ensures
        bv.allocated_in(f2),
{
    assert forall|k: int| 0 <= k < bv.bit_literals().len() implies f2.allocated(#[trigger] bv.bit_literals()[k]) by {
        assert(f1.allocated(bv.bit_literals()[k]));
    }
}

impl BitVector {
    /// The ripple-carry sum of `a` and `b`: half adders where two bits meet, full adders where
    /// three do, until the bits cover the sum's range.
    pub fn add(formula: &mut TaggedVariableFormulaBuilder, a: &Self, b: &Self) -> (c: Self)
        requires
            old(formula).wf(),
            a.wf(),
            b.wf(),
            a.allocated_in(&*old(formula)),
            b.allocated_in(&*old(formula)),
            a.hi() + b.hi() - 1 <= u32::MAX,
            old(formula).has_room(165int, 561int),
        ensures
            final(formula).wf(),
            final(formula).extends(&*old(formula)),
            final(formula).tags() == old(formula).tags(),
            final(formula).num_vars() <= old(formula).num_vars() + 5 * 33,
            final(formula).clauses().len() <= old(formula).clauses().len() + 17 * 33,
            c.wf(),
            c.allocated_in(&*final(formula)),
            c.lo() == a.lo() + b.lo(),
            c.hi() == a.hi() + b.hi() - 1,
            bounded_in(a, &*old(formula)) && bounded_in(b, &*old(formula)) ==> bounded_in(
                &c,
                &*final(formula),
            ) && forall|m: spec_fn(int) -> bool|
                #[trigger] formula_holds(m, final(formula).clauses()) ==> bits_value(
                    m,
                    c.bit_literals(),
                ) == bits_value(m, a.bit_literals()) + bits_value(m, b.bit_literals()),
    {
        // The range of the sum.
        let c_start = a.start + b.start;
        let c_end = (a.end - 1) + (b.end - 1) + 1;

        // The width of the sum: with an exclusive upper bound of 256 that is 8 bits, for the
        // values up to 255; 257 needs one bit more.
        let c_len = bit_width(c_end);
        let wa = a.bits.len();
        let wb = b.bits.len();
        let ghost m: int = if wa > wb { wa as int } else { wb as int };
        proof {
            lemma_width_of_sum(a.end as int, wa as int, b.end as int, wb as int, c_end as int, c_len as int);
        }

        let mut c_bits: Vec<Literal> = Vec::new();
        let mut prev_carry: Option<Literal> = None;
        while c_bits.len() < c_len
            invariant
                formula.wf(),
                formula.extends(&*old(formula)),
                formula.tags() == old(formula).tags(),
                wa == a.bits@.len(),
                wb == b.bits@.len(),
                a.bit_literals().len() == wa,
                b.bit_literals().len() == wb,
                a.allocated_in(&*formula),
                b.allocated_in(&*formula),
                c_len <= 32,
                wa as int <= c_len as int,
                wb as int <= c_len as int,
                c_len as int <= m + 1,
                (wa == 0 || wb == 0) ==> c_len == m,
                m == if wa > wb { wa as int } else { wb as int },
                c_bits@.len() <= c_len,
                formula.num_vars() <= old(formula).num_vars() + 5 * c_bits@.len(),
                formula.clauses().len() <= old(formula).clauses().len() + 17 * c_bits@.len(),
                old(formula).has_room(165int, 561int),
                forall|k: int| 0 <= k < c_bits@.len() ==> formula.allocated(#[trigger] c_bits@[k]@),
                prev_carry.is_some() <==> (wa > 0 && wb > 0 && 1 <= c_bits@.len() <= m),
                prev_carry matches Some(x) ==> formula.allocated(x@),
                forall|m: spec_fn(int) -> bool|
                    #[trigger] formula_holds(m, formula.clauses()) ==> bits_value(
                        m,
                        c_bits@.map_values(|l: Literal| l@),
                    ) + carry_value(m, prev_carry) * pow2(c_bits@.len()) == bits_value(
                        m,
                        a.bit_literals().take(if c_bits@.len() < wa { c_bits@.len() as int } else { wa as int }),
                    ) + bits_value(
                        m,
                        b.bit_literals().take(if c_bits@.len() < wb { c_bits@.len() as int } else { wb as int }),
                    ),
            decreases c_len - c_bits@.len(),
        {
            let k = c_bits.len();
            let ghost f0 = *formula;
            let ghost c0 = c_bits@.map_values(|l: Literal| l@);
            let ghost carry0 = prev_carry;
            let ghost p = pow2(k as nat);
            // The bits to add at this position: from `a`, from `b`, and the carry.
            let mut bits: Vec<Literal> = Vec::new();
            if k < wa {
                bits.push(a.bits[k]);
                assert(formula.allocated(a.bit_literals()[k as int]));
            }
            if k < wb {
                bits.push(b.bits[k]);
                assert(formula.allocated(b.bit_literals()[k as int]));
            }
            if let Some(x) = prev_carry {
                bits.push(x);
            }
            let ghost xs = bits@.map_values(|l: Literal| l@);
            // What the bits at this position add up to.
            let ghost contribution = |m: spec_fn(int) -> bool|
                (if k < wa { bit(m, a.bit_literals()[k as int]) } else { 0 }) + (if k < wb {
                    bit(m, b.bit_literals()[k as int])
                } else {
                    0
                }) + carry_value(m, carry0);
            assert(forall|j: int| 0 <= j < bits@.len() ==> formula.allocated(#[trigger] bits@[j]@));
            let ghost f1 = *formula;
            if bits.len() == 1 {
                // One bit needs no addition.
                c_bits.push(bits[0]);
                prev_carry = None;
                proof {
                    assert forall|m: spec_fn(int) -> bool| #[trigger] formula_holds(m, formula.clauses()) implies
                        bits_value(m, c_bits@.map_values(|l: Literal| l@)) + carry_value(m, prev_carry) * pow2(c_bits@.len())
                        == bits_value(m, a.bit_literals().take(if c_bits@.len() < wa { c_bits@.len() as int } else { wa as int }))
                        + bits_value(m, b.bit_literals().take(if c_bits@.len() < wb { c_bits@.len() as int } else { wb as int })) by {
                        assert(contribution(m) == bit(m, xs[0]));
                        self::lemma_position_adds(m, c0, xs[0], 0, carry0, a.bit_literals(), b.bit_literals(), k as int, wa as int, wb as int);
                        assert(c_bits@.map_values(|l: Literal| l@) =~= c0.push(xs[0]));
                    }
                }
            } else if bits.len() == 2 {
                // Two bits need a half adder.
                let sum = formula.new_variable().as_positive();
                let carry = formula.new_variable().as_positive();
                let ghost f2 = *formula;
                formula.add_half_adder_constraint(bits[0], bits[1], sum, carry);
                c_bits.push(sum);
                prev_carry = Some(carry);
                proof {
                    assert forall|m: spec_fn(int) -> bool| #[trigger] formula_holds(m, formula.clauses()) implies
                        bits_value(m, c_bits@.map_values(|l: Literal| l@)) + carry_value(m, prev_carry) * pow2(c_bits@.len())
                        == bits_value(m, a.bit_literals().take(if c_bits@.len() < wa { c_bits@.len() as int } else { wa as int }))
                        + bits_value(m, b.bit_literals().take(if c_bits@.len() < wb { c_bits@.len() as int } else { wb as int })) by {
                        lemma_models_of_suffix(f2.clauses(), crate::arithmetic::half_adder_clauses(xs[0], xs[1], sum@, carry@), m);
                        crate::arithmetic::lemma_half_adder_adds(m, xs[0], xs[1], sum@, carry@);
                        assert(contribution(m) == bit(m, xs[0]) + bit(m, xs[1]));
                        lemma_models_of_extension(&f0, &*formula, m);
                        self::lemma_position_adds(m, c0, sum@, bit(m, carry@), carry0, a.bit_literals(), b.bit_literals(), k as int, wa as int, wb as int);
                        assert(c_bits@.map_values(|l: Literal| l@) =~= c0.push(sum@));
                    }
                }
            } else {
                // Three bits need a full adder.
                let sum = formula.new_variable().as_positive();
                let carry = formula.new_variable().as_positive();
                let ghost f2 = *formula;
                formula.add_full_adder_constraint(bits[0], bits[1], bits[2], sum, carry);
                c_bits.push(sum);
                prev_carry = Some(carry);
                proof {
                    assert forall|m: spec_fn(int) -> bool| #[trigger] formula_holds(m, formula.clauses()) implies
                        bits_value(m, c_bits@.map_values(|l: Literal| l@)) + carry_value(m, prev_carry) * pow2(c_bits@.len())
                        == bits_value(m, a.bit_literals().take(if c_bits@.len() < wa { c_bits@.len() as int } else { wa as int }))
                        + bits_value(m, b.bit_literals().take(if c_bits@.len() < wb { c_bits@.len() as int } else { wb as int })) by {
                        let n = f2.num_vars();
                        lemma_models_of_suffix(f2.clauses(), crate::arithmetic::full_adder_clauses(xs[0], xs[1], xs[2], sum@, carry@, n + 1, n + 2, n + 3), m);
                        crate::arithmetic::lemma_full_adder_adds(m, xs[0], xs[1], xs[2], sum@, carry@, n + 1, n + 2, n + 3);
                        assert(contribution(m) == bit(m, xs[0]) + bit(m, xs[1]) + bit(m, xs[2]));
                        lemma_models_of_extension(&f0, &*formula, m);
                        self::lemma_position_adds(m, c0, sum@, bit(m, carry@), carry0, a.bit_literals(), b.bit_literals(), k as int, wa as int, wb as int);
                        assert(c_bits@.map_values(|l: Literal| l@) =~= c0.push(sum@));
                    }
                }
            }
        }
        let ghost c_lits = c_bits@.map_values(|l: Literal| l@);
        let ghost last_carry = prev_carry;
        let c = BitVector { start: c_start, end: c_end, bits: c_bits };
        proof {
            assert(c.bit_literals() =~= c_lits);
            if bounded_in(a, &*old(formula)) && bounded_in(b, &*old(formula)) {
                assert forall|m: spec_fn(int) -> bool| #[trigger] formula_holds(m, formula.clauses()) implies
                    bits_value(m, c.bit_literals()) < c.hi() && bits_value(m, c.bit_literals())
                        == bits_value(m, a.bit_literals()) + bits_value(m, b.bit_literals()) by {
                    lemma_models_of_extension(&*old(formula), &*formula, m);
                    assert(formula_holds(m, old(formula).clauses()));
                    assert(a.bit_literals().take(wa as int) =~= a.bit_literals());
                    assert(b.bit_literals().take(wb as int) =~= b.bit_literals());
                    lemma_bits_value_nonneg(m, c_lits);
                    let va = bits_value(m, a.bit_literals());
                    let vb = bits_value(m, b.bit_literals());
                    assert(va < a.hi());
                    assert(vb < b.hi());
                    assert(c_end as int <= pow2(c_len as nat));
                    if carry_value(m, last_carry) != 0 {
                        assert(carry_value(m, last_carry) == 1);
                        assert(bits_value(m, c_lits) + pow2(c_len as nat) == va + vb);
                    }
                }
            }
        }
        proof {
            assert(c.bit_literals().len() == c_len);
            assert forall|k: int| 0 <= k < c.bit_literals().len() implies formula.allocated(#[trigger] c.bit_literals()[k]) by {
                assert(formula.allocated(c_bits@[k]@));
            }
        }
        c
    }

    /// The sum of all `bit_vectors`, added pairwise from the front of a queue, each sum joining
    /// the back, until one remains.
    pub fn add_tree(formula: &mut TaggedVariableFormulaBuilder, bit_vectors: Vec<Self>) -> (r: Self)
        requires
            old(formula).wf(),
            bit_vectors@.len() >= 1,
            forall|i: int| 0 <= i < bit_vectors@.len() ==> (#[trigger] bit_vectors@[i]).wf()
                && bit_vectors@[i].allocated_in(&*old(formula)),
            sum_max(bit_vectors@) < u32::MAX,
            old(formula).has_room(165 * bit_vectors@.len() as int, 561 * bit_vectors@.len() as int),
        ensures
            final(formula).wf(),
            final(formula).extends(&*old(formula)),
            final(formula).tags() == old(formula).tags(),
            r.wf(),
            r.allocated_in(&*final(formula)),
            r.lo() == sum_lo(bit_vectors@),
            r.hi() == sum_max(bit_vectors@) + 1,
            final(formula).num_vars() <= old(formula).num_vars() + 165 * bit_vectors@.len(),
            final(formula).clauses().len() <= old(formula).clauses().len() + 561
                * bit_vectors@.len(),
            (forall|i: int| 0 <= i < bit_vectors@.len() ==> bounded_in(#[trigger] &bit_vectors@[i], &*old(formula)))
                ==> bounded_in(&r, &*final(formula)) && forall|m: spec_fn(int) -> bool|
                #[trigger] formula_holds(m, final(formula).clauses()) ==> bits_value(m, r.bit_literals())
                    == sum_values(m, bit_vectors@),
    {
        let ghost n = bit_vectors@.len();
        let ghost all = bit_vectors@;
        let mut rest = bit_vectors;
        let mut queue: VecDeque<BitVector> = VecDeque::new();
        while rest.len() > 0
            invariant
                all.len() == n,
                rest@.len() <= n,
                rest@ =~= all.subrange(0, rest@.len() as int),
                queue@ =~= all.subrange(rest@.len() as int, n as int),
            decreases rest@.len(),
        {
            let x = rest.pop().unwrap();
            queue.push_front(x);
        }
        assert(queue@ =~= all);
        let ghost hyp = forall|i: int| 0 <= i < all.len() ==> bounded_in(#[trigger] &all[i], &*old(formula));
        while queue.len() > 1
            invariant
                formula.wf(),
                formula.extends(&*old(formula)),
                formula.tags() == old(formula).tags(),
                1 <= queue@.len() <= n,
                forall|i: int| 0 <= i < queue@.len() ==> (#[trigger] queue@[i]).wf()
                    && queue@[i].allocated_in(&*formula) && queue@[i].lo() >= 0,
                sum_lo(queue@) == sum_lo(all),
                sum_max(queue@) == sum_max(all),
                sum_max(all) < u32::MAX,
                formula.num_vars() <= old(formula).num_vars() + 165 * (n - queue@.len()),
                formula.clauses().len() <= old(formula).clauses().len() + 561 * (n - queue@.len()),
                old(formula).has_room(165 * n as int, 561 * n as int),
                hyp == forall|i: int| 0 <= i < all.len() ==> bounded_in(#[trigger] &all[i], &*old(formula)),
                hyp ==> forall|i: int| 0 <= i < queue@.len() ==> bounded_in(#[trigger] &queue@[i], &*formula),
                hyp ==> forall|m: spec_fn(int) -> bool| #[trigger] formula_holds(m, formula.clauses())
                    ==> sum_values(m, queue@) == sum_values(m, all),
            decreases queue@.len(),
        {
            let ghost q = queue@;
            proof {
                lemma_sums_drop_first(q);
                lemma_sums_drop_first(q.drop_first());
                lemma_sum_max_nonneg(q.drop_first().drop_first());
                assert(q[0].wf() && q[1].wf());
            }
            let a = queue.pop_front().unwrap();
            let b = queue.pop_front().unwrap();
            assert(a == q[0] && b == q[1]);
            assert(queue@ =~= q.drop_first().drop_first());
            let ghost before = *formula;
            let c = BitVector::add(formula, &a, &b);
            queue.push_back(c);
            proof {
                let q2 = queue@;
                assert(q2.drop_last() =~= q.drop_first().drop_first());
                assert(q2.last() == c);
                if hyp {
                    assert(bounded_in(&q[0], &before) && bounded_in(&q[1], &before));
                    assert forall|i: int| 0 <= i < q2.len() implies bounded_in(#[trigger] &q2[i], &*formula) by {
                        if i < q2.len() - 1 {
                            assert(q2[i] == q[i + 2]);
                            lemma_bounded_grows(&q[i + 2], &before, &*formula);
                        }
                    }
                    assert forall|m: spec_fn(int) -> bool| #[trigger] formula_holds(m, formula.clauses())
                        implies sum_values(m, q2) == sum_values(m, all) by {
                        lemma_models_of_extension(&before, &*formula, m);
                        assert(formula_holds(m, before.clauses()));
                        lemma_sum_values_drop_first(m, q);
                        lemma_sum_values_drop_first(m, q.drop_first());
                    }
                }
                assert forall|i: int| 0 <= i < q2.len() implies (#[trigger] q2[i]).wf()
                    && q2[i].allocated_in(&*formula) && q2[i].lo() >= 0 by {
                    if i < q2.len() - 1 {
                        assert(q2[i] == q[i + 2]);
                        lemma_bits_grow(&q2[i], &before, &*formula);
                    }
                }
            }
        }
        proof {
            lemma_sums_drop_first(queue@);
            assert(queue@.drop_first().len() == 0);
        }
        let ghost last = queue@[0];
        proof {
            if hyp {
                assert forall|m: spec_fn(int) -> bool| #[trigger] formula_holds(m, formula.clauses())
                    implies bits_value(m, last.bit_literals()) == sum_values(m, all) by {
                    lemma_sum_values_drop_first(m, queue@);
                    assert(sum_values(m, queue@.drop_first()) == 0);
                }
                assert(bounded_in(&queue@[0], &*formula));
            }
        }
        let r = queue.pop_front().unwrap();
        assert(r == last);
        r
    }
}

} // verus!
