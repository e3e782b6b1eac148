use vstd::prelude::*;

use crate::formula_builder::{clause_holds, formula_holds, literal_holds, TaggedVariableFormulaBuilder};
use crate::gate::{and_clauses, or_clauses, xor_clauses};
use crate::literal::Literal;

verus! {

/// The clauses of a half adder: `sum ↔ a ⊕ b` and `carry ↔ a ∧ b`.
pub open spec fn half_adder_clauses(a: int, b: int, sum: int, carry: int) -> Seq<Seq<int>> {
    xor_clauses(sum, a, b) + and_clauses(carry, seq![a, b])
}

/// The clauses of a full adder built from two half adders over the fresh variables `h1s`,
/// `h1c` and `h2c`, with `carry ↔ h1c ∨ h2c`.
pub open spec fn full_adder_clauses(
    a: int,
    b: int,
    c: int,
    sum: int,
    carry: int,
    h1s: int,
    h1c: int,
    h2c: int,
) -> Seq<Seq<int>> {
    half_adder_clauses(a, b, h1s, h1c) + half_adder_clauses(c, h1s, sum, h2c) + or_clauses(
        carry,
        seq![h1c, h2c],
    )
}

/// 1 when literal `l` holds under `model`, else 0.
pub open spec fn bit(model: spec_fn(int) -> bool, l: int) -> int {
    if literal_holds(model, l) {
        1
    } else {
        0
    }
}

/// Every model of a half adder's clauses adds: `sum + 2·carry = a + b`.
pub proof fn lemma_half_adder_adds(model: spec_fn(int) -> bool, a: int, b: int, sum: int, carry: int)
    requires
        a != 0,
        b != 0,
        sum != 0,
        carry != 0,
        formula_holds(model, half_adder_clauses(a, b, sum, carry)),
    ensures
        bit(model, sum) + 2 * bit(model, carry) == bit(model, a) + bit(model, b),
{
    let cs = half_adder_clauses(a, b, sum, carry);
    assert(cs[0] == seq![a, b, -sum]);
    assert(cs[1] == seq![a, -b, sum]);
    assert(cs[2] == seq![-a, b, sum]);
    assert(cs[3] == seq![-a, -b, -sum]);
    assert(cs[4] == seq![-carry, a]);
    assert(cs[5] == seq![-carry, b]);
    assert(cs[6] =~= seq![-a, -b, carry]);
    assert(clause_holds(model, cs[0]));
    assert(clause_holds(model, cs[1]));
    assert(clause_holds(model, cs[2]));
    assert(clause_holds(model, cs[3]));
    assert(clause_holds(model, cs[4]));
    assert(clause_holds(model, cs[5]));
    assert(clause_holds(model, cs[6]));
    crate::formula_builder::lemma_clause_of_three(model, a, b, -sum);
    crate::formula_builder::lemma_clause_of_three(model, a, -b, sum);
    crate::formula_builder::lemma_clause_of_three(model, -a, b, sum);
    crate::formula_builder::lemma_clause_of_three(model, -a, -b, -sum);
    crate::formula_builder::lemma_clause_of_two(model, -carry, a);
    crate::formula_builder::lemma_clause_of_two(model, -carry, b);
    crate::formula_builder::lemma_clause_of_three(model, -a, -b, carry);
}

/// Every model of a full adder's clauses adds: `sum + 2·carry = a + b + c`.
pub proof fn lemma_full_adder_adds(
    model: spec_fn(int) -> bool,
    a: int,
    b: int,
    c: int,
    sum: int,
    carry: int,
    h1s: int,
    h1c: int,
    h2c: int,
)
    requires
        a != 0,
        b != 0,
        c != 0,
        sum != 0,
        carry != 0,
        h1s > 0,
        h1c > 0,
        h2c > 0,
        formula_holds(model, full_adder_clauses(a, b, c, sum, carry, h1s, h1c, h2c)),
    ensures
        bit(model, sum) + 2 * bit(model, carry) == bit(model, a) + bit(model, b) + bit(model, c),
{
    let h1 = half_adder_clauses(a, b, h1s, h1c);
    let h2 = half_adder_clauses(c, h1s, sum, h2c);
    let o = or_clauses(carry, seq![h1c, h2c]);
    let all = full_adder_clauses(a, b, c, sum, carry, h1s, h1c, h2c);
    assert(all == h1 + h2 + o);
    assert forall|j: int| 0 <= j < h1.len() implies #[trigger] clause_holds(model, h1[j]) by {
        assert(all[j] == h1[j]);
    }
    assert forall|j: int| 0 <= j < h2.len() implies #[trigger] clause_holds(model, h2[j]) by {
        assert(all[h1.len() + j] == h2[j]);
    }
    lemma_half_adder_adds(model, a, b, h1s, h1c);
    lemma_half_adder_adds(model, c, h1s, sum, h2c);
    assert(o[0] == seq![-h1c, carry]);
    assert(o[1] == seq![-h2c, carry]);
    assert(o[2] =~= seq![-carry, h1c, h2c]);
    assert(all[(h1.len() + h2.len()) as int] == o[0]);
    assert(all[(h1.len() + h2.len() + 1) as int] == o[1]);
    assert(all[(h1.len() + h2.len() + 2) as int] == o[2]);
    assert(clause_holds(model, o[0]));
    assert(clause_holds(model, o[1]));
    assert(clause_holds(model, o[2]));
    crate::formula_builder::lemma_clause_of_two(model, -h1c, carry);
    crate::formula_builder::lemma_clause_of_two(model, -h2c, carry);
    crate::formula_builder::lemma_clause_of_three(model, -carry, h1c, h2c);
}

impl TaggedVariableFormulaBuilder {
    /// Constrains `sum` and `carry` to the half sum and carry of `a` and `b`.
    pub fn add_half_adder_constraint(&mut self, a: Literal, b: Literal, sum: Literal, carry: Literal)
        requires
            old(self).wf(),
            old(self).has_room(0, 7),
            old(self).allocated(a@),
            old(self).allocated(b@),
            old(self).allocated(sum@),
            old(self).allocated(carry@),
        ensures
            final(self).wf(),
            final(self).extends(&*old(self)),
            final(self).num_vars() == old(self).num_vars(),
            final(self).tags() == old(self).tags(),
            final(self).clauses() == old(self).clauses() + half_adder_clauses(a@, b@, sum@, carry@),
    {
        self.add_logical_xor_constraint(sum, a, b);
        let ins = [a, b];
        assert(crate::formula_builder::literal_values(ins@) =~= seq![a@, b@]);
        self.add_logical_and_constraint(carry, &ins);
        assert(self.clauses() =~= old(self).clauses() + half_adder_clauses(a@, b@, sum@, carry@));
    }

    /// Constrains `sum` and `carry` to the sum and carry of `a`, `b` and `c`, through three
    /// fresh variables.
    pub fn add_full_adder_constraint(
        &mut self,
        a: Literal,
        b: Literal,
        c: Literal,
        sum: Literal,
        carry: Literal,
    )
        requires
            old(self).wf(),
            old(self).has_room(3, 17),
            old(self).allocated(a@),
            old(self).allocated(b@),
            old(self).allocated(c@),
            old(self).allocated(sum@),
            old(self).allocated(carry@),
        ensures
            final(self).wf(),
            final(self).extends(&*old(self)),
            final(self).num_vars() == old(self).num_vars() + 3,
            final(self).tags() == old(self).tags(),
            final(self).clauses() == old(self).clauses() + full_adder_clauses(
                a@,
                b@,
                c@,
                sum@,
                carry@,
                old(self).num_vars() + 1,
                old(self).num_vars() + 2,
                old(self).num_vars() + 3,
            ),
    {
        // c --------------->[a  HA  s]---------------> sum
        // a -->[a  HA  s]-->[b      c]-->[b  OR  c]--> carry
        // b -->[b      c]--------------->[a       ]
        let half_adder_1_sum = self.new_variable().as_positive();
        let half_adder_1_carry = self.new_variable().as_positive();
        let half_adder_2_carry = self.new_variable().as_positive();
        self.add_half_adder_constraint(a, b, half_adder_1_sum, half_adder_1_carry);
        self.add_half_adder_constraint(c, half_adder_1_sum, sum, half_adder_2_carry);
        let ins = [half_adder_1_carry, half_adder_2_carry];
        assert(crate::formula_builder::literal_values(ins@) =~= seq![
            half_adder_1_carry@,
            half_adder_2_carry@,
        ]);
        self.add_logical_or_constraint(carry, &ins);
        assert(self.clauses() =~= old(self).clauses() + full_adder_clauses(
            a@,
            b@,
            c@,
            sum@,
            carry@,
            old(self).num_vars() + 1,
            old(self).num_vars() + 2,
            old(self).num_vars() + 3,
        ));
    }
}

} // verus!
