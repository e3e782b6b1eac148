use vstd::prelude::*;

use crate::formula_builder::{
    clause_holds, formula_holds, literal_holds, literal_values, TaggedVariableFormulaBuilder,
};
use crate::literal::Literal;

verus! {

/// The clauses of `a ↔ b`.
pub open spec fn equivalence_clauses(a: int, b: int) -> Seq<Seq<int>> {
    seq![seq![-a, b], seq![a, -b]]
}

/// The clauses of `out ↔ (i₁ ∨ … ∨ iₙ)`: `¬iₖ ∨ out` for each input, then `¬out ∨ i₁ ∨ … ∨ iₙ`.
pub open spec fn or_clauses(out: int, ins: Seq<int>) -> Seq<Seq<int>> {
    ins.map_values(|i: int| seq![-i, out]).push(seq![-out] + ins)
}

/// The clauses of `out ↔ (i₁ ∧ … ∧ iₙ)`: `¬out ∨ iₖ` for each input, then
/// `¬i₁ ∨ … ∨ ¬iₙ ∨ out`.
pub open spec fn and_clauses(out: int, ins: Seq<int>) -> Seq<Seq<int>> {
    ins.map_values(|i: int| seq![-out, i]).push(ins.map_values(|i: int| -i).push(out))
}

/// The clauses of `out ↔ (a ⊕ b)`.
pub open spec fn xor_clauses(out: int, a: int, b: int) -> Seq<Seq<int>> {
    seq![seq![a, b, -out], seq![a, -b, out], seq![-a, b, out], seq![-a, -b, -out]]
}

/// Whether some literal of `s` holds under `model`.
pub open spec fn any_literal(model: spec_fn(int) -> bool, s: Seq<int>) -> bool
    decreases s.len(),
{
    if s.len() == 0 {
        false
    } else {
        any_literal(model, s.drop_last()) || literal_holds(model, s.last())
    }
}

/// Whether every literal of `s` holds under `model`.
pub open spec fn all_literals(model: spec_fn(int) -> bool, s: Seq<int>) -> bool
    decreases s.len(),
{
    if s.len() == 0 {
        true
    } else {
        all_literals(model, s.drop_last()) && literal_holds(model, s.last())
    }
}

pub proof fn lemma_any_literal_push(model: spec_fn(int) -> bool, s: Seq<int>, x: int)
    ensures
        any_literal(model, s.push(x)) == (any_literal(model, s) || literal_holds(model, x)),
{
    assert(s.push(x).drop_last() =~= s);
}

pub proof fn lemma_any_literal(model: spec_fn(int) -> bool, s: Seq<int>)
    ensures
        any_literal(model, s) == exists|k: int| 0 <= k < s.len() && #[trigger] literal_holds(model, s[k]),
    decreases s.len(),
{
    if s.len() > 0 {
        lemma_any_literal(model, s.drop_last());
        if any_literal(model, s.drop_last()) {
            let k = choose|k: int| 0 <= k < s.drop_last().len() && #[trigger] literal_holds(model, s.drop_last()[k]);
            assert(literal_holds(model, s[k]));
        }
        if literal_holds(model, s.last()) {
            assert(literal_holds(model, s[s.len() - 1]));
        }
        if exists|k: int| 0 <= k < s.len() && #[trigger] literal_holds(model, s[k]) {
            let k = choose|k: int| 0 <= k < s.len() && #[trigger] literal_holds(model, s[k]);
            if k < s.len() - 1 {
                assert(literal_holds(model, s.drop_last()[k]));
            }
        }
    }
}

pub proof fn lemma_all_literals(model: spec_fn(int) -> bool, s: Seq<int>)
    ensures
        all_literals(model, s) == forall|k: int| 0 <= k < s.len() ==> #[trigger] literal_holds(model, s[k]),
    decreases s.len(),
{
    if s.len() > 0 {
        lemma_all_literals(model, s.drop_last());
        if all_literals(model, s) {
            assert forall|k: int| 0 <= k < s.len() implies #[trigger] literal_holds(model, s[k]) by {
                if k < s.len() - 1 {
                    assert(literal_holds(model, s.drop_last()[k]));
                }
            }
        }
        if forall|k: int| 0 <= k < s.len() ==> #[trigger] literal_holds(model, s[k]) {
            assert forall|k: int| 0 <= k < s.drop_last().len() implies #[trigger] literal_holds(model, s.drop_last()[k]) by {
                assert(literal_holds(model, s[k]));
            }
            assert(literal_holds(model, s[s.len() - 1]));
        }
    }
}

/// In a model of an OR gate's clauses the output holds exactly when some input does.
pub proof fn lemma_or_gate(model: spec_fn(int) -> bool, out: int, ins: Seq<int>)
    requires
        out != 0,
        forall|k: int| 0 <= k < ins.len() ==> #[trigger] ins[k] != 0,
        formula_holds(model, or_clauses(out, ins)),
    ensures
        literal_holds(model, out) == any_literal(model, ins),
{
    let cs = or_clauses(out, ins);
    lemma_any_literal(model, ins);
    if any_literal(model, ins) {
        let k = choose|k: int| 0 <= k < ins.len() && #[trigger] literal_holds(model, ins[k]);
        assert(cs[k] == seq![-ins[k], out]);
        assert(clause_holds(model, cs[k]));
        let j = choose|j: int| 0 <= j < cs[k].len() && #[trigger] literal_holds(model, cs[k][j]);
        if j == 0 {
            assert(!literal_holds(model, -ins[k]));
        }
    }
    if literal_holds(model, out) {
        let w = seq![-out] + ins;
        assert(cs[ins.len() as int] == w);
        assert(clause_holds(model, w));
        let j = choose|j: int| 0 <= j < w.len() && #[trigger] literal_holds(model, w[j]);
        if j > 0 {
            assert(literal_holds(model, ins[j - 1]));
        }
    }
}

/// In a model of an AND gate's clauses the output holds exactly when every input does.
pub proof fn lemma_and_gate(model: spec_fn(int) -> bool, out: int, ins: Seq<int>)
    requires
        out != 0,
        forall|k: int| 0 <= k < ins.len() ==> #[trigger] ins[k] != 0,
        formula_holds(model, and_clauses(out, ins)),
    ensures
        literal_holds(model, out) == all_literals(model, ins),
{
    let cs = and_clauses(out, ins);
    lemma_all_literals(model, ins);
    if literal_holds(model, out) {
        assert forall|k: int| 0 <= k < ins.len() implies #[trigger] literal_holds(model, ins[k]) by {
            assert(cs[k] == seq![-out, ins[k]]);
            assert(clause_holds(model, cs[k]));
            let j = choose|j: int| 0 <= j < cs[k].len() && #[trigger] literal_holds(model, cs[k][j]);
        }
    }
    if all_literals(model, ins) {
        let w = ins.map_values(|i: int| -i).push(out);
        assert(cs[ins.len() as int] == w);
        assert(clause_holds(model, w));
        let j = choose|j: int| 0 <= j < w.len() && #[trigger] literal_holds(model, w[j]);
        if j < ins.len() {
            assert(literal_holds(model, ins[j]));
            assert(w[j] == -ins[j]);
        }
    }
}

impl TaggedVariableFormulaBuilder {
    /// Constrains `a ↔ b`.
    pub fn add_logical_equivalence_constraint(&mut self, a: Literal, b: Literal)
        requires
            old(self).wf(),
            old(self).has_room(0, 2),
            old(self).allocated(a@),
            old(self).allocated(b@),
        ensures
            final(self).wf(),
            final(self).extends(&*old(self)),
            final(self).num_vars() == old(self).num_vars(),
            final(self).tags() == old(self).tags(),
            final(self).clauses() == old(self).clauses() + equivalence_clauses(a@, b@),
    {
        self.add_binary_clause(a.negated(), b);
        self.add_binary_clause(a, b.negated());
        assert(self.clauses() =~= old(self).clauses() + equivalence_clauses(a@, b@));
    }

    /// Constrains `output ↔ (i₁ ∨ … ∨ iₙ)` over `inputs`.
    pub fn add_logical_or_constraint(&mut self, output: Literal, inputs: &[Literal])
        requires
            old(self).wf(),
            old(self).has_room(0, inputs@.len() + 1int),
            old(self).allocated(output@),
            forall|k: int| 0 <= k < inputs@.len() ==> old(self).allocated(#[trigger] inputs@[k]@),
        ensures
            final(self).wf(),
            final(self).extends(&*old(self)),
            final(self).num_vars() == old(self).num_vars(),
            final(self).tags() == old(self).tags(),
            final(self).clauses() == old(self).clauses() + or_clauses(
                output@,
                literal_values(inputs@),
            ),
    {
        let ghost ins = literal_values(inputs@);
        let mut wide_clause: Vec<Literal> = Vec::new();
        wide_clause.push(output.negated());
        let mut k: usize = 0;
        while k < inputs.len()
            invariant
                0 <= k <= inputs@.len(),
                ins == literal_values(inputs@),
                self.wf(),
                self.extends(&*old(self)),
                self.num_vars() == old(self).num_vars(),
                self.tags() == old(self).tags(),
                self.clauses() == old(self).clauses() + ins.subrange(0, k as int).map_values(
                    |i: int| seq![-i, output@],
                ),
                self.has_room(0, inputs@.len() + 1int - k),
                forall|j: int| 0 <= j < inputs@.len() ==> self.allocated(#[trigger] inputs@[j]@),
                self.allocated(output@),
                literal_values(wide_clause@) == seq![-output@] + ins.subrange(0, k as int),
                forall|j: int| 0 <= j < wide_clause@.len() ==> self.allocated(#[trigger] wide_clause@[j]@),
            decreases inputs@.len() - k,
        {
            let input = inputs[k];
            self.add_binary_clause(input.negated(), output);
            let ghost prev_w = wide_clause@;
            wide_clause.push(input);
            proof {
                assert(literal_values(wide_clause@) =~= literal_values(prev_w).push(input@));
                assert(ins.subrange(0, k + 1) =~= ins.subrange(0, k as int).push(input@));
                assert(self.clauses() =~= old(self).clauses() + ins.subrange(0, k + 1).map_values(
                    |i: int| seq![-i, output@],
                ));
                assert(literal_values(wide_clause@) =~= seq![-output@] + ins.subrange(0, k + 1));
            }
            k = k + 1;
        }
        self.add_clause(wide_clause);
        assert(ins.subrange(0, k as int) =~= ins);
        assert(self.clauses() =~= old(self).clauses() + or_clauses(output@, ins));
    }

    /// Constrains `output ↔ (i₁ ∧ … ∧ iₙ)` over `inputs`.
    pub fn add_logical_and_constraint(&mut self, output: Literal, inputs: &[Literal])
        requires
            old(self).wf(),
            old(self).has_room(0, inputs@.len() + 1int),
            old(self).allocated(output@),
            forall|k: int| 0 <= k < inputs@.len() ==> old(self).allocated(#[trigger] inputs@[k]@),
        ensures
            final(self).wf(),
            final(self).extends(&*old(self)),
            final(self).num_vars() == old(self).num_vars(),
            final(self).tags() == old(self).tags(),
            final(self).clauses() == old(self).clauses() + and_clauses(
                output@,
                literal_values(inputs@),
            ),
    {
        let ghost ins = literal_values(inputs@);
        let mut wide_clause: Vec<Literal> = Vec::new();
        let mut k: usize = 0;
        while k < inputs.len()
            invariant
                0 <= k <= inputs@.len(),
                ins == literal_values(inputs@),
                self.wf(),
                self.extends(&*old(self)),
                self.num_vars() == old(self).num_vars(),
                self.tags() == old(self).tags(),
                self.clauses() == old(self).clauses() + ins.subrange(0, k as int).map_values(
                    |i: int| seq![-output@, i],
                ),
                self.has_room(0, inputs@.len() + 1int - k),
                forall|j: int| 0 <= j < inputs@.len() ==> self.allocated(#[trigger] inputs@[j]@),
                self.allocated(output@),
                literal_values(wide_clause@) == ins.subrange(0, k as int).map_values(|i: int| -i),
                forall|j: int| 0 <= j < wide_clause@.len() ==> self.allocated(#[trigger] wide_clause@[j]@),
            decreases inputs@.len() - k,
        {
            let input = inputs[k];
            self.add_binary_clause(output.negated(), input);
            let ghost prev_w = wide_clause@;
            wide_clause.push(input.negated());
            proof {
                assert(literal_values(wide_clause@) =~= literal_values(prev_w).push(-input@));
                assert(ins.subrange(0, k + 1) =~= ins.subrange(0, k as int).push(input@));
                assert(self.clauses() =~= old(self).clauses() + ins.subrange(0, k + 1).map_values(
                    |i: int| seq![-output@, i],
                ));
                assert(literal_values(wide_clause@) =~= ins.subrange(0, k + 1).map_values(|i: int| -i));
            }
            k = k + 1;
        }
        let ghost prev_w = wide_clause@;
        wide_clause.push(output);
        proof {
            assert(literal_values(wide_clause@) =~= literal_values(prev_w).push(output@));
            assert(literal_values(wide_clause@) =~= ins.subrange(0, k as int).map_values(|i: int| -i).push(output@));
        }
        self.add_clause(wide_clause);
        assert(ins.subrange(0, k as int) =~= ins);
        assert(self.clauses() =~= old(self).clauses() + and_clauses(output@, ins));
    }

    /// Constrains `output ↔ (a ⊕ b)`.
    pub fn add_logical_xor_constraint(&mut self, output: Literal, a: Literal, b: Literal)
        requires
            old(self).wf(),
            old(self).has_room(0, 4),
            old(self).allocated(output@),
            old(self).allocated(a@),
            old(self).allocated(b@),
        ensures
            final(self).wf(),
            final(self).extends(&*old(self)),
            final(self).num_vars() == old(self).num_vars(),
            final(self).tags() == old(self).tags(),
            final(self).clauses() == old(self).clauses() + xor_clauses(output@, a@, b@),
    {
        let na = a.negated();
        let nb = b.negated();
        let no = output.negated();
        self.add_clause(vec![a, b, no]);
        assert(literal_values(seq![a, b, no]) =~= seq![a@, b@, -output@]);
        self.add_clause(vec![a, nb, output]);
        assert(literal_values(seq![a, nb, output]) =~= seq![a@, -b@, output@]);
        self.add_clause(vec![na, b, output]);
        assert(literal_values(seq![na, b, output]) =~= seq![-a@, b@, output@]);
        self.add_clause(vec![na, nb, no]);
        assert(literal_values(seq![na, nb, no]) =~= seq![-a@, -b@, -output@]);
        assert(self.clauses() =~= old(self).clauses() + xor_clauses(output@, a@, b@));
    }
}

} // verus!
