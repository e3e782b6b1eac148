use vstd::prelude::*;

use crate::formula_builder::{literal_values, TaggedVariableFormulaBuilder};
use crate::literal::Literal;

verus! {

/// The exclusions `¬a ∨ ¬b` of `a` with each literal of `rest`, in order.
pub open spec fn exclusions(a: int, rest: Seq<int>) -> Seq<Seq<int>> {
    rest.map_values(|b: int| seq![-a, -b])
}

/// The pairwise exclusions of the first `i` literals of `s` with every later literal:
/// `¬s[p] ∨ ¬s[q]` for each `p < i` and `p < q`, ordered by `p`, then by `q`.
pub open spec fn at_most_one_prefix(s: Seq<int>, i: int) -> Seq<Seq<int>>
    decreases i,
{
    if i <= 0 {
        Seq::empty()
    } else {
        at_most_one_prefix(s, i - 1) + exclusions(s[i - 1], s.subrange(i, s.len() as int))
    }
}

/// The clauses of "at most one of `s` holds": one exclusion per unordered pair.
pub open spec fn at_most_one_clauses(s: Seq<int>) -> Seq<Seq<int>> {
    at_most_one_prefix(s, s.len() - 1)
}

/// Every unordered pair `p < q` of positions of `s` has its exclusion among the clauses.
pub proof fn lemma_at_most_one_has_pair(s: Seq<int>, p: int, q: int)
    requires
        0 <= p < q < s.len(),
    ensures
        exists|j: int|
            0 <= j < at_most_one_clauses(s).len() && #[trigger] at_most_one_clauses(s)[j] == seq![
                -s[p],
                -s[q],
            ],
{
    lemma_prefix_has_pair(s, s.len() - 1, p, q);
    let pre = at_most_one_prefix(s, s.len() - 1);
    assert(at_most_one_clauses(s) == pre);
    let j = choose|j: int| 0 <= j < pre.len() && #[trigger] pre[j] == seq![-s[p], -s[q]];
    assert(at_most_one_clauses(s)[j] == seq![-s[p], -s[q]]);
}

proof fn lemma_prefix_has_pair(s: Seq<int>, i: int, p: int, q: int)
    requires
        0 <= p < q < s.len(),
        p < i <= s.len(),
    ensures
        exists|j: int|
            0 <= j < at_most_one_prefix(s, i).len() && #[trigger] at_most_one_prefix(s, i)[j] == seq![
                -s[p],
                -s[q],
            ],
    decreases i,
{
    let prev = at_most_one_prefix(s, i - 1);
    let ex = exclusions(s[i - 1], s.subrange(i, s.len() as int));
    assert(at_most_one_prefix(s, i) == prev + ex);
    if p == i - 1 {
        let j = prev.len() + (q - i);
        assert(ex[q - i] == seq![-s[p], -s[q]]);
        assert(at_most_one_prefix(s, i)[j] == seq![-s[p], -s[q]]);
    } else {
        lemma_prefix_has_pair(s, i - 1, p, q);
        let j = choose|j: int| 0 <= j < prev.len() && #[trigger] prev[j] == seq![-s[p], -s[q]];
        assert(at_most_one_prefix(s, i)[j] == seq![-s[p], -s[q]]);
    }
}

impl TaggedVariableFormulaBuilder {
    /// Constrains at most one of `literals` to hold, by pairwise exclusion.
    pub fn add_at_most_one_of_constraint(&mut self, literals: &[Literal])
        requires
            old(self).wf(),
            literals@.len() >= 1,
            old(self).has_room(0, (literals@.len() * literals@.len()) as int),
            forall|k: int|
                0 <= k < literals@.len() ==> old(self).allocated(#[trigger] literals@[k]@),
        ensures
            final(self).wf(),
            final(self).extends(&*old(self)),
            final(self).num_vars() == old(self).num_vars(),
            final(self).tags() == old(self).tags(),
            final(self).clauses() == old(self).clauses() + at_most_one_clauses(
                literal_values(literals@),
            ),
            final(self).clauses().len() <= old(self).clauses().len() + literals@.len()
                * literals@.len(),
    {
        let ghost s = literal_values(literals@);
        let n = literals.len();
        let mut i: usize = 0;
        while i < n - 1
            invariant
                0 <= i <= n - 1,
                n == literals@.len(),
                s == literal_values(literals@),
                self.wf(),
                self.extends(&*old(self)),
                self.num_vars() == old(self).num_vars(),
                self.tags() == old(self).tags(),
                self.clauses() == old(self).clauses() + at_most_one_prefix(s, i as int),
                self.clauses().len() <= old(self).clauses().len() + i * n,
                old(self).has_room(0, (n * n) as int),
                forall|k: int| 0 <= k < n ==> self.allocated(#[trigger] literals@[k]@),
            decreases n - 1 - i,
        {
            let a = literals[i];
            let mut j: usize = i + 1;
            while j < n
                invariant
                    0 <= i < n - 1,
                    i + 1 <= j <= n,
                    n == literals@.len(),
                    s == literal_values(literals@),
                    a@ == s[i as int],
                    self.wf(),
                    self.extends(&*old(self)),
                    self.num_vars() == old(self).num_vars(),
                    self.tags() == old(self).tags(),
                    self.clauses() == old(self).clauses() + at_most_one_prefix(s, i as int)
                        + exclusions(s[i as int], s.subrange(i + 1, j as int)),
                    self.clauses().len() <= old(self).clauses().len() + i * n + j,
                    old(self).has_room(0, (n * n) as int),
                    forall|k: int| 0 <= k < n ==> self.allocated(#[trigger] literals@[k]@),
                decreases n - j,
            {
                proof {
                    assert(i * n + j < n * n) by (nonlinear_arith)
                        requires
                            i < n - 1,
                            j < n,
                    ;
                }
                let b = literals[j];
                self.add_binary_clause(a.negated(), b.negated());
                proof {
                    assert(s.subrange(i + 1, j + 1) =~= s.subrange(i + 1, j as int).push(b@));
                    assert(self.clauses() =~= old(self).clauses() + at_most_one_prefix(s, i as int)
                        + exclusions(s[i as int], s.subrange(i + 1, j + 1)));
                }
                j = j + 1;
            }
            proof {
                assert(self.clauses() =~= old(self).clauses() + at_most_one_prefix(s, i + 1));
                assert((i + 1) * n == i * n + n) by (nonlinear_arith);
            }
            i = i + 1;
        }
        proof {
            assert(i * n <= n * n) by (nonlinear_arith)
                requires
                    i <= n,
            ;
        }
    }
}

} // verus!
