use vstd::prelude::*;

use vstd::arithmetic::power2::pow2;

use crate::arithmetic::bit;
use crate::bit_vector::{bits_value, bounded_in, sum_lo, sum_max, sum_values, BitVector};
use crate::formula_builder::{
    formula_holds, lemma_models_of_extension, lemma_models_of_suffix, literal_holds,
    literal_values, TaggedVariableFormulaBuilder,
};
use crate::gate::{all_literals, and_clauses, any_literal, or_clauses};
use crate::literal::Literal;
use crate::sudoku::{
    box_base_col, box_base_row, box_of, sees, col_of, digit_of, lemma_scalars_by_number, row_of, Box, Cell, Col, Digit, Row, VariableKind,
};
use crate::variable::Variable;

verus! {

/// The most inference levels a formula can have: with more, variable indices would no longer
/// fit in an `i32`.
pub const MAX_INFERENCE_LEVELS: usize = 20000;

/// What the generated puzzle must satisfy.
pub struct Parameters {
    /// The number of givens; only its 7 low bits are used.
    pub givens: usize,
    /// How many levels of inference the solution may take, at least 1.
    pub inference_levels: usize,
    pub allowed_inferences: Inferences,
}

/// The inference rules a solution may use.
pub struct Inferences {
    pub naked_single: bool,
    pub hidden_single: bool,
}

/// The tag `Placed` of digit `d` in the cell at row `r`, column `c`.
pub open spec fn placed(r: int, c: int, d: int) -> VariableKind {
    VariableKind::Placed { row: row_of(r), col: col_of(c), digit: digit_of(d) }
}

/// The tag `Given` of the cell at row `r`, column `c`.
pub open spec fn given(r: int, c: int) -> VariableKind {
    VariableKind::Given { row: row_of(r), col: col_of(c) }
}

/// The tag `Forced` of digit `d` in the cell at row `r`, column `c`, at level `l`.
pub open spec fn forced(r: int, c: int, d: int, l: int) -> VariableKind {
    VariableKind::Forced { row: row_of(r), col: col_of(c), digit: digit_of(d), level: l as usize }
}

/// The tag `Eliminated` of digit `d` in the cell at row `r`, column `c`, at level `l`.
pub open spec fn eliminated(r: int, c: int, d: int, l: int) -> VariableKind {
    VariableKind::Eliminated {
        row: row_of(r),
        col: col_of(c),
        digit: digit_of(d),
        level: l as usize,
    }
}

/// Whether `r`, `c` and `d` are a row, a column and a digit.
pub open spec fn in_grid(r: int, c: int, d: int) -> bool {
    1 <= r <= 9 && 1 <= c <= 9 && 1 <= d <= 9
}

/// Whether clause `c` is one of the clauses of `f`.
pub open spec fn has_clause(f: &TaggedVariableFormulaBuilder, c: Seq<int>) -> bool {
    exists|j: int| 0 <= j < f.clauses().len() && #[trigger] f.clauses()[j] == c
}

/// Whether tag `t` has a variable in `f`.
pub open spec fn tagged(f: &TaggedVariableFormulaBuilder, t: VariableKind) -> bool {
    f.has_tag(t) && f.tag_var(t) >= 1
}

/// Whether `f` ties level 0 of (`r`, `c`, `d`): `Forced` is `Placed ∧ Given`, and `Eliminated`
/// is false.
pub open spec fn level_zero_tied(f: &TaggedVariableFormulaBuilder, r: int, c: int, d: int) -> bool {
    let p = f.tag_var(placed(r, c, d));
    let g = f.tag_var(given(r, c));
    let x = f.tag_var(forced(r, c, d, 0));
    let e = f.tag_var(eliminated(r, c, d, 0));
    &&& tagged(f, placed(r, c, d))
    &&& tagged(f, given(r, c))
    &&& tagged(f, forced(r, c, d, 0))
    &&& tagged(f, eliminated(r, c, d, 0))
    &&& has_clause(f, seq![-x, p])
    &&& has_clause(f, seq![-x, g])
    &&& has_clause(f, seq![-p, -g, x])
    &&& has_clause(f, seq![-e])
}

proof fn lemma_has_clause_stable(f1: &TaggedVariableFormulaBuilder, f2: &TaggedVariableFormulaBuilder, c: Seq<int>)
    requires
        f2.extends(f1),
        has_clause(f1, c),
    ensures
        has_clause(f2, c),
{
    let j = choose|j: int| 0 <= j < f1.clauses().len() && #[trigger] f1.clauses()[j] == c;
    assert(f2.clauses().subrange(0, f1.clauses().len() as int)[j] == f2.clauses()[j]);
}

proof fn lemma_tagged_stable(f1: &TaggedVariableFormulaBuilder, f2: &TaggedVariableFormulaBuilder, t: VariableKind)
    requires
        f2.extends(f1),
        tagged(f1, t),
    ensures
        tagged(f2, t),
        f2.tag_var(t) == f1.tag_var(t),
{
    assert(f1.tags().contains_key(crate::sudoku::tag_key(t)));
}

proof fn lemma_level_zero_stable(f1: &TaggedVariableFormulaBuilder, f2: &TaggedVariableFormulaBuilder, r: int, c: int, d: int)
    requires
        f2.extends(f1),
        level_zero_tied(f1, r, c, d),
    ensures
        level_zero_tied(f2, r, c, d),
{
    lemma_tagged_stable(f1, f2, placed(r, c, d));
    lemma_tagged_stable(f1, f2, given(r, c));
    lemma_tagged_stable(f1, f2, forced(r, c, d, 0));
    lemma_tagged_stable(f1, f2, eliminated(r, c, d, 0));
    let p = f1.tag_var(placed(r, c, d));
    let g = f1.tag_var(given(r, c));
    let x = f1.tag_var(forced(r, c, d, 0));
    let e = f1.tag_var(eliminated(r, c, d, 0));
    lemma_has_clause_stable(f1, f2, seq![-x, p]);
    lemma_has_clause_stable(f1, f2, seq![-x, g]);
    lemma_has_clause_stable(f1, f2, seq![-p, -g, x]);
    lemma_has_clause_stable(f1, f2, seq![-e]);
}

/// Whether `f` ties the last level `l` of (`r`, `c`, `d`) to the solution: `Forced` is
/// `Placed`, and `Eliminated` is its negation.
pub open spec fn last_level_tied(f: &TaggedVariableFormulaBuilder, r: int, c: int, d: int, l: int) -> bool {
    let p = f.tag_var(placed(r, c, d));
    let x = f.tag_var(forced(r, c, d, l));
    let e = f.tag_var(eliminated(r, c, d, l));
    &&& tagged(f, placed(r, c, d))
    &&& tagged(f, forced(r, c, d, l))
    &&& tagged(f, eliminated(r, c, d, l))
    &&& has_clause(f, seq![-x, p])
    &&& has_clause(f, seq![x, -p])
    &&& has_clause(f, seq![-e, -p])
    &&& has_clause(f, seq![e, p])
}

proof fn lemma_last_level_stable(f1: &TaggedVariableFormulaBuilder, f2: &TaggedVariableFormulaBuilder, r: int, c: int, d: int, l: int)
    requires
        f2.extends(f1),
        last_level_tied(f1, r, c, d, l),
    ensures
        last_level_tied(f2, r, c, d, l),
{
    lemma_tagged_stable(f1, f2, placed(r, c, d));
    lemma_tagged_stable(f1, f2, forced(r, c, d, l));
    lemma_tagged_stable(f1, f2, eliminated(r, c, d, l));
    let p = f1.tag_var(placed(r, c, d));
    let x = f1.tag_var(forced(r, c, d, l));
    let e = f1.tag_var(eliminated(r, c, d, l));
    lemma_has_clause_stable(f1, f2, seq![-x, p]);
    lemma_has_clause_stable(f1, f2, seq![x, -p]);
    lemma_has_clause_stable(f1, f2, seq![-e, -p]);
    lemma_has_clause_stable(f1, f2, seq![e, p]);
}

/// Whether `f` carries (`r`, `c`, `d`) from level `l - 1` to level `l`: forced stays forced,
/// and eliminated stays eliminated.
pub open spec fn level_step_tied(f: &TaggedVariableFormulaBuilder, r: int, c: int, d: int, l: int) -> bool {
    &&& tagged(f, forced(r, c, d, l - 1))
    &&& tagged(f, forced(r, c, d, l))
    &&& tagged(f, eliminated(r, c, d, l - 1))
    &&& tagged(f, eliminated(r, c, d, l))
    &&& has_clause(f, seq![-f.tag_var(forced(r, c, d, l - 1)), f.tag_var(forced(r, c, d, l))])
    &&& has_clause(
        f,
        seq![-f.tag_var(eliminated(r, c, d, l - 1)), f.tag_var(eliminated(r, c, d, l))],
    )
}

proof fn lemma_level_step_stable(f1: &TaggedVariableFormulaBuilder, f2: &TaggedVariableFormulaBuilder, r: int, c: int, d: int, l: int)
    requires
        f2.extends(f1),
        level_step_tied(f1, r, c, d, l),
    ensures
        level_step_tied(f2, r, c, d, l),
{
    lemma_tagged_stable(f1, f2, forced(r, c, d, l - 1));
    lemma_tagged_stable(f1, f2, forced(r, c, d, l));
    lemma_tagged_stable(f1, f2, eliminated(r, c, d, l - 1));
    lemma_tagged_stable(f1, f2, eliminated(r, c, d, l));
    lemma_has_clause_stable(f1, f2, seq![-f1.tag_var(forced(r, c, d, l - 1)), f1.tag_var(forced(r, c, d, l))]);
    lemma_has_clause_stable(f1, f2, seq![-f1.tag_var(eliminated(r, c, d, l - 1)), f1.tag_var(eliminated(r, c, d, l))]);
}

/// Whether `f` requires exactly one of the variables of `tags` to hold: one wide clause over
/// them all and an exclusion for every pair.
pub open spec fn exactly_one_tied(f: &TaggedVariableFormulaBuilder, tags: Seq<VariableKind>) -> bool {
    &&& forall|k: int| 0 <= k < tags.len() ==> tagged(f, #[trigger] tags[k])
    &&& has_clause(f, tags.map_values(|t: VariableKind| f.tag_var(t)))
    &&& forall|p: int, q: int|
        0 <= p < q < tags.len() ==> has_clause(
            f,
            #[trigger] seq![-f.tag_var(tags[p]), -f.tag_var(tags[q])],
        )
}

/// The nine `Placed` tags of a house: by `family` 0, the digits of the cell at row `i + 1`,
/// column `j + 1`; 1, digit `j + 1` across row `i + 1`; 2, digit `j + 1` down column `i + 1`;
/// 3, digit `j + 1` over box `i + 1`.
pub open spec fn house(family: int, i: int, j: int) -> Seq<VariableKind> {
    Seq::new(
        9,
        |k: int|
            if family == 0 {
                placed(i + 1, j + 1, k + 1)
            } else if family == 1 {
                placed(i + 1, k + 1, j + 1)
            } else if family == 2 {
                placed(k + 1, i + 1, j + 1)
            } else {
                placed(box_base_row(i + 1) + k / 3, box_base_col(i + 1) + k % 3, j + 1)
            },
    )
}

proof fn lemma_exactly_one_stable(f1: &TaggedVariableFormulaBuilder, f2: &TaggedVariableFormulaBuilder, tags: Seq<VariableKind>)
    requires
        f2.extends(f1),
        exactly_one_tied(f1, tags),
    ensures
        exactly_one_tied(f2, tags),
{
    assert forall|k: int| 0 <= k < tags.len() implies tagged(f2, #[trigger] tags[k]) && f2.tag_var(tags[k]) == f1.tag_var(tags[k]) by {
        lemma_tagged_stable(f1, f2, tags[k]);
    }
    let w1 = tags.map_values(|t: VariableKind| f1.tag_var(t));
    let w2 = tags.map_values(|t: VariableKind| f2.tag_var(t));
    assert(w1 =~= w2);
    lemma_has_clause_stable(f1, f2, w1);
    assert forall|p: int, q: int| 0 <= p < q < tags.len() implies has_clause(
        f2,
        #[trigger] seq![-f2.tag_var(tags[p]), -f2.tag_var(tags[q])],
    ) by {
        lemma_has_clause_stable(f1, f2, seq![-f1.tag_var(tags[p]), -f1.tag_var(tags[q])]);
    }
}

/// The number of literals of `s` that hold under `model`.
pub open spec fn count_true(model: spec_fn(int) -> bool, s: Seq<int>) -> int
    decreases s.len(),
{
    if s.len() == 0 {
        0
    } else {
        count_true(model, s.drop_last()) + bit(model, s.last())
    }
}

/// The 81 `Given` variables, row by row.
pub open spec fn given_variables(f: &TaggedVariableFormulaBuilder) -> Seq<int> {
    Seq::new(81, |k: int| f.tag_var(given(k / 9 + 1, k % 9 + 1)))
}

/// Whether, in every model of `f`, the number of given cells is `givens` modulo 128.
pub open spec fn givens_counted(f: &TaggedVariableFormulaBuilder, givens: usize) -> bool {
    &&& forall|k: int| 0 <= k < 81 ==> tagged(f, #[trigger] given(k / 9 + 1, k % 9 + 1))
    &&& forall|m: spec_fn(int) -> bool|
        #[trigger] formula_holds(m, f.clauses()) ==> count_true(m, given_variables(f)) == givens as int
            % 128
}

/// The unit clause that fixes bit `k` of a count whose bits are `lits` to bit `k` of `givens`.
pub open spec fn count_bit_clause(givens: usize, lits: Seq<int>, k: int) -> Seq<int> {
    seq![if (givens as nat / pow2(k as nat)) % 2 == 0 { -lits[k] } else { lits[k] }]
}

proof fn lemma_givens_counted_stable(f1: &TaggedVariableFormulaBuilder, f2: &TaggedVariableFormulaBuilder, givens: usize)
    requires
        f2.extends(f1),
        givens_counted(f1, givens),
    ensures
        givens_counted(f2, givens),
{
    assert forall|k: int| 0 <= k < 81 implies tagged(f2, #[trigger] given(k / 9 + 1, k % 9 + 1)) && f2.tag_var(given(k / 9 + 1, k % 9 + 1)) == f1.tag_var(given(k / 9 + 1, k % 9 + 1)) by {
        lemma_tagged_stable(f1, f2, given(k / 9 + 1, k % 9 + 1));
    }
    assert(given_variables(f1) =~= given_variables(f2));
    assert forall|m: spec_fn(int) -> bool| #[trigger] formula_holds(m, f2.clauses()) implies count_true(m, given_variables(f2)) == givens as int % 128 by {
        lemma_models_of_extension(f1, f2, m);
    }
}

/// The `k`-th number of `1..=9` other than `x`, counting from 0.
pub open spec fn skip(k: int, x: int) -> int {
    if k + 1 < x {
        k + 1
    } else {
        k + 2
    }
}

/// The tags that the inference step reads at level `l` for (`r`, `c`, `d`), by `house`: 0,
/// `Eliminated` for the other digits of the cell; 1, `Eliminated` for the digit in the other
/// columns of the row; 2, the same in the other rows of the column; 3, `Forced` for the other
/// digits of the cell.
pub open spec fn other_tags_of(house: int, r: int, c: int, d: int, l: int) -> Seq<VariableKind> {
    Seq::new(
        8,
        |k: int|
            if house == 0 {
                eliminated(r, c, skip(k, d), l)
            } else if house == 1 {
                eliminated(r, skip(k, c), d, l)
            } else if house == 2 {
                eliminated(skip(k, r), c, d, l)
            } else {
                forced(r, c, skip(k, d), l)
            },
    )
}

/// `Eliminated` at level `l` of digit `d` in the cells of the box of (`r`, `c`) other than
/// (`r`, `c`) itself, among the first `k` cells of the box.
pub open spec fn box_others(r: int, c: int, d: int, l: int, k: int) -> Seq<VariableKind>
    decreases k,
{
    if k <= 0 {
        Seq::empty()
    } else {
        let rr = box_base_row(box_of(r, c)) + (k - 1) / 3;
        let cc = box_base_col(box_of(r, c)) + (k - 1) % 3;
        if rr != r || cc != c {
            box_others(r, c, d, l, k - 1).push(eliminated(rr, cc, d, l))
        } else {
            box_others(r, c, d, l, k - 1)
        }
    }
}

/// `Forced` at level `l` of digit `d` in the cells that (`r`, `c`) sees, among the first `k`
/// cells of the grid, row by row.
pub open spec fn peers_of(r: int, c: int, d: int, l: int, k: int) -> Seq<VariableKind>
    decreases k,
{
    if k <= 0 {
        Seq::empty()
    } else {
        let rr = (k - 1) / 9 + 1;
        let cc = (k - 1) % 9 + 1;
        if sees(r, c, rr, cc) {
            peers_of(r, c, d, l, k - 1).push(forced(rr, cc, d, l))
        } else {
            peers_of(r, c, d, l, k - 1)
        }
    }
}

/// Whether every tag of `tags` has a variable in `f`.
pub open spec fn all_tagged(f: &TaggedVariableFormulaBuilder, tags: Seq<VariableKind>) -> bool {
    forall|k: int| 0 <= k < tags.len() ==> tagged(f, #[trigger] tags[k])
}

/// Whether the variables of all `tags` are true under `model`.
pub open spec fn all_hold(model: spec_fn(int) -> bool, f: &TaggedVariableFormulaBuilder, tags: Seq<VariableKind>) -> bool {
    forall|k: int| 0 <= k < tags.len() ==> model(#[trigger] f.tag_var(tags[k]))
}

/// Whether the variable of some tag of `tags` is true under `model`.
pub open spec fn any_holds(model: spec_fn(int) -> bool, f: &TaggedVariableFormulaBuilder, tags: Seq<VariableKind>) -> bool {
    exists|k: int| 0 <= k < tags.len() && model(#[trigger] f.tag_var(tags[k]))
}

proof fn lemma_holds_stable(
    f1: &TaggedVariableFormulaBuilder,
    f2: &TaggedVariableFormulaBuilder,
    model: spec_fn(int) -> bool,
    tags: Seq<VariableKind>,
)
    requires
        f2.extends(f1),
        all_tagged(f1, tags),
    ensures
        all_tagged(f2, tags),
        all_hold(model, f2, tags) == all_hold(model, f1, tags),
        any_holds(model, f2, tags) == any_holds(model, f1, tags),
{
    assert forall|k: int| 0 <= k < tags.len() implies tagged(f2, #[trigger] tags[k]) && f2.tag_var(tags[k]) == f1.tag_var(tags[k]) by {
        lemma_tagged_stable(f1, f2, tags[k]);
    }
    if any_holds(model, f1, tags) {
        let k = choose|k: int| 0 <= k < tags.len() && model(#[trigger] f1.tag_var(tags[k]));
        assert(model(f2.tag_var(tags[k])));
    }
    if any_holds(model, f2, tags) {
        let k = choose|k: int| 0 <= k < tags.len() && model(#[trigger] f2.tag_var(tags[k]));
        assert(model(f1.tag_var(tags[k])));
    }
    if all_hold(model, f1, tags) {
        assert forall|k: int| 0 <= k < tags.len() implies model(#[trigger] f2.tag_var(tags[k])) by {
            assert(model(f1.tag_var(tags[k])));
        }
    }
    if all_hold(model, f2, tags) {
        assert forall|k: int| 0 <= k < tags.len() implies model(#[trigger] f1.tag_var(tags[k])) by {
            assert(model(f2.tag_var(tags[k])));
        }
    }
}

/// Positive literals for `tags`: any of them holds exactly when some tag's variable does, and
/// all hold exactly when every tag's variable does.
proof fn lemma_literals_of_tags(
    model: spec_fn(int) -> bool,
    f: &TaggedVariableFormulaBuilder,
    lits: Seq<int>,
    tags: Seq<VariableKind>,
)
    requires
        lits.len() == tags.len(),
        forall|k: int| 0 <= k < lits.len() ==> #[trigger] lits[k] == f.tag_var(tags[k]) && lits[k] >= 1,
    ensures
        any_literal(model, lits) == any_holds(model, f, tags),
        all_literals(model, lits) == all_hold(model, f, tags),
{
    crate::gate::lemma_any_literal(model, lits);
    crate::gate::lemma_all_literals(model, lits);
    if any_literal(model, lits) {
        let k = choose|k: int| 0 <= k < lits.len() && #[trigger] literal_holds(model, lits[k]);
        assert(model(f.tag_var(tags[k])));
    }
    if any_holds(model, f, tags) {
        let k = choose|k: int| 0 <= k < tags.len() && model(#[trigger] f.tag_var(tags[k]));
        assert(literal_holds(model, lits[k]));
    }
    if all_hold(model, f, tags) {
        assert forall|k: int| 0 <= k < lits.len() implies #[trigger] literal_holds(model, lits[k]) by {
            assert(model(f.tag_var(tags[k])));
        }
    }
    if all_literals(model, lits) {
        assert forall|k: int| 0 <= k < tags.len() implies model(#[trigger] f.tag_var(tags[k])) by {
            assert(literal_holds(model, lits[k]));
        }
    }
}

/// Whether, under `model`, the placement (`r`, `c`, `d`) is forced at level `l` exactly when it
/// was forced at level `l - 1`, or an allowed rule forces it from level `l - 1`: naked single,
/// every other digit of the cell eliminated; hidden single, every other place for the digit in
/// the row, the column or the box eliminated.
pub open spec fn forcing_rule(
    model: spec_fn(int) -> bool,
    f: &TaggedVariableFormulaBuilder,
    allowed: &Inferences,
    r: int,
    c: int,
    d: int,
    l: int,
) -> bool {
    model(f.tag_var(forced(r, c, d, l))) == (model(f.tag_var(forced(r, c, d, l - 1))) || (
    allowed.naked_single && all_hold(model, f, other_tags_of(0, r, c, d, l - 1))) || (
    allowed.hidden_single && (all_hold(model, f, other_tags_of(1, r, c, d, l - 1)) || all_hold(
        model,
        f,
        other_tags_of(2, r, c, d, l - 1),
    ) || all_hold(model, f, box_others(r, c, d, l - 1, 9)))))
}

/// Whether, under `model`, the placement (`r`, `c`, `d`) is eliminated at level `l` exactly when
/// it was eliminated at level `l - 1`, or at level `l - 1` another digit was forced in the cell
/// or the digit was forced in a cell that this one sees.
pub open spec fn elimination_rule(
    model: spec_fn(int) -> bool,
    f: &TaggedVariableFormulaBuilder,
    r: int,
    c: int,
    d: int,
    l: int,
) -> bool {
    model(f.tag_var(eliminated(r, c, d, l))) == (model(f.tag_var(eliminated(r, c, d, l - 1)))
        || any_holds(model, f, other_tags_of(3, r, c, d, l - 1)) || any_holds(
        model,
        f,
        peers_of(r, c, d, l - 1, 81),
    ))
}

/// Whether every model of `f` takes the inference step of (`r`, `c`, `d`) from level `l - 1` to
/// level `l` by the allowed rules.
pub open spec fn step_follows_rules(
    f: &TaggedVariableFormulaBuilder,
    allowed: &Inferences,
    r: int,
    c: int,
    d: int,
    l: int,
) -> bool {
    &&& tagged(f, forced(r, c, d, l))
    &&& tagged(f, eliminated(r, c, d, l))
    &&& tagged(f, forced(r, c, d, l - 1))
    &&& tagged(f, eliminated(r, c, d, l - 1))
    &&& (allowed.naked_single ==> all_tagged(f, other_tags_of(0, r, c, d, l - 1)))
    &&& (allowed.hidden_single ==> all_tagged(f, other_tags_of(1, r, c, d, l - 1)) && all_tagged(
        f,
        other_tags_of(2, r, c, d, l - 1),
    ) && all_tagged(f, box_others(r, c, d, l - 1, 9)))
    &&& all_tagged(f, other_tags_of(3, r, c, d, l - 1))
    &&& all_tagged(f, peers_of(r, c, d, l - 1, 81))
    &&& forall|m: spec_fn(int) -> bool|
        #[trigger] formula_holds(m, f.clauses()) ==> forcing_rule(m, f, allowed, r, c, d, l)
            && elimination_rule(m, f, r, c, d, l)
}

proof fn lemma_step_follows_rules_stable(
    f1: &TaggedVariableFormulaBuilder,
    f2: &TaggedVariableFormulaBuilder,
    allowed: &Inferences,
    r: int,
    c: int,
    d: int,
    l: int,
)
    requires
        f2.extends(f1),
        step_follows_rules(f1, allowed, r, c, d, l),
    ensures
        step_follows_rules(f2, allowed, r, c, d, l),
{
    lemma_tagged_stable(f1, f2, forced(r, c, d, l));
    lemma_tagged_stable(f1, f2, eliminated(r, c, d, l));
    lemma_tagged_stable(f1, f2, forced(r, c, d, l - 1));
    lemma_tagged_stable(f1, f2, eliminated(r, c, d, l - 1));
    assert forall|m: spec_fn(int) -> bool| #[trigger] formula_holds(m, f2.clauses()) implies forcing_rule(m, f2, allowed, r, c, d, l)
        && elimination_rule(m, f2, r, c, d, l) by {
        lemma_models_of_extension(f1, f2, m);
        assert(forcing_rule(m, f1, allowed, r, c, d, l) && elimination_rule(m, f1, r, c, d, l));
        if allowed.naked_single {
            lemma_holds_stable(f1, f2, m, other_tags_of(0, r, c, d, l - 1));
        }
        if allowed.hidden_single {
            lemma_holds_stable(f1, f2, m, other_tags_of(1, r, c, d, l - 1));
            lemma_holds_stable(f1, f2, m, other_tags_of(2, r, c, d, l - 1));
            lemma_holds_stable(f1, f2, m, box_others(r, c, d, l - 1, 9));
        }
        lemma_holds_stable(f1, f2, m, other_tags_of(3, r, c, d, l - 1));
        lemma_holds_stable(f1, f2, m, peers_of(r, c, d, l - 1, 81));
    }
    if allowed.naked_single {
        lemma_holds_stable(f1, f2, |x: int| true, other_tags_of(0, r, c, d, l - 1));
    }
    if allowed.hidden_single {
        lemma_holds_stable(f1, f2, |x: int| true, other_tags_of(1, r, c, d, l - 1));
        lemma_holds_stable(f1, f2, |x: int| true, other_tags_of(2, r, c, d, l - 1));
        lemma_holds_stable(f1, f2, |x: int| true, box_others(r, c, d, l - 1, 9));
    }
    lemma_holds_stable(f1, f2, |x: int| true, other_tags_of(3, r, c, d, l - 1));
    lemma_holds_stable(f1, f2, |x: int| true, peers_of(r, c, d, l - 1, 81));
}

/// One positive literal per tag of `tags`, in order, allocating variables as needed.
fn literals_of(f: &mut TaggedVariableFormulaBuilder, tags: &Vec<VariableKind>) -> (r: Vec<Literal>)
    requires
        old(f).wf(),
        old(f).has_room(tags@.len() as int, 0),
    ensures
        final(f).wf(),
        final(f).extends(&*old(f)),
        final(f).clauses() == old(f).clauses(),
        final(f).num_vars() <= old(f).num_vars() + tags@.len(),
        r@.len() == tags@.len(),
        forall|i: int| 0 <= i < r@.len() ==> final(f).allocated(#[trigger] r@[i]@),
        forall|i: int| 0 <= i < r@.len() ==> final(f).has_tag(#[trigger] tags@[i]) && r@[i]@
            == final(f).tag_var(tags@[i]) && r@[i]@ >= 1,
{
    let mut r: Vec<Literal> = Vec::new();
    let mut i: usize = 0;
    while i < tags.len()
        invariant
            0 <= i <= tags@.len(),
            f.wf(),
            f.extends(&*old(f)),
            f.clauses() == old(f).clauses(),
            f.num_vars() <= old(f).num_vars() + i,
            old(f).has_room(tags@.len() as int, 0),
            r@.len() == i,
            forall|k: int| 0 <= k < i ==> f.allocated(#[trigger] r@[k]@),
            forall|k: int| 0 <= k < i ==> f.has_tag(#[trigger] tags@[k]) && r@[k]@ == f.tag_var(tags@[k]) && r@[k]@ >= 1,
        decreases tags@.len() - i,
    {
        let ghost before = *f;
        let v = f.get_variable(tags[i]);
        r.push(v.as_positive());
        proof {
            assert forall|k: int| 0 <= k < i + 1 implies f.has_tag(#[trigger] tags@[k]) && r@[k]@ == f.tag_var(tags@[k]) && r@[k]@ >= 1 by {
                if k < i {
                    assert(before.has_tag(tags@[k]));
                }
            }
        }
        i = i + 1;
    }
    r
}

/// Exactly one of the variables of `tags` holds: pairwise exclusion and one wide clause.
fn add_exactly_one(f: &mut TaggedVariableFormulaBuilder, tags: &Vec<VariableKind>)
    requires
        old(f).wf(),
        tags@.len() == 9,
        old(f).has_room(9, 82),
    ensures
        final(f).wf(),
        final(f).extends(&*old(f)),
        final(f).num_vars() <= old(f).num_vars() + 9,
        final(f).clauses().len() <= old(f).clauses().len() + 82,
        exactly_one_tied(&*final(f), tags@),
{
    let literals = literals_of(f, tags);
    let ghost f1 = *f;
    let ghost s = literal_values(literals@);
    f.add_at_most_one_of_constraint(literals.as_slice());
    let ghost f2 = *f;
    f.add_clause(literals);
    proof {
        assert forall|k: int| 0 <= k < tags@.len() implies tagged(&*f, #[trigger] tags@[k]) && f.tag_var(tags@[k]) == s[k] by {
            assert(f1.allocated(literals@[k]@));
            lemma_tagged_stable(&f1, &*f, tags@[k]);
        }
        let w = tags@.map_values(|t: VariableKind| f.tag_var(t));
        assert(w =~= s);
        assert(f.clauses()[f2.clauses().len() as int] == s);
        assert(has_clause(&*f, w));
        assert forall|p: int, q: int| 0 <= p < q < tags@.len() implies has_clause(
            &*f,
            #[trigger] seq![-f.tag_var(tags@[p]), -f.tag_var(tags@[q])],
        ) by {
            crate::cardinality::lemma_at_most_one_has_pair(s, p, q);
            let amo = crate::cardinality::at_most_one_clauses(s);
            let j = choose|j: int| 0 <= j < amo.len() && #[trigger] amo[j] == seq![-s[p], -s[q]];
            assert(f2.clauses()[f1.clauses().len() + j] == seq![-s[p], -s[q]]);
            assert(has_clause(&f2, seq![-s[p], -s[q]]));
            lemma_has_clause_stable(&f2, &*f, seq![-s[p], -s[q]]);
        }
    }
}

/// One digit per cell, and each digit once in each row, column and box.
fn add_placement_constraints(f: &mut TaggedVariableFormulaBuilder)
    requires
        old(f).wf(),
        old(f).has_room(2916int, 26568int),
    ensures
        final(f).wf(),
        final(f).extends(&*old(f)),
        final(f).num_vars() <= old(f).num_vars() + 4 * 81 * 9,
        final(f).clauses().len() <= old(f).clauses().len() + 4 * 81 * 82,
        forall|family: int, i: int, j: int|
            0 <= family < 4 && 0 <= i < 9 && 0 <= j < 9 ==> #[trigger] exactly_one_tied(
                &*final(f),
                house(family, i, j),
            ),
{
    let rows = Row::values();
    let cols = Col::values();
    let digits = Digit::values();
    let boxes = Box::values();
    let mut family: usize = 0;
    while family < 4
        invariant
            0 <= family <= 4,
            rows@.len() == 9,
            cols@.len() == 9,
            digits@.len() == 9,
            boxes@.len() == 9,
            forall|k: int| 0 <= k < 9 ==> #[trigger] rows@[k]@ == k + 1,
            forall|k: int| 0 <= k < 9 ==> #[trigger] cols@[k]@ == k + 1,
            forall|k: int| 0 <= k < 9 ==> #[trigger] digits@[k]@ == k + 1,
            forall|k: int| 0 <= k < 9 ==> #[trigger] boxes@[k]@ == k + 1,
            f.wf(),
            f.extends(&*old(f)),
            f.num_vars() <= old(f).num_vars() + family * 81 * 9,
            f.clauses().len() <= old(f).clauses().len() + family * 81 * 82,
            old(f).has_room(2916int, 26568int),
            forall|fa: int, i: int, j: int|
                0 <= fa < family && 0 <= i < 9 && 0 <= j < 9 ==> #[trigger] exactly_one_tied(
                    &*f,
                    house(fa, i, j),
                ),
        decreases 4 - family,
    {
        let mut i: usize = 0;
        while i < 9
            invariant
                0 <= family < 4,
                0 <= i <= 9,
                rows@.len() == 9,
                cols@.len() == 9,
                digits@.len() == 9,
                boxes@.len() == 9,
                forall|k: int| 0 <= k < 9 ==> #[trigger] rows@[k]@ == k + 1,
                forall|k: int| 0 <= k < 9 ==> #[trigger] cols@[k]@ == k + 1,
                forall|k: int| 0 <= k < 9 ==> #[trigger] digits@[k]@ == k + 1,
                forall|k: int| 0 <= k < 9 ==> #[trigger] boxes@[k]@ == k + 1,
                f.wf(),
                f.extends(&*old(f)),
                f.num_vars() <= old(f).num_vars() + family * 81 * 9 + i * 81,
                f.clauses().len() <= old(f).clauses().len() + family * 81 * 82 + i * 9 * 82,
                old(f).has_room(2916int, 26568int),
                forall|fa: int, i2: int, j2: int|
                    0 <= fa < 4 && 0 <= i2 < 9 && 0 <= j2 < 9 && (fa < family || (fa == family && i2 < i))
                        ==> #[trigger] exactly_one_tied(&*f, house(fa, i2, j2)),
            decreases 9 - i,
        {
            let mut j: usize = 0;
            while j < 9
                invariant
                    0 <= family < 4,
                    0 <= i < 9,
                    0 <= j <= 9,
                    rows@.len() == 9,
                    cols@.len() == 9,
                    digits@.len() == 9,
                    boxes@.len() == 9,
                    forall|k: int| 0 <= k < 9 ==> #[trigger] rows@[k]@ == k + 1,
                    forall|k: int| 0 <= k < 9 ==> #[trigger] cols@[k]@ == k + 1,
                    forall|k: int| 0 <= k < 9 ==> #[trigger] digits@[k]@ == k + 1,
                    forall|k: int| 0 <= k < 9 ==> #[trigger] boxes@[k]@ == k + 1,
                    f.wf(),
                    f.extends(&*old(f)),
                    f.num_vars() <= old(f).num_vars() + family * 81 * 9 + i * 81 + j * 9,
                    f.clauses().len() <= old(f).clauses().len() + family * 81 * 82 + i * 9 * 82
                        + j * 82,
                    old(f).has_room(2916int, 26568int),
                    forall|fa: int, i2: int, j2: int|
                        0 <= fa < 4 && 0 <= i2 < 9 && 0 <= j2 < 9 && (fa < family || (fa == family
                            && (i2 < i || (i2 == i && j2 < j)))) ==> #[trigger] exactly_one_tied(
                            &*f,
                            house(fa, i2, j2),
                        ),
                decreases 9 - j,
            {
                let ghost expected = house(family as int, i as int, j as int);
                let mut tags: Vec<VariableKind> = Vec::new();
                let mut k: usize = 0;
                if family == 3 {
                    // Each digit once in a box.
                    let cells = boxes[i].cells();
                    while k < 9
                        invariant
                            0 <= k <= 9,
                            tags@.len() == k,
                            cells@.len() == 9,
                            forall|m: int|
                                #![trigger cells@[m]]
                                0 <= m < 9 ==> cells@[m].row@ == box_base_row(i + 1) + m / 3
                                    && cells@[m].col@ == box_base_col(i + 1) + m % 3,
                            digits@.len() == 9,
                            forall|m: int| 0 <= m < 9 ==> #[trigger] digits@[m]@ == m + 1,
                            0 <= i < 9,
                            0 <= j < 9,
                            family == 3,
                            expected == house(family as int, i as int, j as int),
                            forall|m: int| 0 <= m < k ==> #[trigger] tags@[m] == expected[m],
                        decreases 9 - k,
                    {
                        let tag = VariableKind::Placed {
                            row: cells[k].row,
                            col: cells[k].col,
                            digit: digits[j],
                        };
                        proof {
                            lemma_scalars_by_number(cells[k as int].row, cells[k as int].col, digits[j as int]);
                        }
                        tags.push(tag);
                        k = k + 1;
                    }
                } else {
                    while k < 9
                        invariant
                            0 <= k <= 9,
                            tags@.len() == k,
                            rows@.len() == 9,
                            cols@.len() == 9,
                            digits@.len() == 9,
                            forall|m: int| 0 <= m < 9 ==> #[trigger] rows@[m]@ == m + 1,
                            forall|m: int| 0 <= m < 9 ==> #[trigger] cols@[m]@ == m + 1,
                            forall|m: int| 0 <= m < 9 ==> #[trigger] digits@[m]@ == m + 1,
                            0 <= i < 9,
                            0 <= j < 9,
                            family < 3,
                            expected == house(family as int, i as int, j as int),
                            forall|m: int| 0 <= m < k ==> #[trigger] tags@[m] == expected[m],
                        decreases 9 - k,
                    {
                        let tag = if family == 0 {
                            // One digit per cell.
                            proof {
                                lemma_scalars_by_number(rows[i as int], cols[j as int], digits[k as int]);
                            }
                            VariableKind::Placed { row: rows[i], col: cols[j], digit: digits[k] }
                        } else if family == 1 {
                            // Each digit once in a row.
                            proof {
                                lemma_scalars_by_number(rows[i as int], cols[k as int], digits[j as int]);
                            }
                            VariableKind::Placed { row: rows[i], col: cols[k], digit: digits[j] }
                        } else {
                            // Each digit once in a column.
                            proof {
                                lemma_scalars_by_number(rows[k as int], cols[i as int], digits[j as int]);
                            }
                            VariableKind::Placed { row: rows[k], col: cols[i], digit: digits[j] }
                        };
                        tags.push(tag);
                        k = k + 1;
                    }
                }
                assert(tags@ =~= expected);
                let ghost before = *f;
                add_exactly_one(f, &tags);
                proof {
                    assert forall|fa: int, i2: int, j2: int|
                        0 <= fa < 4 && 0 <= i2 < 9 && 0 <= j2 < 9 && (fa < family || (fa == family
                            && (i2 < i || (i2 == i && j2 < j + 1)))) implies #[trigger] exactly_one_tied(
                            &*f,
                            house(fa, i2, j2),
                        ) by {
                        if fa == family && i2 == i && j2 == j {
                        } else {
                            lemma_exactly_one_stable(&before, &*f, house(fa, i2, j2));
                        }
                    }
                }
                j = j + 1;
            }
            i = i + 1;
        }
        family = family + 1;
    }
}

/// Fixes the number of given cells to the 7 low bits of `givens`: the 81 given flags are summed
/// by an addition tree and each bit of the sum is set by a unit clause.
fn add_given_count(f: &mut TaggedVariableFormulaBuilder, givens: usize)
    requires
        old(f).wf(),
        old(f).has_room(13446int, 45448int),
    ensures
        final(f).wf(),
        final(f).extends(&*old(f)),
        final(f).num_vars() <= old(f).num_vars() + 13446,
        final(f).clauses().len() <= old(f).clauses().len() + 45448,
        givens_counted(&*final(f), givens),
{
    let cells = Cell::values();
    let mut given_bits: Vec<BitVector> = Vec::new();
    let ghost mut gl: Seq<int> = Seq::empty();
    let mut i: usize = 0;
    while i < 81
        invariant
            0 <= i <= 81,
            cells@.len() == 81,
            forall|k: int|
                #![trigger cells@[k]]
                0 <= k < 81 ==> cells@[k].row@ == k / 9 + 1 && cells@[k].col@ == k % 9 + 1,
            f.wf(),
            f.extends(&*old(f)),
            f.clauses() == old(f).clauses(),
            f.num_vars() <= old(f).num_vars() + i,
            old(f).has_room(13446int, 45448int),
            given_bits@.len() == i,
            gl.len() == i,
            forall|k: int| 0 <= k < i ==> (#[trigger] given_bits@[k]).wf() && given_bits@[k].allocated_in(&*f)
                && given_bits@[k].lo() == 0 && given_bits@[k].hi() == 2
                && given_bits@[k].bit_literals() == seq![gl[k]] && bounded_in(&given_bits@[k], &*f),
            forall|k: int| 0 <= k < i ==> tagged(&*f, #[trigger] given(k / 9 + 1, k % 9 + 1)) && gl[k] == f.tag_var(given(k / 9 + 1, k % 9 + 1)),
            forall|m: spec_fn(int) -> bool| #[trigger] sum_values(m, given_bits@) == count_true(m, gl),
            sum_lo(given_bits@) == 0,
            sum_max(given_bits@) == i,
        decreases 81 - i,
    {
        let ghost before = *f;
        let ghost prev = given_bits@;
        let ghost prev_gl = gl;
        let v = f.get_variable(VariableKind::Given { row: cells[i].row, col: cells[i].col });
        let bv = BitVector::from_literal(v.as_positive());
        given_bits.push(bv);
        proof {
            gl = gl.push(v@);
            lemma_scalars_by_number(cells[i as int].row, cells[i as int].col, crate::sudoku::digit_of(1));
            assert(VariableKind::Given { row: cells[i as int].row, col: cells[i as int].col } == given(i / 9 + 1, i % 9 + 1));
            assert(given_bits@.drop_last() =~= prev);
            assert(gl.drop_last() =~= prev_gl);
            assert forall|m: spec_fn(int) -> bool| #[trigger] formula_holds(m, f.clauses()) implies bits_value(m, bv.bit_literals()) < bv.hi() by {
                crate::bit_vector::lemma_one_bit_value(m, v@);
            }
            assert forall|k: int| 0 <= k < i + 1 implies (#[trigger] given_bits@[k]).wf()
                && given_bits@[k].allocated_in(&*f) && given_bits@[k].lo() == 0 && given_bits@[k].hi() == 2
                && given_bits@[k].bit_literals() == seq![gl[k]] && bounded_in(&given_bits@[k], &*f) by {
                if k < i {
                    assert(given_bits@[k] == prev[k]);
                    crate::bit_vector::lemma_bits_grow(&prev[k], &before, &*f);
                    crate::bit_vector::lemma_bounded_grows(&prev[k], &before, &*f);
                } else {
                    assert(given_bits@[k] == bv);
                    assert(bv.bit_literals()[0] == v@);
                }
            }
            assert forall|k: int| 0 <= k < i + 1 implies tagged(&*f, #[trigger] given(k / 9 + 1, k % 9 + 1)) && gl[k] == f.tag_var(given(k / 9 + 1, k % 9 + 1)) by {
                if k < i {
                    lemma_tagged_stable(&before, &*f, given(k / 9 + 1, k % 9 + 1));
                }
            }
            assert forall|m: spec_fn(int) -> bool| #[trigger] sum_values(m, given_bits@) == count_true(m, gl) by {
                crate::bit_vector::lemma_one_bit_value(m, v@);
                assert(sum_values(m, prev) == count_true(m, prev_gl));
            }
        }
        i = i + 1;
    }
    let ghost gb = given_bits@;
    let ghost f_tree = *f;
    let given_count = BitVector::add_tree(f, given_bits);
    proof {
        crate::bit_vector::lemma_width_82();
        crate::bit_vector::lemma_width_unique(82, 7, given_count.bit_literals().len() as int);
        assert(forall|k: int| 0 <= k < gb.len() ==> bounded_in(#[trigger] &gb[k], &f_tree));
    }
    let bits = given_count.bits();
    let ghost lits = given_count.bit_literals();
    let ghost f_units = *f;
    let mut rest: usize = givens;
    let mut position: usize = 0;
    proof {
        vstd::arithmetic::power2::lemma2_to64();
    }
    while position < 7
        invariant
            0 <= position <= 7,
            bits@.len() == 7,
            lits.len() == 7,
            bits@.map_values(|l: Literal| l@) == lits,
            lits == given_count.bit_literals(),
            given_count.allocated_in(&*f),
            rest == givens as nat / pow2(position as nat),
            f.wf(),
            f.extends(&*old(f)),
            f.extends(&f_units),
            f.num_vars() <= old(f).num_vars() + 13446,
            f.clauses().len() <= old(f).clauses().len() + 45441 + position,
            f.clauses().len() <= f_units.clauses().len() + position,
            old(f).has_room(13446int, 45448int),
            forall|k: int| 0 <= k < position ==> #[trigger] has_clause(&*f, count_bit_clause(givens, lits, k)),
        decreases 7 - position,
    {
        let mut literal = bits[position];
        assert(f.allocated(given_count.bit_literals()[position as int]));
        if rest % 2 == 0 {
            literal = literal.negated();
        }
        let ghost before = *f;
        f.add_unit_clause(literal);
        proof {
            assert(f.clauses()[before.clauses().len() as int] == seq![literal@]);
            assert(literal@ == if (givens as nat / pow2(position as nat)) % 2 == 0 { -lits[position as int] } else { lits[position as int] });
            assert forall|k: int| 0 <= k < position + 1 implies #[trigger] has_clause(&*f, count_bit_clause(givens, lits, k)) by {
                if k < position {
                    lemma_has_clause_stable(&before, &*f, count_bit_clause(givens, lits, k));
                }
            }
            vstd::arithmetic::power2::lemma_pow2_pos(position as nat);
            vstd::arithmetic::div_mod::lemma_div_denominator(givens as int, pow2(position as nat) as int, 2);
            vstd::arithmetic::power2::lemma_pow2_unfold((position + 1) as nat);
            assert(pow2(position as nat) * 2 == pow2((position + 1) as nat));
        }
        rest = rest / 2;
        position = position + 1;
    }
    proof {
        assert forall|k: int| 0 <= k < 81 implies tagged(&*f, #[trigger] given(k / 9 + 1, k % 9 + 1)) && f.tag_var(given(k / 9 + 1, k % 9 + 1)) == gl[k] by {
            lemma_tagged_stable(&f_tree, &*f, given(k / 9 + 1, k % 9 + 1));
        }
        assert(given_variables(&*f) =~= gl);
        assert forall|m: spec_fn(int) -> bool| #[trigger] formula_holds(m, f.clauses()) implies count_true(m, given_variables(&*f)) == givens as int % 128 by {
            lemma_models_of_extension(&f_units, &*f, m);
            assert(bits_value(m, lits) == sum_values(m, gb));
            assert forall|k: int| 0 <= k < lits.len() implies #[trigger] bit(m, lits[k]) == (givens as nat / pow2(k as nat)) % 2 by {
                let cl = count_bit_clause(givens, lits, k);
                assert(has_clause(&*f, cl));
                let j = choose|j: int| 0 <= j < f.clauses().len() && #[trigger] f.clauses()[j] == cl;
                assert(crate::formula_builder::clause_holds(m, f.clauses()[j]));
                assert(literal_holds(m, cl[0]));
                assert(f.allocated(lits[k]));
            }
            crate::bit_vector::lemma_bits_spell(m, lits, givens as nat, 7);
            assert(lits.take(7) =~= lits);
            vstd::arithmetic::power2::lemma2_to64();
        }
    }
}

/// At level 0 exactly the given placements are forced, and nothing is eliminated.
fn add_level_zero(f: &mut TaggedVariableFormulaBuilder)
    requires
        old(f).wf(),
        old(f).has_room(2916int, 2916int),
    ensures
        final(f).wf(),
        final(f).extends(&*old(f)),
        final(f).num_vars() <= old(f).num_vars() + 2916,
        final(f).clauses().len() <= old(f).clauses().len() + 2916,
        forall|r: int, c: int, d: int| in_grid(r, c, d) ==> #[trigger] level_zero_tied(&*final(f), r, c, d),
{
    let cells = Cell::values();
    let digits = Digit::values();
    let mut i: usize = 0;
    while i < 81
        invariant
            0 <= i <= 81,
            cells@.len() == 81,
            forall|k: int|
                #![trigger cells@[k]]
                0 <= k < 81 ==> cells@[k].row@ == k / 9 + 1 && cells@[k].col@ == k % 9 + 1,
            digits@.len() == 9,
            forall|k: int| 0 <= k < 9 ==> #[trigger] digits@[k]@ == k + 1,
            f.wf(),
            f.extends(&*old(f)),
            f.num_vars() <= old(f).num_vars() + 36 * i,
            f.clauses().len() <= old(f).clauses().len() + 36 * i,
            old(f).has_room(2916int, 2916int),
            forall|r: int, c: int, d: int|
                in_grid(r, c, d) && (r - 1) * 9 + (c - 1) < i ==> #[trigger] level_zero_tied(&*f, r, c, d),
        decreases 81 - i,
    {
        let cell = cells[i];
        let mut j: usize = 0;
        while j < 9
            invariant
                0 <= i < 81,
                0 <= j <= 9,
                cell.row@ == i / 9 + 1,
                cell.col@ == i % 9 + 1,
                digits@.len() == 9,
                forall|k: int| 0 <= k < 9 ==> #[trigger] digits@[k]@ == k + 1,
                f.wf(),
                f.extends(&*old(f)),
                f.num_vars() <= old(f).num_vars() + 36 * i + 4 * j,
                f.clauses().len() <= old(f).clauses().len() + 36 * i + 4 * j,
                old(f).has_room(2916int, 2916int),
                forall|r: int, c: int, d: int|
                    in_grid(r, c, d) && ((r - 1) * 9 + (c - 1) < i || ((r - 1) * 9 + (c - 1) == i
                        && d <= j)) ==> #[trigger] level_zero_tied(&*f, r, c, d),
            decreases 9 - j,
        {
            let digit = digits[j];
            let ghost f0 = *f;
            let placed_v = f.get_variable(VariableKind::Placed { row: cell.row, col: cell.col, digit });
            let placed_l = placed_v.as_positive();
            let ghost f1 = *f;
            let given_v = f.get_variable(VariableKind::Given { row: cell.row, col: cell.col });
            let given_l = given_v.as_positive();
            let ghost f2 = *f;
            let forced_v = f.get_variable(
                VariableKind::Forced { row: cell.row, col: cell.col, digit, level: 0 },
            );
            let forced_l = forced_v.as_positive();
            let ghost f3 = *f;
            let inputs = [placed_l, given_l];
            f.add_logical_and_constraint(forced_l, &inputs);
            let ghost f4 = *f;
            let eliminated_v = f.get_variable(
                VariableKind::Eliminated { row: cell.row, col: cell.col, digit, level: 0 },
            );
            let ghost f5 = *f;
            f.add_unit_clause(eliminated_v.as_positive().negated());
            proof {
                let (r, c, d) = (cell.row@, cell.col@, digit@);
                lemma_scalars_by_number(cell.row, cell.col, digit);
                assert(VariableKind::Placed { row: cell.row, col: cell.col, digit } == placed(r, c, d));
                assert(VariableKind::Given { row: cell.row, col: cell.col } == given(r, c));
                assert(VariableKind::Forced { row: cell.row, col: cell.col, digit, level: 0 } == forced(r, c, d, 0));
                assert(VariableKind::Eliminated { row: cell.row, col: cell.col, digit, level: 0 } == eliminated(r, c, d, 0));
                assert(tagged(&f1, placed(r, c, d)));
                assert(tagged(&f2, given(r, c)));
                assert(tagged(&f3, forced(r, c, d, 0)));
                assert(tagged(&f5, eliminated(r, c, d, 0)));
                lemma_tagged_stable(&f1, &*f, placed(r, c, d));
                lemma_tagged_stable(&f2, &*f, given(r, c));
                lemma_tagged_stable(&f3, &*f, forced(r, c, d, 0));
                lemma_tagged_stable(&f5, &*f, eliminated(r, c, d, 0));
                lemma_tagged_stable(&f1, &f3, placed(r, c, d));
                lemma_tagged_stable(&f2, &f3, given(r, c));
                let p = placed_v@;
                let g = given_v@;
                let x = forced_v@;
                let e = eliminated_v@;
                assert(literal_values(inputs@) =~= seq![p, g]);
                let n3 = f3.clauses().len() as int;
                assert(f4.clauses()[n3] =~= seq![-x, p]);
                assert(f4.clauses()[n3 + 1] =~= seq![-x, g]);
                assert(f4.clauses()[n3 + 2] =~= seq![-p, -g, x]);
                assert(has_clause(&f4, seq![-x, p]));
                assert(has_clause(&f4, seq![-x, g]));
                assert(has_clause(&f4, seq![-p, -g, x]));
                lemma_has_clause_stable(&f4, &*f, seq![-x, p]);
                lemma_has_clause_stable(&f4, &*f, seq![-x, g]);
                lemma_has_clause_stable(&f4, &*f, seq![-p, -g, x]);
                assert(f.clauses()[f5.clauses().len() as int] == seq![-e]);
                assert(level_zero_tied(&*f, r, c, d));
                assert forall|r2: int, c2: int, d2: int|
                    in_grid(r2, c2, d2) && ((r2 - 1) * 9 + (c2 - 1) < i || ((r2 - 1) * 9 + (c2 - 1)
                        == i && d2 <= j + 1)) implies #[trigger] level_zero_tied(&*f, r2, c2, d2) by {
                    if r2 == r && c2 == c && d2 == d {
                    } else {
                        lemma_level_zero_stable(&f0, &*f, r2, c2, d2);
                    }
                }
            }
            j = j + 1;
        }
        i = i + 1;
    }
}

/// At the last level the inference must have reached the solution: each placement is forced
/// exactly when it holds, and eliminated exactly when it does not.
fn add_terminal_tie(f: &mut TaggedVariableFormulaBuilder, last_level: usize)
    requires
        old(f).wf(),
        old(f).has_room(2187int, 2916int),
    ensures
        final(f).wf(),
        final(f).extends(&*old(f)),
        final(f).num_vars() <= old(f).num_vars() + 2187,
        final(f).clauses().len() <= old(f).clauses().len() + 2916,
        forall|r: int, c: int, d: int|
            in_grid(r, c, d) ==> #[trigger] last_level_tied(&*final(f), r, c, d, last_level as int),
{
    let ghost l = last_level as int;
    let cells = Cell::values();
    let digits = Digit::values();
    let mut i: usize = 0;
    while i < 81
        invariant
            0 <= i <= 81,
            l == last_level,
            cells@.len() == 81,
            forall|k: int|
                #![trigger cells@[k]]
                0 <= k < 81 ==> cells@[k].row@ == k / 9 + 1 && cells@[k].col@ == k % 9 + 1,
            digits@.len() == 9,
            forall|k: int| 0 <= k < 9 ==> #[trigger] digits@[k]@ == k + 1,
            f.wf(),
            f.extends(&*old(f)),
            f.num_vars() <= old(f).num_vars() + 27 * i,
            f.clauses().len() <= old(f).clauses().len() + 36 * i,
            old(f).has_room(2187int, 2916int),
            forall|r: int, c: int, d: int|
                in_grid(r, c, d) && (r - 1) * 9 + (c - 1) < i ==> #[trigger] last_level_tied(&*f, r, c, d, l),
        decreases 81 - i,
    {
        let cell = cells[i];
        let mut j: usize = 0;
        while j < 9
            invariant
                0 <= i < 81,
                0 <= j <= 9,
                l == last_level,
                cell.row@ == i / 9 + 1,
                cell.col@ == i % 9 + 1,
                digits@.len() == 9,
                forall|k: int| 0 <= k < 9 ==> #[trigger] digits@[k]@ == k + 1,
                f.wf(),
                f.extends(&*old(f)),
                f.num_vars() <= old(f).num_vars() + 27 * i + 3 * j,
                f.clauses().len() <= old(f).clauses().len() + 36 * i + 4 * j,
                old(f).has_room(2187int, 2916int),
                forall|r: int, c: int, d: int|
                    in_grid(r, c, d) && ((r - 1) * 9 + (c - 1) < i || ((r - 1) * 9 + (c - 1) == i
                        && d <= j)) ==> #[trigger] last_level_tied(&*f, r, c, d, l),
            decreases 9 - j,
        {
            let digit = digits[j];
            let ghost f0 = *f;
            let forced_v = f.get_variable(
                VariableKind::Forced { row: cell.row, col: cell.col, digit, level: last_level },
            );
            let ghost f1 = *f;
            let eliminated_v = f.get_variable(
                VariableKind::Eliminated { row: cell.row, col: cell.col, digit, level: last_level },
            );
            let ghost f2 = *f;
            let placed_v = f.get_variable(VariableKind::Placed { row: cell.row, col: cell.col, digit });
            let ghost f3 = *f;
            let forced_l = forced_v.as_positive();
            let eliminated_l = eliminated_v.as_positive();
            let placed_l = placed_v.as_positive();
            f.add_logical_equivalence_constraint(forced_l, placed_l);
            let ghost f4 = *f;
            f.add_logical_equivalence_constraint(eliminated_l, placed_l.negated());
            proof {
                let (r, c, d) = (cell.row@, cell.col@, digit@);
                lemma_scalars_by_number(cell.row, cell.col, digit);
                assert(VariableKind::Placed { row: cell.row, col: cell.col, digit } == placed(r, c, d));
                assert(VariableKind::Forced { row: cell.row, col: cell.col, digit, level: last_level } == forced(r, c, d, l));
                assert(VariableKind::Eliminated { row: cell.row, col: cell.col, digit, level: last_level } == eliminated(r, c, d, l));
                assert(tagged(&f1, forced(r, c, d, l)));
                assert(tagged(&f2, eliminated(r, c, d, l)));
                assert(tagged(&f3, placed(r, c, d)));
                lemma_tagged_stable(&f1, &*f, forced(r, c, d, l));
                lemma_tagged_stable(&f2, &*f, eliminated(r, c, d, l));
                lemma_tagged_stable(&f3, &*f, placed(r, c, d));
                lemma_tagged_stable(&f1, &f3, forced(r, c, d, l));
                lemma_tagged_stable(&f2, &f3, eliminated(r, c, d, l));
                let p = placed_v@;
                let x = forced_v@;
                let e = eliminated_v@;
                let n3 = f3.clauses().len() as int;
                let n4 = f4.clauses().len() as int;
                assert(f4.clauses()[n3] =~= seq![-x, p]);
                assert(f4.clauses()[n3 + 1] =~= seq![x, -p]);
                assert(f.clauses()[n4] =~= seq![-e, -p]);
                assert(f.clauses()[n4 + 1] =~= seq![e, p]);
                assert(has_clause(&f4, seq![-x, p]));
                assert(has_clause(&f4, seq![x, -p]));
                lemma_has_clause_stable(&f4, &*f, seq![-x, p]);
                lemma_has_clause_stable(&f4, &*f, seq![x, -p]);
                assert(has_clause(&*f, seq![-e, -p]));
                assert(has_clause(&*f, seq![e, p]));
                assert(last_level_tied(&*f, r, c, d, l));
                assert forall|r2: int, c2: int, d2: int|
                    in_grid(r2, c2, d2) && ((r2 - 1) * 9 + (c2 - 1) < i || ((r2 - 1) * 9 + (c2 - 1)
                        == i && d2 <= j + 1)) implies #[trigger] last_level_tied(&*f, r2, c2, d2, l) by {
                    if r2 == r && c2 == c && d2 == d {
                    } else {
                        lemma_last_level_stable(&f0, &*f, r2, c2, d2, l);
                    }
                }
            }
            j = j + 1;
        }
        i = i + 1;
    }
}

/// A fresh literal tied by AND to the variables of `tags`: one justification of an inference.
fn add_justification(f: &mut TaggedVariableFormulaBuilder, tags: &Vec<VariableKind>) -> (r: Literal)
    requires
        old(f).wf(),
        tags@.len() <= 9,
        old(f).has_room(10int, 10int),
    ensures
        final(f).wf(),
        final(f).extends(&*old(f)),
        final(f).num_vars() <= old(f).num_vars() + 10,
        final(f).clauses().len() <= old(f).clauses().len() + 10,
        final(f).allocated(r@),
        r@ >= 1,
        all_tagged(&*final(f), tags@),
        forall|m: spec_fn(int) -> bool|
            #[trigger] formula_holds(m, final(f).clauses()) ==> (literal_holds(m, r@) == all_hold(
                m,
                &*final(f),
                tags@,
            )),
{
    let literals = literals_of(f, tags);
    let ghost f1 = *f;
    let justification = f.new_variable().as_positive();
    let ghost f2 = *f;
    f.add_logical_and_constraint(justification, literals.as_slice());
    proof {
        let lits = literal_values(literals@);
        assert forall|k: int| 0 <= k < tags@.len() implies tagged(&*f, #[trigger] tags@[k]) && f.tag_var(tags@[k]) == lits[k] by {
            assert(f1.allocated(literals@[k]@));
            lemma_tagged_stable(&f1, &*f, tags@[k]);
        }
        assert forall|m: spec_fn(int) -> bool| #[trigger] formula_holds(m, f.clauses()) implies (literal_holds(m, justification@) == all_hold(m, &*f, tags@)) by {
            lemma_models_of_suffix(f2.clauses(), and_clauses(justification@, lits), m);
            crate::gate::lemma_and_gate(m, justification@, lits);
            lemma_literals_of_tags(m, &*f, lits, tags@);
        }
    }
    justification
}

/// The tags, at `level`, of the eight placements that share a house with (`cell`, `digit`) and
/// differ from it in one coordinate: by `house` 0, `Eliminated` for the other digits of the
/// cell; 1, `Eliminated` for the digit in the other columns of the row; 2, the same in the other
/// rows of the column; 3, `Forced` for the other digits of the cell.
fn other_tags(house: u8, cell: Cell, digit: Digit, level: usize) -> (r: Vec<VariableKind>)
    requires
        house <= 3,
    ensures
        r@ == other_tags_of(house as int, cell.row@, cell.col@, digit@, level as int),
{
    let rows = Row::values();
    let cols = Col::values();
    let digits = Digit::values();
    let skip_value: u8 = if house == 1 {
        cell.col.as_u8()
    } else if house == 2 {
        cell.row.as_u8()
    } else {
        digit.as_u8()
    };
    let ghost expected = other_tags_of(house as int, cell.row@, cell.col@, digit@, level as int);
    let ghost x: int = if house == 1 { cell.col@ } else if house == 2 { cell.row@ } else { digit@ };
    proof {
        lemma_scalars_by_number(cell.row, cell.col, digit);
    }
    let mut r: Vec<VariableKind> = Vec::new();
    let mut k: usize = 0;
    while k < 9
        invariant
            0 <= k <= 9,
            house <= 3,
            1 <= skip_value <= 9,
            x == skip_value,
            x == (if house == 1 { cell.col@ } else if house == 2 { cell.row@ } else { digit@ }),
            cell.row == row_of(cell.row@),
            cell.col == col_of(cell.col@),
            digit == digit_of(digit@),
            rows@.len() == 9,
            cols@.len() == 9,
            digits@.len() == 9,
            forall|m: int| 0 <= m < 9 ==> #[trigger] rows@[m]@ == m + 1,
            forall|m: int| 0 <= m < 9 ==> #[trigger] cols@[m]@ == m + 1,
            forall|m: int| 0 <= m < 9 ==> #[trigger] digits@[m]@ == m + 1,
            expected == other_tags_of(house as int, cell.row@, cell.col@, digit@, level as int),
            r@.len() == k - (if skip_value <= k { 1int } else { 0 }),
            forall|m: int| 0 <= m < r@.len() ==> #[trigger] r@[m] == expected[m],
        decreases 9 - k,
    {
        if (k + 1) as u8 != skip_value {
            proof {
                lemma_scalars_by_number(rows[k as int], cols[k as int], digits[k as int]);
                let m = r@.len() as int;
                assert(skip(m, x) == k + 1);
            }
            let tag = if house == 0 {
                VariableKind::Eliminated { row: cell.row, col: cell.col, digit: digits[k], level }
            } else if house == 1 {
                VariableKind::Eliminated { row: cell.row, col: cols[k], digit, level }
            } else if house == 2 {
                VariableKind::Eliminated { row: rows[k], col: cell.col, digit, level }
            } else {
                VariableKind::Forced { row: cell.row, col: cell.col, digit: digits[k], level }
            };
            let ghost prev = r@;
            r.push(tag);
            proof {
                assert(r@[prev.len() as int] == expected[prev.len() as int]);
                assert forall|m: int| 0 <= m < r@.len() implies #[trigger] r@[m] == expected[m] by {
                    if m < prev.len() {
                        assert(r@[m] == prev[m]);
                    }
                }
            }
        }
        k = k + 1;
    }
    assert(r@ =~= expected);
    r
}

/// The tags `Eliminated` at `level` of `digit` in the other cells of the cell's box.
fn other_box_cells_eliminated(cell: Cell, digit: Digit, level: usize) -> (r: Vec<VariableKind>)
    ensures
        r@ == box_others(cell.row@, cell.col@, digit@, level as int, 9),
        r@.len() <= 9,
{
    let cells = cell.box_().cells();
    let mut r: Vec<VariableKind> = Vec::new();
    let mut k: usize = 0;
    while k < 9
        invariant
            0 <= k <= 9,
            cells@.len() == 9,
            forall|m: int|
                #![trigger cells@[m]]
                0 <= m < 9 ==> cells@[m].row@ == box_base_row(box_of(cell.row@, cell.col@)) + m / 3
                    && cells@[m].col@ == box_base_col(box_of(cell.row@, cell.col@)) + m % 3,
            r@ == box_others(cell.row@, cell.col@, digit@, level as int, k as int),
            r@.len() <= k,
        decreases 9 - k,
    {
        if cells[k].row.as_u8() != cell.row.as_u8() || cells[k].col.as_u8() != cell.col.as_u8() {
            proof {
                lemma_scalars_by_number(cells[k as int].row, cells[k as int].col, digit);
            }
            r.push(VariableKind::Eliminated { row: cells[k].row, col: cells[k].col, digit, level });
        }
        k = k + 1;
    }
    r
}

/// The tags `Forced` at `level` of `digit` in every cell that `cell` sees.
fn peers_forced(cell: Cell, digit: Digit, level: usize) -> (r: Vec<VariableKind>)
    ensures
        r@ == peers_of(cell.row@, cell.col@, digit@, level as int, 81),
        r@.len() <= 81,
{
    let cells = Cell::values();
    let mut r: Vec<VariableKind> = Vec::new();
    let mut k: usize = 0;
    while k < 81
        invariant
            0 <= k <= 81,
            cells@.len() == 81,
            forall|m: int|
                #![trigger cells@[m]]
                0 <= m < 81 ==> cells@[m].row@ == m / 9 + 1 && cells@[m].col@ == m % 9 + 1,
            r@ == peers_of(cell.row@, cell.col@, digit@, level as int, k as int),
            r@.len() <= k,
        decreases 81 - k,
    {
        if cell.sees_other(cells[k]) {
            proof {
                lemma_scalars_by_number(cells[k as int].row, cells[k as int].col, digit);
            }
            r.push(VariableKind::Forced { row: cells[k].row, col: cells[k].col, digit, level });
        }
        k = k + 1;
    }
    r
}

/// Whether a literal of `s` holds under `model`, as its first one, the ones in between, or
/// its last ones.
proof fn lemma_any_literal_split(model: spec_fn(int) -> bool, x: int, s: Seq<int>, t: Seq<int>)
    ensures
        any_literal(model, seq![x] + s + t) == (literal_holds(model, x) || any_literal(model, s)
            || any_literal(model, t)),
{
    let all = seq![x] + s + t;
    crate::gate::lemma_any_literal(model, all);
    crate::gate::lemma_any_literal(model, s);
    crate::gate::lemma_any_literal(model, t);
    if any_literal(model, all) {
        let k = choose|k: int| 0 <= k < all.len() && #[trigger] literal_holds(model, all[k]);
        if k == 0 {
        } else if k < 1 + s.len() {
            assert(literal_holds(model, s[k - 1]));
        } else {
            assert(literal_holds(model, t[k - 1 - s.len()]));
        }
    }
    if literal_holds(model, x) {
        assert(literal_holds(model, all[0]));
    }
    if any_literal(model, s) {
        let k = choose|k: int| 0 <= k < s.len() && #[trigger] literal_holds(model, s[k]);
        assert(literal_holds(model, all[1 + k]));
    }
    if any_literal(model, t) {
        let k = choose|k: int| 0 <= k < t.len() && #[trigger] literal_holds(model, t[k]);
        assert(literal_holds(model, all[1 + s.len() + k]));
    }
}

/// Ties `Forced` and `Eliminated` of (`cell`, `digit`) at `level` to the disjunction of their
/// justifications at the level before.
#[verifier::rlimit(100)]
fn add_inference_level(
    f: &mut TaggedVariableFormulaBuilder,
    cell: Cell,
    digit: Digit,
    level: usize,
    allowed: &Inferences,
)
    requires
        old(f).wf(),
        level >= 1,
        old(f).has_room(135int, 140int),
    ensures
        final(f).wf(),
        final(f).extends(&*old(f)),
        final(f).num_vars() <= old(f).num_vars() + 135,
        final(f).clauses().len() <= old(f).clauses().len() + 140,
        level_step_tied(&*final(f), cell.row@, cell.col@, digit@, level as int),
        step_follows_rules(&*final(f), allowed, cell.row@, cell.col@, digit@, level as int),
{
    let prev_level = level - 1;
    let ghost (r, c, d, l) = (cell.row@, cell.col@, digit@, level as int);
    proof {
        lemma_scalars_by_number(cell.row, cell.col, digit);
    }

    // Justifications for forcing or eliminating this placement; each variable is tied to the
    // disjunction of its list.
    let mut forcing_justifications: Vec<Literal> = Vec::new();

    // Forced and eliminated placements carry over from the previous level.
    let forced_before = f.get_variable(
        VariableKind::Forced { row: cell.row, col: cell.col, digit, level: prev_level },
    ).as_positive();
    forcing_justifications.push(forced_before);
    let ghost f_forced_before = *f;
    let eliminated_before = f.get_variable(
        VariableKind::Eliminated { row: cell.row, col: cell.col, digit, level: prev_level },
    ).as_positive();
    let ghost start = *f;
    let ghost fv0 = literal_values(forcing_justifications@);
    assert(fv0 =~= seq![forced_before@]);

    // Naked single: every other digit of the cell is eliminated.
    let ghost mut jn: int = 0;
    let ghost mut f_n = *f;
    if allowed.naked_single {
        let tags = other_tags(0, cell, digit, prev_level);
        let j = add_justification(f, &tags);
        forcing_justifications.push(j);
        proof {
            jn = j@;
            f_n = *f;
        }
    }
    let ghost fv1 = literal_values(forcing_justifications@);
    // Hidden single: every other place for the digit in one of the cell's houses is eliminated.
    let ghost mut jr: int = 0;
    let ghost mut jc: int = 0;
    let ghost mut jb: int = 0;
    let ghost mut f_r = *f;
    let ghost mut f_c = *f;
    let ghost mut f_b = *f;
    if allowed.hidden_single {
        let tags = other_tags(1, cell, digit, prev_level);
        let j = add_justification(f, &tags);
        forcing_justifications.push(j);
        proof {
            jr = j@;
            f_r = *f;
        }
        let tags = other_tags(2, cell, digit, prev_level);
        let j = add_justification(f, &tags);
        forcing_justifications.push(j);
        proof {
            jc = j@;
            f_c = *f;
        }
        let tags = other_box_cells_eliminated(cell, digit, prev_level);
        let j = add_justification(f, &tags);
        forcing_justifications.push(j);
        proof {
            jb = j@;
            f_b = *f;
        }
    }
    let ghost fv = literal_values(forcing_justifications@);
    proof {
        if allowed.naked_single {
            assert(fv1 =~= fv0.push(jn));
        } else {
            assert(fv1 =~= fv0);
        }
        if allowed.hidden_single {
            assert(fv =~= fv1.push(jr).push(jc).push(jb));
            assert(fv1.push(jr).push(jc).push(jb).drop_last() =~= fv1.push(jr).push(jc));
            assert(fv1.push(jr).push(jc).drop_last() =~= fv1.push(jr));
            assert(fv1.push(jr).drop_last() =~= fv1);
        } else {
            assert(fv =~= fv1);
        }
        assert(fv0.drop_last() =~= Seq::<int>::empty());
    }

    // The placement is eliminated by another digit forced in its cell, or by the digit forced in
    // a cell it sees.
    let other_digit_tags = other_tags(3, cell, digit, prev_level);
    let other_digits = literals_of(f, &other_digit_tags);
    let ghost mid = *f;
    let peer_tags = peers_forced(cell, digit, prev_level);
    let peers = literals_of(f, &peer_tags);
    let ghost f_peers = *f;
    assert forall|j: int| 0 <= j < other_digits@.len() implies f.allocated(#[trigger] other_digits@[j]@) by {
        assert(mid.allocated(other_digits@[j]@));
    }
    assert(f.allocated(eliminated_before@));
    let mut eliminating_justifications: Vec<Literal> = Vec::new();
    eliminating_justifications.push(eliminated_before);
    let mut k: usize = 0;
    while k < other_digits.len()
        invariant
            0 <= k <= other_digits@.len(),
            eliminating_justifications@.len() == 1 + k,
            eliminating_justifications@[0] == eliminated_before,
            literal_values(eliminating_justifications@) == seq![eliminated_before@] + literal_values(
                other_digits@,
            ).take(k as int),
            forall|j: int| 0 <= j < other_digits@.len() ==> f.allocated(#[trigger] other_digits@[j]@),
            forall|j: int| 0 <= j < eliminating_justifications@.len() ==> f.allocated(#[trigger] eliminating_justifications@[j]@),
        decreases other_digits@.len() - k,
    {
        let ghost prev = eliminating_justifications@;
        eliminating_justifications.push(other_digits[k]);
        assert(literal_values(eliminating_justifications@) =~= literal_values(prev).push(other_digits@[k as int]@));
        assert(literal_values(other_digits@).take(k + 1) =~= literal_values(other_digits@).take(k as int).push(other_digits@[k as int]@));
        assert(literal_values(eliminating_justifications@) =~= seq![eliminated_before@] + literal_values(
            other_digits@,
        ).take(k + 1));
        k = k + 1;
    }
    assert(literal_values(other_digits@).take(k as int) =~= literal_values(other_digits@));
    let mut k: usize = 0;
    while k < peers.len()
        invariant
            0 <= k <= peers@.len(),
            eliminating_justifications@.len() == 1 + other_digits@.len() + k,
            eliminating_justifications@[0] == eliminated_before,
            literal_values(eliminating_justifications@) == seq![eliminated_before@] + literal_values(
                other_digits@,
            ) + literal_values(peers@).take(k as int),
            forall|j: int| 0 <= j < peers@.len() ==> f.allocated(#[trigger] peers@[j]@),
            forall|j: int| 0 <= j < eliminating_justifications@.len() ==> f.allocated(#[trigger] eliminating_justifications@[j]@),
        decreases peers@.len() - k,
    {
        let ghost prev = eliminating_justifications@;
        eliminating_justifications.push(peers[k]);
        assert(literal_values(eliminating_justifications@) =~= literal_values(prev).push(peers@[k as int]@));
        assert(literal_values(peers@).take(k + 1) =~= literal_values(peers@).take(k as int).push(peers@[k as int]@));
        assert(literal_values(eliminating_justifications@) =~= seq![eliminated_before@] + literal_values(
            other_digits@,
        ) + literal_values(peers@).take(k + 1));
        k = k + 1;
    }
    assert(literal_values(peers@).take(k as int) =~= literal_values(peers@));
    let ghost ev = literal_values(eliminating_justifications@);

    let ghost before_ties = *f;
    let forced_now = f.get_variable(VariableKind::Forced { row: cell.row, col: cell.col, digit, level })
        .as_positive();
    let ghost f_pre_or = *f;
    f.add_logical_or_constraint(forced_now, forcing_justifications.as_slice());
    let ghost before_elim = *f;
    let eliminated_now = f.get_variable(
        VariableKind::Eliminated { row: cell.row, col: cell.col, digit, level },
    ).as_positive();
    let ghost before_last = *f;
    assert forall|j: int| 0 <= j < eliminating_justifications@.len() implies f.allocated(#[trigger] eliminating_justifications@[j]@) by {
        assert(before_ties.allocated(eliminating_justifications@[j]@));
    }
    f.add_logical_or_constraint(eliminated_now, eliminating_justifications.as_slice());
    proof {
        assert(VariableKind::Forced { row: cell.row, col: cell.col, digit, level: prev_level } == forced(r, c, d, l - 1));
        assert(VariableKind::Forced { row: cell.row, col: cell.col, digit, level } == forced(r, c, d, l));
        assert(VariableKind::Eliminated { row: cell.row, col: cell.col, digit, level: prev_level } == eliminated(r, c, d, l - 1));
        assert(VariableKind::Eliminated { row: cell.row, col: cell.col, digit, level } == eliminated(r, c, d, l));
        assert(tagged(&f_forced_before, forced(r, c, d, l - 1)));
        assert(tagged(&start, eliminated(r, c, d, l - 1)));
        lemma_tagged_stable(&f_forced_before, &*f, forced(r, c, d, l - 1));
        lemma_tagged_stable(&start, &*f, eliminated(r, c, d, l - 1));
        lemma_tagged_stable(&f_forced_before, &before_ties, forced(r, c, d, l - 1));
        assert(tagged(&before_elim, forced(r, c, d, l)));
        assert(tagged(&before_last, eliminated(r, c, d, l)));
        lemma_tagged_stable(&before_elim, &*f, forced(r, c, d, l));
        lemma_tagged_stable(&before_last, &*f, eliminated(r, c, d, l));
        let fb = forced_before@;
        let eb = eliminated_before@;
        assert(forcing_justifications@[0] == forced_before);
        let nt = before_ties.clauses().len() as int;
        let nl = before_last.clauses().len() as int;
        assert(before_elim.clauses()[nt] =~= seq![-fb, forced_now@]);
        assert(f.clauses()[nl] =~= seq![-eb, eliminated_now@]);
        assert(has_clause(&before_elim, seq![-fb, forced_now@]));
        lemma_has_clause_stable(&before_elim, &*f, seq![-fb, forced_now@]);
        assert(has_clause(&*f, seq![-eb, eliminated_now@]));

        // The tags the rules read are all tagged.
        if allowed.naked_single {
            lemma_holds_stable(&f_n, &*f, |x: int| true, other_tags_of(0, r, c, d, l - 1));
        }
        if allowed.hidden_single {
            lemma_holds_stable(&f_r, &*f, |x: int| true, other_tags_of(1, r, c, d, l - 1));
            lemma_holds_stable(&f_c, &*f, |x: int| true, other_tags_of(2, r, c, d, l - 1));
            lemma_holds_stable(&f_b, &*f, |x: int| true, box_others(r, c, d, l - 1, 9));
        }
        let od_tags = other_tags_of(3, r, c, d, l - 1);
        let pr_tags = peers_of(r, c, d, l - 1, 81);
        assert(all_tagged(&mid, od_tags));
        assert(all_tagged(&f_peers, pr_tags));
        lemma_holds_stable(&mid, &*f, |x: int| true, od_tags);
        lemma_holds_stable(&f_peers, &*f, |x: int| true, pr_tags);

        assert forall|k: int| 0 <= k < od_tags.len() implies #[trigger] literal_values(other_digits@)[k] == mid.tag_var(od_tags[k])
            && literal_values(other_digits@)[k] >= 1 by {
            assert(mid.has_tag(other_digit_tags@[k]));
        }
        assert forall|k: int| 0 <= k < pr_tags.len() implies #[trigger] literal_values(peers@)[k] == f_peers.tag_var(pr_tags[k])
            && literal_values(peers@)[k] >= 1 by {
            assert(f_peers.has_tag(peer_tags@[k]));
        }
        assert forall|m: spec_fn(int) -> bool| #[trigger] formula_holds(m, f.clauses()) implies elimination_rule(m, &*f, r, c, d, l) by {
            lemma_models_of_suffix(before_last.clauses(), or_clauses(eliminated_now@, ev), m);
            crate::gate::lemma_or_gate(m, eliminated_now@, ev);
            lemma_any_literal_split(m, eb, literal_values(other_digits@), literal_values(peers@));
            lemma_literals_of_tags(m, &mid, literal_values(other_digits@), od_tags);
            lemma_literals_of_tags(m, &f_peers, literal_values(peers@), pr_tags);
            lemma_holds_stable(&mid, &*f, m, od_tags);
            lemma_holds_stable(&f_peers, &*f, m, pr_tags);
        }
        assert forall|m: spec_fn(int) -> bool| #[trigger] formula_holds(m, f.clauses()) implies forcing_rule(m, &*f, allowed, r, c, d, l) by {
            lemma_models_of_extension(&before_elim, &*f, m);
            lemma_models_of_suffix(f_pre_or.clauses(), or_clauses(forced_now@, fv), m);
            crate::gate::lemma_or_gate(m, forced_now@, fv);
            crate::gate::lemma_any_literal_push(m, Seq::<int>::empty(), fb);
            assert(Seq::<int>::empty().push(fb) =~= fv0);
            crate::gate::lemma_any_literal_push(m, fv0, jn);
            crate::gate::lemma_any_literal_push(m, fv1, jr);
            crate::gate::lemma_any_literal_push(m, fv1.push(jr), jc);
            crate::gate::lemma_any_literal_push(m, fv1.push(jr).push(jc), jb);
            if allowed.naked_single {
                lemma_models_of_extension(&f_n, &*f, m);
                lemma_holds_stable(&f_n, &*f, m, other_tags_of(0, r, c, d, l - 1));
            }
            if allowed.hidden_single {
                lemma_models_of_extension(&f_r, &*f, m);
                lemma_holds_stable(&f_r, &*f, m, other_tags_of(1, r, c, d, l - 1));
                lemma_models_of_extension(&f_c, &*f, m);
                lemma_holds_stable(&f_c, &*f, m, other_tags_of(2, r, c, d, l - 1));
                lemma_models_of_extension(&f_b, &*f, m);
                lemma_holds_stable(&f_b, &*f, m, box_others(r, c, d, l - 1, 9));
            }
        }
    }
}

/// The inference circuit for levels `1..levels`, for every cell and digit.
fn add_inference_levels(f: &mut TaggedVariableFormulaBuilder, levels: usize, allowed: &Inferences)
    requires
        old(f).wf(),
        1 <= levels <= MAX_INFERENCE_LEVELS,
        old(f).has_room(729 * 135 * (levels - 1), 729 * 140 * (levels - 1)),
    ensures
        final(f).wf(),
        final(f).extends(&*old(f)),
        final(f).num_vars() <= old(f).num_vars() + 729 * 135 * (levels - 1),
        final(f).clauses().len() <= old(f).clauses().len() + 729 * 140 * (levels - 1),
        forall|r: int, c: int, d: int, l: int|
            in_grid(r, c, d) && 1 <= l < levels ==> #[trigger] level_step_tied(&*final(f), r, c, d, l),
        forall|r: int, c: int, d: int, l: int|
            in_grid(r, c, d) && 1 <= l < levels ==> #[trigger] step_follows_rules(&*final(f), allowed, r, c, d, l),
{
    let cells = Cell::values();
    let digits = Digit::values();
    let ghost per_v: int = 135 * (levels - 1);
    let ghost per_c: int = 140 * (levels - 1);
    assert(729 * per_v == 729 * 135 * (levels - 1)) by (nonlinear_arith)
        requires
            per_v == 135 * (levels - 1),
    ;
    assert(729 * per_c == 729 * 140 * (levels - 1)) by (nonlinear_arith)
        requires
            per_c == 140 * (levels - 1),
    ;
    let mut idx: usize = 0;
    while idx < 729
        invariant
            0 <= idx <= 729,
            cells@.len() == 81,
            forall|k: int|
                #![trigger cells@[k]]
                0 <= k < 81 ==> cells@[k].row@ == k / 9 + 1 && cells@[k].col@ == k % 9 + 1,
            digits@.len() == 9,
            forall|k: int| 0 <= k < 9 ==> #[trigger] digits@[k]@ == k + 1,
            forall|r: int, c: int, d: int, l: int|
                in_grid(r, c, d) && 1 <= l < levels && ((r - 1) * 9 + (c - 1)) * 9 + (d - 1) < idx
                    ==> #[trigger] level_step_tied(&*f, r, c, d, l),
            forall|r: int, c: int, d: int, l: int|
                in_grid(r, c, d) && 1 <= l < levels && ((r - 1) * 9 + (c - 1)) * 9 + (d - 1) < idx
                    ==> #[trigger] step_follows_rules(&*f, allowed, r, c, d, l),
            1 <= levels <= MAX_INFERENCE_LEVELS,
            per_v == 135 * (levels - 1),
            per_c == 140 * (levels - 1),
            f.wf(),
            f.extends(&*old(f)),
            f.num_vars() <= old(f).num_vars() + idx * per_v,
            f.clauses().len() <= old(f).clauses().len() + idx * per_c,
            old(f).has_room(729 * per_v, 729 * per_c),
        decreases 729 - idx,
    {
        let cell = cells[idx / 9];
        let digit = digits[idx % 9];
        let mut level: usize = 1;
        while level < levels
            invariant
                0 <= idx < 729,
                cell.row@ == idx / 9 / 9 + 1,
                cell.col@ == idx / 9 % 9 + 1,
                digit@ == idx % 9 + 1,
                forall|r: int, c: int, d: int, l: int|
                    in_grid(r, c, d) && 1 <= l < levels && (((r - 1) * 9 + (c - 1)) * 9 + (d - 1) < idx
                        || (((r - 1) * 9 + (c - 1)) * 9 + (d - 1) == idx && l < level))
                        ==> #[trigger] level_step_tied(&*f, r, c, d, l),
                forall|r: int, c: int, d: int, l: int|
                    in_grid(r, c, d) && 1 <= l < levels && (((r - 1) * 9 + (c - 1)) * 9 + (d - 1) < idx
                        || (((r - 1) * 9 + (c - 1)) * 9 + (d - 1) == idx && l < level))
                        ==> #[trigger] step_follows_rules(&*f, allowed, r, c, d, l),
                1 <= level <= levels,
                levels <= MAX_INFERENCE_LEVELS,
                per_v == 135 * (levels - 1),
                per_c == 140 * (levels - 1),
                f.wf(),
                f.extends(&*old(f)),
                f.num_vars() <= old(f).num_vars() + idx * per_v + (level - 1) * 135,
                f.clauses().len() <= old(f).clauses().len() + idx * per_c + (level - 1) * 140,
                old(f).has_room(729 * per_v, 729 * per_c),
            decreases levels - level,
        {
            proof {
                assert(idx * per_v + level * 135 <= 729 * per_v) by (nonlinear_arith)
                    requires
                        idx < 729,
                        level <= levels - 1,
                        per_v == 135 * (levels - 1),
                ;
                assert(idx * per_c + level * 140 <= 729 * per_c) by (nonlinear_arith)
                    requires
                        idx < 729,
                        level <= levels - 1,
                        per_c == 140 * (levels - 1),
                ;
            }
            let ghost before = *f;
            add_inference_level(f, cell, digit, level, allowed);
            proof {
                assert forall|r: int, c: int, d: int, l: int|
                    in_grid(r, c, d) && 1 <= l < levels && (((r - 1) * 9 + (c - 1)) * 9 + (d - 1) < idx
                        || (((r - 1) * 9 + (c - 1)) * 9 + (d - 1) == idx && l < level + 1))
                        implies #[trigger] level_step_tied(&*f, r, c, d, l) by {
                    if r == cell.row@ && c == cell.col@ && d == digit@ && l == level {
                    } else {
                        lemma_level_step_stable(&before, &*f, r, c, d, l);
                    }
                }
                assert forall|r: int, c: int, d: int, l: int|
                    in_grid(r, c, d) && 1 <= l < levels && (((r - 1) * 9 + (c - 1)) * 9 + (d - 1) < idx
                        || (((r - 1) * 9 + (c - 1)) * 9 + (d - 1) == idx && l < level + 1))
                        implies #[trigger] step_follows_rules(&*f, allowed, r, c, d, l) by {
                    if r == cell.row@ && c == cell.col@ && d == digit@ && l == level {
                    } else {
                        lemma_step_follows_rules_stable(&before, &*f, allowed, r, c, d, l);
                    }
                }
            }
            level = level + 1;
        }
        proof {
            assert((idx + 1) * per_v == idx * per_v + per_v) by (nonlinear_arith);
            assert((idx + 1) * per_c == idx * per_c + per_c) by (nonlinear_arith);
        }
        idx = idx + 1;
    }
}

/// What the formula of `params` states: exactly one digit per cell and one place per digit in
/// each house, the number of givens, level 0 tied to the givens, each level carried to the next
/// and derived from the one before by the allowed rules, and the last level tied to the
/// solution.
pub open spec fn encodes(f: &TaggedVariableFormulaBuilder, params: &Parameters) -> bool {
    let last = params.inference_levels - 1;
    &&& f.wf()
    &&& forall|family: int, i: int, j: int|
        0 <= family < 4 && 0 <= i < 9 && 0 <= j < 9 ==> #[trigger] exactly_one_tied(
            f,
            house(family, i, j),
        )
    &&& forall|r: int, c: int, d: int| in_grid(r, c, d) ==> #[trigger] level_zero_tied(f, r, c, d)
    &&& forall|r: int, c: int, d: int, l: int|
        in_grid(r, c, d) && 1 <= l < params.inference_levels ==> #[trigger] level_step_tied(
            f,
            r,
            c,
            d,
            l,
        )
    &&& forall|r: int, c: int, d: int|
        in_grid(r, c, d) ==> #[trigger] last_level_tied(f, r, c, d, last)
    &&& givens_counted(f, params.givens)
    &&& forall|r: int, c: int, d: int, l: int|
        in_grid(r, c, d) && 1 <= l < params.inference_levels ==> #[trigger] step_follows_rules(
            f,
            &params.allowed_inferences,
            r,
            c,
            d,
            l,
        )
}

/// The CNF formula whose models are the puzzles with `params.givens` givens (mod 128), with
/// their solutions, that the allowed inferences solve within `params.inference_levels` levels.
pub fn encode_problem(params: &Parameters) -> (f: TaggedVariableFormulaBuilder)
    requires
        1 <= params.inference_levels <= MAX_INFERENCE_LEVELS,
    ensures
        encodes(&f, params),
{
    let levels = params.inference_levels;
    let mut formula = TaggedVariableFormulaBuilder::new();
    add_placement_constraints(&mut formula);
    let ghost f1 = formula;
    add_given_count(&mut formula, params.givens);
    let ghost f1b = formula;
    add_level_zero(&mut formula);
    let ghost f2 = formula;
    proof {
        assert(729 * 135 * (levels - 1) <= 729 * 135 * 19999) by (nonlinear_arith)
            requires
                levels <= 20000,
        ;
        assert(729 * 140 * (levels - 1) <= 729 * 140 * 19999) by (nonlinear_arith)
            requires
                levels <= 20000,
        ;
    }
    add_inference_levels(&mut formula, levels, &params.allowed_inferences);
    let ghost f3 = formula;
    add_terminal_tie(&mut formula, levels - 1);
    proof {
        let f = &formula;
        lemma_givens_counted_stable(&f1b, f, params.givens);
        assert forall|family: int, i: int, j: int|
            0 <= family < 4 && 0 <= i < 9 && 0 <= j < 9 implies #[trigger] exactly_one_tied(
                f,
                house(family, i, j),
            ) by {
            lemma_exactly_one_stable(&f1, f, house(family, i, j));
        }
        assert forall|r: int, c: int, d: int| in_grid(r, c, d) implies #[trigger] level_zero_tied(f, r, c, d) by {
            lemma_level_zero_stable(&f2, f, r, c, d);
        }
        assert forall|r: int, c: int, d: int, l: int|
            in_grid(r, c, d) && 1 <= l < params.inference_levels implies #[trigger] level_step_tied(
                f,
                r,
                c,
                d,
                l,
            ) by {
            lemma_level_step_stable(&f3, f, r, c, d, l);
        }
        assert forall|r: int, c: int, d: int, l: int|
            in_grid(r, c, d) && 1 <= l < params.inference_levels implies #[trigger] step_follows_rules(
                f,
                &params.allowed_inferences,
                r,
                c,
                d,
                l,
            ) by {
            lemma_step_follows_rules_stable(&f3, f, &params.allowed_inferences, r, c, d, l);
        }
    }
    formula
}

/// Writes the formula of `params` to `out` in DIMACS form and returns its tagged variables, so
/// that a solver's assignment can be read back as a puzzle.
pub fn build_formula(out: &mut Vec<u8>, params: &Parameters) -> (r: Vec<(VariableKind, Variable)>)
    requires
        1 <= params.inference_levels <= MAX_INFERENCE_LEVELS,
    ensures
        exists|f: TaggedVariableFormulaBuilder|
            #![trigger encodes(&f, params)]
            encodes(&f, params) && final(out)@ == old(out)@ + crate::formula_builder::dimacs_text(
                f.num_vars() as nat,
                f.clauses(),
            ) && (forall|i: int|
                0 <= i < r@.len() ==> f.tags().contains_key(crate::sudoku::tag_key(#[trigger] r@[i].0))
                    && f.tags()[crate::sudoku::tag_key(r@[i].0)] == r@[i].1) && (forall|k: u128|
                #[trigger] f.tags().contains_key(k) ==> exists|i: int|
                    0 <= i < r@.len() && crate::sudoku::tag_key(#[trigger] r@[i].0) == k),
{
    let formula = encode_problem(params);
    formula.write_dimacs(out);
    let ghost g = formula;
    let r = formula.into_tagged_variables();
    assert(encodes(&g, params));
    r
}

} // verus!
