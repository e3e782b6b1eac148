use vstd::prelude::*;

use crate::emit_problem::{
    count_true, elimination_rule, eliminated, encodes, forcing_rule, given_variables, exactly_one_tied, forced, given, has_clause, house, in_grid,
    placed, Parameters,
};
use crate::formula_builder::{clause_holds, formula_holds, literal_holds, TaggedVariableFormulaBuilder};
use crate::sudoku::VariableKind;

verus! {

/// Whether the variable of tag `t` is true under `model`.
pub open spec fn holds(model: spec_fn(int) -> bool, f: &TaggedVariableFormulaBuilder, t: VariableKind) -> bool {
    model(f.tag_var(t))
}

/// Whether exactly one of the variables of `tags` is true under `model`: their sum is 1.
pub open spec fn exactly_one_holds(
    model: spec_fn(int) -> bool,
    f: &TaggedVariableFormulaBuilder,
    tags: Seq<VariableKind>,
) -> bool {
    exists|i: int|
        0 <= i < tags.len() && #[trigger] holds(model, f, tags[i]) && forall|j: int|
            0 <= j < tags.len() && j != i ==> !#[trigger] holds(model, f, tags[j])
}

proof fn lemma_model_has_clause(model: spec_fn(int) -> bool, f: &TaggedVariableFormulaBuilder, c: Seq<int>)
    requires
        formula_holds(model, f.clauses()),
        has_clause(f, c),
    ensures
        clause_holds(model, c),
{
    let j = choose|j: int| 0 <= j < f.clauses().len() && #[trigger] f.clauses()[j] == c;
    assert(clause_holds(model, f.clauses()[j]));
}

/// In a model of a formula that requires exactly one of `tags`, exactly one of them holds.
pub proof fn lemma_exactly_one(model: spec_fn(int) -> bool, f: &TaggedVariableFormulaBuilder, tags: Seq<VariableKind>)
    requires
        exactly_one_tied(f, tags),
        formula_holds(model, f.clauses()),
    ensures
        exactly_one_holds(model, f, tags),
{
    let w = tags.map_values(|t: VariableKind| f.tag_var(t));
    lemma_model_has_clause(model, f, w);
    let i = choose|i: int| 0 <= i < w.len() && #[trigger] literal_holds(model, w[i]);
    assert(f.tag_var(tags[i]) >= 1);
    assert(holds(model, f, tags[i]));
    assert forall|j: int| 0 <= j < tags.len() && j != i implies !#[trigger] holds(model, f, tags[j]) by {
        assert(f.tag_var(tags[j]) >= 1);
        if i < j {
            lemma_model_has_clause(model, f, seq![-f.tag_var(tags[i]), -f.tag_var(tags[j])]);
            crate::formula_builder::lemma_clause_of_two(model, -f.tag_var(tags[i]), -f.tag_var(tags[j]));
        } else {
            lemma_model_has_clause(model, f, seq![-f.tag_var(tags[j]), -f.tag_var(tags[i])]);
            crate::formula_builder::lemma_clause_of_two(model, -f.tag_var(tags[j]), -f.tag_var(tags[i]));
        }
    }
}

/// In every model of the formula each cell holds exactly one digit: of the nine `Placed`
/// variables of the cell at row `r`, column `c`, exactly one is true.
pub proof fn lemma_one_digit_per_cell(
    params: &Parameters,
    f: &TaggedVariableFormulaBuilder,
    model: spec_fn(int) -> bool,
    r: int,
    c: int,
)
    requires
        encodes(f, params),
        formula_holds(model, f.clauses()),
        1 <= r <= 9,
        1 <= c <= 9,
    ensures
        exactly_one_holds(model, f, Seq::new(9, |d: int| placed(r, c, d + 1))),
{
    assert(exactly_one_tied(f, house(0, r - 1, c - 1)));
    assert(house(0, r - 1, c - 1) =~= Seq::new(9, |d: int| placed(r, c, d + 1)));
    lemma_exactly_one(model, f, house(0, r - 1, c - 1));
}

/// In every model of the formula each digit `d` takes exactly one place in row `r`, in column
/// `r`, and in box `r`.
pub proof fn lemma_one_place_per_house(
    params: &Parameters,
    f: &TaggedVariableFormulaBuilder,
    model: spec_fn(int) -> bool,
    r: int,
    d: int,
)
    requires
        encodes(f, params),
        formula_holds(model, f.clauses()),
        1 <= r <= 9,
        1 <= d <= 9,
    ensures
        exactly_one_holds(model, f, Seq::new(9, |c: int| placed(r, c + 1, d))),
        exactly_one_holds(model, f, Seq::new(9, |k: int| placed(k + 1, r, d))),
        exactly_one_holds(
            model,
            f,
            Seq::new(
                9,
                |k: int|
                    placed(
                        crate::sudoku::box_base_row(r) + k / 3,
                        crate::sudoku::box_base_col(r) + k % 3,
                        d,
                    ),
            ),
        ),
{
    assert(exactly_one_tied(f, house(1, r - 1, d - 1)));
    assert(exactly_one_tied(f, house(2, r - 1, d - 1)));
    assert(exactly_one_tied(f, house(3, r - 1, d - 1)));
    assert(house(1, r - 1, d - 1) =~= Seq::new(9, |c: int| placed(r, c + 1, d)));
    assert(house(2, r - 1, d - 1) =~= Seq::new(9, |k: int| placed(k + 1, r, d)));
    assert(house(3, r - 1, d - 1) =~= Seq::new(
        9,
        |k: int|
            placed(crate::sudoku::box_base_row(r) + k / 3, crate::sudoku::box_base_col(r) + k % 3, d),
    ));
    lemma_exactly_one(model, f, house(1, r - 1, d - 1));
    lemma_exactly_one(model, f, house(2, r - 1, d - 1));
    lemma_exactly_one(model, f, house(3, r - 1, d - 1));
}

/// In every model of the formula, at level 0 a placement is forced exactly when it holds and its
/// cell is given, and no placement is eliminated.
pub proof fn lemma_level_zero(
    params: &Parameters,
    f: &TaggedVariableFormulaBuilder,
    model: spec_fn(int) -> bool,
    r: int,
    c: int,
    d: int,
)
    requires
        encodes(f, params),
        formula_holds(model, f.clauses()),
        in_grid(r, c, d),
    ensures
        holds(model, f, forced(r, c, d, 0)) == (holds(model, f, placed(r, c, d)) && holds(
            model,
            f,
            given(r, c),
        )),
        !holds(model, f, eliminated(r, c, d, 0)),
{
    let p = f.tag_var(placed(r, c, d));
    let g = f.tag_var(given(r, c));
    let x = f.tag_var(forced(r, c, d, 0));
    let e = f.tag_var(eliminated(r, c, d, 0));
    assert(crate::emit_problem::level_zero_tied(f, r, c, d));
    lemma_model_has_clause(model, f, seq![-x, p]);
    lemma_model_has_clause(model, f, seq![-x, g]);
    lemma_model_has_clause(model, f, seq![-p, -g, x]);
    lemma_model_has_clause(model, f, seq![-e]);
    crate::formula_builder::lemma_clause_of_two(model, -x, p);
    crate::formula_builder::lemma_clause_of_two(model, -x, g);
    crate::formula_builder::lemma_clause_of_three(model, -p, -g, x);
    crate::formula_builder::lemma_clause_of_one(model, -e);
}

/// In every model of the formula the last level has reached the solution: a placement is forced
/// at level `L - 1` exactly when it holds, and eliminated exactly when it does not.
pub proof fn lemma_last_level(
    params: &Parameters,
    f: &TaggedVariableFormulaBuilder,
    model: spec_fn(int) -> bool,
    r: int,
    c: int,
    d: int,
)
    requires
        encodes(f, params),
        formula_holds(model, f.clauses()),
        in_grid(r, c, d),
    ensures
        holds(model, f, forced(r, c, d, params.inference_levels - 1)) == holds(model, f, placed(r, c, d)),
        holds(model, f, eliminated(r, c, d, params.inference_levels - 1)) == !holds(
            model,
            f,
            placed(r, c, d),
        ),
{
    let l = params.inference_levels - 1;
    let p = f.tag_var(placed(r, c, d));
    let x = f.tag_var(forced(r, c, d, l));
    let e = f.tag_var(eliminated(r, c, d, l));
    assert(crate::emit_problem::last_level_tied(f, r, c, d, l));
    lemma_model_has_clause(model, f, seq![-x, p]);
    lemma_model_has_clause(model, f, seq![x, -p]);
    lemma_model_has_clause(model, f, seq![-e, -p]);
    lemma_model_has_clause(model, f, seq![e, p]);
    crate::formula_builder::lemma_clause_of_two(model, -x, p);
    crate::formula_builder::lemma_clause_of_two(model, x, -p);
    crate::formula_builder::lemma_clause_of_two(model, -e, -p);
    crate::formula_builder::lemma_clause_of_two(model, e, p);
}

/// In every model of the formula inference is monotone: what is forced at a level is forced at
/// the next, and what is eliminated at a level is eliminated at the next.
pub proof fn lemma_monotone(
    params: &Parameters,
    f: &TaggedVariableFormulaBuilder,
    model: spec_fn(int) -> bool,
    r: int,
    c: int,
    d: int,
    l: int,
)
    requires
        encodes(f, params),
        formula_holds(model, f.clauses()),
        in_grid(r, c, d),
        0 <= l <= params.inference_levels - 2,
    ensures
        holds(model, f, forced(r, c, d, l)) ==> holds(model, f, forced(r, c, d, l + 1)),
        holds(model, f, eliminated(r, c, d, l)) ==> holds(model, f, eliminated(r, c, d, l + 1)),
{
    assert(crate::emit_problem::level_step_tied(f, r, c, d, l + 1));
    let x0 = f.tag_var(forced(r, c, d, l));
    let x1 = f.tag_var(forced(r, c, d, l + 1));
    let e0 = f.tag_var(eliminated(r, c, d, l));
    let e1 = f.tag_var(eliminated(r, c, d, l + 1));
    assert(l + 1 - 1 == l);
    lemma_model_has_clause(model, f, seq![-x0, x1]);
    lemma_model_has_clause(model, f, seq![-e0, e1]);
    crate::formula_builder::lemma_clause_of_two(model, -x0, x1);
    crate::formula_builder::lemma_clause_of_two(model, -e0, e1);
}

/// With one inference level the formula has no model: nothing is eliminated at level 0, yet the
/// last level, which is level 0, must eliminate every digit a cell does not hold.
pub proof fn lemma_no_model_at_depth_one(
    params: &Parameters,
    f: &TaggedVariableFormulaBuilder,
    model: spec_fn(int) -> bool,
)
    requires
        encodes(f, params),
        params.inference_levels == 1,
    ensures
        !formula_holds(model, f.clauses()),
{
    if formula_holds(model, f.clauses()) {
        lemma_level_zero(params, f, model, 1, 1, 1);
        lemma_level_zero(params, f, model, 1, 1, 2);
        lemma_last_level(params, f, model, 1, 1, 1);
        lemma_last_level(params, f, model, 1, 1, 2);
        lemma_one_digit_per_cell(params, f, model, 1, 1);
        let tags = Seq::new(9, |d: int| placed(1, 1, d + 1));
        let i = choose|i: int|
            0 <= i < tags.len() && #[trigger] holds(model, f, tags[i]) && forall|j: int|
                0 <= j < tags.len() && j != i ==> !#[trigger] holds(model, f, tags[j]);
        assert(tags[0] == placed(1, 1, 1));
        assert(tags[1] == placed(1, 1, 2));
        if i == 0 {
            assert(!holds(model, f, tags[1]));
        } else {
            assert(!holds(model, f, tags[0]));
        }
    }
}

/// In every model of the formula the number of given cells is `givens` modulo 128: the seven
/// low bits of the parameter.
pub proof fn lemma_given_count(
    params: &Parameters,
    f: &TaggedVariableFormulaBuilder,
    model: spec_fn(int) -> bool,
)
    requires
        encodes(f, params),
        formula_holds(model, f.clauses()),
    ensures
        count_true(model, given_variables(f)) == params.givens as int % 128,
{
}

/// In every model of the formula each level follows from the one before by the allowed rules:
/// a placement is forced when it was forced already, or by a naked or hidden single if allowed,
/// and eliminated when it was eliminated already, or another digit was forced in its cell, or
/// its digit was forced in a cell it sees; and in no other case.
pub proof fn lemma_inference_step(
    params: &Parameters,
    f: &TaggedVariableFormulaBuilder,
    model: spec_fn(int) -> bool,
    r: int,
    c: int,
    d: int,
    l: int,
)
    requires
        encodes(f, params),
        formula_holds(model, f.clauses()),
        in_grid(r, c, d),
        1 <= l < params.inference_levels,
    ensures
        forcing_rule(model, f, &params.allowed_inferences, r, c, d, l),
        elimination_rule(model, f, r, c, d, l),
{
    assert(crate::emit_problem::step_follows_rules(f, &params.allowed_inferences, r, c, d, l));
}

} // verus!
