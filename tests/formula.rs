use sudoku_sat::bit_vector::BitVector;
use sudoku_sat::emit_problem::{build_formula, encode_problem, Inferences, Parameters};
use sudoku_sat::formula_builder::TaggedVariableFormulaBuilder;
use sudoku_sat::literal::Literal;
use sudoku_sat::sudoku::VariableKind;

/// The header numbers and the clauses of a DIMACS text.
fn parse_dimacs(text: &[u8]) -> (usize, usize, Vec<Vec<i32>>) {
    let text = std::str::from_utf8(text).unwrap();
    assert!(text.ends_with('\n'));
    let mut lines = text.lines();
    let header: Vec<&str> = lines.next().unwrap().split(' ').collect();
    assert_eq!(4, header.len());
    assert_eq!("p", header[0]);
    assert_eq!("cnf", header[1]);
    let v: usize = header[2].parse().unwrap();
    let c: usize = header[3].parse().unwrap();
    let mut clauses = Vec::new();
    for line in lines {
        let nums: Vec<i32> = line.split(' ').map(|s| s.parse().unwrap()).collect();
        assert_eq!(Some(&0), nums.last());
        clauses.push(nums[..nums.len() - 1].to_vec());
    }
    (v, c, clauses)
}

fn holds(clauses: &[Vec<i32>], model: &[bool]) -> bool {
    clauses
        .iter()
        .all(|c| c.iter().any(|&l| if l > 0 { model[l as usize] } else { !model[(-l) as usize] }))
}

fn satisfiable(v: usize, clauses: &[Vec<i32>]) -> bool {
    (0..1u32 << v).any(|bits| {
        let model: Vec<bool> = (0..=v).map(|i| i > 0 && bits >> (i - 1) & 1 == 1).collect();
        holds(clauses, &model)
    })
}

fn lit(i: i32) -> Literal {
    Literal::from_index(i).unwrap()
}

#[test]
fn dimacs_layout() {
    let mut f = TaggedVariableFormulaBuilder::new();
    let a = f.new_variable().as_positive();
    let b = f.new_variable().as_positive();
    let c = f.new_variable().as_positive();
    f.add_clause(vec![a, b.negated(), c]);
    f.add_clause(vec![c.negated()]);
    f.add_binary_clause(a, b);
    let mut out = Vec::new();
    f.write_dimacs(&mut out);
    assert_eq!("p cnf 3 3\n-3 0\n1 2 0\n1 -2 3 0\n", String::from_utf8(out).unwrap());
    assert_eq!(3, f.variable_count());
    assert_eq!(3, f.clause_count());
}

#[test]
fn and_gate_semantics() {
    let mut f = TaggedVariableFormulaBuilder::new();
    let a = f.new_variable().as_positive();
    let b = f.new_variable().as_positive();
    let out = f.new_variable().as_positive();
    f.add_logical_and_constraint(out, &[a, b]);
    let mut text = Vec::new();
    f.write_dimacs(&mut text);
    let (v, _, gate) = parse_dimacs(&text);
    let with = |units: &[i32]| {
        let mut cs = gate.clone();
        cs.extend(units.iter().map(|&u| vec![u]));
        satisfiable(v, &cs)
    };
    assert!(with(&[1, 2, 3]));
    assert!(!with(&[1, 2, -3]));
    assert!(!with(&[-1, 2, 3]));
    assert!(!with(&[1, -2, 3]));
    assert!(with(&[-1, 2, -3]));
}

#[test]
fn or_and_xor_gate_clauses() {
    let mut f = TaggedVariableFormulaBuilder::new();
    for _ in 0..3 {
        f.new_variable();
    }
    f.add_logical_or_constraint(lit(3), &[lit(1), lit(2)]);
    f.add_logical_xor_constraint(lit(3), lit(1), lit(2));
    f.add_logical_equivalence_constraint(lit(1), lit(-2));
    let mut text = Vec::new();
    f.write_dimacs(&mut text);
    assert_eq!(
        "p cnf 3 9\n-1 3 0\n-2 3 0\n-1 -2 0\n1 2 0\n-3 1 2 0\n1 2 -3 0\n1 -2 3 0\n-1 2 3 0\n-1 -2 -3 0\n",
        String::from_utf8(text).unwrap()
    );
}

#[test]
fn xor_gate_semantics() {
    let mut f = TaggedVariableFormulaBuilder::new();
    for _ in 0..3 {
        f.new_variable();
    }
    f.add_logical_xor_constraint(lit(3), lit(1), lit(2));
    let mut text = Vec::new();
    f.write_dimacs(&mut text);
    let (v, _, cs) = parse_dimacs(&text);
    for bits in 0..8u32 {
        let model: Vec<bool> = (0..=v).map(|i| i > 0 && bits >> (i - 1) & 1 == 1).collect();
        assert_eq!(model[3] == (model[1] != model[2]), holds(&cs, &model));
    }
}

#[test]
fn at_most_one_pairs() {
    let mut f = TaggedVariableFormulaBuilder::new();
    let ls: Vec<Literal> = (0..4).map(|_| f.new_variable().as_positive()).collect();
    f.add_at_most_one_of_constraint(&ls);
    assert_eq!(6, f.clause_count());
    let mut text = Vec::new();
    f.write_dimacs(&mut text);
    assert_eq!(
        "p cnf 4 6\n-1 -2 0\n-1 -3 0\n-1 -4 0\n-2 -3 0\n-2 -4 0\n-3 -4 0\n",
        String::from_utf8(text).unwrap()
    );
}

#[test]
fn full_adder_semantics() {
    let mut f = TaggedVariableFormulaBuilder::new();
    let ls: Vec<Literal> = (0..5).map(|_| f.new_variable().as_positive()).collect();
    f.add_full_adder_constraint(ls[0], ls[1], ls[2], ls[3], ls[4]);
    assert_eq!(8, f.variable_count());
    let mut text = Vec::new();
    f.write_dimacs(&mut text);
    let (v, _, cs) = parse_dimacs(&text);
    for inputs in 0..8u32 {
        let units: Vec<Vec<i32>> =
            (0..3).map(|i| if inputs >> i & 1 == 1 { vec![i + 1] } else { vec![-(i + 1)] }).collect();
        let total = inputs.count_ones();
        let mut expect = cs.clone();
        expect.extend(units.clone());
        expect.push(vec![if total & 1 == 1 { 4 } else { -4 }]);
        expect.push(vec![if total >= 2 { 5 } else { -5 }]);
        assert!(satisfiable(v, &expect));
        let mut wrong = cs.clone();
        wrong.extend(units);
        wrong.push(vec![if total & 1 == 1 { -4 } else { 4 }]);
        assert!(!satisfiable(v, &wrong));
    }
}

#[test]
fn add_tree_of_81_bits() {
    let mut f = TaggedVariableFormulaBuilder::new();
    let vs: Vec<BitVector> =
        (0..81).map(|_| BitVector::from_literal(f.new_variable().as_positive())).collect();
    let sum = BitVector::add_tree(&mut f, vs);
    assert_eq!(0..82, sum.range());
    assert_eq!(7, sum.len());
    assert_eq!(7, sum.bits().len());
}

#[test]
fn three_bit_sum_width() {
    let mut f = TaggedVariableFormulaBuilder::new();
    let mut seven = || -> Vec<BitVector> {
        (0..7).map(|_| BitVector::from_literal(f.new_variable().as_positive())).collect()
    };
    let a_parts = seven();
    let b_parts = seven();
    let a = BitVector::add_tree(&mut f, a_parts);
    let b = BitVector::add_tree(&mut f, b_parts);
    assert_eq!(0..8, a.range());
    assert_eq!(3, a.len());
    let c = BitVector::add(&mut f, &a, &b);
    assert_eq!(0..15, c.range());
    assert_eq!(4, c.len());
}

#[test]
fn one_bit_sum() {
    let mut f = TaggedVariableFormulaBuilder::new();
    let a = BitVector::from_literal(f.new_variable().as_positive());
    let b = BitVector::from_literal(f.new_variable().as_positive());
    let c = BitVector::add(&mut f, &a, &b);
    assert_eq!(0..3, c.range());
    assert_eq!(2, c.len());
    // One half adder: its sum and carry.
    assert_eq!(4, f.variable_count());
    assert_eq!(7, f.clause_count());
}

#[test]
fn tagged_variables_are_stable() {
    let mut f = TaggedVariableFormulaBuilder::new();
    let cell = sudoku_sat::sudoku::Cell::values()[10];
    let t = VariableKind::Given { row: cell.row, col: cell.col };
    let v = f.get_variable(t);
    let anon = f.new_variable();
    assert_eq!(v, f.get_variable(t));
    assert_ne!(v, anon);
    assert_eq!(2, f.variable_count());
    assert_eq!(1, f.tagged_variables().len());
    assert_eq!(vec![(t, v)], f.into_tagged_variables());
}

fn params(givens: usize, levels: usize, naked: bool, hidden: bool) -> Parameters {
    Parameters {
        givens,
        inference_levels: levels,
        allowed_inferences: Inferences { naked_single: naked, hidden_single: hidden },
    }
}

#[test]
fn dimacs_round_trip() {
    let mut out = Vec::new();
    let tags = build_formula(&mut out, &params(40, 2, true, true));
    let (v, c, clauses) = parse_dimacs(&out);
    assert_eq!(c, clauses.len());
    assert!(clauses.iter().all(|cl| !cl.is_empty()));
    assert!(clauses.iter().flatten().all(|&l| l != 0 && l.unsigned_abs() as usize <= v));
    // Placed, Given, and Forced and Eliminated at two levels.
    assert_eq!(729 + 81 + 4 * 729, tags.len());
}

#[test]
fn zero_depth_formula_shape() {
    let f = encode_problem(&params(81, 1, false, false));
    let tags = f.tagged_variables();
    assert_eq!(729 + 81 + 729 + 729, tags.len());
    // Every tag names a distinct variable.
    let mut vars: Vec<i32> = tags.iter().map(|(_, v)| v.index().as_i32()).collect();
    vars.sort();
    vars.dedup();
    assert_eq!(tags.len(), vars.len());
}

#[test]
fn givens_fix_the_count_bits() {
    // The seven unit clauses on the count's bits follow the givens' low bits, modulo 128.
    let unit_lines = |givens: usize| -> Vec<Vec<i32>> {
        let mut out = Vec::new();
        build_formula(&mut out, &params(givens, 1, false, false));
        let (_, _, clauses) = parse_dimacs(&out);
        clauses.into_iter().filter(|c| c.len() == 1).take(7).collect()
    };
    let a = unit_lines(40);
    let b = unit_lines(40 + 128);
    assert_eq!(a, b);
    let signs: Vec<bool> = a.iter().map(|c| c[0] > 0).collect();
    assert_eq!(vec![false, false, false, true, false, true, false], signs);
}
