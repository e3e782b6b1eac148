use std::collections::HashMap;

use vstd::prelude::*;

use crate::literal::{magnitude, Literal};
use crate::positive_i32::PositiveI32;
use crate::sudoku::{tag_key, VariableKind};
use crate::variable::Variable;

verus! {

broadcast use vstd::std_specs::hash::group_hash_axioms;

/// Whether literal `l` is true under `model`, which gives each variable index its value.
pub open spec fn literal_holds(model: spec_fn(int) -> bool, l: int) -> bool {
    if l > 0 {
        model(l)
    } else {
        !model(-l)
    }
}

/// Whether some literal of clause `c` is true under `model`.
pub open spec fn clause_holds(model: spec_fn(int) -> bool, c: Seq<int>) -> bool {
    exists|i: int| 0 <= i < c.len() && #[trigger] literal_holds(model, c[i])
}

/// Whether every clause of `cs` holds under `model`: `model` is a model of the formula.
pub open spec fn formula_holds(model: spec_fn(int) -> bool, cs: Seq<Seq<int>>) -> bool {
    forall|j: int| 0 <= j < cs.len() ==> #[trigger] clause_holds(model, cs[j])
}

/// The values of a sequence of literals.
pub open spec fn literal_values(s: Seq<Literal>) -> Seq<int> {
    s.map_values(|l: Literal| l@)
}

/// The bucket a clause is emitted in: 1 for unit, 2 for binary, 3 for wide clauses.
pub open spec fn width_class(c: Seq<int>) -> int {
    if c.len() <= 1 {
        1
    } else if c.len() == 2 {
        2
    } else {
        3
    }
}

/// The clauses of `cs` of bucket `w`, in their order.
pub open spec fn bucket(cs: Seq<Seq<int>>, w: int) -> Seq<Seq<int>>
    decreases cs.len(),
{
    if cs.len() == 0 {
        cs
    } else if width_class(cs.last()) == w {
        bucket(cs.drop_last(), w).push(cs.last())
    } else {
        bucket(cs.drop_last(), w)
    }
}

/// The decimal digits of `n`, most significant first.
pub open spec fn nat_text(n: nat) -> Seq<u8>
    decreases n,
{
    if n < 10 {
        seq![(48 + n) as u8]
    } else {
        nat_text(n / 10) + seq![(48 + n % 10) as u8]
    }
}

/// The decimal form of `i`, with a leading `-` when negative.
pub open spec fn int_text(i: int) -> Seq<u8> {
    if i < 0 {
        seq![45u8] + nat_text((-i) as nat)
    } else {
        nat_text(i as nat)
    }
}

/// Each literal of `c` followed by a space.
pub open spec fn literals_text(c: Seq<int>) -> Seq<u8>
    decreases c.len(),
{
    if c.len() == 0 {
        Seq::empty()
    } else {
        literals_text(c.drop_last()) + int_text(c.last()) + seq![32u8]
    }
}

/// One DIMACS clause line: the literals, separated by spaces, then ` 0` and a newline.
pub open spec fn clause_text(c: Seq<int>) -> Seq<u8> {
    literals_text(c) + seq![48u8, 10u8]
}

/// The lines of all clauses of `cs`, in order.
pub open spec fn clauses_text(cs: Seq<Seq<int>>) -> Seq<u8>
    decreases cs.len(),
{
    if cs.len() == 0 {
        Seq::empty()
    } else {
        clauses_text(cs.drop_last()) + clause_text(cs.last())
    }
}

/// The text `p cnf `.
pub open spec fn header_prefix() -> Seq<u8> {
    seq![112u8, 32u8, 99u8, 110u8, 102u8, 32u8]
}

/// The DIMACS form of a formula over `num_vars` variables: the header `p cnf V C`, then the
/// unit, the binary and the wide clauses, each group in the order the clauses were added.
pub open spec fn dimacs_text(num_vars: nat, cs: Seq<Seq<int>>) -> Seq<u8> {
    header_prefix() + nat_text(num_vars) + seq![32u8] + nat_text(cs.len()) + seq![10u8]
        + clauses_text(bucket(cs, 1)) + clauses_text(bucket(cs, 2)) + clauses_text(bucket(cs, 3))
}

/// Whether every clause of `cs` is non-empty and each of its literals names a variable in
/// `1..=num_vars`.
pub open spec fn clauses_in_range(cs: Seq<Seq<int>>, num_vars: int) -> bool {
    forall|j: int|
        0 <= j < cs.len() ==> #[trigger] cs[j].len() > 0 && forall|k: int|
            0 <= k < cs[j].len() ==> 1 <= #[trigger] magnitude(cs[j][k]) <= num_vars
}

/// A clause of one literal holds exactly when the literal does.
pub proof fn lemma_clause_of_one(model: spec_fn(int) -> bool, a: int)
    ensures
        clause_holds(model, seq![a]) == literal_holds(model, a),
{
    let c = seq![a];
    if literal_holds(model, a) {
        assert(literal_holds(model, c[0]));
    }
}

/// A clause of two literals holds exactly when one of them does.
pub proof fn lemma_clause_of_two(model: spec_fn(int) -> bool, a: int, b: int)
    ensures
        clause_holds(model, seq![a, b]) == (literal_holds(model, a) || literal_holds(model, b)),
{
    let c = seq![a, b];
    if literal_holds(model, a) {
        assert(literal_holds(model, c[0]));
    } else if literal_holds(model, b) {
        assert(literal_holds(model, c[1]));
    } else {
        assert forall|i: int| 0 <= i < c.len() implies !#[trigger] literal_holds(model, c[i]) by {
            if i == 0 {
            } else {
            }
        }
    }
}

/// A clause of three literals holds exactly when one of them does.
pub proof fn lemma_clause_of_three(model: spec_fn(int) -> bool, a: int, b: int, x: int)
    ensures
        clause_holds(model, seq![a, b, x]) == (literal_holds(model, a) || literal_holds(model, b)
            || literal_holds(model, x)),
{
    let c = seq![a, b, x];
    if literal_holds(model, a) {
        assert(literal_holds(model, c[0]));
    } else if literal_holds(model, b) {
        assert(literal_holds(model, c[1]));
    } else if literal_holds(model, x) {
        assert(literal_holds(model, c[2]));
    } else {
        assert forall|i: int| 0 <= i < c.len() implies !#[trigger] literal_holds(model, c[i]) by {
        }
    }
}

/// A model of a formula is a model of every formula it extends.
pub proof fn lemma_models_of_extension(
    f1: &TaggedVariableFormulaBuilder,
    f2: &TaggedVariableFormulaBuilder,
    model: spec_fn(int) -> bool,
)
    requires
        f2.extends(f1),
        formula_holds(model, f2.clauses()),
    ensures
        formula_holds(model, f1.clauses()),
{
    assert forall|j: int| 0 <= j < f1.clauses().len() implies #[trigger] clause_holds(model, f1.clauses()[j]) by {
        assert(f2.clauses().subrange(0, f1.clauses().len() as int)[j] == f2.clauses()[j]);
        assert(clause_holds(model, f2.clauses()[j]));
    }
}

/// A model of a formula is a model of any clauses appended at its end.
pub proof fn lemma_models_of_suffix(cs: Seq<Seq<int>>, added: Seq<Seq<int>>, model: spec_fn(int) -> bool)
    requires
        formula_holds(model, cs + added),
    ensures
        formula_holds(model, added),
{
    assert forall|j: int| 0 <= j < added.len() implies #[trigger] clause_holds(model, added[j]) by {
        assert((cs + added)[cs.len() + j] == added[j]);
        assert(clause_holds(model, (cs + added)[cs.len() + j]));
    }
}

proof fn lemma_clauses_in_range_push(cs: Seq<Seq<int>>, c: Seq<int>, n: int)
    requires
        clauses_in_range(cs, n),
        c.len() > 0,
        forall|k: int| 0 <= k < c.len() ==> 1 <= #[trigger] magnitude(c[k]) <= n,
    ensures
        clauses_in_range(cs.push(c), n),
{
    assert forall|j: int| 0 <= j < cs.push(c).len() implies #[trigger] cs.push(c)[j].len() > 0
        && forall|k: int| 0 <= k < cs.push(c)[j].len() ==> 1 <= #[trigger] magnitude(cs.push(c)[j][k]) <= n by {
        if j < cs.len() {
            assert(cs.push(c)[j] == cs[j]);
        }
    }
}

proof fn lemma_clauses_in_range_grow(cs: Seq<Seq<int>>, n: int, m: int)
    requires
        clauses_in_range(cs, n),
        n <= m,
    ensures
        clauses_in_range(cs, m),
{
    assert forall|j: int| 0 <= j < cs.len() implies #[trigger] cs[j].len() > 0
        && forall|k: int| 0 <= k < cs[j].len() ==> 1 <= #[trigger] magnitude(cs[j][k]) <= m by {
        assert forall|k: int| 0 <= k < cs[j].len() implies 1 <= #[trigger] magnitude(cs[j][k]) <= m by {
            assert(1 <= magnitude(cs[j][k]) <= n);
        }
    }
}

proof fn lemma_clauses_in_range_drop_last(cs: Seq<Seq<int>>, n: int)
    requires
        clauses_in_range(cs, n),
        cs.len() > 0,
    ensures
        clauses_in_range(cs.drop_last(), n),
        cs.last().len() > 0,
        forall|k: int| 0 <= k < cs.last().len() ==> 1 <= #[trigger] magnitude(cs.last()[k]) <= n,
{
    assert forall|j: int| 0 <= j < cs.drop_last().len() implies #[trigger] cs.drop_last()[j].len() > 0
        && forall|k: int| 0 <= k < cs.drop_last()[j].len() ==> 1 <= #[trigger] magnitude(cs.drop_last()[j][k]) <= n by {
        assert(cs.drop_last()[j] == cs[j]);
    }
    assert(cs.last() == cs[cs.len() - 1]);
}

proof fn lemma_bucket_in_range(cs: Seq<Seq<int>>, w: int, n: int)
    requires
        clauses_in_range(cs, n),
    ensures
        clauses_in_range(bucket(cs, w), n),
    decreases cs.len(),
{
    if cs.len() > 0 {
        lemma_clauses_in_range_drop_last(cs, n);
        lemma_bucket_in_range(cs.drop_last(), w, n);
        if width_class(cs.last()) == w {
            lemma_clauses_in_range_push(bucket(cs.drop_last(), w), cs.last(), n);
        }
    }
}

proof fn lemma_bucket_lengths(cs: Seq<Seq<int>>)
    ensures
        bucket(cs, 1).len() + bucket(cs, 2).len() + bucket(cs, 3).len() == cs.len(),
    decreases cs.len(),
{
    if cs.len() > 0 {
        lemma_bucket_lengths(cs.drop_last());
    }
}

struct UnitClause(Literal);

struct BinaryClause(Literal, Literal);

struct WideClause(Vec<Literal>);

spec fn unit_view(s: Seq<UnitClause>) -> Seq<Seq<int>> {
    s.map_values(|c: UnitClause| seq![c.0@])
}

spec fn binary_view(s: Seq<BinaryClause>) -> Seq<Seq<int>> {
    s.map_values(|c: BinaryClause| seq![c.0@, c.1@])
}

spec fn wide_view(s: Seq<WideClause>) -> Seq<Seq<int>> {
    s.map_values(|c: WideClause| literal_values(c.0@))
}

struct VariableCounter {
    highest_variable_index: u32,
}

impl VariableCounter {
    fn new_variable(&mut self) -> (r: Variable)
        requires
            old(self).highest_variable_index < i32::MAX,
        ensures
            final(self).highest_variable_index == old(self).highest_variable_index + 1,
            r@ == final(self).highest_variable_index,
    {
        self.highest_variable_index = self.highest_variable_index + 1;
        Variable::from_index(PositiveI32::from_u32(self.highest_variable_index).unwrap())
    }
}

/// A CNF formula under construction, with variables named by tags.
pub struct TaggedVariableFormulaBuilder {
    variable_counter: VariableCounter,
    tagged_variables: HashMap<u128, Variable>,
    tag_list: Vec<(VariableKind, Variable)>,
    unit: Vec<UnitClause>,
    binary: Vec<BinaryClause>,
    wide: Vec<WideClause>,
    n_clauses: usize,
    log: Ghost<Seq<Seq<int>>>,
}

impl TaggedVariableFormulaBuilder {
    /// The number of variables allocated so far; they are `1..=num_vars()`.
    pub closed spec fn num_vars(&self) -> int {
        self.variable_counter.highest_variable_index as int
    }

    /// Every clause added so far, in the order it was added.
    pub closed spec fn clauses(&self) -> Seq<Seq<int>> {
        self.log@
    }

    /// The tagged variables, by the key of their tag.
    pub closed spec fn tags(&self) -> Map<u128, Variable> {
        self.tagged_variables@
    }

    pub open spec fn has_tag(&self, t: VariableKind) -> bool {
        self.tags().contains_key(tag_key(t))
    }

    /// The variable allocated for tag `t`.
    pub open spec fn tag_var(&self, t: VariableKind) -> int {
        self.tags()[tag_key(t)]@
    }

    /// Whether `l` is a literal over an allocated variable.
    pub open spec fn allocated(&self, l: int) -> bool {
        1 <= magnitude(l) <= self.num_vars()
    }

    /// Whether `vars` more variables and `clauses` more clauses can still be added.
    pub open spec fn has_room(&self, vars: int, clauses: int) -> bool {
        &&& self.num_vars() + vars <= i32::MAX
        &&& self.clauses().len() + clauses <= usize::MAX
    }

    /// What every operation keeps: variables, clauses and tags are only ever added.
    pub open spec fn extends(&self, prev: &Self) -> bool {
        &&& prev.num_vars() <= self.num_vars()
        &&& prev.clauses() =~= self.clauses().subrange(0, prev.clauses().len() as int)
        &&& prev.clauses().len() <= self.clauses().len()
        &&& forall|k: u128| #[trigger]
            prev.tags().contains_key(k) ==> self.tags().contains_key(k) && self.tags()[k]
                == prev.tags()[k]
    }

    pub closed spec fn wf(&self) -> bool {
        &&& self.num_vars() <= i32::MAX
        &&& clauses_in_range(self.clauses(), self.num_vars())
        &&& self.n_clauses == self.clauses().len()
        &&& unit_view(self.unit@) == bucket(self.clauses(), 1)
        &&& binary_view(self.binary@) == bucket(self.clauses(), 2)
        &&& wide_view(self.wide@) == bucket(self.clauses(), 3)
        &&& forall|k: u128| #[trigger]
            self.tags().contains_key(k) ==> 1 <= self.tags()[k]@ <= self.num_vars()
        &&& forall|i: int|
            0 <= i < self.tag_list@.len() ==> self.tags().contains_key(
                tag_key(#[trigger] self.tag_list@[i].0),
            ) && self.tags()[tag_key(self.tag_list@[i].0)] == self.tag_list@[i].1
        &&& forall|k: u128| #[trigger]
            self.tags().contains_key(k) ==> exists|i: int|
                0 <= i < self.tag_list@.len() && tag_key(#[trigger] self.tag_list@[i].0) == k
    }

    pub fn new() -> (r: Self)
        ensures
            r.wf(),
            r.num_vars() == 0,
            r.clauses() == Seq::<Seq<int>>::empty(),
            r.tags() == Map::<u128, Variable>::empty(),
    {
        let r = TaggedVariableFormulaBuilder {
            variable_counter: VariableCounter { highest_variable_index: 0 },
            tagged_variables: HashMap::new(),
            tag_list: Vec::new(),
            unit: Vec::new(),
            binary: Vec::new(),
            wide: Vec::new(),
            n_clauses: 0,
            log: Ghost(Seq::empty()),
        };
        assert(unit_view(r.unit@) =~= Seq::<Seq<int>>::empty());
        assert(binary_view(r.binary@) =~= Seq::<Seq<int>>::empty());
        assert(wide_view(r.wide@) =~= Seq::<Seq<int>>::empty());
        assert(r.tags() =~= Map::<u128, Variable>::empty());
        r
    }

    /// Every tag with its variable, each tag once.
    pub fn tagged_variables(&self) -> (r: Vec<(VariableKind, Variable)>)
        requires
            self.wf(),
        ensures
            forall|i: int|
                0 <= i < r@.len() ==> self.tags().contains_key(tag_key(#[trigger] r@[i].0))
                    && self.tags()[tag_key(r@[i].0)] == r@[i].1,
            forall|k: u128| #[trigger]
                self.tags().contains_key(k) ==> exists|i: int|
                    0 <= i < r@.len() && tag_key(#[trigger] r@[i].0) == k,
    {
        let mut r: Vec<(VariableKind, Variable)> = Vec::new();
        let mut i: usize = 0;
        while i < self.tag_list.len()
            invariant
                0 <= i <= self.tag_list@.len(),
                r@ =~= self.tag_list@.subrange(0, i as int),
            decreases self.tag_list@.len() - i,
        {
            r.push(self.tag_list[i]);
            i = i + 1;
        }
        assert(r@ =~= self.tag_list@);
        r
    }

    /// Gives up the builder for its tagged variables, each tag once.
    pub fn into_tagged_variables(self) -> (r: Vec<(VariableKind, Variable)>)
        requires
            self.wf(),
        ensures
            forall|i: int|
                0 <= i < r@.len() ==> self.tags().contains_key(tag_key(#[trigger] r@[i].0))
                    && self.tags()[tag_key(r@[i].0)] == r@[i].1,
            forall|k: u128| #[trigger]
                self.tags().contains_key(k) ==> exists|i: int|
                    0 <= i < r@.len() && tag_key(#[trigger] r@[i].0) == k,
    {
        self.tag_list
    }

    /// The variable of `tag`, allocated on the first request for it.
    pub fn get_variable(&mut self, tag: VariableKind) -> (v: Variable)
        requires
            old(self).wf(),
            old(self).has_room(1, 0),
        ensures
            final(self).wf(),
            final(self).extends(&*old(self)),
            final(self).clauses() == old(self).clauses(),
            final(self).has_tag(tag),
            v == final(self).tags()[tag_key(tag)],
            1 <= v@ <= final(self).num_vars(),
            old(self).has_tag(tag) ==> final(self).num_vars() == old(self).num_vars()
                && final(self).tags() == old(self).tags(),
            !old(self).has_tag(tag) ==> final(self).num_vars() == old(self).num_vars() + 1 && v@
                == final(self).num_vars() && final(self).tags() == old(self).tags().insert(
                tag_key(tag),
                v,
            ),
    {
        let key = tag.key();
        match self.tagged_variables.get(&key) {
            Some(v) => *v,
            None => {
                let v = self.variable_counter.new_variable();
                self.tagged_variables.insert(key, v);
                self.tag_list.push((tag, v));
                proof {
                    lemma_clauses_in_range_grow(self.log@, old(self).num_vars(), self.num_vars());
                    assert forall|i: int| 0 <= i < self.tag_list@.len() implies self.tags().contains_key(
                        tag_key(#[trigger] self.tag_list@[i].0),
                    ) && self.tags()[tag_key(self.tag_list@[i].0)] == self.tag_list@[i].1 by {
                        if i < old(self).tag_list@.len() {
                            assert(self.tag_list@[i] == old(self).tag_list@[i]);
                        }
                    }
                    assert forall|k: u128| #[trigger]
                        self.tags().contains_key(k) implies exists|i: int|
                        0 <= i < self.tag_list@.len() && tag_key(
                            #[trigger] self.tag_list@[i].0,
                        ) as u128 == k by {
                        if k != key {
                            assert(old(self).tags().contains_key(k));
                            let i = choose|i: int|
                                0 <= i < old(self).tag_list@.len() && tag_key(
                                    #[trigger] old(self).tag_list@[i].0,
                                ) == k;
                            assert(self.tag_list@[i] == old(self).tag_list@[i]);
                        } else {
                            let i = self.tag_list@.len() - 1;
                            assert(tag_key(self.tag_list@[i].0) == k);
                        }
                    }
                }
                v
            },
        }
    }

    pub fn new_variable(&mut self) -> (v: Variable)
        requires
            old(self).wf(),
            old(self).has_room(1, 0),
        ensures
            final(self).wf(),
            final(self).extends(&*old(self)),
            final(self).clauses() == old(self).clauses(),
            final(self).tags() == old(self).tags(),
            final(self).num_vars() == old(self).num_vars() + 1,
            v@ == final(self).num_vars(),
            1 <= v@,
    {
        let v = self.variable_counter.new_variable();
        proof {
            lemma_clauses_in_range_grow(self.log@, old(self).num_vars(), self.num_vars());
            assert(self.tags() == old(self).tags());
            assert(self.tag_list@ == old(self).tag_list@);
        }
        v
    }

    /// Adds the clause `literals`, which must not be empty.
    pub fn add_clause(&mut self, literals: Vec<Literal>)
        requires
            old(self).wf(),
            old(self).has_room(0, 1),
            literals@.len() > 0,
            forall|k: int| 0 <= k < literals@.len() ==> old(self).allocated(#[trigger] literals@[k]@),
        ensures
            final(self).wf(),
            final(self).extends(&*old(self)),
            final(self).num_vars() == old(self).num_vars(),
            final(self).tags() == old(self).tags(),
            final(self).clauses() == old(self).clauses().push(literal_values(literals@)),
    {
        if literals.len() == 1 {
            self.add_unit_clause(literals[0]);
            assert(literal_values(literals@) =~= seq![literals@[0]@]);
        } else if literals.len() == 2 {
            self.add_binary_clause(literals[0], literals[1]);
            assert(literal_values(literals@) =~= seq![literals@[0]@, literals@[1]@]);
        } else {
            let ghost c = literal_values(literals@);
            let ghost prev = self.log@;
            self.wide.push(WideClause(literals));
            self.n_clauses = self.n_clauses + 1;
            self.log = Ghost(self.log@.push(c));
            proof {
                self.lemma_push_buckets(prev, c);
                assert forall|k: int| 0 <= k < c.len() implies 1 <= #[trigger] magnitude(c[k]) <= self.num_vars() by {
                    assert(old(self).allocated(literals@[k]@));
                }
                lemma_clauses_in_range_push(prev, c, self.num_vars());
                assert(self.tags() == old(self).tags());
                assert(self.tag_list@ == old(self).tag_list@);
                assert(wide_view(self.wide@) =~= wide_view(old(self).wide@).push(c));
            }
        }
    }

    pub fn add_unit_clause(&mut self, literal: Literal)
        requires
            old(self).wf(),
            old(self).has_room(0, 1),
            old(self).allocated(literal@),
        ensures
            final(self).wf(),
            final(self).extends(&*old(self)),
            final(self).num_vars() == old(self).num_vars(),
            final(self).tags() == old(self).tags(),
            final(self).clauses() == old(self).clauses().push(seq![literal@]),
    {
        let ghost prev = self.log@;
        self.unit.push(UnitClause(literal));
        self.n_clauses = self.n_clauses + 1;
        self.log = Ghost(self.log@.push(seq![literal@]));
        proof {
            self.lemma_push_buckets(prev, seq![literal@]);
            lemma_clauses_in_range_push(prev, seq![literal@], self.num_vars());
            assert(unit_view(self.unit@) =~= unit_view(old(self).unit@).push(seq![literal@]));
            assert(self.tags() == old(self).tags());
            assert(self.tag_list@ == old(self).tag_list@);
        }
    }

    pub fn add_binary_clause(&mut self, a: Literal, b: Literal)
        requires
            old(self).wf(),
            old(self).has_room(0, 1),
            old(self).allocated(a@),
            old(self).allocated(b@),
        ensures
            final(self).wf(),
            final(self).extends(&*old(self)),
            final(self).num_vars() == old(self).num_vars(),
            final(self).tags() == old(self).tags(),
            final(self).clauses() == old(self).clauses().push(seq![a@, b@]),
    {
        let ghost prev = self.log@;
        self.binary.push(BinaryClause(a, b));
        self.n_clauses = self.n_clauses + 1;
        self.log = Ghost(self.log@.push(seq![a@, b@]));
        proof {
            self.lemma_push_buckets(prev, seq![a@, b@]);
            lemma_clauses_in_range_push(prev, seq![a@, b@], self.num_vars());
            assert(self.tags() == old(self).tags());
            assert(self.tag_list@ == old(self).tag_list@);
            assert(binary_view(self.binary@) =~= binary_view(old(self).binary@).push(
                seq![a@, b@],
            ));
        }
    }

    proof fn lemma_push_buckets(&self, prev: Seq<Seq<int>>, c: Seq<int>)
        requires
            self.log@ == prev.push(c),
        ensures
            forall|w: int|
                #[trigger] bucket(self.log@, w) == if width_class(c) == w {
                    bucket(prev, w).push(c)
                } else {
                    bucket(prev, w)
                },
    {
        assert(self.log@.drop_last() =~= prev);
    }

    /// What a reader of the DIMACS text finds: the three groups of clause lines together are
    /// exactly as many as the header's clause count, no clause is empty, and every literal names
    /// a variable in `1..=V`, where `V` is the header's variable count.
    pub proof fn lemma_dimacs_counts(&self)
        requires
            self.wf(),
        ensures
            bucket(self.clauses(), 1).len() + bucket(self.clauses(), 2).len() + bucket(
                self.clauses(),
                3,
            ).len() == self.clauses().len(),
            clauses_in_range(bucket(self.clauses(), 1), self.num_vars()),
            clauses_in_range(bucket(self.clauses(), 2), self.num_vars()),
            clauses_in_range(bucket(self.clauses(), 3), self.num_vars()),
    {
        lemma_bucket_lengths(self.clauses());
        lemma_bucket_in_range(self.clauses(), 1, self.num_vars());
        lemma_bucket_in_range(self.clauses(), 2, self.num_vars());
        lemma_bucket_in_range(self.clauses(), 3, self.num_vars());
    }

    pub fn variable_count(&self) -> (r: usize)
        requires
            self.wf(),
        ensures
            r == self.num_vars(),
    {
        self.variable_counter.highest_variable_index as usize
    }

    pub fn clause_count(&self) -> (r: usize)
        requires
            self.wf(),
        ensures
            r == self.clauses().len(),
    {
        self.n_clauses
    }
}

fn write_nat(out: &mut Vec<u8>, n: u64)
    ensures
        final(out)@ == old(out)@ + nat_text(n as nat),
    decreases n,
{
    if n >= 10 {
        write_nat(out, n / 10);
    }
    out.push((48 + n % 10) as u8);
    proof {
        if n >= 10 {
            assert(final(out)@ =~= old(out)@ + nat_text(n as nat));
        } else {
            assert(final(out)@ =~= old(out)@ + nat_text(n as nat));
        }
    }
}

fn write_literal(out: &mut Vec<u8>, l: Literal)
    ensures
        final(out)@ == old(out)@ + int_text(l@) + seq![32u8],
{
    let i = l.index();
    if i < 0 {
        out.push(45u8);
        write_nat(out, (-i) as u64);
    } else {
        write_nat(out, i as u64);
    }
    out.push(32u8);
    proof {
        assert(final(out)@ =~= old(out)@ + int_text(l@) + seq![32u8]);
    }
}

/// Writes the end of a clause line: `0` and a newline.
fn write_clause_end(out: &mut Vec<u8>)
    ensures
        final(out)@ == old(out)@ + seq![48u8, 10u8],
{
    out.push(48u8);
    out.push(10u8);
    assert(final(out)@ =~= old(out)@ + seq![48u8, 10u8]);
}

impl UnitClause {
    fn write_dimacs_fragment(&self, out: &mut Vec<u8>)
        ensures
            final(out)@ == old(out)@ + clause_text(seq![self.0@]),
    {
        write_literal(out, self.0);
        write_clause_end(out);
        assert(seq![self.0@].drop_last() =~= Seq::<int>::empty());
        assert(literals_text(Seq::<int>::empty()) =~= Seq::<u8>::empty());
        assert(literals_text(seq![self.0@]) =~= int_text(self.0@) + seq![32u8]);
        assert(final(out)@ =~= old(out)@ + clause_text(seq![self.0@]));
    }
}

impl BinaryClause {
    fn write_dimacs_fragment(&self, out: &mut Vec<u8>)
        ensures
            final(out)@ == old(out)@ + clause_text(seq![self.0@, self.1@]),
    {
        write_literal(out, self.0);
        write_literal(out, self.1);
        write_clause_end(out);
        let ghost c = seq![self.0@, self.1@];
        assert(c.drop_last() =~= seq![self.0@]);
        assert(seq![self.0@].drop_last() =~= Seq::<int>::empty());
        assert(literals_text(Seq::<int>::empty()) =~= Seq::<u8>::empty());
        assert(literals_text(seq![self.0@]) =~= int_text(self.0@) + seq![32u8]);
        assert(literals_text(c) =~= int_text(self.0@) + seq![32u8] + int_text(self.1@) + seq![32u8]);
        assert(final(out)@ =~= old(out)@ + clause_text(c));
    }
}

impl WideClause {
    fn write_dimacs_fragment(&self, out: &mut Vec<u8>)
        ensures
            final(out)@ == old(out)@ + clause_text(literal_values(self.0@)),
    {
        let ghost start = out@;
        let mut i: usize = 0;
        while i < self.0.len()
            invariant
                0 <= i <= self.0@.len(),
                out@ == start + literals_text(literal_values(self.0@).subrange(0, i as int)),
            decreases self.0@.len() - i,
        {
            write_literal(out, self.0[i]);
            proof {
                let s = literal_values(self.0@);
                assert(s.subrange(0, i + 1).drop_last() =~= s.subrange(0, i as int));
            }
            i = i + 1;
        }
        write_clause_end(out);
        proof {
            assert(literal_values(self.0@).subrange(0, i as int) =~= literal_values(self.0@));
        }
    }
}

impl TaggedVariableFormulaBuilder {
    #[verifier::rlimit(60)]
    /// Appends the formula to `out` in DIMACS form: the header `p cnf V C`, then every clause,
    /// the unit clauses first, then the binary, then the wide ones.
    pub fn write_dimacs(&self, out: &mut Vec<u8>)
        requires
            self.wf(),
        ensures
            final(out)@ == old(out)@ + dimacs_text(self.num_vars() as nat, self.clauses()),
    {
        out.push(112u8);
        out.push(32u8);
        out.push(99u8);
        out.push(110u8);
        out.push(102u8);
        out.push(32u8);
        write_nat(out, self.variable_counter.highest_variable_index as u64);
        out.push(32u8);
        write_nat(out, self.n_clauses as u64);
        out.push(10u8);
        let ghost header = out@;
        assert(header =~= old(out)@ + header_prefix() + nat_text(self.num_vars() as nat) + seq![32u8]
            + nat_text(self.clauses().len()) + seq![10u8]);

        let mut i: usize = 0;
        while i < self.unit.len()
            invariant
                0 <= i <= self.unit@.len(),
                out@ == header + clauses_text(unit_view(self.unit@).subrange(0, i as int)),
            decreases self.unit@.len() - i,
        {
            self.unit[i].write_dimacs_fragment(out);
            proof {
                let s = unit_view(self.unit@);
                assert(s.subrange(0, i + 1).drop_last() =~= s.subrange(0, i as int));
            }
            i = i + 1;
        }
        assert(unit_view(self.unit@).subrange(0, i as int) =~= unit_view(self.unit@));
        let ghost after_unit = out@;

        let mut i: usize = 0;
        while i < self.binary.len()
            invariant
                0 <= i <= self.binary@.len(),
                out@ == after_unit + clauses_text(binary_view(self.binary@).subrange(0, i as int)),
            decreases self.binary@.len() - i,
        {
            self.binary[i].write_dimacs_fragment(out);
            proof {
                let s = binary_view(self.binary@);
                assert(s.subrange(0, i + 1).drop_last() =~= s.subrange(0, i as int));
            }
            i = i + 1;
        }
        assert(binary_view(self.binary@).subrange(0, i as int) =~= binary_view(self.binary@));
        let ghost after_binary = out@;

        let mut i: usize = 0;
        while i < self.wide.len()
            invariant
                0 <= i <= self.wide@.len(),
                out@ == after_binary + clauses_text(wide_view(self.wide@).subrange(0, i as int)),
            decreases self.wide@.len() - i,
        {
            self.wide[i].write_dimacs_fragment(out);
            proof {
                let s = wide_view(self.wide@);
                assert(s.subrange(0, i + 1).drop_last() =~= s.subrange(0, i as int));
            }
            i = i + 1;
        }
        assert(wide_view(self.wide@).subrange(0, i as int) =~= wide_view(self.wide@));
        assert(final(out)@ =~= old(out)@ + dimacs_text(self.num_vars() as nat, self.clauses()));
    }
}

} // verus!
