use vstd::prelude::*;

use crate::literal::{magnitude, Literal};
use crate::variable::Variable;

verus! {

/// What a solver reported.
pub enum Solution {
    /// A model: each assigned variable with its value, in the order reported.
    Satisfiable { assignments: Vec<(Variable, bool)> },
    Unsatisfiable,
}

/// Why a solver's output could not be read.
#[derive(Clone, Copy, Debug, PartialEq, Eq, Structural)]
pub enum OutputError {
    /// A solution line does not hold exactly one word.
    SolutionLineNotOneWord,
    /// More than one solution line.
    MultipleSolutionLines,
    /// A solution line that names neither outcome.
    UnknownSolution,
    /// A value after the terminating zero.
    AssignmentAfterTerminator,
    /// A value that is not a decimal `i32`.
    BadLiteral,
    /// The value `i32::MIN`, which names no literal.
    LiteralOutOfRange,
    /// Values before a satisfiable solution line.
    AssignmentsBeforeSolution,
    /// Values that no zero terminated.
    AssignmentsNotTerminated,
    /// No solution line at all.
    NoSolutionLine,
}

/// ASCII whitespace: space, tab, line feed, form feed, carriage return.
pub open spec fn is_space(b: u8) -> bool {
    b == 32 || b == 9 || b == 10 || b == 12 || b == 13
}

/// The words finished so far, and the word being read, after the bytes `s`.
pub open spec fn split_state(s: Seq<u8>) -> (Seq<Seq<u8>>, Seq<u8>)
    decreases s.len(),
{
    if s.len() == 0 {
        (Seq::empty(), Seq::empty())
    } else {
        let (ws, cur) = split_state(s.drop_last());
        if is_space(s.last()) {
            if cur.len() > 0 {
                (ws.push(cur), Seq::empty())
            } else {
                (ws, cur)
            }
        } else {
            (ws, cur.push(s.last()))
        }
    }
}

/// The maximal runs of non-whitespace bytes of `s`, in order.
pub open spec fn words(s: Seq<u8>) -> Seq<Seq<u8>> {
    let (ws, cur) = split_state(s);
    if cur.len() > 0 {
        ws.push(cur)
    } else {
        ws
    }
}

/// The ASCII lower case of `b`.
pub open spec fn lower(b: u8) -> u8 {
    if 65 <= b <= 90 {
        (b + 32) as u8
    } else {
        b
    }
}

/// Whether `w` spells the lower-case word `lit`, in any case.
pub open spec fn matches_ignoring_case(w: Seq<u8>, lit: Seq<u8>) -> bool {
    w.len() == lit.len() && forall|i: int| 0 <= i < w.len() ==> lower(#[trigger] w[i]) == lit[i]
}

/// The value of the decimal digits `ds`.
pub open spec fn digits_value(ds: Seq<u8>) -> int
    decreases ds.len(),
{
    if ds.len() == 0 {
        0
    } else {
        digits_value(ds.drop_last()) * 10 + (ds.last() - 48)
    }
}

pub open spec fn all_digits(ds: Seq<u8>) -> bool {
    forall|i: int| 0 <= i < ds.len() ==> 48 <= #[trigger] ds[i] <= 57
}

/// The `i32` that `w` spells in decimal, with an optional sign, if any.
pub open spec fn parsed_i32(w: Seq<u8>) -> Option<int> {
    let signed = w.len() > 0 && (w[0] == 45 || w[0] == 43);
    let ds = if signed { w.drop_first() } else { w };
    let v = if signed && w[0] == 45 { -digits_value(ds) } else { digits_value(ds) };
    if ds.len() == 0 || !all_digits(ds) || v < i32::MIN || v > i32::MAX {
        None
    } else {
        Some(v)
    }
}

/// The assignments after the words `ws` of value lines, starting from `acc`, and whether the
/// terminating zero has been read.
pub open spec fn read_values(acc: Seq<(int, bool)>, done: bool, ws: Seq<Seq<u8>>) -> Result<
    (Seq<(int, bool)>, bool),
    OutputError,
>
    decreases ws.len(),
{
    if ws.len() == 0 {
        Ok((acc, done))
    } else {
        match read_values(acc, done, ws.drop_last()) {
            Err(e) => Err(e),
            Ok((a, d)) => {
                if d {
                    Err(OutputError::AssignmentAfterTerminator)
                } else {
                    match parsed_i32(ws.last()) {
                        None => Err(OutputError::BadLiteral),
                        Some(v) => {
                            if v == 0 {
                                Ok((a, true))
                            } else if v == i32::MIN {
                                Err(OutputError::LiteralOutOfRange)
                            } else {
                                Ok((a.push((magnitude(v), v > 0)), false))
                            }
                        },
                    }
                }
            },
        }
    }
}

/// An error in the first words of value lines is the error of them all.
proof fn lemma_read_values_error_stays(acc: Seq<(int, bool)>, done: bool, ws: Seq<Seq<u8>>, k: int)
    requires
        0 <= k <= ws.len(),
        read_values(acc, done, ws.take(k)).is_err(),
    ensures
        read_values(acc, done, ws) == read_values(acc, done, ws.take(k)),
    decreases ws.len() - k,
{
    if k < ws.len() {
        assert(ws.take(k + 1).drop_last() =~= ws.take(k));
        lemma_read_values_error_stays(acc, done, ws, k + 1);
    } else {
        assert(ws.take(k) =~= ws);
    }
}

/// The assignments of a solution, as variable indices with values.
pub open spec fn assignment_values(a: Seq<(Variable, bool)>) -> Seq<(int, bool)> {
    a.map_values(|p: (Variable, bool)| (p.0@, p.1))
}

/// Splits `s` into its words.
fn split_words(s: &[u8]) -> (r: Vec<Vec<u8>>)
    ensures
        r@.len() == words(s@).len(),
        forall|i: int| 0 <= i < r@.len() ==> #[trigger] r@[i]@ == words(s@)[i],
{
    let mut ws: Vec<Vec<u8>> = Vec::new();
    let mut cur: Vec<u8> = Vec::new();
    let mut i: usize = 0;
    while i < s.len()
        invariant
            0 <= i <= s@.len(),
            ws@.len() == split_state(s@.take(i as int)).0.len(),
            forall|k: int| 0 <= k < ws@.len() ==> #[trigger] ws@[k]@ == split_state(s@.take(i as int)).0[k],
            cur@ == split_state(s@.take(i as int)).1,
        decreases s@.len() - i,
    {
        let b = s[i];
        let ghost prev_ws = ws@;
        assert(s@.take(i + 1).drop_last() =~= s@.take(i as int));
        assert(s@.take(i + 1).last() == b);
        if b == 32 || b == 9 || b == 10 || b == 12 || b == 13 {
            if cur.len() > 0 {
                ws.push(cur);
                cur = Vec::new();
                proof {
                    assert forall|k: int| 0 <= k < ws@.len() implies #[trigger] ws@[k]@ == split_state(s@.take(i + 1)).0[k] by {
                        if k < prev_ws.len() {
                            assert(ws@[k] == prev_ws[k]);
                        }
                    }
                    assert(cur@ =~= split_state(s@.take(i + 1)).1);
                }
            }
        } else {
            cur.push(b);
        }
        i = i + 1;
    }
    assert(s@.take(i as int) =~= s@);
    if cur.len() > 0 {
        let ghost prev_ws = ws@;
        ws.push(cur);
        proof {
            assert forall|k: int| 0 <= k < ws@.len() implies #[trigger] ws@[k]@ == words(s@)[k] by {
                if k < prev_ws.len() {
                    assert(ws@[k] == prev_ws[k]);
                }
            }
        }
    }
    ws
}

/// Whether `w` spells the lower-case word `lit`, in any case.
fn eq_ignoring_case(w: &Vec<u8>, lit: &[u8]) -> (r: bool)
    ensures
        r == matches_ignoring_case(w@, lit@),
{
    if w.len() != lit.len() {
        return false;
    }
    let mut i: usize = 0;
    while i < w.len()
        invariant
            0 <= i <= w@.len(),
            w@.len() == lit@.len(),
            forall|k: int| 0 <= k < i ==> lower(#[trigger] w@[k]) == lit@[k],
        decreases w@.len() - i,
    {
        let b = w[i];
        let l: u8 = if b >= 65 && b <= 90 { b + 32 } else { b };
        if l != lit[i] {
            return false;
        }
        i = i + 1;
    }
    true
}

proof fn lemma_digits_value_grows(ds: Seq<u8>, i: int)
    requires
        0 <= i <= ds.len(),
        all_digits(ds),
    ensures
        digits_value(ds.take(i)) <= digits_value(ds),
        0 <= digits_value(ds.take(i)),
    decreases ds.len() - i,
{
    if i < ds.len() {
        lemma_digits_value_grows(ds, i + 1);
        assert(ds.take(i + 1).drop_last() =~= ds.take(i));
        assert(48 <= ds[i] <= 57);
    } else {
        assert(ds.take(i) =~= ds);
        lemma_digits_value_nonneg(ds);
    }
}

proof fn lemma_digits_value_nonneg(ds: Seq<u8>)
    requires
        all_digits(ds),
    ensures
        digits_value(ds) >= 0,
    decreases ds.len(),
{
    if ds.len() > 0 {
        assert(all_digits(ds.drop_last()));
        lemma_digits_value_nonneg(ds.drop_last());
        assert(48 <= ds[ds.len() - 1] <= 57);
    }
}

/// The `i32` that `w` spells, as `str::parse::<i32>` reads it.
fn parse_i32(w: &Vec<u8>) -> (r: Option<i32>)
    ensures
        r.is_some() == parsed_i32(w@).is_some(),
        r matches Some(v) ==> parsed_i32(w@) == Some(v as int),
{
    let n = w.len();
    let signed = n > 0 && (w[0] == 45 || w[0] == 43);
    let negative = signed && w[0] == 45;
    let start: usize = if signed { 1 } else { 0 };
    let ghost ds = if signed { w@.drop_first() } else { w@ };
    if start == n {
        return None;
    }
    // Digits are summed up to 2^31, the largest magnitude an `i32` can have.
    let mut acc: i64 = 0;
    let mut i: usize = start;
    while i < n
        invariant
            start <= i <= n,
            n == w@.len(),
            start == (if signed { 1int } else { 0 }),
            signed == (w@.len() > 0 && (w@[0] == 45 || w@[0] == 43)),
            negative == (signed && w@[0] == 45),
            ds == (if signed { w@.drop_first() } else { w@ }),
            ds.len() == n - start,
            all_digits(ds.take(i - start)),
            acc == digits_value(ds.take(i - start)),
            0 <= acc <= 0x8000_0000,
        decreases n - i,
    {
        let b = w[i];
        assert(ds[i - start] == b);
        if b < 48 || b > 57 {
            assert(!all_digits(ds));
            assert(parsed_i32(w@).is_none());
            return None;
        }
        acc = acc * 10 + (b - 48) as i64;
        assert(ds.take(i + 1 - start).drop_last() =~= ds.take(i - start));
        if acc > 0x8000_0000 {
            proof {
                if all_digits(ds) {
                    lemma_digits_value_grows(ds, i + 1 - start);
                }
                assert(parsed_i32(w@).is_none());
            }
            return None;
        }
        i = i + 1;
    }
    assert(ds.take(n - start) =~= ds);
    if negative {
        Some((-acc) as i32)
    } else if acc > 0x7fff_ffff {
        None
    } else {
        Some(acc as i32)
    }
}

/// Reads a solver's output line by line: `s` lines name the outcome, `v` lines list the values
/// of the variables, ended by a zero, and other lines are passed through.
pub struct OutputParser {
    solution: Option<Solution>,
    variables_done: bool,
}

impl OutputParser {
    /// Whether a satisfiable solution line has been read.
    pub closed spec fn satisfiable(&self) -> bool {
        self.solution matches Some(Solution::Satisfiable { .. })
    }

    /// Whether any solution line has been read.
    pub closed spec fn has_solution(&self) -> bool {
        self.solution.is_some()
    }

    /// The assignments read so far.
    pub closed spec fn assignments(&self) -> Seq<(int, bool)> {
        match self.solution {
            Some(Solution::Satisfiable { assignments }) => assignment_values(assignments@),
            _ => Seq::empty(),
        }
    }

    /// Whether the zero that ends the values has been read.
    pub closed spec fn done(&self) -> bool {
        self.variables_done
    }

    pub fn new() -> (r: Self)
        ensures
            !r.has_solution(),
            !r.done(),
    {
        OutputParser { solution: None, variables_done: false }
    }

    /// Reads one line; on success, tells whether the line is to be passed through.
    pub fn feed_line(&mut self, line: &[u8]) -> (r: Result<bool, OutputError>)
        ensures
            line@.len() == 0 || (line@[0] != 115 && line@[0] != 118) ==> r == Ok::<bool, OutputError>(true)
                && final(self).has_solution() == old(self).has_solution() && final(self).satisfiable()
                == old(self).satisfiable() && final(self).assignments() == old(self).assignments()
                && final(self).done() == old(self).done(),
            line@.len() > 0 && line@[0] == 115 ==> ({
                let ws = words(line@.drop_first());
                if ws.len() != 1 {
                    r == Err::<bool, OutputError>(OutputError::SolutionLineNotOneWord)
                } else if !matches_ignoring_case(ws[0], seq![115u8, 97, 116, 105, 115, 102, 105, 97, 98, 108, 101])
                    && !matches_ignoring_case(ws[0], seq![117u8, 110, 115, 97, 116, 105, 115, 102, 105, 97, 98, 108, 101]) {
                    r == Err::<bool, OutputError>(OutputError::UnknownSolution)
                } else if old(self).has_solution() {
                    r == Err::<bool, OutputError>(OutputError::MultipleSolutionLines)
                } else {
                    r == Ok::<bool, OutputError>(true) && final(self).has_solution()
                        && final(self).satisfiable() == matches_ignoring_case(ws[0], seq![115u8, 97, 116, 105, 115, 102, 105, 97, 98, 108, 101])
                        && final(self).assignments() == Seq::<(int, bool)>::empty()
                        && final(self).done() == old(self).done()
                }
            }),
            line@.len() > 0 && line@[0] == 118 ==> ({
                if !old(self).satisfiable() {
                    r == Err::<bool, OutputError>(OutputError::AssignmentsBeforeSolution)
                } else {
                    match read_values(old(self).assignments(), old(self).done(), words(line@.drop_first())) {
                        Err(e) => r == Err::<bool, OutputError>(e),
                        Ok((a, d)) => r == Ok::<bool, OutputError>(false) && final(self).satisfiable()
                            && final(self).has_solution() && final(self).assignments() == a
                            && final(self).done() == d,
                    }
                }
            }),
    {
        if line.len() == 0 || (line[0] != 115 && line[0] != 118) {
            return Ok(true);
        }
        let rest = slice_from(line, 1);
        let ws = split_words(rest);
        if line[0] == 115 {
            if ws.len() != 1 {
                return Err(OutputError::SolutionLineNotOneWord);
            }
            let sat = eq_ignoring_case(&ws[0], &[115u8, 97, 116, 105, 115, 102, 105, 97, 98, 108, 101]);
            let unsat = eq_ignoring_case(&ws[0], &[117u8, 110, 115, 97, 116, 105, 115, 102, 105, 97, 98, 108, 101]);
            proof {
                assert([115u8, 97, 116, 105, 115, 102, 105, 97, 98, 108, 101]@ =~= seq![115u8, 97, 116, 105, 115, 102, 105, 97, 98, 108, 101]);
                assert([117u8, 110, 115, 97, 116, 105, 115, 102, 105, 97, 98, 108, 101]@ =~= seq![117u8, 110, 115, 97, 116, 105, 115, 102, 105, 97, 98, 108, 101]);
            }
            if !sat && !unsat {
                return Err(OutputError::UnknownSolution);
            }
            if self.solution.is_some() {
                return Err(OutputError::MultipleSolutionLines);
            }
            if sat {
                let assignments: Vec<(Variable, bool)> = Vec::new();
                self.solution = Some(Solution::Satisfiable { assignments });
                assert(assignment_values(assignments@) =~= Seq::<(int, bool)>::empty());
            } else {
                self.solution = Some(Solution::Unsatisfiable);
            }
            return Ok(true);
        }
        let ghost ws_spec = words(line@.drop_first());
        assert(rest@ =~= line@.drop_first());
        let mut taken: Option<Solution> = None;
        core::mem::swap(&mut self.solution, &mut taken);
        let mut assignments = match taken {
            Some(Solution::Satisfiable { assignments }) => assignments,
            other => {
                self.solution = other;
                return Err(OutputError::AssignmentsBeforeSolution);
            },
        };
        let ghost start = assignment_values(assignments@);
        assert(start == old(self).assignments());
        let ghost done0 = self.variables_done;
        let mut k: usize = 0;
        while k < ws.len()
            invariant
                0 <= k <= ws@.len(),
                line@.len() > 0 && line@[0] == 118,
                ws_spec == words(line@.drop_first()),
                start == old(self).assignments(),
                done0 == old(self).done(),
                old(self).satisfiable(),
                ws@.len() == ws_spec.len(),
                forall|j: int| 0 <= j < ws@.len() ==> #[trigger] ws@[j]@ == ws_spec[j],
                read_values(start, done0, ws_spec.take(k as int)) == Ok::<(Seq<(int, bool)>, bool), OutputError>(
                    (assignment_values(assignments@), self.variables_done),
                ),
            decreases ws@.len() - k,
        {
            assert(ws_spec.take(k + 1).drop_last() =~= ws_spec.take(k as int));
            assert(ws_spec.take(k + 1).last() == ws@[k as int]@);
            if self.variables_done {
                proof {
                    lemma_read_values_error_stays(start, done0, ws_spec, k + 1);
                }
                self.solution = Some(Solution::Satisfiable { assignments });
                return Err(OutputError::AssignmentAfterTerminator);
            }
            match parse_i32(&ws[k]) {
                None => {
                    proof {
                        lemma_read_values_error_stays(start, done0, ws_spec, k + 1);
                    }
                    self.solution = Some(Solution::Satisfiable { assignments });
                    return Err(OutputError::BadLiteral);
                },
                Some(v) => {
                    if v == 0 {
                        self.variables_done = true;
                    } else {
                        match Literal::from_index(v) {
                            None => {
                                proof {
                                    lemma_read_values_error_stays(start, done0, ws_spec, k + 1);
                                }
                                self.solution = Some(Solution::Satisfiable { assignments });
                                return Err(OutputError::LiteralOutOfRange);
                            },
                            Some(l) => {
                                let ghost prev = assignments@;
                                assignments.push((l.variable(), l.is_positive()));
                                assert(assignment_values(assignments@) =~= assignment_values(prev).push(
                                    (magnitude(v as int), v > 0),
                                ));
                            },
                        }
                    }
                },
            }
            k = k + 1;
        }
        assert(ws_spec.take(k as int) =~= ws_spec);
        self.solution = Some(Solution::Satisfiable { assignments });
        Ok(false)
    }

    /// The solution read, once the output has ended.
    pub fn finish(self) -> (r: Result<Solution, OutputError>)
        ensures
            !self.has_solution() ==> r == Err::<Solution, OutputError>(OutputError::NoSolutionLine),
            self.satisfiable() && !self.done() ==> r == Err::<Solution, OutputError>(OutputError::AssignmentsNotTerminated),
            self.has_solution() && (!self.satisfiable() || self.done()) ==> (r matches Ok(s) && (s matches Solution::Satisfiable { .. }) == self.satisfiable()),
            r matches Ok(Solution::Satisfiable { assignments }) ==> assignment_values(assignments@) == self.assignments(),
    {
        match self.solution {
            None => Err(OutputError::NoSolutionLine),
            Some(Solution::Satisfiable { assignments }) => {
                if !self.variables_done {
                    Err(OutputError::AssignmentsNotTerminated)
                } else {
                    Ok(Solution::Satisfiable { assignments })
                }
            },
            Some(Solution::Unsatisfiable) => Ok(Solution::Unsatisfiable),
        }
    }
}

/// The bytes of `s` from `start` on.
fn slice_from(s: &[u8], start: usize) -> (r: &[u8])
    requires
        start <= s@.len(),
    ensures
        r@ == s@.subrange(start as int, s@.len() as int),
{
    let (_, r) = s.split_at(start);
    r
}

} // verus!
