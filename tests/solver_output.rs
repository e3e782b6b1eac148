use sudoku_sat::solver_output::{OutputError, OutputParser, Solution};

fn run(lines: &[&str]) -> Result<(Solution, Vec<bool>), OutputError> {
    let mut p = OutputParser::new();
    let mut echoes = Vec::new();
    for line in lines {
        echoes.push(p.feed_line(line.as_bytes())?);
    }
    Ok((p.finish()?, echoes))
}

fn assignment_indices(s: &Solution) -> Vec<(i32, bool)> {
    match s {
        Solution::Satisfiable { assignments } => {
            assignments.iter().map(|(v, b)| (v.index().as_i32(), *b)).collect()
        }
        Solution::Unsatisfiable => panic!("expected a model"),
    }
}

#[test]
fn satisfiable_output() {
    let (s, echoes) =
        run(&["c kissat", "s SATISFIABLE", "v 1 -2  3", "v\t-4 0", ""]).unwrap();
    assert_eq!(vec![(1, true), (2, false), (3, true), (4, false)], assignment_indices(&s));
    assert_eq!(vec![true, true, false, false, true], echoes);
}

#[test]
fn unsatisfiable_output() {
    let (s, _) = run(&["s UNSATISFIABLE"]).unwrap();
    assert!(matches!(s, Solution::Unsatisfiable));
    let (s, _) = run(&["s unsatisfiable  "]).unwrap();
    assert!(matches!(s, Solution::Unsatisfiable));
}

#[test]
fn output_errors() {
    assert_eq!(Some(OutputError::NoSolutionLine), run(&["c nothing"]).err());
    assert_eq!(
        Some(OutputError::MultipleSolutionLines),
        run(&["s SATISFIABLE", "s SATISFIABLE"]).err()
    );
    assert_eq!(Some(OutputError::UnknownSolution), run(&["s UNKNOWN"]).err());
    assert_eq!(Some(OutputError::SolutionLineNotOneWord), run(&["s"]).err());
    assert_eq!(Some(OutputError::SolutionLineNotOneWord), run(&["s A B"]).err());
    assert_eq!(Some(OutputError::AssignmentsBeforeSolution), run(&["v 1 0"]).err());
    assert_eq!(
        Some(OutputError::AssignmentAfterTerminator),
        run(&["s SATISFIABLE", "v 1 0 2"]).err()
    );
    assert_eq!(Some(OutputError::BadLiteral), run(&["s SATISFIABLE", "v 1x 0"]).err());
    assert_eq!(Some(OutputError::BadLiteral), run(&["s SATISFIABLE", "v 2147483648 0"]).err());
    assert_eq!(
        Some(OutputError::LiteralOutOfRange),
        run(&["s SATISFIABLE", "v -2147483648 0"]).err()
    );
    assert_eq!(
        Some(OutputError::AssignmentsNotTerminated),
        run(&["s SATISFIABLE", "v 1 2"]).err()
    );
}

#[test]
fn signed_literals() {
    let (s, _) = run(&["s SATISFIABLE", "v +5 -2147483647 0"]).unwrap();
    assert_eq!(vec![(5, true), (2147483647, false)], assignment_indices(&s));
}
