use sudoku_sat::sudoku::{Cell, Col, Row};

#[test]
fn box_consistency() {
    for cell in Cell::values() {
        let box_ = cell.box_();
        assert_eq!(3, box_.rows().len());
        assert_eq!(3, box_.cols().len());
        assert_eq!(9, box_.cells().len());
        assert_eq!(1, box_.rows().iter().filter(|r| **r == cell.row).count());
        assert_eq!(1, box_.cols().iter().filter(|c| **c == cell.col).count());
        assert_eq!(1, box_.cells().iter().filter(|c| **c == cell).count());
    }
}

#[test]
fn each_cell_in_exactly_one_box() {
    let boxes = sudoku_sat::sudoku::Box::values();
    for cell in Cell::values() {
        let holding = boxes.iter().filter(|b| b.cells().contains(&cell)).count();
        assert_eq!(1, holding);
        assert!(cell.box_().cells().contains(&cell));
    }
}

#[test]
fn box_numbering() {
    let cell = Cell { row: Row::new(5).unwrap(), col: Col::new(7).unwrap() };
    assert_eq!(6, cell.box_().as_u8());
    let cell = Cell { row: Row::new(9).unwrap(), col: Col::new(1).unwrap() };
    assert_eq!(7, cell.box_().as_u8());
}

#[test]
fn sees_other_is_symmetric_and_irreflexive() {
    let cells = Cell::values();
    for a in &cells {
        assert!(!a.sees_other(*a));
        for b in &cells {
            assert_eq!(a.sees_other(*b), b.sees_other(*a));
        }
    }
}

#[test]
fn corner_cell_sees_twenty() {
    let corner = Cell { row: Row::new(1).unwrap(), col: Col::new(1).unwrap() };
    let seen = Cell::values().into_iter().filter(|c| corner.sees_other(*c)).count();
    assert_eq!(20, seen);
}

#[test]
fn common_houses_counts() {
    let a = Cell { row: Row::new(1).unwrap(), col: Col::new(1).unwrap() };
    let b = Cell { row: Row::new(1).unwrap(), col: Col::new(2).unwrap() };
    let c = Cell { row: Row::new(5).unwrap(), col: Col::new(5).unwrap() };
    assert_eq!(3, a.common_houses(a));
    assert_eq!(2, a.common_houses(b));
    assert_eq!(0, a.common_houses(c));
}

#[test]
fn bounded_scalars() {
    assert!(Row::new(0).is_none());
    assert!(Row::new(10).is_none());
    assert_eq!(4, Row::new(5).unwrap().index());
    assert_eq!(9, Col::values().len());
    assert_eq!(81, Cell::values().len());
}
