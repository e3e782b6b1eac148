use sudoku_sat::iter_singleton::{singleton, SingletonError};
use sudoku_sat::literal::Literal;
use sudoku_sat::positive_i32::PositiveI32;
use sudoku_sat::variable::Variable;

#[test]
fn negation_is_an_involution() {
    for i in [1, -1, 7, -42, i32::MAX, -i32::MAX] {
        let l = Literal::from_index(i).unwrap();
        assert_eq!(-i, l.negated().index());
        assert_eq!(i, l.negated().negated().index());
    }
}

#[test]
fn minimum_index_is_no_literal() {
    assert!(Literal::from_index(i32::MIN).is_none());
}

#[test]
fn literal_parts() {
    let v = Variable::from_index(PositiveI32::from_i32(5).unwrap());
    assert_eq!(5, v.as_positive().index());
    assert_eq!(-5, v.as_negative().index());
    assert_eq!(-5, v.as_literal(false).index());
    let l = Literal::from_index(-5).unwrap();
    assert!(!l.is_positive());
    assert_eq!(v, l.variable());
    assert_eq!(5, l.variable().index().as_i32());
}

#[test]
fn positive_i32_bounds() {
    assert!(PositiveI32::from_i32(0).is_none());
    assert!(PositiveI32::from_i32(-3).is_none());
    assert!(PositiveI32::from_u32(0).is_none());
    assert!(PositiveI32::from_u32(1 << 31).is_none());
    let p = PositiveI32::from_u32(12).unwrap();
    assert_eq!(12, p.as_u32());
    assert_eq!(12, p.as_non_zero_u32());
    assert_eq!(12, p.as_non_zero_i32());
    assert_eq!(-12, p.negated());
}

#[test]
fn singleton_cases() {
    assert!(matches!(singleton::<u8>(&[]), Err(SingletonError::ZeroItems)));
    assert_eq!(4, singleton(&[4]).unwrap());
    assert!(matches!(singleton(&[4, 5, 6]), Err(SingletonError::MultipleItems([4, 5]))));
}
