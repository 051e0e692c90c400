//! The parts of the library on their own.
use pil_analyzer::analyzed::{Expression, RepeatedArray};
use pil_analyzer::error::AnalysisError;
use pil_analyzer::lines::{compute_line_starts, offset_to_line};
use pil_analyzer::name_map::NameMap;
use pil_analyzer::number::{FieldElement, GoldilocksField, GOLDILOCKS_MODULUS};
use pil_analyzer::parsed;
use pil_analyzer::parsed::{ArrayExpression, BinaryOperator, UnaryOperator};

fn binary(left: u64, op: BinaryOperator, right: u64) -> Option<u64> {
    GoldilocksField::evaluate_binary_operation(
        GoldilocksField::new(left),
        op,
        GoldilocksField::new(right),
    )
    .map(|v| v.to_integer())
}

fn unary(op: UnaryOperator, value: u64) -> u64 {
    GoldilocksField::evaluate_unary_operation(op, GoldilocksField::new(value)).to_integer()
}

#[test]
fn field_elements_are_reduced() {
    assert_eq!(GOLDILOCKS_MODULUS, 18446744069414584321);
    assert_eq!(GoldilocksField::new(GOLDILOCKS_MODULUS).to_integer(), 0);
    assert_eq!(GoldilocksField::new(u64::MAX).to_integer(), 0xffff_fffe);
    assert_eq!(GoldilocksField::new(7).to_degree(), Some(7));
}

#[test]
fn field_arithmetic() {
    let last = GOLDILOCKS_MODULUS - 1;
    assert_eq!(binary(last, BinaryOperator::Add, 3), Some(2));
    assert_eq!(binary(2, BinaryOperator::Sub, 3), Some(last));
    assert_eq!(binary(last, BinaryOperator::Mul, last), Some(1));
    assert_eq!(binary(1 << 32, BinaryOperator::Mul, 1 << 32), Some(0xffff_ffff));
    assert_eq!(binary(17, BinaryOperator::Div, 5), Some(3));
    assert_eq!(binary(17, BinaryOperator::Div, 0), None);
    assert_eq!(binary(17, BinaryOperator::Mod, 5), Some(2));
    assert_eq!(binary(17, BinaryOperator::Mod, 0), None);
    assert_eq!(binary(3, BinaryOperator::Pow, 5), Some(243));
    assert_eq!(binary(0, BinaryOperator::Pow, 0), Some(1));
    assert_eq!(binary(2, BinaryOperator::Pow, 64), Some(0xffff_ffff));
    // Every unit to the number of units is one.
    assert_eq!(binary(7, BinaryOperator::Pow, last), Some(1));
}

#[test]
fn field_bits() {
    assert_eq!(binary(12, BinaryOperator::BinaryAnd, 10), Some(8));
    assert_eq!(binary(12, BinaryOperator::BinaryOr, 10), Some(14));
    assert_eq!(binary(12, BinaryOperator::BinaryXor, 10), Some(6));
    assert_eq!(binary(3, BinaryOperator::ShiftLeft, 4), Some(48));
    assert_eq!(binary(3, BinaryOperator::ShiftLeft, 64), Some(0));
    assert_eq!(binary(48, BinaryOperator::ShiftRight, 4), Some(3));
    assert_eq!(binary(48, BinaryOperator::ShiftRight, 64), Some(0));
}

#[test]
fn field_comparisons() {
    assert_eq!(binary(1, BinaryOperator::Less, 2), Some(1));
    assert_eq!(binary(2, BinaryOperator::Less, 2), Some(0));
    assert_eq!(binary(2, BinaryOperator::LessEqual, 2), Some(1));
    assert_eq!(binary(2, BinaryOperator::Equal, 2), Some(1));
    assert_eq!(binary(2, BinaryOperator::NotEqual, 2), Some(0));
    assert_eq!(binary(2, BinaryOperator::GreaterEqual, 3), Some(0));
    assert_eq!(binary(3, BinaryOperator::Greater, 2), Some(1));
    assert_eq!(binary(0, BinaryOperator::LogicalOr, 9), Some(1));
    assert_eq!(binary(0, BinaryOperator::LogicalAnd, 9), Some(0));
    assert_eq!(binary(8, BinaryOperator::LogicalAnd, 9), Some(1));
}

#[test]
fn field_signs() {
    assert_eq!(unary(UnaryOperator::Plus, 5), 5);
    assert_eq!(unary(UnaryOperator::Minus, 5), GOLDILOCKS_MODULUS - 5);
    assert_eq!(unary(UnaryOperator::Minus, 0), 0);
    assert_eq!(unary(UnaryOperator::LogicalNot, 5), 0);
    assert_eq!(unary(UnaryOperator::LogicalNot, 0), 1);
}

#[test]
fn lines_start_after_newlines() {
    assert_eq!(compute_line_starts(""), vec![0]);
    assert_eq!(compute_line_starts("abc"), vec![0]);
    assert_eq!(compute_line_starts("a\nbc\n\nd"), vec![0, 2, 5, 6]);
    assert_eq!(compute_line_starts("a\n"), vec![0, 2]);
    // Offsets count bytes.
    assert_eq!(compute_line_starts("\u{e4}\nb"), vec![0, 3]);
}

#[test]
fn lines_of_offsets() {
    let starts = compute_line_starts("a\nbc\n\nd");
    let lines: Vec<usize> = (0..8).map(|offset| offset_to_line(offset, &starts)).collect();
    assert_eq!(lines, vec![1, 1, 2, 2, 2, 3, 4, 4]);
    assert_eq!(offset_to_line(5, &vec![]), 0);
}

#[test]
fn names_keep_their_order() {
    let mut map: NameMap<u64> = NameMap::new();
    assert_eq!(map.len(), 0);
    map.insert("b".to_string(), 1);
    map.insert("a".to_string(), 2);
    map.insert("b".to_string(), 3);
    assert_eq!(map.len(), 2);
    assert_eq!(map.get("b"), Some(&3));
    assert_eq!(map.get("c"), None);
    assert!(map.contains_key("a"));
    assert!(!map.contains_key(""));
    assert_eq!((map.name_at(0).as_str(), *map.value_at(0)), ("b", 3));
    assert_eq!((map.name_at(1).as_str(), *map.value_at(1)), ("a", 2));
}

fn ones(count: usize) -> Vec<parsed::Expression<u8>> {
    (0..count).map(|_| parsed::Expression::Number(1)).collect()
}

#[test]
fn the_part_that_repeats_takes_what_is_left() {
    let both = ArrayExpression::Concat(
        Box::new(ArrayExpression::Value(ones(3))),
        Box::new(ArrayExpression::RepeatedValue(ones(2))),
    );
    assert_eq!(both.solve(10), Ok(7));
    assert_eq!(both.solve(3), Ok(0));
    assert_eq!(both.solve(2), Err(AnalysisError::ArrayTooLarge));
    let twice = ArrayExpression::Concat(
        Box::new(both),
        Box::new(ArrayExpression::RepeatedValue(ones(0))),
    );
    assert_eq!(twice.solve(10), Err(AnalysisError::RepeatedMoreThanOnce));
}

#[test]
fn rows_need_values() {
    let empty: Vec<Expression<u8>> = vec![];
    assert_eq!(RepeatedArray::new(empty, 0).ok().unwrap().size(), 0);
    let empty: Vec<Expression<u8>> = vec![];
    assert_eq!(RepeatedArray::new(empty, 1).err(), Some(AnalysisError::EmptyPattern));
    let one = vec![Expression::Number(1u8)];
    assert_eq!(RepeatedArray::new(one, 5).ok().unwrap().size(), 5);
}
