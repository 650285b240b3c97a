use numbers_game::operation::{Operation, OperationType};

#[test]
fn new_puts_larger_operand_first() {
    let op = Operation::new(2, 7, OperationType::Addition);
    assert_eq!(op.op1, 7);
    assert_eq!(op.op2, 2);
    let same = Operation::new(7, 2, OperationType::Addition);
    assert_eq!(op, same);
}

#[test]
fn new_keeps_equal_operands() {
    let op = Operation::new(5, 5, OperationType::Division);
    assert_eq!((op.op1, op.op2), (5, 5));
}

#[test]
fn swapped_arguments_give_identical_operation() {
    for t in [
        OperationType::Addition,
        OperationType::Subtraction,
        OperationType::Multiplication,
        OperationType::Division,
    ] {
        let a = Operation::new(3, 12, t);
        let b = Operation::new(12, 3, t);
        assert_eq!(a, b);
        assert!(a.op1 >= a.op2);
    }
}

#[test]
fn addition_and_multiplication_always_possible() {
    assert!(Operation::new(0, 0, OperationType::Addition).is_possible());
    assert!(Operation::new(9, 4, OperationType::Multiplication).is_possible());
}

#[test]
fn subtraction_needs_strictly_larger_operand() {
    assert!(Operation::new(7, 2, OperationType::Subtraction).is_possible());
    assert!(Operation::new(2, 7, OperationType::Subtraction).is_possible());
    assert!(!Operation::new(4, 4, OperationType::Subtraction).is_possible());
}

#[test]
fn division_needs_exact_multiple() {
    assert!(!Operation::new(7, 2, OperationType::Division).is_possible());
    assert!(Operation::new(10, 2, OperationType::Division).is_possible());
    assert!(Operation::new(2, 10, OperationType::Division).is_possible());
    assert_eq!(Operation::new(10, 2, OperationType::Division).result(), Some(5));
    assert_eq!(Operation::new(7, 2, OperationType::Division).result(), None);
}

#[test]
fn division_by_zero_is_not_possible() {
    assert!(!Operation::new(5, 0, OperationType::Division).is_possible());
    assert!(!Operation::new(0, 0, OperationType::Division).is_possible());
    assert_eq!(Operation::new(0, 5, OperationType::Division).result(), None);
}

#[test]
fn results_of_each_kind() {
    assert_eq!(Operation::new(7, 2, OperationType::Addition).result(), Some(9));
    assert_eq!(Operation::new(2, 7, OperationType::Subtraction).result(), Some(5));
    assert_eq!(Operation::new(7, 2, OperationType::Multiplication).result(), Some(14));
    assert_eq!(Operation::new(3, 3, OperationType::Subtraction).result(), None);
}

#[test]
fn results_that_do_not_fit_are_undefined() {
    assert_eq!(Operation::new(u32::MAX, 1, OperationType::Addition).result(), None);
    assert_eq!(Operation::new(u32::MAX, 2, OperationType::Multiplication).result(), None);
    assert_eq!(Operation::new(u32::MAX, 0, OperationType::Addition).result(), Some(u32::MAX));
}

#[test]
fn all_possible_ops_filters_invalid_ones() {
    let ops = Operation::create_all_possible_ops(2, 7);
    assert_eq!(
        ops,
        vec![
            Operation::new(7, 2, OperationType::Addition),
            Operation::new(7, 2, OperationType::Subtraction),
            Operation::new(7, 2, OperationType::Multiplication),
        ]
    );
}

#[test]
fn all_possible_ops_with_exact_division() {
    let ops = Operation::create_all_possible_ops(10, 2);
    assert_eq!(ops.len(), 4);
    assert_eq!(ops[3].op_type, OperationType::Division);
    assert_eq!(ops[3].result(), Some(5));
}

#[test]
fn all_possible_ops_of_equal_numbers() {
    let ops = Operation::create_all_possible_ops(5, 5);
    let kinds: Vec<OperationType> = ops.iter().map(|o| o.op_type).collect();
    assert_eq!(
        kinds,
        vec![OperationType::Addition, OperationType::Multiplication, OperationType::Division]
    );
}

#[test]
fn symbols() {
    assert_eq!(OperationType::Addition.symbol(), '+');
    assert_eq!(OperationType::Subtraction.symbol(), '−');
    assert_eq!(OperationType::Multiplication.symbol(), '×');
    assert_eq!(OperationType::Division.symbol(), '÷');
}

#[test]
fn render_operation() {
    assert_eq!(Operation::new(2, 7, OperationType::Addition).render(), "7 + 2 = 9");
    assert_eq!(Operation::new(10, 2, OperationType::Division).render(), "10 ÷ 2 = 5");
    assert_eq!(Operation::new(7, 2, OperationType::Division).render(), "7 ÷ 2 = X");
    assert_eq!(Operation::new(4, 9, OperationType::Multiplication).render(), "9 × 4 = 36");
    assert_eq!(Operation::new(75, 36, OperationType::Subtraction).render(), "75 − 36 = 39");
}
