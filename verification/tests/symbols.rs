use compile_sysy::ast_tool::{eval_binary_const, eval_unary_const, RenameManager, ValueType};
use compile_sysy::lalr::{BType, BinaryOp, UnaryOp};

#[test]
fn declarations_are_numbered_per_name() {
    let mut m = RenameManager::new();
    assert_eq!(m.new_variable("x".to_string()), Some(1));
    assert_eq!(m.new_variable("y".to_string()), Some(1));
    assert_eq!(m.get_current_name(&"x".to_string()), Some(1));
    assert_eq!(m.get_current_name(&"z".to_string()), None);
}

#[test]
fn a_second_declaration_at_the_same_time_is_not_recorded() {
    let mut m = RenameManager::new();
    assert_eq!(m.new_variable("x".to_string()), Some(1));
    assert_eq!(m.new_variable("x".to_string()), None);
    assert_eq!(m.get_current_name(&"x".to_string()), Some(1));
}

#[test]
fn rollback_forgets_inner_declarations() {
    let mut m = RenameManager::new();
    assert_eq!(m.new_variable("x".to_string()), Some(1));
    let outer = m.record();
    m.increment();
    assert_eq!(m.new_variable("x".to_string()), Some(2));
    assert_eq!(m.get_current_name(&"x".to_string()), Some(2));
    m.rollback(outer);
    assert_eq!(m.get_current_name(&"x".to_string()), Some(1));
    m.increment();
    assert_eq!(m.new_variable("x".to_string()), Some(3));
}

#[test]
fn value_types_follow_declared_dimensions() {
    match ValueType::from_dims(&[2, 3]) {
        ValueType::Array(2, inner) => assert!(matches!(*inner, ValueType::Array(3, ref t) if matches!(**t, ValueType::Int))),
        other => panic!("unexpected {:?}", other),
    }
    assert!(matches!(ValueType::from_dims(&[]), ValueType::Int));
    match ValueType::from_btype(&BType::Ptr(Box::new(BType::I32))) {
        ValueType::Pointer(inner) => assert!(matches!(*inner, ValueType::Int)),
        other => panic!("unexpected {:?}", other),
    }
}

#[test]
fn constants_fold() {
    assert_eq!(eval_unary_const(&UnaryOp::Neg, 5), -5);
    assert_eq!(eval_unary_const(&UnaryOp::Not, 0), 1);
    assert_eq!(eval_unary_const(&UnaryOp::Not, 7), 0);
    assert_eq!(eval_binary_const(&BinaryOp::Add, 2, 3), 5);
    assert_eq!(eval_binary_const(&BinaryOp::Div, -7, 2), -3);
    assert_eq!(eval_binary_const(&BinaryOp::Mod, -7, 2), -1);
    assert_eq!(eval_binary_const(&BinaryOp::Le, 2, 2), 1);
    assert_eq!(eval_binary_const(&BinaryOp::And, 2, 0), 0);
    assert_eq!(eval_binary_const(&BinaryOp::Or, 0, 9), 1);
}
