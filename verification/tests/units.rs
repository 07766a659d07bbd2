use lrfrp::ast::expressions::{BinOp, Precedence};
use lrfrp::lrfrp_ir::tsort::tsort;
use lrfrp::runtime::{value_dup, value_eq, Value};

#[test]
fn tsort_orders_dependencies_first() {
    // 0 depends on 1 and 2; 1 depends on 2
    let adj: Vec<Vec<usize>> = vec![vec![1, 2], vec![2], vec![]];
    let order = tsort(&adj).expect("an acyclic graph sorts");
    let pos = |n: usize| order.iter().position(|x| *x == n).unwrap();
    assert!(pos(2) < pos(1));
    assert!(pos(1) < pos(0));
    assert_eq!(order.len(), 3);
}

#[test]
fn tsort_reports_a_node_on_the_cycle() {
    // 0 -> 1 -> 2 -> 1, with 3 apart
    let adj: Vec<Vec<usize>> = vec![vec![1], vec![2], vec![1], vec![]];
    let c = tsort(&adj).err().expect("a cyclic graph is rejected");
    assert!(c == 1 || c == 2);
}

#[test]
fn tsort_accepts_the_empty_graph() {
    let adj: Vec<Vec<usize>> = vec![];
    let order = tsort(&adj).expect("the empty graph sorts");
    assert!(order.is_empty());
}

#[test]
fn tsort_rejects_a_self_loop() {
    let adj: Vec<Vec<usize>> = vec![vec![0]];
    let c = tsort(&adj).err().expect("a self-loop is a cycle");
    assert_eq!(c, 0);
}

#[test]
fn precedence_of_operators_matches_the_grammar() {
    assert_eq!(Precedence::of(&BinOp::Add), Precedence::Arithmetic);
    assert_eq!(Precedence::of(&BinOp::Mul), Precedence::Term);
    assert_eq!(Precedence::of(&BinOp::Pow), Precedence::Pow);
    assert_eq!(Precedence::of(&BinOp::And), Precedence::And);
    assert_eq!(Precedence::of(&BinOp::Or), Precedence::Or);
    assert_eq!(Precedence::of(&BinOp::Eq), Precedence::Compare);
    assert_eq!(Precedence::of(&BinOp::Shl), Precedence::Shift);
    assert_eq!(Precedence::of(&BinOp::BitXor), Precedence::BitXor);
}

#[test]
fn values_copy_and_compare_structurally() {
    let v = Value::Tuple(vec![
        Value::Int(3),
        Value::List(vec![Value::Bool(true), Value::Bool(false)]),
    ]);
    let c = value_dup(&v);
    assert_eq!(value_eq(&v, &c), Some(true));
    let other = Value::Tuple(vec![
        Value::Int(3),
        Value::List(vec![Value::Bool(true), Value::Bool(true)]),
    ]);
    assert_eq!(value_eq(&v, &other), Some(false));
    // mismatched kinds cannot be compared
    assert_eq!(value_eq(&Value::Int(1), &Value::Bool(true)), None);
}
