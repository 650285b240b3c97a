use numbers_game::candidate::OpsList;
use numbers_game::operation::OperationType;
use numbers_game::solve::solve;

#[test]
fn finds_exact_solution() {
    let best = solve(105, vec![75, 10, 7, 2, 4, 9]).expect("a candidate");
    assert_eq!(best.distance(105), 0);
    assert_eq!(best.result, 105);
    // The trail chains: each operation uses the previous result.
    if let OpsList::Ops(ops) = &best.ops {
        for w in ops.windows(2) {
            let prev = w[0].result().unwrap();
            assert!(w[1].op1 == prev || w[1].op2 == prev);
        }
        assert_eq!(ops.last().unwrap().result(), Some(105));
    } else {
        panic!("an exact solution has operations");
    }
}

#[test]
fn single_number_is_best_effort() {
    let best = solve(5, vec![1]).expect("a candidate");
    assert_eq!(best.ops, OpsList::OneOperand(1));
    assert_eq!(best.result, 1);
    assert_eq!(best.distance(5), 4);
}

#[test]
fn no_numbers_no_candidate() {
    assert!(solve(5, vec![]).is_none());
}

#[test]
fn nothing_closer_than_goal_gives_no_candidate() {
    assert!(solve(5, vec![10]).is_none());
}

#[test]
fn solver_is_deterministic() {
    let a = solve(123, vec![75, 10, 7, 2]);
    let b = solve(123, vec![75, 10, 7, 2]);
    assert_eq!(a, b);
    let c = solve(123, vec![2, 7, 10, 75]);
    assert_eq!(a, c);
}

#[test]
fn first_exact_match_in_breadth_first_order() {
    let best = solve(9, vec![4, 5, 9]).expect("a candidate");
    assert_eq!(best.ops, OpsList::OneOperand(9));
    let best = solve(9, vec![4, 5]).expect("a candidate");
    match &best.ops {
        OpsList::Ops(ops) => {
            assert_eq!(ops.len(), 1);
            assert_eq!(ops[0].op_type, OperationType::Addition);
        }
        _ => panic!("expected one operation"),
    }
}

#[test]
fn best_effort_keeps_first_closest() {
    let best = solve(100, vec![3, 5]).expect("a candidate");
    assert_eq!(best.result, 15);
    assert_eq!(best.distance(100), 85);
}
