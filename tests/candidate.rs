use numbers_game::candidate::{Candidate, OpsList};
use numbers_game::number_list::NumberList;
use numbers_game::operation::{Operation, OperationType};

fn consumed(c: &Candidate) -> usize {
    match &c.ops {
        OpsList::Empty => 0,
        OpsList::OneOperand(_) => 1,
        OpsList::Ops(ops) => ops.len() + 1,
    }
}

#[test]
fn new_candidate_is_empty() {
    let c = Candidate::new(NumberList::new(vec![3, 1]));
    assert_eq!(c.ops, OpsList::Empty);
    assert_eq!(c.result, 0);
    assert_eq!(c.numbers, NumberList::new(vec![1, 3]));
}

#[test]
fn distance_is_absolute_difference() {
    let mut c = Candidate::new(NumberList::new(vec![]));
    c.result = 100;
    assert_eq!(c.distance(105), 5);
    c.result = 110;
    assert_eq!(c.distance(105), 5);
    c.result = 0;
    assert_eq!(c.distance(105), 105);
}

#[test]
fn first_generation_picks_one_number() {
    let kids = Candidate::new(NumberList::new(vec![2, 1, 2])).next_gen();
    assert_eq!(kids.len(), 2);
    assert_eq!(kids[0].ops, OpsList::OneOperand(1));
    assert_eq!(kids[0].result, 1);
    assert_eq!(kids[0].numbers, NumberList::new(vec![2, 2]));
    assert_eq!(kids[1].ops, OpsList::OneOperand(2));
    assert_eq!(kids[1].result, 2);
    assert_eq!(kids[1].numbers, NumberList::new(vec![1, 2]));
}

#[test]
fn second_generation_forms_first_operation() {
    let c = Candidate { numbers: NumberList::new(vec![2]), ops: OpsList::OneOperand(1), result: 1 };
    let kids = c.next_gen();
    let results: Vec<u32> = kids.iter().map(|k| k.result).collect();
    assert_eq!(results, vec![3, 1, 2, 2]);
    assert_eq!(kids[0].ops, OpsList::Ops(vec![Operation::new(2, 1, OperationType::Addition)]));
    assert!(kids.iter().all(|k| k.numbers.len() == 0));
}

#[test]
fn later_generation_extends_history() {
    let first = Operation::new(4, 9, OperationType::Multiplication);
    let c = Candidate { numbers: NumberList::new(vec![75]), ops: OpsList::Ops(vec![first]), result: 36 };
    let kids = c.next_gen();
    let results: Vec<u32> = kids.iter().map(|k| k.result).collect();
    assert_eq!(results, vec![111, 39, 2700]);
    assert_eq!(
        kids[1].ops,
        OpsList::Ops(vec![first, Operation::new(36, 75, OperationType::Subtraction)])
    );
}

#[test]
fn next_gen_keeps_total_count() {
    let root = Candidate::new(NumberList::new(vec![6, 3, 3, 2]));
    let total = 4;
    let mut layer = vec![root];
    for _ in 0..4 {
        let mut next = Vec::new();
        for c in layer {
            for k in c.next_gen() {
                assert_eq!(consumed(&k) + k.numbers.len(), total);
                next.push(k);
            }
        }
        layer = next;
    }
    assert!(!layer.is_empty());
}

#[test]
fn empty_numbers_give_no_children() {
    let c = Candidate { numbers: NumberList::new(vec![]), ops: OpsList::OneOperand(5), result: 5 };
    assert!(c.next_gen().is_empty());
}

#[test]
fn successors_match_next_gen() {
    let c = Candidate::new(NumberList::new(vec![1, 2, 3]));
    assert_eq!(c.successors(), c.duplicate().next_gen());
}

#[test]
fn render_candidates() {
    let none = Candidate::new(NumberList::new(vec![1]));
    assert_eq!(none.render(105), "None[dist = 105]");
    let one = Candidate { numbers: NumberList::new(vec![]), ops: OpsList::OneOperand(1), result: 1 };
    assert_eq!(one.render(5), "1 [dist = 4] **");
    let ops = vec![
        Operation::new(4, 9, OperationType::Multiplication),
        Operation::new(36, 75, OperationType::Addition),
    ];
    let two = Candidate { numbers: NumberList::new(vec![]), ops: OpsList::Ops(ops), result: 111 };
    assert_eq!(two.render(111), "9 × 4 = 36, 75 + 36 = 111,  ***");
    assert_eq!(two.render(103), "9 × 4 = 36, 75 + 36 = 111, [dist = 8] *");
    assert_eq!(two.render(100), "9 × 4 = 36, 75 + 36 = 111, [dist = 11]");
}
