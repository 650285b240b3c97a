use numbers_game::number_list::NumberList;

fn picks_of(values: Vec<u32>) -> Vec<(u32, NumberList)> {
    NumberList::new(values).build_possibilities()
}

#[test]
fn one_pick_per_distinct_value() {
    let picks = picks_of(vec![3, 1, 3, 2, 3]);
    let values: Vec<u32> = picks.iter().map(|p| p.0).collect();
    assert_eq!(values, vec![1, 2, 3]);
    assert_eq!(picks[0].1, NumberList::new(vec![2, 3, 3, 3]));
    assert_eq!(picks[1].1, NumberList::new(vec![1, 3, 3, 3]));
    assert_eq!(picks[2].1, NumberList::new(vec![1, 2, 3, 3]));
}

#[test]
fn all_equal_values_give_one_pick() {
    let picks = picks_of(vec![4, 4, 4, 4]);
    assert_eq!(picks.len(), 1);
    assert_eq!(picks[0].0, 4);
    assert_eq!(picks[0].1, NumberList::new(vec![4, 4, 4]));
    assert_eq!(picks[0].1.len(), 3);
}

#[test]
fn empty_list_gives_no_picks() {
    assert!(picks_of(vec![]).is_empty());
}

#[test]
fn single_value_leaves_empty_rest() {
    let picks = picks_of(vec![9]);
    assert_eq!(picks.len(), 1);
    assert_eq!(picks[0].0, 9);
    assert_eq!(picks[0].1.len(), 0);
}

#[test]
fn order_of_values_does_not_matter() {
    assert_eq!(NumberList::new(vec![75, 10, 7]), NumberList::new(vec![7, 75, 10]));
    assert_ne!(NumberList::new(vec![7, 7]), NumberList::new(vec![7]));
}

#[test]
fn picks_come_in_ascending_order() {
    let picks = picks_of(vec![75, 10, 7, 2, 4, 9]);
    let values: Vec<u32> = picks.iter().map(|p| p.0).collect();
    assert_eq!(values, vec![2, 4, 7, 9, 10, 75]);
}

#[test]
fn duplicate_is_equal() {
    let list = NumberList::new(vec![5, 1, 5]);
    assert_eq!(list.duplicate(), list);
}
