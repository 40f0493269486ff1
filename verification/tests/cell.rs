use sudoku::cell::Cell;

#[test]
fn test_cell() {
    let c = Cell::with_all();
    assert_eq!(vec![1, 2, 3, 4, 5, 6, 7, 8, 9], c.values());
    assert_eq!(9, c.count());
    assert_eq!(None, c.solution());
    assert!(!c.is_empty());

    let c = Cell::empty();
    assert_eq!(Vec::<i32>::new(), c.values());
    assert_eq!(0, c.count());
    assert_eq!(None, c.solution());
    assert!(c.is_empty());

    let c = Cell::with_values(&[1, 5, 7]);
    assert_eq!(vec![1, 5, 7], c.values());
    assert_eq!(3, c.count());
    assert_eq!(None, c.solution());
    assert!(!c.is_empty());

    let c = Cell::with_values(&[1, 5, 7]).remove(1).remove(7);
    assert_eq!(vec![5], c.values());
    assert_eq!(1, c.count());
    assert_eq!(Some(5), c.solution());
    assert!(!c.is_empty());

    let c = Cell::with_all().assign(9);
    assert_eq!(vec![9], c.values());
    assert_eq!(1, c.count());
    assert_eq!(Some(9), c.solution());
    assert!(!c.is_empty());
}

#[test]
fn full_set_yields_all_digits_ascending() {
    let c = Cell::with_all();
    assert_eq!(vec![1, 2, 3, 4, 5, 6, 7, 8, 9], c.values());
    assert_eq!(9, c.count());
    assert_eq!(None, c.solution());
    assert!(!c.is_empty());
    for d in 1..=9 {
        assert!(c.contains(d));
    }
}

#[test]
fn assign_leaves_exactly_one_digit() {
    for d in 1..=9 {
        let c = Cell::with_all().assign(d);
        assert_eq!(vec![d], c.values());
        assert_eq!(1, c.count());
        assert_eq!(Some(d), c.solution());
    }
}

#[test]
fn remove_present_digit_drops_count_by_one() {
    let c = Cell::with_values(&[2, 4, 6, 8]);
    let r = c.remove(6);
    assert_eq!(3, r.count());
    assert_eq!(vec![2, 4, 8], r.values());
    assert!(!r.contains(6));
}

#[test]
fn remove_absent_digit_is_a_no_op() {
    let c = Cell::with_values(&[2, 4, 6, 8]);
    let r = c.remove(5);
    assert_eq!(c, r);
    assert_eq!(vec![2, 4, 6, 8], r.values());
    let again = c.remove(6).remove(6);
    assert_eq!(c.remove(6), again);
}

#[test]
fn add_restores_a_removed_digit() {
    let c = Cell::empty().add(3).add(7);
    assert_eq!(vec![3, 7], c.values());
    assert_eq!(2, c.count());
}
