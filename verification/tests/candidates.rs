use sudoku_solver::{CandidateSet, CandidateSetIterator};

fn digits_of(set: CandidateSet) -> Vec<u8> {
    let mut cursor = set.into_iter();
    let mut out = Vec::new();
    while let Some(d) = cursor.next() {
        out.push(d);
    }
    out
}

#[test]
fn full_set_holds_all_nine_digits_in_ascending_order() {
    assert_eq!(digits_of(CandidateSet::new()), vec![1, 2, 3, 4, 5, 6, 7, 8, 9]);
}

#[test]
fn remove_takes_one_digit_out() {
    let mut set = CandidateSet::new();
    set.remove(1);
    set.remove(5);
    set.remove(9);
    assert_eq!(digits_of(set), vec![2, 3, 4, 6, 7, 8]);
    set.remove(5);
    assert_eq!(digits_of(set), vec![2, 3, 4, 6, 7, 8]);
}

#[test]
fn insert_puts_one_digit_back() {
    let mut set = CandidateSet::new();
    for d in 1..=9 {
        set.remove(d);
    }
    assert_eq!(digits_of(set), Vec::<u8>::new());
    set.insert(7);
    set.insert(2);
    set.insert(7);
    assert_eq!(digits_of(set), vec![2, 7]);
}

#[test]
fn intersect_keeps_the_common_digits() {
    let mut a = CandidateSet::new();
    a.remove(1);
    a.remove(2);
    let mut b = CandidateSet::new();
    b.remove(2);
    b.remove(3);
    let mut c = CandidateSet::new();
    c.remove(9);
    assert_eq!(digits_of(a.intersect(b).intersect(c)), vec![4, 5, 6, 7, 8]);
}

#[test]
fn iteration_can_be_restarted_from_the_set() {
    let mut set = CandidateSet::new();
    set.remove(4);
    assert_eq!(digits_of(set), digits_of(set));
}

#[test]
fn cursor_ends_with_none_and_stays_empty() {
    let mut set = CandidateSet::new();
    for d in 2..=9 {
        set.remove(d);
    }
    let mut cursor = set.into_iter();
    assert!(!cursor.is_empty());
    assert_eq!(cursor.next(), Some(1));
    assert!(cursor.is_empty());
    assert_eq!(cursor.next(), None);
    assert_eq!(cursor.next(), None);
}

#[test]
fn empty_cursor_is_empty_and_not_fixed() {
    let mut cursor = CandidateSetIterator::empty();
    assert!(cursor.is_empty());
    assert!(!cursor.is_fixed());
    assert_eq!(cursor.next(), None);
}

#[test]
fn fixed_cursor_is_fixed_and_not_empty() {
    let cursor = CandidateSetIterator::fixed();
    assert!(cursor.is_fixed());
    assert!(!cursor.is_empty());
}

#[test]
fn cursor_of_a_set_is_not_fixed() {
    assert!(!CandidateSet::new().into_iter().is_fixed());
}
