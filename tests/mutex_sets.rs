use mutex_watershed::mutex_sets::{
    check_mutex, insert_mutex, insert_mutex_for_two_representatives, merge_mutexes,
};

#[test]
fn check_mutex_finds_shared_id() {
    let m = vec![vec![1, 4, 9], vec![2, 4], vec![3, 5]];
    assert!(check_mutex(&m, 0, 1));
    assert!(!check_mutex(&m, 0, 2));
    assert!(!check_mutex(&m, 1, 2));
}

#[test]
fn check_mutex_empty_sets() {
    let m = vec![vec![], vec![1]];
    assert!(!check_mutex(&m, 0, 1));
    assert!(!check_mutex(&m, 0, 0));
    assert!(check_mutex(&m, 1, 1));
}

#[test]
fn insert_mutex_keeps_order_and_no_duplicates() {
    let mut m = vec![vec![2, 8], vec![]];
    insert_mutex(&mut m, 0, 5);
    assert_eq!(m[0], vec![2, 5, 8]);
    insert_mutex(&mut m, 0, 5);
    assert_eq!(m[0], vec![2, 5, 8]);
    insert_mutex(&mut m, 0, 0);
    insert_mutex(&mut m, 0, 9);
    assert_eq!(m[0], vec![0, 2, 5, 8, 9]);
    assert_eq!(m[1], Vec::<u32>::new());
}

#[test]
fn insert_for_two_representatives() {
    let mut m = vec![vec![1], vec![], vec![3]];
    insert_mutex_for_two_representatives(&mut m, 0, 2, 7);
    assert_eq!(m, vec![vec![1, 7], vec![], vec![3, 7]]);
}

#[test]
fn merge_mutexes_unions_sorted() {
    let mut m = vec![vec![1, 4, 6], vec![2, 4, 9]];
    merge_mutexes(&mut m, 0, 1);
    assert_eq!(m, vec![vec![], vec![1, 2, 4, 6, 9]]);
}

#[test]
fn merge_mutexes_into_empty_moves() {
    let mut m = vec![vec![3, 5], vec![]];
    merge_mutexes(&mut m, 0, 1);
    assert_eq!(m, vec![vec![], vec![3, 5]]);
}

#[test]
fn merge_mutexes_from_empty_or_same() {
    let mut m = vec![vec![], vec![3]];
    merge_mutexes(&mut m, 0, 1);
    assert_eq!(m, vec![vec![], vec![3]]);
    merge_mutexes(&mut m, 1, 1);
    assert_eq!(m, vec![vec![], vec![3]]);
}
