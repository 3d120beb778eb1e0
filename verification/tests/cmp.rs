use pinned_deque::PinnedDeque;
use std::cmp::Ordering;

fn deque(xs: Vec<usize>) -> PinnedDeque<usize> {
    let mut d = PinnedDeque::with_capacity_per_chunk(2);
    d.extend(xs);
    d
}

#[test]
fn cmp_first_difference_decides() {
    assert_eq!(deque(vec![2]).cmp(&deque(vec![1, 9])), Ordering::Greater);
    assert_eq!(deque(vec![1, 1]).cmp(&deque(vec![1, 2])), Ordering::Less);
    assert_eq!(
        deque(vec![3, 1, 4]).cmp(&deque(vec![3, 1, 4])),
        Ordering::Equal
    );
}

#[test]
fn cmp_length_breaks_tie() {
    assert_eq!(deque(vec![1, 2]).cmp(&deque(vec![1, 2, 3])), Ordering::Less);
    assert_eq!(
        deque(vec![1, 2, 3]).cmp(&deque(vec![1, 2])),
        Ordering::Greater
    );
    assert_eq!(deque(vec![]).cmp(&deque(vec![])), Ordering::Equal);
    assert_eq!(deque(vec![]).cmp(&deque(vec![0])), Ordering::Less);
}

#[test]
fn partial_cmp_matches_cmp_on_integers() {
    let pairs = vec![
        (vec![], vec![]),
        (vec![1], vec![]),
        (vec![1, 2], vec![1, 2, 3]),
        (vec![5, 1], vec![4, 9, 9]),
        (vec![7, 7], vec![7, 7]),
    ];
    for (a, b) in pairs {
        let da = deque(a);
        let db = deque(b);
        assert_eq!(da.partial_cmp(&db), Some(da.cmp(&db)));
    }
}

#[test]
fn eq_elementwise_with_length() {
    assert!(deque(vec![1, 2, 3]).eq(&deque(vec![1, 2, 3])));
    assert!(!deque(vec![1, 2, 3]).eq(&deque(vec![1, 2])));
    assert!(!deque(vec![1, 2, 3]).eq(&deque(vec![1, 2, 4])));
    assert!(deque(vec![]).eq(&deque(vec![])));
    // the per-page capacity does not matter, only the contents
    let mut wide = PinnedDeque::<usize>::with_capacity_per_chunk(7);
    wide.extend(vec![1, 2, 3]);
    assert!(deque(vec![1, 2, 3]).eq(&wide));
}

#[test]
fn cmp_ignores_page_layout() {
    let mut front_built = PinnedDeque::<usize>::with_capacity_per_chunk(2);
    front_built.push_front(2);
    front_built.push_front(1);
    let back_built = deque(vec![1, 2]);
    assert_eq!(front_built.cmp(&back_built), Ordering::Equal);
    assert!(front_built.eq(&back_built));
}
