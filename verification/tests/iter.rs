use pinned_deque::PinnedDeque;

#[test]
fn iter_forward_order() {
    let trial = PinnedDeque::from_vec(vec![10, 20, 30, 40, 50]);
    let mut it = trial.iter();
    let mut seen: Vec<i32> = Vec::new();
    while let Some(x) = it.next() {
        seen.push(*x);
    }
    assert_eq!(seen, vec![10, 20, 30, 40, 50]);
    assert!(it.next().is_none());
    assert!(it.next_back().is_none());
}

#[test]
fn iter_backward_order() {
    let trial = PinnedDeque::from_vec(vec![10, 20, 30, 40, 50]);
    let mut it = trial.iter();
    let mut seen: Vec<i32> = Vec::new();
    while let Some(x) = it.next_back() {
        seen.push(*x);
    }
    assert_eq!(seen, vec![50, 40, 30, 20, 10]);
    assert!(it.next().is_none());
}

#[test]
fn iter_bothwards() {
    // pages of two slots, so both cursors cross page boundaries
    let mut trial = PinnedDeque::<usize>::with_capacity_per_chunk(2);
    for x in 0..7 {
        trial.push_back(x);
    }
    let mut front_half: Vec<usize> = Vec::new();
    let mut back_half: Vec<usize> = Vec::new();
    let mut it = trial.iter();
    loop {
        let Some(front) = it.next() else {
            break;
        };
        front_half.push(*front);
        let Some(back) = it.next_back() else {
            break;
        };
        back_half.push(*back);
    }
    assert_eq!(front_half, vec![0, 1, 2, 3]);
    assert_eq!(back_half, vec![6, 5, 4]);
}

#[test]
fn iter_size_hint() {
    let mut trial = PinnedDeque::<usize>::with_capacity_per_chunk(2);
    for x in 0..5 {
        trial.push_back(x);
    }
    let mut hints: Vec<(usize, Option<usize>)> = Vec::new();
    let mut it = trial.iter();
    loop {
        hints.push(it.size_hint());
        let Some(_) = it.next() else {
            break;
        };
        hints.push(it.size_hint());
        let Some(_) = it.next_back() else {
            break;
        };
    }
    assert_eq!(
        hints,
        vec![
            (5, Some(5)),
            (4, Some(4)),
            (3, Some(3)),
            (2, Some(2)),
            (1, Some(1)),
            (0, Some(0)),
        ]
    );
}

#[test]
fn intoiter_both_ends() {
    let mut trial = PinnedDeque::<usize>::with_capacity_per_chunk(2);
    for x in 0..5 {
        trial.push_back(x);
    }
    let mut it = trial.into_iter();
    assert_eq!(it.size_hint(), (5, Some(5)));
    assert_eq!(it.next(), Some(0));
    assert_eq!(it.next_back(), Some(4));
    assert_eq!(it.next(), Some(1));
    assert_eq!(it.next_back(), Some(3));
    assert_eq!(it.size_hint(), (1, Some(1)));
    assert_eq!(it.next(), Some(2));
    assert_eq!(it.next(), None);
    assert_eq!(it.next_back(), None);
}

#[test]
fn iter_after_mixed_pushes() {
    let mut trial = PinnedDeque::<i64>::with_capacity_per_chunk(2);
    trial.push_back(3);
    trial.push_front(2);
    trial.push_front(1);
    trial.push_back(4);
    trial.push_front(0);
    let mut it = trial.iter();
    let mut seen: Vec<i64> = Vec::new();
    while let Some(x) = it.next() {
        seen.push(*x);
    }
    assert_eq!(seen, vec![0, 1, 2, 3, 4]);
}
