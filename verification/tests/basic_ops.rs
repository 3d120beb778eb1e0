use pinned_deque::PinnedDeque;
use std::cell::RefCell;
use std::collections::VecDeque;
use std::rc::Rc;

struct A {
    buf: Rc<RefCell<String>>,
    id: String,
}

impl Drop for A {
    fn drop(&mut self) {
        let line = format!("{} is dropped.\n", self.id);
        self.buf.borrow_mut().push_str(&line);
    }
}

#[test]
fn drop_elems_0() {
    let buf = Rc::new(RefCell::new(String::new()));
    {
        let mut trial = PinnedDeque::<A>::with_capacity_per_chunk(2);
        trial.push_back(A {
            buf: buf.clone(),
            id: "0".to_owned(),
        });
        trial.pop_back();
        buf.borrow_mut().push_str("popped back.\n");
    }
    assert_eq!(
        *buf.borrow(),
        "0 is dropped.\
        \npopped back.\n"
    );
}

#[test]
fn drop_elems_1() {
    let buf = Rc::new(RefCell::new(String::new()));
    {
        let mut trial = PinnedDeque::<A>::with_capacity_per_chunk(2);
        trial.push_back(A {
            buf: buf.clone(),
            id: "0".to_owned(),
        });
        trial.push_back(A {
            buf: buf.clone(),
            id: "1".to_owned(),
        });
        buf.borrow_mut().push_str("deque is dropping.\n");
    }
    assert_eq!(
        *buf.borrow(),
        "deque is dropping.\
        \n0 is dropped.\
        \n1 is dropped.\n"
    );
}

#[test]
fn clear() {
    let buf = Rc::new(RefCell::new(String::new()));
    {
        let mut trial = PinnedDeque::<A>::with_capacity_per_chunk(2);
        trial.push_back(A {
            buf: buf.clone(),
            id: "0".to_owned(),
        });
        trial.clear();
        buf.borrow_mut().push_str("cleared.\n");
    }
    assert_eq!(
        *buf.borrow(),
        "0 is dropped.\
        \ncleared.\n"
    );
}

#[test]
fn get_mut() {
    let mut trial = PinnedDeque::<usize>::with_capacity_per_chunk(2);
    trial.push_back(0);
    *trial.get_mut(0).unwrap() = 1;
    let trial: Vec<_> = trial.to_vec();
    assert_eq!(trial, vec![1]);
}

#[test]
fn back_mut() {
    let mut trial = PinnedDeque::<usize>::with_capacity_per_chunk(2);
    trial.push_back(0);
    *trial.back_mut().unwrap() = 1;
    let trial: Vec<_> = trial.to_vec();
    assert_eq!(trial, vec![1]);
}

#[test]
fn front_mut() {
    let mut trial = PinnedDeque::<usize>::with_capacity_per_chunk(2);
    trial.push_back(0);
    *trial.front_mut().unwrap() = 1;
    let trial: Vec<_> = trial.to_vec();
    assert_eq!(trial, vec![1]);
}

#[test]
fn interleaved_example() {
    // PushBack(1), PushBack(2), PushFront(0), PopBack leaves [0, 1].
    let mut trial = PinnedDeque::<usize>::with_capacity_per_chunk(2);
    trial.push_back(1);
    trial.push_back(2);
    trial.push_front(0);
    let popped = trial.pop_back();
    assert_eq!(popped, Some(2));
    assert_eq!(trial.len(), 2);
    assert_eq!(trial.front(), Some(&0));
    assert_eq!(trial.back(), Some(&1));
    assert_eq!(trial.to_vec(), vec![0, 1]);
    assert_eq!(trial.get(0), Some(&0));
    assert_eq!(trial.get(1), Some(&1));
    assert_eq!(trial.get(2), None);
}

#[test]
fn differential_against_vecdeque() {
    // A fixed pseudo-random stream of interleaved operations, mirrored on a
    // reference deque; every observation must agree at every step.
    let mut oracle: VecDeque<u64> = VecDeque::new();
    let mut trial = PinnedDeque::<u64>::with_capacity_per_chunk(2);
    let mut state: u64 = 0x2545F4914F6CDD1D;
    for step in 0..500u64 {
        state = state
            .wrapping_mul(6364136223846793005)
            .wrapping_add(1442695040888963407);
        match state >> 62 {
            0 => {
                oracle.push_back(step);
                trial.push_back(step);
            }
            1 => {
                oracle.push_front(step);
                trial.push_front(step);
            }
            2 => {
                assert_eq!(oracle.pop_back(), trial.pop_back());
            }
            _ => {
                assert_eq!(oracle.pop_front(), trial.pop_front());
            }
        }
        assert_eq!(oracle.len(), trial.len());
        assert_eq!(oracle.front(), trial.front());
        assert_eq!(oracle.back(), trial.back());
        assert_eq!(oracle.is_empty(), trial.is_empty());
    }
    for idx in 0..oracle.len() {
        assert_eq!(oracle.get(idx), trial.get(idx));
    }
    let flat: Vec<u64> = trial.to_vec();
    let oracle_flat: Vec<u64> = oracle.iter().copied().collect();
    assert_eq!(flat, oracle_flat);
}

#[test]
fn empty_observations() {
    let mut trial = PinnedDeque::<u32>::new();
    assert!(trial.is_empty());
    assert_eq!(trial.len(), 0);
    assert_eq!(trial.front(), None);
    assert_eq!(trial.back(), None);
    assert_eq!(trial.get(0), None);
    assert_eq!(trial.pop_back(), None);
    assert_eq!(trial.pop_front(), None);
    assert_eq!(trial.front_mut(), None);
    assert_eq!(trial.back_mut(), None);
}

#[test]
fn single_slot_pages() {
    let mut trial = PinnedDeque::<u8>::with_capacity_per_chunk(1);
    trial.push_front(2);
    trial.push_back(3);
    trial.push_front(1);
    assert_eq!(trial.to_vec(), vec![1, 2, 3]);
    assert_eq!(trial.pop_front(), Some(1));
    assert_eq!(trial.pop_back(), Some(3));
    assert_eq!(trial.pop_front(), Some(2));
    assert_eq!(trial.pop_front(), None);
}

#[test]
fn capacity_and_reserve() {
    let mut trial = PinnedDeque::<u64>::with_capacity_per_chunk(2);
    assert_eq!(trial.capacity(), 0);
    trial.reserve(3);
    // two pages of two slots cover three more elements
    assert_eq!(trial.capacity(), 4);
    trial.push_back(7);
    // one pool page left, plus one vacant slot behind the back element
    assert_eq!(trial.capacity(), 3);
    trial.push_front(6);
    // the front push cannot use the back page's headroom: a second page opens
    assert_eq!(trial.capacity(), 2);
    assert_eq!(trial.to_vec(), vec![6, 7]);
}

#[test]
fn clear_then_reuse() {
    let mut trial = PinnedDeque::<u16>::with_capacity_per_chunk(2);
    for x in 0..10 {
        trial.push_back(x);
    }
    trial.clear();
    assert!(trial.is_empty());
    assert_eq!(trial.to_vec(), Vec::<u16>::new());
    // the vacated pages are retained and reused
    assert_eq!(trial.capacity(), 10);
    trial.push_front(42);
    assert_eq!(trial.to_vec(), vec![42]);
}

#[test]
fn mutate_all_in_place() {
    let mut trial = PinnedDeque::<usize>::with_capacity_per_chunk(2);
    trial.push_back(0);
    trial.push_back(1);
    trial.push_back(2);
    for idx in 0..trial.len() {
        *trial.get_mut(idx).unwrap() *= 2;
    }
    assert_eq!(trial.to_vec(), vec![0, 2, 4]);
}
