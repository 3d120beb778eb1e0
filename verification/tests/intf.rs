use pinned_deque::{render_list, PinnedDeque};

fn render<T: ToString>(d: &PinnedDeque<T>) -> String {
    let mut parts: Vec<String> = Vec::new();
    let mut it = d.iter();
    while let Some(x) = it.next() {
        parts.push(x.to_string());
    }
    render_list(&parts)
}

#[test]
fn from_slice() {
    let trial: PinnedDeque<_> = vec![1, 2, 3].into();
    assert_eq!(render(&trial), "[1, 2, 3]");
}

#[test]
fn clone() {
    let origin: PinnedDeque<A> = vec![A("origin".to_owned())].into();
    let cloned = origin.clone();
    assert_eq!(render(&cloned), "[cloned_origin]");
}

struct A(String);

impl Clone for A {
    fn clone(&self) -> Self {
        A(format!("cloned_{}", self.0))
    }
}

impl std::fmt::Display for A {
    fn fmt(&self, f: &mut std::fmt::Formatter<'_>) -> std::fmt::Result {
        f.write_str(&self.0)
    }
}

#[test]
fn fromiter() {
    let oracle = vec![1, 2, 3];
    let trial: PinnedDeque<_> = oracle.clone().into();
    assert_eq!(render(&trial), format!("{oracle:?}"));
}

#[test]
fn render_empty_and_one() {
    let empty = PinnedDeque::<u8>::new();
    assert_eq!(render(&empty), "[]");
    let one: PinnedDeque<u8> = PinnedDeque::from_vec(vec![9]);
    assert_eq!(render(&one), "[9]");
}

#[test]
fn round_trip_owned() {
    let origin = vec![4, 5, 6, 7, 8];
    let deque = PinnedDeque::from_vec(origin.clone());
    assert_eq!(deque.into_vec(), origin);
}

#[test]
fn round_trip_borrowed() {
    let origin = vec![4, 5, 6, 7, 8];
    let deque = PinnedDeque::from_vec(origin.clone());
    assert_eq!(deque.to_vec(), origin);
    // reading the contents leaves the deque untouched
    assert_eq!(deque.to_vec(), origin);
}

#[test]
fn extend_appends_in_order() {
    let mut trial = PinnedDeque::<usize>::with_capacity_per_chunk(2);
    trial.extend(vec![1, 2]);
    trial.extend(vec![3, 4, 5]);
    trial.push_front(0);
    assert_eq!(trial.to_vec(), vec![0, 1, 2, 3, 4, 5]);
}

#[test]
fn default_is_empty() {
    let trial: PinnedDeque<u32> = Default::default();
    assert!(trial.is_empty());
}

#[test]
fn from_slice_refs() {
    // the element type may itself be a reference, as when building from a
    // borrowed slice
    let origin = vec![1usize, 2, 3];
    let refs: Vec<&usize> = origin.iter().collect();
    let trial: PinnedDeque<&usize> = PinnedDeque::from_vec(refs);
    assert_eq!(render(&trial), "[1, 2, 3]");
}
