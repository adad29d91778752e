use ods::array_queue::ArrayQueue;

fn seen<T: Clone>(queue: &ArrayQueue<T>) -> Vec<T> {
    let mut items = Vec::new();
    let mut it = queue.iter();
    while let Some(x) = it.next() {
        items.push(x.clone());
    }
    items
}

fn drained<T>(queue: ArrayQueue<T>) -> Vec<T> {
    let mut items = Vec::new();
    let mut it = queue.into_iter();
    while let Some(x) = it.next() {
        items.push(x);
    }
    items
}

#[test]
fn array_queue_initialize_has_size_zero() {
    let queue = ArrayQueue::<i32>::initialize();
    assert_eq!(queue.size(), 0);
}

#[test]
fn initialize_returns_empty_queue() {
    let queue = ArrayQueue::<i32>::initialize();
    assert_eq!(seen(&queue).len(), 0);
}

#[test]
fn add_from_empty_updates_size() {
    let mut queue = ArrayQueue::initialize();
    queue.add(0);
    assert_eq!(queue.size(), 1);
    queue.add(1);
    assert_eq!(queue.size(), 2);
    queue.add(2);
    assert_eq!(queue.size(), 3);
}

#[test]
fn add_from_empty_updates_queue() {
    let mut queue = ArrayQueue::initialize();
    queue.add(0);
    assert_eq!(seen(&queue), [0]);
    queue.add(1);
    assert_eq!(seen(&queue), [0, 1]);
    queue.add(2);
    assert_eq!(seen(&queue), [0, 1, 2]);
}

#[test]
fn remove_from_empty_keeps_size_zero() {
    let mut queue = ArrayQueue::<i32>::initialize();
    queue.remove();
    assert_eq!(queue.size(), 0);
}

#[test]
fn array_queue_remove_from_empty_returns_none() {
    let mut queue = ArrayQueue::<i32>::initialize();
    assert!(queue.remove().is_none());
}

#[test]
fn array_queue_remove_updates_size() {
    let mut queue = ArrayQueue::initialize();
    queue.add(0);
    queue.add(1);
    queue.add(2);

    queue.remove();
    assert_eq!(queue.size(), 2);
    queue.remove();
    assert_eq!(queue.size(), 1);
    queue.remove();
    assert_eq!(queue.size(), 0);
}

#[test]
fn remove_returns_some() {
    let mut queue = ArrayQueue::initialize();
    queue.add(0);
    queue.add(1);
    queue.add(2);

    assert_eq!(queue.remove(), Some(0));
    assert_eq!(queue.remove(), Some(1));
    assert_eq!(queue.remove(), Some(2));
}

#[test]
fn into_iter_from_empty_returns_queue() {
    let queue = ArrayQueue::<i32>::initialize();
    assert_eq!(drained(queue), []);
}

#[test]
fn into_iter_returns_queue() {
    let mut queue = ArrayQueue::initialize();
    queue.add(0);
    queue.add(1);
    queue.add(2);
    assert_eq!(drained(queue), [0, 1, 2]);
}

#[test]
fn queue_goes_round_the_ring() {
    let mut queue = ArrayQueue::initialize();
    let mut next_in = 0;
    let mut next_out = 0;
    for round in 0..50 {
        for _ in 0..(round % 7 + 1) {
            queue.add(next_in);
            next_in += 1;
        }
        for _ in 0..(round % 5 + 1) {
            if next_out < next_in {
                assert_eq!(queue.remove(), Some(next_out));
                next_out += 1;
            } else {
                assert_eq!(queue.remove(), None);
            }
        }
        assert_eq!(queue.size(), next_in - next_out);
        assert_eq!(seen(&queue), (next_out..next_in).collect::<Vec<usize>>());
    }
}
