use ods::circular_vec::ring_index;
use ods::circular_vec::CircularVec;

#[test]
fn new_circular_vector() {
    let empty: CircularVec<i32> = CircularVec::new(vec![], 0);
    assert_eq!(empty.storage(), &Vec::<i32>::new());
    assert_eq!(empty.head(), 0);
    let one = CircularVec::new(vec!['a'], 0);
    assert_eq!(one.storage(), &vec!['a']);
    assert_eq!(one.head(), 0);
    let many = CircularVec::new(vec!['x', 'y'], 1);
    assert_eq!(many.storage(), &vec!['x', 'y']);
    assert_eq!(many.head(), 1);
    assert_eq!(many, CircularVec::new(vec!['x', 'y'], 1));
}

#[test]
fn index_single_element() {
    let cv = CircularVec::new(vec!['a'], 0);
    assert_eq!(*cv.index(0), 'a');
    assert_eq!(*cv.index(1), 'a');
    assert_eq!(*cv.index(20), 'a');
}

#[test]
fn index_multiple_elements() {
    let cv = CircularVec::new(vec!['a', 'b', 'c'], 2);
    assert_eq!(*cv.index(0), 'c');
    assert_eq!(*cv.index(1), 'a');
    assert_eq!(*cv.index(2), 'b');
    assert_eq!(*cv.index(4), 'a');
}

#[test]
fn index_mutate_contents() {
    let mut cv = CircularVec::new(vec![3, 1, 2], 1);
    *cv.index_mut(0) = 10;
    assert_eq!(cv.storage()[1], 10);
    *cv.index_mut(1) = 20;
    assert_eq!(cv.storage()[2], 20);
    *cv.index_mut(2) = 30;
    assert_eq!(cv.storage()[0], 30);
}

#[test]
fn shift_head_right() {
    let mut cv = CircularVec::new(vec!['a', 'b', 'c', 'd'], 1);
    cv.shift_head(0);
    assert_eq!(cv.head(), 1);
    cv.shift_head(1);
    assert_eq!(cv.head(), 2);
    cv.shift_head(2);
    assert_eq!(cv.head(), 0);
}

#[test]
fn shift_head_left() {
    let mut cv = CircularVec::new(vec!['a', 'b', 'c', 'd'], 2);
    cv.shift_head(-1);
    assert_eq!(cv.head(), 1);
    cv.shift_head(-2);
    assert_eq!(cv.head(), 3);
}

#[test]
fn shift_head_goes_round_more_than_once() {
    let mut cv = CircularVec::new(vec![0, 1, 2], 0);
    cv.shift_head(7);
    assert_eq!(cv.head(), 1);
    cv.shift_head(-8);
    assert_eq!(cv.head(), 2);
    assert_eq!(cv.len(), 3);
    assert_eq!(*cv.index(0), 2);
}

#[test]
fn ring_index_wraps_once() {
    assert_eq!(ring_index(0, 0, 1), 0);
    assert_eq!(ring_index(0, 1, 1), 0);
    assert_eq!(ring_index(3, 1, 5), 4);
    assert_eq!(ring_index(3, 2, 5), 0);
    assert_eq!(ring_index(4, 5, 5), 4);
}
