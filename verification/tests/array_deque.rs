use ods::array_deque::ArrayDeque;

fn seen<T: Clone>(deque: &ArrayDeque<T>) -> Vec<T> {
    let mut items = Vec::new();
    let mut it = deque.iter();
    while let Some(x) = it.next() {
        items.push(x.clone());
    }
    items
}

#[test]
fn array_deque_initialize_has_size_zero() {
    let deque = ArrayDeque::<i32>::initialize();
    assert_eq!(deque.size(), 0);
}

#[test]
fn initialize_returns_empty_deque() {
    let deque = ArrayDeque::<i32>::initialize();
    assert_eq!(seen(&deque).len(), 0);
}

#[test]
fn array_deque_add_updates_size() {
    let mut deque = ArrayDeque::initialize();
    deque.add(0, 0);
    assert_eq!(deque.size(), 1);
    deque.add(1, 1);
    assert_eq!(deque.size(), 2);
    deque.add(0, 2);
    assert_eq!(deque.size(), 3);
    deque.add(2, 3);
    assert_eq!(deque.size(), 4);
}

#[test]
fn array_deque_add_tail_updates_storage() {
    let mut deque = ArrayDeque::initialize();
    deque.add(0, 0);
    assert_eq!(seen(&deque), [0]);
    deque.add(1, 1);
    assert_eq!(seen(&deque), [0, 1]);
    deque.add(2, 2);
    assert_eq!(seen(&deque), [0, 1, 2]);
}

#[test]
fn array_deque_add_head_updates_storage() {
    let mut deque = ArrayDeque::initialize();
    deque.add(0, 0);
    assert_eq!(seen(&deque), [0]);
    deque.add(0, 1);
    assert_eq!(seen(&deque), [1, 0]);
    deque.add(0, 2);
    assert_eq!(seen(&deque), [2, 1, 0]);
}

#[test]
fn add_mid_updates_storage() {
    let mut deque = ArrayDeque::initialize();
    deque.add(0, 'a');
    assert_eq!(seen(&deque), ['a']);
    deque.add(1, 'b');
    assert_eq!(seen(&deque), ['a', 'b']);
    deque.add(0, 'c');
    assert_eq!(seen(&deque), ['c', 'a', 'b']);
    deque.add(1, 'd');
    assert_eq!(seen(&deque), ['c', 'd', 'a', 'b']);
    deque.add(2, 'e');
    assert_eq!(seen(&deque), ['c', 'd', 'e', 'a', 'b']);
}

#[test]
fn get_returns_some_reference() {
    let mut deque = ArrayDeque::initialize();
    deque.add(0, 'a');
    deque.add(0, 'b');
    deque.add(2, 'c');

    assert_eq!(deque.get(0), Some(&'b'));
    assert_eq!(deque.get(1), Some(&'a'));
    assert_eq!(deque.get(2), Some(&'c'));
}

#[test]
fn array_deque_get_out_of_bounds_returns_none() {
    let mut deque = ArrayDeque::initialize();
    assert!(deque.get(0).is_none());
    deque.add(0, 'a');
    assert!(deque.get(1).is_none());
    deque.add(0, 'b');
    assert!(deque.get(2).is_none());
    deque.add(2, 'c');
    assert!(deque.get(3).is_none());
}

#[test]
fn get_mut_returns_some_mutable_reference() {
    let mut deque = ArrayDeque::initialize();
    deque.add(0, 'a');
    deque.add(0, 'b');
    deque.add(2, 'c');

    assert_eq!(deque.get_mut(0), Some(&mut 'b'));
    assert_eq!(deque.get_mut(1), Some(&mut 'a'));
    assert_eq!(deque.get_mut(2), Some(&mut 'c'));
}

#[test]
fn get_mut_out_of_bounds_returns_none() {
    let mut deque = ArrayDeque::initialize();
    assert!(deque.get_mut(0).is_none());
    deque.add(0, 'a');
    assert!(deque.get_mut(1).is_none());
    deque.add(0, 'b');
    assert!(deque.get_mut(2).is_none());
    deque.add(2, 'c');
    assert!(deque.get_mut(3).is_none());
}

#[test]
fn array_deque_remove_from_empty_returns_none() {
    let mut deque = ArrayDeque::<i32>::initialize();
    assert!(deque.remove(0).is_none());
}

#[test]
fn remove_from_empty_leaves_empty_storage() {
    let mut deque = ArrayDeque::<i32>::initialize();
    deque.remove(0);
    assert_eq!(seen(&deque).len(), 0);
}

#[test]
fn array_deque_remove_updates_size() {
    let mut deque = ArrayDeque::initialize();
    deque.add(0, 'a');
    deque.add(1, 'b');
    deque.add(2, 'c');

    deque.remove(1);
    assert_eq!(deque.size(), 2);
    deque.remove(1);
    assert_eq!(deque.size(), 1);
    deque.remove(0);
    assert_eq!(deque.size(), 0);
}

#[test]
fn array_deque_remove_tail_updates_storage() {
    let mut deque = ArrayDeque::initialize();
    deque.add(0, 'a');
    deque.add(1, 'b');
    deque.add(2, 'c');

    deque.remove(2);
    assert_eq!(seen(&deque), ['a', 'b']);
    deque.remove(1);
    assert_eq!(seen(&deque), ['a']);
    deque.remove(0);
    assert_eq!(seen(&deque).len(), 0);
}

#[test]
fn remove_tail_returns_some() {
    let mut deque = ArrayDeque::initialize();
    deque.add(0, 'a');
    deque.add(1, 'b');
    deque.add(2, 'c');

    assert_eq!(deque.remove(2), Some('c'));
    assert_eq!(deque.remove(1), Some('b'));
    assert_eq!(deque.remove(0), Some('a'));
}

#[test]
fn array_deque_remove_head_updates_storage() {
    let mut deque = ArrayDeque::initialize();
    deque.add(0, 'a');
    deque.add(1, 'b');
    deque.add(2, 'c');

    deque.remove(0);
    assert_eq!(seen(&deque), ['b', 'c']);
    deque.remove(0);
    assert_eq!(seen(&deque), ['c']);
    deque.remove(0);
    assert_eq!(seen(&deque).len(), 0);
}

#[test]
fn remove_head_returns_some() {
    let mut deque = ArrayDeque::initialize();
    deque.add(0, 'a');
    deque.add(1, 'b');
    deque.add(2, 'c');

    assert_eq!(deque.remove(0), Some('a'));
    assert_eq!(deque.remove(0), Some('b'));
    assert_eq!(deque.remove(0), Some('c'));
}

#[test]
fn remove_mid_updates_storage() {
    let mut deque = ArrayDeque::initialize();
    deque.add(0, 'a');
    deque.add(1, 'b');
    deque.add(2, 'c');
    deque.add(3, 'd');
    deque.add(4, 'e');

    deque.remove(2);
    assert_eq!(seen(&deque), ['a', 'b', 'd', 'e']);
    deque.remove(2);
    assert_eq!(seen(&deque), ['a', 'b', 'e']);
    deque.remove(1);
    assert_eq!(seen(&deque), ['a', 'e']);
}

#[test]
fn remove_mid_returns_some() {
    let mut deque = ArrayDeque::initialize();
    deque.add(0, 'a');
    deque.add(1, 'b');
    deque.add(2, 'c');
    deque.add(3, 'd');
    deque.add(4, 'e');

    assert_eq!(deque.remove(2), Some('c'));
    assert_eq!(deque.remove(2), Some('d'));
    assert_eq!(deque.remove(1), Some('b'));
}

#[test]
fn get_mut_writes_through() {
    let mut deque = ArrayDeque::initialize();
    deque.add(0, 1);
    deque.add(0, 2);
    deque.add(0, 3);
    *deque.get_mut(1).unwrap() = 20;
    assert_eq!(seen(&deque), [3, 20, 1]);
}

#[test]
fn deque_behaves_like_a_vector() {
    let mut deque = ArrayDeque::initialize();
    let mut model: Vec<u32> = Vec::new();
    let mut state: u32 = 12345;
    for step in 0..400u32 {
        state = state.wrapping_mul(1664525).wrapping_add(1013904223);
        let pick = (state >> 8) as usize;
        if step % 3 != 2 || model.is_empty() {
            let i = pick % (model.len() + 1);
            deque.add(i, step);
            model.insert(i, step);
        } else {
            let i = pick % model.len();
            assert_eq!(deque.remove(i), Some(model.remove(i)));
        }
        assert_eq!(deque.size(), model.len());
        assert_eq!(seen(&deque), model);
    }
    while !model.is_empty() {
        assert_eq!(deque.remove(0), Some(model.remove(0)));
    }
    assert_eq!(deque.remove(0), None);
}
