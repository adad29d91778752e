use ods::array_stack::wastes_room;
use ods::array_stack::ArrayStack;

#[test]
fn array_stack_initialize_has_size_zero() {
    let stack = ArrayStack::<i32>::initialize();
    assert_eq!(stack.size(), 0);
}

#[test]
fn initialize_returns_empty_stack() {
    let stack = ArrayStack::<i32>::initialize();
    assert_eq!(stack.iter().count(), 0);
}

#[test]
fn array_stack_add_updates_size() {
    let mut stack = ArrayStack::initialize();
    stack.add(0, 'a');
    assert_eq!(stack.size(), 1);
    stack.add(0, 'b');
    assert_eq!(stack.size(), 2);
    stack.add(0, 'c');
    assert_eq!(stack.size(), 3);
}

#[test]
fn array_stack_add_head_updates_storage() {
    let mut stack = ArrayStack::initialize();
    stack.add(0, 'a');
    assert_eq!(stack.iter().collect::<Vec<&char>>(), [&'a']);
    stack.add(1, 'b');
    assert_eq!(stack.iter().collect::<Vec<&char>>(), [&'a', &'b']);
    stack.add(2, 'c');
    assert_eq!(stack.iter().collect::<Vec<&char>>(), [&'a', &'b', &'c']);
}

#[test]
fn array_stack_add_tail_updates_storage() {
    let mut stack = ArrayStack::initialize();
    stack.add(0, 'a');
    assert_eq!(stack.iter().collect::<Vec<&char>>(), [&'a']);
    stack.add(0, 'b');
    assert_eq!(stack.iter().collect::<Vec<&char>>(), [&'b', &'a']);
    stack.add(0, 'c');
    assert_eq!(stack.iter().collect::<Vec<&char>>(), [&'c', &'b', &'a']);
}

#[test]
fn get_returns_shared_reference() {
    let mut stack = ArrayStack::initialize();
    stack.add(0, 'a');
    stack.add(1, 'b');
    stack.add(1, 'c');

    assert_eq!(stack.get(0), Some(&'a'));
    assert_eq!(stack.get(1), Some(&'c'));
    assert_eq!(stack.get(2), Some(&'b'));
}

#[test]
fn array_stack_get_out_of_bounds_returns_none() {
    let stack = ArrayStack::<i32>::initialize();
    assert!(stack.get(1).is_none());
    assert!(stack.get(2).is_none());
}

#[test]
fn set_mutates_storage() {
    let mut stack = ArrayStack::initialize();
    stack.add(0, 'a');
    stack.add(1, 'b');
    stack.add(1, 'c');

    stack.set(0, 'x');
    assert_eq!(stack.iter().collect::<Vec<&char>>(), [&'x', &'c', &'b']);
    stack.set(2, 'z');
    assert_eq!(stack.iter().collect::<Vec<&char>>(), [&'x', &'c', &'z']);
}

#[test]
fn set_returns_prior_element() {
    let mut stack = ArrayStack::initialize();
    stack.add(0, 'a');
    stack.add(1, 'b');
    stack.add(1, 'c');

    assert_eq!(stack.set(0, 'x'), Some('a'));
    assert_eq!(stack.set(2, 'z'), Some('b'));
}

#[test]
fn set_out_of_bounds_returns_none() {
    let mut stack = ArrayStack::initialize();
    assert!(stack.set(1, 'a').is_none());
    assert!(stack.set(2, 'a').is_none());
}

#[test]
fn array_stack_remove_updates_size() {
    let mut stack = ArrayStack::initialize();
    stack.add(0, 'a');
    stack.add(1, 'b');
    stack.add(2, 'c');

    stack.remove(1);
    assert_eq!(stack.size(), 2);
    stack.remove(1);
    assert_eq!(stack.size(), 1);
    stack.remove(0);
    assert_eq!(stack.size(), 0);
}

#[test]
fn remove_out_of_bounds_returns_none() {
    let mut stack = ArrayStack::<i32>::initialize();
    assert!(stack.remove(0).is_none());
    assert!(stack.remove(1).is_none());
}

#[test]
fn array_stack_remove_head_updates_storage() {
    let mut stack = ArrayStack::initialize();
    stack.add(0, 'a');
    stack.add(1, 'b');
    stack.add(2, 'c');
    stack.add(3, 'd');

    stack.remove(3);
    assert_eq!(stack.iter().collect::<Vec<&char>>(), [&'a', &'b', &'c']);
    stack.remove(2);
    assert_eq!(stack.iter().collect::<Vec<&char>>(), [&'a', &'b']);
    stack.remove(1);
    assert_eq!(stack.iter().collect::<Vec<&char>>(), [&'a']);
}

#[test]
fn array_stack_remove_tail_updates_storage() {
    let mut stack = ArrayStack::initialize();
    stack.add(0, 'a');
    stack.add(1, 'b');
    stack.add(2, 'c');
    stack.add(3, 'd');

    stack.remove(0);
    assert_eq!(stack.iter().collect::<Vec<&char>>(), [&'b', &'c', &'d']);
    stack.remove(0);
    assert_eq!(stack.iter().collect::<Vec<&char>>(), [&'c', &'d']);
    stack.remove(0);
    assert_eq!(stack.iter().collect::<Vec<&char>>(), [&'d']);
}

#[test]
fn remove_returns_value() {
    let mut stack = ArrayStack::initialize();
    stack.add(0, 'a');
    stack.add(1, 'b');
    stack.add(2, 'c');
    stack.add(3, 'd');

    assert_eq!(stack.remove(1), Some('b'));
    assert_eq!(stack.remove(2), Some('d'));
    assert_eq!(stack.remove(0), Some('a'));
}

#[test]
fn stack_keeps_its_elements_while_it_gives_room_back() {
    let mut stack = ArrayStack::initialize();
    for i in 0..100 {
        stack.add(i, i);
    }
    for _ in 0..95 {
        assert!(stack.remove(0).is_some());
    }
    assert_eq!(stack.iter().collect::<Vec<&usize>>(), [&95, &96, &97, &98, &99]);
    assert_eq!(stack.set(5, 0), None);
    assert_eq!(stack.size(), 5);
}

#[test]
fn room_is_too_much_from_three_times_the_elements() {
    assert!(wastes_room(0, 0));
    assert!(wastes_room(5, 0));
    assert!(!wastes_room(2, 1));
    assert!(wastes_room(3, 1));
    assert!(!wastes_room(8, 3));
    assert!(wastes_room(9, 3));
    assert!(wastes_room(usize::MAX, usize::MAX / 3));
    assert!(!wastes_room(usize::MAX, usize::MAX / 3 + 1));
    assert!(!wastes_room(usize::MAX, usize::MAX));
}
