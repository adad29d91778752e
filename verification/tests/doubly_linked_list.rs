use ods::doubly_linked_list::DLList;

fn build_test_list() -> DLList<i32> {
    let mut list = DLList::new();
    list.push_tail(3);
    list.push_tail(2);
    list.push_tail(1);
    list
}

fn from_head<T>(list: DLList<T>) -> Vec<T> {
    let mut items = Vec::new();
    let mut it = list.into_iter();
    while let Some(x) = it.next() {
        items.push(x);
    }
    items
}

fn from_tail<T>(list: DLList<T>) -> Vec<T> {
    let mut items = Vec::new();
    let mut it = list.into_iter();
    while let Some(x) = it.next_back() {
        items.push(x);
    }
    items
}

#[test]
fn pop_head_returns_contents() {
    let mut list = build_test_list();
    assert_eq!(list.pop_head(), Some(3));
    assert_eq!(list.pop_head(), Some(2));
    assert_eq!(list.pop_head(), Some(1));
    assert_eq!(list.pop_head(), None);
    assert_eq!(list.pop_head(), None);
}

#[test]
fn pop_head_keeps_track_of_size() {
    let mut list = build_test_list();
    assert_eq!(list.size(), 3);
    list.pop_head();
    assert_eq!(list.size(), 2);
    list.pop_head();
    assert_eq!(list.size(), 1);
    list.pop_head();
    assert_eq!(list.size(), 0);
    list.pop_head();
    assert_eq!(list.size(), 0);
}

#[test]
fn pop_tail_returns_contents() {
    let mut list = build_test_list();
    assert_eq!(list.pop_tail(), Some(1));
    assert_eq!(list.pop_tail(), Some(2));
    assert_eq!(list.pop_tail(), Some(3));
    assert_eq!(list.pop_tail(), None);
    assert_eq!(list.pop_head(), None);
}

#[test]
fn pop_tail_keeps_track_of_size() {
    let mut list = build_test_list();
    assert_eq!(list.size(), 3);
    list.pop_tail();
    assert_eq!(list.size(), 2);
    list.pop_tail();
    assert_eq!(list.size(), 1);
    list.pop_tail();
    assert_eq!(list.size(), 0);
    list.pop_tail();
    assert_eq!(list.size(), 0);
}

#[test]
fn push_head_returns_contents() {
    let mut list = DLList::new();
    list.push_head('a');
    list.push_head('b');
    list.push_head('c');
    assert_eq!(from_head(list), ['c', 'b', 'a']);
}

#[test]
fn push_head_keeps_track_of_size() {
    let mut list = DLList::new();
    list.push_head('a');
    assert_eq!(list.size(), 1);
    list.push_head('b');
    assert_eq!(list.size(), 2);
    list.push_head('c');
    assert_eq!(list.size(), 3);
}

#[test]
fn push_tail_returns_contents() {
    let mut list = DLList::new();
    list.push_tail('a');
    list.push_tail('b');
    list.push_tail('c');
    assert_eq!(from_head(list), ['a', 'b', 'c']);
}

#[test]
fn push_tail_keeps_track_of_size() {
    let mut list = DLList::new();
    list.push_tail('a');
    assert_eq!(list.size(), 1);
    list.push_tail('b');
    assert_eq!(list.size(), 2);
    list.push_tail('c');
    assert_eq!(list.size(), 3);
}

#[test]
fn push_head_and_tail_alternating_collect_from_head() {
    let mut list = DLList::new();
    list.push_head(0);
    list.push_tail(-1);
    list.push_head(1);
    list.push_tail(-2);
    list.push_head(2);
    list.push_tail(-3);
    assert_eq!(list.size(), 6);
    assert_eq!(from_head(list), [2, 1, 0, -1, -2, -3])
}

#[test]
fn push_tail_then_head_collect_from_tail() {
    let mut list = DLList::new();
    list.push_tail(-1);
    list.push_tail(-2);
    list.push_tail(-3);
    list.push_head(0);
    list.push_head(1);
    list.push_head(2);
    assert_eq!(list.size(), 6);
    assert_eq!(from_tail(list), [-3, -2, -1, 0, 1, 2])
}

#[test]
fn doubly_linked_list_push_then_pop_until_empty_then_add_then_pop_until_empty() {
    let mut list = DLList::new();
    list.push_head('a');
    list.push_head('b');
    assert_eq!(list.size(), 2);
    assert_eq!(list.pop_head(), Some('b'));
    assert_eq!(list.pop_head(), Some('a'));
    assert_eq!(list.pop_head(), None);
    assert_eq!(list.size(), 0);
    list.push_tail('x');
    list.push_tail('y');
    assert_eq!(list.size(), 2);
    assert_eq!(list.pop_tail(), Some('y'));
    assert_eq!(list.pop_tail(), Some('x'));
    assert_eq!(list.pop_tail(), None);
    assert_eq!(list.size(), 0);
    assert_eq!(from_head(list), []);
}

#[test]
fn push_and_get_references_to_values() {
    let mut list = DLList::new();
    assert!(list.get_head().is_none());
    assert!(list.get_tail().is_none());
    list.push_head('a');
    assert_eq!(*list.get_head().unwrap(), 'a');
    assert_eq!(*list.get_tail().unwrap(), 'a');
    list.push_tail('x');
    assert_eq!(*list.get_head().unwrap(), 'a');
    assert_eq!(*list.get_tail().unwrap(), 'x');
    list.push_head('b');
    assert_eq!(*list.get_head().unwrap(), 'b');
    assert_eq!(*list.get_tail().unwrap(), 'x');
}

#[test]
fn doubly_linked_list() {
    let mut list1 = DLList::new();
    assert!(list1.get_head().is_none());
    list1.push_head(1);
    list1.push_head(2);
    list1.push_head(3);
    assert_eq!(list1.size(), 3);
    list1.push_tail(0);
    assert_eq!(*list1.get_head().unwrap(), 3);

    let mut list2 = DLList::new();
    assert!(list2.get_tail().is_none());
    list2.push_tail(-1);
    list2.push_tail(-2);
    list2.push_tail(-3);
    assert_eq!(list2.size(), 3);
    list2.push_head(0);
    assert_eq!(*list2.get_tail().unwrap(), -3);

    *list1.get_mut_head().unwrap() = 30;
    *list2.get_mut_tail().unwrap() = -30;
    assert_eq!(from_head(list1), [30, 2, 1, 0]);
    assert_eq!(from_tail(list2), [-30, -2, -1, 0]);
}

#[test]
fn get_mut_on_empty_list_lends_nothing() {
    let mut list = DLList::<u8>::new();
    assert!(list.get_mut_head().is_none());
    assert!(list.get_mut_tail().is_none());
    list.push_head(1);
    *list.get_mut_tail().unwrap() = 9;
    assert_eq!(list.get_head(), Some(&9));
}
