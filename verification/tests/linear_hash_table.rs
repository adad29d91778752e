use ods::hashers::DimHasher;
use ods::hashers::Multiplicative;
use ods::linear_hash_table::Entry;
use ods::linear_hash_table::Error;
use ods::linear_hash_table::LinearHashTable;

fn keys_of<H: DimHasher>(table: &LinearHashTable<H>) -> Vec<u64> {
    let mut keys = Vec::new();
    let mut it = table.iter();
    while let Some(x) = it.next() {
        keys.push(*x);
    }
    keys
}

#[test]
fn iter() {
    let hasher = Multiplicative::new();

    let lht1 = LinearHashTable::from_parts(1, vec![Entry::Nil, Entry::Nil], 0, 0, hasher.clone());
    assert_eq!(keys_of(&lht1).len(), 0);

    let lht2 = LinearHashTable::from_parts(
        2,
        vec![Entry::Nil, Entry::Val(3), Entry::Nil, Entry::Val(14)],
        2,
        2,
        hasher.clone(),
    );
    assert_eq!(keys_of(&lht2), vec![3, 14]);

    let lht3 = LinearHashTable::from_parts(
        2,
        vec![Entry::Nil, Entry::Val(3), Entry::Del, Entry::Val(14)],
        3,
        2,
        hasher.clone(),
    );
    assert_eq!(keys_of(&lht3), vec![3, 14]);
}

#[test]
fn partial_eq() {
    let lhs1 = LinearHashTable::from_parts(
        3,
        vec![
            Entry::Val(0), Entry::Nil, Entry::Val(18446744073709551615), Entry::Nil,
            Entry::Nil, Entry::Nil, Entry::Nil, Entry::Val(1234567890),
        ],
        3,
        3,
        Multiplicative::with_seed(105),
    );
    let lhs2 = LinearHashTable::from_parts(
        3,
        vec![
            Entry::Val(0), Entry::Val(1234567890), Entry::Val(18446744073709551615),
            Entry::Nil, Entry::Nil, Entry::Nil, Entry::Nil, Entry::Nil,
        ],
        3,
        3,
        Multiplicative::with_seed(11),
    );
    let lhs3 = LinearHashTable::from_parts(1, vec![Entry::Nil, Entry::Nil], 0, 0, Multiplicative::with_seed(1));
    assert!(lhs1.eq(&lhs1));
    assert!(lhs1.eq(&lhs2));
    assert!(!lhs1.eq(&lhs3));
    assert!(lhs3.eq(&lhs3));
}

#[test]
fn linear_hash_table_initialize() {
    let h = Multiplicative::with_seed(32);
    let lhs = LinearHashTable::initialize(h);
    assert_eq!(lhs.dim(), 1);
    assert_eq!(lhs.table().len(), 2);
    assert_eq!(lhs.len(), 0);
    assert!(lhs.table().iter().all(|entry| *entry == Entry::Nil));
}

#[test]
fn linear_hash_table_contains() {
    let lhs1 = LinearHashTable::from_parts(
        3,
        vec![
            Entry::Val(0), Entry::Del, Entry::Nil, Entry::Nil,
            Entry::Nil, Entry::Nil, Entry::Val(1234567890), Entry::Nil,
        ],
        3,
        2,
        Multiplicative::with_seed(101325),
    );
    assert!(lhs1.contains(0));
    assert!(lhs1.contains(1234567890));
    assert!(!lhs1.contains(18446744073709551615));
    assert!(!lhs1.contains(151));
}

#[test]
fn linear_hash_table_add() {
    let hasher = Multiplicative::with_seed(42);
    let mut lhs = LinearHashTable::from_parts(1, vec![Entry::Nil, Entry::Nil], 0, 0, hasher);
    assert_eq!(lhs.add(0), Ok(()));
    assert_eq!(lhs.len(), 1);
    assert!(lhs.contains(0));

    assert_eq!(lhs.add(101054), Ok(()));
    assert_eq!(lhs.len(), 2);
    assert!(lhs.contains(101054));

    assert_eq!(lhs.add(101054), Err(Error::KeyAlreadyExists));
    assert_eq!(lhs.len(), 2);
    assert!(lhs.contains(101054));

    assert_eq!(lhs.add(18446744073709551615), Ok(()));
    assert_eq!(lhs.len(), 3);
    assert!(lhs.contains(18446744073709551615));
}

fn used(table: &Vec<Entry>) -> usize {
    table.iter().filter(|entry| **entry != Entry::Nil).count()
}

fn check_invariants<H: DimHasher>(table: &LinearHashTable<H>) {
    let slots = table.table();
    assert!(slots.len().is_power_of_two());
    assert_eq!(slots.len(), 1usize << table.dim());
    assert!(2 * used(slots) <= slots.len());
    assert_eq!(keys_of(table).len(), table.len());
}

#[test]
fn add_then_contains_and_remove_then_absent() {
    let mut table = LinearHashTable::initialize(Multiplicative::with_seed(3));
    for x in [0u64, 1, 2, 99, u64::MAX, 1 << 63] {
        let _ = table.add(x);
        assert!(table.contains(x));
    }
    for x in [0u64, 2, u64::MAX, 12345] {
        let _ = table.remove(x);
        assert!(!table.contains(x));
    }
    assert!(table.contains(1));
    assert!(table.contains(99));
    assert!(table.contains(1 << 63));
}

#[test]
fn double_insertion() {
    let mut table = LinearHashTable::initialize(Multiplicative::with_seed(8));
    let before = table.len();
    assert_eq!(table.add(77), Ok(()));
    assert_eq!(table.add(77), Err(Error::KeyAlreadyExists));
    assert_eq!(table.len(), before + 1);
}

#[test]
fn double_removal() {
    let mut table = LinearHashTable::initialize(Multiplicative::with_seed(8));
    assert_eq!(table.add(77), Ok(()));
    assert_eq!(table.add(78), Ok(()));
    let before = table.len();
    assert_eq!(table.remove(77), Ok(()));
    assert_eq!(table.remove(77), Err(Error::KeyNotFound));
    assert_eq!(table.len(), before - 1);
}

#[test]
fn remove_from_empty_table_fails() {
    let mut table = LinearHashTable::initialize(Multiplicative::with_seed(1));
    assert_eq!(table.remove(5), Err(Error::KeyNotFound));
    assert_eq!(table.len(), 0);
    assert_eq!(table.table().len(), 2);
}

#[test]
fn invariants_hold_after_every_operation() {
    let mut table = LinearHashTable::initialize(Multiplicative::with_seed(2024));
    check_invariants(&table);
    for x in 0..200u64 {
        assert_eq!(table.add(x * 7919), Ok(()));
        check_invariants(&table);
        assert!(table.table().len() >= 2 * table.len());
    }
    for x in 0..200u64 {
        assert_eq!(table.remove(x * 7919), Ok(()));
        check_invariants(&table);
        if table.len() > 0 {
            assert!(table.table().len() <= 8 * table.len());
        } else {
            assert_eq!(table.table().len(), 2);
        }
    }
}

#[test]
fn resize_keeps_the_keys() {
    let mut table = LinearHashTable::initialize(Multiplicative::with_seed(5));
    for x in 1..=10u64 {
        assert_eq!(table.add(x), Ok(()));
    }
    for x in 1..=4u64 {
        assert_eq!(table.remove(x), Ok(()));
    }
    let mut before = keys_of(&table);
    before.sort();

    table.grow();
    let mut after = keys_of(&table);
    after.sort();
    assert_eq!(before, after);
    assert_eq!(table.len(), 6);
    assert_eq!(used(table.table()), 6);
    check_invariants(&table);

    table.shrink();
    let mut after = keys_of(&table);
    after.sort();
    assert_eq!(before, after);
    assert_eq!(table.table().len(), 32);

    table.resize(6);
    let mut after = keys_of(&table);
    after.sort();
    assert_eq!(before, after);
    assert_eq!(table.dim(), 6);
    assert_eq!(table.table().len(), 64);
    for x in 5..=10u64 {
        assert!(table.contains(x));
    }
}

#[test]
fn grow_picks_the_least_power_of_two() {
    let mut table = LinearHashTable::initialize(Multiplicative::with_seed(5));
    assert_eq!(table.add(1), Ok(()));
    assert_eq!(table.table().len(), 2);
    assert_eq!(table.add(2), Ok(()));
    assert_eq!(table.table().len(), 4);
    assert_eq!(table.add(3), Ok(()));
    assert_eq!(table.table().len(), 8);
    assert_eq!(table.add(4), Ok(()));
    assert_eq!(table.table().len(), 8);
    assert_eq!(table.add(5), Ok(()));
    assert_eq!(table.table().len(), 16);
}

#[test]
fn shrink_picks_three_times_the_keys() {
    let mut table = LinearHashTable::initialize(Multiplicative::with_seed(5));
    for x in 0..16u64 {
        assert_eq!(table.add(x), Ok(()));
    }
    assert_eq!(table.table().len(), 32);
    for x in 0..12u64 {
        assert_eq!(table.remove(x), Ok(()));
        assert_eq!(table.table().len(), 32);
    }
    assert_eq!(table.remove(12), Ok(()));
    assert_eq!(table.len(), 3);
    assert_eq!(table.table().len(), 16);
    assert_eq!(used(table.table()), 3);
}

#[test]
fn tombstone_is_reused_without_counting_twice() {
    let mut table = LinearHashTable::initialize(Multiplicative::with_seed(5));
    for x in 0..3u64 {
        assert_eq!(table.add(x), Ok(()));
    }
    assert_eq!(table.table().len(), 8);
    let place = table.table().iter().position(|entry| *entry == Entry::Val(1)).unwrap();
    assert_eq!(table.remove(1), Ok(()));
    assert_eq!(used(table.table()), 3);
    assert_eq!(table.table()[place], Entry::Del);
    assert_eq!(table.add(1), Ok(()));
    assert_eq!(used(table.table()), 3);
    assert_eq!(table.table()[place], Entry::Val(1));
    assert_eq!(table.table().len(), 8);
}

#[test]
fn full_half_with_tombstones_is_rebuilt_before_insertion() {
    let mut table = LinearHashTable::initialize(Multiplicative::with_seed(5));
    for x in 0..4u64 {
        assert_eq!(table.add(x), Ok(()));
    }
    assert_eq!(table.table().len(), 8);
    assert_eq!(table.remove(2), Ok(()));
    assert_eq!(used(table.table()), 4);
    assert_eq!(table.add(2), Ok(()));
    assert_eq!(table.table().len(), 16);
    assert_eq!(used(table.table()), 4);
    assert!(!table.table().contains(&Entry::Del));
}

#[test]
fn collision_displaces_to_the_next_slot() {
    let mut seed = 0u64;
    loop {
        let h = Multiplicative::with_seed(seed);
        if h.hash(5, 2) == h.hash(21, 2) {
            break;
        }
        seed += 1;
        assert!(seed < 1000);
    }
    let mut table = LinearHashTable::initialize(Multiplicative::with_seed(seed));
    assert_eq!(table.add(5), Ok(()));
    assert_eq!(table.add(21), Ok(()));
    assert_eq!(table.dim(), 2);
    assert_eq!(table.hash(5), table.hash(21));
    assert!(table.contains(5));
    assert!(table.contains(21));
    let first = table.hash(5);
    let second = (first + 1) % table.table().len();
    assert_eq!(table.table()[first], Entry::Val(5));
    assert_eq!(table.table()[second], Entry::Val(21));
}

#[test]
fn growth_from_two_slots() {
    let mut table = LinearHashTable::initialize(Multiplicative::with_seed(17));
    assert_eq!(table.dim(), 1);
    for x in 100..120u64 {
        assert_eq!(table.add(x), Ok(()));
    }
    assert_eq!(table.len(), 20);
    for x in 100..120u64 {
        assert!(table.contains(x));
    }
    assert!(table.dim() > 1);
    assert_eq!(table.table().len(), 64);
}

#[test]
fn shrink_after_many_removals() {
    let mut table = LinearHashTable::initialize(Multiplicative::with_seed(17));
    for x in 0..30u64 {
        assert_eq!(table.add(x), Ok(()));
    }
    for x in 0..27u64 {
        assert_eq!(table.remove(x), Ok(()));
    }
    for x in 27..30u64 {
        assert!(table.contains(x));
    }
    assert_eq!(table.len(), 3);
    assert!(table.table().len() <= 8 * 3);
}

#[test]
fn equal_tables_may_differ_in_size_and_layout() {
    let mut a = LinearHashTable::initialize(Multiplicative::with_seed(1));
    let mut b = LinearHashTable::initialize(Multiplicative::with_seed(2));
    for x in 0..10u64 {
        assert_eq!(a.add(x), Ok(()));
    }
    for x in (0..10u64).rev() {
        assert_eq!(b.add(x), Ok(()));
    }
    assert_eq!(b.add(100), Ok(()));
    assert!(!a.eq(&b));
    assert_eq!(b.remove(100), Ok(()));
    b.resize(7);
    assert!(a.eq(&b));
    assert!(b.eq(&a));
}

#[test]
fn hash_is_the_hashers_answer_for_the_current_dim() {
    let h = Multiplicative::with_seed(9);
    let mut table = LinearHashTable::initialize(h.clone());
    for x in 0..5u64 {
        assert_eq!(table.add(x), Ok(()));
    }
    for x in [0u64, 3, 1000, u64::MAX] {
        assert_eq!(table.hash(x) as u64, h.hash(x, table.dim()));
        assert!(table.hash(x) < table.table().len());
    }
}

#[test]
fn iterator_skips_empty_slots_and_tombstones() {
    let table = LinearHashTable::from_parts(
        2,
        vec![Entry::Del, Entry::Val(9), Entry::Nil, Entry::Val(4)],
        3,
        2,
        Multiplicative::with_seed(0),
    );
    let mut it = table.iter();
    assert_eq!(it.next(), Some(&9));
    assert_eq!(it.next(), Some(&4));
    assert_eq!(it.next(), None);
    assert_eq!(it.next(), None);
    let mut again = table.iter();
    assert_eq!(again.next(), Some(&9));
}

#[test]
fn growth_counts_tombstones_too() {
    let mut table = LinearHashTable::initialize(Multiplicative::with_seed(5));
    for x in 0..8u64 {
        assert_eq!(table.add(x), Ok(()));
    }
    assert_eq!(table.table().len(), 16);
    for x in 0..6u64 {
        assert_eq!(table.remove(x), Ok(()));
        assert!(table.table().len() <= 8 * table.len());
    }
    assert_eq!(table.table().len(), 16);
    assert_eq!(used(table.table()), 8);
    assert_eq!(table.add(100), Ok(()));
    assert_eq!(table.table().len(), 32);
    assert_eq!(table.len(), 3);
    assert_eq!(used(table.table()), 3);
}

#[test]
fn tables_built_by_the_operations_are_valid() {
    let mut table = LinearHashTable::initialize(Multiplicative::with_seed(31));
    assert!(table.is_valid());
    for x in 0..50u64 {
        assert_eq!(table.add(x * x), Ok(()));
        assert!(table.is_valid());
    }
    for x in 0..50u64 {
        assert_eq!(table.remove(x * x), Ok(()));
        assert!(table.is_valid());
    }
}

#[test]
fn parts_that_do_not_fit_are_not_valid() {
    let h = Multiplicative::with_multiplier(1);
    // With the multiplier 1 the home slot of a key is its top bits.
    let low: u64 = 1;
    let high: u64 = 3 << 62;
    let good = LinearHashTable::from_parts(
        2,
        vec![Entry::Val(low), Entry::Nil, Entry::Nil, Entry::Val(high)],
        2,
        2,
        h.clone(),
    );
    assert!(good.is_valid());
    assert!(good.contains(low));
    assert!(good.contains(high));

    let wrapped = LinearHashTable::from_parts(
        2,
        vec![Entry::Val(high), Entry::Nil, Entry::Nil, Entry::Del],
        2,
        1,
        h.clone(),
    );
    assert!(wrapped.is_valid());
    assert!(wrapped.contains(high));

    let wrong_shape = LinearHashTable::from_parts(2, vec![Entry::Nil, Entry::Nil], 0, 0, h.clone());
    assert!(!wrong_shape.is_valid());
    let no_dim = LinearHashTable::from_parts(0, vec![Entry::Nil], 0, 0, h.clone());
    assert!(!no_dim.is_valid());
    let huge_dim = LinearHashTable::from_parts(200, vec![Entry::Nil, Entry::Nil], 0, 0, h.clone());
    assert!(!huge_dim.is_valid());
    let wrong_used = LinearHashTable::from_parts(
        2,
        vec![Entry::Val(low), Entry::Del, Entry::Nil, Entry::Nil],
        1,
        1,
        h.clone(),
    );
    assert!(!wrong_used.is_valid());
    let wrong_len = LinearHashTable::from_parts(
        2,
        vec![Entry::Val(low), Entry::Del, Entry::Nil, Entry::Nil],
        2,
        2,
        h.clone(),
    );
    assert!(!wrong_len.is_valid());
    let too_full = LinearHashTable::from_parts(
        2,
        vec![Entry::Val(low), Entry::Del, Entry::Del, Entry::Nil],
        3,
        1,
        h.clone(),
    );
    assert!(!too_full.is_valid());
    let twice = LinearHashTable::from_parts(
        2,
        vec![Entry::Val(low), Entry::Val(low), Entry::Nil, Entry::Nil],
        2,
        2,
        h.clone(),
    );
    assert!(!twice.is_valid());
    let cut_off = LinearHashTable::from_parts(
        2,
        vec![Entry::Nil, Entry::Val(low), Entry::Nil, Entry::Nil],
        1,
        1,
        h.clone(),
    );
    assert!(!cut_off.is_valid());
    let behind_home = LinearHashTable::from_parts(
        2,
        vec![Entry::Nil, Entry::Nil, Entry::Val(high), Entry::Nil],
        1,
        1,
        h.clone(),
    );
    assert!(!behind_home.is_valid());
}

#[test]
fn powers_of_two_are_computed_exactly() {
    assert_eq!(ods::powers::two_to(0), 1);
    assert_eq!(ods::powers::two_to(1), 2);
    assert_eq!(ods::powers::two_to(10), 1024);
    assert_eq!(ods::powers::two_to(31), 1 << 31);
}

#[test]
fn search_goes_round_the_end_and_stops_at_the_first_empty_slot() {
    // With the multiplier 1 the home slot of a key is its top bits.
    let h = Multiplicative::with_multiplier(1);
    let key: u64 = 3 << 62;
    let mut table = LinearHashTable::from_parts(
        2,
        vec![Entry::Del, Entry::Nil, Entry::Nil, Entry::Del],
        2,
        0,
        h,
    );
    assert!(table.is_valid());
    assert_eq!(table.hash(key), 3);
    assert!(!table.contains(key));
    assert_eq!(table.remove(key), Err(Error::KeyNotFound));
    table.resize(2);
    assert_eq!(used(table.table()), 0);

    let h = Multiplicative::with_multiplier(1);
    let other: u64 = (3 << 62) + 1;
    let mut table = LinearHashTable::from_parts(
        3,
        vec![
            Entry::Val(key), Entry::Nil, Entry::Nil, Entry::Nil,
            Entry::Nil, Entry::Nil, Entry::Del, Entry::Del,
        ],
        3,
        1,
        h,
    );
    assert!(table.is_valid());
    assert_eq!(table.hash(key), 6);
    assert!(table.contains(key));
    assert!(!table.contains(other));
    assert_eq!(table.add(other), Ok(()));
    assert_eq!(table.table()[6], Entry::Val(other));
    assert_eq!(used(table.table()), 3);
    assert_eq!(table.remove(key), Ok(()));
    assert_eq!(table.table()[0], Entry::Del);
    assert!(table.contains(other));
    assert!(table.is_valid());
}
