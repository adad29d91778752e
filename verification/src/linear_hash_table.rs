//! A hash table of words with open addressing and linear probing.
//!
//! The table keeps its keys in one flat array of slots of length `2^dim`.
//! A key is looked for from the slot that the hasher names, one slot after
//! the other with wraparound. Removal leaves a tombstone that lookups walk
//! over; a rebuild at a new size is the only place where tombstones go.

use vstd::prelude::*;
use vstd::arithmetic::power2::pow2;
use crate::hashers::DimHasher;
use crate::powers::is_least_dim;
use crate::powers::least_dim;
use crate::powers::two_to;
use crate::powers::lemma_pow2_step;
use crate::powers::lemma_pow2_monotonic;
use crate::powers::lemma_capacity_exponent;

verus! {

/// What one slot of the table holds.
#[derive(Clone, Copy, PartialEq, Eq, Debug, Structural)]
pub enum Entry {
    /// A key that is in the table.
    Val(u64),
    /// Nothing, and nothing ever since the slots were laid out.
    Nil,
    /// The mark that a removed key leaves behind.
    Del,
}

/// Why an insertion or a removal changed nothing.
#[derive(Debug, PartialEq, Eq, Structural)]
pub enum Error {
    /// The key to insert is in the table already.
    KeyAlreadyExists,
    /// The key to remove is not in the table.
    KeyNotFound,
}

/// The slot that a walk from `start` reaches after `steps` steps forward,
/// with wraparound, in an array of `n` slots.
pub open spec fn probe(start: int, steps: int, n: int) -> int {
    if start + steps < n {
        start + steps
    } else {
        start + steps - n
    }
}

/// The number of steps that a walk from `start` takes to reach slot `i`.
pub open spec fn distance(start: int, i: int, n: int) -> int {
    if i >= start {
        i - start
    } else {
        i - start + n
    }
}

/// The keys that the slots hold.
pub open spec fn keys_of(slots: Seq<Entry>) -> Set<u64> {
    Set::new(|k: u64| slots.contains(Entry::Val(k)))
}

/// The number of slots that hold a key.
pub open spec fn live_count(slots: Seq<Entry>) -> nat
    decreases slots.len(),
{
    if slots.len() == 0 {
        0
    } else {
        live_count(slots.drop_last()) + if slots.last() is Val {
            1nat
        } else {
            0nat
        }
    }
}

/// The number of slots that hold a key or a tombstone.
pub open spec fn used_count(slots: Seq<Entry>) -> nat
    decreases slots.len(),
{
    if slots.len() == 0 {
        0
    } else {
        used_count(slots.drop_last()) + if slots.last() is Nil {
            0nat
        } else {
            1nat
        }
    }
}

/// No key stands in two slots.
pub open spec fn distinct(slots: Seq<Entry>) -> bool {
    forall|i: int, j: int|
        0 <= i < slots.len() && 0 <= j < slots.len() && slots[i] is Val && #[trigger] slots[i]
            == #[trigger] slots[j] ==> i == j
}

/// The walk from `start` meets no empty slot before it reaches slot `i`.
pub open spec fn reachable(slots: Seq<Entry>, start: int, i: int) -> bool {
    forall|s: int|
        0 <= s < distance(start, i, slots.len() as int) ==> !(slots[#[trigger] probe(
            start,
            s,
            slots.len() as int,
        )] is Nil)
}

/// A walk of fewer steps than there are slots stays inside the array, and
/// the distance to the slot it reaches is the number of its steps.
pub proof fn lemma_probe_distance(start: int, steps: int, n: int)
    requires
        0 <= start < n,
        0 <= steps < n,
    ensures
        0 <= probe(start, steps, n) < n,
        distance(start, probe(start, steps, n), n) == steps,
{
}

/// Every slot is reached from every start by a walk of fewer steps than
/// there are slots.
pub proof fn lemma_distance_probe(start: int, i: int, n: int)
    requires
        0 <= start < n,
        0 <= i < n,
    ensures
        0 <= distance(start, i, n) < n,
        probe(start, distance(start, i, n), n) == i,
{
}

/// The counts of a prefix that is one slot longer.
pub proof fn lemma_counts_extend(slots: Seq<Entry>, k: int)
    requires
        0 <= k < slots.len(),
    ensures
        live_count(slots.take(k + 1)) == live_count(slots.take(k)) + if slots[k] is Val {
            1nat
        } else {
            0nat
        },
        used_count(slots.take(k + 1)) == used_count(slots.take(k)) + if slots[k] is Nil {
            0nat
        } else {
            1nat
        },
{
    assert(slots.take(k + 1).drop_last() =~= slots.take(k));
}

/// Keys are among the used slots, which are among all slots.
pub proof fn lemma_counts_bounded(slots: Seq<Entry>)
    ensures
        live_count(slots) <= used_count(slots) <= slots.len(),
    decreases slots.len(),
{
    if slots.len() > 0 {
        lemma_counts_bounded(slots.drop_last());
    }
}

/// A longer prefix holds at least as many keys.
pub proof fn lemma_live_count_prefix(slots: Seq<Entry>, k: int)
    requires
        0 <= k <= slots.len(),
    ensures
        live_count(slots.take(k)) <= live_count(slots),
    decreases slots.len() - k,
{
    if k < slots.len() {
        lemma_counts_extend(slots, k);
        lemma_live_count_prefix(slots, k + 1);
    } else {
        assert(slots.take(k) =~= slots);
    }
}

/// Slots that are all empty hold no key and count as unused.
pub proof fn lemma_counts_all_nil(slots: Seq<Entry>)
    requires
        forall|i: int| 0 <= i < slots.len() ==> slots[i] is Nil,
    ensures
        live_count(slots) == 0,
        used_count(slots) == 0,
        keys_of(slots) =~= Set::<u64>::empty(),
    decreases slots.len(),
{
    if slots.len() > 0 {
        lemma_counts_all_nil(slots.drop_last());
    }
}

/// Where no slot is empty, every slot counts as used.
pub proof fn lemma_used_count_full(slots: Seq<Entry>)
    requires
        forall|i: int| 0 <= i < slots.len() ==> !(slots[i] is Nil),
    ensures
        used_count(slots) == slots.len(),
    decreases slots.len(),
{
    if slots.len() > 0 {
        lemma_used_count_full(slots.drop_last());
    }
}

/// Where every slot holds a key, the keys are as many as the slots.
pub proof fn lemma_live_count_full(slots: Seq<Entry>)
    requires
        forall|i: int| 0 <= i < slots.len() ==> slots[i] is Val,
    ensures
        live_count(slots) == slots.len(),
    decreases slots.len(),
{
    if slots.len() > 0 {
        lemma_live_count_full(slots.drop_last());
    }
}

/// What writing one slot does to the two counts.
pub proof fn lemma_counts_update(slots: Seq<Entry>, i: int, e: Entry)
    requires
        0 <= i < slots.len(),
    ensures
        live_count(slots.update(i, e)) + (if slots[i] is Val {
            1nat
        } else {
            0nat
        }) == live_count(slots) + (if e is Val {
            1nat
        } else {
            0nat
        }),
        used_count(slots.update(i, e)) + (if slots[i] is Nil {
            0nat
        } else {
            1nat
        }) == used_count(slots) + (if e is Nil {
            0nat
        } else {
            1nat
        }),
    decreases slots.len(),
{
    let after = slots.update(i, e);
    if i == slots.len() - 1 {
        assert(after.drop_last() =~= slots.drop_last());
    } else {
        lemma_counts_update(slots.drop_last(), i, e);
        assert(after.drop_last() =~= slots.drop_last().update(i, e));
    }
}

/// Where no key stands twice, the set of keys is finite and as large as
/// the number of slots that hold a key.
pub proof fn lemma_keys_len(slots: Seq<Entry>)
    requires
        distinct(slots),
    ensures
        keys_of(slots).finite(),
        keys_of(slots).len() == live_count(slots),
    decreases slots.len(),
{
    if slots.len() == 0 {
        assert(keys_of(slots) =~= Set::<u64>::empty());
    } else {
        let front = slots.drop_last();
        assert forall|i: int, j: int|
            0 <= i < front.len() && 0 <= j < front.len() && front[i] is Val && #[trigger] front[i]
                == #[trigger] front[j] implies i == j by {
            assert(slots[i] == front[i] && slots[j] == front[j]);
        }
        lemma_keys_len(front);
        match slots.last() {
            Entry::Val(k) => {
                if keys_of(front).contains(k) {
                    let i = choose|i: int| 0 <= i < front.len() && front[i] == Entry::Val(k);
                    assert(slots[i] == slots[slots.len() - 1]);
                }
                assert forall|y: u64| keys_of(slots).contains(y) <==> keys_of(front).insert(k).contains(y) by {
                    if keys_of(slots).contains(y) {
                        let i = choose|i: int| 0 <= i < slots.len() && slots[i] == Entry::Val(y);
                        if i < front.len() {
                            assert(front[i] == Entry::Val(y));
                        }
                    }
                    if keys_of(front).contains(y) {
                        let i = choose|i: int| 0 <= i < front.len() && front[i] == Entry::Val(y);
                        assert(slots[i] == Entry::Val(y));
                    }
                    if y == k {
                        assert(slots[slots.len() - 1] == Entry::Val(y));
                    }
                }
                assert(keys_of(slots) =~= keys_of(front).insert(k));
            },
            _ => {
                assert forall|y: u64| keys_of(slots).contains(y) <==> keys_of(front).contains(y) by {
                    if keys_of(slots).contains(y) {
                        let i = choose|i: int| 0 <= i < slots.len() && slots[i] == Entry::Val(y);
                        assert(front[i] == Entry::Val(y));
                    }
                    if keys_of(front).contains(y) {
                        let i = choose|i: int| 0 <= i < front.len() && front[i] == Entry::Val(y);
                        assert(slots[i] == Entry::Val(y));
                    }
                }
                assert(keys_of(slots) =~= keys_of(front));
            },
        }
    }
}

/// Slot `i` is where a walk from `start` first meets a slot without a key.
pub open spec fn lands_at(slots: Seq<Entry>, start: int, i: int) -> bool {
    &&& 0 <= i < slots.len()
    &&& !(slots[i] is Val)
    &&& forall|s: int|
        0 <= s < distance(start, i, slots.len() as int) ==> slots[#[trigger] probe(
            start,
            s,
            slots.len() as int,
        )] is Val
}

/// The slot where a walk from `start` first meets a slot without a key.
pub open spec fn landing(slots: Seq<Entry>, start: int) -> int {
    choose|i: int| lands_at(slots, start, i)
}

/// A walk lands at one slot only.
pub proof fn lemma_landing_unique(slots: Seq<Entry>, start: int, i: int)
    requires
        0 <= start < slots.len(),
        lands_at(slots, start, i),
    ensures
        landing(slots, start) == i,
{
    let n = slots.len() as int;
    let j = landing(slots, start);
    lemma_distance_probe(start, i, n);
    lemma_distance_probe(start, j, n);
    if distance(start, i, n) < distance(start, j, n) {
        assert(slots[probe(start, distance(start, i, n), n)] is Val);
    }
    if distance(start, j, n) < distance(start, i, n) {
        assert(slots[probe(start, distance(start, j, n), n)] is Val);
    }
}

/// No key stands twice, and the walk from the home slot of each key
/// meets no empty slot before it meets the key.
pub open spec fn settled_for<H: DimHasher>(slots: Seq<Entry>, hasher: H, dim: u32) -> bool {
    &&& distinct(slots)
    &&& forall|i: int, k: u64|
        0 <= i < slots.len() && slots[i] == Entry::Val(k) ==> #[trigger] reachable(
            slots,
            hasher.hashed(k, dim) as int,
            i,
        )
}

/// Placing an absent key where the walk from its home slot lands keeps
/// the slots settled and adds the key to the keys, and nothing else.
pub proof fn lemma_place<H: DimHasher>(slots: Seq<Entry>, hasher: H, dim: u32, x: u64, i: int)
    requires
        settled_for(slots, hasher, dim),
        0 <= hasher.hashed(x, dim) < slots.len(),
        !keys_of(slots).contains(x),
        lands_at(slots, hasher.hashed(x, dim) as int, i),
    ensures
        settled_for(slots.update(i, Entry::Val(x)), hasher, dim),
        keys_of(slots.update(i, Entry::Val(x))) == keys_of(slots).insert(x),
{
    let after = slots.update(i, Entry::Val(x));
    let n = slots.len() as int;
    assert forall|a: int, b: int|
        0 <= a < after.len() && 0 <= b < after.len() && after[a] is Val && #[trigger] after[a]
            == #[trigger] after[b] implies a == b by {
        if a != b {
            if a == i {
                assert(slots[b] == Entry::Val(x));
                assert(slots.contains(Entry::Val(x)));
            } else if b == i {
                assert(slots[a] == Entry::Val(x));
                assert(slots.contains(Entry::Val(x)));
            } else {
                assert(slots[a] == slots[b]);
            }
        }
    }
    assert forall|a: int, k: u64| 0 <= a < after.len() && after[a] == Entry::Val(k) implies #[trigger] reachable(
        after,
        hasher.hashed(k, dim) as int,
        a,
    ) by {
        let start = hasher.hashed(k, dim) as int;
        if a == i {
            assert forall|s: int| 0 <= s < distance(start, a, n) implies !(after[#[trigger] probe(start, s, n)] is Nil) by {
                assert(slots[probe(start, s, n)] is Val);
            }
        } else {
            assert(reachable(slots, start, a));
            assert forall|s: int| 0 <= s < distance(start, a, n) implies !(after[#[trigger] probe(start, s, n)] is Nil) by {
                assert(!(slots[probe(start, s, n)] is Nil));
            }
        }
    }
    assert forall|y: u64| keys_of(after).contains(y) <==> keys_of(slots).insert(x).contains(y) by {
        if keys_of(after).contains(y) {
            let a = choose|a: int| 0 <= a < after.len() && after[a] == Entry::Val(y);
            if a != i {
                assert(slots[a] == Entry::Val(y));
            }
        }
        if keys_of(slots).contains(y) {
            let a = choose|a: int| 0 <= a < slots.len() && slots[a] == Entry::Val(y);
            assert(after[a] == Entry::Val(y));
        }
        if y == x {
            assert(after[i] == Entry::Val(y));
        }
    }
    assert(keys_of(after) =~= keys_of(slots).insert(x));
}

/// Putting a tombstone where a key stood keeps the slots settled and takes
/// the key from the keys, and nothing else.
pub proof fn lemma_bury<H: DimHasher>(slots: Seq<Entry>, hasher: H, dim: u32, x: u64, i: int)
    requires
        settled_for(slots, hasher, dim),
        0 <= i < slots.len(),
        slots[i] == Entry::Val(x),
    ensures
        settled_for(slots.update(i, Entry::Del), hasher, dim),
        keys_of(slots.update(i, Entry::Del)) == keys_of(slots).remove(x),
{
    let after = slots.update(i, Entry::Del);
    let n = slots.len() as int;
    assert forall|a: int, b: int|
        0 <= a < after.len() && 0 <= b < after.len() && after[a] is Val && #[trigger] after[a]
            == #[trigger] after[b] implies a == b by {
        assert(slots[a] == slots[b]);
    }
    assert forall|a: int, k: u64| 0 <= a < after.len() && after[a] == Entry::Val(k) implies #[trigger] reachable(
        after,
        hasher.hashed(k, dim) as int,
        a,
    ) by {
        let start = hasher.hashed(k, dim) as int;
        assert(reachable(slots, start, a));
        assert forall|s: int| 0 <= s < distance(start, a, n) implies !(after[#[trigger] probe(start, s, n)] is Nil) by {
            assert(!(slots[probe(start, s, n)] is Nil));
        }
    }
    assert forall|y: u64| keys_of(after).contains(y) <==> keys_of(slots).remove(x).contains(y) by {
        if keys_of(after).contains(y) {
            let a = choose|a: int| 0 <= a < after.len() && after[a] == Entry::Val(y);
            assert(slots[a] == Entry::Val(y));
        }
        if keys_of(slots).contains(y) && y != x {
            let a = choose|a: int| 0 <= a < slots.len() && slots[a] == Entry::Val(y);
            assert(after[a] == Entry::Val(y));
        }
        if keys_of(after).contains(x) {
            let a = choose|a: int| 0 <= a < after.len() && after[a] == Entry::Val(x);
            assert(slots[a] == slots[i]);
        }
    }
    assert(keys_of(after) =~= keys_of(slots).remove(x));
}

/// The slots after `x` was put where the walk from `start` lands.
pub open spec fn placed(slots: Seq<Entry>, start: int, x: u64) -> Seq<Entry> {
    slots.update(landing(slots, start), Entry::Val(x))
}

/// The slots of a table of `2^dim` slots, empty at first, after the keys
/// in the first `count` slots of `old` were placed in it, one after the
/// other from the front.
pub open spec fn refilled<H: DimHasher>(old: Seq<Entry>, hasher: H, dim: u32, count: nat) -> Seq<Entry>
    decreases count,
{
    if count == 0 {
        Seq::new(pow2(dim as nat), |i: int| Entry::Nil)
    } else {
        let before = refilled(old, hasher, dim, (count - 1) as nat);
        match old[count - 1] {
            Entry::Val(y) => placed(before, hasher.hashed(y, dim) as int, y),
            _ => before,
        }
    }
}

/// The keys of a prefix that is one slot longer.
pub proof fn lemma_keys_extend(slots: Seq<Entry>, k: int)
    requires
        0 <= k < slots.len(),
    ensures
        keys_of(slots.take(k + 1)) == match slots[k] {
            Entry::Val(y) => keys_of(slots.take(k)).insert(y),
            _ => keys_of(slots.take(k)),
        },
{
    let long = slots.take(k + 1);
    let short = slots.take(k);
    let expected = match slots[k] {
        Entry::Val(y) => keys_of(short).insert(y),
        _ => keys_of(short),
    };
    assert forall|y: u64| keys_of(long).contains(y) <==> expected.contains(y) by {
        if keys_of(long).contains(y) {
            let a = choose|a: int| 0 <= a < long.len() && long[a] == Entry::Val(y);
            if a < k {
                assert(short[a] == Entry::Val(y));
            }
        }
        if keys_of(short).contains(y) {
            let a = choose|a: int| 0 <= a < short.len() && short[a] == Entry::Val(y);
            assert(long[a] == Entry::Val(y));
        }
        if slots[k] == Entry::Val(y) {
            assert(long[k] == Entry::Val(y));
        }
    }
    assert(keys_of(long) =~= expected);
}

/// What an insertion of `x` makes of a set of keys, and what it answers.
pub open spec fn added(keys: Set<u64>, x: u64) -> (Set<u64>, Result<(), Error>) {
    if keys.contains(x) {
        (keys, Err(Error::KeyAlreadyExists))
    } else {
        (keys.insert(x), Ok(()))
    }
}

/// What a removal of `x` makes of a set of keys, and what it answers.
pub open spec fn removed(keys: Set<u64>, x: u64) -> (Set<u64>, Result<(), Error>) {
    if keys.contains(x) {
        (keys.remove(x), Ok(()))
    } else {
        (keys, Err(Error::KeyNotFound))
    }
}

/// A set of words kept in a flat array of `2^dim` slots and found by
/// linear probing from the slot that the hasher names.
#[derive(Debug)]
pub struct LinearHashTable<H: DimHasher> {
    dim: u32,
    table: Vec<Entry>,
    q: usize,
    len: usize,
    hasher: H,
}

impl<H: DimHasher> View for LinearHashTable<H> {
    type V = Set<u64>;

    /// The keys in the table, whatever its size and layout.
    open spec fn view(&self) -> Set<u64> {
        keys_of(self.slots())
    }
}

impl<H: DimHasher> LinearHashTable<H> {
    /// The slots, in the order in which they lie in memory.
    pub closed spec fn slots(&self) -> Seq<Entry> {
        self.table@
    }

    /// The exponent of the capacity.
    pub closed spec fn dim_spec(&self) -> u32 {
        self.dim
    }

    /// The number of slots that the table counts as used: those with a key
    /// and those with a tombstone.
    pub closed spec fn occupied(&self) -> nat {
        self.q as nat
    }

    /// The number of keys that the table counts.
    pub closed spec fn len_spec(&self) -> usize {
        self.len
    }

    /// The hash function that the table was made with.
    pub closed spec fn hasher(&self) -> H {
        self.hasher
    }

    /// The number of slots.
    pub open spec fn capacity(&self) -> nat {
        self.slots().len()
    }

    /// The slot at which the search for `x` starts.
    pub open spec fn home(&self, x: u64) -> int {
        self.hasher().hashed(x, self.dim()) as int
    }

    /// The capacity is `2^dim`, with `dim` at least one.
    pub open spec fn shaped(&self) -> bool {
        &&& 1 <= self.dim()
        &&& self.capacity() == pow2(self.dim() as nat)
    }

    /// Validity: the shape is right, both counters count what they stand
    /// for, at most half the slots are used, no key stands twice, and each
    /// key is found from its home slot.
    pub open spec fn wf(&self) -> bool {
        &&& self.shaped()
        &&& settled_for(self.slots(), self.hasher(), self.dim())
        &&& self.occupied() == used_count(self.slots())
        &&& self.len() == live_count(self.slots())
        &&& 2 * self.occupied() <= self.capacity()
    }

    /// Whether one more used slot would still leave half the slots unused.
    pub open spec fn grow_invariant(&self) -> bool {
        self.capacity() >= 2 * (self.occupied() + 1)
    }

    /// Whether the keys fill at least an eighth of the slots.
    pub open spec fn shrink_invariant(&self) -> bool {
        self.capacity() <= 8 * self.len()
    }

    /// The slots are no more than a machine word can count.
    pub proof fn lemma_capacity_fits(&self)
        ensures
            self.capacity() <= usize::MAX,
    {
        assert(self.table.len() == self.table@.len());
    }

    /// An empty table of two slots that hashes with `hasher`.
    pub fn initialize(hasher: H) -> (t: Self)
        ensures
            t.wf(),
            t@ == Set::<u64>::empty(),
            t.dim() == 1,
            t.capacity() == 2,
            t.len() == 0,
            t.occupied() == 0,
            t.hasher() == hasher,
            forall|i: int| 0 <= i < 2 ==> t.slots()[i] == Entry::Nil,
    {
        proof {
            vstd::arithmetic::power2::lemma2_to64();
        }
        let table = Self::new_table(1);
        proof {
            lemma_counts_all_nil(table@);
        }
        Self { dim: 1, table, q: 0, len: 0, hasher }
    }

    /// A table put together from its parts as they are. Nothing is checked:
    /// the table is valid only if the parts fit together as `wf` says.
    pub fn from_parts(dim: u32, table: Vec<Entry>, q: usize, len: usize, hasher: H) -> (t: Self)
        ensures
            t.dim() == dim,
            t.slots() == table@,
            t.occupied() == q,
            t.len() == len,
            t.hasher() == hasher,
    {
        Self { dim, table, q, len, hasher }
    }

    /// Tells whether the parts of the table fit together: checks the
    /// shape, counts the slots, compares every key with every other, and
    /// walks from the home slot of each key to the key.
    pub fn is_valid(&self) -> (b: bool)
        ensures
            b == self.wf(),
    {
        let n = self.table.len();
        if self.dim < 1 || self.dim >= usize::BITS {
            proof {
                if self.shaped() {
                    lemma_capacity_exponent(self.dim as nat);
                }
            }
            return false;
        }
        proof {
            vstd::bits::lemma_usize_pow2_no_overflow(self.dim as nat);
        }
        if two_to(self.dim) != n {
            return false;
        }
        let mut used: usize = 0;
        let mut live: usize = 0;
        let mut i: usize = 0;
        while i < n
            invariant
                0 <= i <= n,
                n == self.slots().len(),
                used == used_count(self.slots().take(i as int)),
                live == live_count(self.slots().take(i as int)),
                live <= used <= i,
            decreases n - i,
        {
            proof {
                lemma_counts_extend(self.slots(), i as int);
            }
            match self.table[i] {
                Entry::Val(_) => {
                    used = used + 1;
                    live = live + 1;
                },
                Entry::Del => {
                    used = used + 1;
                },
                Entry::Nil => (),
            }
            i = i + 1;
        }
        proof {
            assert(self.slots().take(n as int) =~= self.slots());
            lemma_pow2_step((self.dim - 1) as nat);
        }
        if used != self.q || live != self.len || self.q > n / 2 {
            return false;
        }
        let mut i: usize = 0;
        while i < n
            invariant
                0 <= i <= n,
                n == self.slots().len(),
                self.shaped(),
                forall|a: int, c: int|
                    0 <= a < i && a < c < n && (#[trigger] self.slots()[a]) is Val ==> self.slots()[a]
                        != #[trigger] self.slots()[c],
                forall|a: int, k: u64|
                    0 <= a < i && self.slots()[a] == Entry::Val(k) ==> #[trigger] reachable(
                        self.slots(),
                        self.hasher().hashed(k, self.dim()) as int,
                        a,
                    ),
            decreases n - i,
        {
            if let Entry::Val(k) = self.table[i] {
                let mut j: usize = i + 1;
                while j < n
                    invariant
                        i < j <= n,
                        n == self.slots().len(),
                        self.slots()[i as int] == Entry::Val(k),
                        forall|c: int| i < c < j ==> self.slots()[i as int] != #[trigger] self.slots()[c],
                    decreases n - j,
                {
                    if let Entry::Val(y) = self.table[j] {
                        if y == k {
                            proof {
                                assert(self.slots()[i as int] == self.slots()[j as int]);
                            }
                            return false;
                        }
                    }
                    j = j + 1;
                }
                let start = self.hash(k);
                let mut p: usize = start;
                let ghost mut steps: int = 0;
                proof {
                    lemma_distance_probe(start as int, i as int, n as int);
                }
                while p != i
                    invariant
                        n == self.slots().len(),
                        0 <= start < n,
                        0 <= i < n,
                        0 <= p < n,
                        start == self.home(k),
                        self.slots()[i as int] == Entry::Val(k),
                        0 <= steps <= distance(start as int, i as int, n as int),
                        p == probe(start as int, steps, n as int),
                        forall|s: int|
                            0 <= s < steps ==> !(self.slots()[#[trigger] probe(start as int, s, n as int)] is Nil),
                    decreases distance(start as int, i as int, n as int) - steps,
                {
                    proof {
                        lemma_distance_probe(start as int, i as int, n as int);
                    }
                    if let Entry::Nil = self.table[p] {
                        proof {
                            if self.wf() {
                                assert(reachable(self.slots(), self.home(k), i as int));
                                assert(!(self.slots()[probe(start as int, steps, n as int)] is Nil));
                            }
                        }
                        return false;
                    }
                    p = self.loop_index(p + 1);
                    proof {
                        steps = steps + 1;
                    }
                }
                proof {
                    lemma_probe_distance(start as int, steps, n as int);
                    assert(reachable(self.slots(), self.home(k), i as int));
                }
            }
            i = i + 1;
        }
        proof {
            assert forall|a: int, c: int|
                0 <= a < n && 0 <= c < n && self.slots()[a] is Val && #[trigger] self.slots()[a]
                    == #[trigger] self.slots()[c] implies a == c by {
                if a < c {
                    assert(self.slots()[a] != self.slots()[c]);
                } else if c < a {
                    assert(self.slots()[c] != self.slots()[a]);
                }
            }
        }
        true
    }

    /// `2^dim` empty slots.
    fn new_table(dim: u32) -> (table: Vec<Entry>)
        requires
            1 <= dim,
            pow2(dim as nat) <= usize::MAX,
        ensures
            table@.len() == pow2(dim as nat),
            forall|i: int| 0 <= i < table@.len() ==> table@[i] == Entry::Nil,
    {
        vec![Entry::Nil; two_to(dim)]
    }

    /// Returns the exponent of the capacity.
    #[verifier::when_used_as_spec(dim_spec)]
    pub fn dim(&self) -> (dim: u32)
        ensures
            dim == self.dim_spec(),
    {
        self.dim
    }

    /// Returns the slots as they lie in memory.
    pub fn table(&self) -> (table: &Vec<Entry>)
        ensures
            table@ == self.slots(),
    {
        &self.table
    }

    /// Returns the slot at which the search for `x` starts.
    pub fn hash(&self, x: u64) -> (i: usize)
        requires
            self.shaped(),
        ensures
            i == self.home(x),
            i < self.capacity(),
    {
        proof {
            assert(self.table.len() == self.capacity());
            lemma_capacity_exponent(self.dim as nat);
        }
        let y = self.hasher.hash(x, self.dim);
        y as usize
    }

    /// Returns the number of keys in the table.
    #[verifier::when_used_as_spec(len_spec)]
    pub fn len(&self) -> (n: usize)
        ensures
            n == self.len_spec(),
            self.wf() ==> n == self@.len() && self@.finite(),
    {
        proof {
            if self.wf() {
                lemma_keys_len(self.table@);
            }
        }
        self.len
    }

    /// The slot after `i - 1`, going round at the end of the array.
    fn loop_index(&self, i: usize) -> (j: usize)
        requires
            1 <= i <= self.capacity(),
        ensures
            j == probe(0, i as int, self.capacity() as int),
            j < self.capacity(),
    {
        proof {
            if i < self.table.len() {
                vstd::arithmetic::div_mod::lemma_small_mod(i as nat, self.table.len() as nat);
            } else {
                vstd::arithmetic::div_mod::lemma_mod_self_0(i as int);
            }
        }
        i % self.table.len()
    }

    /// Looks for `x` from its home slot on, over keys and tombstones, up
    /// to the first empty slot.
    fn find(&self, x: u64) -> (found: Option<usize>)
        requires
            self.wf(),
        ensures
            found is Some <==> self@.contains(x),
            found is Some ==> found->0 < self.capacity() && self.slots()[found->0 as int] == Entry::Val(x),
    {
        let ghost n = self.table@.len() as int;
        let start = self.hash(x);
        let mut i = start;
        let ghost mut steps: int = 0;
        loop
            invariant
                self.wf(),
                n == self.capacity(),
                start == self.home(x),
                0 <= start < n,
                0 <= steps < n,
                i == probe(start as int, steps, n),
                forall|s: int|
                    0 <= s < steps ==> !(self.slots()[#[trigger] probe(start as int, s, n)] is Nil)
                        && self.slots()[probe(start as int, s, n)] != Entry::Val(x),
            decreases n - steps,
        {
            match self.table[i] {
                Entry::Val(y) => {
                    if y == x {
                        proof {
                            assert(self.slots().contains(Entry::Val(x)));
                        }
                        return Some(i);
                    }
                },
                Entry::Nil => {
                    proof {
                        if self.slots().contains(Entry::Val(x)) {
                            let a = choose|a: int| 0 <= a < n && self.slots()[a] == Entry::Val(x);
                            lemma_distance_probe(start as int, a, n);
                            let d = distance(start as int, a, n);
                            assert(reachable(self.slots(), self.home(x), a));
                            if d < steps {
                                assert(self.slots()[probe(start as int, d, n)] != Entry::Val(x));
                            } else if d > steps {
                                assert(!(self.slots()[probe(start as int, steps, n)] is Nil));
                            }
                        }
                    }
                    return None;
                },
                Entry::Del => (),
            }
            proof {
                if steps + 1 == n {
                    assert forall|a: int| 0 <= a < n implies !(self.slots()[a] is Nil) by {
                        lemma_distance_probe(start as int, a, n);
                        let d = distance(start as int, a, n);
                        assert(a == probe(start as int, d, n));
                    }
                    lemma_used_count_full(self.slots());
                }
            }
            proof {
                assert(self.table.len() == n);
            }
            i = self.loop_index(i + 1);
            proof {
                steps = steps + 1;
            }
        }
    }

    /// Tells whether `x` is in the table.
    pub fn contains(&self, x: u64) -> (b: bool)
        requires
            self.wf(),
        ensures
            b == self@.contains(x),
    {
        self.find(x).is_some()
    }

    /// Puts `x` where the walk from its home slot first meets a slot
    /// without a key, and returns what the slot held. The counters stay
    /// as they are.
    fn insert(&mut self, x: u64) -> (entry: Entry)
        requires
            old(self).shaped(),
            live_count(old(self).slots()) < old(self).capacity(),
        ensures
            0 <= old(self).home(x) < old(self).capacity(),
            lands_at(old(self).slots(), old(self).home(x), landing(old(self).slots(), old(self).home(x))),
            final(self).slots() == placed(old(self).slots(), old(self).home(x), x),
            entry == old(self).slots()[landing(old(self).slots(), old(self).home(x))],
            final(self).dim() == old(self).dim(),
            final(self).occupied() == old(self).occupied(),
            final(self).len() == old(self).len(),
            final(self).hasher() == old(self).hasher(),
    {
        let ghost n = self.table@.len() as int;
        let start = self.hash(x);
        let mut i = start;
        let ghost mut steps: int = 0;
        loop
            invariant
                *self == *old(self),
                n == self.capacity(),
                0 <= start < n,
                0 <= steps < n,
                live_count(self.slots()) < n,
                i == probe(start as int, steps, n),
                forall|s: int| 0 <= s < steps ==> self.slots()[#[trigger] probe(start as int, s, n)] is Val,
            ensures
                !(self.slots()[i as int] is Val),
            decreases n - steps,
        {
            match self.table[i] {
                Entry::Val(_) => (),
                _ => {
                    break ;
                },
            }
            proof {
                if steps + 1 == n {
                    assert forall|a: int| 0 <= a < n implies self.slots()[a] is Val by {
                        lemma_distance_probe(start as int, a, n);
                        let d = distance(start as int, a, n);
                        assert(a == probe(start as int, d, n));
                    }
                    lemma_live_count_full(self.slots());
                }
                assert(self.table.len() == n);
            }
            i = self.loop_index(i + 1);
            proof {
                steps = steps + 1;
            }
        }
        proof {
            lemma_probe_distance(start as int, steps, n);
            assert(lands_at(self.slots(), start as int, i as int));
            lemma_landing_unique(self.slots(), start as int, i as int);
        }
        let entry = self.table[i];
        self.table[i] = Entry::Val(x);
        entry
    }

    /// Rebuilds the table with `2^new_dim` slots: lays out empty slots and
    /// places in them the keys of the old slots, from the front of the old
    /// array to its end. Tombstones are not carried over.
    pub fn resize(&mut self, new_dim: u32)
        requires
            old(self).wf(),
            1 <= new_dim,
            2 * old(self).len() <= pow2(new_dim as nat) <= usize::MAX,
        ensures
            final(self).wf(),
            final(self)@ == old(self)@,
            final(self).dim() == new_dim,
            final(self).len() == old(self).len(),
            final(self).occupied() == old(self).len(),
            final(self).hasher() == old(self).hasher(),
            final(self).slots() == refilled(
                old(self).slots(),
                old(self).hasher(),
                new_dim,
                old(self).capacity(),
            ),
    {
        let mut table = Self::new_table(new_dim);
        self.dim = new_dim;
        std::mem::swap(&mut self.table, &mut table);
        self.q = 0;
        proof {
            lemma_counts_all_nil(self.table@);
            assert(self.table@ =~= refilled(table@, self.hasher, new_dim, 0));
            assert(table@.take(0) =~= Seq::<Entry>::empty());
            assert(keys_of(table@.take(0)) =~= Set::<u64>::empty());
        }
        let mut i: usize = 0;
        while i < table.len()
            invariant
                0 <= i <= table@.len(),
                table@ == old(self).slots(),
                distinct(table@),
                live_count(table@) == old(self).len(),
                self.shaped(),
                self.dim() == new_dim,
                self.hasher() == old(self).hasher(),
                self.len() == old(self).len(),
                2 * old(self).len() <= pow2(new_dim as nat) <= usize::MAX,
                settled_for(self.slots(), self.hasher(), new_dim),
                forall|j: int| 0 <= j < self.capacity() ==> !(self.slots()[j] is Del),
                self@ == keys_of(table@.take(i as int)),
                self.occupied() == live_count(table@.take(i as int)),
                self.occupied() == live_count(self.slots()),
                self.occupied() == used_count(self.slots()),
                self.slots() == refilled(table@, self.hasher(), new_dim, i as nat),
            decreases table@.len() - i,
        {
            proof {
                lemma_counts_extend(table@, i as int);
                lemma_keys_extend(table@, i as int);
                lemma_live_count_prefix(table@, i + 1);
            }
            if let Entry::Val(y) = table[i] {
                let ghost before = self.slots();
                let ghost start = self.home(y);
                proof {
                    if keys_of(table@.take(i as int)).contains(y) {
                        let a = choose|a: int|
                            0 <= a < table@.take(i as int).len() && table@.take(i as int)[a] == Entry::Val(y);
                        assert(table@[a] == table@[i as int]);
                    }
                }
                let _ = self.insert(y);
                proof {
                    let at = landing(before, start);
                    lemma_place(before, self.hasher(), new_dim, y, at);
                    lemma_counts_update(before, at, Entry::Val(y));
                }
                self.q = self.q + 1;
            }
            i = i + 1;
        }
        proof {
            assert(table@.take(i as int) =~= table@);
        }
    }

    /// Rebuilds the table at the least size that reaches `need` slots.
    fn resize_to_fit(&mut self, need: usize, Ghost(bound): Ghost<nat>)
        requires
            old(self).wf(),
            bound >= 1,
            2 * old(self).len() <= need <= pow2(bound) <= usize::MAX,
        ensures
            final(self).wf(),
            final(self)@ == old(self)@,
            is_least_dim(final(self).dim() as nat, need as nat),
            final(self).len() == old(self).len(),
            final(self).occupied() == old(self).len(),
            final(self).hasher() == old(self).hasher(),
            final(self).slots() == refilled(
                old(self).slots(),
                old(self).hasher(),
                final(self).dim(),
                old(self).capacity(),
            ),
    {
        let new_dim = least_dim(need, Ghost(bound));
        proof {
            lemma_pow2_monotonic(new_dim as nat, bound);
        }
        self.resize(new_dim);
    }

    /// Rebuilds the table at the least size that leaves half the slots
    /// unused after one more slot is taken: the least `2^dim` that is at
    /// least twice the number of used slots and one.
    pub fn grow(&mut self)
        requires
            old(self).wf(),
            2 * old(self).capacity() <= usize::MAX,
        ensures
            final(self).wf(),
            final(self)@ == old(self)@,
            is_least_dim(final(self).dim() as nat, 2 * (old(self).occupied() + 1)),
            final(self).len() == old(self).len(),
            final(self).occupied() == old(self).len(),
            final(self).hasher() == old(self).hasher(),
            final(self).grow_invariant(),
            final(self).slots() == refilled(
                old(self).slots(),
                old(self).hasher(),
                final(self).dim(),
                old(self).capacity(),
            ),
    {
        proof {
            lemma_pow2_step(self.dim as nat);
            lemma_counts_bounded(self.table@);
            assert(self.table.len() == self.capacity());
        }
        self.resize_to_fit(2 * (self.q + 1), Ghost((self.dim + 1) as nat));
    }

    /// Rebuilds the table at the least size, two slots at least, that is
    /// at least three times the number of keys.
    pub fn shrink(&mut self)
        requires
            old(self).wf(),
            2 * old(self).capacity() <= usize::MAX,
        ensures
            final(self).wf(),
            final(self)@ == old(self)@,
            is_least_dim(final(self).dim() as nat, (3 * old(self).len()) as nat),
            final(self).len() == old(self).len(),
            final(self).occupied() == old(self).len(),
            final(self).hasher() == old(self).hasher(),
            final(self).slots() == refilled(
                old(self).slots(),
                old(self).hasher(),
                final(self).dim(),
                old(self).capacity(),
            ),
    {
        proof {
            lemma_pow2_step(self.dim as nat);
            lemma_counts_bounded(self.table@);
            assert(self.table.len() == self.capacity());
        }
        self.resize_to_fit(3 * self.len, Ghost((self.dim + 1) as nat));
    }

    /// Tells whether one more used slot would still leave half the slots unused.
    fn grow_invariant_holds(&self) -> (b: bool)
        requires
            self.wf(),
        ensures
            b == self.grow_invariant(),
    {
        proof {
            lemma_pow2_step((self.dim - 1) as nat);
            assert(self.table.len() == self.capacity());
        }
        self.table.len() / 2 >= self.q + 1
    }

    /// Tells whether the keys fill at least an eighth of the slots.
    fn shrink_invariant_holds(&self) -> (b: bool)
        requires
            self.shaped(),
            self.len() <= self.capacity(),
        ensures
            b == self.shrink_invariant(),
    {
        proof {
            assert(self.table.len() == self.capacity());
        }
        match self.len().checked_mul(8) {
            Some(eightfold) => self.table.len() <= eightfold,
            None => true,
        }
    }

    /// Inserts `x` unless it is in the table already. Where one more used
    /// slot would leave less than half the slots unused, the table is
    /// rebuilt larger first. The key then goes where the walk from its
    /// home slot first meets an empty slot or a tombstone.
    pub fn add(&mut self, x: u64) -> (r: Result<(), Error>)
        requires
            old(self).wf(),
            2 * old(self).capacity() <= usize::MAX,
        ensures
            final(self).wf(),
            (final(self)@, r) == added(old(self)@, x),
            final(self).hasher() == old(self).hasher(),
            r is Err ==> *final(self) == *old(self),
            r is Ok ==> final(self).len() == old(self).len() + 1,
            r is Ok && old(self).grow_invariant() ==> final(self).dim() == old(self).dim()
                && final(self).slots() == placed(old(self).slots(), old(self).home(x), x)
                && final(self).occupied() == old(self).occupied() + if old(self).slots()[landing(
                old(self).slots(),
                old(self).home(x),
            )] is Nil {
                1nat
            } else {
                0nat
            },
            r is Ok && !old(self).grow_invariant() ==> is_least_dim(
                final(self).dim() as nat,
                2 * (old(self).occupied() + 1),
            ) && final(self).slots() == placed(
                refilled(old(self).slots(), old(self).hasher(), final(self).dim(), old(self).capacity()),
                final(self).home(x),
                x,
            ) && final(self).occupied() == old(self).len() + 1,
            final(self).capacity() == pow2(final(self).dim() as nat),
            2 * final(self).occupied() <= final(self).capacity(),
            r is Ok && old(self).grow_invariant() && old(self).capacity() <= 8 * (old(self).len() + 1)
                ==> final(self).shrink_invariant(),
    {
        if self.contains(x) {
            Err(Error::KeyAlreadyExists)
        } else {
            if !self.grow_invariant_holds() {
                self.grow();
            }
            let ghost before = self.slots();
            let ghost at = landing(before, self.home(x));
            proof {
                lemma_counts_bounded(before);
            }
            let entry = self.insert(x);
            proof {
                lemma_place(before, self.hasher(), self.dim(), x, at);
                lemma_counts_update(before, at, Entry::Val(x));
                lemma_counts_bounded(self.slots());
                assert(self.table.len() == self.capacity());
            }
            if let Entry::Nil = entry {
                self.q = self.q + 1;
            }
            self.len = self.len + 1;
            Ok(())
        }
    }

    /// Removes `x` if it is in the table: its slot gets a tombstone. Where
    /// the keys then fill less than an eighth of the slots, the table is
    /// rebuilt at the least size that is three times the number of keys.
    pub fn remove(&mut self, x: u64) -> (r: Result<(), Error>)
        requires
            old(self).wf(),
        ensures
            final(self).wf(),
            (final(self)@, r) == removed(old(self)@, x),
            final(self).hasher() == old(self).hasher(),
            r is Err ==> *final(self) == *old(self),
            r is Ok ==> final(self).len() == old(self).len() - 1,
            r is Ok && old(self).capacity() <= 8 * (old(self).len() - 1) ==> ({
                &&& final(self).dim() == old(self).dim()
                &&& final(self).occupied() == old(self).occupied()
                &&& final(self).slots() == old(self).slots().update(
                    old(self).slots().index_of(Entry::Val(x)),
                    Entry::Del,
                )
            }),
            r is Ok && old(self).capacity() > 8 * (old(self).len() - 1) ==> is_least_dim(
                final(self).dim() as nat,
                (3 * (old(self).len() - 1)) as nat,
            ) && final(self).occupied() == final(self).len() && final(self).slots() == refilled(
                old(self).slots().update(old(self).slots().index_of(Entry::Val(x)), Entry::Del),
                old(self).hasher(),
                final(self).dim(),
                old(self).capacity(),
            ),
            final(self).capacity() == pow2(final(self).dim() as nat),
            2 * final(self).occupied() <= final(self).capacity(),
            r is Ok && final(self).len() > 0 ==> final(self).shrink_invariant(),
            r is Ok && final(self).len() == 0 ==> final(self).capacity() == 2,
    {
        match self.find(x) {
            None => Err(Error::KeyNotFound),
            Some(i) => {
                proof {
                    let at = self.slots().index_of(Entry::Val(x));
                    assert(self.slots()[at] == self.slots()[i as int]);
                    lemma_bury(self.slots(), self.hasher(), self.dim(), x, i as int);
                    lemma_counts_update(self.slots(), i as int, Entry::Del);
                    lemma_counts_bounded(self.slots().update(i as int, Entry::Del));
                }
                self.table[i] = Entry::Del;
                self.len = self.len - 1;
                proof {
                    assert(self.table.len() == self.capacity());
                }
                if !self.shrink_invariant_holds() {
                    self.resize_to_fit(3 * self.len, Ghost(self.dim as nat));
                    proof {
                        lemma_pow2_step((self.dim - 1) as nat);
                        vstd::arithmetic::power2::lemma2_to64();
                    }
                }
                Ok(())
            },
        }
    }

    /// Tells whether `other` holds the same keys as this table, whatever
    /// the sizes, the tombstones and the layouts of the two.
    pub fn eq(&self, other: &Self) -> (b: bool)
        requires
            self.wf(),
            other.wf(),
        ensures
            b == (self@ == other@),
    {
        proof {
            lemma_keys_len(self.slots());
            lemma_keys_len(other.slots());
        }
        if self.len() != other.len() {
            return false;
        }
        let mut i: usize = 0;
        while i < self.table.len()
            invariant
                0 <= i <= self.capacity(),
                self.wf(),
                other.wf(),
                forall|j: int|
                    0 <= j < i && (#[trigger] self.slots()[j]) is Val ==> other@.contains(self.slots()[j]->Val_0),
            decreases self.capacity() - i,
        {
            if let Entry::Val(x) = self.table[i] {
                if !other.contains(x) {
                    proof {
                        assert(self.slots().contains(Entry::Val(x)));
                    }
                    return false;
                }
            }
            i = i + 1;
        }
        proof {
            assert forall|k: u64| self@.contains(k) implies other@.contains(k) by {
                let j = choose|j: int| 0 <= j < self.slots().len() && self.slots()[j] == Entry::Val(k);
                assert(self.slots()[j] == Entry::Val(k));
            }
            vstd::set_lib::lemma_subset_equality(self@, other@);
        }
        true
    }

    /// A pass over the keys from the first slot to the last.
    pub fn iter(&self) -> (it: LinearHashTableIterator<'_, H>)
        ensures
            it.slots() == self.slots(),
            it.position() == 0,
    {
        LinearHashTableIterator { ref_to: self, index: 0 }
    }
}

/// The first slot at or after `from` that holds a key, or the number of
/// slots if there is none; `from` itself where it lies behind the slots.
pub open spec fn next_live(slots: Seq<Entry>, from: int) -> int
    decreases slots.len() - from,
{
    if from >= slots.len() {
        from
    } else if slots[from] is Val {
        from
    } else {
        next_live(slots, from + 1)
    }
}

/// One pass over the keys of a table, slot by slot from the front.
pub struct LinearHashTableIterator<'a, H: DimHasher> {
    ref_to: &'a LinearHashTable<H>,
    index: usize,
}

impl<'a, H: DimHasher> LinearHashTableIterator<'a, H> {
    /// The slots of the table that the pass goes over.
    pub closed spec fn slots(&self) -> Seq<Entry> {
        self.ref_to.slots()
    }

    /// The slot that the pass looks at next.
    pub closed spec fn position(&self) -> int {
        self.index as int
    }

    /// Hands out the key of the next slot that holds one and moves behind
    /// it, or moves to the end and hands out nothing.
    pub fn next(&mut self) -> (item: Option<&'a u64>)
        ensures
            final(self).slots() == old(self).slots(),
            ({
                let found = next_live(old(self).slots(), old(self).position());
                if found < old(self).slots().len() {
                    &&& item is Some
                    &&& old(self).slots()[found] == Entry::Val(*item->0)
                    &&& final(self).position() == found + 1
                } else {
                    &&& item is None
                    &&& final(self).position() == found
                }
            }),
    {
        while self.index < self.ref_to.table.len()
            invariant
                self.ref_to == old(self).ref_to,
                old(self).index <= self.index,
                next_live(self.slots(), self.position()) == next_live(old(self).slots(), old(self).position()),
            decreases self.ref_to.table@.len() - self.index,
        {
            let entry = &self.ref_to.table[self.index];
            self.index = self.index + 1;
            if let Entry::Val(x) = entry {
                return Some(x);
            }
        }
        None
    }
}

/// A key is in the table after it was added, whatever the answer was,
/// and is not in the table after it was removed.
pub proof fn lemma_membership_after(keys: Set<u64>, x: u64)
    ensures
        added(keys, x).0.contains(x),
        !removed(keys, x).0.contains(x),
{
}

/// Adding a key that is not in the table twice in a row succeeds the
/// first time and fails the second time with `KeyAlreadyExists`, and the
/// number of keys is one larger after both than before.
pub proof fn lemma_double_insertion(keys: Set<u64>, x: u64)
    requires
        keys.finite(),
        !keys.contains(x),
    ensures
        added(keys, x).1 == Ok::<(), Error>(()),
        added(added(keys, x).0, x).1 == Err::<(), Error>(Error::KeyAlreadyExists),
        added(added(keys, x).0, x).0.len() == keys.len() + 1,
{
}

/// Removing a key that is in the table twice in a row succeeds the first
/// time and fails the second time with `KeyNotFound`, and the number of
/// keys is one smaller after both than before.
pub proof fn lemma_double_removal(keys: Set<u64>, x: u64)
    requires
        keys.finite(),
        keys.contains(x),
    ensures
        removed(keys, x).1 == Ok::<(), Error>(()),
        removed(removed(keys, x).0, x).1 == Err::<(), Error>(Error::KeyNotFound),
        removed(removed(keys, x).0, x).0.len() == keys.len() - 1,
{
}

/// In a valid table the capacity is a power of two, two at least; the keys
/// are no more than the used slots, and the used slots no more than half
/// of all slots.
pub proof fn lemma_counters_ordered<H: DimHasher>(t: LinearHashTable<H>)
    requires
        t.wf(),
    ensures
        t.capacity() == pow2(t.dim() as nat),
        t.capacity() >= 2,
        t.len() <= t.occupied(),
        2 * t.occupied() <= t.capacity(),
        t.len() == t@.len(),
{
    lemma_pow2_step((t.dim() - 1) as nat);
    lemma_counts_bounded(t.slots());
    lemma_keys_len(t.slots());
}

/// In a valid table an empty slot exists, and every home slot lies inside the array.
pub proof fn lemma_room<H: DimHasher>(t: LinearHashTable<H>, x: u64)
    requires
        t.wf(),
    ensures
        0 <= t.home(x) < t.capacity(),
        exists|i: int| 0 <= i < t.capacity() && t.slots()[i] is Nil,
{
    t.lemma_capacity_fits();
    lemma_capacity_exponent(t.dim() as nat);
    t.hasher().lemma_hashed_in_range(x, t.dim());
    lemma_pow2_step((t.dim() - 1) as nat);
    if forall|i: int| 0 <= i < t.capacity() ==> !(t.slots()[i] is Nil) {
        lemma_used_count_full(t.slots());
    }
}

/// The search for a key visits at most as many slots as the table has:
/// within that many steps from the home slot it meets the key or an empty slot.
pub proof fn lemma_search_ends<H: DimHasher>(t: LinearHashTable<H>, x: u64)
    requires
        t.wf(),
    ensures
        exists|steps: int|
            0 <= steps < t.capacity() && {
                let slot = t.slots()[#[trigger] probe(t.home(x), steps, t.capacity() as int)];
                slot is Nil || slot == Entry::Val(x)
            },
{
    lemma_room(t, x);
    let n = t.capacity() as int;
    let i = choose|i: int| 0 <= i < t.capacity() && t.slots()[i] is Nil;
    lemma_distance_probe(t.home(x), i, n);
    assert(t.slots()[probe(t.home(x), distance(t.home(x), i, n), n)] is Nil);
}

/// The walk that places a key visits at most as many slots as the table
/// has: within that many steps from the home slot it meets a slot without a key.
pub proof fn lemma_placement_ends<H: DimHasher>(t: LinearHashTable<H>, x: u64)
    requires
        t.wf(),
    ensures
        exists|steps: int|
            0 <= steps < t.capacity() && !(t.slots()[#[trigger] probe(
                t.home(x),
                steps,
                t.capacity() as int,
            )] is Val),
{
    lemma_room(t, x);
    let n = t.capacity() as int;
    let i = choose|i: int| 0 <= i < t.capacity() && t.slots()[i] is Nil;
    lemma_distance_probe(t.home(x), i, n);
    assert(!(t.slots()[probe(t.home(x), distance(t.home(x), i, n), n)] is Val));
}

} // verus!
