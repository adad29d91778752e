//! A hash table of words with separate chaining.
//!
//! The table keeps `2^dim` buckets, and each key lies in the bucket that
//! the hasher names. The number of buckets doubles when the keys outnumber
//! them, and halves when the keys are fewer than a third of them.

use vstd::prelude::*;
use vstd::arithmetic::power2::pow2;
use crate::hashers::DimHasher;
use crate::hashers::rows_of;
use crate::powers::two_to;
use crate::powers::lemma_pow2_step;
use crate::powers::lemma_pow2_monotonic;
use crate::powers::lemma_capacity_exponent;

verus! {

/// Why an insertion or a removal changed nothing.
#[derive(Debug, PartialEq, Eq, Structural)]
pub enum Error {
    /// The key to insert is in the table already.
    KeyAlreadyExists,
    /// The key to remove is not in the table.
    KeyNotFound,
}

/// The keys that the buckets hold.
pub open spec fn keys_in(buckets: Seq<Seq<u64>>) -> Set<u64> {
    Set::new(|k: u64| exists|i: int| 0 <= i < buckets.len() && (#[trigger] buckets[i]).contains(k))
}

/// The number of keys in all buckets together.
pub open spec fn total(buckets: Seq<Seq<u64>>) -> nat
    decreases buckets.len(),
{
    if buckets.len() == 0 {
        0
    } else {
        total(buckets.drop_last()) + buckets.last().len()
    }
}

/// Each key lies in the bucket that the hasher names for it, and in no
/// bucket twice.
pub open spec fn sorted_for<H: DimHasher>(buckets: Seq<Seq<u64>>, hasher: H, dim: u32) -> bool {
    &&& forall|i: int, j: int|
        0 <= i < buckets.len() && 0 <= j < buckets[i].len() ==> hasher.hashed(#[trigger] buckets[i][j], dim) == i
    &&& forall|i: int| 0 <= i < buckets.len() ==> (#[trigger] buckets[i]).no_duplicates()
}

/// What an insertion of `x` makes of a set of keys, and what it answers.
pub open spec fn added(keys: Set<u64>, x: u64) -> (Set<u64>, Result<(), Error>) {
    if keys.contains(x) {
        (keys, Err(Error::KeyAlreadyExists))
    } else {
        (keys.insert(x), Ok(()))
    }
}

/// What a removal of `x` makes of a set of keys, and what it answers.
pub open spec fn removed(keys: Set<u64>, x: u64) -> (Set<u64>, Result<(), Error>) {
    if keys.contains(x) {
        (keys.remove(x), Ok(()))
    } else {
        (keys, Err(Error::KeyNotFound))
    }
}

/// The total of a prefix that is one bucket longer.
pub proof fn lemma_total_extend(buckets: Seq<Seq<u64>>, k: int)
    requires
        0 <= k < buckets.len(),
    ensures
        total(buckets.take(k + 1)) == total(buckets.take(k)) + buckets[k].len(),
{
    assert(buckets.take(k + 1).drop_last() =~= buckets.take(k));
}

/// A prefix of the buckets holds no more keys than all of them.
pub proof fn lemma_total_prefix(buckets: Seq<Seq<u64>>, k: int)
    requires
        0 <= k <= buckets.len(),
    ensures
        total(buckets.take(k)) <= total(buckets),
    decreases buckets.len() - k,
{
    if k < buckets.len() {
        lemma_total_extend(buckets, k);
        lemma_total_prefix(buckets, k + 1);
    } else {
        assert(buckets.take(k) =~= buckets);
    }
}

/// Buckets that are all empty hold no key.
pub proof fn lemma_total_empty(buckets: Seq<Seq<u64>>)
    requires
        forall|i: int| 0 <= i < buckets.len() ==> (#[trigger] buckets[i]).len() == 0,
    ensures
        total(buckets) == 0,
        keys_in(buckets) =~= Set::<u64>::empty(),
    decreases buckets.len(),
{
    if buckets.len() > 0 {
        assert forall|i: int| 0 <= i < buckets.drop_last().len() implies (#[trigger] buckets.drop_last()[i]).len()
            == 0 by {
            assert(buckets.drop_last()[i] == buckets[i]);
        }
        lemma_total_empty(buckets.drop_last());
    }
    assert forall|k: u64| !keys_in(buckets).contains(k) by {
        if keys_in(buckets).contains(k) {
            let i = choose|i: int| 0 <= i < buckets.len() && (#[trigger] buckets[i]).contains(k);
            assert(buckets[i].len() == 0);
        }
    }
}

/// What replacing one bucket does to the total.
pub proof fn lemma_total_update(buckets: Seq<Seq<u64>>, i: int, bucket: Seq<u64>)
    requires
        0 <= i < buckets.len(),
    ensures
        total(buckets.update(i, bucket)) + buckets[i].len() == total(buckets) + bucket.len(),
    decreases buckets.len(),
{
    let after = buckets.update(i, bucket);
    if i == buckets.len() - 1 {
        assert(after.drop_last() =~= buckets.drop_last());
    } else {
        lemma_total_update(buckets.drop_last(), i, bucket);
        assert(after.drop_last() =~= buckets.drop_last().update(i, bucket));
    }
}

/// Putting an absent key at the end of the bucket that the hasher names
/// keeps the buckets sorted and adds the key to the keys, and nothing else.
pub proof fn lemma_chain<H: DimHasher>(buckets: Seq<Seq<u64>>, hasher: H, dim: u32, x: u64)
    requires
        sorted_for(buckets, hasher, dim),
        0 <= hasher.hashed(x, dim) < buckets.len(),
        !keys_in(buckets).contains(x),
    ensures
        ({
            let i = hasher.hashed(x, dim) as int;
            let after = buckets.update(i, buckets[i].push(x));
            &&& sorted_for(after, hasher, dim)
            &&& keys_in(after) == keys_in(buckets).insert(x)
            &&& total(after) == total(buckets) + 1
        }),
{
    let i = hasher.hashed(x, dim) as int;
    let after = buckets.update(i, buckets[i].push(x));
    lemma_total_update(buckets, i, buckets[i].push(x));
    assert forall|a: int, b: int| 0 <= a < after.len() && 0 <= b < after[a].len() implies hasher.hashed(
        #[trigger] after[a][b],
        dim,
    ) == a by {
        if a == i && b < buckets[i].len() {
            assert(after[a][b] == buckets[a][b]);
        } else if a != i {
            assert(after[a][b] == buckets[a][b]);
        }
    }
    assert forall|a: int| 0 <= a < after.len() implies (#[trigger] after[a]).no_duplicates() by {
        assert(buckets[a].no_duplicates());
        if a == i {
            assert forall|p: int, q: int| 0 <= p < after[a].len() && 0 <= q < after[a].len() && p != q implies after[a][p]
                != after[a][q] by {
                if p == buckets[i].len() {
                    if after[a][q] == x {
                        assert(buckets[i][q] == x);
                        assert(buckets[i].contains(x));
                    }
                } else if q == buckets[i].len() {
                    if after[a][p] == x {
                        assert(buckets[i][p] == x);
                        assert(buckets[i].contains(x));
                    }
                }
            }
        }
    }
    assert forall|k: u64| keys_in(after).contains(k) <==> keys_in(buckets).insert(x).contains(k) by {
        if keys_in(after).contains(k) {
            let a = choose|a: int| 0 <= a < after.len() && (#[trigger] after[a]).contains(k);
            let b = choose|b: int| 0 <= b < after[a].len() && after[a][b] == k;
            if a != i {
                assert(buckets[a].contains(k));
            } else if b < buckets[i].len() {
                assert(buckets[i][b] == k);
                assert(buckets[i].contains(k));
            }
        }
        if keys_in(buckets).contains(k) {
            let a = choose|a: int| 0 <= a < buckets.len() && (#[trigger] buckets[a]).contains(k);
            let b = choose|b: int| 0 <= b < buckets[a].len() && buckets[a][b] == k;
            assert(after[a][b] == k);
            assert(after[a].contains(k));
        }
        if k == x {
            assert(after[i][buckets[i].len() as int] == x);
            assert(after[i].contains(x));
        }
    }
    assert(keys_in(after) =~= keys_in(buckets).insert(x));
}

/// Taking a key out of its bucket keeps the buckets sorted and takes the
/// key from the keys, and nothing else.
pub proof fn lemma_unchain<H: DimHasher>(buckets: Seq<Seq<u64>>, hasher: H, dim: u32, i: int, j: int)
    requires
        sorted_for(buckets, hasher, dim),
        0 <= i < buckets.len(),
        0 <= j < buckets[i].len(),
    ensures
        ({
            let after = buckets.update(i, buckets[i].remove(j));
            &&& sorted_for(after, hasher, dim)
            &&& keys_in(after) == keys_in(buckets).remove(buckets[i][j])
            &&& total(after) + 1 == total(buckets)
        }),
{
    let x = buckets[i][j];
    let after = buckets.update(i, buckets[i].remove(j));
    lemma_total_update(buckets, i, buckets[i].remove(j));
    assert(buckets[i].no_duplicates());
    assert forall|a: int, b: int| 0 <= a < after.len() && 0 <= b < after[a].len() implies hasher.hashed(
        #[trigger] after[a][b],
        dim,
    ) == a by {
        if a == i {
            if b < j {
                assert(after[a][b] == buckets[a][b]);
            } else {
                assert(after[a][b] == buckets[a][b + 1]);
            }
        } else {
            assert(after[a][b] == buckets[a][b]);
        }
    }
    assert forall|a: int| 0 <= a < after.len() implies (#[trigger] after[a]).no_duplicates() by {
        assert(buckets[a].no_duplicates());
        if a == i {
            assert forall|p: int, q: int| 0 <= p < after[a].len() && 0 <= q < after[a].len() && p != q implies after[a][p]
                != after[a][q] by {
                let pp = if p < j {
                    p
                } else {
                    p + 1
                };
                let qq = if q < j {
                    q
                } else {
                    q + 1
                };
                assert(after[a][p] == buckets[i][pp]);
                assert(after[a][q] == buckets[i][qq]);
            }
        }
    }
    assert forall|k: u64| keys_in(after).contains(k) <==> keys_in(buckets).remove(x).contains(k) by {
        if keys_in(after).contains(k) {
            let a = choose|a: int| 0 <= a < after.len() && (#[trigger] after[a]).contains(k);
            let b = choose|b: int| 0 <= b < after[a].len() && after[a][b] == k;
            if a != i {
                assert(buckets[a].contains(k));
                assert(hasher.hashed(buckets[a][b], dim) == a);
                assert(hasher.hashed(buckets[i][j], dim) == i);
            } else {
                let bb = if b < j {
                    b
                } else {
                    b + 1
                };
                assert(buckets[i][bb] == k);
                assert(buckets[i].contains(k));
            }
        }
        if keys_in(buckets).contains(k) && k != x {
            let a = choose|a: int| 0 <= a < buckets.len() && (#[trigger] buckets[a]).contains(k);
            let b = choose|b: int| 0 <= b < buckets[a].len() && buckets[a][b] == k;
            if a == i {
                let bb = if b < j {
                    b
                } else {
                    b - 1
                };
                assert(after[i][bb] == k);
            } else {
                assert(after[a][b] == k);
            }
            assert(after[a].contains(k));
        }
    }
    assert(keys_in(after) =~= keys_in(buckets).remove(x));
}

/// Where each key lies once in the bucket that the hasher names, the set
/// of keys is finite and as large as all buckets together.
pub proof fn lemma_keys_total<H: DimHasher>(buckets: Seq<Seq<u64>>, hasher: H, dim: u32)
    requires
        sorted_for(buckets, hasher, dim),
    ensures
        keys_in(buckets).finite(),
        keys_in(buckets).len() == total(buckets),
    decreases buckets.len(),
{
    if buckets.len() == 0 {
        assert(keys_in(buckets) =~= Set::<u64>::empty());
    } else {
        let front = buckets.drop_last();
        let last = buckets.last();
        let at = buckets.len() - 1;
        assert forall|i: int, j: int| 0 <= i < front.len() && 0 <= j < front[i].len() implies hasher.hashed(
            #[trigger] front[i][j],
            dim,
        ) == i by {
            assert(front[i][j] == buckets[i][j]);
        }
        assert forall|i: int| 0 <= i < front.len() implies (#[trigger] front[i]).no_duplicates() by {
            assert(front[i] == buckets[i]);
        }
        lemma_keys_total(front, hasher, dim);
        assert(buckets[at].no_duplicates());
        last.unique_seq_to_set();
        vstd::seq_lib::seq_to_set_is_finite(last);
        assert forall|k: u64| keys_in(buckets).contains(k) <==> (keys_in(front) + last.to_set()).contains(k) by {
            if keys_in(buckets).contains(k) {
                let a = choose|a: int| 0 <= a < buckets.len() && (#[trigger] buckets[a]).contains(k);
                if a < at {
                    assert(front[a].contains(k));
                }
            }
            if keys_in(front).contains(k) {
                let a = choose|a: int| 0 <= a < front.len() && (#[trigger] front[a]).contains(k);
                assert(buckets[a].contains(k));
            }
            if last.contains(k) {
                assert(buckets[at].contains(k));
            }
        }
        assert(keys_in(buckets) =~= keys_in(front) + last.to_set());
        assert(keys_in(front).disjoint(last.to_set())) by {
            assert forall|k: u64| !(keys_in(front).contains(k) && last.to_set().contains(k)) by {
                if keys_in(front).contains(k) && last.contains(k) {
                    let a = choose|a: int| 0 <= a < front.len() && (#[trigger] front[a]).contains(k);
                    let b = choose|b: int| 0 <= b < front[a].len() && front[a][b] == k;
                    let c = choose|c: int| 0 <= c < last.len() && last[c] == k;
                    assert(hasher.hashed(buckets[a][b], dim) == a);
                    assert(hasher.hashed(buckets[at][c], dim) == at);
                }
            }
        }
        vstd::set_lib::lemma_set_disjoint_lens(keys_in(front), last.to_set());
        vstd::set_lib::lemma_set_union_finite_iff(keys_in(front), last.to_set());
    }
}

/// A set of words kept in `2^dim` buckets.
#[derive(Debug, Clone)]
pub struct ChainedHashTable<H: DimHasher> {
    dim: u32,
    table: Vec<Vec<u64>>,
    hasher: H,
    len: usize,
}

impl<H: DimHasher> View for ChainedHashTable<H> {
    type V = Set<u64>;

    /// The keys in the table, whatever the number of buckets.
    open spec fn view(&self) -> Set<u64> {
        keys_in(self.buckets())
    }
}

impl<H: DimHasher> ChainedHashTable<H> {
    /// The buckets, each with its keys in the order in which they came.
    pub closed spec fn buckets(&self) -> Seq<Seq<u64>> {
        rows_of(self.table)
    }

    /// The exponent of the number of buckets.
    pub closed spec fn dim_spec(&self) -> u32 {
        self.dim
    }

    /// The number of keys that the table counts.
    pub closed spec fn len_spec(&self) -> usize {
        self.len
    }

    /// The hash function that the table was made with.
    pub closed spec fn hasher(&self) -> H {
        self.hasher
    }

    /// The bucket in which `x` lies if it is in the table.
    pub open spec fn home(&self, x: u64) -> int {
        self.hasher().hashed(x, self.dim()) as int
    }

    /// There are `2^dim` buckets, with `dim` at least one.
    pub open spec fn shaped(&self) -> bool {
        &&& 1 <= self.dim()
        &&& self.buckets().len() == pow2(self.dim() as nat)
    }

    /// Validity: the shape is right, each key lies once in the bucket that
    /// the hasher names, and the counter counts the keys.
    pub open spec fn wf(&self) -> bool {
        &&& self.shaped()
        &&& sorted_for(self.buckets(), self.hasher(), self.dim())
        &&& self.len() == total(self.buckets())
    }

    /// An empty table of `2^dim` buckets that hashes with `hasher`.
    pub fn initialize(dim: u32, hasher: H) -> (t: Self)
        requires
            dim > 0,
            pow2(dim as nat) <= usize::MAX,
        ensures
            t.wf(),
            t@ == Set::<u64>::empty(),
            t.dim() == dim,
            t.len() == 0,
            t.hasher() == hasher,
    {
        let table = Self::new_table(dim);
        proof {
            lemma_total_empty(rows_of(table));
        }
        Self { dim, table, hasher, len: 0 }
    }

    /// A table put together from its parts as they are. Nothing is checked:
    /// the table is valid only if the parts fit together as `wf` says.
    pub fn from_parts(dim: u32, table: Vec<Vec<u64>>, hasher: H, len: usize) -> (t: Self)
        ensures
            t.dim() == dim,
            t.buckets() == rows_of(table),
            t.hasher() == hasher,
            t.len() == len,
    {
        Self { dim, table, hasher, len }
    }

    /// Tells whether the parts of the table fit together: checks the
    /// shape, asks the hasher for the bucket of every key, compares the
    /// keys of each bucket with each other, and counts them all.
    pub fn is_valid(&self) -> (b: bool)
        ensures
            b == self.wf(),
    {
        let n = self.table.len();
        proof {
            assert(n == self.buckets().len());
        }
        if self.dim < 1 || self.dim >= usize::BITS {
            proof {
                if self.shaped() {
                    lemma_capacity_exponent(self.dim as nat);
                }
            }
            return false;
        }
        proof {
            vstd::bits::lemma_usize_pow2_no_overflow(self.dim as nat);
        }
        if two_to(self.dim) != n {
            return false;
        }
        let mut count: usize = 0;
        let mut a: usize = 0;
        while a < n
            invariant
                0 <= a <= n,
                n == self.buckets().len(),
                self.shaped(),
                count == total(self.buckets().take(a as int)),
                count <= self.len(),
                forall|i: int, j: int|
                    0 <= i < a && 0 <= j < self.buckets()[i].len() ==> self.hasher().hashed(
                        #[trigger] self.buckets()[i][j],
                        self.dim(),
                    ) == i,
                forall|i: int| 0 <= i < a ==> (#[trigger] self.buckets()[i]).no_duplicates(),
            decreases n - a,
        {
            let row = &self.table[a];
            proof {
                lemma_total_extend(self.buckets(), a as int);
                lemma_total_prefix(self.buckets(), a + 1);
            }
            if row.len() > self.len - count {
                return false;
            }
            let mut b: usize = 0;
            while b < row.len()
                invariant
                    0 <= a < n,
                    0 <= b <= row@.len(),
                    n == self.buckets().len(),
                    row@ == self.buckets()[a as int],
                    self.shaped(),
                    forall|j: int| 0 <= j < b ==> self.hasher().hashed(#[trigger] row@[j], self.dim()) == a,
                    forall|j: int, c: int| 0 <= j < b && j < c < row@.len() ==> row@[j] != row@[c],
                decreases row@.len() - b,
            {
                let x = row[b];
                if self.hash(x) != a {
                    proof {
                        assert(self.buckets()[a as int][b as int] == x);
                    }
                    return false;
                }
                let mut c: usize = b + 1;
                while c < row.len()
                    invariant
                        b < c <= row@.len(),
                        row@[b as int] == x,
                        row@ == self.buckets()[a as int],
                        0 <= a < self.buckets().len(),
                        forall|d: int| b < d < c ==> row@[d] != x,
                    decreases row@.len() - c,
                {
                    if row[c] == x {
                        proof {
                            if self.buckets()[a as int].no_duplicates() {
                                assert(row@[b as int] != row@[c as int]);
                            }
                        }
                        return false;
                    }
                    c = c + 1;
                }
                b = b + 1;
            }
            count = count + row.len();
            a = a + 1;
        }
        proof {
            assert(self.buckets().take(n as int) =~= self.buckets());
        }
        count == self.len
    }

    /// Returns the exponent of the number of buckets.
    #[verifier::when_used_as_spec(dim_spec)]
    pub fn dim(&self) -> (dim: u32)
        ensures
            dim == self.dim_spec(),
    {
        self.dim
    }

    /// Returns the buckets.
    pub fn table(&self) -> (table: &Vec<Vec<u64>>)
        ensures
            rows_of(*table) == self.buckets(),
    {
        &self.table
    }

    /// Returns the number of keys in the table.
    #[verifier::when_used_as_spec(len_spec)]
    pub fn len(&self) -> (n: usize)
        ensures
            n == self.len_spec(),
            self.wf() ==> n == self@.len() && self@.finite(),
    {
        proof {
            if self.wf() {
                lemma_keys_total(self.buckets(), self.hasher(), self.dim());
            }
        }
        self.len
    }

    /// Returns the bucket in which `x` lies if it is in the table.
    pub fn hash(&self, x: u64) -> (i: usize)
        requires
            self.shaped(),
        ensures
            i == self.home(x),
            i < self.buckets().len(),
    {
        proof {
            assert(self.table.len() == self.buckets().len());
            lemma_capacity_exponent(self.dim as nat);
        }
        let y = self.hasher.hash(x, self.dim);
        y as usize
    }

    /// The place of `x` in a bucket, if it is there.
    fn position(row: &Vec<u64>, x: u64) -> (place: Option<usize>)
        ensures
            place is Some <==> row@.contains(x),
            place is Some ==> place->0 < row@.len() && row@[place->0 as int] == x,
    {
        let mut j: usize = 0;
        while j < row.len()
            invariant
                j <= row@.len(),
                forall|b: int| 0 <= b < j ==> row@[b] != x,
            decreases row@.len() - j,
        {
            if row[j] == x {
                return Some(j);
            }
            j = j + 1;
        }
        None
    }

    /// Tells whether `x` is in the table.
    pub fn contains(&self, x: u64) -> (b: bool)
        requires
            self.wf(),
        ensures
            b == self@.contains(x),
    {
        let i = self.hash(x);
        let row = &self.table[i];
        let found = Self::position(row, x).is_some();
        proof {
            self.lemma_home(x);
        }
        found
    }

    /// A key of a valid table lies in its home bucket and nowhere else.
    pub proof fn lemma_home(&self, x: u64)
        requires
            self.wf(),
            0 <= self.home(x) < self.buckets().len(),
        ensures
            self@.contains(x) <==> self.buckets()[self.home(x)].contains(x),
    {
        if self@.contains(x) {
            let a = choose|a: int| 0 <= a < self.buckets().len() && (#[trigger] self.buckets()[a]).contains(x);
            let b = choose|b: int| 0 <= b < self.buckets()[a].len() && self.buckets()[a][b] == x;
            assert(self.hasher().hashed(self.buckets()[a][b], self.dim()) == a);
        }
    }

    /// Inserts `x` unless it is in the table already. Where the keys
    /// outnumber the buckets, the number of buckets is doubled first.
    pub fn add(&mut self, x: u64) -> (r: Result<(), Error>)
        requires
            old(self).wf(),
            2 * old(self).buckets().len() <= usize::MAX,
            old(self).len() < usize::MAX,
        ensures
            final(self).wf(),
            (final(self)@, r) == added(old(self)@, x),
            final(self).hasher() == old(self).hasher(),
            r is Err ==> *final(self) == *old(self),
            r is Ok ==> final(self).len() == old(self).len() + 1,
            r is Ok ==> final(self).dim() == if old(self).len() <= old(self).buckets().len() {
                old(self).dim()
            } else {
                (old(self).dim() + 1) as u32
            },
    {
        if self.contains(x) {
            Err(Error::KeyAlreadyExists)
        } else {
            if !self.size_invariant_holds() {
                proof {
                    lemma_pow2_step(self.dim as nat);
                    assert(self.table.len() == self.buckets().len());
                    lemma_capacity_exponent((self.dim + 1) as nat);
                }
                self.resize(self.dim + 1);
            }
            let ghost before = self.buckets();
            let i = self.hash(x);
            proof {
                lemma_chain(before, self.hasher(), self.dim(), x);
            }
            self.table[i].push(x);
            self.len = self.len + 1;
            proof {
                assert(self.buckets() =~= before.update(i as int, before[i as int].push(x)));
            }
            Ok(())
        }
    }

    /// Removes `x` if it is in the table. Where the keys are then fewer
    /// than a third of the buckets, and there are more than two buckets,
    /// the number of buckets is halved.
    pub fn remove(&mut self, x: u64) -> (r: Result<(), Error>)
        requires
            old(self).wf(),
        ensures
            final(self).wf(),
            (final(self)@, r) == removed(old(self)@, x),
            final(self).hasher() == old(self).hasher(),
            r is Err ==> *final(self) == *old(self),
            r is Ok ==> final(self).len() == old(self).len() - 1,
            r is Ok ==> final(self).dim() == if old(self).dim() > 1 && 3 * (old(self).len() - 1) < old(
                self,
            ).buckets().len() {
                (old(self).dim() - 1) as u32
            } else {
                old(self).dim()
            },
    {
        let i = self.hash(x);
        proof {
            self.lemma_home(x);
        }
        match Self::position(&self.table[i], x) {
            None => Err(Error::KeyNotFound),
            Some(j) => {
                let ghost before = self.buckets();
                proof {
                    lemma_unchain(before, self.hasher(), self.dim(), i as int, j as int);
                }
                self.table[i].remove(j);
                self.len = self.len - 1;
                proof {
                    assert(self.buckets() =~= before.update(i as int, before[i as int].remove(j as int)));
                }
                if self.table_is_very_long() {
                    proof {
                        lemma_pow2_monotonic((self.dim - 1) as nat, self.dim as nat);
                        assert(self.table.len() == self.buckets().len());
                    }
                    self.resize(self.dim - 1);
                }
                Ok(())
            },
        }
    }

    /// Tells whether `other` holds the same keys as this table, whatever
    /// the numbers of buckets of the two.
    pub fn eq(&self, other: &Self) -> (b: bool)
        requires
            self.wf(),
            other.wf(),
        ensures
            b == (self@ == other@),
    {
        proof {
            lemma_keys_total(self.buckets(), self.hasher(), self.dim());
            lemma_keys_total(other.buckets(), other.hasher(), other.dim());
        }
        if self.len() != other.len() {
            return false;
        }
        let mut a: usize = 0;
        while a < self.table.len()
            invariant
                0 <= a <= self.buckets().len(),
                self.wf(),
                other.wf(),
                forall|c: int, d: int|
                    0 <= c < a && 0 <= d < self.buckets()[c].len() ==> other@.contains(#[trigger] self.buckets()[c][d]),
            decreases self.buckets().len() - a,
        {
            let row = &self.table[a];
            let mut b: usize = 0;
            while b < row.len()
                invariant
                    0 <= a < self.buckets().len(),
                    0 <= b <= row@.len(),
                    row@ == self.buckets()[a as int],
                    self.wf(),
                    other.wf(),
                    forall|d: int| 0 <= d < b ==> other@.contains(#[trigger] row@[d]),
                decreases row@.len() - b,
            {
                if !other.contains(row[b]) {
                    proof {
                        assert(self.buckets()[a as int].contains(row@[b as int]));
                    }
                    return false;
                }
                b = b + 1;
            }
            a = a + 1;
        }
        proof {
            assert forall|k: u64| self@.contains(k) implies other@.contains(k) by {
                let c = choose|c: int| 0 <= c < self.buckets().len() && (#[trigger] self.buckets()[c]).contains(k);
                let d = choose|d: int| 0 <= d < self.buckets()[c].len() && self.buckets()[c][d] == k;
                assert(other@.contains(self.buckets()[c][d]));
            }
            vstd::set_lib::lemma_subset_equality(self@, other@);
        }
        true
    }

    /// Rebuilds the table with `2^to_dim` buckets: lays out empty buckets
    /// and puts each key in the bucket that the hasher now names for it.
    pub fn resize(&mut self, to_dim: u32)
        requires
            old(self).wf(),
            1 <= to_dim,
            pow2(to_dim as nat) <= usize::MAX,
        ensures
            final(self).wf(),
            final(self)@ == old(self)@,
            final(self).dim() == to_dim,
            final(self).len() == old(self).len(),
            final(self).hasher() == old(self).hasher(),
    {
        self.dim = to_dim;
        let mut table = Self::new_table(to_dim);
        std::mem::swap(&mut self.table, &mut table);
        let ghost old_rows = rows_of(table);
        let ghost old_dim = old(self).dim();
        proof {
            lemma_total_empty(self.buckets());
            assert(old_rows.take(0) =~= Seq::<Seq<u64>>::empty());
            assert(keys_in(old_rows.take(0)) =~= Set::<u64>::empty());
        }
        let mut a: usize = 0;
        while a < table.len()
            invariant
                0 <= a <= old_rows.len(),
                old_rows == rows_of(table),
                old_rows == old(self).buckets(),
                sorted_for(old_rows, self.hasher(), old_dim),
                self.shaped(),
                self.dim() == to_dim,
                self.hasher() == old(self).hasher(),
                self.len() == old(self).len(),
                sorted_for(self.buckets(), self.hasher(), to_dim),
                self@ == keys_in(old_rows.take(a as int)),
                total(self.buckets()) == total(old_rows.take(a as int)),
            decreases old_rows.len() - a,
        {
            let row = &table[a];
            let ghost done = self@;
            let ghost count = total(self.buckets());
            let mut b: usize = 0;
            while b < row.len()
                invariant
                    0 <= a < old_rows.len(),
                    0 <= b <= row@.len(),
                    row@ == old_rows[a as int],
                    sorted_for(old_rows, self.hasher(), old_dim),
                    done == keys_in(old_rows.take(a as int)),
                    self.shaped(),
                    self.dim() == to_dim,
                    self.hasher() == old(self).hasher(),
                    self.len() == old(self).len(),
                    sorted_for(self.buckets(), self.hasher(), to_dim),
                    forall|k: u64| #[trigger] self@.contains(k) <==> done.contains(k) || row@.take(b as int).contains(k),
                    total(self.buckets()) == count + b,
                decreases row@.len() - b,
            {
                let x = row[b];
                let ghost before = self.buckets();
                let ghost had = self@;
                proof {
                    assert(old_rows[a as int].no_duplicates());
                    let shorter = row@.take(b as int);
                    let fewer = old_rows.take(a as int);
                    if shorter.contains(x) {
                        let p = choose|p: int| 0 <= p < shorter.len() && shorter[p] == x;
                        assert(row@[p] == row@[b as int]);
                    }
                    if done.contains(x) {
                        let c = choose|c: int| 0 <= c < fewer.len() && (#[trigger] fewer[c]).contains(x);
                        let d = choose|d: int| 0 <= d < old_rows[c].len() && old_rows[c][d] == x;
                        assert(self.hasher().hashed(old_rows[c][d], old_dim) == c);
                        assert(self.hasher().hashed(old_rows[a as int][b as int], old_dim) == a);
                    }
                }
                let i = self.hash(x);
                proof {
                    lemma_chain(before, self.hasher(), to_dim, x);
                }
                self.table[i].push(x);
                proof {
                    assert(self.buckets() =~= before.update(i as int, before[i as int].push(x)));
                    let longer = row@.take(b + 1);
                    let shorter = row@.take(b as int);
                    assert forall|k: u64| self@.contains(k) <==> done.contains(k) || longer.contains(k) by {
                        assert(had.contains(k) <==> done.contains(k) || shorter.contains(k));
                        assert(self@.contains(k) <==> had.contains(k) || k == x);
                        if longer.contains(k) {
                            let p = choose|p: int| 0 <= p < longer.len() && longer[p] == k;
                            if p < b {
                                assert(shorter[p] == k);
                            }
                        }
                        if shorter.contains(k) {
                            let p = choose|p: int| 0 <= p < shorter.len() && shorter[p] == k;
                            assert(longer[p] == k);
                        }
                        if k == x {
                            assert(longer[b as int] == x);
                        }
                    }
                }
                b = b + 1;
            }
            proof {
                lemma_total_extend(old_rows, a as int);
                assert(row@.take(b as int) =~= row@);
                let more = old_rows.take(a + 1);
                let fewer = old_rows.take(a as int);
                assert forall|k: u64| self@.contains(k) <==> keys_in(more).contains(k) by {
                    if keys_in(more).contains(k) {
                        let c = choose|c: int| 0 <= c < more.len() && (#[trigger] more[c]).contains(k);
                        if c < a {
                            assert(fewer[c].contains(k));
                        }
                    }
                    if done.contains(k) {
                        let c = choose|c: int| 0 <= c < fewer.len() && (#[trigger] fewer[c]).contains(k);
                        assert(more[c].contains(k));
                    }
                    if row@.contains(k) {
                        assert(more[a as int].contains(k));
                    }
                }
                assert(self@ =~= keys_in(more));
            }
            a = a + 1;
        }
        proof {
            assert(old_rows.take(a as int) =~= old_rows);
        }
    }

    /// `2^dim` empty buckets.
    fn new_table(dim: u32) -> (table: Vec<Vec<u64>>)
        requires
            pow2(dim as nat) <= usize::MAX,
        ensures
            table@.len() == pow2(dim as nat),
            forall|i: int| 0 <= i < table@.len() ==> (#[trigger] table@[i])@.len() == 0,
    {
        let n = two_to(dim);
        let mut table: Vec<Vec<u64>> = Vec::with_capacity(n);
        let mut i: usize = 0;
        while i < n
            invariant
                i <= n,
                table@.len() == i,
                forall|a: int| 0 <= a < i ==> (#[trigger] table@[a])@.len() == 0,
            decreases n - i,
        {
            table.push(Vec::new());
            i = i + 1;
        }
        table
    }

    /// Tells whether the keys are no more than the buckets.
    fn size_invariant_holds(&self) -> (b: bool)
        ensures
            b == (self.len() <= self.buckets().len()),
    {
        self.len() <= self.table.len()
    }

    /// Tells whether the keys are fewer than a third of the buckets, and
    /// the buckets more than two.
    fn table_is_very_long(&self) -> (b: bool)
        ensures
            b == (self.dim() > 1 && 3 * self.len() < self.buckets().len()),
    {
        proof {
            assert(self.table.len() == self.buckets().len());
        }
        self.dim > 1 && match self.len().checked_mul(3) {
            Some(threefold) => threefold < self.table.len(),
            None => false,
        }
    }
}

} // verus!
