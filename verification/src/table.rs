//! Cells and table generations.
//!
//! A cell is one bucket: the unit of write-lock granularity in the concurrent
//! design, holding entries tagged with the partial hash of their key. A cell
//! may be *killed* once its contents have migrated to a newer generation: a
//! killed cell is empty, refuses further mutation, and signals that migration
//! is complete for its index. A table is one generation of the bucket array:
//! a fixed number of cells, with the cell of a key determined by its full
//! hash modulo the cell count.

use crate::hashing::low8;
use crate::hashing::IndexKey;
use crate::policy::CELL_SIZE;
use vstd::prelude::*;

verus! {

/// One stored pair, tagged with the partial hash of its key.
#[derive(Clone)]
pub struct Entry<K, V> {
    pub key: K,
    pub value: V,
    pub partial_hash: u8,
}

/// Whether some entry of `s` has key `k`.
pub open spec fn seq_has_key<K, V>(s: Seq<Entry<K, V>>, k: K) -> bool {
    exists|j: int| 0 <= j < s.len() && (#[trigger] s[j]).key == k
}

/// The value stored for `k` in `s` (meaningful when the keys are distinct).
pub open spec fn seq_value_of<K, V>(s: Seq<Entry<K, V>>, k: K) -> V {
    let j = choose|j: int| 0 <= j < s.len() && (#[trigger] s[j]).key == k;
    s[j].value
}

/// Whether the keys of `s` are pairwise distinct.
pub open spec fn seq_distinct_keys<K, V>(s: Seq<Entry<K, V>>) -> bool {
    forall|j1: int, j2: int|
        0 <= j1 < j2 < s.len() ==> (#[trigger] s[j1]).key != (#[trigger] s[j2]).key
}

/// Appending an entry for an absent key keeps every other key's entry intact
/// and stores the new pair.
pub proof fn lemma_push_entry<K, V>(s: Seq<Entry<K, V>>, e: Entry<K, V>)
    requires
        !seq_has_key(s, e.key),
        seq_distinct_keys(s),
    ensures
        seq_has_key(s.push(e), e.key),
        seq_value_of(s.push(e), e.key) == e.value,
        seq_distinct_keys(s.push(e)),
        forall|q: K| q != e.key ==> seq_has_key(s.push(e), q) == seq_has_key(s, q),
        forall|q: K|
            q != e.key && seq_has_key(s, q) ==> seq_value_of(s.push(e), q) == seq_value_of(s, q),
{
    let t = s.push(e);
    assert(t[s.len() as int] == e);
    assert forall|q: K| q != e.key && seq_has_key(s, q) implies seq_has_key(t, q)
        && seq_value_of(t, q) == seq_value_of(s, q) by {
        let j = choose|j: int| 0 <= j < s.len() && (#[trigger] s[j]).key == q;
        assert(t[j] == s[j]);
        assert(seq_has_key(t, q));
        let j1 = choose|j1: int| 0 <= j1 < t.len() && (#[trigger] t[j1]).key == q;
        assert(j1 < s.len());
        assert(s[j1].key == q);
        if j1 != j {
            assert(s[j1].key != s[j].key);
        }
    }
    assert forall|q: K| q != e.key && seq_has_key(t, q) implies seq_has_key(s, q) by {
        let j = choose|j: int| 0 <= j < t.len() && (#[trigger] t[j]).key == q;
        assert(j < s.len());
        assert(s[j] == t[j]);
    }
    let je = choose|j: int| 0 <= j < t.len() && (#[trigger] t[j]).key == e.key;
    if je < s.len() {
        assert(s[je] == t[je]);
        assert(false);
    }
    assert(seq_value_of(t, e.key) == e.value);
}

/// Removing the entry at `j` removes exactly its key and keeps every other
/// key's entry intact.
pub proof fn lemma_remove_entry<K, V>(s: Seq<Entry<K, V>>, j: int)
    requires
        0 <= j < s.len(),
        seq_distinct_keys(s),
    ensures
        !seq_has_key(s.remove(j), s[j].key),
        seq_distinct_keys(s.remove(j)),
        s.remove(j).len() == s.len() - 1,
        forall|q: K| q != s[j].key ==> seq_has_key(s.remove(j), q) == seq_has_key(s, q),
        forall|q: K|
            q != s[j].key && seq_has_key(s, q) ==> seq_value_of(s.remove(j), q) == seq_value_of(
                s,
                q,
            ),
{
    let t = s.remove(j);
    let k0 = s[j].key;
    assert(forall|i: int| 0 <= i < j ==> t[i] == s[i]);
    assert(forall|i: int| j <= i < t.len() ==> t[i] == s[i + 1]);
    assert forall|q: K| q != k0 && seq_has_key(s, q) implies seq_has_key(t, q) && seq_value_of(
        t,
        q,
    ) == seq_value_of(s, q) by {
        let i = choose|i: int| 0 <= i < s.len() && (#[trigger] s[i]).key == q;
        if i < j {
            assert(t[i] == s[i]);
        } else {
            assert(i > j);
            assert(t[i - 1] == s[i]);
        }
        assert(seq_has_key(t, q));
        let i1 = choose|i1: int| 0 <= i1 < t.len() && (#[trigger] t[i1]).key == q;
        let i2: int = if i1 < j {
            i1
        } else {
            i1 + 1
        };
        assert(s[i2].key == q);
        if i2 != i {
            assert(s[i2].key != s[i].key);
        }
    }
    assert forall|q: K| seq_has_key(t, q) implies seq_has_key(s, q) && q != k0 by {
        let i1 = choose|i1: int| 0 <= i1 < t.len() && (#[trigger] t[i1]).key == q;
        let i2: int = if i1 < j {
            i1
        } else {
            i1 + 1
        };
        assert(s[i2] == t[i1]);
        assert(i2 != j);
        if s[i2].key == k0 {
            if i2 < j {
                assert(s[i2].key != s[j].key);
            } else {
                assert(s[j].key != s[i2].key);
            }
        }
    }
}

/// A cell: one bucket, the unit of exclusive locking. A killed cell has been
/// fully migrated to the next generation and stays empty.
#[derive(Clone)]
pub struct Cell<K, V> {
    pub entries: Vec<Entry<K, V>>,
    pub killed: bool,
}

impl<K, V> Cell<K, V> {
    /// Whether the cell stores an entry for `k`.
    pub open spec fn has_key(self, k: K) -> bool {
        seq_has_key(self.entries@, k)
    }

    /// The value the cell stores for `k`.
    pub open spec fn value_of(self, k: K) -> V {
        seq_value_of(self.entries@, k)
    }

    /// Well-formedness of the cell at index `index` of a table of `num_cells`
    /// cells, under the full-hash function `hf`: every entry carries the
    /// partial hash of its key, every entry's key hashes to this cell, keys
    /// are pairwise distinct, and a killed cell is empty.
    pub open spec fn wf(self, hf: spec_fn(K) -> u64, index: int, num_cells: int) -> bool {
        &&& forall|j: int|
            0 <= j < self.entries@.len() ==> (#[trigger] self.entries@[j]).partial_hash == low8(
                hf(self.entries@[j].key),
            )
        &&& forall|j: int|
            0 <= j < self.entries@.len() ==> hf(
                (#[trigger] self.entries@[j]).key,
            ) as int % num_cells == index
        &&& seq_distinct_keys(self.entries@)
        &&& (self.killed ==> self.entries@.len() == 0)
    }
}

impl<K: IndexKey, V> Cell<K, V> {
    /// The number of entries the cell holds.
    pub fn num_entries(&self) -> (r: usize)
        ensures
            r == self.entries@.len(),
    {
        self.entries.len()
    }

    /// Looks the key up, filtering candidates by partial hash before the full
    /// key comparison. The filter is sound because a well-formed cell tags
    /// every entry with the partial hash of its key.
    pub fn search(
        &self,
        key: &K,
        partial_hash: u8,
        Ghost(hf): Ghost<spec_fn(K) -> u64>,
        Ghost(index): Ghost<int>,
        Ghost(num_cells): Ghost<int>,
    ) -> (r: Option<usize>)
        requires
            self.wf(hf, index, num_cells),
            partial_hash == low8(hf(*key)),
        ensures
            match r {
                Some(j) => j < self.entries@.len() && self.entries@[j as int].key == *key,
                None => !self.has_key(*key),
            },
    {
        let n = self.entries.len();
        let mut j: usize = 0;
        while j < n
            invariant
                n == self.entries@.len(),
                j <= n,
                self.wf(hf, index, num_cells),
                partial_hash == low8(hf(*key)),
                forall|i: int| 0 <= i < j ==> (#[trigger] self.entries@[i]).key != *key,
            decreases n - j,
        {
            let e = &self.entries[j];
            if e.partial_hash == partial_hash && e.key.key_eq(key) {
                return Some(j);
            }
            j += 1;
        }
        None
    }
}

/// The running entry count of a sequence of cells.
pub open spec fn seq_entry_count<K, V>(cells: Seq<Cell<K, V>>) -> int
    decreases cells.len(),
{
    if cells.len() == 0 {
        0
    } else {
        seq_entry_count(cells.drop_last()) + cells.last().entries@.len()
    }
}

/// The entry count is the sum of nonnegative cell sizes: it is nonnegative,
/// bounds each cell, and bounds every prefix.
pub proof fn lemma_entry_count_parts<K, V>(cells: Seq<Cell<K, V>>)
    ensures
        seq_entry_count(cells) >= 0,
        forall|i: int|
            0 <= i <= cells.len() ==> 0 <= #[trigger] seq_entry_count(cells.subrange(0, i))
                <= seq_entry_count(cells),
        forall|i: int|
            0 <= i < cells.len() ==> (#[trigger] cells[i]).entries@.len() <= seq_entry_count(cells),
    decreases cells.len(),
{
    if cells.len() == 0 {
        assert forall|i: int| 0 <= i <= cells.len() implies 0 <= #[trigger] seq_entry_count(
            cells.subrange(0, i),
        ) <= seq_entry_count(cells) by {
            assert(cells.subrange(0, 0) =~= cells);
        }
    } else {
        let pre = cells.drop_last();
        lemma_entry_count_parts(pre);
        assert forall|i: int| 0 <= i <= cells.len() implies 0 <= #[trigger] seq_entry_count(
            cells.subrange(0, i),
        ) <= seq_entry_count(cells) by {
            if i < cells.len() {
                assert(cells.subrange(0, i) =~= pre.subrange(0, i));
            } else {
                assert(cells.subrange(0, i) =~= cells);
            }
        }
        assert forall|i: int| 0 <= i < cells.len() implies (#[trigger] cells[i]).entries@.len()
            <= seq_entry_count(cells) by {
            if i < cells.len() - 1 {
                assert(pre[i] == cells[i]);
            }
        }
    }
}

/// Replacing one cell shifts the entry count by the size difference.
pub proof fn lemma_entry_count_update<K, V>(cells: Seq<Cell<K, V>>, i: int, c: Cell<K, V>)
    requires
        0 <= i < cells.len(),
    ensures
        seq_entry_count(cells.update(i, c)) == seq_entry_count(cells) + c.entries@.len()
            - cells[i].entries@.len(),
    decreases cells.len(),
{
    let t = cells.update(i, c);
    if i == cells.len() - 1 {
        assert(t.drop_last() =~= cells.drop_last());
    } else {
        lemma_entry_count_update(cells.drop_last(), i, c);
        assert(t.drop_last() =~= cells.drop_last().update(i, c));
        assert(t.last() == cells.last());
    }
}

/// Appending a cell adds its size to the entry count.
pub proof fn lemma_entry_count_push<K, V>(cells: Seq<Cell<K, V>>, c: Cell<K, V>)
    ensures
        seq_entry_count(cells.push(c)) == seq_entry_count(cells) + c.entries@.len(),
{
    assert(cells.push(c).drop_last() =~= cells);
}

/// A table of all-empty cells holds no entries.
pub proof fn lemma_entry_count_empty<K, V>(cells: Seq<Cell<K, V>>)
    requires
        forall|i: int| 0 <= i < cells.len() ==> (#[trigger] cells[i]).entries@.len() == 0,
    ensures
        seq_entry_count(cells) == 0,
    decreases cells.len(),
{
    if cells.len() > 0 {
        lemma_entry_count_empty(cells.drop_last());
    }
}

/// One generation of the bucket array: a fixed number of cells. The cell of a
/// key is its full hash modulo the cell count.
#[derive(Clone)]
pub struct Table<K, V> {
    pub cells: Vec<Cell<K, V>>,
}

impl<K, V> Table<K, V> {
    /// The number of cells.
    pub open spec fn num_cells(self) -> int {
        self.cells@.len() as int
    }

    /// The total slot capacity: every cell accounts for `CELL_SIZE` slots.
    pub open spec fn spec_capacity(self) -> int {
        self.num_cells() * CELL_SIZE
    }

    /// The cell index a full hash selects.
    pub open spec fn spec_cell_index(self, hash: u64) -> int {
        hash as int % self.num_cells()
    }

    /// The total number of entries stored across the cells.
    pub open spec fn entry_count(self) -> int {
        seq_entry_count(self.cells@)
    }

    /// Well-formedness: at least two cells, each cell well-formed at its index.
    pub open spec fn wf(self, hf: spec_fn(K) -> u64) -> bool {
        &&& self.num_cells() >= 2
        &&& forall|i: int|
            0 <= i < self.num_cells() ==> (#[trigger] self.cells@[i]).wf(hf, i, self.num_cells())
    }

    /// The cell index of a full hash.
    pub fn cell_index(&self, hash: u64) -> (r: usize)
        requires
            1 <= self.num_cells(),
        ensures
            r as int == self.spec_cell_index(hash),
            r < self.num_cells(),
    {
        (hash % (self.cells.len() as u64)) as usize
    }

    /// The number of cells, as reported to callers.
    pub fn cell_count(&self) -> (r: usize)
        ensures
            r == self.num_cells(),
    {
        self.cells.len()
    }

    /// The total slot capacity.
    pub fn capacity(&self) -> (r: usize)
        requires
            self.spec_capacity() <= usize::MAX,
        ensures
            r == self.spec_capacity(),
    {
        self.cells.len() * CELL_SIZE
    }

    /// How many cells the reservation path samples to estimate the load.
    pub fn num_sample_size(&self) -> (r: usize)
        ensures
            r == if self.num_cells() < 16 {
                self.num_cells()
            } else {
                16int
            },
            r <= self.num_cells(),
    {
        let n = self.cells.len();
        if n < 16 {
            n
        } else {
            16
        }
    }
}

impl<K: IndexKey, V> Table<K, V> {
    /// Sums the entries of the first `count` cells.
    pub fn sampled_prefix(&self, count: usize) -> (r: usize)
        requires
            count as int <= self.num_cells(),
            self.entry_count() <= usize::MAX,
        ensures
            r as int == seq_entry_count(self.cells@.subrange(0, count as int)),
    {
        proof {
            lemma_entry_count_parts(self.cells@);
        }
        let mut sum: usize = 0;
        let mut i: usize = 0;
        while i < count
            invariant
                i <= count,
                count as int <= self.num_cells(),
                self.entry_count() <= usize::MAX,
                sum as int == seq_entry_count(self.cells@.subrange(0, i as int)),
            decreases count - i,
        {
            proof {
                lemma_entry_count_parts(self.cells@);
                assert(self.cells@.subrange(0, i + 1).drop_last() =~= self.cells@.subrange(
                    0,
                    i as int,
                ));
                assert(self.cells@.subrange(0, i + 1).last() == self.cells@[i as int]);
                assert(seq_entry_count(self.cells@.subrange(0, i as int + 1))
                    <= self.entry_count());
            }
            let c = self.cells[i].num_entries();
            sum += c;
            i += 1;
        }
        sum
    }
}

/// Allocates a table of `capacity / CELL_SIZE` empty, live cells.
pub fn new_table<K, V>(capacity: usize) -> (r: Table<K, V>)
    requires
        capacity as int % CELL_SIZE as int == 0,
        2 * CELL_SIZE <= capacity,
    ensures
        r.num_cells() == capacity as int / CELL_SIZE as int,
        r.spec_capacity() == capacity,
        r.entry_count() == 0,
        forall|i: int|
            0 <= i < r.num_cells() ==> (#[trigger] r.cells@[i]).entries@.len() == 0
                && !r.cells@[i].killed,
{
    let num_cells = capacity / CELL_SIZE;
    let mut cells: Vec<Cell<K, V>> = Vec::new();
    let mut i: usize = 0;
    while i < num_cells
        invariant
            i <= num_cells,
            cells@.len() == i,
            seq_entry_count(cells@) == 0,
            forall|t: int|
                0 <= t < i ==> (#[trigger] cells@[t]).entries@.len() == 0 && !cells@[t].killed,
        decreases num_cells - i,
    {
        let c = Cell { entries: Vec::new(), killed: false };
        proof {
            lemma_entry_count_push(cells@, c);
        }
        cells.push(c);
        i += 1;
    }
    Table { cells }
}

} // verus!
