//! The hash index: a read-optimized associative container with dynamic
//! growth and shrink.
//!
//! The index owns the current table generation and, while a resize is being
//! migrated, the previous ("old") generation. Entries move from the old
//! generation to the current one lazily: every mutating operation migrates
//! the one old cell its key hashes to, plus a bounded amount of cursor-driven
//! migration, so a resize completes within roughly one pass of ordinary
//! operations and no operation ever rehashes the whole table at once.
//!
//! The mathematical model is the total lookup function [`HashIndex::lookup`]:
//! a key is found in the cell its hash selects in the current generation,
//! or failing that in the cell its hash selects in the old generation.
//! Well-formedness ([`HashIndex::wf`]) pins the invariants: every entry sits
//! in the cell its hash selects, tagged with the partial hash of its key;
//! keys are stored at most once per generation and never in both generations
//! at once; killed cells are empty; and the capacities are powers of two
//! between the configured minimum and `MAX_CAPACITY`.

use crate::hashing::bit_mix;
use crate::hashing::low8;
use crate::hashing::mix64;
use crate::hashing::DefaultHashBuilder;
use crate::hashing::IndexHasher;
use crate::hashing::IndexKey;
use crate::hashing::IndexValue;
use crate::policy::is_power_of_two;
use crate::policy::lemma_least_pow2_at_least;
use crate::policy::lemma_least_pow2_monotone;
use crate::policy::lemma_least_pow2_exact;
use crate::policy::lemma_pow2_divides;
use crate::policy::lemma_small_powers_of_two;
use crate::policy::least_pow2_at_least;
use crate::policy::next_pow2;
use crate::policy::next_capacity;
use crate::policy::spec_next_capacity;
use crate::policy::CELL_SIZE;
use crate::policy::DEFAULT_CAPACITY;
use crate::policy::GROWTH_LIMIT;
use crate::policy::MAX_CAPACITY;
use crate::table::new_table;
use crate::table::seq_distinct_keys;
use crate::table::seq_entry_count;
use crate::table::seq_has_key;
use crate::table::seq_value_of;
use crate::table::lemma_entry_count_empty;
use crate::table::lemma_entry_count_parts;
use crate::table::lemma_entry_count_push;
use crate::table::lemma_entry_count_update;
use crate::table::lemma_push_entry;
use crate::table::lemma_remove_entry;
use crate::table::Cell;
use crate::table::Entry;
use crate::table::Table;
use vstd::prelude::*;

verus! {

/// How many old cells one cursor-driven migration step retires at most.
pub const REHASH_CHUNK: usize = 4;

/// How many cells a resize samples: an eighth of the cells, at least two and
/// at most 4096, never more than there are.
pub open spec fn spec_sample_count(num_cells: int) -> int {
    let c = if num_cells / 8 < 2 {
        2int
    } else {
        num_cells / 8
    };
    let c2 = if c > 4096 {
        4096int
    } else {
        c
    };
    if c2 > num_cells {
        num_cells
    } else {
        c2
    }
}

/// The sampled load estimate of one generation: the entries of the sampled
/// prefix of its cells, scaled by the sampled fraction, saturating at
/// `usize::MAX`.
pub open spec fn spec_load_estimate<K, V>(t: Table<K, V>) -> int {
    let n = t.num_cells();
    let sc = spec_sample_count(n);
    let sum = seq_entry_count(t.cells@.subrange(0, sc));
    let ratio = n / sc;
    if sum * ratio > usize::MAX as int {
        usize::MAX as int
    } else {
        sum * ratio
    }
}

/// The load estimate is never negative.
pub proof fn lemma_load_estimate_nonneg<K, V>(t: Table<K, V>)
    requires
        t.num_cells() >= 2,
    ensures
        spec_load_estimate(t) >= 0,
{
    let n = t.num_cells();
    let sc = spec_sample_count(n);
    lemma_entry_count_parts(t.cells@);
    assert(2 <= sc <= n);
    let sum = seq_entry_count(t.cells@.subrange(0, sc));
    let ratio = n / sc;
    assert(sum >= 0);
    vstd::arithmetic::div_mod::lemma_div_pos_is_pos(n, sc);
    assert(ratio >= 0);
    assert(sum * ratio >= 0) by (nonlinear_arith)
        requires
            sum >= 0,
            ratio >= 0,
    {
    }
}

/// The entries counted by the reservation path's bounded sample: the first
/// `num_sample_size` cells of the generation.
pub open spec fn spec_reserve_sample<K, V>(t: Table<K, V>) -> int {
    let s = if t.num_cells() < 16 {
        t.num_cells()
    } else {
        16int
    };
    seq_entry_count(t.cells@.subrange(0, s))
}

/// The sampled-entry threshold over which the reservation path triggers a
/// resize: 7/8 of the sampled cells' capacity.
pub open spec fn spec_reserve_threshold<K, V>(t: Table<K, V>) -> int {
    let s = if t.num_cells() < 16 {
        t.num_cells()
    } else {
        16int
    };
    s * (CELL_SIZE as int / 8) * 7
}

/// The estimate `len` computes for one generation when asked to sample
/// `requested` cells: the requested count is clamped to at least one and at
/// most every cell of the generation, the entries of that prefix are summed,
/// and the sum is scaled by the sampled fraction, saturating at `usize::MAX`.
/// Sampling every cell of the generation counts it exactly.
pub open spec fn spec_len_estimate<K, V>(t: Table<K, V>, requested: int) -> int {
    let n = t.num_cells();
    let sc1 = if requested < 1 {
        1int
    } else {
        requested
    };
    let sc = if sc1 > n {
        n
    } else {
        sc1
    };
    let sum = seq_entry_count(t.cells@.subrange(0, sc));
    let ratio = n / sc;
    if sum * ratio > usize::MAX as int {
        usize::MAX as int
    } else {
        sum * ratio
    }
}

/// A read-optimized hash index with lazy, incremental resizing.
#[derive(Clone)]
pub struct HashIndex<K, V, H> {
    /// The current table generation.
    pub array: Table<K, V>,
    /// The previous generation, while its migration is incomplete.
    pub old_array: Option<Table<K, V>>,
    /// Old cells below this index are already killed.
    pub rehash_cursor: usize,
    /// The capacity floor: the table never shrinks below it.
    pub minimum_capacity: usize,
    /// The non-blocking resize mutex: held only while a resize is decided.
    pub resize_mutex: bool,
    /// The configured hash builder.
    pub build_hasher: H,
}

impl<K: IndexKey, V: IndexValue, H: IndexHasher<K>> HashIndex<K, V, H> {
    /// The full-hash function the index applies to keys: the builder-derived
    /// hash followed by the avalanche mix.
    pub open spec fn hf(self) -> spec_fn(K) -> u64 {
        |k: K| mix64(self.build_hasher.spec_hash(&k))
    }

    /// Whether the current generation stores `k` (in the cell its hash selects).
    pub open spec fn in_current(self, k: K) -> bool {
        seq_has_key(self.array.cells@[self.array.spec_cell_index(self.hf()(k))].entries@, k)
    }

    /// Whether the old generation stores `k` (in the cell its hash selects).
    pub open spec fn in_old(self, k: K) -> bool {
        match self.old_array {
            Some(o) => seq_has_key(o.cells@[o.spec_cell_index(self.hf()(k))].entries@, k),
            None => false,
        }
    }

    /// Whether the index stores `k`.
    pub open spec fn contains(self, k: K) -> bool {
        self.in_current(k) || self.in_old(k)
    }

    /// The value stored for `k`; the current generation is preferred.
    pub open spec fn lookup_value(self, k: K) -> V {
        if self.in_current(k) {
            seq_value_of(
                self.array.cells@[self.array.spec_cell_index(self.hf()(k))].entries@,
                k,
            )
        } else {
            match self.old_array {
                Some(o) => seq_value_of(o.cells@[o.spec_cell_index(self.hf()(k))].entries@, k),
                None => seq_value_of(Seq::empty(), k),
            }
        }
    }

    /// The total lookup function: the mathematical content of the index.
    pub open spec fn lookup(self, k: K) -> Option<V> {
        if self.contains(k) {
            Some(self.lookup_value(k))
        } else {
            None
        }
    }

    /// The total number of stored entries, over both generations.
    pub open spec fn entry_count(self) -> int {
        self.array.entry_count() + match self.old_array {
            Some(o) => o.entry_count(),
            None => 0int,
        }
    }

    /// Well-formedness of the whole index.
    pub open spec fn wf(self) -> bool {
        &&& self.array.wf(self.hf())
        &&& forall|i: int|
            0 <= i < self.array.num_cells() ==> !(#[trigger] self.array.cells@[i]).killed
        &&& is_power_of_two(self.array.spec_capacity())
        &&& self.minimum_capacity as int <= self.array.spec_capacity() <= MAX_CAPACITY as int
        &&& is_power_of_two(self.minimum_capacity as int)
        &&& DEFAULT_CAPACITY <= self.minimum_capacity
        &&& self.entry_count() <= usize::MAX
        &&& !self.resize_mutex
        &&& match self.old_array {
            Some(o) => {
                &&& o.wf(self.hf())
                &&& self.rehash_cursor as int <= o.num_cells()
                &&& forall|i: int|
                    0 <= i < self.rehash_cursor as int ==> (#[trigger] o.cells@[i]).killed
                &&& forall|q: K| !((#[trigger] self.in_current(q)) && self.in_old(q))
            },
            None => self.rehash_cursor == 0,
        }
    }

    /// What every internal reorganization (migration, resize) preserves:
    /// the configuration, every key's lookup result, and the entry count.
    pub open spec fn preserves_contents(self, prior: Self) -> bool {
        &&& self.build_hasher == prior.build_hasher
        &&& self.minimum_capacity == prior.minimum_capacity
        &&& self.entry_count() == prior.entry_count()
        &&& forall|q: K| #[trigger] self.lookup(q) == prior.lookup(q)
    }

    /// Computes the full hash and the partial hash of a key.
    fn hash(&self, key: &K) -> (r: (u64, u8))
        ensures
            r.0 == self.hf()(*key),
            r.1 == low8(r.0),
    {
        let raw = self.build_hasher.hash_key(key);
        let r = bit_mix(raw);
        proof {
            assert(self.hf()(*key) == mix64(self.build_hasher.spec_hash(key)));
        }
        r
    }

    /// Creates an empty index. The actual capacity is the least power of two
    /// holding the request, floored at `DEFAULT_CAPACITY`; it also becomes the
    /// floor under every later shrink.
    pub fn new(capacity: usize, build_hasher: H) -> (r: HashIndex<K, V, H>)
        requires
            capacity <= MAX_CAPACITY / 2,
        ensures
            r.wf(),
            r.build_hasher == build_hasher,
            forall|q: K| #[trigger] r.lookup(q) == Option::<V>::None,
            r.entry_count() == 0,
            capacity <= r.array.spec_capacity(),
            r.array.spec_capacity() == least_pow2_at_least(
                if capacity >= DEFAULT_CAPACITY {
                    capacity as int
                } else {
                    DEFAULT_CAPACITY as int
                },
            ),
            r.minimum_capacity as int == r.array.spec_capacity(),
    {
        let requested = if capacity >= DEFAULT_CAPACITY {
            capacity
        } else {
            DEFAULT_CAPACITY
        };
        proof {
            lemma_small_powers_of_two();
            lemma_least_pow2_at_least(requested as int);
            lemma_least_pow2_monotone(DEFAULT_CAPACITY as int, requested as int);
            lemma_least_pow2_exact(DEFAULT_CAPACITY as int);
            if requested > DEFAULT_CAPACITY {
                lemma_pow2_divides(32, least_pow2_at_least(requested as int));
            } else {
                assert(least_pow2_at_least(requested as int) == 64);
            }
            if capacity > DEFAULT_CAPACITY {
                lemma_least_pow2_monotone(requested as int, (MAX_CAPACITY / 2) as int);
                lemma_least_pow2_exact((MAX_CAPACITY / 2) as int);
            }
        }
        let initial_capacity = next_pow2(requested);
        proof {
            let c = initial_capacity as int;
            if c > 32 {
                lemma_pow2_divides(32, c);
                let k = choose|k: int|
                    {
                        &&& c == 32 * k
                        &&& k >= 2
                        &&& is_power_of_two(k)
                    };
                assert(c % 32 == 0) by (nonlinear_arith)
                    requires
                        c == 32 * k,
                {
                }
            }
        }
        let array = new_table(initial_capacity);
        let r = HashIndex {
            array,
            old_array: None,
            rehash_cursor: 0,
            minimum_capacity: initial_capacity,
            resize_mutex: false,
            build_hasher,
        };
        proof {
            assert(r.array.spec_capacity() == initial_capacity as int);
            assert forall|q: K| #[trigger] r.lookup(q) == Option::<V>::None by {
                assert(!r.in_current(q) && !r.in_old(q));
            }
        }
        r
    }

    /// The state the index would have with `o` attached as its old generation.
    pub open spec fn with_old(self, o: Table<K, V>) -> Self {
        HashIndex { old_array: Some(o), ..self }
    }

    /// Preservation of contents is transitive.
    pub proof fn lemma_preserves_trans(a: Self, b: Self, c: Self)
        requires
            a.preserves_contents(b),
            b.preserves_contents(c),
        ensures
            a.preserves_contents(c),
    {
        assert forall|q: K| #[trigger] a.lookup(q) == c.lookup(q) by {
            assert(a.lookup(q) == b.lookup(q));
            assert(b.lookup(q) == c.lookup(q));
        }
    }

    /// One migration step: moving the last entry of old cell `oi` to the cell
    /// `ci` its hash selects in the current generation preserves
    /// well-formedness, every lookup, and the entry count.
    #[verifier::spinoff_prover]
    #[verifier::rlimit(60)]
    proof fn lemma_migrate_step(pre: Self, post: Self, e: Entry<K, V>, oi: int, ci: int)
        requires
            pre.wf(),
            post.build_hasher == pre.build_hasher,
            post.minimum_capacity == pre.minimum_capacity,
            post.rehash_cursor == pre.rehash_cursor,
            post.resize_mutex == pre.resize_mutex,
            match (pre.old_array, post.old_array) {
                (Some(o1), Some(o2)) => {
                    &&& 0 <= oi < o1.num_cells()
                    &&& o2.num_cells() == o1.num_cells()
                    &&& o1.cells@[oi].entries@.len() > 0
                    &&& e == o1.cells@[oi].entries@.last()
                    &&& o2.cells@ == o1.cells@.update(oi, o2.cells@[oi])
                    &&& o2.cells@[oi].entries@ == o1.cells@[oi].entries@.drop_last()
                    &&& o2.cells@[oi].killed == o1.cells@[oi].killed
                },
                _ => false,
            },
            post.array.num_cells() == pre.array.num_cells(),
            0 <= ci < pre.array.num_cells(),
            ci == pre.array.spec_cell_index(pre.hf()(e.key)),
            post.array.cells@ == pre.array.cells@.update(ci, post.array.cells@[ci]),
            post.array.cells@[ci].entries@ == pre.array.cells@[ci].entries@.push(e),
            post.array.cells@[ci].killed == pre.array.cells@[ci].killed,
        ensures
            post.wf(),
            post.preserves_contents(pre),
    {
        let hf = pre.hf();
        assert(post.hf() == hf);
        let o1 = pre.old_array.unwrap();
        let o2 = post.old_array.unwrap();
        let n_old = o1.num_cells();
        let n_cur = pre.array.num_cells();
        let s_old = o1.cells@[oi].entries@;
        let s_cur = pre.array.cells@[ci].entries@;
        // The moved entry belongs to old cell oi, so it is absent from the
        // current generation.
        assert(o1.cells@[oi].wf(hf, oi, n_old));
        assert(hf(e.key) as int % n_old == oi);
        assert(pre.in_old(e.key));
        assert(!pre.in_current(e.key));
        assert(pre.array.cells@[ci].wf(hf, ci, n_cur));
        assert(!seq_has_key(s_cur, e.key));
        lemma_push_entry(s_cur, e);
        assert(s_old.drop_last() =~= s_old.remove(s_old.len() - 1));
        lemma_remove_entry(s_old, s_old.len() - 1);
        assert forall|j: int|
            0 <= j < s_old.len() && (#[trigger] s_old[j]).key == e.key implies j == s_old.len()
            - 1 by {
            if j < s_old.len() - 1 {
                assert(s_old[j].key != s_old[s_old.len() - 1].key);
            }
        }
        assert(seq_value_of(s_old, e.key) == e.value);
        // Entry counts shift by one in each generation, cancelling out.
        lemma_entry_count_update(pre.array.cells@, ci, post.array.cells@[ci]);
        lemma_entry_count_update(o1.cells@, oi, o2.cells@[oi]);
        assert(post.entry_count() == pre.entry_count());
        // Well-formedness of the two touched cells, then of the whole index.
        assert(post.array.cells@[ci].wf(hf, ci, n_cur)) by {
            assert(e.partial_hash == low8(hf(e.key)));
            assert(forall|j: int|
                0 <= j < s_cur.len() ==> post.array.cells@[ci].entries@[j] == s_cur[j]);
            assert(post.array.cells@[ci].entries@[s_cur.len() as int] == e);
        }
        assert(o2.cells@[oi].wf(hf, oi, n_old)) by {
            assert(forall|j: int|
                0 <= j < s_old.len() - 1 ==> o2.cells@[oi].entries@[j] == s_old[j]);
            assert(!o1.cells@[oi].killed);
        }
        assert(post.array.wf(hf));
        assert(o2.wf(hf));
        assert forall|q: K| !((#[trigger] post.in_current(q)) && post.in_old(q)) by {
            if q == e.key {
                assert(!post.in_old(q));
            } else if post.in_current(q) && post.in_old(q) {
                assert(pre.in_current(q));
                assert(pre.in_old(q));
            }
        }
        assert(post.wf());
        assert forall|q: K| #[trigger] post.lookup(q) == pre.lookup(q) by {
            if q == e.key {
                assert(post.in_current(q));
                assert(post.lookup_value(q) == e.value);
                assert(pre.lookup_value(q) == e.value);
            } else {
                assert(post.in_current(q) == pre.in_current(q));
                assert(post.in_old(q) == pre.in_old(q));
                if pre.in_current(q) {
                    assert(post.lookup_value(q) == pre.lookup_value(q));
                } else if pre.in_old(q) {
                    assert(post.lookup_value(q) == pre.lookup_value(q));
                }
            }
        }
    }

    /// Moves the last entry of the detached old cell `oi` into the cell its
    /// hash selects in the current generation.
    #[verifier::rlimit(60)]
    #[verifier::spinoff_prover]
    fn migrate_one(&mut self, o: &mut Table<K, V>, oi: usize)
        requires
            old(self).old_array is None,
            old(self).with_old(*old(o)).wf(),
            oi < old(o).num_cells(),
            old(o).cells@[oi as int].entries@.len() > 0,
        ensures
            final(self).old_array is None,
            final(self).with_old(*final(o)).wf(),
            final(self).with_old(*final(o)).preserves_contents(old(self).with_old(*old(o))),
            final(self).rehash_cursor == old(self).rehash_cursor,
            final(self).build_hasher == old(self).build_hasher,
            final(self).minimum_capacity == old(self).minimum_capacity,
            final(self).resize_mutex == old(self).resize_mutex,
            final(self).array.num_cells() == old(self).array.num_cells(),
            final(o).num_cells() == old(o).num_cells(),
            forall|i: int|
                0 <= i < old(o).num_cells() && i != oi ==> final(o).cells@[i] == old(o).cells@[i],
            final(o).cells@[oi as int].killed == old(o).cells@[oi as int].killed,
            final(o).cells@[oi as int].entries@.len() == old(o).cells@[oi as int].entries@.len()
                - 1,
    {
        let ghost mid_a = self.with_old(*o);
        let ghost o_cells_before = o.cells@;
        let e = o.cells[oi].entries.pop().unwrap();
        let (h, _p) = self.hash(&e.key);
        let ci = self.array.cell_index(h);
        let ghost cur_cells = self.array.cells@;
        self.array.cells[ci].entries.push(e);
        proof {
            let mid_b = self.with_old(*o);
            assert(o.cells@ =~= o_cells_before.update(oi as int, o.cells@[oi as int]));
            assert(self.array.cells@ =~= cur_cells.update(ci as int, self.array.cells@[ci as int]));
            assert(ci as int == mid_a.array.spec_cell_index(mid_a.hf()(e.key)));
            Self::lemma_migrate_step(mid_a, mid_b, e, oi as int, ci as int);
        }
    }

    /// Migrates the old cell at `oi` and marks it killed: each entry moves to
    /// the cell its hash selects in the current generation. Every lookup and
    /// the entry count are preserved; afterwards the old cell is empty.
    #[verifier::rlimit(60)]
    #[verifier::spinoff_prover]
    fn kill_cell(&mut self, oi: usize)
        requires
            old(self).wf(),
            match old(self).old_array {
                Some(o) => oi < o.num_cells(),
                None => false,
            },
        ensures
            final(self).wf(),
            final(self).preserves_contents(*old(self)),
            final(self).rehash_cursor == old(self).rehash_cursor,
            final(self).array.num_cells() == old(self).array.num_cells(),
            final(self).array.spec_capacity() == old(self).array.spec_capacity(),
            match (final(self).old_array, old(self).old_array) {
                (Some(o2), Some(o1)) => {
                    &&& o2.num_cells() == o1.num_cells()
                    &&& o2.cells@[oi as int].killed
                    &&& o2.cells@[oi as int].entries@.len() == 0
                    &&& forall|i: int|
                        0 <= i < o1.num_cells() && i != oi ==> o2.cells@[i] == o1.cells@[i]
                },
                _ => false,
            },
    {
        let ghost pre = *old(self);
        let mut o = self.old_array.take().unwrap();
        let ghost o0 = o;
        proof {
            assert(self.with_old(o) == pre);
        }
        while o.cells[oi].entries.len() > 0
            invariant
                self.old_array is None,
                oi < o.num_cells(),
                o.num_cells() == o0.num_cells(),
                self.with_old(o).wf(),
                self.with_old(o).preserves_contents(pre),
                self.rehash_cursor == pre.rehash_cursor,
                self.build_hasher == pre.build_hasher,
                self.minimum_capacity == pre.minimum_capacity,
                self.array.num_cells() == pre.array.num_cells(),
                forall|i: int| 0 <= i < o0.num_cells() && i != oi ==> o.cells@[i] == o0.cells@[i],
                o.cells@[oi as int].killed == o0.cells@[oi as int].killed,
            decreases o.cells@[oi as int].entries@.len(),
        {
            let ghost mid_a = self.with_old(o);
            self.migrate_one(&mut o, oi);
            proof {
                Self::lemma_preserves_trans(self.with_old(o), mid_a, pre);
            }
        }
        let ghost o_before = o;
        o.cells[oi].killed = true;
        proof {
            assert(o.cells@ =~= o_before.cells@.update(oi as int, o.cells@[oi as int]));
            Self::lemma_mark_killed(self.with_old(o_before), self.with_old(o), oi as int);
            Self::lemma_preserves_trans(self.with_old(o), self.with_old(o_before), pre);
        }
        self.old_array = Some(o);
        proof {
            assert(*self == self.with_old(o));
        }
    }

    /// Marking an empty old cell killed preserves well-formedness, every
    /// lookup, and the entry count.
    #[verifier::spinoff_prover]
    proof fn lemma_mark_killed(pre: Self, post: Self, oi: int)
        requires
            pre.wf(),
            post.build_hasher == pre.build_hasher,
            post.minimum_capacity == pre.minimum_capacity,
            post.rehash_cursor == pre.rehash_cursor,
            post.resize_mutex == pre.resize_mutex,
            post.array == pre.array,
            match (pre.old_array, post.old_array) {
                (Some(o1), Some(o2)) => {
                    &&& 0 <= oi < o1.num_cells()
                    &&& o2.cells@ == o1.cells@.update(oi, o2.cells@[oi])
                    &&& o2.cells@[oi].entries@ == o1.cells@[oi].entries@
                    &&& o1.cells@[oi].entries@.len() == 0
                    &&& o2.cells@[oi].killed
                },
                _ => false,
            },
        ensures
            post.wf(),
            post.preserves_contents(pre),
    {
        let hf = pre.hf();
        assert(post.hf() == hf);
        let o1 = pre.old_array.unwrap();
        let o2 = post.old_array.unwrap();
        lemma_entry_count_update(o1.cells@, oi, o2.cells@[oi]);
        assert(post.entry_count() == pre.entry_count());
        assert(o2.cells@[oi].wf(hf, oi, o2.num_cells()));
        assert(o2.wf(hf));
        assert forall|q: K| #[trigger] post.lookup(q) == pre.lookup(q) by {
            assert(post.in_current(q) == pre.in_current(q));
            assert(post.in_old(q) == pre.in_old(q));
        }
        assert forall|q: K| !((#[trigger] post.in_current(q)) && post.in_old(q)) by {
            if post.in_current(q) && post.in_old(q) {
                assert(pre.in_current(q) && pre.in_old(q));
            }
        }
        assert(post.wf());
    }

    /// Detaching a fully-killed old generation preserves well-formedness,
    /// every lookup, and the entry count.
    #[verifier::spinoff_prover]
    proof fn lemma_detach_old(pre: Self, post: Self)
        requires
            pre.wf(),
            match pre.old_array {
                Some(o) => pre.rehash_cursor as int == o.num_cells(),
                None => false,
            },
            post.array == pre.array,
            post.old_array is None,
            post.rehash_cursor == 0,
            post.build_hasher == pre.build_hasher,
            post.minimum_capacity == pre.minimum_capacity,
            post.resize_mutex == pre.resize_mutex,
        ensures
            post.wf(),
            post.preserves_contents(pre),
    {
        let o = pre.old_array.unwrap();
        assert(forall|i: int| 0 <= i < o.num_cells() ==> (#[trigger] o.cells@[i]).killed);
        assert forall|i: int| 0 <= i < o.cells@.len() implies (#[trigger] o.cells@[i]).entries@.len()
            == 0 by {
            assert(o.cells@[i].wf(pre.hf(), i, o.num_cells()));
        }
        lemma_entry_count_empty(o.cells@);
        assert(post.entry_count() == pre.entry_count());
        assert forall|q: K| #[trigger] post.lookup(q) == pre.lookup(q) by {
            assert(post.in_current(q) == pre.in_current(q));
            assert(!post.in_old(q));
            if pre.in_old(q) {
                let oc = o.cells@[o.spec_cell_index(pre.hf()(q))];
                assert(oc.entries@.len() == 0);
                assert(!seq_has_key(oc.entries@, q));
            }
        }
        assert(post.wf());
    }

    /// Advances migration: retires up to `REHASH_CHUNK` old cells from the
    /// cursor onward, and detaches the old generation once every one of its
    /// cells is killed. Returns whether the old generation is gone.
    /// Advancing the cursor past a killed old cell preserves everything.
    #[verifier::spinoff_prover]
    proof fn lemma_advance_cursor(pre: Self, post: Self)
        requires
            pre.wf(),
            post.array == pre.array,
            post.old_array == pre.old_array,
            post.build_hasher == pre.build_hasher,
            post.minimum_capacity == pre.minimum_capacity,
            post.resize_mutex == pre.resize_mutex,
            match pre.old_array {
                Some(o) => {
                    &&& (pre.rehash_cursor as int) < o.num_cells()
                    &&& o.cells@[pre.rehash_cursor as int].killed
                    &&& post.rehash_cursor == pre.rehash_cursor + 1
                },
                None => false,
            },
        ensures
            post.wf(),
            post.preserves_contents(pre),
    {
        assert forall|q: K| #[trigger] post.lookup(q) == pre.lookup(q) by {
            assert(post.in_current(q) == pre.in_current(q));
            assert(post.in_old(q) == pre.in_old(q));
        }
        assert forall|q: K| !((#[trigger] post.in_current(q)) && post.in_old(q)) by {
            if post.in_current(q) && post.in_old(q) {
                assert(pre.in_current(q) && pre.in_old(q));
            }
        }
        assert(post.wf());
    }

    #[verifier::rlimit(100)]
    #[verifier::spinoff_prover]
    fn partial_rehash(&mut self) -> (done: bool)
        requires
            old(self).wf(),
            old(self).old_array is Some,
        ensures
            final(self).wf(),
            final(self).preserves_contents(*old(self)),
            final(self).array.num_cells() == old(self).array.num_cells(),
            done <==> final(self).old_array is None,
            !done ==> match (final(self).old_array, old(self).old_array) {
                (Some(o2), Some(o1)) => {
                    &&& o2.num_cells() == o1.num_cells()
                    &&& final(self).rehash_cursor > old(self).rehash_cursor
                },
                _ => false,
            },
    {
        let n = match &self.old_array {
            Some(o) => o.cell_count(),
            None => 0,
        };
        let mut steps: usize = 0;
        while self.rehash_cursor < n && steps < REHASH_CHUNK
            invariant
                self.wf(),
                self.old_array is Some,
                match self.old_array {
                    Some(o) => o.num_cells() == n as int,
                    None => false,
                },
                self.preserves_contents(*old(self)),
                self.array.num_cells() == old(self).array.num_cells(),
                steps <= REHASH_CHUNK,
                self.rehash_cursor >= old(self).rehash_cursor,
                steps > 0 ==> self.rehash_cursor > old(self).rehash_cursor,
            decreases REHASH_CHUNK - steps,
        {
            let c = self.rehash_cursor;
            let ghost prev = *self;
            self.kill_cell(c);
            proof {
                Self::lemma_preserves_trans(*self, prev, *old(self));
            }
            let ghost prev2 = *self;
            self.rehash_cursor = c + 1;
            steps += 1;
            proof {
                Self::lemma_advance_cursor(prev2, *self);
                Self::lemma_preserves_trans(*self, prev2, *old(self));
            }
        }
        if self.rehash_cursor == n {
            let ghost pre_detach = *self;
            self.old_array = None;
            self.rehash_cursor = 0;
            proof {
                Self::lemma_detach_old(pre_detach, *self);
                Self::lemma_preserves_trans(*self, pre_detach, *old(self));
            }
            true
        } else {
            false
        }
    }

    /// The cell-locking protocol: migrates a bounded amount of old-generation
    /// content (a cursor-driven chunk, then the one old cell this hash
    /// selects), and returns the index of the hash's cell in the current
    /// generation. When it returns, the old generation holds nothing for this
    /// hash, so the returned cell is the only place a key with this hash can
    /// live.
    #[verifier::rlimit(60)]
    #[verifier::spinoff_prover]
    fn lock(&mut self, hash: u64) -> (ci: usize)
        requires
            old(self).wf(),
        ensures
            final(self).wf(),
            final(self).preserves_contents(*old(self)),
            final(self).array.num_cells() == old(self).array.num_cells(),
            ci as int == final(self).array.spec_cell_index(hash),
            ci < final(self).array.num_cells(),
            match final(self).old_array {
                Some(o) => o.cells@[o.spec_cell_index(hash)].entries@.len() == 0,
                None => true,
            },
    {
        if self.old_array.is_some() {
            let ghost snap0 = *self;
            let done = self.partial_rehash();
            if !done {
                let mut oi: usize = 0;
                match &self.old_array {
                    Some(o) => {
                        oi = o.cell_index(hash);
                    },
                    None => {},
                }
                let ghost snap1 = *self;
                self.kill_cell(oi);
                proof {
                    Self::lemma_preserves_trans(*self, snap1, snap0);
                }
            }
        }
        self.array.cell_index(hash)
    }

    /// Sums the entries of the first `count` cells of the current generation.
    fn sample_entries(&self, count: usize) -> (r: usize)
        requires
            count as int <= self.array.num_cells(),
            self.array.entry_count() <= usize::MAX,
        ensures
            r as int == seq_entry_count(self.array.cells@.subrange(0, count as int)),
    {
        proof {
            lemma_entry_count_parts(self.array.cells@);
        }
        let mut sum: usize = 0;
        let mut i: usize = 0;
        while i < count
            invariant
                i <= count,
                count as int <= self.array.num_cells(),
                self.array.entry_count() <= usize::MAX,
                sum as int == seq_entry_count(self.array.cells@.subrange(0, i as int)),
            decreases count - i,
        {
            proof {
                lemma_entry_count_parts(self.array.cells@);
                assert(self.array.cells@.subrange(0, i + 1).drop_last() =~= self.array.cells@.subrange(
                    0,
                    i as int,
                ));
                assert(self.array.cells@.subrange(0, i + 1).last() == self.array.cells@[i as int]);
            }
            proof {
                assert(seq_entry_count(self.array.cells@.subrange(0, i as int + 1))
                    <= self.array.entry_count());
            }
            let c = self.array.cells[i].num_entries();
            sum += c;
            i += 1;
        }
        sum
    }

    /// Installing a fresh, empty current generation with the previous current
    /// generation attached as old preserves every lookup and the entry count.
    #[verifier::spinoff_prover]
    proof fn lemma_install_new(pre: Self, post: Self)
        requires
            pre.wf(),
            pre.old_array is None,
            post.old_array == Some(pre.array),
            post.rehash_cursor == 0,
            post.build_hasher == pre.build_hasher,
            post.minimum_capacity == pre.minimum_capacity,
            !post.resize_mutex,
            post.array.num_cells() >= 2,
            forall|i: int|
                0 <= i < post.array.num_cells() ==> (#[trigger] post.array.cells@[i]).entries@.len()
                    == 0 && !post.array.cells@[i].killed,
            is_power_of_two(post.array.spec_capacity()),
            post.minimum_capacity as int <= post.array.spec_capacity() <= MAX_CAPACITY as int,
        ensures
            post.wf(),
            post.preserves_contents(pre),
    {
        lemma_entry_count_empty(post.array.cells@);
        assert(post.entry_count() == pre.entry_count());
        assert forall|q: K| !(#[trigger] post.in_current(q)) by {
            let c = post.array.cells@[post.array.spec_cell_index(post.hf()(q))];
            assert(c.entries@.len() == 0);
            assert(!seq_has_key(c.entries@, q));
        }
        assert forall|q: K| #[trigger] post.lookup(q) == pre.lookup(q) by {
            assert(post.in_old(q) == pre.in_current(q));
            assert(!pre.in_old(q));
            if pre.in_current(q) {
                assert(post.lookup_value(q) == pre.lookup_value(q));
            }
        }
        assert(post.array.wf(post.hf()));
        assert(post.wf());
    }

    /// Decides and performs a resize, guarded by the resize mutex: samples a
    /// bounded number of cells to estimate the load, computes the next
    /// capacity, and if it differs installs a fresh table with the replaced
    /// generation attached as old. A resize never starts while a previous
    /// migration is incomplete, and a single resize never grows the capacity
    /// by more than a factor of `GROWTH_LIMIT`.
    #[verifier::rlimit(60)]
    #[verifier::spinoff_prover]
    fn resize(&mut self)
        requires
            old(self).wf(),
        ensures
            final(self).wf(),
            final(self).preserves_contents(*old(self)),
            old(self).old_array is Some ==> *final(self) == *old(self),
            final(self).array.spec_capacity() <= old(self).array.spec_capacity() * GROWTH_LIMIT
                as int,
            old(self).old_array is None ==> final(self).array.spec_capacity()
                == spec_next_capacity(
                old(self).array.spec_capacity(),
                spec_load_estimate(old(self).array),
                old(self).minimum_capacity as int,
            ),
    {
        let ghost pre = *old(self);
        if self.old_array.is_some() {
            proof {
                lemma_load_estimate_nonneg(pre.array);
                crate::policy::lemma_next_capacity_bounds(
                    pre.array.spec_capacity(),
                    spec_load_estimate(pre.array),
                    pre.minimum_capacity as int,
                );
            }
            return ;
        }
        // The resize mutex: acquired here, released on every path out. In
        // this exclusive setting acquisition always succeeds; a concurrent
        // caller that lost the race would simply return.
        self.resize_mutex = true;
        let capacity = self.array.capacity();
        let num_cells = self.array.cell_count();
        let mut sample_count = num_cells / 8;
        if sample_count < 2 {
            sample_count = 2;
        }
        if sample_count > 4096 {
            sample_count = 4096;
        }
        if sample_count > num_cells {
            sample_count = num_cells;
        }
        proof {
            lemma_entry_count_parts(self.array.cells@);
            assert(self.array.entry_count() <= pre.entry_count());
        }
        let sum = self.sample_entries(sample_count);
        let ratio = num_cells / sample_count;
        proof {
            assert((sum as u128) * (ratio as u128) < 0xffff_ffff_ffff_ffff_ffff_ffff_ffff_ffffu128)
                by (nonlinear_arith)
                requires
                    0 <= sum as u128 <= 0xffff_ffff_ffff_ffffu128,
                    0 <= ratio as u128 <= 0xffff_ffff_ffff_ffffu128,
            {
            }
        }
        let wide: u128 = (sum as u128) * (ratio as u128);
        let estimated = if wide > usize::MAX as u128 {
            usize::MAX
        } else {
            wide as usize
        };
        proof {
            assert(sample_count as int == spec_sample_count(pre.array.num_cells()));
            assert(estimated as int == spec_load_estimate(pre.array));
        }
        let new_capacity = next_capacity(capacity, estimated, self.minimum_capacity);
        if new_capacity != capacity {
            proof {
                lemma_small_powers_of_two();
                lemma_pow2_divides(32, new_capacity as int);
                let k = choose|k: int|
                    {
                        &&& new_capacity as int == 32 * k
                        &&& k >= 2
                        &&& is_power_of_two(k)
                    };
                assert(new_capacity as int % 32 == 0 && new_capacity as int / 32 >= 2)
                    by (nonlinear_arith)
                    requires
                        new_capacity as int == 32 * k,
                        k >= 2,
                {
                }
            }
            let mut fresh = new_table(new_capacity);
            core::mem::swap(&mut self.array, &mut fresh);
            self.old_array = Some(fresh);
            self.rehash_cursor = 0;
            self.resize_mutex = false;
            proof {
                Self::lemma_install_new(pre, *self);
            }
        } else {
            self.resize_mutex = false;
            proof {
                assert(*self == pre);
            }
        }
    }

    /// Reserves the cell for `hash` in the current generation: locks it, and
    /// if it has reached the per-cell ceiling, samples the load, triggers a
    /// resize past a load factor of 7/8 (only when no migration is already in
    /// flight), and locks again, since the table may have been replaced.
    #[verifier::rlimit(60)]
    #[verifier::spinoff_prover]
    fn reserve(&mut self, hash: u64) -> (ci: usize)
        requires
            old(self).wf(),
        ensures
            final(self).wf(),
            final(self).preserves_contents(*old(self)),
            ci as int == final(self).array.spec_cell_index(hash),
            ci < final(self).array.num_cells(),
            match final(self).old_array {
                Some(o) => o.cells@[o.spec_cell_index(hash)].entries@.len() == 0,
                None => true,
            },
            // The capacity changes only through the documented trigger: the
            // locked cell had reached the per-cell ceiling, no migration was
            // in flight, and the bounded sample showed a load over 7/8; the
            // new capacity is then exactly what the resize policy computes.
            final(self).array.spec_capacity() == old(self).array.spec_capacity() || (exists|
                mid: Self,
            |
                {
                    &&& #[trigger] mid.wf()
                    &&& mid.preserves_contents(*old(self))
                    &&& mid.old_array is None
                    &&& mid.array.cells@[mid.array.spec_cell_index(hash)].entries@.len()
                        >= CELL_SIZE as int
                    &&& spec_reserve_sample(mid.array) > spec_reserve_threshold(mid.array)
                    &&& final(self).array.spec_capacity() == spec_next_capacity(
                        mid.array.spec_capacity(),
                        spec_load_estimate(mid.array),
                        mid.minimum_capacity as int,
                    )
                }),
    {
        let ci = self.lock(hash);
        let full = self.array.cells[ci].num_entries() >= CELL_SIZE;
        if full {
            let ghost snap = *self;
            if self.old_array.is_none() {
                let sample_size = self.array.num_sample_size();
                proof {
                    lemma_entry_count_parts(self.array.cells@);
                }
                let sum = self.sample_entries(sample_size);
                let threshold = sample_size * (CELL_SIZE / 8) * 7;
                if sum > threshold {
                    let ghost snap2 = *self;
                    proof {
                        assert(sum as int == spec_reserve_sample(snap2.array));
                        assert(threshold as int == spec_reserve_threshold(snap2.array));
                    }
                    self.resize();
                    proof {
                        Self::lemma_preserves_trans(*self, snap2, *old(self));
                        if self.array.spec_capacity() != old(self).array.spec_capacity() {
                            assert(snap2.wf() && snap2.preserves_contents(*old(self))
                                && snap2.old_array is None
                                && snap2.array.cells@[snap2.array.spec_cell_index(
                                hash,
                            )].entries@.len() >= CELL_SIZE as int && spec_reserve_sample(
                                snap2.array,
                            ) > spec_reserve_threshold(snap2.array)
                                && self.array.spec_capacity() == spec_next_capacity(
                                snap2.array.spec_capacity(),
                                spec_load_estimate(snap2.array),
                                snap2.minimum_capacity as int,
                            ));
                        }
                    }
                }
            }
            let ghost snap3 = *self;
            let ci2 = self.lock(hash);
            proof {
                Self::lemma_preserves_trans(*self, snap3, *old(self));
                assert(self.array.spec_capacity() == snap3.array.spec_capacity());
            }
            ci2
        } else {
            ci
        }
    }

    /// Appending a fresh key's entry to the cell its hash selects adds exactly
    /// that pair to the index.
    #[verifier::spinoff_prover]
    #[verifier::rlimit(60)]
    proof fn lemma_insert_step(pre: Self, post: Self, e: Entry<K, V>, ci: int)
        requires
            pre.wf(),
            pre.entry_count() < usize::MAX,
            !pre.contains(e.key),
            e.partial_hash == low8(pre.hf()(e.key)),
            0 <= ci < pre.array.num_cells(),
            ci == pre.array.spec_cell_index(pre.hf()(e.key)),
            post.old_array == pre.old_array,
            post.rehash_cursor == pre.rehash_cursor,
            post.build_hasher == pre.build_hasher,
            post.minimum_capacity == pre.minimum_capacity,
            post.resize_mutex == pre.resize_mutex,
            post.array.num_cells() == pre.array.num_cells(),
            post.array.cells@ == pre.array.cells@.update(ci, post.array.cells@[ci]),
            post.array.cells@[ci].entries@ == pre.array.cells@[ci].entries@.push(e),
            post.array.cells@[ci].killed == pre.array.cells@[ci].killed,
        ensures
            post.wf(),
            post.entry_count() == pre.entry_count() + 1,
            post.lookup(e.key) == Some(e.value),
            forall|q: K| q != e.key ==> #[trigger] post.lookup(q) == pre.lookup(q),
    {
        let hf = pre.hf();
        assert(post.hf() == hf);
        let n_cur = pre.array.num_cells();
        let s_cur = pre.array.cells@[ci].entries@;
        assert(pre.array.cells@[ci].wf(hf, ci, n_cur));
        assert(!pre.in_current(e.key));
        assert(!seq_has_key(s_cur, e.key));
        lemma_push_entry(s_cur, e);
        lemma_entry_count_update(pre.array.cells@, ci, post.array.cells@[ci]);
        assert(post.entry_count() == pre.entry_count() + 1);
        assert(post.array.cells@[ci].wf(hf, ci, n_cur)) by {
            assert(forall|j: int|
                0 <= j < s_cur.len() ==> post.array.cells@[ci].entries@[j] == s_cur[j]);
            assert(post.array.cells@[ci].entries@[s_cur.len() as int] == e);
        }
        assert(post.array.wf(hf));
        assert(post.in_current(e.key));
        assert(post.lookup_value(e.key) == e.value);
        if pre.old_array is Some {
            assert forall|q: K| !((#[trigger] post.in_current(q)) && post.in_old(q)) by {
                if q == e.key {
                    assert(!pre.in_old(q));
                    assert(!post.in_old(q));
                } else if post.in_current(q) && post.in_old(q) {
                    assert(pre.in_current(q) && pre.in_old(q));
                }
            }
        }
        assert(post.wf());
        assert forall|q: K| q != e.key implies #[trigger] post.lookup(q) == pre.lookup(q) by {
            assert(post.in_current(q) == pre.in_current(q));
            assert(post.in_old(q) == pre.in_old(q));
            if pre.in_current(q) {
                assert(post.lookup_value(q) == pre.lookup_value(q));
            } else if pre.in_old(q) {
                assert(post.lookup_value(q) == pre.lookup_value(q));
            }
        }
    }

    /// Removing one entry from the cell its hash selects removes exactly that
    /// key from the index, provided the old generation holds nothing for it.
    #[verifier::spinoff_prover]
    #[verifier::rlimit(60)]
    proof fn lemma_remove_step(pre: Self, post: Self, ci: int, j: int)
        requires
            pre.wf(),
            0 <= ci < pre.array.num_cells(),
            0 <= j < pre.array.cells@[ci].entries@.len(),
            !pre.in_old(pre.array.cells@[ci].entries@[j].key),
            post.old_array == pre.old_array,
            post.rehash_cursor == pre.rehash_cursor,
            post.build_hasher == pre.build_hasher,
            post.minimum_capacity == pre.minimum_capacity,
            post.resize_mutex == pre.resize_mutex,
            post.array.num_cells() == pre.array.num_cells(),
            post.array.cells@ == pre.array.cells@.update(ci, post.array.cells@[ci]),
            post.array.cells@[ci].entries@ == pre.array.cells@[ci].entries@.remove(j),
            post.array.cells@[ci].killed == pre.array.cells@[ci].killed,
        ensures
            post.wf(),
            post.entry_count() == pre.entry_count() - 1,
            post.lookup(pre.array.cells@[ci].entries@[j].key) is None,
            forall|q: K|
                q != pre.array.cells@[ci].entries@[j].key ==> #[trigger] post.lookup(q)
                    == pre.lookup(q),
    {
        let hf = pre.hf();
        assert(post.hf() == hf);
        let n_cur = pre.array.num_cells();
        let s_cur = pre.array.cells@[ci].entries@;
        let k0 = s_cur[j].key;
        assert(pre.array.cells@[ci].wf(hf, ci, n_cur));
        lemma_remove_entry(s_cur, j);
        lemma_entry_count_update(pre.array.cells@, ci, post.array.cells@[ci]);
        lemma_entry_count_parts(pre.array.cells@);
        assert(post.entry_count() == pre.entry_count() - 1);
        let t = post.array.cells@[ci].entries@;
        assert(forall|i: int| 0 <= i < j ==> t[i] == s_cur[i]);
        assert(forall|i: int| j <= i < t.len() ==> t[i] == s_cur[i + 1]);
        assert(post.array.cells@[ci].wf(hf, ci, n_cur)) by {
            assert forall|i: int|
                0 <= i < t.len() implies (#[trigger] t[i]).partial_hash == low8(hf(t[i].key)) && hf(
                t[i].key,
            ) as int % n_cur == ci by {
                if i < j {
                    assert(t[i] == s_cur[i]);
                } else {
                    assert(t[i] == s_cur[i + 1]);
                }
            }
        }
        assert(post.array.wf(hf));
        // The removed key is gone: it sat only in this cell of the current
        // generation, and nowhere in the old one.
        assert(ci == pre.array.spec_cell_index(hf(k0)));
        assert(!post.in_current(k0));
        assert(!post.in_old(k0));
        if pre.old_array is Some {
            assert forall|q: K| !((#[trigger] post.in_current(q)) && post.in_old(q)) by {
                if post.in_current(q) && post.in_old(q) {
                    assert(pre.in_current(q) && pre.in_old(q));
                }
            }
        }
        assert(post.wf());
        assert forall|q: K| q != k0 implies #[trigger] post.lookup(q) == pre.lookup(q) by {
            assert(post.in_current(q) == pre.in_current(q));
            assert(post.in_old(q) == pre.in_old(q));
            if pre.in_current(q) {
                assert(post.lookup_value(q) == pre.lookup_value(q));
            } else if pre.in_old(q) {
                assert(post.lookup_value(q) == pre.lookup_value(q));
            }
        }
    }

    /// Inserts a key-value pair. Fails, returning the pair back unchanged,
    /// exactly when the key is already stored; succeeds, storing the pair and
    /// leaving every other key untouched, exactly when it is not. May trigger
    /// a resize as a side effect; performs no removal on failure.
    #[verifier::rlimit(60)]
    #[verifier::spinoff_prover]
    pub fn insert(&mut self, key: K, value: V) -> (r: Result<(), (K, V)>)
        requires
            old(self).wf(),
            old(self).entry_count() < usize::MAX,
        ensures
            final(self).wf(),
            final(self).build_hasher == old(self).build_hasher,
            final(self).minimum_capacity == old(self).minimum_capacity,
            r is Ok <==> !old(self).contains(key),
            match r {
                Ok(()) => {
                    &&& final(self).lookup(key) == Some(value)
                    &&& forall|q: K|
                        q != key ==> #[trigger] final(self).lookup(q) == old(self).lookup(q)
                    &&& final(self).entry_count() == old(self).entry_count() + 1
                },
                Err(back) => {
                    &&& back == (key, value)
                    &&& final(self).preserves_contents(*old(self))
                },
            },
    {
        let (h, p) = self.hash(&key);
        let ci = self.reserve(h);
        let ghost mid = *self;
        let found = self.array.cells[ci].search(
            &key,
            p,
            Ghost(self.hf()),
            Ghost(ci as int),
            Ghost(self.array.num_cells()),
        );
        match found {
            Some(_) => {
                proof {
                    assert(mid.in_current(key));
                    assert(mid.contains(key));
                    assert(old(self).contains(key));
                }
                Err((key, value))
            },
            None => {
                proof {
                    assert(!mid.in_current(key));
                    if mid.in_old(key) {
                        let o = mid.old_array.unwrap();
                        let oc = o.cells@[o.spec_cell_index(h)];
                        assert(oc.entries@.len() == 0);
                        assert(!seq_has_key(oc.entries@, key));
                    }
                    assert(!mid.contains(key));
                    assert(!old(self).contains(key));
                }
                let e = Entry { key, value, partial_hash: p };
                let ghost cur_cells = self.array.cells@;
                self.array.cells[ci].entries.push(e);
                proof {
                    assert(self.array.cells@ =~= cur_cells.update(
                        ci as int,
                        self.array.cells@[ci as int],
                    ));
                    Self::lemma_insert_step(mid, *self, e, ci as int);
                }
                Ok(())
            },
        }
    }

    /// Removes a key-value pair; returns whether the key was stored. Every
    /// other key is untouched, and the key reads as absent afterwards.
    #[verifier::rlimit(60)]
    #[verifier::spinoff_prover]
    pub fn remove(&mut self, key: &K) -> (r: bool)
        requires
            old(self).wf(),
        ensures
            final(self).wf(),
            final(self).build_hasher == old(self).build_hasher,
            final(self).minimum_capacity == old(self).minimum_capacity,
            final(self).array.spec_capacity() == old(self).array.spec_capacity(),
            r == old(self).contains(*key),
            final(self).lookup(*key) is None,
            forall|q: K| q != *key ==> #[trigger] final(self).lookup(q) == old(self).lookup(q),
            final(self).entry_count() == old(self).entry_count() - (if r {
                1int
            } else {
                0int
            }),
    {
        let (h, p) = self.hash(key);
        let ci = self.lock(h);
        let ghost mid = *self;
        let found = self.array.cells[ci].search(
            key,
            p,
            Ghost(self.hf()),
            Ghost(ci as int),
            Ghost(self.array.num_cells()),
        );
        proof {
            if mid.in_old(*key) {
                let o = mid.old_array.unwrap();
                let oc = o.cells@[o.spec_cell_index(h)];
                assert(oc.entries@.len() == 0);
                assert(!seq_has_key(oc.entries@, *key));
            }
            assert(!mid.in_old(*key));
        }
        match found {
            Some(j) => {
                let ghost cur_cells = self.array.cells@;
                self.array.cells[ci].entries.remove(j);
                proof {
                    assert(self.array.cells@ =~= cur_cells.update(
                        ci as int,
                        self.array.cells@[ci as int],
                    ));
                    assert(cur_cells[ci as int].entries@[j as int].key == *key);
                    Self::lemma_remove_step(mid, *self, ci as int, j as int);
                    assert(mid.in_current(*key));
                    assert(mid.lookup(*key) is Some);
                }
                true
            },
            None => {
                proof {
                    assert(!mid.in_current(*key));
                    assert(!mid.contains(*key));
                    assert(!old(self).contains(*key));
                    assert(mid.lookup(*key) is None);
                }
                false
            },
        }
    }

    /// Reads a key-value pair without any locking: finds the entry by partial
    /// hash then full key equality, in the current generation first and in a
    /// still-attached old generation second, and applies `f` to it. Returns
    /// `None` exactly when the key is absent.
    #[verifier::rlimit(60)]
    #[verifier::spinoff_prover]
    pub fn read<R, F: FnOnce(&K, &V) -> R>(&self, key: &K, f: F) -> (r: Option<R>)
        requires
            self.wf(),
            forall|kr: &K, vr: &V| #[trigger] call_requires(f, (kr, vr)),
        ensures
            match r {
                Some(ret) => self.contains(*key) && call_ensures(
                    f,
                    (key, &self.lookup_value(*key)),
                    ret,
                ),
                None => !self.contains(*key),
            },
    {
        let (h, p) = self.hash(key);
        let ci = self.array.cell_index(h);
        let found = self.array.cells[ci].search(
            key,
            p,
            Ghost(self.hf()),
            Ghost(ci as int),
            Ghost(self.array.num_cells()),
        );
        match found {
            Some(j) => {
                let c = &self.array.cells[ci];
                let e = &c.entries[j];
                proof {
                    assert(self.in_current(*key));
                    assert forall|i: int|
                        0 <= i < c.entries@.len() && (#[trigger] c.entries@[i]).key
                            == *key implies i == j as int by {
                        if i < j as int {
                            assert(c.entries@[i].key != c.entries@[j as int].key);
                        } else if i > j as int {
                            assert(c.entries@[j as int].key != c.entries@[i].key);
                        }
                    }
                    assert(self.lookup_value(*key) == e.value);
                }
                let kr = &e.key;
                let vr = &e.value;
                let ret = f(kr, vr);
                proof {
                    assert(*kr == *key && *vr == self.lookup_value(*key) && call_ensures(
                        f,
                        (kr, vr),
                        ret,
                    ));
                }
                Some(ret)
            },
            None => {
                proof {
                    assert(!self.in_current(*key));
                }
                match &self.old_array {
                    Some(o) => {
                        let oi = o.cell_index(h);
                        let found2 = o.cells[oi].search(
                            key,
                            p,
                            Ghost(self.hf()),
                            Ghost(oi as int),
                            Ghost(o.num_cells()),
                        );
                        match found2 {
                            Some(j2) => {
                                let c = &o.cells[oi];
                                let e = &c.entries[j2];
                                proof {
                                    assert(self.in_old(*key));
                                    assert forall|i: int|
                                        0 <= i < c.entries@.len() && (#[trigger] c.entries@[i]).key
                                            == *key implies i == j2 as int by {
                                        if i < j2 as int {
                                            assert(c.entries@[i].key != c.entries@[j2 as int].key);
                                        } else if i > j2 as int {
                                            assert(c.entries@[j2 as int].key != c.entries@[i].key);
                                        }
                                    }
                                    assert(self.lookup_value(*key) == e.value);
                                }
                                let kr = &e.key;
                                let vr = &e.value;
                                let ret = f(kr, vr);
                                proof {
                                    assert(*kr == *key && *vr == self.lookup_value(*key)
                                        && call_ensures(f, (kr, vr), ret));
                                }
                                Some(ret)
                            },
                            None => {
                                proof {
                                    assert(!self.in_old(*key));
                                }
                                None
                            },
                        }
                    },
                    None => {
                        proof {
                            assert(!self.in_old(*key));
                        }
                        None
                    },
                }
            },
        }
    }

    /// Removes the entry at position `j` of current cell `i` when no old
    /// generation is attached: exactly its key disappears.
    #[verifier::rlimit(60)]
    #[verifier::spinoff_prover]
    fn remove_at(&mut self, i: usize, j: usize)
        requires
            old(self).wf(),
            old(self).old_array is None,
            (i as int) < old(self).array.num_cells(),
            (j as int) < old(self).array.cells@[i as int].entries@.len(),
        ensures
            final(self).wf(),
            final(self).old_array is None,
            final(self).build_hasher == old(self).build_hasher,
            final(self).minimum_capacity == old(self).minimum_capacity,
            final(self).array.num_cells() == old(self).array.num_cells(),
            forall|t: int|
                0 <= t < old(self).array.num_cells() && t != i as int
                    ==> final(self).array.cells@[t] == old(self).array.cells@[t],
            final(self).array.cells@[i as int].entries@ == old(self).array.cells@[i as int].entries@.remove(
                j as int,
            ),
            final(self).entry_count() == old(self).entry_count() - 1,
            final(self).lookup(old(self).array.cells@[i as int].entries@[j as int].key)
                is None,
            forall|q: K|
                q != old(self).array.cells@[i as int].entries@[j as int].key
                    ==> #[trigger] final(self).lookup(q) == old(self).lookup(q),
    {
        let ghost mid = *self;
        let ghost cur_cells = self.array.cells@;
        self.array.cells[i].entries.remove(j);
        proof {
            assert(self.array.cells@ =~= cur_cells.update(i as int, self.array.cells@[i as int]));
            Self::lemma_remove_step(mid, *self, i as int, j as int);
        }
    }

    /// The per-key bookkeeping of a retain pass: every key still stored was
    /// stored in `snap` with the same value, and every key of `snap` that is
    /// gone was rejected by the predicate.
    #[verifier::opaque]
    pub open spec fn retain_inv<F: Fn(&K, &V) -> bool>(cur: Self, snap: Self, f: F) -> bool {
        &&& forall|q: K|
            #[trigger] cur.in_current(q) ==> snap.in_current(q) && cur.lookup_value(q)
                == snap.lookup_value(q)
        &&& forall|q: K|
            snap.in_current(q) && !(#[trigger] cur.in_current(q)) ==> call_ensures(
                f,
                (&q, &snap.lookup_value(q)),
                false,
            )
    }

    /// The first `j` entries of a cell were accepted by the predicate.
    #[verifier::opaque]
    pub open spec fn prefix_decided<F: Fn(&K, &V) -> bool>(
        f: F,
        s: Seq<Entry<K, V>>,
        j: int,
    ) -> bool {
        forall|jj: int|
            0 <= jj < j ==> call_ensures(f, (&(#[trigger] s[jj]).key, &s[jj].value), true)
    }

    /// An accepted entry extends the decided prefix by one.
    proof fn lemma_prefix_extend<F: Fn(&K, &V) -> bool>(f: F, s: Seq<Entry<K, V>>, j: int)
        requires
            Self::prefix_decided(f, s, j),
            0 <= j < s.len(),
            call_ensures(f, (&s[j].key, &s[j].value), true),
        ensures
            Self::prefix_decided(f, s, j + 1),
    {
        reveal(HashIndex::prefix_decided);
    }

    /// A decided prefix survives changes past it.
    proof fn lemma_prefix_stable<F: Fn(&K, &V) -> bool>(
        f: F,
        s1: Seq<Entry<K, V>>,
        s2: Seq<Entry<K, V>>,
        j: int,
    )
        requires
            Self::prefix_decided(f, s1, j),
            j <= s1.len(),
            j <= s2.len(),
            forall|jj: int| 0 <= jj < j ==> s2[jj] == s1[jj],
        ensures
            Self::prefix_decided(f, s2, j),
    {
        reveal(HashIndex::prefix_decided);
        assert forall|jj: int| 0 <= jj < j implies call_ensures(
            f,
            (&(#[trigger] s2[jj]).key, &s2[jj].value),
            true,
        ) by {
            assert(s2[jj] == s1[jj]);
            assert(call_ensures(f, (&s1[jj].key, &s1[jj].value), true));
        }
    }

    /// The first `upto` cells hold only entries the predicate accepted.
    #[verifier::opaque]
    pub open spec fn cells_decided<F: Fn(&K, &V) -> bool>(f: F, cur: Self, upto: int) -> bool {
        forall|t: int|
            0 <= t < upto ==> Self::prefix_decided(
                f,
                (#[trigger] cur.array.cells@[t]).entries@,
                cur.array.cells@[t].entries@.len() as int,
            )
    }

    /// A freshly filtered cell extends the decided region by one.
    proof fn lemma_cells_decided_step<F: Fn(&K, &V) -> bool>(f: F, before: Self, after: Self, i: int)
        requires
            0 <= i,
            Self::cells_decided(f, before, i),
            Self::prefix_decided(
                f,
                after.array.cells@[i].entries@,
                after.array.cells@[i].entries@.len() as int,
            ),
            forall|t: int| 0 <= t < i ==> after.array.cells@[t] == before.array.cells@[t],
        ensures
            Self::cells_decided(f, after, i + 1),
    {
        reveal(HashIndex::cells_decided);
        assert forall|t: int| 0 <= t < i + 1 implies Self::prefix_decided(
            f,
            (#[trigger] after.array.cells@[t]).entries@,
            after.array.cells@[t].entries@.len() as int,
        ) by {
            if t < i {
                assert(after.array.cells@[t] == before.array.cells@[t]);
                assert(Self::prefix_decided(
                    f,
                    before.array.cells@[t].entries@,
                    before.array.cells@[t].entries@.len() as int,
                ));
            }
        }
    }

    /// Nothing is decided yet at the start of a pass.
    proof fn lemma_cells_decided_init<F: Fn(&K, &V) -> bool>(f: F, cur: Self)
        ensures
            Self::cells_decided(f, cur, 0),
    {
        reveal(HashIndex::cells_decided);
    }

    /// A state equal to the snapshot satisfies the retain bookkeeping.
    proof fn lemma_retain_inv_init<F: Fn(&K, &V) -> bool>(snap: Self, f: F)
        ensures
            Self::retain_inv(snap, snap, f),
    {
        reveal(HashIndex::retain_inv);
    }

    /// After removing one rejected entry during a retain pass, the per-key
    /// bookkeeping of the pass still holds.
    #[verifier::spinoff_prover]
    #[verifier::rlimit(60)]
    proof fn lemma_retain_step<F: Fn(&K, &V) -> bool>(
        f: F,
        snap: Self,
        mid: Self,
        post: Self,
        e: Entry<K, V>,
        i: int,
        j: int,
    )
        requires
            snap.wf(),
            snap.old_array is None,
            mid.wf(),
            mid.old_array is None,
            post.old_array is None,
            mid.build_hasher == snap.build_hasher,
            post.build_hasher == snap.build_hasher,
            mid.array.num_cells() == snap.array.num_cells(),
            post.array.num_cells() == snap.array.num_cells(),
            0 <= i < snap.array.num_cells(),
            0 <= j < mid.array.cells@[i].entries@.len(),
            e == mid.array.cells@[i].entries@[j],
            Self::retain_inv(mid, snap, f),
            call_ensures(f, (&e.key, &e.value), false),
            post.lookup(e.key) is None,
            forall|q: K| q != e.key ==> #[trigger] post.lookup(q) == mid.lookup(q),
        ensures
            Self::retain_inv(post, snap, f),
    {
        reveal(HashIndex::retain_inv);
        let hf = snap.hf();
        assert(mid.hf() == hf && post.hf() == hf);
        // The rejected entry's key was stored with exactly its value.
        let s_cell = mid.array.cells@[i].entries@;
        assert(mid.array.cells@[i].wf(hf, i, mid.array.num_cells()));
        assert(hf(e.key) as int % mid.array.num_cells() == i);
        assert(mid.in_current(e.key));
        assert forall|j2: int|
            0 <= j2 < s_cell.len() && (#[trigger] s_cell[j2]).key == e.key implies j2 == j by {
            if j2 < j {
                assert(s_cell[j2].key != s_cell[j].key);
            } else if j2 > j {
                assert(s_cell[j].key != s_cell[j2].key);
            }
        }
        assert(mid.lookup_value(e.key) == e.value);
        assert(snap.lookup_value(e.key) == e.value);
        assert forall|q: K|
            #[trigger] post.in_current(q) implies snap.in_current(q) && post.lookup_value(q)
            == snap.lookup_value(q) by {
            assert(post.contains(q));
            if q == e.key {
                assert(post.lookup(q) is Some);
                assert(false);
            } else {
                assert(post.lookup(q) == mid.lookup(q));
                assert(mid.lookup(q) is Some);
                assert(mid.in_current(q));
                assert(post.lookup_value(q) == mid.lookup_value(q));
            }
        }
        assert forall|q: K|
            snap.in_current(q) && !(#[trigger] post.in_current(q)) implies call_ensures(
            f,
            (&q, &snap.lookup_value(q)),
            false,
        ) by {
            if q == e.key {
                assert(call_ensures(f, (&e.key, &e.value), false));
            } else {
                assert(post.lookup(q) == mid.lookup(q));
                if mid.in_current(q) {
                    assert(mid.lookup(q) is Some);
                    assert(post.contains(q));
                    assert(post.in_current(q));
                } else {
                    assert(call_ensures(f, (&q, &snap.lookup_value(q)), false));
                }
            }
        }
    }

    /// One step of filtering cell `i`: decides entry `j`, removing it if the
    /// predicate rejects it. Returns the predicate and whether the entry stayed.
    #[verifier::rlimit(80)]
    #[verifier::spinoff_prover]
    fn retain_step<F: Fn(&K, &V) -> bool>(
        &mut self,
        i: usize,
        j: usize,
        f: F,
        Ghost(snap): Ghost<Self>,
    ) -> (res: (F, bool))
        requires
            forall|kr: &K, vr: &V| #[trigger] call_requires(f, (kr, vr)),
            old(self).wf(),
            old(self).old_array is None,
            snap.wf(),
            snap.old_array is None,
            old(self).build_hasher == snap.build_hasher,
            (i as int) < old(self).array.num_cells(),
            (j as int) < old(self).array.cells@[i as int].entries@.len(),
            old(self).array.num_cells() == snap.array.num_cells(),
            Self::retain_inv(*old(self), snap, f),
            Self::prefix_decided(f, old(self).array.cells@[i as int].entries@, j as int),
        ensures
            res.0 == f,
            final(self).wf(),
            final(self).old_array is None,
            final(self).build_hasher == old(self).build_hasher,
            final(self).minimum_capacity == old(self).minimum_capacity,
            final(self).array.num_cells() == old(self).array.num_cells(),
            forall|t: int|
                0 <= t < old(self).array.num_cells() && t != i as int
                    ==> final(self).array.cells@[t] == old(self).array.cells@[t],
            Self::retain_inv(*final(self), snap, f),
            res.1 ==> *final(self) == *old(self) && Self::prefix_decided(
                f,
                final(self).array.cells@[i as int].entries@,
                j as int + 1,
            ),
            !res.1 ==> {
                &&& final(self).array.cells@[i as int].entries@ == old(
                    self,
                ).array.cells@[i as int].entries@.remove(j as int)
                &&& Self::prefix_decided(f, final(self).array.cells@[i as int].entries@, j as int)
                &&& final(self).entry_count() == old(self).entry_count() - 1
            },
    {
        proof {
            reveal(HashIndex::retain_inv);
        }
        let keep = {
            let c = &self.array.cells[i];
            let e = &c.entries[j];
            f(&e.key, &e.value)
        };
        if keep {
            proof {
                let e = self.array.cells@[i as int].entries@[j as int];
                assert(call_ensures(f, (&e.key, &e.value), true));
                Self::lemma_prefix_extend(f, self.array.cells@[i as int].entries@, j as int);
            }
            (f, true)
        } else {
            let ghost mid = *self;
            let ghost e = self.array.cells@[i as int].entries@[j as int];
            let ghost cur_cells = self.array.cells@;
            self.remove_at(i, j);
            proof {
                assert(call_ensures(f, (&e.key, &e.value), false));
                Self::lemma_retain_step(f, snap, mid, *self, e, i as int, j as int);
                Self::lemma_prefix_stable(
                    f,
                    cur_cells[i as int].entries@,
                    self.array.cells@[i as int].entries@,
                    j as int,
                );
            }
            (f, false)
        }
    }

    /// Filters one cell of the current generation in place, removing every
    /// entry the predicate rejects. Hands the predicate back to the caller.
    #[verifier::rlimit(100)]
    #[verifier::spinoff_prover]
    fn retain_cell<F: Fn(&K, &V) -> bool>(
        &mut self,
        i: usize,
        f: F,
        Ghost(snap): Ghost<Self>,
    ) -> (res: (F, usize))
        requires
            forall|kr: &K, vr: &V| #[trigger] call_requires(f, (kr, vr)),
            old(self).wf(),
            old(self).old_array is None,
            snap.wf(),
            snap.old_array is None,
            old(self).build_hasher == snap.build_hasher,
            (i as int) < old(self).array.num_cells(),
            old(self).array.num_cells() == snap.array.num_cells(),
            Self::retain_inv(*old(self), snap, f),
        ensures
            res.0 == f,
            final(self).wf(),
            final(self).old_array is None,
            final(self).build_hasher == old(self).build_hasher,
            final(self).minimum_capacity == old(self).minimum_capacity,
            final(self).array.num_cells() == old(self).array.num_cells(),
            forall|t: int|
                0 <= t < old(self).array.num_cells() && t != i as int
                    ==> final(self).array.cells@[t] == old(self).array.cells@[t],
            Self::retain_inv(*final(self), snap, f),
            Self::prefix_decided(
                f,
                final(self).array.cells@[i as int].entries@,
                final(self).array.cells@[i as int].entries@.len() as int,
            ),
            res.1 as int == old(self).array.cells@[i as int].entries@.len()
                - final(self).array.cells@[i as int].entries@.len(),
            final(self).entry_count() == old(self).entry_count() - res.1 as int,
    {
        let ghost entry_state = *old(self);
        let mut h = f;
        let mut removed: usize = 0;
        let mut j: usize = 0;
        proof {
            lemma_entry_count_parts(self.array.cells@);
            reveal(HashIndex::prefix_decided);
            assert(Self::prefix_decided(f, self.array.cells@[i as int].entries@, 0));
        }
        while j < self.array.cells[i].num_entries()
            invariant
                h == f,
                forall|kr: &K, vr: &V| #[trigger] call_requires(f, (kr, vr)),
                self.wf(),
                self.old_array is None,
                snap.wf(),
                snap.old_array is None,
                self.build_hasher == snap.build_hasher,
                entry_state.build_hasher == snap.build_hasher,
                self.minimum_capacity == entry_state.minimum_capacity,
                (i as int) < self.array.num_cells(),
                j as int <= self.array.cells@[i as int].entries@.len(),
                self.array.num_cells() == snap.array.num_cells(),
                self.array.num_cells() == entry_state.array.num_cells(),
                forall|t: int|
                    0 <= t < entry_state.array.num_cells() && t != i as int
                        ==> self.array.cells@[t] == entry_state.array.cells@[t],
                Self::retain_inv(*self, snap, f),
                Self::prefix_decided(f, self.array.cells@[i as int].entries@, j as int),
                entry_state.array.cells@[i as int].entries@.len() <= usize::MAX,
                removed as int == entry_state.array.cells@[i as int].entries@.len()
                    - self.array.cells@[i as int].entries@.len(),
                self.entry_count() == entry_state.entry_count() - removed as int,
            decreases self.array.cells@[i as int].entries@.len() - j,
        {
            let step = self.retain_step(i, j, h, Ghost(snap));
            h = step.0;
            if step.1 {
                j += 1;
            } else {
                removed += 1;
            }
        }
        (h, removed)
    }

    /// Retains exactly the entries that satisfy the predicate. Completes any
    /// migration in flight, then visits every cell of the current generation
    /// and removes each entry the predicate rejects. Returns the number of
    /// entries remaining and the number removed.
    #[verifier::rlimit(100)]
    #[verifier::spinoff_prover]
    pub fn retain<F: Fn(&K, &V) -> bool>(&mut self, f: F) -> (r: (usize, usize))
        requires
            old(self).wf(),
            forall|kr: &K, vr: &V| #[trigger] call_requires(f, (kr, vr)),
        ensures
            final(self).wf(),
            final(self).build_hasher == old(self).build_hasher,
            final(self).minimum_capacity == old(self).minimum_capacity,
            forall|q: K|
                #[trigger] final(self).contains(q) ==> old(self).contains(q)
                    && final(self).lookup(q) == old(self).lookup(q)
                    && call_ensures(f, (&q, &old(self).lookup_value(q)), true),
            forall|q: K|
                old(self).contains(q) && !(#[trigger] final(self).contains(q)) ==> call_ensures(
                    f,
                    (&q, &old(self).lookup_value(q)),
                    false,
                ),
            final(self).old_array is None,
            final(self).array.spec_capacity() == old(self).array.spec_capacity(),
            r.0 as int == final(self).entry_count(),
            r.0 as int + r.1 as int == old(self).entry_count(),
    {
        // Complete the migration first, so every live entry sits in the
        // current generation.
        while self.old_array.is_some()
            invariant
                self.wf(),
                self.preserves_contents(*old(self)),
                self.array.num_cells() == old(self).array.num_cells(),
            decreases (match self.old_array {
                Some(o) => o.num_cells() + 1 - self.rehash_cursor as int,
                None => 0int,
            }),
        {
            let ghost prev = *self;
            let _ = self.partial_rehash();
            proof {
                Self::lemma_preserves_trans(*self, prev, *old(self));
            }
        }
        let ghost snap = *self;
        let n = self.array.cell_count();
        let mut g = f;
        let mut removed: usize = 0;
        let mut i: usize = 0;
        proof {
            lemma_entry_count_parts(self.array.cells@);
            Self::lemma_retain_inv_init(snap, f);
            Self::lemma_cells_decided_init(f, *self);
        }
        while i < n
            invariant
                g == f,
                forall|kr: &K, vr: &V| #[trigger] call_requires(f, (kr, vr)),
                self.wf(),
                self.old_array is None,
                self.build_hasher == snap.build_hasher,
                self.minimum_capacity == snap.minimum_capacity,
                snap.wf(),
                snap.old_array is None,
                snap.preserves_contents(*old(self)),
                i <= n,
                n as int == self.array.num_cells(),
                n as int == snap.array.num_cells(),
                Self::retain_inv(*self, snap, f),
                Self::cells_decided(f, *self, i as int),
                removed as int == snap.entry_count() - self.entry_count(),
            decreases n - i,
        {
            let ghost before_cell = *self;
            let pair = self.retain_cell(i, g, Ghost(snap));
            g = pair.0;
            let removed_cell = pair.1;
            proof {
                lemma_entry_count_parts(before_cell.array.cells@);
                assert((removed_cell as int) <= snap.entry_count());
                Self::lemma_cells_decided_step(f, before_cell, *self, i as int);
            }
            removed += removed_cell;
            i += 1;
        }
        let kept = self.count_current_entries();
        proof {
            reveal(HashIndex::retain_inv);
            reveal(HashIndex::cells_decided);
            reveal(HashIndex::prefix_decided);
            assert forall|q: K| #[trigger] self.contains(q) implies old(self).contains(q) && self.lookup(
                q,
            ) == old(self).lookup(q) && call_ensures(f, (&q, &old(self).lookup_value(q)), true) by {
                assert(self.in_current(q));
                assert(snap.lookup(q) == old(self).lookup(q));
                assert(snap.in_current(q));
                assert(snap.contains(q));
                assert(old(self).lookup(q) is Some);
                assert(old(self).contains(q));
                assert(old(self).lookup_value(q) == snap.lookup_value(q));
                assert(self.lookup(q) == Some(self.lookup_value(q)));
                // The accepting decision is recorded at the entry itself.
                let idx = self.array.spec_cell_index(self.hf()(q));
                let cell = self.array.cells@[idx].entries@;
                assert(Self::prefix_decided(f, cell, cell.len() as int));
                let jj = choose|jj: int| 0 <= jj < cell.len() && (#[trigger] cell[jj]).key == q;
                assert(call_ensures(f, (&cell[jj].key, &cell[jj].value), true));
                assert(self.lookup_value(q) == cell[jj].value) by {
                    assert(self.array.cells@[idx].wf(self.hf(), idx, n as int));
                    assert forall|j2: int|
                        0 <= j2 < cell.len() && (#[trigger] cell[j2]).key == q implies j2 == jj by {
                        if j2 < jj {
                            assert(cell[j2].key != cell[jj].key);
                        } else if j2 > jj {
                            assert(cell[jj].key != cell[j2].key);
                        }
                    }
                }
            }
            assert forall|q: K|
                old(self).contains(q) && !(#[trigger] self.contains(q)) implies call_ensures(
                f,
                (&q, &old(self).lookup_value(q)),
                false,
            ) by {
                assert(snap.lookup(q) == old(self).lookup(q));
                assert(snap.contains(q));
                assert(snap.in_current(q));
                assert(!self.in_current(q));
                assert(old(self).lookup_value(q) == snap.lookup_value(q));
            }
            lemma_entry_count_parts(self.array.cells@);
        }
        (kept, removed)
    }

    /// Counts the entries of the current generation.
    fn count_current_entries(&self) -> (r: usize)
        requires
            self.wf(),
            self.old_array is None,
        ensures
            r as int == self.entry_count(),
    {
        proof {
            lemma_entry_count_parts(self.array.cells@);
        }
        let n = self.array.cell_count();
        let r = self.sample_entries(n);
        proof {
            assert(self.array.cells@.subrange(0, n as int) =~= self.array.cells@);
        }
        r
    }

    /// Removes every entry; returns how many were removed.
    #[verifier::rlimit(60)]
    #[verifier::spinoff_prover]
    pub fn clear(&mut self) -> (r: usize)
        requires
            old(self).wf(),
        ensures
            final(self).wf(),
            final(self).build_hasher == old(self).build_hasher,
            final(self).minimum_capacity == old(self).minimum_capacity,
            final(self).array.spec_capacity() == old(self).array.spec_capacity(),
            forall|q: K| #[trigger] final(self).lookup(q) == Option::<V>::None,
            r as int == old(self).entry_count(),
    {
        let always_false = |_k: &K, _v: &V| -> (b: bool)
            ensures
                b == false,
            {
                false
            };
        let pair = self.retain(always_false);
        proof {
            assert forall|q: K| #[trigger] self.lookup(q) == Option::<V>::None by {
                if self.contains(q) {
                    assert(false);
                }
            }
            assert(self.entry_count() >= 0) by {
                lemma_entry_count_parts(self.array.cells@);
            }
            assert forall|q: K| !(#[trigger] self.in_current(q)) by {
                if self.in_current(q) {
                    assert(self.contains(q));
                }
            }
            // An index containing no key holds no entries.
            assert forall|ii: int|
                0 <= ii < self.array.num_cells() implies (#[trigger] self.array.cells@[ii]).entries@.len()
                == 0 by {
                if self.array.cells@[ii].entries@.len() > 0 {
                    let e0 = self.array.cells@[ii].entries@[0];
                    assert(self.array.cells@[ii].wf(self.hf(), ii, self.array.num_cells()));
                    assert(self.array.spec_cell_index(self.hf()(e0.key)) == ii);
                    assert(seq_has_key(self.array.cells@[ii].entries@, e0.key));
                    assert(self.in_current(e0.key));
                }
            }
            lemma_entry_count_empty(self.array.cells@);
        }
        pair.1
    }

    /// The estimate `len` computes for the whole index: the per-generation
    /// estimates of the current and any still-attached old generation, added
    /// with saturation at `usize::MAX`. When `requested` covers every cell of
    /// both generations this equals the exact entry count
    /// ([`HashIndex::lemma_len_estimate_exact`]).
    pub open spec fn spec_len_estimate_total(self, requested: int) -> int {
        let cur = spec_len_estimate(self.array, requested);
        let older = match self.old_array {
            Some(o) => spec_len_estimate(o, requested),
            None => 0int,
        };
        if cur + older > usize::MAX as int {
            usize::MAX as int
        } else {
            cur + older
        }
    }

    /// A generation whose every cell is sampled is counted exactly.
    proof fn lemma_table_estimate_exact(t: Table<K, V>, requested: int)
        requires
            t.num_cells() >= 1,
            requested >= t.num_cells(),
            0 <= t.entry_count() <= usize::MAX,
        ensures
            spec_len_estimate(t, requested) == t.entry_count(),
    {
        let n = t.num_cells();
        assert(t.cells@.subrange(0, n) =~= t.cells@);
        assert(n / n == 1) by (nonlinear_arith)
            requires
                n >= 1,
        {
        }
    }

    /// Sampling every cell of both generations counts the entries exactly.
    pub proof fn lemma_len_estimate_exact(idx: Self, requested: int)
        requires
            idx.wf(),
            requested >= idx.array.num_cells(),
            match idx.old_array {
                Some(o) => requested >= o.num_cells(),
                None => true,
            },
        ensures
            idx.spec_len_estimate_total(requested) == idx.entry_count(),
    {
        lemma_entry_count_parts(idx.array.cells@);
        match idx.old_array {
            Some(o) => {
                lemma_entry_count_parts(o.cells@);
                Self::lemma_table_estimate_exact(idx.array, requested);
                Self::lemma_table_estimate_exact(o, requested);
            },
            None => {
                Self::lemma_table_estimate_exact(idx.array, requested);
            },
        }
    }

    /// Estimates the number of stored entries by sampling both generations.
    /// The given function chooses, from the current generation's cell count,
    /// how many cells to sample per generation: a larger sample costs more and
    /// is more accurate, and sampling every cell counts exactly.
    pub fn len<F: FnOnce(usize) -> usize>(&self, f: F) -> (r: usize)
        requires
            self.wf(),
            forall|n: usize| #[trigger] call_requires(f, (n,)),
        ensures
            exists|sc: usize|
                #[trigger] call_ensures(f, (self.array.cells@.len() as usize,), sc) && r as int
                    == self.spec_len_estimate_total(sc as int),
    {
        let n = self.array.cell_count();
        let requested = f(n);
        proof {
            lemma_entry_count_parts(self.array.cells@);
            match &self.old_array {
                Some(o) => lemma_entry_count_parts(o.cells@),
                None => (),
            }
            assert(self.array.entry_count() <= self.entry_count());
        }
        let cur = self.estimate_generation_cur(requested);
        let older = match &self.old_array {
            Some(o) => {
                let mut sc = requested;
                let no = o.cell_count();
                if sc < 1 {
                    sc = 1;
                }
                if sc > no {
                    sc = no;
                }
                let sum = o.sampled_prefix(sc);
                let ratio = no / sc;
                proof {
                    assert((sum as u128) * (ratio as u128)
                        < 0xffff_ffff_ffff_ffff_ffff_ffff_ffff_ffffu128) by (nonlinear_arith)
                        requires
                            0 <= sum as u128 <= 0xffff_ffff_ffff_ffffu128,
                            0 <= ratio as u128 <= 0xffff_ffff_ffff_ffffu128,
                    {
                    }
                }
                let wide: u128 = (sum as u128) * (ratio as u128);
                if wide > usize::MAX as u128 {
                    usize::MAX
                } else {
                    wide as usize
                }
            },
            None => 0,
        };
        let estimated = if cur <= usize::MAX - older {
            cur + older
        } else {
            usize::MAX
        };
        proof {
            assert(estimated as int == self.spec_len_estimate_total(requested as int));
            assert(call_ensures(f, (self.array.cells@.len() as usize,), requested));
            assert(exists|sc: usize|
                #[trigger] call_ensures(f, (self.array.cells@.len() as usize,), sc) && estimated
                    as int == self.spec_len_estimate_total(sc as int));
        }
        estimated
    }

    /// The per-generation estimate of the current generation.
    fn estimate_generation_cur(&self, requested: usize) -> (r: usize)
        requires
            self.array.num_cells() >= 1,
            self.array.entry_count() <= usize::MAX,
        ensures
            r as int == spec_len_estimate(self.array, requested as int),
    {
        let n = self.array.cell_count();
        let mut sc = requested;
        if sc < 1 {
            sc = 1;
        }
        if sc > n {
            sc = n;
        }
        proof {
            lemma_entry_count_parts(self.array.cells@);
        }
        let sum = self.sample_entries(sc);
        let ratio = n / sc;
        proof {
            assert((sum as u128) * (ratio as u128) < 0xffff_ffff_ffff_ffff_ffff_ffff_ffff_ffffu128)
                by (nonlinear_arith)
                requires
                    0 <= sum as u128 <= 0xffff_ffff_ffff_ffffu128,
                    0 <= ratio as u128 <= 0xffff_ffff_ffff_ffffu128,
            {
            }
        }
        let wide: u128 = (sum as u128) * (ratio as u128);
        if wide > usize::MAX as u128 {
            usize::MAX
        } else {
            wide as usize
        }
    }

    /// Whether the snapshot holds an entry for `q`.
    pub open spec fn snapshot_has(acc: Seq<(K, V)>, q: K) -> bool {
        exists|j: int| 0 <= j < acc.len() && (#[trigger] acc[j]).0 == q
    }

    /// Every snapshot pair is a stored pair with its stored value.
    pub open spec fn snapshot_sound(self, acc: Seq<(K, V)>) -> bool {
        forall|j: int|
            0 <= j < acc.len() ==> self.contains((#[trigger] acc[j]).0) && self.lookup(acc[j].0)
                == Some(acc[j].1)
    }

    /// The snapshot holds no key twice.
    pub open spec fn snapshot_keys_distinct(acc: Seq<(K, V)>) -> bool {
        forall|j1: int, j2: int|
            0 <= j1 < j2 < acc.len() ==> (#[trigger] acc[j1]).0 != (#[trigger] acc[j2]).0
    }

    /// What appending one whole current cell does to a snapshot: soundness,
    /// distinctness and coverage of that cell all hold afterwards.
    #[verifier::rlimit(100)]
    #[verifier::spinoff_prover]
    proof fn lemma_snapshot_cell_post(pre: Self, i: int, base: Seq<(K, V)>, full: Seq<(K, V)>)
        requires
            pre.wf(),
            0 <= i < pre.array.num_cells(),
            pre.snapshot_sound(base),
            Self::snapshot_keys_distinct(base),
            forall|j: int|
                0 <= j < base.len() ==> pre.in_current((#[trigger] base[j]).0)
                    && pre.array.spec_cell_index(pre.hf()(base[j].0)) < i,
            full.len() == base.len() + pre.array.cells@[i].entries@.len(),
            forall|j: int| 0 <= j < base.len() ==> full[j] == base[j],
            forall|jj: int|
                0 <= jj < pre.array.cells@[i].entries@.len() ==> (#[trigger] full[base.len() + jj])
                    == (pre.array.cells@[i].entries@[jj].key, pre.array.cells@[i].entries@[jj].value),
        ensures
            pre.snapshot_sound(full),
            Self::snapshot_keys_distinct(full),
            forall|j: int|
                base.len() <= j < full.len() ==> pre.in_current((#[trigger] full[j]).0)
                    && pre.array.spec_cell_index(pre.hf()(full[j].0)) == i,
            forall|q: K|
                #[trigger] pre.in_current(q) && pre.array.spec_cell_index(pre.hf()(q)) == i
                    ==> Self::snapshot_has(full, q),
    {
        let hf = pre.hf();
        let cell = pre.array.cells@[i].entries@;
        assert(pre.array.cells@[i].wf(hf, i, pre.array.num_cells()));
        assert forall|j2: int|
            base.len() <= j2 < full.len() implies pre.in_current((#[trigger] full[j2]).0)
            && pre.array.spec_cell_index(hf(full[j2].0)) == i && pre.lookup(full[j2].0) == Some(
            full[j2].1,
        ) by {
            let jj = j2 - base.len();
            assert(full[base.len() + jj] == (cell[jj].key, cell[jj].value));
            assert(full[j2] == (cell[jj].key, cell[jj].value));
            assert(hf(cell[jj].key) as int % pre.array.num_cells() == i);
            assert(pre.in_current(cell[jj].key));
            assert(!pre.in_old(cell[jj].key));
            assert forall|j3: int|
                0 <= j3 < cell.len() && (#[trigger] cell[j3]).key == cell[jj].key implies j3
                == jj by {
                if j3 < jj {
                    assert(cell[j3].key != cell[jj].key);
                } else if j3 > jj {
                    assert(cell[jj].key != cell[j3].key);
                }
            }
            assert(pre.lookup_value(cell[jj].key) == cell[jj].value);
        }
        assert(pre.snapshot_sound(full));
        assert forall|j1: int, j2: int|
            0 <= j1 < j2 < full.len() implies (#[trigger] full[j1]).0 != (#[trigger] full[j2]).0 by {
            if j2 < base.len() {
                assert(full[j1] == base[j1] && full[j2] == base[j2]);
            } else if j1 < base.len() {
                assert(full[j1] == base[j1]);
                assert(pre.array.spec_cell_index(hf(full[j1].0)) < i);
                assert(pre.array.spec_cell_index(hf(full[j2].0)) == i);
            } else {
                let a = j1 - base.len();
                let b = j2 - base.len();
                assert(full[base.len() + a] == (cell[a].key, cell[a].value));
                assert(full[base.len() + b] == (cell[b].key, cell[b].value));
                assert(cell[a].key != cell[b].key);
            }
        }
        assert forall|q: K|
            #[trigger] pre.in_current(q) && pre.array.spec_cell_index(hf(q)) == i implies
            Self::snapshot_has(full, q) by {
            let jj = choose|jj: int| 0 <= jj < cell.len() && (#[trigger] cell[jj]).key == q;
            assert(full[base.len() + jj] == (cell[jj].key, cell[jj].value));
            assert(full[base.len() + jj].0 == q);
        }
    }

    /// Appends every entry of current cell `i` to the snapshot, given that the
    /// snapshot so far holds exactly keys of earlier current cells.
    #[verifier::rlimit(100)]
    #[verifier::spinoff_prover]
    fn snapshot_cell(&self, i: usize, acc: &mut Vec<(K, V)>)
        requires
            self.wf(),
            (i as int) < self.array.num_cells(),
            self.snapshot_sound(old(acc)@),
            Self::snapshot_keys_distinct(old(acc)@),
            forall|j: int|
                0 <= j < old(acc)@.len() ==> self.in_current((#[trigger] old(acc)@[j]).0)
                    && self.array.spec_cell_index(self.hf()(old(acc)@[j].0)) < i as int,
        ensures
            final(acc)@.len() >= old(acc)@.len(),
            forall|j: int| 0 <= j < old(acc)@.len() ==> final(acc)@[j] == old(acc)@[j],
            self.snapshot_sound(final(acc)@),
            Self::snapshot_keys_distinct(final(acc)@),
            forall|j: int|
                old(acc)@.len() <= j < final(acc)@.len() ==> self.in_current(
                    (#[trigger] final(acc)@[j]).0,
                ) && self.array.spec_cell_index(self.hf()(final(acc)@[j].0)) == i as int,
            forall|q: K|
                #[trigger] self.in_current(q) && self.array.spec_cell_index(self.hf()(q))
                    == i as int ==> Self::snapshot_has(final(acc)@, q),
    {
        let ghost base = old(acc)@;
        let ghost cell = self.array.cells@[i as int].entries@;
        let ghost hf = self.hf();
        let m = self.array.cells[i].num_entries();
        let mut j: usize = 0;
        while j < m
            invariant
                self.wf(),
                (i as int) < self.array.num_cells(),
                j <= m,
                m == self.array.cells@[i as int].entries@.len(),
                cell == self.array.cells@[i as int].entries@,
                acc@.len() == base.len() + j as int,
                forall|t: int| 0 <= t < base.len() ==> acc@[t] == base[t],
                forall|jj: int|
                    0 <= jj < j as int ==> (#[trigger] acc@[base.len() + jj]) == (
                    cell[jj].key,
                    cell[jj].value,
                ),
            decreases m - j,
        {
            let pair = {
                let c = &self.array.cells[i];
                let e = &c.entries[j];
                (e.key.clone_key(), e.value.clone_value())
            };
            acc.push(pair);
            j += 1;
        }
        proof {
            Self::lemma_snapshot_cell_post(*self, i as int, base, acc@);
        }
    }

    /// What appending one whole old cell does to a snapshot: soundness,
    /// distinctness and coverage of that old cell all hold afterwards.
    #[verifier::rlimit(100)]
    #[verifier::spinoff_prover]
    proof fn lemma_snapshot_old_cell_post(
        pre: Self,
        o: Table<K, V>,
        oi: int,
        base: Seq<(K, V)>,
        full: Seq<(K, V)>,
    )
        requires
            pre.wf(),
            pre.old_array == Some(o),
            0 <= oi < o.num_cells(),
            pre.snapshot_sound(base),
            Self::snapshot_keys_distinct(base),
            forall|j: int|
                0 <= j < base.len() ==> pre.in_current((#[trigger] base[j]).0) || (pre.in_old(
                    base[j].0,
                ) && o.spec_cell_index(pre.hf()(base[j].0)) < oi),
            full.len() == base.len() + o.cells@[oi].entries@.len(),
            forall|j: int| 0 <= j < base.len() ==> full[j] == base[j],
            forall|jj: int|
                0 <= jj < o.cells@[oi].entries@.len() ==> (#[trigger] full[base.len() + jj]) == (
                o.cells@[oi].entries@[jj].key,
                o.cells@[oi].entries@[jj].value,
                ),
        ensures
            pre.snapshot_sound(full),
            Self::snapshot_keys_distinct(full),
            forall|j: int|
                base.len() <= j < full.len() ==> pre.in_old((#[trigger] full[j]).0)
                    && o.spec_cell_index(pre.hf()(full[j].0)) == oi,
            forall|q: K|
                #[trigger] pre.in_old(q) && o.spec_cell_index(pre.hf()(q)) == oi
                    ==> Self::snapshot_has(full, q),
    {
        let hf = pre.hf();
        let cell = o.cells@[oi].entries@;
        assert(o.cells@[oi].wf(hf, oi, o.num_cells()));
        assert forall|j2: int|
            base.len() <= j2 < full.len() implies pre.in_old((#[trigger] full[j2]).0)
            && o.spec_cell_index(hf(full[j2].0)) == oi && !pre.in_current(full[j2].0) && pre.lookup(
            full[j2].0,
        ) == Some(full[j2].1) by {
            let jj = j2 - base.len();
            assert(full[base.len() + jj] == (cell[jj].key, cell[jj].value));
            assert(full[j2] == (cell[jj].key, cell[jj].value));
            assert(hf(cell[jj].key) as int % o.num_cells() == oi);
            assert(pre.in_old(cell[jj].key));
            assert(!pre.in_current(cell[jj].key));
            assert forall|j3: int|
                0 <= j3 < cell.len() && (#[trigger] cell[j3]).key == cell[jj].key implies j3
                == jj by {
                if j3 < jj {
                    assert(cell[j3].key != cell[jj].key);
                } else if j3 > jj {
                    assert(cell[jj].key != cell[j3].key);
                }
            }
            assert(pre.lookup_value(cell[jj].key) == cell[jj].value);
        }
        assert(pre.snapshot_sound(full));
        assert forall|j1: int, j2: int|
            0 <= j1 < j2 < full.len() implies (#[trigger] full[j1]).0 != (#[trigger] full[j2]).0 by {
            if j2 < base.len() {
                assert(full[j1] == base[j1] && full[j2] == base[j2]);
            } else if j1 < base.len() {
                assert(full[j1] == base[j1]);
                if pre.in_current(full[j1].0) {
                    assert(!pre.in_current(full[j2].0));
                } else {
                    assert(o.spec_cell_index(hf(full[j1].0)) < oi);
                    assert(o.spec_cell_index(hf(full[j2].0)) == oi);
                }
            } else {
                let a = j1 - base.len();
                let b = j2 - base.len();
                assert(full[base.len() + a] == (cell[a].key, cell[a].value));
                assert(full[base.len() + b] == (cell[b].key, cell[b].value));
                assert(cell[a].key != cell[b].key);
            }
        }
        assert forall|q: K|
            #[trigger] pre.in_old(q) && o.spec_cell_index(hf(q)) == oi implies Self::snapshot_has(
            full,
            q,
        ) by {
            let jj = choose|jj: int| 0 <= jj < cell.len() && (#[trigger] cell[jj]).key == q;
            assert(full[base.len() + jj] == (cell[jj].key, cell[jj].value));
            assert(full[base.len() + jj].0 == q);
        }
    }

    /// Appends every entry of old cell `oi` to the snapshot, given that the
    /// snapshot so far holds current-generation keys and keys of earlier old
    /// cells.
    #[verifier::rlimit(100)]
    #[verifier::spinoff_prover]
    fn snapshot_old_cell(&self, o: &Table<K, V>, oi: usize, acc: &mut Vec<(K, V)>)
        requires
            self.wf(),
            self.old_array == Some(*o),
            (oi as int) < o.num_cells(),
            self.snapshot_sound(old(acc)@),
            Self::snapshot_keys_distinct(old(acc)@),
            forall|j: int|
                0 <= j < old(acc)@.len() ==> self.in_current((#[trigger] old(acc)@[j]).0) || (
                self.in_old(old(acc)@[j].0) && o.spec_cell_index(self.hf()(old(acc)@[j].0))
                    < oi as int),
        ensures
            final(acc)@.len() >= old(acc)@.len(),
            forall|j: int| 0 <= j < old(acc)@.len() ==> final(acc)@[j] == old(acc)@[j],
            self.snapshot_sound(final(acc)@),
            Self::snapshot_keys_distinct(final(acc)@),
            forall|j: int|
                old(acc)@.len() <= j < final(acc)@.len() ==> self.in_old(
                    (#[trigger] final(acc)@[j]).0,
                ) && o.spec_cell_index(self.hf()(final(acc)@[j].0)) == oi as int,
            forall|q: K|
                #[trigger] self.in_old(q) && o.spec_cell_index(self.hf()(q)) == oi as int
                    ==> Self::snapshot_has(final(acc)@, q),
    {
        let ghost base = old(acc)@;
        let ghost cell = o.cells@[oi as int].entries@;
        let ghost hf = self.hf();
        let m = o.cells[oi].num_entries();
        let mut j: usize = 0;
        while j < m
            invariant
                self.wf(),
                self.old_array == Some(*o),
                (oi as int) < o.num_cells(),
                j <= m,
                m == o.cells@[oi as int].entries@.len(),
                cell == o.cells@[oi as int].entries@,
                acc@.len() == base.len() + j as int,
                forall|t: int| 0 <= t < base.len() ==> acc@[t] == base[t],
                forall|jj: int|
                    0 <= jj < j as int ==> (#[trigger] acc@[base.len() + jj]) == (
                    cell[jj].key,
                    cell[jj].value,
                ),
            decreases m - j,
        {
            let pair = {
                let c = &o.cells[oi];
                let e = &c.entries[j];
                (e.key.clone_key(), e.value.clone_value())
            };
            acc.push(pair);
            j += 1;
        }
        proof {
            Self::lemma_snapshot_old_cell_post(*self, *o, oi as int, base, acc@);
        }
    }

    /// Starts a traversal: takes a snapshot of the live entries, over both
    /// generations. Every stored pair is delivered with its stored value,
    /// every stored key appears, and no key appears twice; the order is
    /// unspecified.
    #[verifier::rlimit(100)]
    #[verifier::spinoff_prover]
    pub fn iter(&self) -> (v: Visitor<K, V>)
        requires
            self.wf(),
        ensures
            v.pos == 0,
            forall|j: int|
                0 <= j < v.entries@.len() ==> self.contains((#[trigger] v.entries@[j]).0)
                    && self.lookup(v.entries@[j].0) == Some(v.entries@[j].1),
            forall|q: K| #[trigger] self.contains(q) ==> Self::snapshot_has(v.entries@, q),
            Self::snapshot_keys_distinct(v.entries@),
    {
        let ghost hf = self.hf();
        let mut acc: Vec<(K, V)> = Vec::new();
        let n = self.array.cell_count();
        let mut i: usize = 0;
        while i < n
            invariant
                self.wf(),
                i <= n,
                n as int == self.array.num_cells(),
                self.snapshot_sound(acc@),
                Self::snapshot_keys_distinct(acc@),
                forall|j: int|
                    0 <= j < acc@.len() ==> self.in_current((#[trigger] acc@[j]).0)
                        && self.array.spec_cell_index(self.hf()(acc@[j].0)) < i as int,
                forall|q: K|
                    #[trigger] self.in_current(q) && self.array.spec_cell_index(self.hf()(q))
                        < i as int ==> Self::snapshot_has(acc@, q),
            decreases n - i,
        {
            let ghost before = acc@;
            self.snapshot_cell(i, &mut acc);
            proof {
                // Earlier coverage persists: the snapshot only grew at the end.
                assert forall|q: K|
                    #[trigger] self.in_current(q) && self.array.spec_cell_index(self.hf()(q))
                        < i as int + 1 implies Self::snapshot_has(acc@, q) by {
                    if self.array.spec_cell_index(self.hf()(q)) < i as int {
                        let j = choose|j: int| 0 <= j < before.len() && (#[trigger] before[j]).0 == q;
                        assert(acc@[j] == before[j]);
                    }
                }
            }
            i += 1;
        }
        match &self.old_array {
            Some(o) => {
                let no = o.cell_count();
                let mut oi: usize = 0;
                while oi < no
                    invariant
                        self.wf(),
                        oi <= no,
                        self.old_array == Some(*o),
                        no as int == o.num_cells(),
                        self.snapshot_sound(acc@),
                        Self::snapshot_keys_distinct(acc@),
                        forall|j: int|
                            0 <= j < acc@.len() ==> self.in_current((#[trigger] acc@[j]).0) || (
                            self.in_old(acc@[j].0) && o.spec_cell_index(self.hf()(acc@[j].0))
                                < oi as int),
                        forall|q: K| #[trigger] self.in_current(q) ==> Self::snapshot_has(acc@, q),
                        forall|q: K|
                            #[trigger] self.in_old(q) && o.spec_cell_index(self.hf()(q))
                                < oi as int ==> Self::snapshot_has(acc@, q),
                    decreases no - oi,
                {
                    let ghost before = acc@;
                    self.snapshot_old_cell(o, oi, &mut acc);
                    proof {
                        assert forall|q: K|
                            #[trigger] self.in_current(q) implies Self::snapshot_has(acc@, q) by {
                            let j = choose|j: int|
                                0 <= j < before.len() && (#[trigger] before[j]).0 == q;
                            assert(acc@[j] == before[j]);
                        }
                        assert forall|q: K|
                            #[trigger] self.in_old(q) && o.spec_cell_index(self.hf()(q))
                                < oi as int + 1 implies Self::snapshot_has(acc@, q) by {
                            if o.spec_cell_index(self.hf()(q)) < oi as int {
                                let j = choose|j: int|
                                    0 <= j < before.len() && (#[trigger] before[j]).0 == q;
                                assert(acc@[j] == before[j]);
                            }
                        }
                    }
                    oi += 1;
                }
                proof {
                    assert forall|q: K| #[trigger] self.contains(q) implies Self::snapshot_has(
                        acc@,
                        q,
                    ) by {
                        if self.in_old(q) {
                            assert(o.spec_cell_index(self.hf()(q)) < no as int);
                        }
                    }
                }
            },
            None => {
                proof {
                    assert forall|q: K| #[trigger] self.contains(q) implies Self::snapshot_has(
                        acc@,
                        q,
                    ) by {
                        assert(self.in_current(q));
                        assert(self.array.spec_cell_index(self.hf()(q)) < n as int);
                    }
                }
            },
        }
        Visitor { entries: acc, pos: 0 }
    }

    /// The current total slot capacity of the index.
    pub fn capacity(&self) -> (r: usize)
        requires
            self.wf(),
        ensures
            r == self.array.spec_capacity(),
    {
        self.array.capacity()
    }

    /// The configured hash builder.
    pub fn hasher(&self) -> (r: &H)
        ensures
            r == self.build_hasher,
    {
        &self.build_hasher
    }
}

impl<V: IndexValue> Default for HashIndex<u64, V, DefaultHashBuilder> {
    /// Creates an index with the default capacity and the default builder.
    fn default() -> (r: Self)
        ensures
            r.wf(),
            forall|q: u64| #[trigger] r.lookup(q) == Option::<V>::None,
            r.entry_count() == 0,
            r.array.spec_capacity() == DEFAULT_CAPACITY,
    {
        let r = HashIndex::new(DEFAULT_CAPACITY, DefaultHashBuilder::new());
        proof {
            lemma_small_powers_of_two();
            lemma_least_pow2_exact(DEFAULT_CAPACITY as int);
        }
        r
    }
}

/// A traversal over the pairs stored at the moment it was created: each pair
/// present then is delivered exactly once, in unspecified order.
pub struct Visitor<K, V> {
    /// The snapshot of pairs still to deliver, from `pos` onward.
    pub entries: Vec<(K, V)>,
    /// How many pairs were already delivered.
    pub pos: usize,
}

impl<K: IndexKey, V: IndexValue> Visitor<K, V> {
    /// The pairs not yet delivered.
    pub open spec fn remaining(self) -> Seq<(K, V)> {
        self.entries@.subrange(self.pos as int, self.entries@.len() as int)
    }

    /// Delivers the next pair, or `None` at the end of the traversal.
    pub fn next(&mut self) -> (r: Option<(K, V)>)
        requires
            old(self).pos <= old(self).entries@.len(),
        ensures
            final(self).entries == old(self).entries,
            match r {
                Some(p) => {
                    &&& old(self).remaining().len() > 0
                    &&& p == old(self).remaining()[0]
                    &&& final(self).pos == old(self).pos + 1
                    &&& final(self).remaining() =~= old(self).remaining().subrange(
                        1,
                        old(self).remaining().len() as int,
                    )
                },
                None => {
                    &&& old(self).remaining().len() == 0
                    &&& *final(self) == *old(self)
                },
            },
    {
        if self.pos < self.entries.len() {
            let e = &self.entries[self.pos];
            let pair = (e.0.clone_key(), e.1.clone_value());
            self.pos += 1;
            proof {
                assert(pair == old(self).remaining()[0]);
            }
            Some(pair)
        } else {
            None
        }
    }
}

} // verus!
