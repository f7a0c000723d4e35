//! Resize policy: the arithmetic that decides the next capacity of the table
//! from the current capacity, a sampled entry-count estimate, and the
//! configured minimum capacity.
//!
//! Growth rule: at an estimated load of at least 7/8 the table grows — it
//! doubles on a marginal overflow (estimate at most 9/8 of capacity), and
//! otherwise jumps to twice the next power of two above the estimate, capped
//! so a single resize multiplies capacity by at most `2^MAX_RESIZING_FACTOR`
//! and never exceeds `MAX_CAPACITY`. Shrink rule: at an estimated load of at
//! most 1/8 the table shrinks to the next power of two holding the estimate,
//! floored at the minimum capacity. Otherwise the capacity stands.

use vstd::prelude::*;

verus! {

/// The capacity used when none is requested, and the floor under every
/// configured minimum capacity.
pub const DEFAULT_CAPACITY: usize = 64;

/// Entries a cell holds before an insert into it signals a resize.
pub const CELL_SIZE: usize = 32;

/// A single resize multiplies the capacity by at most `2^MAX_RESIZING_FACTOR`.
pub const MAX_RESIZING_FACTOR: usize = 6;

/// `2^MAX_RESIZING_FACTOR`: the largest factor a single resize may apply.
pub const GROWTH_LIMIT: usize = 64;

/// The largest representable capacity: half the address-width range.
pub const MAX_CAPACITY: usize = usize::MAX / 2 + 1;

/// Whether `n` is a power of two.
pub open spec fn is_power_of_two(n: int) -> bool
    decreases n,
{
    if n <= 0 {
        false
    } else if n == 1 {
        true
    } else {
        n % 2 == 0 && is_power_of_two(n / 2)
    }
}

/// The least power of two that is at least `n` (and at least one).
pub open spec fn least_pow2_at_least(n: int) -> int
    decreases (if n <= 1 { 0int } else { n }),
{
    if n <= 1 {
        1
    } else {
        2 * least_pow2_at_least((n + 1) / 2)
    }
}

/// `least_pow2_at_least` returns a power of two, at least `n`, and below `2n`.
pub proof fn lemma_least_pow2_at_least(n: int)
    ensures
        least_pow2_at_least(n) >= 1,
        least_pow2_at_least(n) >= n,
        is_power_of_two(least_pow2_at_least(n)),
        n >= 1 ==> least_pow2_at_least(n) < 2 * n,
    decreases (if n <= 1 { 0int } else { n }),
{
    if n <= 1 {
        assert(is_power_of_two(1));
    } else {
        let m = (n + 1) / 2;
        lemma_least_pow2_at_least(m);
        let l = least_pow2_at_least(m);
        assert(least_pow2_at_least(n) == 2 * l);
        assert(is_power_of_two(2 * l));
        if 2 * l < 2 * n {
        } else {
            // l >= n together with l < 2m <= n + 1 forces l == n, and a power
            // of two above one is even while n here would have to be odd.
            assert(l == n);
            assert(n % 2 == 0 && is_power_of_two(n / 2));
            assert(2 * m == n + 1);
            assert(false);
        }
    }
}

/// `least_pow2_at_least` is monotone.
pub proof fn lemma_least_pow2_monotone(a: int, b: int)
    requires
        a <= b,
    ensures
        least_pow2_at_least(a) <= least_pow2_at_least(b),
    decreases (if b <= 1 { 0int } else { b }),
{
    if b <= 1 {
    } else if a <= 1 {
        lemma_least_pow2_at_least(b);
    } else {
        lemma_least_pow2_monotone((a + 1) / 2, (b + 1) / 2);
    }
}

/// On a power of two, `least_pow2_at_least` is the identity.
pub proof fn lemma_least_pow2_exact(p: int)
    requires
        is_power_of_two(p),
    ensures
        least_pow2_at_least(p) == p,
    decreases p,
{
    if p == 1 {
    } else {
        assert(p % 2 == 0 && is_power_of_two(p / 2));
        lemma_least_pow2_exact(p / 2);
        assert((p + 1) / 2 == p / 2);
    }
}

/// A smaller power of two divides a larger one, with a power-of-two quotient
/// of at least two.
pub proof fn lemma_pow2_divides(a: int, b: int)
    requires
        is_power_of_two(a),
        is_power_of_two(b),
        a < b,
    ensures
        exists|k: int|
            {
                &&& b == a * k
                &&& k >= 2
                &&& is_power_of_two(k)
            },
    decreases b,
{
    if a == 1 {
        assert(b == 1 * b && b >= 2 && is_power_of_two(b));
    } else {
        assert(a % 2 == 0 && is_power_of_two(a / 2));
        assert(b % 2 == 0 && is_power_of_two(b / 2));
        lemma_pow2_divides(a / 2, b / 2);
        let k = choose|k: int|
            {
                &&& b / 2 == (a / 2) * k
                &&& k >= 2
                &&& is_power_of_two(k)
            };
        assert(b == a * k) by (nonlinear_arith)
            requires
                b / 2 == (a / 2) * k,
                a % 2 == 0,
                b % 2 == 0,
                a == 2 * (a / 2),
                b == 2 * (b / 2),
        {
        }
        assert(b == a * k && k >= 2 && is_power_of_two(k));
    }
}

/// The next capacity, as a mathematical function of the current capacity, the
/// estimated entry count, and the configured minimum capacity.
pub open spec fn spec_next_capacity(capacity: int, estimated: int, minimum: int) -> int {
    let max = MAX_CAPACITY as int;
    if estimated >= capacity / 8 * 7 {
        if capacity > max / 2 {
            // The ceiling is reached: the capacity cannot be increased.
            capacity
        } else if estimated <= capacity / 8 * 9 {
            // The estimate exceeds the capacity only marginally: double.
            2 * capacity
        } else {
            // Jump to twice the least power of two holding the estimate,
            // capped at a growth factor of GROWTH_LIMIT.
            let cand = 2 * least_pow2_at_least(
                if estimated < max / 2 { estimated } else { max / 2 },
            );
            if cand / capacity > GROWTH_LIMIT as int {
                capacity * GROWTH_LIMIT as int
            } else {
                cand
            }
        }
    } else if estimated <= capacity / 8 {
        // Shrink to fit, never below the minimum capacity.
        let shrunk = least_pow2_at_least(estimated);
        if shrunk > minimum {
            shrunk
        } else {
            minimum
        }
    } else {
        capacity
    }
}

/// A single resize never multiplies the capacity by more than
/// `2^MAX_RESIZING_FACTOR`, never lowers it below the minimum capacity, and
/// always lands on a power of two no larger than `MAX_CAPACITY`.
pub proof fn lemma_next_capacity_bounds(capacity: int, estimated: int, minimum: int)
    requires
        is_power_of_two(capacity),
        is_power_of_two(minimum),
        DEFAULT_CAPACITY as int <= minimum <= capacity <= MAX_CAPACITY as int,
        estimated >= 0,
    ensures
        minimum <= spec_next_capacity(capacity, estimated, minimum),
        spec_next_capacity(capacity, estimated, minimum) <= capacity * GROWTH_LIMIT as int,
        spec_next_capacity(capacity, estimated, minimum) <= MAX_CAPACITY as int,
        is_power_of_two(spec_next_capacity(capacity, estimated, minimum)),
{
    let max = MAX_CAPACITY as int;
    let r = spec_next_capacity(capacity, estimated, minimum);
    lemma_small_powers_of_two();
    assert(capacity >= 64 && capacity % 2 == 0 && is_power_of_two(capacity / 2));
    if estimated >= capacity / 8 * 7 {
        if capacity > max / 2 {
            assert(r == capacity);
            assert(capacity <= capacity * 64) by (nonlinear_arith)
                requires
                    capacity >= 0,
            {
            }
        } else if estimated <= capacity / 8 * 9 {
            assert(r == 2 * capacity);
            assert(is_power_of_two(2 * capacity));
            assert(2 * capacity <= capacity * 64) by (nonlinear_arith)
                requires
                    capacity >= 0,
            {
            }
        } else {
            let clipped = if estimated < max / 2 { estimated } else { max / 2 };
            let l = least_pow2_at_least(clipped);
            let cand = 2 * l;
            lemma_least_pow2_at_least(clipped);
            lemma_least_pow2_monotone(clipped, max / 2);
            lemma_least_pow2_exact(max / 2);
            assert(l <= max / 2);
            assert(is_power_of_two(cand));
            // The estimate strictly exceeds 9/8 of the capacity here, so the
            // candidate is above the doubled capacity.
            assert(capacity / 8 * 9 > capacity);
            assert(l >= capacity);
            assert(cand >= 2 * capacity);
            if cand / capacity > GROWTH_LIMIT as int {
                assert(r == capacity * 64);
                assert(is_power_of_two(2 * capacity));
                assert(is_power_of_two(4 * capacity));
                assert(is_power_of_two(8 * capacity));
                assert(is_power_of_two(16 * capacity));
                assert(is_power_of_two(32 * capacity));
                assert(is_power_of_two(64 * capacity));
                assert(capacity * 64 == 64 * capacity) by (nonlinear_arith) {
                }
                // The capped result stays under the candidate, hence under max.
                lemma_pow2_divides(capacity, cand);
                let k = choose|k: int|
                    {
                        &&& cand == capacity * k
                        &&& k >= 2
                        &&& is_power_of_two(k)
                    };
                assert(cand / capacity == k) by (nonlinear_arith)
                    requires
                        cand == capacity * k,
                        capacity > 0,
                {
                }
                assert(capacity * 64 <= capacity * k) by (nonlinear_arith)
                    requires
                        k > 64,
                        capacity > 0,
                {
                }
            } else {
                assert(r == cand);
                lemma_pow2_divides(capacity, cand);
                let k = choose|k: int|
                    {
                        &&& cand == capacity * k
                        &&& k >= 2
                        &&& is_power_of_two(k)
                    };
                assert(cand / capacity == k) by (nonlinear_arith)
                    requires
                        cand == capacity * k,
                        capacity > 0,
                {
                }
                assert(cand <= capacity * 64) by (nonlinear_arith)
                    requires
                        cand == capacity * k,
                        k <= 64,
                        capacity > 0,
                {
                }
            }
        }
    } else if estimated <= capacity / 8 {
        let shrunk = least_pow2_at_least(estimated);
        lemma_least_pow2_at_least(estimated);
        lemma_least_pow2_monotone(estimated, capacity / 8);
        assert(is_power_of_two(capacity / 8)) by {
            lemma_pow2_divides(8, capacity);
            let k = choose|k: int|
                {
                    &&& capacity == 8 * k
                    &&& k >= 2
                    &&& is_power_of_two(k)
                };
            assert(capacity / 8 == k) by (nonlinear_arith)
                requires
                    capacity == 8 * k,
            {
            }
        }
        lemma_least_pow2_exact(capacity / 8);
        assert(shrunk <= capacity / 8);
        assert(r <= capacity && r >= minimum && is_power_of_two(r));
        assert(capacity <= capacity * 64) by (nonlinear_arith)
            requires
                capacity >= 0,
        {
        }
    } else {
        assert(r == capacity);
        assert(capacity <= capacity * 64) by (nonlinear_arith)
            requires
                capacity >= 0,
        {
        }
    }
}

/// Computes the least power of two that is at least `n`.
pub fn next_pow2(n: usize) -> (r: usize)
    requires
        n <= MAX_CAPACITY / 2,
    ensures
        r as int == least_pow2_at_least(n as int),
    decreases n,
{
    proof {
        lemma_least_pow2_at_least(n as int);
    }
    if n <= 1 {
        1
    } else {
        let m = next_pow2((n + 1) / 2);
        proof {
            lemma_least_pow2_at_least(((n + 1) / 2) as int);
        }
        2 * m
    }
}

/// Computes the next capacity from the current one, the sampled estimate, and
/// the minimum capacity; see [`spec_next_capacity`] for the exact rule and
/// [`lemma_next_capacity_bounds`] for its bounds.
pub fn next_capacity(capacity: usize, estimated: usize, minimum: usize) -> (r: usize)
    requires
        is_power_of_two(capacity as int),
        is_power_of_two(minimum as int),
        DEFAULT_CAPACITY <= minimum <= capacity <= MAX_CAPACITY,
    ensures
        r as int == spec_next_capacity(capacity as int, estimated as int, minimum as int),
        minimum <= r <= MAX_CAPACITY,
        r as int <= capacity as int * GROWTH_LIMIT as int,
        is_power_of_two(r as int),
{
    proof {
        lemma_next_capacity_bounds(capacity as int, estimated as int, minimum as int);
    }
    if estimated >= capacity / 8 * 7 {
        if capacity > MAX_CAPACITY / 2 {
            capacity
        } else if estimated <= capacity / 8 * 9 {
            2 * capacity
        } else {
            let clipped = if estimated < MAX_CAPACITY / 2 {
                estimated
            } else {
                MAX_CAPACITY / 2
            };
            let l = next_pow2(clipped);
            proof {
                lemma_least_pow2_at_least(clipped as int);
                lemma_least_pow2_monotone(clipped as int, (MAX_CAPACITY / 2) as int);
                lemma_small_powers_of_two();
                lemma_least_pow2_exact((MAX_CAPACITY / 2) as int);
            }
            let cand = 2 * l;
            if cand / capacity > GROWTH_LIMIT {
                capacity * GROWTH_LIMIT
            } else {
                cand
            }
        }
    } else if estimated <= capacity / 8 {
        let shrunk = next_pow2(estimated);
        if shrunk > minimum {
            shrunk
        } else {
            minimum
        }
    } else {
        capacity
    }
}

/// Small and large concrete powers of two, established once by chaining
/// the definition upward from one.
pub proof fn lemma_small_powers_of_two()
    ensures
        is_power_of_two(2),
        is_power_of_two(8),
        is_power_of_two(32),
        is_power_of_two(DEFAULT_CAPACITY as int),
        is_power_of_two(MAX_CAPACITY as int),
        is_power_of_two(MAX_CAPACITY as int / 2),
{
    assert(is_power_of_two(1));
    assert(is_power_of_two(2));
    assert(is_power_of_two(4));
    assert(is_power_of_two(8));
    assert(is_power_of_two(16));
    assert(is_power_of_two(32));
    assert(is_power_of_two(64));
    assert(is_power_of_two(128));
    assert(is_power_of_two(256));
    assert(is_power_of_two(512));
    assert(is_power_of_two(1024));
    assert(is_power_of_two(2048));
    assert(is_power_of_two(4096));
    assert(is_power_of_two(8192));
    assert(is_power_of_two(16384));
    assert(is_power_of_two(32768));
    assert(is_power_of_two(65536));
    assert(is_power_of_two(131072));
    assert(is_power_of_two(262144));
    assert(is_power_of_two(524288));
    assert(is_power_of_two(1048576));
    assert(is_power_of_two(2097152));
    assert(is_power_of_two(4194304));
    assert(is_power_of_two(8388608));
    assert(is_power_of_two(16777216));
    assert(is_power_of_two(33554432));
    assert(is_power_of_two(67108864));
    assert(is_power_of_two(134217728));
    assert(is_power_of_two(268435456));
    assert(is_power_of_two(536870912));
    assert(is_power_of_two(1073741824));
    assert(is_power_of_two(2147483648));
    assert(is_power_of_two(4294967296));
    assert(is_power_of_two(8589934592));
    assert(is_power_of_two(17179869184));
    assert(is_power_of_two(34359738368));
    assert(is_power_of_two(68719476736));
    assert(is_power_of_two(137438953472));
    assert(is_power_of_two(274877906944));
    assert(is_power_of_two(549755813888));
    assert(is_power_of_two(1099511627776));
    assert(is_power_of_two(2199023255552));
    assert(is_power_of_two(4398046511104));
    assert(is_power_of_two(8796093022208));
    assert(is_power_of_two(17592186044416));
    assert(is_power_of_two(35184372088832));
    assert(is_power_of_two(70368744177664));
    assert(is_power_of_two(140737488355328));
    assert(is_power_of_two(281474976710656));
    assert(is_power_of_two(562949953421312));
    assert(is_power_of_two(1125899906842624));
    assert(is_power_of_two(2251799813685248));
    assert(is_power_of_two(4503599627370496));
    assert(is_power_of_two(9007199254740992));
    assert(is_power_of_two(18014398509481984));
    assert(is_power_of_two(36028797018963968));
    assert(is_power_of_two(72057594037927936));
    assert(is_power_of_two(144115188075855872));
    assert(is_power_of_two(288230376151711744));
    assert(is_power_of_two(576460752303423488));
    assert(is_power_of_two(1152921504606846976));
    assert(is_power_of_two(2305843009213693952));
    assert(is_power_of_two(4611686018427387904));
    assert(is_power_of_two(0x8000000000000000));
    assert(usize::MAX == 0xffff_ffffusize as int || usize::MAX == 0xffff_ffff_ffff_ffffu64 as int);
    if usize::MAX == 0xffff_ffffusize as int {
        assert(MAX_CAPACITY as int == 0x80000000);
    } else {
        assert(MAX_CAPACITY as int == 0x8000000000000000);
    }
}

} // verus!
