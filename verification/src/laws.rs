//! General properties of the sieve, stated and proved once for all inputs.

use vstd::prelude::*;
use vstd::arithmetic::div_mod::{lemma_fundamental_div_mod, lemma_mod_division_less_than_divisor};
use vstd::arithmetic::mul::{lemma_mul_inequality, lemma_mul_nonnegative};
use crate::primality::{
    contains_val, is_prime, lemma_sorted_same_members, primes_exactly, sorted_strict,
};
use crate::sieve::{range_end, range_start};

verus! {

/// Two sequences that each list exactly the primes up to the same bound are
/// equal: the bound fixes the members, and strict ascent fixes their order.
pub proof fn lemma_primes_exactly_unique(a: Seq<usize>, b: Seq<usize>, bound: int)
    requires
        primes_exactly(a, bound),
        primes_exactly(b, bound),
    ensures
        a == b,
{
    assert forall|v: int| contains_val(a, v) <==> contains_val(b, v) by {
        if contains_val(a, v) {
            let i = choose|i: int| 0 <= i < a.len() && a[i] == v;
            assert(is_prime(a[i] as int) && a[i] <= bound);
            assert(contains_val(b, v));
        }
        if contains_val(b, v) {
            let i = choose|i: int| 0 <= i < b.len() && b[i] == v;
            assert(is_prime(b[i] as int) && b[i] <= bound);
            assert(contains_val(a, v));
        }
    }
    lemma_sorted_same_members(a, b);
}

/// The result of `compute_primes` does not depend on the thread count: its
/// postcondition determines the sequence from the limit alone, so any two
/// results for the same limit — whatever thread counts produced them — are
/// equal.
pub proof fn lemma_thread_count_independent(r1: Seq<usize>, r2: Seq<usize>, limit: int)
    requires
        primes_exactly(r1, limit),
        primes_exactly(r2, limit),
    ensures
        r1 == r2,
{
    lemma_primes_exactly_unique(r1, r2, limit);
}

/// Seeding is idempotent: above the base threshold the seed sequence for a
/// limit is the pipeline's own result on `s`, the ceiling square root of the
/// limit, so it equals the primes computed directly up to `s` — again for any
/// pair of thread counts.
pub proof fn lemma_seed_idempotent(seeds: Seq<usize>, direct: Seq<usize>, limit: int, s: int)
    requires
        limit > 230,
        s >= 1,
        s * s >= limit,
        (s - 1) * (s - 1) < limit,
        primes_exactly(seeds, s),
        primes_exactly(direct, s),
    ensures
        seeds == direct,
{
    lemma_primes_exactly_unique(seeds, direct, s);
}

/// Below 2 there are no primes, so the sieve's result is empty.
pub proof fn lemma_empty_below_two(r: Seq<usize>, limit: int)
    requires
        limit < 2,
        primes_exactly(r, limit),
    ensures
        r.len() == 0,
{
    if r.len() > 0 {
        assert(is_prime(r[0] as int) && r[0] <= limit);
    }
}

/// `n` falls inside some worker share of `[lo, hi)` split `threads` ways.
pub open spec fn covered_by_some_share(lo: int, hi: int, threads: int, n: int) -> bool {
    exists|i: int|
        0 <= i < threads
        && #[trigger] range_start(lo, (hi - lo) / threads, i) <= n
        && n < range_end(lo, hi, (hi - lo) / threads, threads, i)
}

/// Work ranges partition `[lo, hi)`: the first share starts at `lo`, each
/// share ends where the next begins, shares never run backwards, the last
/// share ends exactly at `hi`, and every value of `[lo, hi)` falls in some
/// share. Together with the seed range `[0, lo)` the shares therefore cover
/// `[0, hi)` with no gap and no overlap.
pub proof fn lemma_partition_coverage(lo: int, hi: int, threads: int)
    requires
        1 <= threads,
        lo <= hi,
    ensures
        range_start(lo, (hi - lo) / threads, 0) == lo,
        range_end(lo, hi, (hi - lo) / threads, threads, threads - 1) == hi,
        forall|i: int| 0 <= i < threads - 1 ==>
            #[trigger] range_end(lo, hi, (hi - lo) / threads, threads, i)
                == range_start(lo, (hi - lo) / threads, i + 1),
        forall|i: int| 0 <= i < threads ==>
            #[trigger] range_start(lo, (hi - lo) / threads, i)
                <= range_end(lo, hi, (hi - lo) / threads, threads, i),
        forall|n: int| lo <= n < hi ==> #[trigger] covered_by_some_share(lo, hi, threads, n),
{
    let spacing = (hi - lo) / threads;
    lemma_fundamental_div_mod(hi - lo, threads);
    lemma_mod_division_less_than_divisor(hi - lo, threads);
    assert(spacing >= 0) by (nonlinear_arith)
        requires
            threads >= 1,
            hi - lo >= 0,
            hi - lo == threads * spacing + (hi - lo) % threads,
            (hi - lo) % threads < threads;
    assert(threads * spacing <= hi - lo);

    assert forall|i: int| 0 <= i < threads implies
        #[trigger] range_start(lo, spacing, i) <= range_end(lo, hi, spacing, threads, i) by {
        lemma_mul_nonnegative(i, spacing);
        if i == threads - 1 {
            lemma_mul_inequality(i, threads, spacing);
            assert(i * spacing <= threads * spacing);
        } else {
            assert((i + 1) * spacing == i * spacing + spacing) by (nonlinear_arith);
        }
    }

    assert forall|n: int| lo <= n < hi implies covered_by_some_share(lo, hi, threads, n) by {
        if spacing == 0 {
            let i = threads - 1;
            lemma_mul_nonnegative(i, spacing);
            assert(i * spacing == 0) by (nonlinear_arith)
                requires spacing == 0;
            assert(range_start(lo, spacing, i) <= n
                && n < range_end(lo, hi, spacing, threads, i));
        } else {
            lemma_fundamental_div_mod(n - lo, spacing);
            lemma_mod_division_less_than_divisor(n - lo, spacing);
            let q = (n - lo) / spacing;
            assert(n - lo == spacing * q + (n - lo) % spacing);
            assert(q >= 0) by (nonlinear_arith)
                requires
                    spacing >= 1,
                    n - lo >= 0,
                    n - lo == spacing * q + (n - lo) % spacing,
                    (n - lo) % spacing < spacing;
            if q >= threads - 1 {
                let i = threads - 1;
                assert((threads - 1) * spacing <= spacing * q) by (nonlinear_arith)
                    requires spacing >= 1, threads - 1 <= q;
                assert(range_start(lo, spacing, i) <= n
                    && n < range_end(lo, hi, spacing, threads, i));
            } else {
                let i = q;
                assert((q + 1) * spacing == q * spacing + spacing) by (nonlinear_arith);
                assert(range_start(lo, spacing, i) <= n
                    && n < range_end(lo, hi, spacing, threads, i));
            }
        }
    }
}

/// Shares never overlap: an earlier share ends no later than a later one
/// begins.
pub proof fn lemma_partition_disjoint(lo: int, hi: int, threads: int, i: int, j: int)
    requires
        1 <= threads,
        lo <= hi,
        0 <= i < j < threads,
    ensures
        range_end(lo, hi, (hi - lo) / threads, threads, i)
            <= range_start(lo, (hi - lo) / threads, j),
{
    let spacing = (hi - lo) / threads;
    lemma_fundamental_div_mod(hi - lo, threads);
    lemma_mod_division_less_than_divisor(hi - lo, threads);
    assert(spacing >= 0) by (nonlinear_arith)
        requires
            threads >= 1,
            hi - lo >= 0,
            hi - lo == threads * spacing + (hi - lo) % threads,
            (hi - lo) % threads < threads;
    assert((i + 1) * spacing <= j * spacing) by (nonlinear_arith)
        requires i + 1 <= j, spacing >= 0;
}

} // verus!