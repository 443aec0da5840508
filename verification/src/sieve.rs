//! The segmented sieve: bootstrap, partitioning and the per-segment worker.

use vstd::prelude::*;
use vstd::arithmetic::div_mod::{lemma_fundamental_div_mod, lemma_mod_division_less_than_divisor, lemma_mod_multiples_basic};
use vstd::arithmetic::mul::{lemma_mul_inequality, lemma_mul_nonnegative};
use crate::primality::{is_prime, contains_val, sorted_strict, primes_exactly, coprime_to_all, coprime_upto, lemma_prime_survives, lemma_survivor_prime, lemma_small_primes};

verus! {

/// `r <= (n - 1) / r` decides `r * r < n` without any wide multiplication.
proof fn lemma_sq_vs_div(r: int, n: int)
    requires
        1 <= r,
        1 <= n,
    ensures
        (r <= (n - 1) / r) <==> (r * r < n),
{
    lemma_fundamental_div_mod(n - 1, r);
    lemma_mod_division_less_than_divisor(n - 1, r);
    let q = (n - 1) / r;
    let m = (n - 1) % r;
    assert(n - 1 == r * q + m);
    if r <= q {
        assert(r * r <= r * q) by (nonlinear_arith)
            requires r >= 1, r <= q;
        assert(r * r < n);
    }
    if r * r < n {
        assert(r <= q) by (nonlinear_arith)
            requires r >= 1, r * r <= r * q + m, m < r;
    }
}

/// True exactly when `r * r` is still below `n`.
fn sq_below(r: usize, n: usize) -> (b: bool)
    requires
        1 <= r,
        1 <= n,
    ensures
        b == ((r as int) * (r as int) < n as int),
{
    proof {
        lemma_sq_vs_div(r as int, n as int);
    }
    r <= (n - 1) / r
}

/// Smallest `r` with `r * r >= n`: the ceiling square root.
pub fn ceil_sqrt(n: usize) -> (r: usize)
    requires
        1 <= n,
    ensures
        1 <= r <= n,
        (r as int) * (r as int) >= n,
        ((r as int) - 1) * ((r as int) - 1) < n,
{
    let mut r: usize = 1;
    while sq_below(r, n)
        invariant
            1 <= r <= n,
            1 <= n,
            ((r as int) - 1) * ((r as int) - 1) < n,
        decreases n - r,
    {
        proof {
            assert(r < n) by (nonlinear_arith)
                requires 1 <= r, (r as int) * (r as int) < n;
        }
        r = r + 1;
    }
    r
}


/// A multiple of `p` at or above `lower` is at least the first such multiple.
proof fn lemma_least_multiple(p: int, lower: int, lolim: int, x: int)
    requires
        p >= 1,
        lolim % p == 0,
        x % p == 0,
        lower <= lolim < lower + p,
        lower <= x,
    ensures
        lolim <= x,
{
    lemma_fundamental_div_mod(lolim, p);
    lemma_fundamental_div_mod(x, p);
    let a = lolim / p;
    let b = x / p;
    assert(lolim == p * a && x == p * b);
    if x < lolim {
        assert(x <= lolim - p) by (nonlinear_arith)
            requires p >= 1, x < lolim, lolim == p * a, x == p * b;
        assert(false);
    }
}

/// Distinct multiples of `p` differ by at least `p`.
proof fn lemma_multiple_gap(p: int, j: int, x: int)
    requires
        p >= 1,
        j % p == 0,
        x % p == 0,
        j < x,
    ensures
        j + p <= x,
{
    lemma_fundamental_div_mod(j, p);
    lemma_fundamental_div_mod(x, p);
    assert(j + p <= x) by (nonlinear_arith)
        requires p >= 1, j < x, j == p * (j / p), x == p * (x / p);
}

/// Checking one more seed conjoins one more non-divisibility fact.
proof fn lemma_coprime_step(seeds: Seq<usize>, n: int, k: int)
    requires
        0 <= k < seeds.len(),
    ensures
        coprime_upto(seeds, n, k + 1) <==> (coprime_upto(seeds, n, k) && n % (seeds[k] as int) != 0),
{
    if coprime_upto(seeds, n, k) && n % (seeds[k] as int) != 0 {
        assert forall|i: int| 0 <= i < k + 1 && i < seeds.len()
            implies n % (#[trigger] seeds[i] as int) != 0 by {
            if i < k {
                assert(n % (seeds[i] as int) != 0);
            } else {
                assert(i == k);
            }
        }
        assert(coprime_upto(seeds, n, k + 1));
    }
    if coprime_upto(seeds, n, k + 1) {
        assert forall|i: int| 0 <= i < k && i < seeds.len()
            implies n % (#[trigger] seeds[i] as int) != 0 by {
            assert(0 <= i < k + 1);
        }
        assert(n % (seeds[k] as int) != 0);
    }
}

/// Past the last seed, `coprime_upto` is `coprime_to_all`.
proof fn lemma_coprime_full(seeds: Seq<usize>, n: int)
    ensures
        coprime_upto(seeds, n, seeds.len() as int) <==> coprime_to_all(seeds, n),
{
    if coprime_upto(seeds, n, seeds.len() as int) {
        assert forall|i: int| 0 <= i < seeds.len()
            implies n % (#[trigger] seeds[i] as int) != 0 by {
            assert(0 <= i < seeds.len() as int);
        }
    }
}

/// A fresh all-true marking array for one sub-segment.
fn fresh_marks(width: usize) -> (v: Vec<bool>)
    ensures
        v@.len() == width,
        forall|m: int| 0 <= m < width ==> #[trigger] v@[m],
{
    let mut v: Vec<bool> = Vec::new();
    let mut k: usize = 0;
    while k < width
        invariant
            k <= width,
            v@.len() == k,
            forall|m: int| 0 <= m < k ==> #[trigger] v@[m],
        decreases width - k,
    {
        v.push(true);
        k = k + 1;
    }
    v
}

/// One worker's share: walk the work range `[lowest_checked, highest_checked)`
/// in consecutive sub-segments of width at most `segment_size`, mark every
/// in-segment multiple of each seed prime on a fresh marking array, and
/// collect the survivors. The result lists, in ascending order, exactly the
/// values of the range that no seed divides.
pub fn eratosthenes_segment_thread(
    early_primes: &Vec<usize>,
    lowest_checked: usize,
    highest_checked: usize,
    segment_size: usize,
) -> (r: Vec<usize>)
    requires
        1 <= segment_size,
        segment_size <= usize::MAX as int / 2,
        highest_checked <= usize::MAX as int / 2,
        forall|i: int| 0 <= i < early_primes@.len() ==>
            2 <= #[trigger] early_primes@[i] && early_primes@[i] as int <= usize::MAX as int / 2,
    ensures
        sorted_strict(r@),
        forall|k: int| 0 <= k < r@.len() ==>
            lowest_checked <= #[trigger] r@[k] && r@[k] < highest_checked
            && coprime_to_all(early_primes@, r@[k] as int),
        forall|n: int| lowest_checked <= n < highest_checked
            && #[trigger] coprime_to_all(early_primes@, n) ==> contains_val(r@, n),
{
    let mut returned_primes: Vec<usize> = Vec::new();
    let mut lower = lowest_checked;

    while lower < highest_checked
        invariant
            lowest_checked <= lower,
            1 <= segment_size,
            segment_size <= usize::MAX as int / 2,
            highest_checked <= usize::MAX as int / 2,
            forall|i: int| 0 <= i < early_primes@.len() ==>
                2 <= #[trigger] early_primes@[i] && early_primes@[i] as int <= usize::MAX as int / 2,
            sorted_strict(returned_primes@),
            forall|k: int| 0 <= k < returned_primes@.len() ==>
                lowest_checked <= #[trigger] returned_primes@[k]
                && (returned_primes@[k] as int) < lower as int
                && returned_primes@[k] < highest_checked
                && coprime_to_all(early_primes@, returned_primes@[k] as int),
            forall|n: int| lowest_checked <= n < lower as int && n < highest_checked
                && #[trigger] coprime_to_all(early_primes@, n)
                ==> contains_val(returned_primes@, n),
        decreases highest_checked as int - lower as int,
    {
        let higher = if highest_checked - lower < segment_size {
            highest_checked
        } else {
            lower + segment_size
        };
        let width = higher - lower;
        let mut new_primes = fresh_marks(width);

        let mut i: usize = 0;
        while i < early_primes.len()
            invariant
                i <= early_primes@.len(),
                lower < higher,
                higher <= highest_checked,
                highest_checked <= usize::MAX as int / 2,
                width == higher - lower,
                forall|i2: int| 0 <= i2 < early_primes@.len() ==>
                    2 <= #[trigger] early_primes@[i2]
                    && early_primes@[i2] as int <= usize::MAX as int / 2,
                new_primes@.len() == width,
                forall|m: int| 0 <= m < width as int ==>
                    (#[trigger] new_primes@[m] <==>
                        coprime_upto(early_primes@, lower as int + m, i as int)),
            decreases early_primes@.len() - i as int,
        {
            let p = early_primes[i];
            let ghost pi = p as int;
            proof {
                lemma_fundamental_div_mod(lower as int, pi);
                lemma_mod_division_less_than_divisor(lower as int, pi);
                lemma_mod_multiples_basic(lower as int / pi, pi);
            }
            let mut lolim = (lower / p) * p;
            if lolim < lower {
                proof {
                    assert((lower as int / pi) * pi + pi == (lower as int / pi + 1) * pi)
                        by (nonlinear_arith);
                    lemma_mod_multiples_basic(lower as int / pi + 1, pi);
                }
                lolim = lolim + p;
            }
            assert(lower as int <= lolim as int);
            assert((lolim as int) < lower as int + pi);
            assert((lolim as int) % pi == 0);
            proof {
                assert forall|m: int| 0 <= m < width as int && #[trigger] ((lower as int + m) % pi) == 0
                    implies lolim as int <= lower as int + m by {
                    lemma_least_multiple(pi, lower as int, lolim as int, lower as int + m);
                }
            }
            let mut j = lolim;
            while j < higher
                invariant
                    p == early_primes@[i as int],
                    pi == p as int,
                    2 <= pi,
                    pi <= usize::MAX as int / 2,
                    i < early_primes@.len(),
                    lower < higher,
                    higher <= highest_checked,
                    highest_checked <= usize::MAX as int / 2,
                    width == higher - lower,
                    lower as int <= lolim as int,
                    (lolim as int) < lower as int + pi,
                    (lolim as int) % pi == 0,
                    lolim as int <= j as int,
                    (j as int) % pi == 0,
                    new_primes@.len() == width,
                    forall|m: int| 0 <= m < width as int ==>
                        (#[trigger] new_primes@[m] <==>
                            (coprime_upto(early_primes@, lower as int + m, i as int)
                             && !((lower as int + m) % pi == 0
                                  && lower as int + m < j as int))),
                decreases higher as int + pi - j as int,
            {
                let ghost marks_old = new_primes@;
                new_primes.set(j - lower, false);
                let ghost j_old = j as int;
                proof {
                    lemma_fundamental_div_mod(j as int, pi);
                    assert(j as int + pi == (j as int / pi + 1) * pi) by (nonlinear_arith)
                        requires j as int == pi * (j as int / pi);
                    lemma_mod_multiples_basic(j as int / pi + 1, pi);
                }
                j = j + p;
                proof {
                    assert forall|m: int| 0 <= m < width as int implies
                        (new_primes@[m] <==>
                            (coprime_upto(early_primes@, lower as int + m, i as int)
                             && !((lower as int + m) % pi == 0
                                  && lower as int + m < j as int))) by {
                        let x = lower as int + m;
                        if m == j_old - lower as int {
                            assert(!new_primes@[m]);
                            assert(x % pi == 0 && x < j as int);
                        } else {
                            assert(new_primes@[m] == marks_old[m]);
                            if x % pi == 0 && j_old < x && x < j_old + pi {
                                lemma_multiple_gap(pi, j_old, x);
                                assert(false);
                            }
                        }
                    }
                }
            }
            proof {
                assert forall|m: int| 0 <= m < width as int implies
                    (new_primes@[m] <==>
                        coprime_upto(early_primes@, lower as int + m, i as int + 1)) by {
                    let x = lower as int + m;
                    lemma_coprime_step(early_primes@, x, i as int);
                    assert(x < j as int);
                }
            }
            i = i + 1;
        }
        proof {
            assert forall|m: int| 0 <= m < width as int implies
                (new_primes@[m] <==> coprime_to_all(early_primes@, lower as int + m)) by {
                lemma_coprime_full(early_primes@, lower as int + m);
            }
        }

        let mut cand = lower;
        while cand < higher
            invariant
                lower <= cand,
                cand <= higher,
                lowest_checked <= lower,
                lower < higher,
                higher <= highest_checked,
                width == higher - lower,
                new_primes@.len() == width,
                forall|m: int| 0 <= m < width as int ==>
                    (#[trigger] new_primes@[m] <==>
                        coprime_to_all(early_primes@, lower as int + m)),
                sorted_strict(returned_primes@),
                forall|k: int| 0 <= k < returned_primes@.len() ==>
                    lowest_checked <= #[trigger] returned_primes@[k]
                    && (returned_primes@[k] as int) < cand as int
                    && returned_primes@[k] < highest_checked
                    && coprime_to_all(early_primes@, returned_primes@[k] as int),
                forall|n: int| lowest_checked <= n < cand as int && n < highest_checked
                    && #[trigger] coprime_to_all(early_primes@, n)
                    ==> contains_val(returned_primes@, n),
            decreases higher as int - cand as int,
        {
            let ghost rp_old = returned_primes@;
            let survives = new_primes[cand - lower];
            if survives {
                returned_primes.push(cand);
            }
            let ghost cand_i = cand as int;
            cand = cand + 1;
            proof {
                assert forall|a: int, b: int| 0 <= a < b < returned_primes@.len()
                    implies returned_primes@[a] < returned_primes@[b] by {
                    if b < rp_old.len() {
                        assert(rp_old[a] < rp_old[b]);
                    } else {
                        assert(returned_primes@[b] == cand_i);
                        assert((rp_old[a] as int) < cand_i);
                    }
                }
                assert forall|n: int| lowest_checked <= n < cand as int && n < highest_checked
                    && coprime_to_all(early_primes@, n)
                    implies contains_val(returned_primes@, n) by {
                    if n == cand_i {
                        assert(new_primes@[cand_i - lower as int]);
                        assert(survives);
                        assert(returned_primes@[rp_old.len() as int] == n);
                    } else {
                        assert(contains_val(rp_old, n));
                        let w = choose|w: int| 0 <= w < rp_old.len() && rp_old[w] == n;
                        assert(returned_primes@[w] == n);
                    }
                }
            }
        }
        lower = higher;
    }
    returned_primes
}


/// The fixed base seed set 2, 3, 5, 7, 11, 13, 17, clipped to `limit`:
/// exactly the primes up to the smaller of 17 and `limit`.
fn base_seeds(limit: usize) -> (s: Vec<usize>)
    requires
        2 <= limit,
    ensures
        primes_exactly(s@, if limit < 17 { limit as int } else { 17 }),
{
    let mut s: Vec<usize> = Vec::new();
    s.push(2);
    if limit >= 3 { s.push(3); }
    if limit >= 5 { s.push(5); }
    if limit >= 7 { s.push(7); }
    if limit >= 11 { s.push(11); }
    if limit >= 13 { s.push(13); }
    if limit >= 17 { s.push(17); }
    proof {
        lemma_small_primes();
        let b: int = if limit < 17 { limit as int } else { 17 };
        assert forall|p: int| 2 <= p <= b && #[trigger] is_prime(p)
            implies contains_val(s@, p) by {
            if p == 2 { assert(s@[0] == 2); }
            else if p == 3 { assert(s@[1] == 3); }
            else if p == 5 { assert(s@[2] == 5); }
            else if p == 7 { assert(s@[3] == 7); }
            else if p == 11 { assert(s@[4] == 11); }
            else if p == 13 { assert(s@[5] == 13); }
            else { assert(p == 17); assert(s@[6] == 17); }
        }
        assert(sorted_strict(s@));
        assert forall|k: int| 0 <= k < s@.len()
            implies is_prime(#[trigger] s@[k] as int) && s@[k] <= b by {}
    }
    s
}

/// Start of worker `i`'s share of the range `[lo, ..)`.
pub open spec fn range_start(lo: int, spacing: int, i: int) -> int {
    lo + i * spacing
}

/// End of worker `i`'s share; the final share absorbs the remainder up to `hi`.
pub open spec fn range_end(lo: int, hi: int, spacing: int, threads: int, i: int) -> int {
    if i == threads - 1 {
        hi
    } else {
        lo + (i + 1) * spacing
    }
}

/// How far into `[lo, hi)` the first `i` of `threads` shares reach.
pub open spec fn covered(lo: int, hi: int, spacing: int, threads: int, i: int) -> int {
    if i < threads {
        range_start(lo, spacing, i)
    } else {
        hi
    }
}

/// Every prime up to `limit`, in ascending order.
///
/// Seed primes covering the ceiling square root of `limit` come from the
/// fixed base set or, above the base threshold, from running the whole
/// pipeline on the square root. The rest of the range, up to and including
/// `limit`, is split into `threads` nearly equal shares (the last absorbs the
/// remainder of the division); each share is sieved by one worker and the
/// workers' results are appended to the seeds in share order. A thread count
/// of zero is treated as one.
pub fn compute_primes(limit: usize, threads: usize) -> (r: Vec<usize>)
    requires
        limit as int + 1 <= usize::MAX as int / 2,
    ensures
        primes_exactly(r@, limit as int),
        limit < 2 ==> r@.len() == 0,
    decreases limit,
{
    if limit < 2 {
        let r: Vec<usize> = Vec::new();
        return r;
    }
    let threads = if threads == 0 { 1 } else { threads };
    let sqrt_limit = ceil_sqrt(limit);
    proof {
        assert(2 <= sqrt_limit) by (nonlinear_arith)
            requires
                (sqrt_limit as int) * (sqrt_limit as int) >= limit,
                limit >= 2,
                sqrt_limit >= 1;
    }

    let seeds: Vec<usize>;
    let sb: usize;
    if limit <= 230 {
        seeds = base_seeds(limit);
        sb = if limit < 17 { limit } else { 17 };
        proof {
            if limit >= 17 {
                assert((sb as int) * (sb as int) >= limit as int);
            } else {
                assert((sb as int) * (sb as int) >= limit as int) by (nonlinear_arith)
                    requires sb == limit, limit >= 2;
            }
        }
    } else {
        proof {
            assert(sqrt_limit < limit) by (nonlinear_arith)
                requires
                    ((sqrt_limit as int) - 1) * ((sqrt_limit as int) - 1) < limit,
                    limit >= 3,
                    sqrt_limit >= 1;
        }
        seeds = compute_primes(sqrt_limit, threads);
        sb = sqrt_limit;
    }
    proof {
        assert(primes_exactly(seeds@, sb as int));
        assert(2 <= sb && sb <= limit);
        assert((sb as int) * (sb as int) >= limit as int);
    }

    let hi = limit + 1;
    let lo = sb + 1;
    let spacing = (hi - lo) / threads;
    let segment_size = if sqrt_limit < 100000 { sqrt_limit } else { 100000 };
    proof {
        lemma_fundamental_div_mod(hi as int - lo as int, threads as int);
        lemma_mod_division_less_than_divisor(hi as int - lo as int, threads as int);
        assert(threads as int * spacing as int <= hi as int - lo as int);
    }

    let mut new_primes: Vec<usize> = Vec::new();
    let mut i: usize = 0;
    while i < threads
        invariant
            i <= threads,
            1 <= threads,
            2 <= sb,
            sb <= limit,
            lo == sb as int + 1,
            hi == limit as int + 1,
            limit as int + 1 <= usize::MAX as int / 2,
            spacing as int == (hi as int - lo as int) / threads as int,
            threads as int * spacing as int <= hi as int - lo as int,
            1 <= segment_size,
            segment_size as int <= usize::MAX as int / 2,
            primes_exactly(seeds@, sb as int),
            (sb as int) * (sb as int) >= limit as int,
            sorted_strict(new_primes@),
            covered(lo as int, hi as int, spacing as int, threads as int, i as int)
                <= hi as int,
            forall|k: int| 0 <= k < new_primes@.len() ==>
                lo as int <= #[trigger] new_primes@[k] as int
                && (new_primes@[k] as int)
                    < covered(lo as int, hi as int, spacing as int, threads as int, i as int)
                && is_prime(new_primes@[k] as int),
            forall|p: int| lo as int <= p
                && p < covered(lo as int, hi as int, spacing as int, threads as int, i as int)
                && #[trigger] is_prime(p) ==> contains_val(new_primes@, p),
        decreases threads as int - i as int,
    {
        proof {
            lemma_mul_nonnegative(i as int, spacing as int);
            lemma_mul_inequality(i as int, threads as int, spacing as int);
            lemma_mul_inequality(i as int + 1, threads as int, spacing as int);
            assert((i as int + 1) * spacing as int
                == i as int * spacing as int + spacing as int) by (nonlinear_arith);
        }
        let lowest_checked = lo + i * spacing;
        let highest_checked = if i == threads - 1 { hi } else { lowest_checked + spacing };
        proof {
            assert(lowest_checked as int == range_start(lo as int, spacing as int, i as int));
            assert(highest_checked as int
                == range_end(lo as int, hi as int, spacing as int, threads as int, i as int));
            assert(highest_checked <= hi);
            assert forall|k: int| 0 <= k < seeds@.len() implies
                2 <= #[trigger] seeds@[k] && seeds@[k] as int <= usize::MAX as int / 2 by {
                assert(is_prime(seeds@[k] as int));
            }
        }
        let mut part = eratosthenes_segment_thread(
            &seeds,
            lowest_checked,
            highest_checked,
            segment_size,
        );
        proof {
            assert forall|k: int| 0 <= k < part@.len() implies
                is_prime(#[trigger] part@[k] as int) by {
                lemma_survivor_prime(seeds@, sb as int, limit as int, part@[k] as int);
            }
            assert forall|p: int| lowest_checked as int <= p && p < highest_checked as int
                && #[trigger] is_prime(p) implies contains_val(part@, p) by {
                lemma_prime_survives(seeds@, sb as int, p);
            }
        }
        let ghost np_old = new_primes@;
        let ghost part_g = part@;
        let ghost i_old = i as int;
        new_primes.append(&mut part);
        i = i + 1;
        proof {
            assert((i_old + 1) * spacing as int
                == i_old * spacing as int + spacing as int) by (nonlinear_arith);
            assert(covered(lo as int, hi as int, spacing as int, threads as int, i as int)
                == highest_checked as int);
            assert forall|a: int, b: int| 0 <= a < b < new_primes@.len()
                implies new_primes@[a] < new_primes@[b] by {
                if b < np_old.len() {
                    assert(np_old[a] < np_old[b]);
                } else if a >= np_old.len() {
                    assert(part_g[a - np_old.len()] < part_g[b - np_old.len()]);
                } else {
                    assert((np_old[a] as int) < lowest_checked as int);
                    assert(lowest_checked <= part_g[b - np_old.len()]);
                }
            }
            assert forall|p: int| lo as int <= p
                && p < covered(lo as int, hi as int, spacing as int, threads as int, i as int)
                && #[trigger] is_prime(p) implies contains_val(new_primes@, p) by {
                if p < lowest_checked as int {
                    assert(contains_val(np_old, p));
                    let w = choose|w: int| 0 <= w < np_old.len() && np_old[w] == p;
                    assert(new_primes@[w] == p);
                } else {
                    assert(contains_val(part_g, p));
                    let w = choose|w: int| 0 <= w < part_g.len() && part_g[w] == p;
                    assert(new_primes@[np_old.len() + w] == p);
                }
            }
        }
    }

    let mut early_primes = seeds;
    let ghost seeds_g = early_primes@;
    let ghost np_g = new_primes@;
    early_primes.append(&mut new_primes);
    proof {
        assert forall|a: int, b: int| 0 <= a < b < early_primes@.len()
            implies early_primes@[a] < early_primes@[b] by {
            if b < seeds_g.len() {
                assert(seeds_g[a] < seeds_g[b]);
            } else if a >= seeds_g.len() {
                assert(np_g[a - seeds_g.len()] < np_g[b - seeds_g.len()]);
            } else {
                assert(seeds_g[a] <= sb);
                assert(lo as int <= np_g[b - seeds_g.len()] as int);
            }
        }
        assert forall|k: int| 0 <= k < early_primes@.len() implies
            is_prime(#[trigger] early_primes@[k] as int) && early_primes@[k] <= limit by {
            if k < seeds_g.len() {
                assert(is_prime(seeds_g[k] as int));
            } else {
                assert(is_prime(np_g[k - seeds_g.len()] as int));
            }
        }
        assert forall|p: int| 2 <= p <= limit as int && #[trigger] is_prime(p)
            implies contains_val(early_primes@, p) by {
            if p <= sb as int {
                assert(contains_val(seeds_g, p));
                let w = choose|w: int| 0 <= w < seeds_g.len() && seeds_g[w] == p;
                assert(early_primes@[w] == p);
            } else {
                assert(lo as int <= p && p < hi as int);
                assert(contains_val(np_g, p));
                let w = choose|w: int| 0 <= w < np_g.len() && np_g[w] == p;
                assert(early_primes@[seeds_g.len() + w] == p);
            }
        }
    }
    early_primes
}

} // verus!
