//! Primality as a mathematical predicate, together with the number-theory
//! facts the segmented sieve rests on: a composite number has a prime factor
//! no larger than its square root, so seed primes covering the square root of
//! a range suffice to mark every composite in it.

use vstd::prelude::*;
use vstd::arithmetic::div_mod::{lemma_fundamental_div_mod, lemma_mod_multiples_basic, lemma_mod_self_0};

verus! {

/// `n` is prime: at least 2 and with no divisor strictly between 1 and `n`.
pub open spec fn is_prime(n: int) -> bool {
    n >= 2 && forall|d: int| 2 <= d < n ==> #[trigger] (n % d) != 0
}

/// Some element of `s` equals `v`.
pub open spec fn contains_val(s: Seq<usize>, v: int) -> bool {
    exists|i: int| 0 <= i < s.len() && s[i] == v
}

/// Strictly ascending, hence free of duplicates.
pub open spec fn sorted_strict(s: Seq<usize>) -> bool {
    forall|i: int, j: int| 0 <= i < j < s.len() ==> s[i] < s[j]
}

/// `s` lists exactly the primes up to `bound`, in ascending order.
pub open spec fn primes_exactly(s: Seq<usize>, bound: int) -> bool {
    &&& sorted_strict(s)
    &&& forall|i: int| 0 <= i < s.len() ==> is_prime(#[trigger] s[i] as int) && s[i] <= bound
    &&& forall|p: int| 2 <= p <= bound && is_prime(p) ==> contains_val(s, p)
}

/// No element of `seeds` divides `n`.
pub open spec fn coprime_to_all(seeds: Seq<usize>, n: int) -> bool {
    forall|i: int| 0 <= i < seeds.len() ==> n % (#[trigger] seeds[i] as int) != 0
}

/// No element among the first `k` of `seeds` divides `n`.
pub open spec fn coprime_upto(seeds: Seq<usize>, n: int, k: int) -> bool {
    forall|i: int| 0 <= i < k && i < seeds.len() ==> n % (#[trigger] seeds[i] as int) != 0
}

/// A number at least 2 that is not prime has a divisor no larger than its
/// square root: with `d` a divisor, `d` and `n / d` cannot both exceed it.
pub proof fn lemma_small_factor(n: int) -> (d: int)
    requires
        n >= 2,
        !is_prime(n),
    ensures
        2 <= d < n,
        d * d <= n,
        n % d == 0,
{
    assert(exists|d: int| 2 <= d < n && #[trigger] (n % d) == 0);
    let d0 = choose|d: int| 2 <= d < n && #[trigger] (n % d) == 0;
    lemma_fundamental_div_mod(n, d0);
    let k = n / d0;
    assert(n == d0 * k);
    assert(k >= 1) by (nonlinear_arith)
        requires n >= 2, d0 >= 2, n == d0 * k;
    assert(k >= 2) by (nonlinear_arith)
        requires n >= 2, 2 <= d0 < n, n == d0 * k, k >= 1;
    if d0 * d0 <= n {
        d0
    } else {
        assert(k < d0) by (nonlinear_arith)
            requires d0 * d0 > n, n == d0 * k, d0 >= 2, k >= 1;
        assert(k * k < n) by (nonlinear_arith)
            requires n == d0 * k, k < d0, k >= 1;
        lemma_mod_multiples_basic(d0, k);
        assert(n % k == 0);
        k
    }
}

/// Divisibility is transitive: if `q` divides `d` and `d` divides `n`,
/// then `q` divides `n`.
proof fn lemma_divides_transitive(q: int, d: int, n: int)
    requires
        q >= 1,
        d >= 1,
        d % q == 0,
        n % d == 0,
    ensures
        n % q == 0,
{
    lemma_fundamental_div_mod(d, q);
    lemma_fundamental_div_mod(n, d);
    let a = d / q;
    let b = n / d;
    assert(d == q * a && n == d * b);
    assert(n == (a * b) * q) by (nonlinear_arith)
        requires d == q * a, n == d * b;
    lemma_mod_multiples_basic(a * b, q);
}

/// Every number at least 2 has a prime divisor.
pub proof fn lemma_prime_factor(n: int) -> (q: int)
    requires
        n >= 2,
    ensures
        is_prime(q),
        2 <= q <= n,
        n % q == 0,
    decreases n,
{
    if is_prime(n) {
        lemma_mod_self_0(n);
        n
    } else {
        let d = lemma_small_factor(n);
        let q = lemma_prime_factor(d);
        lemma_divides_transitive(q, d, n);
        q
    }
}

/// A composite number has a prime divisor no larger than its square root.
pub proof fn lemma_composite_prime_factor(n: int) -> (q: int)
    requires
        n >= 2,
        !is_prime(n),
    ensures
        is_prime(q),
        2 <= q,
        q * q <= n,
        n % q == 0,
{
    let d = lemma_small_factor(n);
    let q = lemma_prime_factor(d);
    lemma_divides_transitive(q, d, n);
    assert(q * q <= d * d) by (nonlinear_arith)
        requires 2 <= q <= d;
    q
}

/// Trial division only has to reach the square root: a number with no
/// divisor `d` satisfying `d * d <= n` is prime.
pub proof fn lemma_prime_from_trial(n: int)
    requires
        n >= 2,
        forall|d: int| 2 <= d && d * d <= n ==> #[trigger] (n % d) != 0,
    ensures
        is_prime(n),
{
    if !is_prime(n) {
        let d = lemma_small_factor(n);
        assert(n % d != 0);
        assert(false);
    }
}

/// The primes up to 17 are exactly 2, 3, 5, 7, 11, 13 and 17.
pub proof fn lemma_small_primes()
    ensures
        is_prime(2),
        is_prime(3),
        is_prime(5),
        is_prime(7),
        is_prime(11),
        is_prime(13),
        is_prime(17),
        forall|p: int| 2 <= p <= 17 && #[trigger] is_prime(p) ==>
            p == 2 || p == 3 || p == 5 || p == 7 || p == 11 || p == 13 || p == 17,
{
    assert forall|d: int| 2 <= d && #[trigger] (d * d) <= 2 implies (2int % d) != 0 by {
        assert(false) by (nonlinear_arith)
            requires 2 <= d, d * d <= 2;
    }
    lemma_prime_from_trial(2);
    assert forall|d: int| 2 <= d && #[trigger] (d * d) <= 3 implies (3int % d) != 0 by {
        assert(false) by (nonlinear_arith)
            requires 2 <= d, d * d <= 3;
    }
    lemma_prime_from_trial(3);
    assert forall|d: int| 2 <= d && #[trigger] (d * d) <= 5 implies (5int % d) != 0 by {
        assert(d == 2) by (nonlinear_arith)
            requires 2 <= d, d * d <= 5;
        assert(5int % 2 == 1);
    }
    lemma_prime_from_trial(5);
    assert forall|d: int| 2 <= d && #[trigger] (d * d) <= 7 implies (7int % d) != 0 by {
        assert(d == 2) by (nonlinear_arith)
            requires 2 <= d, d * d <= 7;
        assert(7int % 2 == 1);
    }
    lemma_prime_from_trial(7);
    assert forall|d: int| 2 <= d && #[trigger] (d * d) <= 11 implies (11int % d) != 0 by {
        assert(d <= 3) by (nonlinear_arith)
            requires 2 <= d, d * d <= 11;
        assert(11int % 2 == 1);
        assert(11int % 3 == 2);
    }
    lemma_prime_from_trial(11);
    assert forall|d: int| 2 <= d && #[trigger] (d * d) <= 13 implies (13int % d) != 0 by {
        assert(d <= 3) by (nonlinear_arith)
            requires 2 <= d, d * d <= 13;
        assert(13int % 2 == 1);
        assert(13int % 3 == 1);
    }
    lemma_prime_from_trial(13);
    assert forall|d: int| 2 <= d && #[trigger] (d * d) <= 17 implies (17int % d) != 0 by {
        assert(d <= 4) by (nonlinear_arith)
            requires 2 <= d, d * d <= 17;
        assert(17int % 2 == 1);
        assert(17int % 3 == 2);
        assert(17int % 4 == 1);
    }
    lemma_prime_from_trial(17);
    assert forall|p: int| 2 <= p <= 17 && #[trigger] is_prime(p) implies
        p == 2 || p == 3 || p == 5 || p == 7 || p == 11 || p == 13 || p == 17 by {
        if p == 4 { assert(4int % 2 == 0); }
        else if p == 6 { assert(6int % 2 == 0); }
        else if p == 8 { assert(8int % 2 == 0); }
        else if p == 9 { assert(9int % 3 == 0); }
        else if p == 10 { assert(10int % 2 == 0); }
        else if p == 12 { assert(12int % 2 == 0); }
        else if p == 14 { assert(14int % 2 == 0); }
        else if p == 15 { assert(15int % 3 == 0); }
        else if p == 16 { assert(16int % 2 == 0); }
    }
}

/// A prime above the seed bound is divisible by no seed.
pub proof fn lemma_prime_survives(seeds: Seq<usize>, bound: int, n: int)
    requires
        primes_exactly(seeds, bound),
        is_prime(n),
        n > bound,
    ensures
        coprime_to_all(seeds, n),
{
    assert forall|i: int| 0 <= i < seeds.len() implies n % (#[trigger] seeds[i] as int) != 0 by {
        assert(is_prime(seeds[i] as int));
        assert(2 <= seeds[i] as int);
        assert((seeds[i] as int) < n);
    }
}

/// A value above the seed bound that no seed divides is prime, provided the
/// seeds list every prime up to `bound` and `bound * bound` reaches `limit`.
pub proof fn lemma_survivor_prime(seeds: Seq<usize>, bound: int, limit: int, n: int)
    requires
        primes_exactly(seeds, bound),
        bound >= 1,
        bound * bound >= limit,
        bound < n <= limit,
        coprime_to_all(seeds, n),
    ensures
        is_prime(n),
{
    if !is_prime(n) {
        let q = lemma_composite_prime_factor(n);
        assert(q <= bound) by (nonlinear_arith)
            requires q * q <= n, n <= limit, limit <= bound * bound, q >= 1, bound >= 1;
        assert(contains_val(seeds, q));
        let i = choose|i: int| 0 <= i < seeds.len() && seeds[i] == q;
        assert(n % (seeds[i] as int) != 0);
        assert(false);
    }
}

/// Two strictly ascending sequences with the same members are equal.
pub proof fn lemma_sorted_same_members(a: Seq<usize>, b: Seq<usize>)
    requires
        sorted_strict(a),
        sorted_strict(b),
        forall|v: int| contains_val(a, v) <==> contains_val(b, v),
    ensures
        a == b,
    decreases a.len(),
{
    if a.len() == 0 {
        if b.len() > 0 {
            assert(contains_val(b, b[0] as int));
            assert(contains_val(a, b[0] as int));
            assert(false);
        }
        assert(a =~= b);
    } else {
        assert(contains_val(a, a[0] as int));
        assert(contains_val(b, a[0] as int));
        let j = choose|j: int| 0 <= j < b.len() && b[j] == a[0] as int;
        assert(contains_val(b, b[0] as int));
        assert(contains_val(a, b[0] as int));
        let i = choose|i: int| 0 <= i < a.len() && a[i] == b[0] as int;
        assert(a[0] <= a[i]);
        assert(b[0] <= b[j]);
        assert(a[0] == b[0]);
        let at = a.subrange(1, a.len() as int);
        let bt = b.subrange(1, b.len() as int);
        assert forall|v: int| contains_val(at, v) implies contains_val(bt, v) by {
            let k = choose|k: int| 0 <= k < at.len() && at[k] == v;
            assert(a[k + 1] == v);
            assert(a[0] < a[k + 1]);
            assert(contains_val(a, v));
            assert(contains_val(b, v));
            let m = choose|m: int| 0 <= m < b.len() && b[m] == v;
            assert(m >= 1);
            assert(bt[m - 1] == v);
        }
        assert forall|v: int| contains_val(bt, v) implies contains_val(at, v) by {
            let k = choose|k: int| 0 <= k < bt.len() && bt[k] == v;
            assert(b[k + 1] == v);
            assert(b[0] < b[k + 1]);
            assert(contains_val(b, v));
            assert(contains_val(a, v));
            let m = choose|m: int| 0 <= m < a.len() && a[m] == v;
            assert(m >= 1);
            assert(at[m - 1] == v);
        }
        assert forall|i2: int, j2: int| 0 <= i2 < j2 < at.len() implies at[i2] < at[j2] by {
            assert(a[i2 + 1] < a[j2 + 1]);
        }
        assert forall|i2: int, j2: int| 0 <= i2 < j2 < bt.len() implies bt[i2] < bt[j2] by {
            assert(b[i2 + 1] < b[j2 + 1]);
        }
        lemma_sorted_same_members(at, bt);
        assert forall|k: int| 0 <= k < a.len() implies a[k] == b[k] by {
            if k >= 1 {
                assert(at[k - 1] == bt[k - 1]);
            }
        }
        assert(a.len() == b.len());
        assert(a =~= b);
    }
}

} // verus!
