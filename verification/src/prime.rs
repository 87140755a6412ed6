use vstd::prelude::*;

verus! {

use vstd::arithmetic::div_mod::{
    lemma_fundamental_div_mod, lemma_mod_add_multiples_vanish, lemma_mod_multiples_basic,
    lemma_mod_self_0,
};
use vstd::arithmetic::mul::{lemma_mul_is_associative, lemma_mul_is_commutative};
use vstd::arithmetic::power::{lemma_pow0, lemma_pow1, lemma_pow_adds, lemma_pow_positive, pow};

/// `n` is prime: at least two, with no divisor strictly between one and
/// itself.
pub open spec fn is_prime(n: int) -> bool {
    2 <= n && forall|d: int| 2 <= d < n ==> #[trigger] (n % d) != 0
}

/// Divisibility is transitive: a divisor of a divisor of `c` divides `c`.
proof fn lemma_divides_transitive(a: int, b: int, c: int)
    requires
        1 <= a,
        1 <= b,
        0 <= c,
        b % a == 0,
        c % b == 0,
    ensures
        c % a == 0,
{
    lemma_fundamental_div_mod(b, a);
    lemma_fundamental_div_mod(c, b);
    let j = b / a;
    let k = c / b;
    assert(c == b * k);
    assert(b == a * j);
    assert(c == (a * j) * k);
    lemma_mul_is_associative(a, j, k);
    assert(c == a * (j * k));
    lemma_mul_is_commutative(a, j * k);
    lemma_mod_multiples_basic(j * k, a);
}

/// Every integer of at least two has a prime divisor no larger than itself.
proof fn lemma_exists_prime_divisor(m: int) -> (q: int)
    requires
        m >= 2,
    ensures
        is_prime(q),
        2 <= q <= m,
        m % q == 0,
    decreases m,
{
    if is_prime(m) {
        lemma_mod_self_0(m);
        m
    } else {
        let d = choose|d: int| 2 <= d < m && #[trigger] (m % d) == 0;
        let q = lemma_exists_prime_divisor(d);
        lemma_divides_transitive(q, d, m);
        q
    }
}

/// No prime strictly below the bound `p` divides `m` properly: every prime
/// divisor of `m` below `p` is `m` itself. This is what one pass of the
/// sieve has established for the primes already processed.
pub open spec fn no_small_prime_divisor(m: int, p: int) -> bool {
    forall|q: int| 2 <= q < p && is_prime(q) && #[trigger] (m % q) == 0 ==> q == m
}

/// A flag table of the given length, every entry set.
fn flags(len: usize) -> (r: Vec<bool>)
    ensures
        r@.len() == len,
        forall|j: int| 0 <= j < len ==> r@[j],
    decreases len,
{
    let mut v: Vec<bool> = Vec::new();
    let mut i: usize = 0;
    while i < len
        invariant
            i <= len,
            v@.len() == i,
            forall|j: int| 0 <= j < i ==> v@[j],
        decreases len - i,
    {
        v.push(true);
        i += 1;
    }
    v
}

/// The primes up to `n` in ascending order, by the sieve of Eratosthenes:
/// the list holds exactly the primes of `[2, n]`.
pub fn primes(n: usize) -> (ps: Vec<usize>)
    requires
        1 <= n,
        n <= usize::MAX / 2,
    ensures
        forall|t: int| 0 <= t < ps@.len() ==> is_prime((#[trigger] ps@[t]) as int) && ps@[t] <= n,
        forall|t1: int, t2: int| 0 <= t1 < t2 < ps@.len() ==> ps@[t1] < ps@[t2],
        forall|q: usize| 2 <= q <= n && is_prime(q as int) ==> ps@.contains(q),
{
    let mut arr: Vec<bool> = flags(n + 1);
    let mut primes_acc: Vec<usize> = Vec::new();
    arr[0] = false;  // 0 is NOT a prime number
    arr[1] = false;  // 1 is NOT a prime number
    let mut p: usize = 2;
    while p <= n
        invariant
            2 <= p <= n + 1,
            n <= usize::MAX / 2,
            arr@.len() == n + 1,
            !arr@[0],
            !arr@[1],
            forall|m: int|
                2 <= m <= n ==> ((#[trigger] arr@[m]) <==> no_small_prime_divisor(m, p as int)),
            forall|t: int|
                0 <= t < primes_acc@.len() ==> is_prime((#[trigger] primes_acc@[t]) as int) && 2
                    <= primes_acc@[t] < p,
            forall|t1: int, t2: int|
                0 <= t1 < t2 < primes_acc@.len() ==> primes_acc@[t1] < primes_acc@[t2],
            forall|q: usize| 2 <= q < p && is_prime(q as int) ==> primes_acc@.contains(q),
        decreases n + 1 - p,
    {
        if arr[p] {
            proof {
                assert(is_prime(p as int)) by {
                    assert forall|d: int| 2 <= d < p implies #[trigger] (p as int % d) != 0 by {
                        if p as int % d == 0 {
                            let q = lemma_exists_prime_divisor(d);
                            lemma_divides_transitive(q, d, p as int);
                            assert(no_small_prime_divisor(p as int, p as int));
                            assert(false);
                        }
                    }
                }
            }
            let ghost acc0: Seq<usize> = primes_acc@;
            primes_acc.push(p);
            proof {
                assert forall|q: usize| 2 <= q < p + 1 && is_prime(q as int) implies primes_acc@
                    .contains(q) by {
                    if q == p {
                        assert(primes_acc@[acc0.len() as int] == p);
                    } else {
                        let t = choose|t: int| 0 <= t < acc0.len() && acc0[t] == q;
                        assert(primes_acc@[t] == q);
                    }
                }
            }
            let mut mul_p = 2 * p;
            proof {
                lemma_mod_multiples_basic(2, p as int);
                lemma_mul_is_commutative(2, p as int);
            }
            while mul_p <= n
                invariant
                    2 <= p <= n,
                    n <= usize::MAX / 2,
                    arr@.len() == n + 1,
                    !arr@[0],
                    !arr@[1],
                    mul_p % p == 0,
                    2 * p <= mul_p,
                    forall|m: int|
                        2 <= m <= n ==> ((#[trigger] arr@[m]) <==> (no_small_prime_divisor(
                            m,
                            p as int,
                        ) && !(m % (p as int) == 0 && 2 * p <= m < mul_p))),
                decreases n + p - mul_p,
            {
                let ghost a0: Seq<bool> = arr@;
                arr[mul_p] = false;
                proof {
                    assert forall|m: int|
                        2 <= m <= n implies ((#[trigger] arr@[m]) <==> (no_small_prime_divisor(
                        m,
                        p as int,
                    ) && !(m % (p as int) == 0 && 2 * p <= m < mul_p + p))) by {
                        if m != mul_p {
                            assert(arr@[m] == a0[m]);
                            if m % (p as int) == 0 && mul_p <= m < mul_p + p {
                                // multiples of p are p apart, so none lies
                                // strictly between mul_p and mul_p + p
                                lemma_fundamental_div_mod(m, p as int);
                                lemma_fundamental_div_mod(mul_p as int, p as int);
                                assert(m == (p as int) * (m / (p as int)));
                                assert(mul_p as int == (p as int) * (mul_p as int / (p as int)));
                                assert(m == mul_p) by (nonlinear_arith)
                                    requires
                                        m == (p as int) * (m / (p as int)),
                                        mul_p as int == (p as int) * (mul_p as int / (p as int)),
                                        mul_p <= m < mul_p + p,
                                        p >= 2,
                                ;
                                assert(false);
                            }
                        }
                    }
                }
                proof {
                    lemma_mod_add_multiples_vanish(mul_p as int, p as int);
                }
                mul_p += p;
            }
            proof {
                lemma_sieve_step(arr@, n as int, p as int, mul_p as int, true);
            }
        } else {
            proof {
                assert(!no_small_prime_divisor(p as int, p as int));
                let q = choose|q: int|
                    2 <= q < p && is_prime(q) && #[trigger] (p as int % q) == 0 && q != p as int;
                assert(!is_prime(p as int));
                lemma_sieve_skip(arr@, n as int, p as int);
            }
        }
        p += 1;
    }
    proof {
        assert forall|q: usize| 2 <= q <= n && is_prime(q as int) implies primes_acc@.contains(
            q,
        ) by {
            assert(q < p);
        }
    }
    primes_acc
}

/// After all proper multiples of the prime `p` are cleared, the table
/// describes freedom from prime divisors below `p + 1`.
proof fn lemma_sieve_step(arr: Seq<bool>, n: int, p: int, mul_p: int, p_prime: bool)
    requires
        2 <= p <= n,
        arr.len() == n + 1,
        is_prime(p),
        mul_p > n,
        forall|m: int|
            2 <= m <= n ==> ((#[trigger] arr[m]) <==> (no_small_prime_divisor(m, p) && !(m % p == 0
                && 2 * p <= m < mul_p))),
    ensures
        forall|m: int| 2 <= m <= n ==> ((#[trigger] arr[m]) <==> no_small_prime_divisor(m, p + 1)),
{
    assert forall|m: int|
        2 <= m <= n implies ((#[trigger] arr[m]) <==> no_small_prime_divisor(m, p + 1)) by {
        if arr[m] {
            assert forall|q: int| 2 <= q < p + 1 && is_prime(q) && #[trigger] (m % q) == 0 implies q
                == m by {
                if q < p {
                } else {
                    // q == p: m is a multiple of p below 2p, hence p itself
                    assert(m % p == 0 && !(2 * p <= m));
                    lemma_fundamental_div_mod(m, p);
                    assert(m == (m / p) * p);
                    assert(m == p) by (nonlinear_arith)
                        requires
                            m == (m / p) * p,
                            2 <= m < 2 * p,
                            p >= 2,
                    ;
                }
            }
        } else {
            if no_small_prime_divisor(m, p + 1) {
                assert(no_small_prime_divisor(m, p));
                assert(m % p == 0 && 2 * p <= m < mul_p);
                assert(m == p);
                assert(false);
            }
        }
    }
}

/// The product over a factor list: each pair contributes its prime raised
/// to its multiplicity.
pub open spec fn pair_prod(s: Seq<(usize, usize)>) -> int
    decreases s.len(),
{
    if s.len() == 0 {
        1
    } else {
        pair_prod(s.drop_last()) * pow(s.last().0 as int, s.last().1 as nat)
    }
}

/// The integer square root, by bisection.
fn isqrt(n: usize) -> (r: usize)
    ensures
        (r as int) * (r as int) <= n as int,
        ((r as int) + 1) * ((r as int) + 1) > n as int,
        r <= n / 2 + 1,
{
    let mut lo: usize = 0;
    let mut hi: usize = n / 2 + 2;
    proof {
        lemma_fundamental_div_mod(n as int, 2);
        assert((n as int / 2 + 2) * (n as int / 2 + 2) > n as int) by (nonlinear_arith)
            requires
                n as int <= 2 * (n as int / 2) + 1,
                n as int / 2 >= 0,
        ;
    }
    while hi - lo > 1
        invariant
            lo < hi <= n / 2 + 2,
            (lo as int) * (lo as int) <= n as int,
            (hi as int) * (hi as int) > n as int,
        decreases hi - lo,
    {
        let mid = lo + (hi - lo) / 2;
        proof {
            assert((mid as u128) * (mid as u128) < 0x100000000000000000000000000000000)
                by (nonlinear_arith)
                requires
                    mid as u128 <= 0x8000000000000002u128,
            ;
        }
        let sq: u128 = (mid as u128) * (mid as u128);
        if sq <= n as u128 {
            lo = mid;
        } else {
            hi = mid;
        }
    }
    lo
}

/// A composite number has a prime divisor whose square does not exceed it.
proof fn lemma_small_prime_divisor(m: int) -> (q: int)
    requires
        m >= 2,
        !is_prime(m),
    ensures
        is_prime(q),
        2 <= q,
        q * q <= m,
        m % q == 0,
{
    let d = choose|d: int| 2 <= d < m && #[trigger] (m % d) == 0;
    lemma_fundamental_div_mod(m, d);
    let e = m / d;
    assert(m == d * e);
    assert(e >= 2) by (nonlinear_arith)
        requires
            m == d * e,
            2 <= d < m,
    ;
    if d * d <= m {
        let q = lemma_exists_prime_divisor(d);
        lemma_divides_transitive(q, d, m);
        assert(q * q <= m) by (nonlinear_arith)
            requires
                2 <= q <= d,
                d * d <= m,
        ;
        q
    } else {
        assert(e * e <= m) by (nonlinear_arith)
            requires
                m == d * e,
                d * d > m,
                2 <= d,
                2 <= e,
        ;
        lemma_mul_is_commutative(d, e);
        lemma_mod_multiples_basic(d, e);
        let q = lemma_exists_prime_divisor(e);
        lemma_divides_transitive(q, e, m);
        assert(q * q <= m) by (nonlinear_arith)
            requires
                2 <= q <= e,
                e * e <= m,
        ;
        q
    }
}

/// The prime factorisation of `n`, as ascending `(prime, multiplicity)`
/// pairs whose product is `n`; the empty list for `n == 1`. Trial division
/// by the primes up to the square root, with whatever is left over a prime.
pub fn prime_factors(n: usize) -> (r: Vec<(usize, usize)>)
    requires
        1 <= n,
    ensures
        pair_prod(r@) == n as int,
        forall|t: int|
            0 <= t < r@.len() ==> is_prime((#[trigger] r@[t]).0 as int) && r@[t].1 >= 1,
        forall|t1: int, t2: int| 0 <= t1 < t2 < r@.len() ==> r@[t1].0 < r@[t2].0,
{
    let s = isqrt(n);
    proof {
        if s >= 6 {
            assert(2 * (s as int) + 4 <= (s as int) * (s as int)) by (nonlinear_arith)
                requires
                    s >= 6,
            ;
        }
        assert(2 * (s as int + 2) <= usize::MAX as int);
    }
    let ps = primes(s + 2);
    let mut m = n;
    let mut res: Vec<(usize, usize)> = Vec::new();
    let mut idx: usize = 0;
    while idx < ps.len()
        invariant
            1 <= m <= n,
            idx <= ps@.len(),
            (s as int) * (s as int) <= n as int,
            ((s as int) + 1) * ((s as int) + 1) > n as int,
            forall|t: int|
                0 <= t < ps@.len() ==> is_prime((#[trigger] ps@[t]) as int) && ps@[t] <= s + 2,
            forall|t1: int, t2: int| 0 <= t1 < t2 < ps@.len() ==> ps@[t1] < ps@[t2],
            forall|q: usize| 2 <= q <= s + 2 && is_prime(q as int) ==> ps@.contains(q),
            pair_prod(res@) >= 1,
            pair_prod(res@) * (m as int) == n as int,
            forall|t: int| 0 <= t < idx ==> (m as int) % ((#[trigger] ps@[t]) as int) != 0,
            forall|t: int|
                0 <= t < res@.len() ==> exists|j: int|
                    0 <= j < idx && ps@[j] == (#[trigger] res@[t]).0,
            forall|t: int|
                0 <= t < res@.len() ==> is_prime((#[trigger] res@[t]).0 as int) && res@[t].1 >= 1,
            forall|t1: int, t2: int| 0 <= t1 < t2 < res@.len() ==> res@[t1].0 < res@[t2].0,
        decreases ps@.len() - idx,
    {
        let p = ps[idx];
        let ghost m_entry: usize = m;
        let mut count: usize = 0;
        proof {
            lemma_pow0(p as int);
        }
        while m % p == 0
            invariant
                2 <= p,
                1 <= m,
                m as int + count <= m_entry as int,
                (m as int) * pow(p as int, count as nat) == m_entry as int,
            decreases m,
        {
            let ghost m_old: usize = m;
            proof {
                lemma_fundamental_div_mod(m as int, p as int);
                assert(m_old as int == (p as int) * (m_old as int / p as int));
                assert(m_old / p >= 1 && m_old / p < m_old) by (nonlinear_arith)
                    requires
                        m_old as int == (p as int) * (m_old as int / p as int),
                        m_old >= 1,
                        p >= 2,
                ;
            }
            m = m / p;
            count = count + 1;
            proof {
                assert(pow(p as int, count as nat) == (p as int) * pow(
                    p as int,
                    (count - 1) as nat,
                )) by {
                    lemma_pow_adds(p as int, (count - 1) as nat, 1);
                    lemma_pow1(p as int);
                    lemma_mul_is_commutative(pow(p as int, (count - 1) as nat), p as int);
                }
                assert((m as int) * pow(p as int, count as nat) == m_entry as int)
                    by (nonlinear_arith)
                    requires
                        m_old as int == (p as int) * (m as int),
                        (m_old as int) * pow(p as int, (count - 1) as nat) == m_entry as int,
                        pow(p as int, count as nat) == (p as int) * pow(
                            p as int,
                            (count - 1) as nat,
                        ),
                ;
            }
        }
        if count > 0 {
            let ghost res0: Seq<(usize, usize)> = res@;
            res.push((p, count));
            proof {
                assert(res@.drop_last() =~= res0);
                assert(res@.last() == (p, count));
                lemma_pow_positive(p as int, count as nat);
                assert(pair_prod(res@) == pair_prod(res0) * pow(p as int, count as nat));
                assert(pair_prod(res@) >= 1 && pair_prod(res@) * (m as int) == n as int)
                    by (nonlinear_arith)
                    requires
                        pair_prod(res@) == pair_prod(res0) * pow(p as int, count as nat),
                        (m as int) * pow(p as int, count as nat) == m_entry as int,
                        pair_prod(res0) * (m_entry as int) == n as int,
                        pair_prod(res0) >= 1,
                        pow(p as int, count as nat) >= 1,
                        m >= 1,
                ;
                assert forall|t1: int, t2: int|
                    0 <= t1 < t2 < res@.len() implies res@[t1].0 < res@[t2].0 by {
                    if t2 == res0.len() {
                        let j = choose|j: int| 0 <= j < idx && ps@[j] == res0[t1].0;
                        assert(ps@[j] < ps@[idx as int]);
                    }
                }
            }
        } else {
            proof {
                lemma_pow0(p as int);
                assert(m == m_entry);
            }
        }
        proof {
            // whatever still divides the remainder divided the value the
            // round started from, so earlier primes stay excluded
            lemma_mul_is_commutative(m as int, pow(p as int, count as nat));
            lemma_mod_multiples_basic(pow(p as int, count as nat), m as int);
            assert forall|t: int| 0 <= t < idx + 1 implies (m as int) % ((#[trigger] ps@[t]) as int)
                != 0 by {
                if t < idx && (m as int) % (ps@[t] as int) == 0 {
                    lemma_divides_transitive(ps@[t] as int, m as int, m_entry as int);
                    assert(false);
                }
            }
        }
        idx += 1;
    }
    if m > 1 {
        proof {
            if !is_prime(m as int) {
                let q = lemma_small_prime_divisor(m as int);
                assert(q <= s as int) by (nonlinear_arith)
                    requires
                        q * q <= m as int,
                        m as int <= n as int,
                        ((s as int) + 1) * ((s as int) + 1) > n as int,
                        q >= 2,
                        s >= 0,
                ;
                assert(ps@.contains(q as usize));
                let t = choose|t: int| 0 <= t < ps@.len() && ps@[t] == q as usize;
                assert(false);
            }
            if m <= s + 2 {
                assert(ps@.contains(m));
                let t = choose|t: int| 0 <= t < ps@.len() && ps@[t] == m;
                lemma_mod_self_0(m as int);
                assert(false);
            }
        }
        let ghost res0: Seq<(usize, usize)> = res@;
        res.push((m, 1));
        proof {
            assert(res@.drop_last() =~= res0);
            assert(res@.last() == (m, 1usize));
            lemma_pow1(m as int);
            assert(pair_prod(res@) == pair_prod(res0) * (m as int));
            assert forall|t1: int, t2: int|
                0 <= t1 < t2 < res@.len() implies res@[t1].0 < res@[t2].0 by {
                if t2 == res0.len() {
                    let j = choose|j: int| 0 <= j < ps@.len() && ps@[j] == res0[t1].0;
                }
            }
        }
    }
    res
}

/// Skipping a composite bound does not change which prime divisors are
/// excluded.
proof fn lemma_sieve_skip(arr: Seq<bool>, n: int, p: int)
    requires
        2 <= p <= n,
        arr.len() == n + 1,
        !is_prime(p),
        forall|m: int| 2 <= m <= n ==> ((#[trigger] arr[m]) <==> no_small_prime_divisor(m, p)),
    ensures
        forall|m: int| 2 <= m <= n ==> ((#[trigger] arr[m]) <==> no_small_prime_divisor(m, p + 1)),
{
    assert forall|m: int|
        2 <= m <= n implies ((#[trigger] arr[m]) <==> no_small_prime_divisor(m, p + 1)) by {
        if arr[m] {
            assert forall|q: int| 2 <= q < p + 1 && is_prime(q) && #[trigger] (m % q) == 0 implies q
                == m by {
                assert(q != p);
            }
        }
    }
}

} // verus!
