use vstd::prelude::*;

verus! {

/// `p` is a prime number.
pub open spec fn is_prime(p: int) -> bool {
    p >= 2 && forall|d: int| 2 <= d < p ==> #[trigger] (p % d) != 0
}

/// `d` is a divisor of `j` at least 2 and at most its square root.
pub open spec fn small_factor(j: int, d: int) -> bool {
    2 <= d && d * d <= j && j % d == 0
}

proof fn lemma_small_factor_not_prime(j: int, d: int)
    requires
        small_factor(j, d),
    ensures
        !is_prime(j),
{
    assert(d < j) by (nonlinear_arith)
        requires
            2 <= d,
            d * d <= j,
    ;
    assert(j % d == 0);
}

/// A number of at least 2 that is not prime has a divisor no larger than
/// its square root.
proof fn lemma_composite_small_factor(j: int) -> (d: int)
    requires
        j >= 2,
        !is_prime(j),
    ensures
        small_factor(j, d),
{
    let d0 = choose|d: int| 2 <= d < j && #[trigger] (j % d) == 0;
    vstd::arithmetic::div_mod::lemma_fundamental_div_mod(j, d0);
    let e = j / d0;
    assert(j == d0 * e);
    if d0 * d0 <= j {
        d0
    } else {
        assert(2 <= e && e * e <= j) by (nonlinear_arith)
            requires
                j == d0 * e,
                2 <= d0 < j,
                d0 * d0 > j,
        ;
        vstd::arithmetic::div_mod::lemma_mod_multiples_basic(d0, e);
        assert(j == d0 * e);
        assert(j % e == 0);
        e
    }
}

/// Divisors of odd numbers are odd.
proof fn lemma_divisor_of_odd(j: int, d: int)
    requires
        j % 2 == 1,
        d >= 2,
        j % d == 0,
    ensures
        d % 2 == 1,
{
    vstd::arithmetic::div_mod::lemma_fundamental_div_mod(j, d);
    let k = j / d;
    if d % 2 == 0 {
        vstd::arithmetic::div_mod::lemma_fundamental_div_mod(d, 2);
        let h = d / 2;
        assert(j == 2 * (h * k)) by (nonlinear_arith)
            requires
                j == d * k,
                d == 2 * h,
        ;
        vstd::arithmetic::div_mod::lemma_mod_multiples_basic(h * k, 2);
    }
}

/// A divisor of a divisor is a divisor.
proof fn lemma_divides_trans(j: int, i: int, e: int)
    requires
        e > 0,
        i > 0,
        j % i == 0,
        i % e == 0,
    ensures
        j % e == 0,
{
    vstd::arithmetic::div_mod::lemma_fundamental_div_mod(j, i);
    vstd::arithmetic::div_mod::lemma_fundamental_div_mod(i, e);
    let (k1, k2) = (j / i, i / e);
    assert(j == (k2 * k1) * e) by (nonlinear_arith)
        requires
            j == i * k1,
            i == e * k2,
    ;
    vstd::arithmetic::div_mod::lemma_mod_multiples_basic(k2 * k1, e);
}

/// An odd multiple `j >= i * i` of the odd `i` is `i * m` with `m` odd and
/// at least `i`.
proof fn lemma_odd_cofactor(j: int, i: int) -> (m: int)
    requires
        i >= 3,
        j % 2 == 1,
        j % i == 0,
        i * i <= j,
    ensures
        j == i * m,
        m >= i,
        m % 2 == 1,
{
    vstd::arithmetic::div_mod::lemma_fundamental_div_mod(j, i);
    let m = j / i;
    assert(m >= i) by (nonlinear_arith)
        requires
            j == i * m,
            i * i <= j,
            i >= 3,
    ;
    vstd::arithmetic::div_mod::lemma_mod_multiples_basic(i, m);
    assert(j == m * i) by (nonlinear_arith)
        requires
            j == i * m,
    ;
    lemma_divisor_of_odd(j, m);
    m
}

/// `qs` is the ascending list of all primes below `b`.
pub open spec fn primes_below(qs: Seq<u32>, b: int) -> bool {
    &&& forall|k: int| 0 <= k < qs.len() ==> #[trigger] qs[k] < b && is_prime(qs[k] as int)
    &&& forall|k1: int, k2: int| 0 <= k1 < k2 < qs.len() ==> qs[k1] < qs[k2]
    &&& forall|p: int| 0 <= p < b && #[trigger] is_prime(p) ==> qs.contains(p as u32)
}

/// Returns the primes below `n` in ascending order (a sieve of Eratosthenes
/// over the odd numbers, with 2 added by hand).
pub fn get_primes(n: u32) -> (r: Vec<u32>)
    ensures
        forall|k: int| 0 <= k < r.len() ==> 2 <= #[trigger] r[k] < n && is_prime(r[k] as int),
        forall|k1: int, k2: int| 0 <= k1 < k2 < r.len() ==> r[k1] < r[k2],
        forall|p: int| 0 <= p < n && #[trigger] is_prime(p) ==> r@.contains(p as u32),
        primes_below(r@, n as int),
{
    let nn = n as u64;
    let mut sieve: Vec<bool> = Vec::new();
    let mut f: u64 = 0;
    while f < nn
        invariant
            f <= nn,
            nn == n,
            sieve.len() == f,
            forall|j: int| 0 <= j < f ==> sieve[j],
        decreases nn - f,
    {
        sieve.push(true);
        f = f + 1;
    }
    let mut i: u64 = 3;
    while i * i < nn
        invariant
            3 <= i <= 0x1_0001,
            i % 2 == 1,
            i * i <= 0x1_0001 * 0x1_0001,
            i <= nn + 3,
            nn == n,
            sieve.len() == nn,
            forall|j: int| 0 <= j < nn && !#[trigger] sieve[j] ==> exists|d: int| small_factor(j, d),
            forall|j: int, d: int|
                0 <= j < nn && j % 2 == 1 && 3 <= d < i && d % 2 == 1 && #[trigger] small_factor(j, d)
                    ==> !sieve[j],
        decreases nn + 3 - i,
    {
        proof {
            assert(i < 0x1_0000 && i < nn) by (nonlinear_arith)
                requires
                    3 <= i,
                    i * i < nn,
                    nn <= 0xffff_ffff,
            ;
        }
        if sieve[i as usize] {
            let mut j: u64 = i * i;
            let ghost mut m: int = i as int;
            while j < nn
                invariant
                    3 <= i < 0x1_0000,
                    i % 2 == 1,
                    i * i < nn,
                    i <= m,
                    m % 2 == 1,
                    j == i * m,
                    j <= nn + 2 * i,
                    nn == n,
                    sieve.len() == nn,
                    forall|j: int| 0 <= j < nn && !#[trigger] sieve[j] ==> exists|d: int| small_factor(j, d),
                    forall|j: int, d: int|
                        0 <= j < nn && j % 2 == 1 && 3 <= d < i && d % 2 == 1 && #[trigger] small_factor(j, d)
                            ==> !sieve[j],
                    forall|m2: int| i <= m2 < m && m2 % 2 == 1 && i * m2 < nn ==> !#[trigger] sieve[i * m2],
                decreases nn + 2 * i - j,
            {
                proof {
                    vstd::arithmetic::div_mod::lemma_mod_multiples_basic(m, i as int);
                    assert(i * i <= i * m) by (nonlinear_arith)
                        requires
                            3 <= i,
                            i <= m,
                    ;
                    assert(i * m == m * i) by (nonlinear_arith);
                    assert(small_factor(j as int, i as int));
                }
                sieve.set(j as usize, false);
                proof {
                    assert forall|m2: int| i <= m2 <= m && m2 % 2 == 1 && i * m2 < nn implies !#[trigger] sieve[i
                        * m2] by {
                        if m2 == m {
                            assert(i * m2 == j);
                        }
                    }
                }
                j = j + 2 * i;
                proof {
                    assert(j == i * (m + 2)) by (nonlinear_arith)
                        requires
                            j == i * m + 2 * i,
                    ;
                    m = m + 2;
                }
            }
            proof {
                assert forall|j: int, d: int|
                    0 <= j < nn && j % 2 == 1 && 3 <= d < i + 2 && d % 2 == 1 && #[trigger] small_factor(j, d)
                        implies !sieve[j] by {
                    if d == i {
                        let m2 = lemma_odd_cofactor(j, i as int);
                        assert(m2 < m) by (nonlinear_arith)
                            requires
                                j == i * m2,
                                j < nn,
                                nn <= i * m,
                                i > 0,
                        ;
                    }
                }
            }
        } else {
            proof {
                let e = choose|d: int| small_factor(i as int, d);
                lemma_divisor_of_odd(i as int, e);
                assert(e < i) by (nonlinear_arith)
                    requires
                        2 <= e,
                        e * e <= i,
                ;
                assert forall|j: int, d: int|
                    0 <= j < nn && j % 2 == 1 && 3 <= d < i + 2 && d % 2 == 1 && #[trigger] small_factor(j, d)
                        implies !sieve[j] by {
                    if d == i {
                        lemma_divides_trans(j, i as int, e);
                        assert(e * e <= j) by (nonlinear_arith)
                            requires
                                e * e <= i,
                                i * i <= j,
                                i >= 3,
                        ;
                        assert(small_factor(j, e));
                    }
                }
            }
        }
        i = i + 2;
        proof {
            assert(i * i <= 0x1_0001 * 0x1_0001) by (nonlinear_arith)
                requires
                    3 <= i <= 0x1_0001,
            ;
        }
    }
    let ghost top = i as int;
    let mut primes: Vec<u32> = Vec::new();
    if n > 2 {
        primes.push(2);
        assert(primes[0] == 2);
        assert forall|d: int| 2 <= d < 2 implies #[trigger] (2int % d) != 0 by {}
        assert(is_prime(2));
    }
    proof {
        assert(!is_prime(0));
        assert(!is_prime(1));
        assert(forall|p: int| 0 <= p < 3 && #[trigger] is_prime(p) ==> p == 2);
    }
    let mut i: u64 = 3;
    while i < nn
        invariant
            3 <= i <= nn + 3,
            i % 2 == 1,
            nn == n,
            nn <= top * top,
            top >= 3,
            sieve.len() == nn,
            forall|j: int| 0 <= j < nn && !#[trigger] sieve[j] ==> exists|d: int| small_factor(j, d),
            forall|j: int, d: int|
                0 <= j < nn && j % 2 == 1 && 3 <= d < top && d % 2 == 1 && #[trigger] small_factor(j, d)
                    ==> !sieve[j],
            forall|k: int| 0 <= k < primes.len() ==> 2 <= #[trigger] primes[k] < i,
            forall|k: int| 0 <= k < primes.len() ==> #[trigger] primes[k] < n && is_prime(primes[k] as int),
            forall|k1: int, k2: int| 0 <= k1 < k2 < primes.len() ==> primes[k1] < primes[k2],
            forall|p: int| 0 <= p < i && p < n && #[trigger] is_prime(p) ==> primes@.contains(p as u32),
        decreases nn + 3 - i,
    {
        let ghost old_primes = primes@;
        if sieve[i as usize] {
            proof {
                if !is_prime(i as int) {
                    let d = lemma_composite_small_factor(i as int);
                    lemma_divisor_of_odd(i as int, d);
                    assert(d < top) by (nonlinear_arith)
                        requires
                            d * d <= i,
                            i < nn,
                            nn <= top * top,
                            d >= 2,
                            top >= 3,
                    ;
                    assert(small_factor(i as int, d));
                }
            }
            primes.push(i as u32);
            assert(primes[primes.len() - 1] == i as u32);
        }
        proof {
            assert(forall|k: int| 0 <= k < old_primes.len() ==> primes[k] == old_primes[k]);
            assert(forall|p: int| 0 <= p < i && p < n && #[trigger] is_prime(p) ==> primes@.contains(p as u32)) by {
                assert forall|p: int| 0 <= p < i && p < n && #[trigger] is_prime(p) implies primes@.contains(p as u32) by {
                    let k = choose|k: int| 0 <= k < old_primes.len() && old_primes[k] == p as u32;
                    assert(primes[k] == p as u32);
                }
            }
            if !sieve[i as int] {
                let d = choose|d: int| small_factor(i as int, d);
                lemma_small_factor_not_prime(i as int, d);
            }
            let e = (i + 1) as int;
            assert(e % 2 == 0);
            assert(!is_prime(e));
        }
        i = i + 2;
    }
    primes
}

} // verus!
