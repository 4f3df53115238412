use vstd::prelude::*;
use crate::bigint::{Int, bit_len, bits, lemma_bit_len_bound, from_u64, gen_range, int_eq, is_odd, int_lt, seeded_rng};
use crate::curve::{EllipticCurve, Point, ec_mul};
use crate::modular::{divides, modulus_limit};
use crate::sieve::{get_primes, is_prime, primes_below};
use crate::primality::{miller_rabin, probable_prime};

verus! {

/// Why no factor was returned.
#[derive(Clone, Copy, Debug, PartialEq, Eq, Structural)]
pub enum FactorError {
    /// The modulus is below 3 or even.
    InvalidModulus,
    /// Every curve allowed by the budget was tried without finding a factor.
    BudgetExhausted,
}

/// The largest power of `q` below `limit`, starting the search from `i`.
pub open spec fn max_power_below(q: int, i: int, limit: int) -> int
    decreases limit - i
    via max_power_below_decreases
{
    if q >= 2 && i >= 1 && q * i < limit {
        max_power_below(q, q * i, limit)
    } else {
        i
    }
}

#[via_fn]
proof fn max_power_below_decreases(q: int, i: int, limit: int) {
    if q >= 2 && i >= 1 && q * i < limit {
        assert(q * i > i) by (nonlinear_arith)
            requires
                q >= 2,
                i >= 1,
        ;
    }
}

/// Runs the curve over the prime powers of the schedule `qs`, one after the
/// other, stopping at the first common factor met.
pub open spec fn sweep(a: int, p: (int, int), qs: Seq<u32>, limit: int, m: int) -> Result<(int, int), int>
    decreases qs.len(),
{
    if qs.len() == 0 {
        Ok(p)
    } else {
        match sweep(a, p, qs.drop_last(), limit, m) {
            Ok(h) => ec_mul(a, h, max_power_below(qs.last() as int, qs.last() as int, limit) as nat, m),
            Err(g) => Err(g),
        }
    }
}

/// The factor that one curve yields: the common factor met in the sweep,
/// unless it is the modulus itself.
pub open spec fn curve_factor(a: int, p: (int, int), qs: Seq<u32>, limit: int, m: int) -> Option<int> {
    match sweep(a, p, qs, limit, m) {
        Err(g) => if g != m {
            Some(g)
        } else {
            None
        },
        Ok(_) => None,
    }
}

/// Once a sweep has met a factor, longer schedules meet the same one.
proof fn lemma_sweep_error_persists(a: int, p: (int, int), qs: Seq<u32>, i: int, limit: int, m: int)
    requires
        0 <= i <= qs.len(),
        sweep(a, p, qs.subrange(0, i), limit, m) is Err,
    ensures
        sweep(a, p, qs, limit, m) == sweep(a, p, qs.subrange(0, i), limit, m),
    decreases qs.len() - i,
{
    if i < qs.len() {
        let next = qs.subrange(0, i + 1);
        assert(next.drop_last() =~= qs.subrange(0, i));
        lemma_sweep_error_persists(a, p, qs, i + 1, limit, m);
    } else {
        assert(qs.subrange(0, i) =~= qs);
    }
}

/// The largest power of the prime `q` below `limit`.
pub fn prime_power(q: u32, limit: u64) -> (r: u64)
    requires
        2 <= q,
        q < limit <= 0x1_0000_0000,
    ensures
        r == max_power_below(q as int, q as int, limit as int),
        1 <= r < limit,
{
    let q = q as u64;
    let mut pk: u64 = q;
    proof {
        assert(q * pk <= 0xffff_ffff * 0xffff_ffff) by (nonlinear_arith)
            requires
                q <= 0xffff_ffff,
                pk <= 0xffff_ffff,
        ;
    }
    while q * pk < limit
        invariant
            2 <= q < limit <= 0x1_0000_0000,
            1 <= pk < limit,
            q * pk <= 0xffff_ffff * 0xffff_ffff,
            max_power_below(q as int, pk as int, limit as int) == max_power_below(
                q as int,
                q as int,
                limit as int,
            ),
        decreases limit - pk,
    {
        proof {
            assert(q * pk > pk) by (nonlinear_arith)
                requires
                    q >= 2,
                    pk >= 1,
            ;
        }
        pk = q * pk;
        proof {
            assert(q * pk <= 0xffff_ffff * 0xffff_ffff) by (nonlinear_arith)
                requires
                    q <= 0xffff_ffff,
                    pk <= 0xffff_ffff,
            ;
        }
    }
    pk
}

/// Tries one curve with coefficient `curve.a` and start point `p` over the
/// prime powers below `limit` of `primes`, and returns the proper factor of
/// `m` that it reveals, if any.
pub fn try_curve(curve: &EllipticCurve, p: Point, primes: &Vec<u32>, limit: u64, m: Int) -> (r: Option<Int>)
    requires
        1 < m.val() < modulus_limit(),
        0 <= curve.a.val() < m.val(),
        p.reduced(m.val()),
        limit <= 0x1_0000_0000,
        forall|k: int| 0 <= k < primes.len() ==> 2 <= #[trigger] primes[k] < limit,
    ensures
        (match r {
            Some(g) => curve_factor(curve.a.val(), p@, primes@, limit as int, m.val()) == Some(g.val()),
            None => curve_factor(curve.a.val(), p@, primes@, limit as int, m.val()) is None,
        }),
        r matches Some(g) ==> 1 < g.val() < m.val() && divides(g.val(), m.val()),
{
    let mut cur = p;
    let mut idx: usize = 0;
    while idx < primes.len()
        invariant
            1 < m.val() < modulus_limit(),
            0 <= curve.a.val() < m.val(),
            cur.reduced(m.val()),
            limit <= 0x1_0000_0000,
            forall|k: int| 0 <= k < primes.len() ==> 2 <= #[trigger] primes[k] < limit,
            0 <= idx <= primes.len(),
            sweep(curve.a.val(), p@, primes@.subrange(0, idx as int), limit as int, m.val()) == Ok::<
                (int, int),
                int,
            >(cur@),
        decreases primes.len() - idx,
    {
        let q = primes[idx];
        let k = prime_power(q, limit);
        let res = curve.multiply(cur, k, m);
        proof {
            assert(primes@.subrange(0, idx + 1).drop_last() =~= primes@.subrange(0, idx as int));
        }
        match res {
            Ok(nxt) => {
                cur = nxt;
            },
            Err(g) => {
                proof {
                    lemma_sweep_error_persists(curve.a.val(), p@, primes@, idx + 1, limit as int, m.val());
                    crate::modular::lemma_divisor_at_most(g.val(), m.val());
                }
                if int_eq(g, m) {
                    return None;
                }
                return Some(g);
            },
        }
        idx = idx + 1;
    }
    proof {
        assert(primes@.subrange(0, idx as int) =~= primes@);
    }
    None
}

/// The smoothness bound for `n`: two to the fifth of its bit length.
pub open spec fn smoothness_bound(n: int) -> int {
    vstd::arithmetic::power2::pow2(bit_len(n as nat) / 5) as int
}

/// A proper divisor rules out primality.
proof fn lemma_proper_divisor_not_prime(g: int, n: int)
    requires
        1 < g < n,
        divides(g, n),
    ensures
        !is_prime(n),
{
    let k = choose|k: int| #[trigger] (k * g) == n;
    vstd::arithmetic::div_mod::lemma_mod_multiples_basic(k, g);
    assert(n % g == 0);
}

/// Looks for a proper factor of the odd modulus `n` with Lenstra's
/// elliptic-curve method. A generator seeded with 0 first drives a
/// Miller–Rabin test of `n`, which rejects `n` when it is judged prime; then
/// at most `max_curves` random curves are drawn, each swept over the prime
/// powers below `smoothness_bound(n)`.
pub fn find_factor(n: Int, max_curves: u64) -> (r: Result<Int, FactorError>)
    requires
        n.val() < modulus_limit(),
    ensures
        n.val() < 3 || n.val() % 2 == 0 ==> r == Err::<Int, FactorError>(FactorError::InvalidModulus),
        r == Err::<Int, FactorError>(FactorError::InvalidModulus) ==> n.val() < 3 || n.val() % 2 == 0
            || probable_prime(n.val()),
        is_prime(n.val()) ==> r is Err,
        3 <= n.val() && n.val() % 2 == 1 && max_curves == 0 ==> r == Err::<Int, FactorError>(
            FactorError::BudgetExhausted,
        ) || (r == Err::<Int, FactorError>(FactorError::InvalidModulus) && probable_prime(n.val())),
        r matches Ok(g) ==> 1 < g.val() < n.val() && divides(g.val(), n.val()),
        r matches Ok(g) ==> exists|qs: Seq<u32>, a: int, x: int, y: int|
            primes_below(qs, smoothness_bound(n.val())) && 1 <= a < n.val() && 1 <= x < n.val() && 1 <= y
                < n.val() && #[trigger] curve_factor(a, (x, y), qs, smoothness_bound(n.val()), n.val())
                == Some(g.val()),
{
    let one = from_u64(1);
    if int_lt(n, from_u64(3)) || !is_odd(n) {
        return Err(FactorError::InvalidModulus);
    }
    let mut rng = seeded_rng(0);
    if miller_rabin(n, &mut rng) {
        return Err(FactorError::InvalidModulus);
    }
    proof {
        vstd::arithmetic::power2::lemma2_to64();
        vstd::arithmetic::power2::lemma2_to64_rest();
        vstd::arithmetic::power2::lemma_pow2_adds(63, 63);
        let h = vstd::arithmetic::power2::pow2(63);
        assert(h == 0x8000_0000_0000_0000int);
        assert(vstd::arithmetic::power2::pow2(126) == h * h);
        assert(h * h == 0x8000_0000_0000_0000int * 0x8000_0000_0000_0000int);
        assert(0x8000_0000_0000_0000int * 0x8000_0000_0000_0000int == 0x4000_0000_0000_0000_0000_0000_0000_0000int);
        lemma_bit_len_bound(n.val() as nat, 126);
    }
    let e = bits(n) / 5;
    let mut limit: u64 = 1;
    let mut i: u32 = 0;
    while i < e
        invariant
            e <= 25,
            i <= e,
            limit == vstd::arithmetic::power2::pow2(i as nat),
            limit <= 0x200_0000,
        decreases e - i,
    {
        proof {
            vstd::arithmetic::power2::lemma_pow2_unfold((i + 1) as nat);
            vstd::arithmetic::power2::lemma2_to64();
            if i + 1 < 25 {
                vstd::arithmetic::power2::lemma_pow2_strictly_increases((i + 1) as nat, 25);
            }
        }
        limit = limit * 2;
        i = i + 1;
    }
    let primes = get_primes(limit as u32);
    assert(limit as int == smoothness_bound(n.val()));
    let mut attempt: u64 = 0;
    while attempt < max_curves
        invariant
            3 <= n.val() < modulus_limit(),
            n.val() % 2 == 1,
            one.val() == 1,
            limit <= 0x1_0000_0000,
            limit as int == smoothness_bound(n.val()),
            primes_below(primes@, limit as int),
            forall|k: int| 0 <= k < primes.len() ==> 2 <= #[trigger] primes[k] < limit,
        decreases max_curves - attempt,
    {
        let curve = EllipticCurve { a: gen_range(&mut rng, one, n) };
        let x = gen_range(&mut rng, one, n);
        let y = gen_range(&mut rng, one, n);
        if let Some(g) = try_curve(&curve, Point { x, y }, &primes, limit, n) {
            proof {
                let (av, xv, yv) = (curve.a.val(), x.val(), y.val());
                assert(curve_factor(av, (xv, yv), primes@, smoothness_bound(n.val()), n.val()) == Some(g.val()));
                lemma_proper_divisor_not_prime(g.val(), n.val());
            }
            return Ok(g);
        }
        attempt = attempt + 1;
    }
    Err(FactorError::BudgetExhausted)
}

} // verus!
