use vstd::prelude::*;
use vstd::arithmetic::power::pow;
use crate::bigint::{Int, from_u64, gen_range, int_div, int_eq, int_lt, int_mul, int_rem, int_sub, is_odd};
use crate::modular::{lemma_residue_product, residue_limit};

verus! {

/// `v` with every factor 2 removed (0 stays 0).
pub open spec fn odd_part(v: nat) -> nat
    decreases v,
{
    if v > 0 && v % 2 == 0 {
        odd_part(v / 2)
    } else {
        v
    }
}

/// How many times 2 divides `v` (0 for `v == 0`).
pub open spec fn twos(v: nat) -> nat
    decreases v,
{
    if v > 0 && v % 2 == 0 {
        1 + twos(v / 2)
    } else {
        0
    }
}

/// `a^(d * 2^j) mod n` with `d` the odd part of `n - 1`, by repeated squaring.
pub open spec fn square_chain(a: int, n: int, j: nat) -> int
    decreases j,
{
    if j == 0 {
        pow(a, odd_part((n - 1) as nat)) % n
    } else {
        let x = square_chain(a, n, (j - 1) as nat);
        (x * x) % n
    }
}

/// The strong-pseudoprime round with witness `a`: the chain ends at 1 and no
/// square root of 1 other than 1 and `n - 1` appears on it.
pub open spec fn round_passes(n: int, a: int) -> bool {
    let s = twos((n - 1) as nat);
    &&& square_chain(a, n, s) == 1
    &&& forall|j: nat|
        j < s ==> !(#[trigger] square_chain(a, n, j + 1) == 1 && square_chain(a, n, j) != 1
            && square_chain(a, n, j) != n - 1)
}

/// What a "prime" verdict certifies: `n` is 2 or 3, or a witness in
/// `[2, n - 2]` passed the round.
pub open spec fn probable_prime(n: int) -> bool {
    n == 2 || n == 3 || (n > 3 && exists|a: int| 2 <= a <= n - 2 && #[trigger] round_passes(n, a))
}

/// `a^e mod m`, by halving the exponent.
pub fn pow_mod(a: Int, e: Int, m: Int) -> (r: Int)
    requires
        0 <= a.val() < m.val(),
        1 < m.val() < residue_limit(),
        0 <= e.val(),
    ensures
        r.val() == pow(a.val(), e.val() as nat) % m.val(),
        0 <= r.val() < m.val(),
    decreases e.val(),
{
    let zero = from_u64(0);
    if int_eq(e, zero) {
        proof {
            vstd::arithmetic::power::lemma_pow0(a.val());
            vstd::arithmetic::div_mod::lemma_small_mod(1, m.val() as nat);
        }
        return from_u64(1);
    }
    let two = from_u64(2);
    let half = int_div(e, two);
    let res = pow_mod(a, half, m);
    proof {
        lemma_residue_product(res.val(), res.val(), m.val());
    }
    let sq = int_rem(int_mul(res, res), m);
    let ghost hv = half.val() as nat;
    let ghost ph = pow(a.val(), hv);
    proof {
        vstd::arithmetic::power::lemma_pow_adds(a.val(), hv, hv);
        vstd::arithmetic::div_mod::lemma_mul_mod_noop(ph, ph, m.val());
    }
    if is_odd(e) {
        proof {
            lemma_residue_product(sq.val(), a.val(), m.val());
            vstd::arithmetic::power::lemma_pow_adds(a.val(), hv + hv, 1);
            vstd::arithmetic::power::lemma_pow1(a.val());
            vstd::arithmetic::div_mod::lemma_mul_mod_noop_left(ph * ph, a.val(), m.val());
            assert(e.val() == hv + hv + 1);
        }
        int_rem(int_mul(sq, a), m)
    } else {
        proof {
            assert(e.val() == hv + hv);
        }
        sq
    }
}

/// One strong-pseudoprime round of `n` with witness `a`.
pub fn strong_round(n: Int, a: Int) -> (r: bool)
    requires
        3 < n.val() < residue_limit(),
        0 <= a.val() < n.val(),
    ensures
        r == round_passes(n.val(), a.val()),
{
    let one = from_u64(1);
    let two = from_u64(2);
    let nm1 = int_sub(n, one);
    let mut d = nm1;
    let mut s = from_u64(0);
    while !is_odd(d)
        invariant
            one.val() == 1,
            two.val() == 2,
            nm1.val() == n.val() - 1,
            3 < n.val() < residue_limit(),
            0 < d.val() < residue_limit(),
            0 <= s.val() < residue_limit() - d.val(),
            odd_part(d.val() as nat) == odd_part(nm1.val() as nat),
            twos(nm1.val() as nat) == s.val() + twos(d.val() as nat),
        decreases d.val(),
    {
        d = int_div(d, two);
        s = crate::bigint::int_add(s, one);
    }
    let mut x = pow_mod(a, d, n);
    let mut t = from_u64(0);
    let ghost av = a.val();
    let ghost nv = n.val();
    while int_lt(t, s)
        invariant
            one.val() == 1,
            nm1.val() == nv - 1,
            nv == n.val(),
            av == a.val(),
            3 < nv < residue_limit(),
            0 <= t.val() <= s.val() < residue_limit(),
            s.val() == twos((nv - 1) as nat),
            0 <= x.val() < nv,
            x.val() == square_chain(av, nv, t.val() as nat),
            forall|j: nat|
                j < t.val() ==> !(#[trigger] square_chain(av, nv, j + 1) == 1 && square_chain(av, nv, j)
                    != 1 && square_chain(av, nv, j) != nv - 1),
        decreases s.val() - t.val(),
    {
        proof {
            lemma_residue_product(x.val(), x.val(), nv);
        }
        let y = int_rem(int_mul(x, x), n);
        let ghost tv = t.val() as nat;
        assert(y.val() == square_chain(av, nv, tv + 1));
        if int_eq(y, one) && !int_eq(x, one) && !int_eq(x, nm1) {
            return false;
        }
        x = y;
        t = crate::bigint::int_add(t, one);
    }
    int_eq(x, one)
}

/// Miller–Rabin test with twenty random witnesses: exact for `n <= 3`; a
/// "composite" verdict comes with a failing witness, a "prime" verdict with a
/// passing one.
pub fn miller_rabin(n: Int, rng: &mut rand::rngs::StdRng) -> (r: bool)
    requires
        n.val() < residue_limit(),
    ensures
        n.val() <= 3 ==> r == (n.val() >= 2),
        n.val() <= 3 ==> *final(rng) == *old(rng),
        r ==> probable_prime(n.val()),
        n.val() > 3 && !r ==> exists|a: int| 2 <= a <= n.val() - 2 && !#[trigger] round_passes(n.val(), a),
{
    let two = from_u64(2);
    if int_lt(n, from_u64(4)) {
        return !int_lt(n, two);
    }
    let nm1 = int_sub(n, from_u64(1));
    let mut k: u32 = 0;
    while k < 20
        invariant
            two.val() == 2,
            nm1.val() == n.val() - 1,
            3 < n.val() < residue_limit(),
            k > 0 ==> probable_prime(n.val()),
        decreases 20 - k,
    {
        let a = gen_range(rng, two, nm1);
        if !strong_round(n, a) {
            return false;
        }
        k = k + 1;
    }
    true
}

/// The prime `p` divides the candidate `low + i + 1` of a window.
pub open spec fn struck(low: int, i: int, p: int) -> bool {
    (low + i + 1) % p == 0
}

/// No prime of `ps` divides the candidate `low + i + 1`.
pub open spec fn survives(low: int, i: int, ps: Seq<u32>) -> bool {
    forall|k: int| 0 <= k < ps.len() ==> !#[trigger] struck(low, i, ps[k] as int)
}

/// Within less than `p` of a multiple of `p` there is no other multiple.
proof fn lemma_near_multiple(x: int, d: int, p: int)
    requires
        p >= 2,
        x % p == 0,
        -p < d < p,
    ensures
        ((x + d) % p == 0) == (d == 0),
{
    vstd::arithmetic::div_mod::lemma_fundamental_div_mod(x, p);
    vstd::arithmetic::div_mod::lemma_mod_multiples_vanish(x / p, d, p);
    assert(x + d == p * (x / p) + d);
    if d >= 0 {
        vstd::arithmetic::div_mod::lemma_small_mod(d as nat, p as nat);
    } else {
        vstd::arithmetic::div_mod::lemma_mod_multiples_vanish(-1, d + p, p);
        vstd::arithmetic::div_mod::lemma_small_mod((d + p) as nat, p as nat);
        assert(p * -1 + (d + p) == d);
    }
}

/// The survivors of a window: offset `i` stays when no prime of `primes`
/// divides `low + i + 1`.
pub fn strike_window(low: Int, primes: &Vec<u32>, w: u32) -> (r: Vec<bool>)
    requires
        0 <= low.val() < residue_limit(),
        w <= 254,
        forall|k: int| 0 <= k < primes.len() ==> 2 <= #[trigger] primes[k] < w,
    ensures
        r.len() == w,
        forall|i: int| 0 <= i < w ==> #[trigger] r[i] == survives(low.val(), i, primes@),
{
    let ghost lv = low.val();
    let mut window: Vec<bool> = Vec::new();
    let mut f: u32 = 0;
    while f < w
        invariant
            f <= w,
            window.len() == f,
            forall|i: int| 0 <= i < f ==> #[trigger] window[i],
        decreases w - f,
    {
        window.push(true);
        f = f + 1;
    }
    let mut idx: usize = 0;
    while idx < primes.len()
        invariant
            lv == low.val(),
            0 <= lv,
            w <= 254,
            window.len() == w,
            idx <= primes.len(),
            forall|k: int| 0 <= k < primes.len() ==> 2 <= #[trigger] primes[k] < w,
            forall|i: int| 0 <= i < w ==> #[trigger] window[i] == survives(lv, i, primes@.subrange(0, idx as int)),
        decreases primes.len() - idx,
    {
        let p = primes[idx];
        let ghost pv = p as int;
        let rem = crate::bigint::to_u64(int_rem(low, from_u64(p as u64))) as u32;
        let ghost before = window@;
        let mut j: u32 = p - 1 - rem;
        proof {
            vstd::arithmetic::div_mod::lemma_fundamental_div_mod(lv, pv);
            vstd::arithmetic::div_mod::lemma_mod_multiples_basic(lv / pv + 1, pv);
            let qv = lv / pv;
            assert(rem as int == lv % pv);
            assert(lv + j + 1 == (qv + 1) * pv) by (nonlinear_arith)
                requires
                    lv == pv * qv + rem,
                    j == pv - 1 - rem,
            ;
            assert forall|i: int| 0 <= i < j implies !#[trigger] struck(lv, i, pv) by {
                lemma_near_multiple(lv + j + 1, i - j, pv);
            }
        }
        while j < w
            invariant
                2 <= pv < w <= 254,
                pv == p,
                j <= w + p,
                (lv + j + 1) % pv == 0,
                window.len() == w,
                before.len() == w,
                forall|i: int|
                    0 <= i < w ==> #[trigger] window[i] == (before[i] && !(i < j && struck(lv, i, pv))),
            decreases w + p - j,
        {
            let ghost jv = j as int;
            window.set(j as usize, false);
            j = j + p;
            proof {
                vstd::arithmetic::div_mod::lemma_mod_add_multiples_vanish(lv + jv + 1, pv);
                assert forall|i: int| 0 <= i < w implies #[trigger] window[i] == (before[i] && !(i < j
                    && struck(lv, i, pv))) by {
                    if jv < i < j {
                        lemma_near_multiple(lv + jv + 1, i - jv, pv);
                    }
                }
            }
        }
        proof {
            let done = primes@.subrange(0, idx as int);
            let next = primes@.subrange(0, idx as int + 1);
            assert forall|i: int| 0 <= i < w implies #[trigger] window[i] == survives(lv, i, next) by {
                assert(next[idx as int] == p);
                if survives(lv, i, next) {
                    assert forall|k: int| 0 <= k < done.len() implies !#[trigger] struck(lv, i, done[k] as int) by {
                        assert(next[k] == done[k]);
                    }
                    assert(!struck(lv, i, next[idx as int] as int));
                } else {
                    let k = choose|k: int| 0 <= k < next.len() && #[trigger] struck(lv, i, next[k] as int);
                    if k < idx {
                        assert(next[k] == done[k]);
                        assert(struck(lv, i, done[k] as int));
                    }
                }
            }
        }
        idx = idx + 1;
    }
    proof {
        assert(primes@.subrange(0, primes.len() as int) =~= primes@);
    }
    window
}

/// A Miller–Rabin test has rejected `c`: it is above 3 and has a failing witness.
pub open spec fn rejected(c: int) -> bool {
    c > 3 && exists|a: int| 2 <= a <= c - 2 && !#[trigger] round_passes(c, a)
}

/// Tests the candidates `low + i + 1` below `hi` whose offset `i` survived in
/// `window`, in ascending order, and returns the first that the Miller–Rabin
/// test accepts.
pub fn first_probable_prime(low: Int, hi: Int, window: &Vec<bool>, rng: &mut rand::rngs::StdRng) -> (r: Option<
    Int,
>)
    requires
        1 <= low.val() < hi.val() <= residue_limit(),
        window.len() <= 254,
    ensures
        r matches Some(p) ==> exists|i: int|
            0 <= i < window.len() && #[trigger] window[i] && p.val() == low.val() + i + 1 && p.val() < hi.val()
                && probable_prime(p.val()) && forall|j: int|
                0 <= j < i && #[trigger] window[j] && low.val() + j + 1 < hi.val() ==> rejected(
                    low.val() + j + 1,
                ),
        r is None ==> forall|j: int|
            0 <= j < window.len() && #[trigger] window[j] && low.val() + j + 1 < hi.val() ==> rejected(
                low.val() + j + 1,
            ),
{
    let mut i: usize = 0;
    while i < window.len()
        invariant
            1 <= low.val() < hi.val() <= residue_limit(),
            window.len() <= 254,
            i <= window.len(),
            forall|j: int|
                0 <= j < i && #[trigger] window[j] && low.val() + j + 1 < hi.val() ==> rejected(low.val() + j + 1),
        decreases window.len() - i,
    {
        if window[i] {
            let cand = crate::bigint::int_add(low, from_u64((i + 1) as u64));
            if int_lt(cand, hi) {
                if miller_rabin(cand, rng) {
                    assert(window[i as int]);
                    return Some(cand);
                }
            }
        }
        i = i + 1;
    }
    None
}

/// Looks for a prime in `[lo, hi)`: draws a window start `low` in the range,
/// strikes the offsets of `low + 1 ..= low + w` (with `w` twice the bit length
/// of `lo`) that a prime below `w` divides, and runs the Miller–Rabin test on
/// the rest in ascending order; at most `max_windows` windows are drawn.
pub fn find_prime(lo: Int, hi: Int, max_windows: u64, rng: &mut rand::rngs::StdRng) -> (r: Option<Int>)
    requires
        1 <= lo.val() < hi.val() <= residue_limit(),
    ensures
        max_windows == 0 ==> r is None,
        r matches Some(p) ==> lo.val() <= p.val() < hi.val() && probable_prime(p.val()),
{
    proof {
        vstd::arithmetic::power2::lemma2_to64();
        vstd::arithmetic::power2::lemma2_to64_rest();
        vstd::arithmetic::power2::lemma_pow2_adds(63, 64);
        let h = vstd::arithmetic::power2::pow2(63);
        assert(vstd::arithmetic::power2::pow2(127) == h * vstd::arithmetic::power2::pow2(64));
        assert(h * 0x1_0000_0000_0000_0000int == 0x8000_0000_0000_0000_0000_0000_0000_0000int);
        crate::bigint::lemma_bit_len_bound(lo.val() as nat, 127);
    }
    let w = crate::bigint::bits(lo) * 2;
    let primes = crate::sieve::get_primes(w);
    let mut attempt: u64 = 0;
    while attempt < max_windows
        invariant
            1 <= lo.val() < hi.val() <= residue_limit(),
            w <= 254,
            forall|k: int| 0 <= k < primes.len() ==> 2 <= #[trigger] primes[k] < w,
        decreases max_windows - attempt,
    {
        let low = gen_range(rng, lo, hi);
        let window = strike_window(low, &primes, w);
        if let Some(c) = first_probable_prime(low, hi, &window, rng) {
            return Some(c);
        }
        attempt = attempt + 1;
    }
    None
}

} // verus!
