use vstd::prelude::*;
use crate::modular::gcd;

verus! {

/// The Montgomery radix `R = 2^32`.
pub const R: u64 = 0x1_0000_0000;

/// The Bézout coefficients `(x, y)` with `a * x + b * y == gcd(a, b)` that the
/// extended Euclidean recursion produces: `(1, 0)` for `b == 0`, and otherwise
/// `(y', x' - (a / b) * y')` from `(x', y')` for `(b, a % b)`.
pub open spec fn bezout(a: nat, b: nat) -> (int, int)
    decreases b,
{
    if b == 0 {
        (1, 0)
    } else {
        let (x, y) = bezout(b, a % b);
        (y, x - (a / b) as int * y)
    }
}

/// Returns `x < n` with `a * x ≡ gcd(a, n) (mod n)`: the Bézout coefficient
/// of `a`, reduced modulo `n`; when `a` and `n` are coprime it is the inverse.
pub fn mod_inverse(a: u64, n: u64) -> (r: u64)
    requires
        n > 0,
    ensures
        r < n,
        r as int == bezout(a as nat, n as nat).0 % (n as int),
        (a as int * r as int) % (n as int) == (gcd(a as nat, n as nat) as int) % (n as int),
{
    let nn = n as u128;
    let mut r0: u128 = a as u128;
    let mut r1: u128 = nn;
    let mut s0: u128 = 1 % nn;
    let mut s1: u128 = 0;
    let ghost av = a as int;
    let ghost nv = n as int;
    let ghost mut t0: int = if nv == 1 {
        av
    } else {
        0
    };
    let ghost mut t1: int = 1;
    let ghost fx: int = bezout(a as nat, n as nat).0;
    let ghost mut kk: int = if nv == 1 {
        fx
    } else {
        0
    };
    proof {
        if nv > 1 {
            vstd::arithmetic::div_mod::lemma_small_mod(1, nv as nat);
        }
        assert(fx == s0 * fx + s1 * bezout(r0 as nat, r1 as nat).1 + kk * nv) by (nonlinear_arith)
            requires
                s1 == 0,
                nv == 1 ==> s0 == 0 && kk == fx,
                nv != 1 ==> s0 == 1 && kk == 0,
        ;
        if nv > 1 {
            vstd::arithmetic::div_mod::lemma_small_mod(1, nv as nat);
        }
        assert(r0 == s0 * av + t0 * nv) by (nonlinear_arith)
            requires
                r0 == av,
                s0 == (if nv == 1 { 0int } else { 1int }),
                t0 == (if nv == 1 { av } else { 0int }),
        ;
    }
    while r1 != 0
        invariant
            nn == nv,
            0 < nv < 0x1_0000_0000_0000_0000,
            r0 < 0x1_0000_0000_0000_0000,
            r1 < 0x1_0000_0000_0000_0000,
            gcd(r0 as nat, r1 as nat) == gcd(av as nat, nv as nat),
            s0 < nv,
            s1 < nv,
            r0 == s0 * av + t0 * nv,
            r1 == s1 * av + t1 * nv,
            fx == s0 * bezout(r0 as nat, r1 as nat).0 + s1 * bezout(r0 as nat, r1 as nat).1 + kk * nv,
        decreases r1,
    {
        let q = r0 / r1;
        let rn = r0 % r1;
        let qm = q % nn;
        proof {
            assert(qm * s1 < 0x1_0000_0000_0000_0000 * 0x1_0000_0000_0000_0000) by (nonlinear_arith)
                requires
                    qm < nv < 0x1_0000_0000_0000_0000,
                    s1 < nv,
            ;
        }
        let pm = (qm * s1) % nn;
        let sn = if s0 >= pm {
            s0 - pm
        } else {
            s0 + nn - pm
        };
        proof {
            let (r0v, r1v, qv, rnv) = (r0 as int, r1 as int, q as int, rn as int);
            let (qmv, qd, s0v, s1v) = (qm as int, qv / nv, s0 as int, s1 as int);
            let (pmv, pq, snv) = (pm as int, (qmv * s1v) / nv, sn as int);
            let b: int = if s0 >= pm {
                0
            } else {
                1
            };
            vstd::arithmetic::div_mod::lemma_fundamental_div_mod(r0v, r1v);
            vstd::arithmetic::div_mod::lemma_fundamental_div_mod(qv, nv);
            vstd::arithmetic::div_mod::lemma_fundamental_div_mod(qmv * s1v, nv);
            let c = pq + b;
            assert(pmv == (qmv * s1v) % nv);
            assert(snv == s0v - qmv * s1v + c * nv) by (nonlinear_arith)
                requires
                    qmv * s1v == nv * pq + pmv,
                    snv == s0v - pmv + b * nv,
                    c == pq + b,
            ;
            let x = s0v - s1v * qv;
            assert(rnv == x * av + (t0 - t1 * qv) * nv) by (nonlinear_arith)
                requires
                    rnv == r0v - r1v * qv,
                    r0v == s0v * av + t0 * nv,
                    r1v == s1v * av + t1 * nv,
                    x == s0v - s1v * qv,
            ;
            assert(s1v * qv == s1v * qmv + nv * (qd * s1v)) by (nonlinear_arith)
                requires
                    qv == nv * qd + qmv,
            ;
            let k = -c - qd * s1v;
            assert(x == snv + nv * k) by (nonlinear_arith)
                requires
                    x == s0v - s1v * qv,
                    s1v * qv == s1v * qmv + nv * (qd * s1v),
                    snv == s0v - qmv * s1v + c * nv,
                    k == -c - qd * s1v,
            ;
            let tn = k * av + t0 - qv * t1;
            assert(rnv == snv * av + tn * nv) by (nonlinear_arith)
                requires
                    rnv == x * av + (t0 - t1 * qv) * nv,
                    x == snv + nv * k,
                    tn == k * av + t0 - qv * t1,
            ;
            assert(gcd(r0v as nat, r1v as nat) == gcd(r1v as nat, (r0v as nat) % (r1v as nat)));
            let (bx, by) = bezout(r1 as nat, rn as nat);
            assert(bezout(r0 as nat, r1 as nat) == (by, bx - qv * by));
            let kn = kk + k * by;
            assert(fx == s1v * bx + snv * by + kn * nv) by (nonlinear_arith)
                requires
                    fx == s0v * by + s1v * (bx - qv * by) + kk * nv,
                    x == s0v - s1v * qv,
                    x == snv + nv * k,
                    kn == kk + k * by,
            ;
            kk = kn;
            t0 = t1;
            t1 = tn;
        }
        r0 = r1;
        r1 = rn;
        s0 = s1;
        s1 = sn;
    }
    proof {
        assert(av * s0 == nv * (-t0) + r0) by (nonlinear_arith)
            requires
                r0 == s0 * av + t0 * nv,
        ;
        vstd::arithmetic::div_mod::lemma_mod_multiples_vanish(-t0, r0 as int, nv);
        assert(fx == nv * kk + s0);
        vstd::arithmetic::div_mod::lemma_mod_multiples_vanish(kk, s0 as int, nv);
        vstd::arithmetic::div_mod::lemma_small_mod(s0 as nat, nv as nat);
    }
    s0 as u64
}

/// The Montgomery reduction of `t`: `(t + m * n) / R` with
/// `m = (t mod R) * np mod R`, less `n` when that is at least `n`.
pub open spec fn redc_value(t: int, n: int, np: int) -> int {
    let tt = (t + ((t % (R as int)) * np % (R as int)) * n) / (R as int);
    if tt < n {
        tt
    } else {
        tt - n
    }
}

/// Montgomery reduction. When `n * np ≡ -1 (mod R)` the result is the
/// residue `r < n` with `r * R ≡ t (mod n)`.
pub fn redc(t: u64, n: u64, np: u64) -> (r: u64)
    requires
        0 < n < 0x8000_0000,
        np < R,
        t < n as int * R as int,
    ensures
        r == redc_value(t as int, n as int, np as int),
        (n as int * np as int) % (R as int) == R - 1 ==> r < n && (r as int * R as int) % (n as int) == (t as int) % (n as int),
{
    let tm = t % R;
    proof {
        assert(tm * np < 0x1_0000_0000 * 0x1_0000_0000) by (nonlinear_arith)
            requires
                tm < 0x1_0000_0000,
                np < 0x1_0000_0000,
        ;
    }
    let m = tm * np % R;
    proof {
        assert(m * n < 0x1_0000_0000 * 0x8000_0000) by (nonlinear_arith)
            requires
                m < 0x1_0000_0000,
                n < 0x8000_0000,
        ;
        assert(n * R <= 0x8000_0000 * 0x1_0000_0000) by (nonlinear_arith)
            requires
                n < 0x8000_0000,
        ;
    }
    let tt = (t + m * n) / R;
    proof {
        if (n as int * np as int) % (R as int) == R - 1 {
            let (ti, ni, npi, mi, tmi, ri) = (t as int, n as int, np as int, m as int, tm as int, R as int);
            vstd::arithmetic::div_mod::lemma_mul_mod_noop_left(tmi * npi, ni, ri);
            assert(tmi * npi * ni == tmi * (npi * ni)) by (nonlinear_arith);
            assert(npi * ni == ni * npi) by (nonlinear_arith);
            vstd::arithmetic::div_mod::lemma_mul_mod_noop_right(tmi, npi * ni, ri);
            vstd::arithmetic::div_mod::lemma_add_mod_noop(ti, mi * ni, ri);
            vstd::arithmetic::div_mod::lemma_add_mod_noop(tmi, tmi * (ri - 1), ri);
            vstd::arithmetic::div_mod::lemma_mod_twice(tmi * (ri - 1), ri);
            assert(tmi + tmi * (ri - 1) == tmi * ri) by (nonlinear_arith);
            vstd::arithmetic::div_mod::lemma_mod_multiples_basic(tmi, ri);
            assert((ti + mi * ni) % ri == 0);
            vstd::arithmetic::div_mod::lemma_fundamental_div_mod(ti + mi * ni, ri);
            let tti = tt as int;
            assert(tti * ri == ti + mi * ni);
            assert(tti < 2 * ni) by (nonlinear_arith)
                requires
                    tti * ri == ti + mi * ni,
                    ti < ni * ri,
                    mi < ri,
                    ri > 0,
                    ni > 0,
            ;
            vstd::arithmetic::div_mod::lemma_mod_multiples_vanish(mi, ti, ni);
            assert(ti + mi * ni == ni * mi + ti) by (nonlinear_arith);
            vstd::arithmetic::div_mod::lemma_mod_multiples_vanish(-ri, tti * ri, ni);
            assert((tti - ni) * ri == ni * (-ri) + tti * ri) by (nonlinear_arith);
        }
    }
    if tt < n {
        tt
    } else {
        tt - n
    }
}

} // verus!
