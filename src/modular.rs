use vstd::prelude::*;
use crate::bigint::{Int, bound, from_u64, int_div, int_eq, int_lt, int_mul, int_rem, int_sub};

verus! {

/// Products of two values below the modulus limit stay far inside 256 bits.
pub proof fn lemma_product_small(x: int, y: int, m: int)
    requires
        1 < m < modulus_limit(),
        -m < x < m,
        -m < y < m,
    ensures
        -(m * m) < x * y < m * m,
        m * m < bound() / 8,
{
    let lim = 0x4000_0000_0000_0000_0000_0000_0000_0000int;
    assert(-(m * m) < x * y < m * m) by (nonlinear_arith)
        requires
            1 < m,
            -m < x < m,
            -m < y < m,
    ;
    assert(m * m < lim * lim) by (nonlinear_arith)
        requires
            1 < m < lim,
    ;
}

/// Bound on moduli whose residues are only ever multiplied in pairs.
pub open spec fn residue_limit() -> int {
    0x8000_0000_0000_0000_0000_0000_0000_0000int
}

/// Products of two values below the residue limit fit in 256 bits.
pub proof fn lemma_residue_product(x: int, y: int, m: int)
    requires
        1 < m < residue_limit(),
        -m < x < m,
        -m < y < m,
    ensures
        -(m * m) < x * y < m * m,
        m * m < bound() / 2,
{
    let lim = 0x8000_0000_0000_0000_0000_0000_0000_0000int;
    assert(-(m * m) < x * y < m * m) by (nonlinear_arith)
        requires
            1 < m,
            -m < x < m,
            -m < y < m,
    ;
    assert(m * m < lim * lim) by (nonlinear_arith)
        requires
            1 < m < lim,
    ;
}

/// Greatest common divisor by Euclid's recurrence; `gcd(a, 0) == a`.
pub open spec fn gcd(a: nat, b: nat) -> nat
    decreases b,
{
    if b == 0 {
        a
    } else {
        gcd(b, a % b)
    }
}

/// `d` divides `x`.
pub open spec fn divides(d: int, x: int) -> bool {
    exists|k: int| #[trigger] (k * d) == x
}

pub open spec fn abs(v: int) -> int {
    if v < 0 {
        -v
    } else {
        v
    }
}

/// Bound on moduli: products of two residues stay well inside 256 bits.
pub open spec fn modulus_limit() -> int {
    0x4000_0000_0000_0000_0000_0000_0000_0000int
}

/// The greatest common divisor divides both arguments.
pub proof fn lemma_gcd_divides(a: nat, b: nat)
    ensures
        divides(gcd(a, b) as int, a as int),
        divides(gcd(a, b) as int, b as int),
    decreases b,
{
    if b == 0 {
        assert((0int * gcd(a, b)) == b as int);
        assert((1int * gcd(a, b)) == a as int);
    } else {
        lemma_gcd_divides(b, a % b);
        let g = gcd(a, b) as int;
        let k1 = choose|k: int| #[trigger] (k * g) == b as int;
        let k2 = choose|k: int| #[trigger] (k * g) == (a % b) as int;
        let q = (a / b) as int;
        vstd::arithmetic::div_mod::lemma_fundamental_div_mod(a as int, b as int);
        assert((q * k1 + k2) * g == a as int) by (nonlinear_arith)
            requires
                a as int == b as int * q + (a % b) as int,
                k1 * g == b as int,
                k2 * g == (a % b) as int,
        ;
        assert(((k1) * g) == b as int);
    }
}

/// The gcd of `a` and a positive `b` is positive.
pub proof fn lemma_gcd_positive(a: nat, b: nat)
    requires
        b > 0,
    ensures
        gcd(a, b) > 0,
    decreases b,
{
    if a % b > 0 {
        lemma_gcd_positive(b, a % b);
    } else {
        assert(gcd(b, a % b) == b);
    }
}

/// The inverse of `v` modulo `m` in `[0, m)`, where one exists.
pub open spec fn inverse_of(v: int, m: int) -> int {
    choose|x: int| 0 <= x < m && #[trigger] ((v * x) % m) == 1int % m
}

/// An inverse modulo `m` in `[0, m)` is unique.
pub proof fn lemma_inverse_unique(v: int, m: int, x: int, y: int)
    requires
        0 <= x < m,
        0 <= y < m,
        (v * x) % m == 1int % m,
        (v * y) % m == 1int % m,
    ensures
        x == y,
{
    vstd::arithmetic::div_mod::lemma_mul_mod_noop_right(x, v * y, m);
    vstd::arithmetic::div_mod::lemma_mul_mod_noop_right(y, v * x, m);
    vstd::arithmetic::div_mod::lemma_mul_mod_noop_right(x, 1, m);
    vstd::arithmetic::div_mod::lemma_mul_mod_noop_right(y, 1, m);
    assert(x * (v * y) == y * (v * x)) by (nonlinear_arith);
    vstd::arithmetic::div_mod::lemma_small_mod(x as nat, m as nat);
    vstd::arithmetic::div_mod::lemma_small_mod(y as nat, m as nat);
}

/// The extended Euclidean algorithm on `|a|` and `n`: returns `(g, x)` with
/// `g == gcd(|a|, n)`, `0 <= x < n` and `a * x + t * n == g` for some `t`.
fn euclid(a: Int, n: Int) -> (r: (Int, Int))
    requires
        0 < n.val() < residue_limit(),
        -bound() < a.val() < bound(),
    ensures
        r.0.val() == gcd(abs(a.val()) as nat, n.val() as nat),
        0 <= r.1.val() < n.val(),
        exists|t: int| a.val() * r.1.val() + #[trigger] (t * n.val()) == r.0.val(),
{
    let zero = from_u64(0);
    let one = from_u64(1);
    let neg = int_lt(a, zero);
    let mut r0 = if neg {
        int_sub(zero, a)
    } else {
        a
    };
    let mut r1 = n;
    let mut s0 = if neg {
        int_sub(n, one)
    } else {
        int_rem(one, n)
    };
    let mut s1 = zero;
    let ghost av = a.val();
    let ghost nv = n.val();
    let ghost mut t0: int = if neg {
        -av
    } else if nv == 1 {
        av
    } else {
        0
    };
    let ghost mut t1: int = 1;
    proof {
        if nv > 1 {
            vstd::arithmetic::div_mod::lemma_small_mod(1, nv as nat);
        }
        assert(r0.val() == s0.val() * av + t0 * nv) by (nonlinear_arith)
            requires
                neg ==> r0.val() == -av && s0.val() == nv - 1 && t0 == -av,
                !neg ==> r0.val() == av && s0.val() == (if nv == 1 { 0int } else { 1int }) && t0 == (
                if nv == 1 { av } else { 0int }),
        ;
    }
    while !int_eq(r1, zero)
        invariant
            0 < nv < residue_limit(),
            nv == n.val(),
            av == a.val(),
            0 <= r0.val() < bound(),
            0 <= r1.val() < bound(),
            gcd(r0.val() as nat, r1.val() as nat) == gcd(abs(av) as nat, nv as nat),
            0 <= s0.val() < nv,
            0 <= s1.val() < nv,
            r0.val() == s0.val() * av + t0 * nv,
            r1.val() == s1.val() * av + t1 * nv,
            zero.val() == 0,
        decreases r1.val(),
    {
        let q = int_div(r0, r1);
        let rn = int_rem(r0, r1);
        let qm = int_rem(q, n);
        proof {
            assert(qm.val() * s1.val() < nv * nv) by (nonlinear_arith)
                requires
                    0 <= qm.val() < nv,
                    0 <= s1.val() < nv,
            ;
            assert(nv * nv < bound()) by (nonlinear_arith)
                requires
                    0 < nv < residue_limit(),
            ;
            assert(qm.val() * s1.val() >= 0) by (nonlinear_arith)
                requires
                    0 <= qm.val(),
                    0 <= s1.val(),
            ;
        }
        let prod = int_mul(qm, s1);
        let diff = int_sub(s0, prod);
        let sn = int_rem(diff, n);
        proof {
            let (r0v, r1v, qv, rnv) = (r0.val(), r1.val(), q.val(), rn.val());
            let (qmv, qd, s0v, s1v) = (qm.val(), q.val() / nv, s0.val(), s1.val());
            let (dv, snv, c) = (diff.val(), sn.val(), diff.val() / nv);
            vstd::arithmetic::div_mod::lemma_fundamental_div_mod(r0v, r1v);
            vstd::arithmetic::div_mod::lemma_fundamental_div_mod(qv, nv);
            vstd::arithmetic::div_mod::lemma_fundamental_div_mod(dv, nv);
            let tn = (c - qd * s1v) * av + t0 - qv * t1;
            let x = s0v - s1v * qv;
            assert(rnv == x * av + (t0 - t1 * qv) * nv) by (nonlinear_arith)
                requires
                    rnv == r0v - r1v * qv,
                    r0v == s0v * av + t0 * nv,
                    r1v == s1v * av + t1 * nv,
                    x == s0v - s1v * qv,
            ;
            assert(s1v * qv == s1v * qmv + nv * (qd * s1v)) by (nonlinear_arith)
                requires
                    qv == nv * qd + qmv,
            ;
            assert(x == snv + nv * (c - qd * s1v)) by (nonlinear_arith)
                requires
                    x == s0v - s1v * qv,
                    s1v * qv == s1v * qmv + nv * (qd * s1v),
                    dv == s0v - qmv * s1v,
                    dv == nv * c + snv,
            ;
            let k = c - qd * s1v;
            assert(rnv == snv * av + tn * nv) by (nonlinear_arith)
                requires
                    rnv == x * av + (t0 - t1 * qv) * nv,
                    x == snv + nv * k,
                    tn == k * av + t0 - qv * t1,
            ;
            assert(gcd(r0v as nat, r1v as nat) == gcd(r1v as nat, (r0v as nat) % (r1v as nat)));
            t0 = t1;
            t1 = tn;
        }
        r0 = r1;
        r1 = rn;
        s0 = s1;
        s1 = sn;
    }
    proof {
        assert(av * s0.val() + t0 * nv == r0.val()) by (nonlinear_arith)
            requires
                r0.val() == s0.val() * av + t0 * nv,
        ;
    }
    (r0, s0)
}

/// Returns `Ok(x)` with `x` the inverse of `a` modulo `n` in `[0, n)` when
/// `gcd(|a|, n) == 1`, and `Err(g)` with `g == gcd(|a|, n)` otherwise; such a
/// `g` is a common factor of `a` and `n` greater than one.
pub fn mod_inverse(a: Int, n: Int) -> (r: Result<Int, Int>)
    requires
        0 < n.val() < residue_limit(),
        -bound() < a.val() < bound(),
    ensures
        gcd(abs(a.val()) as nat, n.val() as nat) == 1 ==> (r matches Ok(x) && 0 <= x.val() < n.val()
            && (a.val() * x.val()) % n.val() == 1int % n.val() && x.val() == inverse_of(a.val(), n.val())),
        gcd(abs(a.val()) as nat, n.val() as nat) != 1 ==> (r matches Err(g) && g.val() == gcd(
            abs(a.val()) as nat,
            n.val() as nat,
        ) && divides(g.val(), n.val()) && divides(g.val(), abs(a.val())) && g.val() > 1),
{
    let one = from_u64(1);
    let (g, x) = euclid(a, n);
    let ghost (av, nv) = (a.val(), n.val());
    proof {
        lemma_gcd_divides(abs(av) as nat, nv as nat);
        lemma_gcd_positive(abs(av) as nat, nv as nat);
    }
    if int_eq(g, one) {
        proof {
            let t = choose|t: int| av * x.val() + #[trigger] (t * nv) == g.val();
            assert(av * x.val() == nv * (-t) + 1) by (nonlinear_arith)
                requires
                    av * x.val() + t * nv == 1,
            ;
            vstd::arithmetic::div_mod::lemma_mod_multiples_vanish(-t, 1, nv);
            let w = inverse_of(av, nv);
            assert(0 <= x.val() < nv && (av * x.val()) % nv == 1int % nv);
            lemma_inverse_unique(av, nv, x.val(), w);
        }
        Ok(x)
    } else {
        Err(g)
    }
}

/// Bézout coefficients: returns `(x, y)` with `a * x + b * y == gcd(|a|, |b|)`.
pub fn find_linear_combination(a: Int, b: Int) -> (r: (Int, Int))
    requires
        -residue_limit() < a.val() < residue_limit(),
        -residue_limit() < b.val() < residue_limit(),
    ensures
        a.val() * r.0.val() + b.val() * r.1.val() == gcd(abs(a.val()) as nat, abs(b.val()) as nat),
{
    let zero = from_u64(0);
    let one = from_u64(1);
    if int_eq(b, zero) {
        if int_lt(a, zero) {
            return (int_sub(zero, one), zero);
        } else {
            return (one, zero);
        }
    }
    let neg_b = int_lt(b, zero);
    let nb = if neg_b {
        int_sub(zero, b)
    } else {
        b
    };
    let (g, x) = euclid(a, nb);
    let ghost (av, nv) = (a.val(), nb.val());
    let ghost t = choose|t: int| av * x.val() + #[trigger] (t * nv) == g.val();
    proof {
        let lim = 0x8000_0000_0000_0000_0000_0000_0000_0000int;
        assert(-(lim * lim) < av * x.val() < lim * lim) by (nonlinear_arith)
            requires
                -lim < av < lim,
                0 <= x.val() < lim,
        ;
        lemma_gcd_divides(abs(av) as nat, nv as nat);
        lemma_gcd_positive(abs(av) as nat, nv as nat);
        lemma_divisor_at_most(g.val(), nv);
    }
    let ax = int_mul(a, x);
    let d = int_sub(g, ax);
    let yp = int_div(d, nb);
    proof {
        assert(d.val() == nv * t);
        vstd::arithmetic::div_mod::lemma_div_multiples_vanish(t, nv);
        assert((t >= 0 ==> t <= d.val()) && (t < 0 ==> t >= d.val())) by (nonlinear_arith)
            requires
                nv >= 1,
                d.val() == nv * t,
        ;
    }
    let y = if neg_b {
        int_sub(zero, yp)
    } else {
        yp
    };
    proof {
        if neg_b {
            assert(b.val() * y.val() == t * nv) by (nonlinear_arith)
                requires
                    b.val() == -nv,
                    y.val() == -t,
            ;
        } else {
            assert(b.val() * y.val() == t * nv);
        }
    }
    (x, y)
}

/// A positive divisor of a positive number is at most that number.
pub proof fn lemma_divisor_at_most(d: int, x: int)
    requires
        0 < d,
        0 < x,
        divides(d, x),
    ensures
        d <= x,
{
    let k = choose|k: int| #[trigger] (k * d) == x;
    assert(d <= x) by (nonlinear_arith)
        requires
            0 < d,
            0 < x,
            k * d == x,
    ;
}

} // verus!
