use vstd::prelude::*;
use crate::bigint::{Int, from_u64, int_add, int_eq, int_mul, int_rem, int_sub};
use crate::modular::{abs, divides, gcd, inverse_of, lemma_product_small, mod_inverse, modulus_limit};

verus! {

/// Affine point with coordinates taken modulo the working modulus.
#[derive(Clone, Copy, Debug)]
pub struct Point {
    pub x: Int,
    pub y: Int,
}

impl Point {
    pub open spec fn view(self) -> (int, int) {
        (self.x.val(), self.y.val())
    }

    /// Both coordinates are residues in `[0, m)`.
    pub open spec fn reduced(self, m: int) -> bool {
        0 <= self.x.val() < m && 0 <= self.y.val() < m
    }
}

/// The curve `y^2 = x^3 + a*x + b (mod m)`; `b` never enters the group law.
#[derive(Clone, Copy, Debug)]
pub struct EllipticCurve {
    pub a: Int,
}

/// The result of a point operation, viewed as integers.
pub open spec fn outcome(r: Result<Point, Int>) -> Result<(int, int), int> {
    match r {
        Ok(p) => Ok(p@),
        Err(g) => Err(g.val()),
    }
}

/// Chord-and-tangent sum of `p` and `q` on the curve with coefficient `a`
/// over the integers modulo `m`, or the common factor `gcd(|den|, m)` when the
/// slope's denominator `den` is not invertible.
pub open spec fn ec_add(a: int, p: (int, int), q: (int, int), m: int) -> Result<(int, int), int> {
    let num = if p.0 == q.0 {
        3 * (p.0 * p.0) + a
    } else {
        q.1 - p.1
    };
    let den = if p.0 == q.0 {
        2 * p.1
    } else {
        q.0 - p.0
    };
    let g = gcd(abs(den) as nat, m as nat) as int;
    if g != 1 {
        Err(g)
    } else {
        let l = (num * inverse_of(den, m)) % m;
        let x = (l * l - p.0 - q.0) % m;
        Ok((x, (l * (p.0 - x) - p.1) % m))
    }
}

/// `k * p` by halving the scalar: double `(k / 2) * p`, then add `p` when `k`
/// is odd; the first failing addition decides the result.
pub open spec fn ec_mul(a: int, p: (int, int), k: nat, m: int) -> Result<(int, int), int>
    decreases k,
{
    if k <= 1 {
        Ok(p)
    } else {
        match ec_mul(a, p, k / 2, m) {
            Err(g) => Err(g),
            Ok(h) => match ec_add(a, h, h, m) {
                Err(g) => Err(g),
                Ok(d) => if k % 2 == 1 {
                    ec_add(a, d, p, m)
                } else {
                    Ok(d)
                },
            },
        }
    }
}

/// What every point operation guarantees of its result.
pub open spec fn well_formed_outcome(r: Result<Point, Int>, m: int) -> bool {
    match r {
        Ok(p) => p.reduced(m),
        Err(g) => 1 < g.val() && divides(g.val(), m),
    }
}

/// Doubling a point whose `y` is 0 modulo `m` fails with the factor `m`
/// itself: the tangent's denominator `2 * y` shares all of `m`.
pub proof fn lemma_vertical_doubling(a: int, p: (int, int), m: int)
    requires
        1 < m,
        p.1 % m == 0,
        0 <= p.1 < m,
    ensures
        ec_add(a, p, p, m) == Err::<(int, int), int>(m),
{
    vstd::arithmetic::div_mod::lemma_small_mod(p.1 as nat, m as nat);
    assert(gcd(0, m as nat) == gcd(m as nat, 0));
}

impl EllipticCurve {
    /// Adds `p` and `q` (doubling when their `x` agree), or returns the common
    /// factor of the slope's denominator and `m`.
    pub fn add(&self, p: Point, q: Point, m: Int) -> (r: Result<Point, Int>)
        requires
            1 < m.val() < modulus_limit(),
            0 <= self.a.val() < m.val(),
            p.reduced(m.val()),
            q.reduced(m.val()),
        ensures
            outcome(r) == ec_add(self.a.val(), p@, q@, m.val()),
            well_formed_outcome(r, m.val()),
    {
        let ghost mv = m.val();
        proof {
            lemma_product_small(p.x.val(), p.x.val(), mv);
        }
        let doubling = int_eq(p.x, q.x);
        let (num, den) = if doubling {
            let sq = int_mul(p.x, p.x);
            let three_sq = int_mul(from_u64(3), sq);
            (int_add(three_sq, self.a), int_mul(from_u64(2), p.y))
        } else {
            (int_sub(q.y, p.y), int_sub(q.x, p.x))
        };
        let inv = match mod_inverse(den, m) {
            Ok(inv) => inv,
            Err(g) => {
                return Err(g);
            },
        };
        let num_r = int_rem(num, m);
        proof {
            lemma_product_small(num_r.val(), inv.val(), mv);
            assert(0 <= num_r.val() * inv.val()) by (nonlinear_arith)
                requires
                    0 <= num_r.val(),
                    0 <= inv.val(),
            ;
            vstd::arithmetic::div_mod::lemma_mul_mod_noop_left(num.val(), inv.val(), mv);
        }
        let l = int_rem(int_mul(num_r, inv), m);
        proof {
            lemma_product_small(l.val(), l.val(), mv);
        }
        let x = int_rem(int_sub(int_sub(int_mul(l, l), p.x), q.x), m);
        let dx = int_sub(p.x, x);
        proof {
            lemma_product_small(l.val(), dx.val(), mv);
        }
        let y = int_rem(int_sub(int_mul(l, dx), p.y), m);
        Ok(Point { x, y })
    }

    /// Multiplies `p` by the positive scalar `k`, or returns the common factor
    /// met by the first addition that fails.
    pub fn multiply(&self, p: Point, k: u64, m: Int) -> (r: Result<Point, Int>)
        requires
            1 < m.val() < modulus_limit(),
            0 <= self.a.val() < m.val(),
            p.reduced(m.val()),
            k >= 1,
        ensures
            outcome(r) == ec_mul(self.a.val(), p@, k as nat, m.val()),
            well_formed_outcome(r, m.val()),
        decreases k,
    {
        if k == 1 {
            Ok(p)
        } else {
            let h = match self.multiply(p, k / 2, m) {
                Ok(h) => h,
                Err(g) => {
                    return Err(g);
                },
            };
            let d = match self.add(h, h, m) {
                Ok(d) => d,
                Err(g) => {
                    return Err(g);
                },
            };
            if k % 2 == 1 {
                self.add(d, p, m)
            } else {
                Ok(d)
            }
        }
    }
}

} // verus!
