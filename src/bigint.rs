use vstd::prelude::*;
use bnum::types::{I256, U256};
use rand::{Rng, SeedableRng};

verus! {

/// 2^64, the weight of one limb.
pub open spec fn limb_base() -> int {
    0x1_0000_0000_0000_0000int
}

/// Values of `Int` lie strictly between `-bound()` and `bound()` (2^255).
pub open spec fn bound() -> int {
    0x8000_0000_0000_0000_0000_0000_0000_0000_0000_0000_0000_0000_0000_0000_0000_0000int
}

/// True when `v` is representable as a 256-bit two's-complement integer.
pub open spec fn fits(v: int) -> bool {
    -bound() <= v < bound()
}

/// A 256-bit signed integer, held as four little-endian 64-bit limbs of
/// its two's-complement representation.
#[derive(Clone, Copy, Debug, PartialEq, Eq)]
pub struct Int {
    pub limbs: [u64; 4],
}

impl Int {
    /// The mathematical value of the integer.
    pub open spec fn val(self) -> int {
        let u = self.limbs[0] as int + limb_base() * (self.limbs[1] as int + limb_base() * (
        self.limbs[2] as int + limb_base() * self.limbs[3] as int));
        if self.limbs[3] >= 0x8000_0000_0000_0000u64 {
            u - 2 * bound()
        } else {
            u
        }
    }
}

/// The integer `v`.
pub fn from_u64(v: u64) -> (r: Int)
    ensures
        r.val() == v as int,
{
    let r = Int { limbs: [v, 0, 0, 0] };
    assert(r.limbs[1] == 0 && r.limbs[2] == 0 && r.limbs[3] == 0);
    r
}

/// The value of `x`, which must lie in the range of `u64`.
pub fn to_u64(x: Int) -> (r: u64)
    requires
        0 <= x.val() <= u64::MAX,
    ensures
        r as int == x.val(),
{
    let ghost (l0, l1, l2, l3) = (x.limbs[0] as int, x.limbs[1] as int, x.limbs[2] as int, x.limbs[3] as int);
    proof {
        let b = limb_base();
        let r2 = l2 + b * l3;
        let r1 = l1 + b * r2;
        assert(0 <= r2 <= b * b - 1) by (nonlinear_arith)
            requires
                0 <= l2 < b,
                0 <= l3 < b,
                r2 == l2 + b * l3,
        ;
        assert(0 <= r1 <= b * b * b - 1) by (nonlinear_arith)
            requires
                0 <= l1 < b,
                0 <= r2 <= b * b - 1,
                r1 == l1 + b * r2,
        ;
        assert(l0 + b * r1 <= b * b * b * b - 1) by (nonlinear_arith)
            requires
                0 <= l0 < b,
                0 <= r1 <= b * b * b - 1,
        ;
        assert(b * b * b * b == 2 * bound());
        assert(r1 == 0) by (nonlinear_arith)
            requires
                0 <= r1,
                0 <= l0,
                l0 + b * r1 <= u64::MAX,
                b == u64::MAX + 1,
        ;
    }
    x.limbs[0]
}

/// Relies on `I256 + I256`: exact sum, panicking only on overflow.
#[verifier::external_body]
pub(crate) fn int_add(a: Int, b: Int) -> (r: Int)
    requires
        fits(a.val() + b.val()),
    ensures
        r.val() == a.val() + b.val(),
{
    let s = I256::from_bits(U256::from_digits(a.limbs)) + I256::from_bits(U256::from_digits(b.limbs));
    Int { limbs: *s.to_bits().digits() }
}

/// Relies on `I256 - I256`: exact difference, panicking only on overflow.
#[verifier::external_body]
pub(crate) fn int_sub(a: Int, b: Int) -> (r: Int)
    requires
        fits(a.val() - b.val()),
    ensures
        r.val() == a.val() - b.val(),
{
    let s = I256::from_bits(U256::from_digits(a.limbs)) - I256::from_bits(U256::from_digits(b.limbs));
    Int { limbs: *s.to_bits().digits() }
}

/// Relies on `I256 * I256`: exact product, panicking only on overflow.
#[verifier::external_body]
pub(crate) fn int_mul(a: Int, b: Int) -> (r: Int)
    requires
        fits(a.val() * b.val()),
    ensures
        r.val() == a.val() * b.val(),
{
    let s = I256::from_bits(U256::from_digits(a.limbs)) * I256::from_bits(U256::from_digits(b.limbs));
    Int { limbs: *s.to_bits().digits() }
}

/// Relies on `I256::div_euclid`: for a positive divisor, the floor of the quotient.
#[verifier::external_body]
pub(crate) fn int_div(a: Int, b: Int) -> (r: Int)
    requires
        b.val() > 0,
    ensures
        r.val() == a.val() / b.val(),
{
    let s = I256::from_bits(U256::from_digits(a.limbs)).div_euclid(I256::from_bits(U256::from_digits(b.limbs)));
    Int { limbs: *s.to_bits().digits() }
}

/// Relies on `I256::rem_euclid`: for a positive divisor, the remainder in `[0, b)`.
#[verifier::external_body]
pub(crate) fn int_rem(a: Int, b: Int) -> (r: Int)
    requires
        b.val() > 0,
    ensures
        r.val() == a.val() % b.val(),
{
    let s = I256::from_bits(U256::from_digits(a.limbs)).rem_euclid(I256::from_bits(U256::from_digits(b.limbs)));
    Int { limbs: *s.to_bits().digits() }
}

/// Relies on `I256`'s `PartialEq`: equal exactly when the values are.
#[verifier::external_body]
pub(crate) fn int_eq(a: Int, b: Int) -> (r: bool)
    ensures
        r == (a.val() == b.val()),
{
    I256::from_bits(U256::from_digits(a.limbs)) == I256::from_bits(U256::from_digits(b.limbs))
}

/// Relies on `I256`'s `PartialOrd`: the signed order of the values.
#[verifier::external_body]
pub(crate) fn int_lt(a: Int, b: Int) -> (r: bool)
    ensures
        r == (a.val() < b.val()),
{
    I256::from_bits(U256::from_digits(a.limbs)) < I256::from_bits(U256::from_digits(b.limbs))
}

/// Number of binary digits of a natural number (0 for 0).
pub open spec fn bit_len(v: nat) -> nat
    decreases v,
{
    if v == 0 {
        0
    } else {
        1 + bit_len(v / 2)
    }
}

/// A value below `2^k` needs at most `k` binary digits.
pub proof fn lemma_bit_len_bound(v: nat, k: nat)
    requires
        v < vstd::arithmetic::power2::pow2(k),
    ensures
        bit_len(v) <= k,
    decreases v,
{
    if v > 0 {
        if k == 0 {
            vstd::arithmetic::power2::lemma2_to64();
        } else {
            vstd::arithmetic::power2::lemma_pow2_unfold(k);
            lemma_bit_len_bound(v / 2, (k - 1) as nat);
        }
    }
}

/// Relies on `I256::bits`: for a non-negative value, 256 minus its leading zeros.
#[verifier::external_body]
pub(crate) fn bits(x: Int) -> (r: u32)
    requires
        x.val() >= 0,
    ensures
        r as nat == bit_len(x.val() as nat),
{
    I256::from_bits(U256::from_digits(x.limbs)).bits()
}

/// Relies on `I256::bit(0)`: the lowest two's-complement bit, that is the parity.
#[verifier::external_body]
pub(crate) fn is_odd(x: Int) -> (r: bool)
    ensures
        r == (x.val() % 2 == 1),
{
    I256::from_bits(U256::from_digits(x.limbs)).bit(0)
}

#[verifier::external_type_specification]
#[verifier::external_body]
pub struct ExStdRng(rand::rngs::StdRng);

/// Relies on `StdRng::seed_from_u64`: a generator determined by the seed.
#[verifier::external_body]
pub(crate) fn seeded_rng(seed: u64) -> (r: rand::rngs::StdRng) {
    rand::rngs::StdRng::seed_from_u64(seed)
}

/// Relies on `Rng::gen_range` over `I256` (bnum's `UniformInt`): a value of
/// the half-open range, which must not be empty.
#[verifier::external_body]
pub(crate) fn gen_range(rng: &mut rand::rngs::StdRng, lo: Int, hi: Int) -> (r: Int)
    requires
        lo.val() < hi.val(),
    ensures
        lo.val() <= r.val() < hi.val(),
{
    let lo = I256::from_bits(U256::from_digits(lo.limbs));
    let hi = I256::from_bits(U256::from_digits(hi.limbs));
    Int { limbs: *rng.gen_range(lo..hi).to_bits().digits() }
}

} // verus!
