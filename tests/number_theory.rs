use ecm_factor::bigint::{from_u64, to_u64, Int};
use rand::rngs::StdRng;
use rand::{Rng, SeedableRng};
use ecm_factor::curve::{EllipticCurve, Point};
use ecm_factor::ecm::{find_factor, prime_power, try_curve, FactorError};
use ecm_factor::modular::{find_linear_combination, mod_inverse};
use ecm_factor::montgomery::{self, redc, R};
use ecm_factor::primality::{find_prime, first_probable_prime, miller_rabin, pow_mod, strong_round};
use ecm_factor::sieve::get_primes;

fn big(v: u64) -> Int {
    from_u64(v)
}

/// `-v` in two's complement, for `v > 0`.
fn neg(v: u64) -> Int {
    Int { limbs: [v.wrapping_neg(), u64::MAX, u64::MAX, u64::MAX] }
}

fn wide(v: u128) -> Int {
    Int { limbs: [v as u64, (v >> 64) as u64, 0, 0] }
}

fn seeded_rng(seed: u64) -> StdRng {
    StdRng::seed_from_u64(seed)
}

fn val(x: Int) -> u64 {
    to_u64(x)
}

fn trial_division(n: u64) -> bool {
    if n < 2 {
        return false;
    }
    let mut d = 2;
    while d * d <= n {
        if n % d == 0 {
            return false;
        }
        d += 1;
    }
    true
}

#[test]
fn sieve_primes_below_thirty() {
    assert_eq!(get_primes(30), vec![2, 3, 5, 7, 11, 13, 17, 19, 23, 29]);
}

#[test]
fn sieve_small_limits() {
    assert_eq!(get_primes(0), Vec::<u32>::new());
    assert_eq!(get_primes(1), Vec::<u32>::new());
    assert_eq!(get_primes(2), Vec::<u32>::new());
    assert_eq!(get_primes(3), vec![2]);
    assert_eq!(get_primes(4), vec![2, 3]);
    assert_eq!(get_primes(26), vec![2, 3, 5, 7, 11, 13, 17, 19, 23]);
}

#[test]
fn sieve_matches_trial_division() {
    let primes = get_primes(10000);
    let expected: Vec<u32> = (0..10000u32).filter(|&p| trial_division(p as u64)).collect();
    assert_eq!(primes, expected);
    assert_eq!(primes.len(), 1229);
}

#[test]
fn test_miller_rabin() {
    const L: u32 = 10000;
    let mut rng = seeded_rng(0);
    let primes = get_primes(L);
    let mut is_prime = vec![false; L as usize];
    for p in primes {
        is_prime[p as usize] = true;
    }
    for i in 2..L {
        assert!(miller_rabin(big(i as u64), &mut rng) == is_prime[i as usize]);
    }
}

#[test]
fn miller_rabin_agrees_with_trial_division_from_zero() {
    let mut rng = seeded_rng(7);
    for n in 0..10000u64 {
        assert_eq!(miller_rabin(big(n), &mut rng), trial_division(n), "n = {}", n);
    }
}

#[test]
fn miller_rabin_small_and_negative() {
    let mut rng = seeded_rng(1);
    assert!(!miller_rabin(neg(5), &mut rng));
    assert!(!miller_rabin(big(0), &mut rng));
    assert!(!miller_rabin(big(1), &mut rng));
    assert!(miller_rabin(big(2), &mut rng));
    assert!(miller_rabin(big(3), &mut rng));
    assert!(!miller_rabin(big(4), &mut rng));
    // Carmichael numbers fool Fermat's test but not the strong test.
    assert!(!miller_rabin(big(561), &mut rng));
    assert!(!miller_rabin(big(41041), &mut rng));
    assert!(miller_rabin(big(1_000_000_007), &mut rng));
    assert!(miller_rabin(big(24755137493), &mut rng));
    assert!(miller_rabin(big(94628975263), &mut rng));
}

#[test]
fn strong_round_examples() {
    // 2047 = 23 * 89 is a strong pseudoprime to base 2, but not to base 3.
    assert!(strong_round(big(2047), big(2)));
    assert!(!strong_round(big(2047), big(3)));
    // 561: a^(n-1) = 1 for a = 2, yet 2^140 = 67 is a square root of 1 other than +-1.
    assert!(!strong_round(big(561), big(2)));
    assert!(strong_round(big(13), big(5)));
}

#[test]
fn pow_mod_examples() {
    assert_eq!(val(pow_mod(big(2), big(10), big(1000))), 24);
    assert_eq!(val(pow_mod(big(3), big(0), big(7))), 1);
    assert_eq!(val(pow_mod(big(5), big(3), big(13))), 8);
    assert_eq!(val(pow_mod(big(2), big(1_000_000_006), big(1_000_000_007))), 1);
}

#[test]
fn modular_inverse_of_coprime_values() {
    assert_eq!(mod_inverse(big(3), big(7)).map(val), Ok(5));
    assert_eq!(mod_inverse(big(10), big(17)).map(val), Ok(12));
    assert_eq!(mod_inverse(neg(3), big(7)).map(val), Ok(2));
    for n in 2..60u64 {
        for a in 0..n {
            if let Ok(x) = mod_inverse(big(a), big(n)) {
                assert_eq!(a * val(x) % n, 1);
                assert!(val(x) < n);
            }
        }
    }
}

#[test]
fn modular_inverse_reports_common_factor() {
    assert_eq!(mod_inverse(big(6), big(9)).map_err(val), Err(3));
    assert_eq!(mod_inverse(neg(12), big(18)).map_err(val), Err(6));
    assert_eq!(mod_inverse(big(0), big(15)).map_err(val), Err(15));
    assert_eq!(mod_inverse(big(30), big(15)).map_err(val), Err(15));
}

#[test]
fn doubling_a_point_with_zero_y_yields_the_modulus() {
    let curve = EllipticCurve { a: big(2) };
    let p = Point { x: big(5), y: big(0) };
    let r = curve.add(p, p, big(35));
    assert!(matches!(r, Err(g) if val(g) == 35));
}

#[test]
fn point_addition_on_a_prime_field() {
    // y^2 = x^3 + 2x + 3 over F_97: (3, 6) + (3, 6) = (80, 10), (3, 6) + (80, 10) = (80, 87).
    let curve = EllipticCurve { a: big(2) };
    let p = Point { x: big(3), y: big(6) };
    let d = curve.add(p, p, big(97)).ok().unwrap();
    assert_eq!((val(d.x), val(d.y)), (80, 10));
    let t = curve.add(p, d, big(97)).ok().unwrap();
    assert_eq!((val(t.x), val(t.y)), (80, 87));
    let m = curve.multiply(p, 3, big(97)).ok().unwrap();
    assert_eq!((val(m.x), val(m.y)), (80, 87));
    let two = curve.multiply(p, 2, big(97)).ok().unwrap();
    assert_eq!((val(two.x), val(two.y)), (80, 10));
}

#[test]
fn point_addition_reveals_a_factor() {
    // Over 15, the chord from (1, 1) to (4, 2) has denominator 3.
    let curve = EllipticCurve { a: big(1) };
    let r = curve.add(Point { x: big(1), y: big(1) }, Point { x: big(4), y: big(2) }, big(15));
    assert!(matches!(r, Err(g) if val(g) == 3));
}

#[test]
fn prime_power_schedule() {
    assert_eq!(prime_power(2, 100), 64);
    assert_eq!(prime_power(3, 100), 81);
    assert_eq!(prime_power(7, 100), 49);
    assert_eq!(prime_power(11, 100), 11);
    assert_eq!(prime_power(3, 81), 27);
}

#[test]
fn try_curve_never_returns_the_modulus() {
    let n = big(35);
    let primes = get_primes(16);
    for a in 1..35u64 {
        for x in 1..6u64 {
            let curve = EllipticCurve { a: big(a) };
            if let Some(g) = try_curve(&curve, Point { x: big(x), y: big(x + 1) }, &primes, 16, n) {
                assert!(val(g) == 5 || val(g) == 7);
            }
        }
    }
}

#[test]
fn find_factor_rejects_invalid_moduli() {
    assert_eq!(find_factor(big(2), 10).map(val), Err(FactorError::InvalidModulus));
    assert_eq!(find_factor(big(1), 10).map(val), Err(FactorError::InvalidModulus));
    assert_eq!(find_factor(big(100), 10).map(val), Err(FactorError::InvalidModulus));
    assert_eq!(find_factor(neg(15), 10).map(val), Err(FactorError::InvalidModulus));
    assert_eq!(find_factor(big(1_000_003 * 1_000_033), 0).map(val), Err(FactorError::BudgetExhausted));
    assert_eq!(find_factor(big(1_000_000_007), 10).map(val), Err(FactorError::InvalidModulus));
    assert_eq!(find_factor(big(3), 10).map(val), Err(FactorError::InvalidModulus));
    assert_eq!(find_factor(wide(94628975263), 10).map(val), Err(FactorError::InvalidModulus));
}

#[test]
fn find_factor_of_small_semiprime() {
    let n = 1_000_003u64 * 1_000_033;
    let g = val(find_factor(big(n), 1000).ok().unwrap());
    assert!(g == 1_000_003 || g == 1_000_033);
}

#[test]
fn find_factor_of_two_large_primes() {
    let (a, b) = (24755137493u64, 94628975263u64);
    let g = find_factor(wide(a as u128 * b as u128), 10000).ok().unwrap();
    assert!(g == big(a) || g == big(b));
}

#[test]
fn find_factor_is_deterministic() {
    let n = big(1_000_003 * 1_000_033);
    let first = find_factor(n, 1000).map(val);
    let second = find_factor(n, 1000).map(val);
    assert_eq!(first, second);
    assert!(first.is_ok());
}

#[test]
fn test_find_prime() {
    let start = 1000000000000000000_u64;
    let mut rng = seeded_rng(0);
    for _ in 0..100 {
        let p = val(find_prime(big(start), big(start * 2), 1000, &mut rng).unwrap());
        assert!(start <= p && p < start * 2);
        assert!(miller_rabin(big(p), &mut seeded_rng(3)));
    }
}

#[test]
fn find_prime_in_small_ranges() {
    let mut rng = seeded_rng(0);
    for _ in 0..50 {
        let p = val(find_prime(big(1000), big(1100), 1000, &mut rng).unwrap());
        assert!((1000..1100).contains(&p));
        assert!(trial_division(p));
    }
}

#[test]
fn find_prime_is_deterministic() {
    let lo = big(1_000_000_000_000);
    let hi = big(2_000_000_000_000);
    let mut r1 = seeded_rng(42);
    let mut r2 = seeded_rng(42);
    for _ in 0..10 {
        let p = find_prime(lo, hi, 1000, &mut r1).map(val);
        let q = find_prime(lo, hi, 1000, &mut r2).map(val);
        assert_eq!(p, q);
        assert!(p.is_some());
    }
}

#[test]
fn montgomery_inverse_examples() {
    assert_eq!(montgomery::mod_inverse(3, 7), 5);
    assert_eq!(montgomery::mod_inverse(4, 6), 5);
    assert_eq!(montgomery::mod_inverse(0, 1), 0);
    let p = 1000000007u64;
    let np = montgomery::mod_inverse(R - p, R);
    assert_eq!((R - p) * np % R, 1);
    assert_eq!(p.wrapping_mul(np) % R, R - 1);
}

#[test]
fn montgomery_product_matches_plain_product() {
    let p = 1000000007u64;
    let np = montgomery::mod_inverse(R - p, R);
    let r2 = R % p * R % p;
    let mut prod = R % p;
    let mut plain = 1u64;
    let mut num = 2u64;
    for _ in 0..100000 {
        let mnum = redc(num * r2, p, np);
        prod = redc(prod * mnum, p, np);
        plain = plain * num % p;
        num = num * num % p + 1;
    }
    assert_eq!(redc(prod, p, np), plain);
}

#[test]
fn redc_examples() {
    let n = 17u64;
    let np = R - montgomery::mod_inverse(n, R);
    assert_eq!(n * np % R, R - 1);
    for t in [0u64, 1, 16, 17, 100, 17 * R - 1] {
        let r = redc(t, n, np);
        assert!(r < n);
        assert_eq!((r as u128 * R as u128) % n as u128, t as u128 % n as u128);
    }
}

#[test]
fn test_find_factor() {
    let start = 10u64.pow(11);
    let mut rng = seeded_rng(0);
    for _ in 0..5 {
        let a = find_prime(big(start), big(start * 2), 1000, &mut rng).unwrap();
        let b = find_prime(big(start), big(start * 2), 1000, &mut rng).unwrap();
        let factor = find_factor(wide(val(a) as u128 * val(b) as u128), 10000).ok().unwrap();
        assert!(factor == a || factor == b);
    }
}

#[test]
fn integer_conversions() {
    assert_eq!(val(big(0)), 0);
    assert_eq!(val(big(u64::MAX)), u64::MAX);
    assert_eq!(big(7).limbs, [7, 0, 0, 0]);
    // Reduction of negative values goes through the Euclidean remainder.
    assert_eq!(mod_inverse(neg(1), big(10)).map(val), Ok(9));
    assert_eq!(val(pow_mod(big(3), wide(1u128 << 70), big(1_000_000_007))), {
        let mut x = 3u64;
        for _ in 0..70 {
            x = x * x % 1_000_000_007;
        }
        x
    });
}

#[test]
fn find_prime_without_windows_finds_nothing() {
    let mut rng = seeded_rng(0);
    assert!(find_prime(big(1000), big(2000), 0, &mut rng).is_none());
}

#[test]
fn miller_rabin_small_inputs_leave_generator_alone() {
    for n in 0..4u64 {
        let mut used = seeded_rng(5);
        miller_rabin(big(n), &mut used);
        let mut fresh = seeded_rng(5);
        assert_eq!(used.gen::<u64>(), fresh.gen::<u64>());
    }
}

#[test]
fn montgomery_inverse_is_reduced_bezout_coefficient() {
    // 4 * (-1) + 6 * 1 = 2, and -1 reduced modulo 6 is 5.
    assert_eq!(montgomery::mod_inverse(4, 6), 5);
    // 240 * (-9) + 46 * 47 = 2, and -9 reduced modulo 46 is 37.
    assert_eq!(montgomery::mod_inverse(240, 46), 37);
    // 0 * 0 + 5 * 1 = 5.
    assert_eq!(montgomery::mod_inverse(0, 5), 0);
}

/// The value of a possibly negative `Int` whose magnitude fits in `i64`.
fn signed(x: Int) -> i128 {
    if x.limbs[3] >> 63 == 1 {
        -(x.limbs[0].wrapping_neg() as i128)
    } else {
        x.limbs[0] as i128
    }
}

#[test]
fn linear_combination_examples() {
    let cases: [(i128, i128, i128); 9] = [
        (240, 46, 2),
        (46, 240, 2),
        (-240, 46, 2),
        (240, -46, 2),
        (17, 5, 1),
        (0, 7, 7),
        (5, 0, 5),
        (-5, 0, 5),
        (0, 0, 0),
    ];
    for (a, b, g) in cases {
        let to_int = |v: i128| if v < 0 { neg((-v) as u64) } else { big(v as u64) };
        let (x, y) = find_linear_combination(to_int(a), to_int(b));
        assert_eq!(a * signed(x) + b * signed(y), g, "a = {}, b = {}", a, b);
    }
}

#[test]
fn first_probable_prime_scans_in_order() {
    let mut rng = seeded_rng(0);
    let all = vec![true; 20];
    // Candidates 90, 91, ...: the first prime is 97, at offset 7.
    assert_eq!(first_probable_prime(big(89), big(200), &all, &mut rng).map(val), Some(97));
    let mut struck = all.clone();
    struck[7] = false;
    assert_eq!(first_probable_prime(big(89), big(200), &struck, &mut rng).map(val), Some(101));
    // Only candidates below hi are tested.
    assert_eq!(first_probable_prime(big(89), big(97), &all, &mut rng).map(val), None);
    assert_eq!(first_probable_prime(big(89), big(200), &struck[..10].to_vec(), &mut rng).map(val), None);
}

#[test]
fn test_montgomery() {
    const COUNT: usize = 1000000000;
    const P: u64 = 1000000007;
    let np = montgomery::mod_inverse(R - P, R);
    let r2 = R % P * R % P;
    let mut prod = R;
    let mut num = 2;
    for _ in 0..COUNT {
        let mnum = redc(num * r2, P, np);
        prod = redc(prod * mnum, P, np);
        num = num * num % P + 1;
    }
    prod = redc(prod, P, np);
    assert_eq!(prod, 450032353);
}
