use bfv_params::bigint::big_rem_u64;
use bfv_params::decryption::{decryption_entry, shift_reduce, split_scaled};
use bfv_params::parameters::{is_power_of_two, largest, BfvParameters, ParameterError};
use bfv_params::primes::{generate_prime, pow2_u64};
use bfv_params::ring::{filled, prefix, Poly, PolyContext, Representation};
use bfv_params::selection::{contains, pick_prime, select_moduli};
use num_bigint::BigUint;
use num_traits::{One, ToPrimitive};

fn build(sizes: &[usize], t: u64, degree: usize) -> BfvParameters {
    match BfvParameters::new(sizes, t, degree) {
        Ok(p) => p,
        Err(e) => panic!("construction failed: {:?}", e),
    }
}

fn failure(sizes: &[usize], t: u64, degree: usize) -> ParameterError {
    match BfvParameters::new(sizes, t, degree) {
        Ok(_) => panic!("construction succeeded"),
        Err(e) => e,
    }
}

fn trial_prime(n: u64) -> bool {
    if n < 2 {
        return false;
    }
    let mut d = 2u64;
    while d * d <= n {
        if n % d == 0 {
            return false;
        }
        d += 1;
    }
    true
}

fn product(moduli: &[u64]) -> BigUint {
    let mut q = BigUint::one();
    for m in moduli {
        q = q * *m;
    }
    q
}

#[test]
fn two_thirty_bit_moduli() {
    let p = build(&[30, 30], 17, 8);
    assert_eq!(p.ciphertext_moduli.len(), 2);
    assert_ne!(p.ciphertext_moduli[0], p.ciphertext_moduli[1]);
    for q in &p.ciphertext_moduli {
        assert_eq!(q % 16, 1);
        assert!(*q >= 1u64 << 29 && *q < 1u64 << 30);
        assert!(trial_prime(*q));
    }
    assert_eq!(p.ciphertext_poly_contexts.len(), 2);
    assert_eq!(p.ciphertext_poly_contexts[0].moduli, p.ciphertext_moduli);
    assert_eq!(p.ciphertext_poly_contexts[1].moduli, vec![p.ciphertext_moduli[0]]);
    assert_eq!(p.ql_modt[1], p.ciphertext_moduli[0] % 17);
    assert_eq!(p.max_bit_size_by2, 15);
    assert_eq!(p.plaintext_modulus, 17);
    assert_eq!(p.polynomial_degree, 8);
    assert_eq!(p.ciphertext_moduli_sizes, vec![30, 30]);
}

#[test]
fn second_modulus_lies_below_the_first() {
    let p = build(&[30, 30], 17, 8);
    assert!(p.ciphertext_moduli[1] < p.ciphertext_moduli[0]);
    let mut c = (1u64 << 30) - 15;
    while !trial_prime(c) {
        c -= 16;
    }
    assert_eq!(p.ciphertext_moduli[0], c);
    c -= 16;
    while !trial_prime(c) {
        c -= 16;
    }
    assert_eq!(p.ciphertext_moduli[1], c);
}

#[test]
fn no_four_bit_prime_for_degree_1024() {
    assert_eq!(failure(&[4], 17, 1024), ParameterError::InsufficientPrimes);
}

#[test]
fn second_request_finds_every_prime_taken() {
    assert_eq!(failure(&[5, 5], 3, 8), ParameterError::InsufficientPrimes);
}

#[test]
fn zero_and_oversized_bit_sizes_have_no_primes() {
    assert_eq!(failure(&[0], 3, 8), ParameterError::InsufficientPrimes);
    assert_eq!(failure(&[65], 3, 8), ParameterError::InsufficientPrimes);
    assert_eq!(failure(&[1], 3, 1), ParameterError::InsufficientPrimes);
}

#[test]
fn plaintext_modulus_sharing_a_factor_is_rejected() {
    // The only 5-bit prime that is one modulo 16 is 17.
    assert_eq!(failure(&[5], 17, 8), ParameterError::NonInvertible);
    assert_eq!(failure(&[5], 34, 8), ParameterError::NonInvertible);
    // 13 * 11 shares the factor 11 with 22.
    assert_eq!(failure(&[4, 4], 22, 1), ParameterError::NonInvertible);
}

#[test]
fn malformed_requests_are_rejected() {
    assert_eq!(failure(&[], 17, 8), ParameterError::InvalidConfiguration);
    assert_eq!(failure(&[30], 1, 8), ParameterError::InvalidConfiguration);
    assert_eq!(failure(&[30], 0, 8), ParameterError::InvalidConfiguration);
    assert_eq!(failure(&[30], 17, 12), ParameterError::InvalidConfiguration);
    assert_eq!(failure(&[30], 17, 0), ParameterError::InvalidConfiguration);
    // Validation comes before the search.
    assert_eq!(failure(&[4], 1, 1024), ParameterError::InvalidConfiguration);
}

#[test]
fn exact_tables_for_thirteen_and_eleven() {
    let p = build(&[4, 4], 3, 1);
    assert_eq!(p.ciphertext_moduli, vec![13, 11]);
    assert_eq!(p.max_bit_size_by2, 2);
    assert_eq!(p.ciphertext_poly_contexts[0].modulus, vec![143u8]);
    assert_eq!(p.ciphertext_poly_contexts[1].modulus, vec![13u8]);
    assert_eq!(p.ciphertext_poly_contexts[0].degree, 1);
    assert_eq!(p.ql_modt, vec![2, 1]);
    // 140 * 95 = 93 * 143 + 1, and 95 = 7 * 13 + 4 = 8 * 11 + 7.
    assert_eq!(p.neg_t_inv_modql[0].coefficients, vec![vec![4u64], vec![7u64]]);
    assert_eq!(p.neg_t_inv_modql[0].representation, Representation::Evaluation);
    // 10 * 4 = 3 * 13 + 1.
    assert_eq!(p.neg_t_inv_modql[1].coefficients, vec![vec![4u64]]);
    assert_eq!(p.t_qlhat_inv_modql_divql_modt, vec![vec![1, 1], vec![0]]);
    assert_eq!(p.t_qlhat_inv_modql_divql_frac, vec![vec![5, 7], vec![3]]);
    assert_eq!(p.t_bqlhat_inv_modql_divql_modt, vec![vec![2, 0], vec![0]]);
    assert_eq!(p.t_bqlhat_inv_modql_divql_frac, vec![vec![7, 6], vec![12]]);
}

#[test]
fn plaintext_modulus_above_the_ciphertext_modulus() {
    let p = build(&[4], 100, 1);
    assert_eq!(p.ciphertext_moduli, vec![13]);
    assert_eq!(p.ql_modt, vec![13]);
    // -100 = 4 modulo 13, and 4 * 10 = 3 * 13 + 1.
    assert_eq!(p.neg_t_inv_modql[0].coefficients, vec![vec![10u64]]);
}

#[test]
fn levels_are_prefixes_of_the_chain() {
    let p = build(&[20, 21, 20, 22], 65537, 16);
    let count = p.ciphertext_moduli.len();
    assert_eq!(count, 4);
    for i in 0..count {
        let ctx = &p.ciphertext_poly_contexts[i];
        assert_eq!(ctx.moduli, p.ciphertext_moduli[..count - i].to_vec());
        assert_eq!(ctx.degree, 16);
        assert_eq!(BigUint::from_bytes_le(ctx.modulus()), product(&ctx.moduli));
    }
    for (k, q) in p.ciphertext_moduli.iter().enumerate() {
        let s = p.ciphertext_moduli_sizes[k];
        assert!(trial_prime(*q));
        assert!(*q >= 1u64 << (s - 1) && *q < 1u64 << s);
        assert_eq!(q % 32, 1);
        assert!(!p.ciphertext_moduli[..k].contains(q));
    }
    assert_eq!(p.max_bit_size_by2, 11);
}

#[test]
fn encryption_constants_invert_minus_t() {
    let t = 65537u64;
    let p = build(&[30, 31, 30], t, 8);
    for (i, ctx) in p.ciphertext_poly_contexts.iter().enumerate() {
        let q = product(&ctx.moduli);
        assert_eq!(p.ql_modt[i], (&q % t).to_u64().unwrap());
        let poly = &p.neg_t_inv_modql[i];
        assert_eq!(poly.representation, Representation::Evaluation);
        assert_eq!(poly.coefficients.len(), ctx.moduli.len());
        // Rebuild the integer from its residues and test it against -t.
        let mut x = BigUint::from(0u64);
        for (k, qk) in ctx.moduli.iter().enumerate() {
            let row = &poly.coefficients[k];
            assert_eq!(row.len(), 8);
            assert!(row.iter().all(|v| *v == row[0]));
            let hat = &q / *qk;
            let hat_mod = (&hat % *qk).to_u64().unwrap();
            let mut inv = 0u64;
            for c in 1..*qk {
                if (hat_mod as u128 * c as u128) % (*qk as u128) == 1 {
                    inv = c;
                    break;
                }
                if c > 1 << 20 {
                    break;
                }
            }
            if inv == 0 {
                // Fall back on Fermat for large moduli.
                inv = BigUint::from(hat_mod)
                    .modpow(&BigUint::from(*qk - 2), &BigUint::from(*qk))
                    .to_u64()
                    .unwrap();
            }
            x = x + hat * ((row[0] as u128 * inv as u128 % *qk as u128) as u64);
        }
        let x = x % &q;
        assert_eq!((x * (&q - t)) % &q, BigUint::one());
    }
}

#[test]
fn decryption_constants_follow_the_formulas() {
    let t = 65537u64;
    let p = build(&[30, 31, 30], t, 8);
    let b = p.max_bit_size_by2;
    assert_eq!(b, 15);
    for (i, ctx) in p.ciphertext_poly_contexts.iter().enumerate() {
        let q = product(&ctx.moduli);
        assert_eq!(p.t_qlhat_inv_modql_divql_modt[i].len(), ctx.moduli.len());
        for (k, qk) in ctx.moduli.iter().enumerate() {
            let hat_mod = ((&q / *qk) % *qk).to_u64().unwrap();
            let inv = BigUint::from(hat_mod)
                .modpow(&BigUint::from(*qk - 2), &BigUint::from(*qk))
                .to_u64()
                .unwrap() as u128;
            let qk = *qk as u128;
            let t = t as u128;
            let shifted = (inv << b) % qk;
            assert_eq!(p.t_qlhat_inv_modql_divql_modt[i][k] as u128, (inv * t / qk) % t);
            assert_eq!(p.t_qlhat_inv_modql_divql_frac[i][k] as u128, (inv * t) % qk);
            assert_eq!(p.t_bqlhat_inv_modql_divql_modt[i][k] as u128, (shifted * t / qk) % t);
            assert_eq!(p.t_bqlhat_inv_modql_divql_frac[i][k] as u128, (shifted * t) % qk);
            let fraction = p.t_qlhat_inv_modql_divql_frac[i][k] as f64 / qk as f64;
            assert!(fraction >= 0.0 && fraction < 1.0);
            assert!((fraction * qk as f64 - ((inv * t) % qk) as f64).abs() < 1e-6);
        }
    }
}

#[test]
fn building_twice_gives_the_same_tables() {
    let a = build(&[30, 28, 30], 257, 64);
    let b = build(&[30, 28, 30], 257, 64);
    assert_eq!(a.ciphertext_moduli, b.ciphertext_moduli);
    assert_eq!(a.ql_modt, b.ql_modt);
    assert_eq!(a.max_bit_size_by2, b.max_bit_size_by2);
    assert_eq!(a.t_qlhat_inv_modql_divql_modt, b.t_qlhat_inv_modql_divql_modt);
    assert_eq!(a.t_bqlhat_inv_modql_divql_modt, b.t_bqlhat_inv_modql_divql_modt);
    assert_eq!(a.t_qlhat_inv_modql_divql_frac, b.t_qlhat_inv_modql_divql_frac);
    assert_eq!(a.t_bqlhat_inv_modql_divql_frac, b.t_bqlhat_inv_modql_divql_frac);
    for i in 0..3 {
        assert_eq!(a.neg_t_inv_modql[i].coefficients, b.neg_t_inv_modql[i].coefficients);
        assert_eq!(a.ciphertext_poly_contexts[i].modulus, b.ciphertext_poly_contexts[i].modulus);
    }
}

#[test]
fn sixty_bit_moduli() {
    let p = build(&[60, 60], 65537, 1024);
    assert_eq!(p.ciphertext_moduli.len(), 2);
    for q in &p.ciphertext_moduli {
        assert_eq!(q % 2048, 1);
        assert!(*q >= 1u64 << 59 && *q < 1u64 << 60);
    }
    assert_eq!(p.max_bit_size_by2, 30);
    assert_eq!(p.neg_t_inv_modql[0].coefficients[1].len(), 1024);
}

#[test]
fn generate_prime_finds_the_largest_below_the_bound() {
    assert_eq!(generate_prime(5, 16, 32), Some(17));
    assert_eq!(generate_prime(5, 16, 1 << 40), Some(17));
    assert_eq!(generate_prime(5, 16, 17), None);
    assert_eq!(generate_prime(4, 2, 16), Some(13));
    assert_eq!(generate_prime(4, 2, 13), Some(11));
    assert_eq!(generate_prime(4, 2, 11), None);
    assert_eq!(generate_prime(4, 4, 16), Some(13));
    assert_eq!(generate_prime(4, 2048, 16), None);
    assert_eq!(generate_prime(2, 2, 4), Some(3));
    assert_eq!(generate_prime(2, 2, 3), None);
    assert_eq!(generate_prime(7, 6, 128), Some(127));
    assert_eq!(generate_prime(7, 6, 127), Some(109));
}

#[test]
fn generate_prime_rejects_degenerate_requests() {
    assert_eq!(generate_prime(0, 2, 16), None);
    assert_eq!(generate_prime(4, 0, 16), None);
    assert_eq!(generate_prime(4, 1, 16), None);
    assert_eq!(generate_prime(4, 2, 0), None);
    assert_eq!(generate_prime(65, 2, u64::MAX), None);
    assert_eq!(generate_prime(64, 2, u64::MAX), Some(18446744073709551557));
}

#[test]
fn pick_prime_skips_what_is_taken() {
    assert_eq!(pick_prime(4, 1, &vec![]), Some(13));
    assert_eq!(pick_prime(4, 1, &vec![13]), Some(11));
    assert_eq!(pick_prime(4, 1, &vec![11]), Some(13));
    assert_eq!(pick_prime(4, 1, &vec![13, 11]), None);
    assert_eq!(pick_prime(4, 0, &vec![]), None);
}

#[test]
fn select_moduli_answers_each_size_in_order() {
    assert_eq!(select_moduli(&[4, 4, 3], 1), Some(vec![13, 11, 7]));
    assert_eq!(select_moduli(&[3, 3, 3], 1), None);
    assert_eq!(select_moduli(&[], 8), Some(vec![]));
}

#[test]
fn small_helpers() {
    assert!(contains(&vec![3, 5, 7], 5));
    assert!(!contains(&vec![3, 5, 7], 4));
    assert_eq!(prefix(&vec![3, 5, 7], 2), vec![3, 5]);
    assert_eq!(prefix(&vec![3, 5, 7], 0), Vec::<u64>::new());
    assert_eq!(filled(9, 3), vec![9, 9, 9]);
    assert_eq!(pow2_u64(0), 1);
    assert_eq!(pow2_u64(10), 1024);
    assert_eq!(pow2_u64(63), 1u64 << 63);
    assert_eq!(largest(&[3, 60, 7]), 60);
    assert_eq!(largest(&[]), 0);
    assert!(is_power_of_two(1));
    assert!(is_power_of_two(4096));
    assert!(!is_power_of_two(0));
    assert!(!is_power_of_two(24));
    assert!(!is_power_of_two(usize::MAX));
}

#[test]
fn scaled_splits() {
    assert_eq!(split_scaled(6, 13, 3), (1, 5));
    assert_eq!(split_scaled(11, 13, 3), (2, 7));
    assert_eq!(split_scaled(u64::MAX - 1, u64::MAX, u64::MAX), (u64::MAX - 1, 0));
    assert_eq!(split_scaled(5, 7, 10), (7, 1));
    assert_eq!(shift_reduce(6, 13, 2), 11);
    assert_eq!(shift_reduce(6, 13, 0), 6);
    assert_eq!(shift_reduce(u64::MAX, u64::MAX - 1, 63), ((1u128 << 63) % (u64::MAX as u128 - 1)) as u64);
    let e = decryption_entry(6, 13, 3, 2);
    assert_eq!((e.rational, e.fractional, e.brational, e.bfractional), (1, 5, 2, 7));
}

#[test]
fn constant_elements() {
    let ctx = PolyContext::new(vec![13, 11], 4);
    assert_eq!(ctx.modulus(), &vec![143u8]);
    let mut poly = Poly::from_constant(&vec![95u8], &ctx);
    assert_eq!(poly.representation, Representation::Coefficient);
    assert_eq!(poly.coefficients, vec![vec![4, 0, 0, 0], vec![7, 0, 0, 0]]);
    poly.constant_to_evaluation();
    assert_eq!(poly.representation, Representation::Evaluation);
    assert_eq!(poly.coefficients, vec![vec![4, 4, 4, 4], vec![7, 7, 7, 7]]);
    // 300 = 0x012c, in little-endian bytes.
    let big = Poly::from_constant(&vec![0x2c, 0x01], &ctx);
    assert_eq!(big.coefficients, vec![vec![1, 0, 0, 0], vec![3, 0, 0, 0]]);
}

#[test]
fn context_modulus_spans_several_words() {
    let moduli = vec![(1u64 << 61) - 1, (1u64 << 31) - 1, 1_000_000_007];
    let ctx = PolyContext::new(moduli.clone(), 2);
    assert_eq!(BigUint::from_bytes_le(ctx.modulus()), product(&moduli));
    assert_eq!(ctx.moduli, moduli);
    assert_eq!(ctx.moduli(), &moduli);
}

#[test]
fn remainder_of_a_long_integer() {
    // 2^64 + 5, in little-endian bytes.
    let a = vec![5u8, 0, 0, 0, 0, 0, 0, 0, 1];
    assert_eq!(big_rem_u64(&a, 7), ((1u128 << 64) + 5).rem_euclid(7) as u64);
    assert_eq!(big_rem_u64(&a, u64::MAX), 6);
    assert_eq!(big_rem_u64(&vec![], 7), 0);
    assert_eq!(big_rem_u64(&vec![9, 0, 0], 1), 0);
}

#[test]
fn generate_prime_with_a_large_factor() {
    let factor = 1u64 << 20;
    let p = match generate_prime(40, factor, 1 << 40) {
        Some(p) => p,
        None => panic!("no prime found"),
    };
    assert_eq!(p % factor, 1);
    assert!(p >= 1 << 39 && p < 1 << 40);
    assert!(trial_prime(p));
    let mut c = (1u64 << 40) - factor + 1;
    while c > p {
        assert!(!trial_prime(c));
        c -= factor;
    }
    assert_eq!(c, p);
    assert_eq!(generate_prime(64, u64::MAX, u64::MAX), None);
    assert_eq!(generate_prime(3, 7, 8), None);
    assert_eq!(generate_prime(3, 3, 8), Some(7));
    assert_eq!(generate_prime(3, 3, 7), None);
    assert_eq!(generate_prime(3, 4, 8), Some(5));
}
