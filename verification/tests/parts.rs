use bchlib::algebra::poly_derivative;
use bchlib::algebra::poly_divide;
use bchlib::algebra::poly_product;
use bchlib::algebra::poly_sum;
use bchlib::algebra::poly_times_linear;
use bchlib::decoder::locate;
use bchlib::encoder::compute_parity;
use bchlib::field::GaloisField;
use bchlib::generator::build_generator;
use bchlib::locator::solve_locator;
use bchlib::poly::accumulate;
use bchlib::poly::evaluate;
use bchlib::roots::find_errors;
use bchlib::syndrome::compute_syndromes;
use bchlib::syndrome::is_clean;
use bchlib::BCH;
use bchlib::UNCORRECTABLE;

fn field(m: u32, poly: u32) -> GaloisField {
    match GaloisField::new(m, poly) {
        Some(f) => f,
        None => panic!("the polynomial is primitive"),
    }
}

#[test]
fn field_is_built_for_primitive_polynomials_only() {
    assert!(GaloisField::new(5, 0x25).is_some());
    assert!(GaloisField::new(5, 0x3d).is_some());
    assert!(GaloisField::new(5, 0x3f).is_none());
    assert!(GaloisField::new(5, 0x21).is_none());
    assert!(GaloisField::new(5, 0x22).is_none());
    assert!(GaloisField::new(5, 0x43).is_none());
    assert!(GaloisField::new(4, 0x13).is_none());
    assert!(GaloisField::new(16, 0x1100b).is_none());
    assert!(GaloisField::new(15, 0x8003).is_some());
}

#[test]
fn field_reports_its_degree_and_order() {
    let f = field(5, 0x25);
    assert_eq!(f.degree(), 5);
    assert_eq!(f.order(), 31);
    let f = field(13, 0x201b);
    assert_eq!(f.degree(), 13);
    assert_eq!(f.order(), 8191);
}

#[test]
fn field_powers_of_alpha() {
    let f = field(5, 0x25);
    let expected: [u32; 8] = [1, 2, 4, 8, 16, 5, 10, 20];
    for (i, v) in expected.iter().enumerate() {
        assert_eq!(f.exp(i as u32), *v);
    }
    assert_eq!(f.exp(31), 1);
    assert_eq!(f.exp(36), 5);
}

#[test]
fn field_logarithm_inverts_the_powers() {
    let f = field(5, 0x25);
    for x in 1..32u32 {
        let l = f.log(x);
        assert!(l < 31);
        assert_eq!(f.exp(l), x);
    }
    for i in 0..31u32 {
        assert_eq!(f.log(f.exp(i)), i);
    }
}

#[test]
fn field_multiplication_is_that_of_a_field() {
    let f = field(5, 0x25);
    assert_eq!(f.mul(2, 16), 5);
    assert_eq!(f.mul(3, 3), 5);
    assert_eq!(f.mul(0, 7), 0);
    assert_eq!(f.mul(7, 0), 0);
    for a in 0..32u32 {
        assert_eq!(f.mul(a, 1), a);
        for b in 0..32u32 {
            assert_eq!(f.mul(a, b), f.mul(b, a));
            for c in 0..32u32 {
                assert_eq!(f.mul(a ^ b, c), f.mul(a, c) ^ f.mul(b, c));
                assert_eq!(f.mul(f.mul(a, b), c), f.mul(a, f.mul(b, c)));
            }
        }
    }
}

#[test]
fn field_division_undoes_multiplication() {
    let f = field(5, 0x25);
    assert_eq!(f.div(5, 2), 16);
    assert_eq!(f.div(0, 9), 0);
    for a in 0..32u32 {
        for b in 1..32u32 {
            assert_eq!(f.mul(f.div(a, b), b), a);
        }
    }
}

#[test]
fn generator_of_the_short_codes() {
    let f = field(5, 0x25);
    assert_eq!(build_generator(&f, 1), vec![1, 0, 0, 1, 0, 1]);
    assert_eq!(build_generator(&f, 2), vec![1, 1, 1, 0, 1, 1, 0, 1, 0, 0, 1]);
    assert_eq!(
        build_generator(&f, 3),
        vec![1, 0, 0, 0, 1, 1, 1, 1, 1, 0, 1, 0, 1, 1, 1, 1]
    );
}

#[test]
fn generator_has_the_roots_of_the_code() {
    let f = field(6, 0x43);
    let g = build_generator(&f, 3);
    assert_eq!(g.len(), 19);
    for j in 1..=6u32 {
        assert_eq!(accumulate(&f, 0, &g, f.exp(j)), 0);
    }
    assert_ne!(accumulate(&f, 0, &g, f.exp(7)), 0);
}

#[test]
fn accumulate_follows_horner() {
    let f = field(5, 0x25);
    let bits: [u8; 3] = [1, 0, 1];
    assert_eq!(accumulate(&f, 0, &bits, 2), 5);
    assert_eq!(accumulate(&f, 1, &bits, 2), 5 ^ 8);
    let none: [u8; 0] = [];
    assert_eq!(accumulate(&f, 9, &none, 2), 9);
}

#[test]
fn evaluate_reads_coefficients_from_the_constant_term() {
    let f = field(5, 0x25);
    let c: [u32; 3] = [3, 0, 1];
    assert_eq!(evaluate(&f, &c, 2), 4 ^ 3);
    assert_eq!(evaluate(&f, &c, 0), 3);
    let none: [u32; 0] = [];
    assert_eq!(evaluate(&f, &none, 5), 0);
}

#[test]
fn parity_is_the_remainder() {
    let gen: Vec<u8> = vec![1, 1, 1, 0, 1, 1, 0, 1, 0, 0, 1];
    let mut msg = [0u8; 21];
    msg[0] = 1;
    assert_eq!(compute_parity(&gen, &msg), vec![1, 1, 1, 0, 1, 1, 0, 1, 0, 0]);
    let last: [u8; 1] = [1];
    assert_eq!(compute_parity(&gen, &last), vec![1, 1, 0, 1, 1, 0, 1, 0, 0, 1]);
    let none: [u8; 0] = [];
    assert_eq!(compute_parity(&gen, &none), vec![0u8; 10]);
}

#[test]
fn syndromes_of_a_codeword_are_zero() {
    let f = field(5, 0x25);
    let mut msg = [0u8; 21];
    msg[0] = 1;
    let ecc: [u8; 10] = [1, 1, 1, 0, 1, 1, 0, 1, 0, 0];
    let syn = compute_syndromes(&f, &msg, &ecc, 2);
    assert_eq!(syn, vec![0, 0, 0, 0]);
    assert!(is_clean(&syn));
}

#[test]
fn syndromes_of_one_error_are_the_powers_of_its_locator() {
    let f = field(5, 0x25);
    let mut msg = [0u8; 21];
    msg[0] = 1;
    msg[9] = 1;
    let ecc: [u8; 10] = [1, 1, 1, 0, 1, 1, 0, 1, 0, 0];
    let syn = compute_syndromes(&f, &msg, &ecc, 2);
    assert_eq!(syn, vec![f.exp(21), f.exp(42), f.exp(63), f.exp(84)]);
    assert!(!is_clean(&syn));
}

#[test]
fn locator_of_one_error() {
    let f = field(5, 0x25);
    let syn = vec![f.exp(21), f.exp(42), f.exp(63), f.exp(84)];
    let (sigma, deg) = solve_locator(&f, &syn, 2);
    assert_eq!(deg, 1);
    assert_eq!(sigma, vec![1, f.exp(21), 0, 0, 0]);
    assert_eq!(find_errors(&f, &sigma, deg, 31), vec![9]);
}

#[test]
fn locator_of_two_errors() {
    let f = field(5, 0x25);
    let x = f.exp(30);
    let y = f.exp(7);
    let syn = vec![
        x ^ y,
        f.mul(x, x) ^ f.mul(y, y),
        f.exp(90) ^ f.exp(21),
        f.exp(120) ^ f.exp(28),
    ];
    let (sigma, deg) = solve_locator(&f, &syn, 2);
    assert_eq!(deg, 2);
    assert_eq!(sigma, vec![1, x ^ y, f.mul(x, y), 0, 0]);
    assert_eq!(find_errors(&f, &sigma, deg, 31), vec![0, 23]);
}

#[test]
fn locate_gives_up_beyond_the_capability() {
    let f = field(5, 0x25);
    let mut msg = [0u8; 21];
    let ecc: [u8; 10] = [1, 1, 1, 0, 1, 1, 0, 1, 0, 0];
    msg[1] = 1;
    msg[2] = 1;
    assert_eq!(locate(&f, 2, &msg, &ecc), None);
    msg[2] = 0;
    assert_eq!(locate(&f, 2, &msg, &ecc), Some(vec![0, 1]));
    msg[1] = 0;
    msg[0] = 1;
    assert_eq!(locate(&f, 2, &msg, &ecc), Some(vec![]));
}

fn sample_word(len: usize, seed: u32) -> Vec<u8> {
    let mut state = seed.wrapping_mul(2654435761).wrapping_add(12345);
    let mut word = Vec::new();
    for _ in 0..len {
        state = state.wrapping_mul(1664525).wrapping_add(1013904223);
        word.push(((state >> 16) & 1) as u8);
    }
    word
}

#[test]
fn whatever_is_found_leads_into_the_code() {
    let params: [(i32, i32); 3] = [(5, 1), (5, 2), (6, 3)];
    for (m, t) in params {
        let bch = BCH::init(m, t).unwrap();
        let n = bch.n() as usize;
        let k = n - bch.ecc_bits() as usize;
        let mut corrected = 0;
        let mut given_up = 0;
        for seed in 0..300 {
            let mut word = sample_word(n, seed);
            let mut errloc = vec![0u32; t as usize];
            let nerr = bch.decode(&word[..k], &word[k..], &mut errloc);
            if nerr == UNCORRECTABLE {
                given_up += 1;
            } else {
                assert!(0 <= nerr && nerr <= t);
                for i in 1..nerr as usize {
                    assert!(errloc[i - 1] < errloc[i]);
                }
                bch.correct(&mut word, &errloc, nerr);
                let mut again = vec![0u32; t as usize];
                assert_eq!(bch.decode(&word[..k], &word[k..], &mut again), 0);
                corrected += 1;
            }
        }
        assert_eq!(corrected + given_up, 300);
        if t == 1 {
            assert_eq!(given_up, 0);
        }
    }
}

#[test]
fn only_the_parity_completes_a_codeword() {
    let bch = BCH::init(5, 1).unwrap();
    let msg = sample_word(26, 4);
    let mut parity = [0u8; 5];
    bch.encode(&msg, &mut parity);
    let mut errloc = [0u32; 1];
    for pattern in 0..32u8 {
        let ecc: [u8; 5] = [
            (pattern >> 4) & 1,
            (pattern >> 3) & 1,
            (pattern >> 2) & 1,
            (pattern >> 1) & 1,
            pattern & 1,
        ];
        let clean = bch.decode(&msg, &ecc, &mut errloc) == 0;
        assert_eq!(clean, ecc == parity);
    }
}

#[test]
fn polynomials_add_coefficient_by_coefficient() {
    let a: [u32; 3] = [1, 2, 3];
    let b: [u32; 2] = [7, 2];
    assert_eq!(poly_sum(&a, &b), vec![6, 0, 3]);
    assert_eq!(poly_sum(&b, &a), vec![6, 0, 3]);
    let none: [u32; 0] = [];
    assert_eq!(poly_sum(&a, &none), vec![1, 2, 3]);
    assert_eq!(poly_sum(&none, &none), Vec::<u32>::new());
}

#[test]
fn polynomials_multiply() {
    let f = field(5, 0x25);
    // (x + 2)(x + 4) = x^2 + 6x + 8
    let a: [u32; 2] = [2, 1];
    let b: [u32; 2] = [4, 1];
    assert_eq!(poly_product(&f, &a, &b), vec![8, 6, 1]);
    assert_eq!(poly_times_linear(&f, &vec![2, 1], 4), vec![8, 6, 1]);
    // (x^2 + 16)(3x + 1) = 3x^3 + x^2 + 17x + 16
    let c: [u32; 3] = [16, 0, 1];
    let d: [u32; 2] = [1, 3];
    assert_eq!(poly_product(&f, &c, &d), vec![16, f.mul(16, 3), 1, 3]);
    let none: [u32; 0] = [];
    assert_eq!(poly_product(&f, &c, &none), Vec::<u32>::new());
    for x in 0..32u32 {
        let p = poly_product(&f, &c, &d);
        assert_eq!(evaluate(&f, &p, x), f.mul(evaluate(&f, &c, x), evaluate(&f, &d, x)));
    }
}

#[test]
fn derivative_keeps_the_odd_powers() {
    let c: [u32; 5] = [9, 8, 7, 6, 5];
    assert_eq!(poly_derivative(&c), vec![8, 0, 6, 0]);
    let one: [u32; 1] = [9];
    assert_eq!(poly_derivative(&one), Vec::<u32>::new());
    let none: [u32; 0] = [];
    assert_eq!(poly_derivative(&none), Vec::<u32>::new());
}

#[test]
fn division_gives_quotient_and_remainder() {
    let f = field(5, 0x25);
    let a: [u32; 4] = [16, 30, 1, 3];
    let b: [u32; 2] = [1, 3];
    let (q, r) = poly_divide(&f, &a, &b);
    assert_eq!(q.len(), 3);
    assert_eq!(r.len(), 1);
    assert_eq!(poly_sum(&poly_product(&f, &q, &b), &r), vec![16, 30, 1, 3]);
    let exact = poly_product(&f, &[16, 0, 1], &b);
    let (q, r) = poly_divide(&f, &exact, &b);
    assert_eq!(q, vec![16, 0, 1]);
    assert_eq!(r, vec![0]);
    let (q, r) = poly_divide(&f, &b, &a);
    assert_eq!(q, Vec::<u32>::new());
    assert_eq!(r, vec![1, 3, 0]);
    let unit: [u32; 1] = [5];
    let (q, r) = poly_divide(&f, &a, &unit);
    assert_eq!(r, Vec::<u32>::new());
    assert_eq!(poly_product(&f, &q, &unit), vec![16, 30, 1, 3]);
}
