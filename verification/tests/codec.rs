use bchlib::BCH;
use bchlib::UNCORRECTABLE;

#[test]
fn test_decode() {
    let bch = BCH::init(5, 2).unwrap();
    let msg: [u8; 21] = [1, 0, 0, 0, 0, 0, 0, 0, 0, 0, 0, 0, 0, 0, 0, 0, 0, 0, 0, 0, 0];
    let ecc: [u8; 10] = [1, 1, 1, 0, 1, 1, 0, 1, 0, 0];
    let mut errloc: [u32; 2] = [0, 0];
    let nerr = bch.decode(&msg, &ecc, &mut errloc);
    assert_eq!(errloc[0], 0);
    assert_eq!(errloc[1], 0);
    assert_eq!(nerr, 0);
}

#[test]
fn test_decode_err() {
    let bch = BCH::init(5, 2).unwrap();
    let msg: [u8; 21] = [1, 0, 0, 0, 0, 0, 0, 0, 0, 1, 0, 0, 0, 0, 0, 0, 0, 0, 0, 0, 0];
    let ecc: [u8; 10] = [1, 1, 1, 0, 1, 1, 0, 1, 0, 0];
    let mut errloc: [u32; 2] = [0, 0];
    let nerr = bch.decode(&msg, &ecc, &mut errloc);
    assert_eq!(errloc[0], 9);
    assert_eq!(errloc[1], 0);
    assert_eq!(nerr, 1);
}

#[test]
fn test_sync_codeword() {
    let bch = BCH::init(5, 2).unwrap();
    let msg: [u8; 21] = [0, 1, 1, 1, 1, 1, 0, 0, 1, 1, 0, 1, 0, 0, 1, 0, 0, 0, 0, 1, 0];
    let ecc: [u8; 10] = [1, 0, 1, 1, 1, 0, 1, 1, 0, 0];
    let mut errloc: [u32; 2] = [0, 0];
    let nerr = bch.decode(&msg, &ecc, &mut errloc);
    assert_eq!(errloc[0], 0);
    assert_eq!(errloc[1], 0);
    assert_eq!(nerr, 0);
}

#[test]
fn test_init_fail() {
    let bch = BCH::init_with_poly(5, 2, 1897);
    assert_eq!(bch.is_err(), true);
}

#[test]
fn init_reports_the_sizes_of_the_code() {
    let bch = BCH::init(5, 2).unwrap();
    assert_eq!(bch.m(), 5);
    assert_eq!(bch.n(), 31);
    assert_eq!(bch.t(), 2);
    assert_eq!(bch.ecc_bits(), 10);
    let sizes: [(i32, i32, u32, u32); 7] = [
        (5, 1, 31, 5),
        (5, 3, 31, 15),
        (5, 6, 31, 25),
        (6, 3, 63, 18),
        (7, 4, 127, 28),
        (8, 2, 255, 16),
        (13, 4, 8191, 52),
    ];
    for (m, t, n, ecc_bits) in sizes {
        let bch = BCH::init(m, t).unwrap();
        assert_eq!(bch.m(), m as u32);
        assert_eq!(bch.n(), n);
        assert_eq!(bch.t(), t as u32);
        assert_eq!(bch.ecc_bits(), ecc_bits);
    }
}

#[test]
fn init_accepts_every_supported_degree() {
    for m in 5..=15 {
        let bch = BCH::init(m, 1).unwrap();
        assert_eq!(bch.n(), (1u32 << m) - 1);
        assert_eq!(bch.ecc_bits(), m as u32);
    }
}

#[test]
fn init_with_zero_polynomial_is_init() {
    let a = BCH::init(5, 2).unwrap();
    let b = BCH::init_with_poly(5, 2, 0).unwrap();
    let c = BCH::init_with_poly(5, 2, 0x25).unwrap();
    let msg: [u8; 21] = [0, 1, 1, 0, 1, 0, 0, 0, 1, 1, 1, 0, 1, 0, 1, 1, 0, 0, 1, 0, 1];
    let mut ea = [0u8; 10];
    let mut eb = [0u8; 10];
    let mut ec = [0u8; 10];
    a.encode(&msg, &mut ea);
    b.encode(&msg, &mut eb);
    c.encode(&msg, &mut ec);
    assert_eq!(ea, eb);
    assert_eq!(ea, ec);
}

#[test]
fn init_rejects_a_degree_out_of_range() {
    assert!(BCH::init(4, 1).is_err());
    assert!(BCH::init(16, 1).is_err());
    assert!(BCH::init(0, 1).is_err());
    assert!(BCH::init(-5, 1).is_err());
}

#[test]
fn init_rejects_a_capability_out_of_range() {
    assert!(BCH::init(5, 0).is_err());
    assert!(BCH::init(5, -1).is_err());
    assert!(BCH::init(5, 6).is_ok());
    assert!(BCH::init(5, 7).is_err());
    assert!(BCH::init(5, i32::MAX).is_err());
    assert!(BCH::init(15, 2184).is_ok());
    assert!(BCH::init(15, 2185).is_err());
}

#[test]
fn init_rejects_a_polynomial_that_is_not_primitive() {
    // Degree 5, but the root has order 6.
    assert!(BCH::init_with_poly(5, 2, 0x3f).is_err());
    // Degree 5, without a constant term.
    assert!(BCH::init_with_poly(5, 2, 0x22).is_err());
    // x^5 + 1.
    assert!(BCH::init_with_poly(5, 2, 0x21).is_err());
    // Degrees 4 and 6.
    assert!(BCH::init_with_poly(5, 2, 0x13).is_err());
    assert!(BCH::init_with_poly(5, 2, 0x43).is_err());
    assert!(BCH::init_with_poly(6, 2, 0x43).is_ok());
}

#[test]
fn init_reports_its_error_in_words() {
    match BCH::init_with_poly(5, 2, 1897) {
        Ok(_) => panic!("a polynomial of degree 10 was accepted for degree 5"),
        Err(e) => assert_eq!(e, "Invalid BCH params"),
    }
}

#[test]
fn init_accepts_another_primitive_polynomial() {
    let bch = BCH::init_with_poly(5, 2, 0x3d).unwrap();
    let mut msg = [0u8; 21];
    msg[0] = 1;
    let mut ecc = [0u8; 10];
    bch.encode(&msg, &mut ecc);
    assert_eq!(ecc, [1, 0, 0, 1, 1, 0, 0, 0, 0, 1]);
}

#[test]
fn encode_gives_the_known_parity() {
    let bch = BCH::init(5, 2).unwrap();
    let mut msg = [0u8; 21];
    msg[0] = 1;
    let mut ecc = [7u8; 10];
    bch.encode(&msg, &mut ecc);
    assert_eq!(ecc, [1, 1, 1, 0, 1, 1, 0, 1, 0, 0]);
    let msg: [u8; 21] = [0, 1, 1, 1, 1, 1, 0, 0, 1, 1, 0, 1, 0, 0, 1, 0, 0, 0, 0, 1, 0];
    bch.encode(&msg, &mut ecc);
    assert_eq!(ecc, [1, 0, 1, 1, 1, 0, 1, 1, 0, 0]);
}

#[test]
fn encode_of_the_zero_message_is_zero() {
    let bch = BCH::init(5, 2).unwrap();
    let msg = [0u8; 21];
    let mut ecc = [1u8; 10];
    bch.encode(&msg, &mut ecc);
    assert_eq!(ecc, [0u8; 10]);
}

#[test]
fn encode_reads_the_lowest_bit_of_each_byte() {
    let bch = BCH::init(5, 2).unwrap();
    let mut msg = [b'0'; 21];
    msg[0] = b'1';
    let mut ecc = [0u8; 10];
    bch.encode(&msg, &mut ecc);
    assert_eq!(ecc, [1, 1, 1, 0, 1, 1, 0, 1, 0, 0]);
    let mut errloc = [0u32; 2];
    assert_eq!(bch.decode(&msg, &ecc, &mut errloc), 0);
}

#[test]
fn encode_with_capability_three() {
    let bch = BCH::init(5, 3).unwrap();
    let msg: [u8; 16] = [1, 0, 0, 0, 1, 1, 0, 0, 0, 1, 1, 0, 0, 0, 1, 1];
    let mut ecc = [0u8; 15];
    bch.encode(&msg, &mut ecc);
    assert_eq!(ecc, [0, 0, 1, 1, 0, 0, 1, 0, 1, 0, 0, 0, 0, 1, 0]);
    let mut word = [0u8; 31];
    word[..16].copy_from_slice(&msg);
    word[16..].copy_from_slice(&ecc);
    word[0] ^= 1;
    word[15] ^= 1;
    word[30] ^= 1;
    let mut errloc = [0u32; 3];
    let nerr = bch.decode(&word[..16], &word[16..], &mut errloc);
    assert_eq!(nerr, 3);
    assert_eq!(errloc, [0, 15, 30]);
}

fn sample_message(len: usize, seed: u32) -> Vec<u8> {
    let mut state = seed;
    let mut msg = Vec::new();
    for _ in 0..len {
        state = state.wrapping_mul(1664525).wrapping_add(1013904223);
        msg.push(((state >> 16) & 1) as u8);
    }
    msg
}

#[test]
fn round_trip_finds_no_error() {
    let params: [(i32, i32); 6] = [(5, 1), (5, 2), (5, 3), (6, 3), (7, 4), (8, 2)];
    for (m, t) in params {
        let bch = BCH::init(m, t).unwrap();
        let k = (bch.n() - bch.ecc_bits()) as usize;
        for seed in 0..20 {
            let msg = sample_message(k, seed);
            let mut ecc = vec![0u8; bch.ecc_bits() as usize];
            bch.encode(&msg, &mut ecc);
            let mut errloc = vec![77u32; t as usize];
            assert_eq!(bch.decode(&msg, &ecc, &mut errloc), 0);
            assert_eq!(errloc, vec![77u32; t as usize]);
        }
    }
}

#[test]
fn single_error_is_found_at_every_position() {
    let bch = BCH::init(5, 2).unwrap();
    let msg = sample_message(21, 5);
    let mut ecc = vec![0u8; 10];
    bch.encode(&msg, &mut ecc);
    let mut word = msg.clone();
    word.extend_from_slice(&ecc);
    for p in 0..31 {
        let mut received = word.clone();
        received[p] ^= 1;
        let mut errloc = [40u32, 41];
        let nerr = bch.decode(&received[..21], &received[21..], &mut errloc);
        assert_eq!(nerr, 1);
        assert_eq!(errloc, [p as u32, 41]);
        bch.correct(&mut received, &errloc, nerr);
        assert_eq!(received, word);
    }
}

#[test]
fn two_errors_are_found_at_every_pair_of_positions() {
    let bch = BCH::init(5, 2).unwrap();
    let msg = sample_message(21, 9);
    let mut ecc = vec![0u8; 10];
    bch.encode(&msg, &mut ecc);
    let mut word = msg.clone();
    word.extend_from_slice(&ecc);
    for p in 0..31 {
        for q in (p + 1)..31 {
            let mut received = word.clone();
            received[p] ^= 1;
            received[q] ^= 1;
            let mut errloc = [0u32; 2];
            let nerr = bch.decode(&received[..21], &received[21..], &mut errloc);
            assert_eq!(nerr, 2);
            assert_eq!(errloc, [p as u32, q as u32]);
            bch.correct(&mut received, &errloc, nerr);
            assert_eq!(received, word);
        }
    }
}

#[test]
fn errors_up_to_the_capability_are_corrected_in_a_long_code() {
    let bch = BCH::init(13, 4).unwrap();
    let k = 8191 - 52;
    let msg = sample_message(k, 3);
    let mut ecc = vec![0u8; 52];
    bch.encode(&msg, &mut ecc);
    let mut received = msg.clone();
    let mut parity = ecc.clone();
    received[0] ^= 1;
    received[4000] ^= 1;
    received[k - 1] ^= 1;
    parity[51] ^= 1;
    let mut errloc = [0u32; 4];
    let nerr = bch.decode(&received, &parity, &mut errloc);
    assert_eq!(nerr, 4);
    assert_eq!(errloc, [0, 4000, (k - 1) as u32, 8190]);
    bch.correct(&mut received, &errloc, nerr);
    assert_eq!(received, msg);
}

#[test]
fn three_errors_are_beyond_capability_two() {
    let bch = BCH::init(5, 2).unwrap();
    let mut msg = [0u8; 21];
    msg[0] = 1;
    let ecc: [u8; 10] = [1, 1, 1, 0, 1, 1, 0, 1, 0, 0];
    msg[0] ^= 1;
    msg[1] ^= 1;
    msg[2] ^= 1;
    let mut errloc = [5u32, 6];
    assert_eq!(bch.decode(&msg, &ecc, &mut errloc), UNCORRECTABLE);
    assert_eq!(errloc, [5, 6]);
    assert!(UNCORRECTABLE < 0);
}

#[test]
fn three_errors_never_give_a_word_outside_the_code() {
    let bch = BCH::init(5, 2).unwrap();
    let msg = sample_message(21, 1);
    let mut ecc = vec![0u8; 10];
    bch.encode(&msg, &mut ecc);
    let mut word = msg.clone();
    word.extend_from_slice(&ecc);
    let mut refused = 0;
    let mut moved = 0;
    for p in 0..31 {
        for q in (p + 1)..31 {
            for r in (q + 1)..31 {
                let mut received = word.clone();
                received[p] ^= 1;
                received[q] ^= 1;
                received[r] ^= 1;
                let mut errloc = [0u32; 2];
                let nerr = bch.decode(&received[..21], &received[21..], &mut errloc);
                if nerr == UNCORRECTABLE {
                    refused += 1;
                } else {
                    assert_eq!(nerr, 2);
                    bch.correct(&mut received, &errloc, nerr);
                    assert_ne!(received, word);
                    let mut again = [0u32; 2];
                    assert_eq!(bch.decode(&received[..21], &received[21..], &mut again), 0);
                    moved += 1;
                }
            }
        }
    }
    assert_eq!(refused, 2635);
    assert_eq!(moved, 1860);
}

#[test]
fn position_in_the_parity_is_counted_from_the_message() {
    let bch = BCH::init(5, 2).unwrap();
    let mut msg = [0u8; 21];
    msg[0] = 1;
    let mut ecc: [u8; 10] = [1, 1, 1, 0, 1, 1, 0, 1, 0, 0];
    ecc[0] ^= 1;
    ecc[9] ^= 1;
    let mut errloc = [0u32; 2];
    assert_eq!(bch.decode(&msg, &ecc, &mut errloc), 2);
    assert_eq!(errloc, [21, 30]);
    let before = msg;
    bch.correct(&mut msg, &errloc, 2);
    assert_eq!(msg, before);
}

#[test]
fn shortened_code_encodes_and_decodes() {
    let bch = BCH::init(5, 2).unwrap();
    let msg: [u8; 7] = [1, 0, 1, 1, 0, 0, 1];
    let mut ecc = [0u8; 10];
    bch.encode_bits(&msg, &mut ecc);
    assert_eq!(ecc, [1, 1, 0, 0, 0, 1, 1, 1, 0, 0]);
    let mut errloc = [0u32; 2];
    assert_eq!(bch.decode_bits(&msg, &ecc, &mut errloc), 0);
    let mut received = msg;
    let mut parity = ecc;
    received[3] ^= 1;
    parity[5] ^= 1;
    assert_eq!(bch.decode_bits(&received, &parity, &mut errloc), 2);
    assert_eq!(errloc, [3, 12]);
    bch.correct(&mut received, &errloc, 2);
    assert_eq!(received, msg);
}

#[test]
fn shortened_code_takes_the_empty_message() {
    let bch = BCH::init(5, 2).unwrap();
    let msg: [u8; 0] = [];
    let mut ecc = [1u8; 10];
    bch.encode_bits(&msg, &mut ecc);
    assert_eq!(ecc, [0u8; 10]);
    let mut errloc = [0u32; 2];
    assert_eq!(bch.decode_bits(&msg, &ecc, &mut errloc), 0);
    ecc[4] = 1;
    assert_eq!(bch.decode_bits(&msg, &ecc, &mut errloc), 1);
    assert_eq!(errloc[0], 4);
}

#[test]
fn full_length_variants_agree() {
    let bch = BCH::init(6, 3).unwrap();
    let msg = sample_message(45, 11);
    let mut a = vec![0u8; 18];
    let mut b = vec![0u8; 18];
    bch.encode(&msg, &mut a);
    bch.encode_bits(&msg, &mut b);
    assert_eq!(a, b);
    let mut received = msg.clone();
    received[44] ^= 1;
    received[7] ^= 1;
    let mut la = [0u32; 3];
    let mut lb = [0u32; 3];
    assert_eq!(bch.decode(&received, &a, &mut la), 2);
    assert_eq!(bch.decode_bits(&received, &a, &mut lb), 2);
    assert_eq!(la, [7, 44, 0]);
    assert_eq!(la, lb);
}

#[test]
fn decode_keeps_the_entries_it_does_not_fill() {
    let bch = BCH::init(5, 2).unwrap();
    let mut msg = [0u8; 21];
    msg[0] = 1;
    msg[20] = 1;
    let ecc: [u8; 10] = [1, 1, 1, 0, 1, 1, 0, 1, 0, 0];
    let mut errloc = [91u32, 92, 93, 94];
    assert_eq!(bch.decode(&msg, &ecc, &mut errloc), 1);
    assert_eq!(errloc, [20, 92, 93, 94]);
}

#[test]
fn correct_leaves_clean_input_alone() {
    let bch = BCH::init(5, 2).unwrap();
    let mut msg: [u8; 21] = [0, 1, 1, 1, 1, 1, 0, 0, 1, 1, 0, 1, 0, 0, 1, 0, 0, 0, 0, 1, 0];
    let before = msg;
    let none: [u32; 0] = [];
    bch.correct(&mut msg, &none, 0);
    assert_eq!(msg, before);
}

#[test]
fn correct_does_nothing_for_a_count_that_is_not_positive() {
    let bch = BCH::init(5, 2).unwrap();
    let mut msg: [u8; 21] = [0, 1, 1, 1, 1, 1, 0, 0, 1, 1, 0, 1, 0, 0, 1, 0, 0, 0, 0, 1, 0];
    let before = msg;
    let errloc: [u32; 2] = [3, 4];
    bch.correct(&mut msg, &errloc, 0);
    assert_eq!(msg, before);
    bch.correct(&mut msg, &errloc, -1);
    assert_eq!(msg, before);
    bch.correct(&mut msg, &errloc, UNCORRECTABLE);
    assert_eq!(msg, before);
}

#[test]
fn correct_inverts_the_named_bits() {
    let bch = BCH::init(5, 2).unwrap();
    let mut msg: [u8; 5] = [0, 1, 0, 1, b'1'];
    let errloc: [u32; 4] = [0, 3, 4, 1];
    bch.correct(&mut msg, &errloc, 3);
    assert_eq!(msg, [1, 1, 0, 0, b'0']);
    bch.correct(&mut msg, &errloc, 4);
    assert_eq!(msg, [0, 0, 0, 1, b'1']);
}

#[test]
fn correct_passes_over_positions_beyond_the_buffer() {
    let bch = BCH::init(5, 2).unwrap();
    let mut msg: [u8; 3] = [0, 1, 0];
    let errloc: [u32; 3] = [3, 1, u32::MAX];
    bch.correct(&mut msg, &errloc, 3);
    assert_eq!(msg, [0, 0, 0]);
}

#[test]
fn correct_inverts_a_bit_twice_named_twice() {
    let bch = BCH::init(5, 2).unwrap();
    let mut msg: [u8; 3] = [0, 1, 0];
    let errloc: [u32; 2] = [2, 2];
    bch.correct(&mut msg, &errloc, 2);
    assert_eq!(msg, [0, 1, 0]);
}
