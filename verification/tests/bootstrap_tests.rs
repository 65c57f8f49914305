use fhe_processor::primitives::SelectorBits;
use fhe_processor::processors::convert::{extraction_terms, scale_offset, Term};
use fhe_processor::processors::low_noise_ms::fast_low_noise_pbs_modulus_switch;
use fhe_processor::processors::pbs::{
    blind_rotate_local_assign_after_ms, can_rotate, can_run_rotation, many_lut_accumulator,
    pbs_many_lut_after_ms_before_extract,
};
use fhe_processor::processors::rev_trace::trace_key_indices;
use tfhe::core_crypto::fft_impl::fft64::c64;
use tfhe::core_crypto::prelude::{
    allocate_and_encrypt_new_lwe_ciphertext, allocate_and_generate_new_binary_glwe_secret_key,
    allocate_and_generate_new_binary_lwe_secret_key, allocate_and_generate_new_lwe_bootstrap_key,
    convert_standard_lwe_bootstrap_key_to_fourier, decrypt_glwe_ciphertext,
    ActivatedRandomGenerator, CiphertextModulus, DecompositionBaseLog, DecompositionLevelCount,
    EncryptionRandomGenerator, Fft, FourierGgswCiphertextList, FourierLweBootstrapKey,
    GlweCiphertext, GlweDimension, GlweSecretKeyOwned, LweDimension, LweSecretKeyOwned,
    Plaintext, PlaintextCount, PlaintextList, PolynomialSize, SecretRandomGenerator, StandardDev,
};
use tfhe::core_crypto::seeders::new_seeder;

const POLY: usize = 256;
const SMALL: usize = 16;
const PBS_BASE_LOG: usize = 8;
const PBS_LEVELS: usize = 3;

fn neg(x: u64) -> u64 {
    0u64.wrapping_sub(x)
}

fn noise() -> StandardDev {
    StandardDev(0.00000000000000029403601535432533)
}

fn empty_key(poly: usize, glwe_size: usize) -> SelectorBits {
    SelectorBits {
        list: FourierGgswCiphertextList::new(
            Vec::<c64>::new(),
            0,
            GlweDimension(glwe_size - 1).to_glwe_size(),
            PolynomialSize(poly),
            DecompositionBaseLog(PBS_BASE_LOG),
            DecompositionLevelCount(PBS_LEVELS),
        ),
    }
}

/// The polynomial divided by `X^degree` modulo `X^N + 1`, term by term.
fn divided(poly: &[u64], degree: usize) -> Vec<u64> {
    let n = poly.len();
    let mut out = vec![0u64; n];
    for (i, value) in poly.iter().enumerate() {
        let target = (i + 2 * n - degree % (2 * n)) % (2 * n);
        if target < n {
            out[target] = out[target].wrapping_add(*value);
        } else {
            out[target - n] = out[target - n].wrapping_sub(*value);
        }
    }
    out
}

#[test]
fn an_accumulator_holds_the_sign_pattern_turned_by_half_a_box() {
    let accumulator = many_lut_accumulator(0, 1, 8, 16, 2);
    let mut expected = vec![neg(1 << 55); 14];
    expected.extend_from_slice(&[1 << 55, 1 << 55]);
    assert_eq!(accumulator, expected);
    assert_eq!(many_lut_accumulator(0, 1, 8, 4, 0), vec![neg(1 << 55); 4]);
    assert_eq!(many_lut_accumulator(2, 1, 8, 4, 4), vec![1 << 39; 4]);
    assert!(many_lut_accumulator(0, 1, 8, 0, 0).is_empty());
}

#[test]
fn the_places_of_an_accumulator_take_the_levels_in_turn() {
    assert_eq!(
        many_lut_accumulator(1, 2, 4, 8, 2),
        vec![
            neg(1 << 51),
            neg(1 << 47),
            neg(1 << 51),
            neg(1 << 47),
            neg(1 << 51),
            neg(1 << 47),
            1 << 51,
            1 << 47
        ]
    );
}

#[test]
fn without_key_bits_a_rotation_is_a_division() {
    let key = empty_key(64, 2);
    let fft = Fft::new(PolynomialSize(64));
    let start: Vec<u64> = (0..128u64).map(|i| i * i + 7).collect();
    assert!(can_rotate(&key, &fft, 128));
    assert!(!can_rotate(&key, &fft, 64));
    assert!(!can_rotate(&key, &Fft::new(PolynomialSize(128)), 128));
    for body in [0usize, 1, 5, 63, 64, 65, 127, 128, 200] {
        let mut lut = start.clone();
        blind_rotate_local_assign_after_ms(body, &vec![3, 9, 27], &key, &mut lut, &fft);
        let mut expected = divided(&start[..64], body);
        expected.extend_from_slice(&divided(&start[64..], body));
        assert_eq!(lut, expected);
    }
    let mut lut = start.clone();
    blind_rotate_local_assign_after_ms(1, &Vec::new(), &key, &mut lut, &fft);
    assert_eq!(lut[0], 8);
    assert_eq!(lut[63], neg(7));
    assert_eq!(lut[64], 65 * 65 + 7);
    assert_eq!(lut[127], neg(64 * 64 + 7));
}

#[test]
fn without_key_bits_the_accumulators_are_divided_only() {
    let key = empty_key(64, 2);
    let fft = Fft::new(PolynomialSize(64));
    assert!(can_run_rotation(&key, &fft, 0, 8, 3, 4));
    let accumulators = pbs_many_lut_after_ms_before_extract(66, &vec![5, 6], &key, &fft, 0, 8, 3, 4);
    assert_eq!(accumulators.len(), 3);
    for (g, accumulator) in accumulators.iter().enumerate() {
        let plain = many_lut_accumulator(g, 1, 8, 64, 2);
        assert_eq!(&accumulator[..64], &vec![0u64; 64][..]);
        assert_eq!(&accumulator[64..], &divided(&plain, 66)[..]);
    }
    let accumulators = pbs_many_lut_after_ms_before_extract(0, &Vec::new(), &key, &fft, 1, 8, 3, 4);
    assert_eq!(accumulators.len(), 2);
    assert_eq!(&accumulators[1][64..], &many_lut_accumulator(1, 2, 8, 64, 2)[..]);
    assert!(pbs_many_lut_after_ms_before_extract(0, &Vec::new(), &key, &fft, 1, 8, 0, 4).is_empty());
}

#[test]
fn levels_that_leave_no_digit_cannot_be_rotated() {
    let key = empty_key(64, 2);
    let fft = Fft::new(PolynomialSize(64));
    assert!(can_run_rotation(&key, &fft, 0, 9, 7, 4));
    assert!(!can_run_rotation(&key, &fft, 0, 9, 8, 4));
    assert!(can_run_rotation(&key, &fft, 1, 8, 6, 4));
    assert!(can_run_rotation(&key, &fft, 1, 9, 6, 4));
    assert!(!can_run_rotation(&key, &fft, 1, 9, 7, 4));
    assert!(can_run_rotation(&key, &fft, 0, 64, 0, 4));
    assert!(!can_run_rotation(&key, &fft, 64, 8, 2, 4));
    assert!(!can_run_rotation(&key, &fft, 0, 8, 2, 63));
    assert!(!can_run_rotation(&key, &Fft::new(PolynomialSize(128)), 0, 8, 2, 4));
}

struct Keys {
    small: LweSecretKeyOwned<u64>,
    large: GlweSecretKeyOwned<u64>,
    bootstrap: SelectorBits,
    generator: EncryptionRandomGenerator<ActivatedRandomGenerator>,
}

fn keys() -> Keys {
    let mut boxed_seeder = new_seeder();
    let seeder = boxed_seeder.as_mut();
    let mut secret_generator =
        SecretRandomGenerator::<ActivatedRandomGenerator>::new(seeder.seed());
    let mut generator =
        EncryptionRandomGenerator::<ActivatedRandomGenerator>::new(seeder.seed(), seeder);
    let small = allocate_and_generate_new_binary_lwe_secret_key::<u64, _>(
        LweDimension(SMALL),
        &mut secret_generator,
    );
    let large = allocate_and_generate_new_binary_glwe_secret_key::<u64, _>(
        GlweDimension(1),
        PolynomialSize(POLY),
        &mut secret_generator,
    );
    let bsk = allocate_and_generate_new_lwe_bootstrap_key(
        &small,
        &large,
        DecompositionBaseLog(PBS_BASE_LOG),
        DecompositionLevelCount(PBS_LEVELS),
        noise(),
        CiphertextModulus::new_native(),
        &mut generator,
    );
    let mut fourier_bsk = FourierLweBootstrapKey::new(
        bsk.input_lwe_dimension(),
        bsk.glwe_size(),
        bsk.polynomial_size(),
        bsk.decomposition_base_log(),
        bsk.decomposition_level_count(),
    );
    convert_standard_lwe_bootstrap_key_to_fourier(&bsk, &mut fourier_bsk);
    let bootstrap = SelectorBits {
        list: FourierGgswCiphertextList::new(
            fourier_bsk.as_view().data().to_vec(),
            SMALL,
            bsk.glwe_size(),
            bsk.polynomial_size(),
            bsk.decomposition_base_log(),
            bsk.decomposition_level_count(),
        ),
    };
    Keys { small, large, bootstrap, generator }
}

fn coefficients(keys: &Keys, glwe: &Vec<u64>) -> Vec<u64> {
    let ciphertext = GlweCiphertext::from_container(
        glwe.as_slice(),
        PolynomialSize(POLY),
        CiphertextModulus::new_native(),
    );
    let mut plain = PlaintextList::new(0u64, PlaintextCount(POLY));
    decrypt_glwe_ciphertext(&keys.large, &ciphertext, &mut plain);
    plain.into_container()
}

/// The binary digit that a coefficient holds at the scale of a level, once
/// half the scale has been added.
fn digit_at(coefficient: u64, level: usize, base_log: usize) -> u64 {
    let log_scale = 64 - level * base_log;
    let moved = coefficient.wrapping_add(1 << (log_scale - 1));
    (((moved >> (log_scale - 1)) + 1) >> 1) % 2
}

#[test]
fn a_rotated_accumulator_holds_the_sign_of_the_message_at_every_level() {
    let mut keys = keys();
    let fft = Fft::new(PolynomialSize(POLY));
    assert!(can_run_rotation(&keys.bootstrap, &fft, 0, 8, 2, 4));
    for message in 0..16u64 {
        let cipher = allocate_and_encrypt_new_lwe_ciphertext(
            &keys.small,
            Plaintext(message << 60),
            noise(),
            CiphertextModulus::new_native(),
            &mut keys.generator,
        );
        let words: Vec<u64> = cipher.as_ref().to_vec();
        let (mask, body) = fast_low_noise_pbs_modulus_switch(&words, 8, 0, 0);
        let accumulators =
            pbs_many_lut_after_ms_before_extract(body, &mask, &keys.bootstrap, &fft, 0, 8, 2, 4);
        assert_eq!(accumulators.len(), 2);
        for (g, accumulator) in accumulators.iter().enumerate() {
            assert_eq!(accumulator.len(), 2 * POLY);
            let plain = coefficients(&keys, accumulator);
            assert_eq!(digit_at(plain[0], g + 1, 8), message / 8);
        }
    }
}

#[test]
fn one_rotation_serves_two_levels() {
    let mut keys = keys();
    let fft = Fft::new(PolynomialSize(POLY));
    assert!(can_run_rotation(&keys.bootstrap, &fft, 1, 8, 2, 4));
    for message in 0..16u64 {
        let cipher = allocate_and_encrypt_new_lwe_ciphertext(
            &keys.small,
            Plaintext(message << 60),
            noise(),
            CiphertextModulus::new_native(),
            &mut keys.generator,
        );
        let words: Vec<u64> = cipher.as_ref().to_vec();
        let (mask, body) = fast_low_noise_pbs_modulus_switch(&words, 8, 0, 1);
        let accumulators =
            pbs_many_lut_after_ms_before_extract(body, &mask, &keys.bootstrap, &fft, 1, 8, 2, 4);
        assert_eq!(accumulators.len(), 1);
        let plain = coefficients(&keys, &accumulators[0]);
        assert_eq!(digit_at(plain[0], 1, 8), message / 8);
        assert_eq!(digit_at(plain[1], 2, 8), message / 8);
    }
}

#[test]
fn the_sums_for_the_four_selector_bits() {
    let plus = |degree: usize| Term { degree, subtract: false };
    let minus = |degree: usize| Term { degree, subtract: true };
    assert_eq!(extraction_terms(0, 1024), vec![plus(0)]);
    assert_eq!(extraction_terms(1, 1024), vec![plus(1536)]);
    assert_eq!(extraction_terms(2, 1024), vec![plus(0), plus(1280), minus(1792)]);
    assert_eq!(
        extraction_terms(3, 1024),
        vec![plus(384), minus(896), plus(1152), plus(1536), minus(1664)]
    );
    assert_eq!(extraction_terms(3, 20), vec![plus(6), minus(14), plus(18), plus(24), minus(26)]);
}

#[test]
fn the_offset_of_a_level_is_half_its_scale() {
    assert_eq!(scale_offset(1, 8), 1 << 55);
    assert_eq!(scale_offset(2, 8), 1 << 47);
    assert_eq!(scale_offset(1, 16), 1 << 47);
    assert_eq!(scale_offset(7, 9), 1);
    assert_eq!(scale_offset(0, 100), 1 << 63);
}

#[test]
fn the_automorphisms_of_the_reverse_trace() {
    assert_eq!(
        trace_key_indices(1024),
        vec![3, 5, 9, 17, 33, 65, 129, 257, 513, 1025]
    );
    assert_eq!(trace_key_indices(2), vec![3]);
    assert!(trace_key_indices(1).is_empty());
    assert_eq!(trace_key_indices(12), vec![4, 7, 13]);
}

#[test]
fn a_key_without_levels_or_digits_rotates_nothing() {
    let fft = Fft::new(PolynomialSize(64));
    let key = |base_log: usize, levels: usize| SelectorBits {
        list: FourierGgswCiphertextList::new(
            Vec::<c64>::new(),
            0,
            GlweDimension(1).to_glwe_size(),
            PolynomialSize(64),
            DecompositionBaseLog(base_log),
            DecompositionLevelCount(levels),
        ),
    };
    assert!(can_rotate(&key(8, 3), &fft, 128));
    assert!(!can_rotate(&key(8, 0), &fft, 128));
    assert!(!can_rotate(&key(0, 3), &fft, 128));
    assert!(can_run_rotation(&key(8, 3), &fft, 0, 8, 3, 4));
    assert!(!can_run_rotation(&key(8, 0), &fft, 0, 8, 3, 4));
    assert!(!can_run_rotation(&key(0, 3), &fft, 0, 8, 3, 4));
}
