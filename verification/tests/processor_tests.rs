use fhe_processor::primitives::Encryptor;
use fhe_processor::processors::key_gen::allocate_and_generate_new_reused_lwe_key;
use fhe_processor::processors::low_noise_ms::{
    can_switch, fast_low_noise_pbs_modulus_switch, fast_low_noise_pbs_modulus_switch_body,
    fast_low_noise_pbs_modulus_switch_mask, signed_div2,
};
use fhe_processor::processors::lwe_stored_ksk::{
    allocate_and_generate_new_stored_reused_lwe_keyswitch_key, can_generate,
    decomposition_plaintexts, generate_lwe_stored_reused_keyswitch_key, is_reused_key,
    lwe_keyswitch_key_input_key_element_encrypted_size, LweStoredReusedKeyswitchKey,
};
use fhe_processor::processors::lwe_storede_ks::{
    can_keyswitch, decompose_to_vev, stored_reused_keyswitch_lwe_ciphertext,
};
use fhe_processor::utils::tools::polynomial_wrapping_monic_monomial_mul_and_subtract;
use tfhe::core_crypto::fft_impl::common::fast_pbs_modulus_switch;
use tfhe::core_crypto::prelude::{
    allocate_and_encrypt_new_lwe_ciphertext, allocate_and_generate_new_binary_lwe_secret_key,
    decrypt_lwe_ciphertext, ActivatedRandomGenerator, CiphertextModulus,
    EncryptionRandomGenerator, LutCountLog, LweCiphertext, LweDimension, LweSecretKey,
    ModulusSwitchOffset, Plaintext, PolynomialSize, SecretRandomGenerator, StandardDev,
};
use tfhe::core_crypto::seeders::new_seeder;

fn neg(x: u64) -> u64 {
    0u64.wrapping_sub(x)
}

#[test]
fn a_reused_key_is_the_start_of_the_large_key() {
    let large = vec![1u64, 0, 0, 1, 1, 0, 1, 0];
    assert_eq!(allocate_and_generate_new_reused_lwe_key(&large, 3), vec![1, 0, 0]);
    assert_eq!(allocate_and_generate_new_reused_lwe_key(&large, 8), large);
}

#[test]
fn halving_a_signed_word_rounds_towards_zero() {
    assert_eq!(signed_div2(0), 0);
    assert_eq!(signed_div2(7), 3);
    assert_eq!(signed_div2(8), 4);
    assert_eq!(signed_div2(neg(1)), 0);
    assert_eq!(signed_div2(neg(7)), neg(3));
    assert_eq!(signed_div2(neg(8)), neg(4));
    assert_eq!(signed_div2(1 << 63), neg(1 << 62));
    assert_eq!(signed_div2((1 << 63) - 1), (1 << 62) - 1);
}

#[test]
fn a_mask_word_is_rounded_and_its_bias_kept() {
    assert_eq!(fast_low_noise_pbs_modulus_switch_mask(1 << 63, 11, 0, 0), (2048, 0));
    assert_eq!(fast_low_noise_pbs_modulus_switch_mask(1 << 51, 11, 0, 0), (1, neg(1 << 51)));
    assert_eq!(fast_low_noise_pbs_modulus_switch_mask((1 << 52) + 5, 11, 0, 0), (1, 5));
    assert_eq!(fast_low_noise_pbs_modulus_switch_mask(5 << 60, 11, 0, 2), (1280, 0));
    assert_eq!(
        fast_low_noise_pbs_modulus_switch_mask((5 << 60) + (1 << 53), 11, 0, 2),
        (1284, neg(1 << 53))
    );
    assert_eq!(fast_low_noise_pbs_modulus_switch_mask(3 << 59, 11, 1, 0), (768, 0));
}

#[test]
fn half_the_bias_is_taken_off_the_body() {
    let body = (3u64 << 52) + (1 << 50) + (1 << 49);
    assert_eq!(fast_low_noise_pbs_modulus_switch_body(body, 0, 11, 0, 0), 3);
    assert_eq!(fast_low_noise_pbs_modulus_switch_body(body, neg(1 << 51), 11, 0, 0), 4);
    let (mask, degree) = fast_low_noise_pbs_modulus_switch(&vec![1 << 51, body], 11, 0, 0);
    assert_eq!(mask, vec![1]);
    assert_eq!(degree, 4);
    let (mask, degree) = fast_low_noise_pbs_modulus_switch(&vec![body], 11, 0, 0);
    assert!(mask.is_empty());
    assert_eq!(degree, 3);
}

#[test]
fn mod_switch_test_trait() {
    let lwe_dimension = LweDimension(300);
    let noise = StandardDev(0.0000000000000000000000000000000000000001);
    let mut boxed_seeder = new_seeder();
    let seeder = boxed_seeder.as_mut();
    let ciphertext_modulus = CiphertextModulus::new_native();
    let poly_size = PolynomialSize(2048);
    let lut_log_count = LutCountLog(2);

    let mut secret_generator =
        SecretRandomGenerator::<ActivatedRandomGenerator>::new(seeder.seed());
    let mut encryption_generator =
        EncryptionRandomGenerator::<ActivatedRandomGenerator>::new(seeder.seed(), seeder);

    let key = allocate_and_generate_new_binary_lwe_secret_key::<u64, _>(
        lwe_dimension,
        &mut secret_generator,
    );

    let cipher = allocate_and_encrypt_new_lwe_ciphertext(
        &key,
        Plaintext(5 << 60),
        noise,
        ciphertext_modulus,
        &mut encryption_generator,
    );
    let words: Vec<u64> = cipher.as_ref().to_vec();

    let (mask, body) = fast_low_noise_pbs_modulus_switch(&words, 11, 0, lut_log_count.0);

    println!("our body: {:064b}", body);
    println!(
        "ori body: {:064b}",
        fast_pbs_modulus_switch(
            *cipher.get_body().data,
            poly_size,
            ModulusSwitchOffset(0),
            lut_log_count
        )
    );
    assert_eq!(mask.len(), 300);
    for (degree, word) in mask.iter().zip(words.iter()) {
        assert_eq!(
            *degree,
            fast_pbs_modulus_switch(*word, poly_size, ModulusSwitchOffset(0), lut_log_count)
        );
    }
    let mut temp = body as u64;
    for (a, k) in mask.iter().zip(key.into_container().iter()) {
        temp = temp.wrapping_sub((*a as u64) * (*k as u64));
    }
    temp = temp % (1 << 12);
    temp >>= 7;
    temp += 1;
    temp >>= 1;
    println!("result is {:04b}", temp);
    assert_eq!(temp, 5);

    println!("wait")
}

#[test]
fn a_polynomial_times_a_monomial_less_itself() {
    let input = vec![1u64, 2, 3, 4];
    let mut output = vec![0u64; 4];
    polynomial_wrapping_monic_monomial_mul_and_subtract(&mut output, &input, 0);
    assert_eq!(output, vec![0, 0, 0, 0]);
    polynomial_wrapping_monic_monomial_mul_and_subtract(&mut output, &input, 1);
    assert_eq!(output, vec![neg(5), neg(1), neg(1), neg(1)]);
    polynomial_wrapping_monic_monomial_mul_and_subtract(&mut output, &input, 3);
    assert_eq!(output, vec![neg(3), neg(5), neg(7), neg(3)]);
    polynomial_wrapping_monic_monomial_mul_and_subtract(&mut output, &input, 4);
    assert_eq!(output, vec![neg(2), neg(4), neg(6), neg(8)]);
    polynomial_wrapping_monic_monomial_mul_and_subtract(&mut output, &input, 5);
    assert_eq!(output, vec![3, neg(3), neg(5), neg(7)]);
    polynomial_wrapping_monic_monomial_mul_and_subtract(&mut output, &input, 8);
    assert_eq!(output, vec![0, 0, 0, 0]);
}

#[test]
fn the_terms_of_a_word() {
    assert_eq!(decompose_to_vev(0x12 << 56, 4, 2), vec![2, 1]);
    assert_eq!(decompose_to_vev((0x1f << 56) + (1 << 55), 4, 2), vec![0, 2]);
    assert_eq!(decompose_to_vev((0x1f << 56) + (1 << 55) - 1, 4, 2), vec![neg(1), 2]);
    assert_eq!(decompose_to_vev(0x19 << 56, 4, 2), vec![neg(7), 2]);
    assert_eq!(decompose_to_vev(0x88 << 56, 4, 2), vec![neg(8), neg(7)]);
    assert_eq!(decompose_to_vev(u64::MAX, 4, 2), vec![0, 0]);
    assert_eq!(decompose_to_vev(0, 4, 2), vec![0, 0]);
    assert_eq!(decompose_to_vev(5 << 61, 1, 3), vec![neg(1), neg(1), 0]);
    assert!(decompose_to_vev(12345, 7, 0).is_empty());
}

#[test]
fn the_terms_make_up_the_rounded_word() {
    let mut word: u64 = 0x9e37_79b9_7f4a_7c15;
    for _ in 0..200 {
        word = word.wrapping_mul(6364136223846793005).wrapping_add(1442695040888963407);
        for (base_log, levels) in [(4usize, 5usize), (8, 3), (1, 10), (15, 4), (2, 31)] {
            let terms = decompose_to_vev(word, base_log, levels);
            assert_eq!(terms.len(), levels);
            let half = 1i64 << (base_log - 1);
            let mut sum: u64 = 0;
            for (i, term) in terms.iter().enumerate() {
                let signed = *term as i64;
                assert!(-half <= signed && signed < half);
                sum = sum.wrapping_add(term << (64 - base_log * levels + base_log * i));
            }
            let shift = 63 - base_log * levels;
            let rounded = (((word >> shift) + 1) >> 1) << (shift + 1);
            assert_eq!(sum, rounded);
        }
    }
}

#[test]
fn the_plaintexts_of_a_key_word() {
    assert_eq!(
        decomposition_plaintexts(1, 2, 2),
        vec![1 << 63, 3 << 62, 0, 1 << 62, neg(2 << 60), neg(1 << 60), 0, 1 << 60]
    );
    assert_eq!(decomposition_plaintexts(0, 2, 2), vec![0; 8]);
    assert_eq!(decomposition_plaintexts(1, 1, 1), vec![1 << 63, 0]);
    assert!(decomposition_plaintexts(1, 3, 0).is_empty());
}

#[test]
fn a_key_has_a_block_for_every_word_beyond_the_small_key() {
    assert_eq!(lwe_keyswitch_key_input_key_element_encrypted_size(3, 4, 9), 9 * 3 * 16);
    let key = LweStoredReusedKeyswitchKey::new(7, 4, 3, 16, 8);
    assert_eq!(key.input_key_element_encrypted_size(), 9 * 3 * 16);
    assert_eq!(key.as_ref().len(), 8 * 9 * 3 * 16);
    assert!(key.as_ref().iter().all(|word| *word == 7));
    assert_eq!(key.decomposition_base_log(), 4);
    assert_eq!(key.decomposition_level_count(), 3);
    assert_eq!(key.input_key_lwe_dimension(), 16);
    assert_eq!(key.output_key_lwe_dimension(), 8);
    assert_eq!(key.input_lwe_size(), 17);
    assert_eq!(key.output_lwe_size(), 9);
    assert_eq!(key.lwe_size_diff(), 8);
    let meta = key.get_self_view_creation_metadata();
    let words = key.into_container();
    assert_eq!(words.len(), 8 * 9 * 3 * 16);
    let again = LweStoredReusedKeyswitchKey::create_from(words, meta);
    assert_eq!(again.input_lwe_size(), 17);
    assert_eq!(again.output_lwe_size(), 9);
    assert_eq!(again.decomposition_base_log(), 4);
    assert_eq!(again.decomposition_level_count(), 3);
    assert_eq!(again.lwe_size_diff(), 8);
}

#[test]
fn switching_with_a_key_of_zeros_takes_over_the_shared_words() {
    let key = LweStoredReusedKeyswitchKey::new(0, 4, 3, 6, 2);
    let input = vec![11u64, 12, 13, 14, 15, 16, 99];
    let mut output = vec![5u64; 3];
    stored_reused_keyswitch_lwe_ciphertext(&key, &input, &mut output);
    assert_eq!(output, vec![11, 12, 99]);
}

#[test]
fn switching_subtracts_the_selected_encryptions() {
    // One word beyond the small key, one level in base four: the block holds
    // four ciphertexts of two words, for the terms -2, -1, 0 and 1.
    let words = vec![10u64, 20, 11, 21, 12, 22, 13, 23];
    let key = LweStoredReusedKeyswitchKey::from_container(words, 2, 1, 3, 2, 1);
    for (top, place) in [(0u64, 2u64), (1, 3), (2, 0), (3, 1)] {
        let input = vec![1000u64, top << 62, 5000];
        let mut output = vec![0u64; 2];
        stored_reused_keyswitch_lwe_ciphertext(&key, &input, &mut output);
        assert_eq!(output, vec![1000 - 10 - place, 5000 - 20 - place]);
    }
}

#[test]
fn a_switched_ciphertext_decrypts_under_the_small_key() {
    let noise = StandardDev(0.00000000000000029403601535432533);
    let mut boxed_seeder = new_seeder();
    let seeder = boxed_seeder.as_mut();
    let mut secret_generator =
        SecretRandomGenerator::<ActivatedRandomGenerator>::new(seeder.seed());
    let mut encryption_generator =
        EncryptionRandomGenerator::<ActivatedRandomGenerator>::new(seeder.seed(), seeder);
    let mut encryptor = Encryptor {
        generator: EncryptionRandomGenerator::<ActivatedRandomGenerator>::new(seeder.seed(), seeder),
        noise,
    };
    let large_key = allocate_and_generate_new_binary_lwe_secret_key::<u64, _>(
        LweDimension(24),
        &mut secret_generator,
    );
    let large: Vec<u64> = large_key.as_ref().to_vec();
    let small = allocate_and_generate_new_reused_lwe_key(&large, 10);
    let key = allocate_and_generate_new_stored_reused_lwe_keyswitch_key(
        &large,
        &small,
        4,
        5,
        &mut encryptor,
    );
    assert_eq!(key.as_ref().len(), 14 * 11 * 5 * 16);
    assert!(key.as_ref().iter().any(|word| *word != 0));
    let small_key = LweSecretKey::from_container(small);
    for message in 0..16u64 {
        let cipher = allocate_and_encrypt_new_lwe_ciphertext(
            &large_key,
            Plaintext(message << 60),
            noise,
            CiphertextModulus::new_native(),
            &mut encryption_generator,
        );
        let input: Vec<u64> = cipher.as_ref().to_vec();
        let mut output = vec![0u64; 11];
        stored_reused_keyswitch_lwe_ciphertext(&key, &input, &mut output);
        let switched = LweCiphertext::from_container(output, CiphertextModulus::new_native());
        let plain = decrypt_lwe_ciphertext(&small_key, &switched).0;
        assert_eq!((((plain >> 59) + 1) >> 1) % 16, message);
    }
}

#[test]
fn the_switch_needs_a_scale_of_at_least_two() {
    assert!(can_switch(10, 0, 1));
    assert!(can_switch(10, 0, 0));
    assert!(can_switch(11, 0, 2));
    assert!(can_switch(62, 0, 1));
    assert!(!can_switch(62, 0, 0));
    assert!(!can_switch(63, 0, 2));
    assert!(!can_switch(10, 0, 11));
    assert!(can_switch(10, 1, 11));
    assert!(!can_switch(10, 54, 0));
    assert!(can_switch(10, 53, 0));
    assert!(!can_switch(10, 64, 12));
}

#[test]
fn a_key_is_well_formed_when_it_holds_whole_blocks() {
    let block = 3 * 2 * 4;
    let key = |len: usize| LweStoredReusedKeyswitchKey {
        data: vec![0u64; len],
        decomp_base_log: 2,
        decomp_level_count: 2,
        input_lwe_size: 6,
        output_lwe_size: 3,
        lwe_size_diff: 3,
    };
    assert!(key(block).is_well_formed());
    assert!(key(3 * block).is_well_formed());
    assert!(!key(0).is_well_formed());
    assert!(!key(block + 1).is_well_formed());
    let mut no_levels = key(block);
    no_levels.decomp_level_count = 0;
    assert!(!no_levels.is_well_formed());
    let mut no_body = key(block);
    no_body.output_lwe_size = 0;
    assert!(!no_body.is_well_formed());
    let mut huge = key(block);
    huge.decomp_level_count = usize::MAX;
    assert!(!huge.is_well_formed());
    let mut wide = key(block);
    wide.decomp_base_log = 64;
    assert!(!wide.is_well_formed());
}

#[test]
fn a_large_key_continues_the_small_one() {
    assert!(is_reused_key(&vec![1, 0, 1, 1], &vec![1, 0]));
    assert!(is_reused_key(&vec![7, 9, 1, 0], &vec![7, 9]));
    assert!(is_reused_key(&vec![1, 0], &vec![1, 0]));
    assert!(is_reused_key(&vec![1, 0], &vec![]));
    assert!(!is_reused_key(&vec![1, 0, 1, 1], &vec![1, 1]));
    assert!(!is_reused_key(&vec![1, 0, 2, 1], &vec![1, 0]));
    assert!(!is_reused_key(&vec![1], &vec![1, 0]));
}

#[test]
fn a_keyswitching_key_needs_a_decomposition_that_fits() {
    let large = vec![1u64, 0, 1, 1, 0, 1];
    let small = vec![1u64, 0, 1];
    assert!(can_generate(&large, &small, 4, 5));
    assert!(can_generate(&large, &small, 4, 16));
    assert!(!can_generate(&large, &small, 4, 17));
    assert!(!can_generate(&large, &small, 0, 5));
    assert!(!can_generate(&large, &small, 63, 1));
    assert!(!can_generate(&large, &small, 4, 0));
    assert!(!can_generate(&large, &large, 4, 5));
    assert!(!can_generate(&large, &vec![], 4, 5));
    assert!(!can_generate(&large, &vec![0, 0, 1], 4, 5));
    assert!(!can_generate(&vec![1, 0, 1, 1, 0, 3], &small, 4, 5));
    assert!(!can_generate(&large, &small, 62, 1));
}

#[test]
fn a_ciphertext_is_switched_only_at_the_sizes_of_the_key() {
    let key = LweStoredReusedKeyswitchKey::new(0, 4, 3, 6, 2);
    let input = vec![11u64, 12, 13, 14, 15, 16, 99];
    assert!(can_keyswitch(&key, &input, 3));
    assert!(!can_keyswitch(&key, &input, 4));
    assert!(!can_keyswitch(&key, &vec![0u64; 6], 3));
    let mut deep = LweStoredReusedKeyswitchKey::new(0, 4, 3, 6, 2);
    deep.decomp_level_count = 16;
    assert!(!can_keyswitch(&deep, &input, 3));
    let mut broken = LweStoredReusedKeyswitchKey::new(0, 4, 3, 6, 2);
    broken.data.push(0);
    assert!(!can_keyswitch(&broken, &input, 3));
}

#[test]
fn with_no_digit_to_round_by_the_top_word_cannot_be_switched() {
    let key = LweStoredReusedKeyswitchKey {
        data: vec![0u64; 2 * 7 * 512],
        decomp_base_log: 9,
        decomp_level_count: 7,
        input_lwe_size: 3,
        output_lwe_size: 2,
        lwe_size_diff: 1,
    };
    assert!(can_keyswitch(&key, &vec![5, 77, 9], 2));
    assert!(can_keyswitch(&key, &vec![u64::MAX, 77, u64::MAX], 2));
    assert!(!can_keyswitch(&key, &vec![5, u64::MAX, 9], 2));
    let mut output = vec![0u64; 2];
    stored_reused_keyswitch_lwe_ciphertext(&key, &vec![5, 1 << 63, 9], &mut output);
    assert_eq!(output, vec![5, 9]);
    assert_eq!(decompose_to_vev(1, 9, 7), vec![1, 0, 0, 0, 0, 0, 0]);
    assert_eq!(decompose_to_vev(u64::MAX - 1, 9, 7), vec![neg(1), 0, 0, 0, 0, 0, 0]);
    assert_eq!(decompose_to_vev(3, 63, 1), vec![2]);
}

#[test]
fn the_ciphertexts_of_a_key_in_order() {
    let words: Vec<u64> = (0..16).collect();
    let key = LweStoredReusedKeyswitchKey::from_container(words, 2, 1, 3, 2, 1);
    let list = key.as_lwe_ciphertext_list();
    assert_eq!(list.len(), 8);
    for (i, ciphertext) in list.iter().enumerate() {
        assert_eq!(ciphertext, &vec![2 * i as u64, 2 * i as u64 + 1]);
    }
}

fn encryptor() -> Encryptor {
    let mut boxed_seeder = new_seeder();
    let seeder = boxed_seeder.as_mut();
    Encryptor {
        generator: EncryptionRandomGenerator::<ActivatedRandomGenerator>::new(seeder.seed(), seeder),
        noise: StandardDev(0.00000000000000029403601535432533),
    }
}

/// How far a word is from another on the circle of words.
fn distance(a: u64, b: u64) -> u64 {
    let d = a.wrapping_sub(b);
    d.min(d.wrapping_neg())
}

#[test]
fn every_ciphertext_of_a_key_encrypts_the_plaintext_of_its_place() {
    let large = vec![1u64, 0, 1, 1, 0, 1, 1];
    let small = vec![1u64, 0, 1];
    let mut encryptor = encryptor();
    let key = allocate_and_generate_new_stored_reused_lwe_keyswitch_key(
        &large,
        &small,
        3,
        2,
        &mut encryptor,
    );
    let list = key.as_lwe_ciphertext_list();
    assert_eq!(list.len(), 4 * 2 * 8);
    let small_key = LweSecretKey::from_container(small);
    for k in 0..4 {
        let plaintexts = decomposition_plaintexts(large[3 + k], 3, 2);
        assert_eq!(plaintexts.len(), 16);
        for (index, plain) in plaintexts.iter().enumerate() {
            let ciphertext = LweCiphertext::from_container(
                list[k * 16 + index].clone(),
                CiphertextModulus::new_native(),
            );
            let decrypted = decrypt_lwe_ciphertext(&small_key, &ciphertext).0;
            assert!(distance(decrypted, *plain) < 1 << 20);
        }
    }
}

#[test]
fn blocks_beyond_the_large_key_stay_as_they_are() {
    let large = vec![1u64, 0, 1, 1, 0];
    let small = vec![1u64, 0, 1];
    let block = 4 * 1 * 4;
    let mut key = LweStoredReusedKeyswitchKey::from_container(vec![7u64; 5 * block], 2, 1, 6, 4, 2);
    let mut encryptor = encryptor();
    generate_lwe_stored_reused_keyswitch_key(&large, &small, &mut key, &mut encryptor);
    let words = key.as_ref();
    assert_eq!(words.len(), 5 * block);
    assert!(words[2 * block..].iter().all(|word| *word == 7));
    assert!(words[..2 * block].iter().any(|word| *word != 7));
    let list = key.as_lwe_ciphertext_list();
    let small_key = LweSecretKey::from_container(small);
    for k in 0..2 {
        let plaintexts = decomposition_plaintexts(large[3 + k], 2, 1);
        for (index, plain) in plaintexts.iter().enumerate() {
            let ciphertext = LweCiphertext::from_container(
                list[k * 4 + index].clone(),
                CiphertextModulus::new_native(),
            );
            let decrypted = decrypt_lwe_ciphertext(&small_key, &ciphertext).0;
            assert!(distance(decrypted, *plain) < 1 << 20);
        }
    }
}
