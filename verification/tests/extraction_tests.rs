use fhe_processor::operations::manager::decode_chunk;
use fhe_processor::operations::operand::ArithmeticOp;
use fhe_processor::operations::operation::{
    extract_group, horizontal_vertical_packing_without_extract, OperandType, Operation,
};
use fhe_processor::opmized_operations::compare::{encode_vec_nibbles, write_truth_value};
use fhe_processor::opmized_operations::sign::write_sign_chunks;
use fhe_processor::primitives::SelectorBits;
use tfhe::core_crypto::fft_impl::fft64::c64;
use tfhe::core_crypto::prelude::{
    allocate_and_generate_new_binary_glwe_secret_key, convert_standard_ggsw_ciphertext_to_fourier,
    decrypt_lwe_ciphertext, encrypt_constant_ggsw_ciphertext, ActivatedRandomGenerator,
    CiphertextModulus, DecompositionBaseLog, DecompositionLevelCount, EncryptionRandomGenerator,
    Fft, FourierGgswCiphertextList, GgswCiphertext, GlweDimension, GlweSecretKeyOwned,
    LweCiphertext, Plaintext, PolynomialSize, SecretRandomGenerator, StandardDev,
};
use tfhe::core_crypto::seeders::new_seeder;

const POLY: usize = 512;
const GLWE_DIM: usize = 2;
const BASE_LOG: usize = 16;
const LEVELS: usize = 1;

struct Table {
    key: GlweSecretKeyOwned<u64>,
    generator: EncryptionRandomGenerator<ActivatedRandomGenerator>,
    fft: Fft,
}

fn table() -> Table {
    let mut boxed_seeder = new_seeder();
    let seeder = boxed_seeder.as_mut();
    let mut secret_generator = SecretRandomGenerator::<ActivatedRandomGenerator>::new(seeder.seed());
    let generator = EncryptionRandomGenerator::<ActivatedRandomGenerator>::new(seeder.seed(), seeder);
    let key = allocate_and_generate_new_binary_glwe_secret_key(
        GlweDimension(GLWE_DIM),
        PolynomialSize(POLY),
        &mut secret_generator,
    );
    Table { key, generator, fft: Fft::new(PolynomialSize(POLY)) }
}

fn encrypt_bits(table: &mut Table, bits: &[usize]) -> SelectorBits {
    let glwe_size = GlweDimension(GLWE_DIM).to_glwe_size();
    let count = bits.len();
    let mut list = FourierGgswCiphertextList::new(
        vec![c64::default(); count * (POLY / 2) * glwe_size.0 * glwe_size.0 * LEVELS],
        count,
        glwe_size,
        PolynomialSize(POLY),
        DecompositionBaseLog(BASE_LOG),
        DecompositionLevelCount(LEVELS),
    );
    for (bit, mut fourier) in bits.iter().zip(list.as_mut_view().into_ggsw_iter()) {
        let mut ggsw = GgswCiphertext::new(
            0u64,
            glwe_size,
            PolynomialSize(POLY),
            DecompositionBaseLog(BASE_LOG),
            DecompositionLevelCount(LEVELS),
            CiphertextModulus::new_native(),
        );
        encrypt_constant_ggsw_ciphertext(
            &table.key,
            &mut ggsw,
            Plaintext(*bit as u64),
            StandardDev(0.00000000000000029403601535432533),
            &mut table.generator,
        );
        convert_standard_ggsw_ciphertext_to_fourier(&ggsw, &mut fourier);
    }
    SelectorBits { list }
}

/// The sample of coefficient `nth`: every mask polynomial read backwards from
/// that coefficient, with the sign changed beyond coefficient zero, and the
/// coefficient of the body.
fn sample(glwe: &[u64], n: usize, nth: usize) -> Vec<u64> {
    let mask_len = glwe.len() - n;
    let mut out = vec![0u64; mask_len + 1];
    for p in 0..mask_len / n {
        for j in 0..n {
            out[p * n + j] = if j <= nth {
                glwe[p * n + nth - j]
            } else {
                glwe[p * n + n + nth - j].wrapping_neg()
            };
        }
    }
    out[mask_len] = glwe[mask_len + nth];
    out
}

fn read(table: &Table, lwe: &Vec<u64>) -> u64 {
    let key = table.key.as_lwe_secret_key();
    let ciphertext = LweCiphertext::from_container(lwe.as_slice(), CiphertextModulus::new_native());
    decode_chunk(decrypt_lwe_ciphertext(&key, &ciphertext).0, 4)
}

#[test]
fn every_output_is_the_sample_at_the_offset_of_its_table() {
    let mut table = table();
    let operation = Operation::new(
        ArithmeticOp::Add,
        OperandType::CipherPlain,
        8,
        4,
        POLY,
        1 << 60,
        Some(0x5a),
    );
    assert_eq!(operation.cipher_lut.len(), 1);
    assert_eq!(operation.lut_pack_size, 2);
    for a in [0usize, 1, 0x3c, 0xa6, 0xff] {
        let bits = encrypt_bits(&mut table, &encode_vec_nibbles(a, 8));
        let mut outs = vec![vec![0u64; GLWE_DIM * POLY + 1]; 2];
        assert!(operation.can_lookup(&bits, &table.fft, &outs));
        operation.vertical_packing_multi_lookup(&mut outs, &bits, &table.fft);
        let found =
            horizontal_vertical_packing_without_extract(&operation.cipher_lut[0], &bits, &table.fft);
        assert!(found[..GLWE_DIM * POLY].iter().any(|word| *word != 0));
        assert_eq!(outs[0], sample(&found, POLY, 0));
        assert_eq!(outs[1], sample(&found, POLY, 256));
        let sum = (a + 0x5a) % 256;
        assert_eq!(read(&table, &outs[0]), (sum >> 4) as u64);
        assert_eq!(read(&table, &outs[1]), (sum & 15) as u64);
    }
}

#[test]
fn tables_that_fill_a_polynomial_are_sampled_at_the_constant_term() {
    let mut table = table();
    let operation = Operation::new(
        ArithmeticOp::XOR,
        OperandType::BothCipher,
        8,
        4,
        POLY,
        1 << 60,
        None,
    );
    assert_eq!(operation.cipher_lut.len(), 2);
    let (a, b) = (0xc5usize, 0x3e);
    let mut digits = encode_vec_nibbles(a, 8);
    digits.extend(encode_vec_nibbles(b, 8));
    let bits = encrypt_bits(&mut table, &digits);
    let mut outs = vec![vec![0u64; GLWE_DIM * POLY + 1]; 2];
    assert!(operation.can_lookup(&bits, &table.fft, &outs));
    operation.vertical_packing_multi_lookup(&mut outs, &bits, &table.fft);
    for (g, lut) in operation.cipher_lut.iter().enumerate() {
        let found = horizontal_vertical_packing_without_extract(lut, &bits, &table.fft);
        assert_eq!(outs[g], sample(&found, POLY, 0));
    }
    assert_eq!(read(&table, &outs[0]), ((a ^ b) >> 4) as u64);
    assert_eq!(read(&table, &outs[1]), ((a ^ b) & 15) as u64);
}

/// A ciphertext of three polynomials of eight coefficients with words that
/// are all different.
fn marked() -> Vec<u64> {
    (0..24u64).map(|i| 1000 + 37 * i).collect()
}

#[test]
fn a_sample_reads_the_mask_backwards_from_its_coefficient() {
    let glwe = marked();
    let mut outs = vec![vec![9u64; 17]; 1];
    write_truth_value(&glwe, 8, &mut outs);
    let w = |i: usize| glwe[i];
    let n = |i: usize| glwe[i].wrapping_neg();
    assert_eq!(
        outs[0],
        vec![
            w(0), n(7), n(6), n(5), n(4), n(3), n(2), n(1),
            w(8), n(15), n(14), n(13), n(12), n(11), n(10), n(9),
            w(16)
        ]
    );
    let mut outs = vec![vec![9u64; 17]; 3];
    write_sign_chunks(&glwe, 8, &mut outs);
    assert_eq!(
        outs[0],
        vec![
            w(2), w(1), w(0), n(7), n(6), n(5), n(4), n(3),
            w(10), w(9), w(8), n(15), n(14), n(13), n(12), n(11),
            w(18)
        ]
    );
    assert_eq!(outs[1], sample(&glwe, 8, 1));
    assert_eq!(outs[2], sample(&glwe, 8, 0));
}

#[test]
fn the_truth_value_goes_to_the_last_output() {
    let glwe = marked();
    let mut outs = vec![vec![5u64; 3], vec![6u64; 40], vec![7u64; 17]];
    write_truth_value(&glwe, 8, &mut outs);
    assert_eq!(outs[0], vec![0u64; 3]);
    assert_eq!(outs[1], vec![0u64; 40]);
    assert_eq!(outs[2], sample(&glwe, 8, 0));
}

#[test]
fn the_sign_is_read_once_for_every_output() {
    let glwe = marked();
    let mut outs = vec![vec![0u64; 17]; 8];
    write_sign_chunks(&glwe, 8, &mut outs);
    for (i, out) in outs.iter().enumerate() {
        assert_eq!(out, &sample(&glwe, 8, 7 - i));
    }
    let mut none: Vec<Vec<u64>> = Vec::new();
    write_sign_chunks(&glwe, 8, &mut none);
    assert!(none.is_empty());
}

#[test]
fn a_group_is_extracted_at_the_offsets_of_its_tables() {
    let glwe = marked();
    let blank = vec![vec![1u64; 17]; 5];
    let mut outs = blank.clone();
    extract_group(&glwe, 8, 2, 2, 4, &mut outs);
    assert_eq!(outs[0], blank[0]);
    assert_eq!(outs[1], blank[1]);
    assert_eq!(outs[2], sample(&glwe, 8, 0));
    assert_eq!(outs[3], sample(&glwe, 8, 4));
    assert_eq!(outs[4], blank[4]);
    let mut outs = blank.clone();
    extract_group(&glwe, 8, 4, 4, 2, &mut outs);
    assert_eq!(outs[..4], blank[..4]);
    assert_eq!(outs[4], sample(&glwe, 8, 0));
    let mut outs = blank.clone();
    extract_group(&glwe, 8, 0, 1, 1000, &mut outs);
    assert_eq!(outs[0], sample(&glwe, 8, 0));
    assert_eq!(outs[1..], blank[1..]);
    let mut outs = blank.clone();
    extract_group(&glwe, 8, 7, 3, 2, &mut outs);
    assert_eq!(outs, blank);
}
