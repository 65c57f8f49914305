use fhe_processor::operations::manager::decode_chunk;
use fhe_processor::operations::mask_chunk::masking_chunk_msb;
use fhe_processor::operations::operand::ArithmeticOp;
use fhe_processor::operations::operation::OperandType;
use fhe_processor::opmized_operations::compare::{
    can_run_tree, encode_vec_nibbles, opmized_compare_bothcipher, opmized_compare_cipherplain,
    opmized_compare_plaincipher,
};
use fhe_processor::primitives::SelectorBits;
use tfhe::core_crypto::fft_impl::fft64::c64;
use tfhe::core_crypto::prelude::{
    allocate_and_generate_new_binary_glwe_secret_key, convert_standard_ggsw_ciphertext_to_fourier,
    decrypt_lwe_ciphertext, encrypt_constant_ggsw_ciphertext, ActivatedRandomGenerator,
    CiphertextModulus, DecompositionBaseLog, DecompositionLevelCount, EncryptionRandomGenerator,
    Fft, FourierGgswCiphertextList, GgswCiphertext, GlweDimension, GlweSecretKeyOwned,
    LweCiphertext, Plaintext, PolynomialSize, SecretRandomGenerator, StandardDev,
};
use tfhe::core_crypto::seeders::new_seeder;

const POLY: usize = 256;
const GLWE_DIM: usize = 1;
const BASE_LOG: usize = 8;
const LEVELS: usize = 3;

struct Bench {
    key: GlweSecretKeyOwned<u64>,
    generator: EncryptionRandomGenerator<ActivatedRandomGenerator>,
    fft: Fft,
}

fn bench() -> Bench {
    let mut boxed_seeder = new_seeder();
    let seeder = boxed_seeder.as_mut();
    let mut secret_generator = SecretRandomGenerator::<ActivatedRandomGenerator>::new(seeder.seed());
    let generator = EncryptionRandomGenerator::<ActivatedRandomGenerator>::new(seeder.seed(), seeder);
    let key = allocate_and_generate_new_binary_glwe_secret_key(
        GlweDimension(GLWE_DIM),
        PolynomialSize(POLY),
        &mut secret_generator,
    );
    Bench { key, generator, fft: Fft::new(PolynomialSize(POLY)) }
}

/// Encrypts the given selector bits, most significant first, as bootstrapping
/// would deliver them.
fn encrypt_selectors(bench: &mut Bench, bits: &[usize]) -> SelectorBits {
    let glwe_size = GlweDimension(GLWE_DIM).to_glwe_size();
    let count = bits.len();
    let mut list = FourierGgswCiphertextList::new(
        vec![c64::default(); count * (POLY / 2) * glwe_size.0 * glwe_size.0 * LEVELS],
        count,
        glwe_size,
        PolynomialSize(POLY),
        DecompositionBaseLog(BASE_LOG),
        DecompositionLevelCount(LEVELS),
    );
    for (bit, mut fourier) in bits.iter().zip(list.as_mut_view().into_ggsw_iter()) {
        let mut ggsw = GgswCiphertext::new(
            0u64,
            glwe_size,
            PolynomialSize(POLY),
            DecompositionBaseLog(BASE_LOG),
            DecompositionLevelCount(LEVELS),
            CiphertextModulus::new_native(),
        );
        encrypt_constant_ggsw_ciphertext(
            &bench.key,
            &mut ggsw,
            Plaintext(*bit as u64),
            StandardDev(0.00000000000000029403601535432533),
            &mut bench.generator,
        );
        convert_standard_ggsw_ciphertext_to_fourier(&ggsw, &mut fourier);
    }
    SelectorBits { list }
}

fn decrypt_word(bench: &Bench, chunks: &Vec<Vec<u64>>) -> usize {
    let key = bench.key.as_lwe_secret_key();
    let mut word = 0usize;
    for chunk in chunks {
        let lwe = LweCiphertext::from_container(chunk.as_slice(), CiphertextModulus::new_native());
        let plain = decrypt_lwe_ciphertext(&key, &lwe);
        word = (word << 4) | decode_chunk(plain.0, 4) as usize;
    }
    word
}

fn blank_outputs(width: usize) -> Vec<Vec<u64>> {
    vec![vec![0u64; GLWE_DIM * POLY + 1]; width / 4]
}

#[test]
fn compare_both_encrypted_sixteen_bits() {
    let mut bench = bench();
    let pairs: [(usize, usize); 6] =
        [(5, 3), (3, 5), (1234, 1234), (0xffff, 0), (0x8000, 0x7fff), (0x1230, 0x1231)];
    for (a, b) in pairs {
        let mut bits = encode_vec_nibbles(a, 16);
        bits.extend(encode_vec_nibbles(b, 16));
        let selectors = encrypt_selectors(&mut bench, &bits);
        for (op, expected) in [
            (ArithmeticOp::GT, a > b),
            (ArithmeticOp::GTE, a >= b),
            (ArithmeticOp::LT, a < b),
            (ArithmeticOp::LTE, a <= b),
            (ArithmeticOp::EQ, a == b),
        ] {
            let mut outs = blank_outputs(16);
            assert!(can_run_tree(OperandType::BothCipher, &selectors, &bench.fft, &outs));
            opmized_compare_bothcipher(&selectors, &mut outs, op, &bench.fft);
            assert_eq!(decrypt_word(&bench, &outs), expected as usize);
        }
    }
}

#[test]
fn compare_with_constant_sixteen_bits() {
    let mut bench = bench();
    let constant = 32718usize;
    for a in [0usize, 32717, 32718, 32719, 65535] {
        let selectors = encrypt_selectors(&mut bench, &encode_vec_nibbles(a, 16));
        let mut outs = blank_outputs(16);
        assert!(can_run_tree(OperandType::CipherPlain, &selectors, &bench.fft, &outs));
        opmized_compare_cipherplain(&selectors, &mut outs, ArithmeticOp::GT, constant, &bench.fft);
        assert_eq!(decrypt_word(&bench, &outs), (a > constant) as usize);
        let mut outs = blank_outputs(16);
        opmized_compare_plaincipher(&selectors, &mut outs, ArithmeticOp::GT, constant, &bench.fft);
        assert_eq!(decrypt_word(&bench, &outs), (constant > a) as usize);
    }
}

#[test]
fn selector_bits_of_a_plain_word_are_its_masked_digits() {
    let word = 0b1101_1001usize;
    let masked = masking_chunk_msb(word, 4, 8);
    let bits = encode_vec_nibbles(word, 8);
    assert_eq!(bits.len(), 8);
    for (i, bit) in bits.iter().enumerate() {
        assert_eq!(*bit, (masked >> (7 - i)) & 1);
    }
    assert_eq!(bits, vec![1, 0, 0, 1, 1, 1, 1, 0]);
}
