use fhe_processor::operations::cipher_lut::{
    tfhe_vertical_packing_lookup, tfhe_vertical_packing_multi_lookup,
};
use fhe_processor::operations::manager::{
    check_selectors_alike, concat_ggsw_lists, count_selectors, decode_chunk,
};
use fhe_processor::operations::operand::ArithmeticOp;
use fhe_processor::operations::operation::{can_pack, horizontal_vertical_packing_without_extract};
use fhe_processor::opmized_operations::compare::{
    can_compare, encode_vec_nibbles, opmized_compare,
};
use fhe_processor::primitives::SelectorBits;
use tfhe::core_crypto::fft_impl::fft64::c64;
use tfhe::core_crypto::prelude::{
    allocate_and_generate_new_binary_glwe_secret_key, convert_standard_ggsw_ciphertext_to_fourier,
    decrypt_glwe_ciphertext, decrypt_lwe_ciphertext, encrypt_constant_ggsw_ciphertext,
    ActivatedRandomGenerator, CiphertextModulus, DecompositionBaseLog, DecompositionLevelCount,
    EncryptionRandomGenerator, Fft, FourierGgswCiphertextList, GgswCiphertext, GlweCiphertext,
    GlweDimension, GlweSecretKeyOwned, LweCiphertext, Plaintext, PlaintextCount, PlaintextList,
    PolynomialSize, SecretRandomGenerator, StandardDev,
};
use tfhe::core_crypto::seeders::new_seeder;

const POLY: usize = 64;
const GLWE_DIM: usize = 1;
const BASE_LOG: usize = 16;
const LEVELS: usize = 1;

struct Desk {
    key: GlweSecretKeyOwned<u64>,
    generator: EncryptionRandomGenerator<ActivatedRandomGenerator>,
    fft: Fft,
}

fn desk() -> Desk {
    let mut boxed_seeder = new_seeder();
    let seeder = boxed_seeder.as_mut();
    let mut secret_generator = SecretRandomGenerator::<ActivatedRandomGenerator>::new(seeder.seed());
    let generator = EncryptionRandomGenerator::<ActivatedRandomGenerator>::new(seeder.seed(), seeder);
    let key = allocate_and_generate_new_binary_glwe_secret_key(
        GlweDimension(GLWE_DIM),
        PolynomialSize(POLY),
        &mut secret_generator,
    );
    Desk { key, generator, fft: Fft::new(PolynomialSize(POLY)) }
}

fn encrypt_bits(desk: &mut Desk, bits: &[usize]) -> SelectorBits {
    let glwe_size = GlweDimension(GLWE_DIM).to_glwe_size();
    let count = bits.len();
    let mut list = FourierGgswCiphertextList::new(
        vec![c64::default(); count * (POLY / 2) * glwe_size.0 * glwe_size.0 * LEVELS],
        count,
        glwe_size,
        PolynomialSize(POLY),
        DecompositionBaseLog(BASE_LOG),
        DecompositionLevelCount(LEVELS),
    );
    for (bit, mut fourier) in bits.iter().zip(list.as_mut_view().into_ggsw_iter()) {
        let mut ggsw = GgswCiphertext::new(
            0u64,
            glwe_size,
            PolynomialSize(POLY),
            DecompositionBaseLog(BASE_LOG),
            DecompositionLevelCount(LEVELS),
            CiphertextModulus::new_native(),
        );
        encrypt_constant_ggsw_ciphertext(
            &desk.key,
            &mut ggsw,
            Plaintext(*bit as u64),
            StandardDev(0.00000000000000029403601535432533),
            &mut desk.generator,
        );
        convert_standard_ggsw_ciphertext_to_fourier(&ggsw, &mut fourier);
    }
    SelectorBits { list }
}

/// The digits of `index`, the most significant of `width` first.
fn digits(index: usize, width: usize) -> Vec<usize> {
    (0..width).map(|i| (index >> (width - 1 - i)) & 1).collect()
}

fn read(desk: &Desk, lwe: &Vec<u64>) -> u64 {
    let key = desk.key.as_lwe_secret_key();
    let ciphertext = LweCiphertext::from_container(lwe.as_slice(), CiphertextModulus::new_native());
    decode_chunk(decrypt_lwe_ciphertext(&key, &ciphertext).0, 4)
}

fn entry(table: usize, index: usize) -> u64 {
    ((index * 7 + 3 * table + 1) % 16) as u64
}

/// A table of `polynomials * POLY` entries, scaled into the top four digits.
fn table(which: usize, polynomials: usize) -> Vec<u64> {
    (0..polynomials * POLY).map(|index| entry(which, index) << 60).collect()
}

#[test]
fn a_packed_lookup_reads_the_addressed_entry() {
    let mut desk = desk();
    let lut = table(0, 4);
    for index in [0usize, 1, 63, 64, 65, 127, 128, 200, 255] {
        let bits = encrypt_bits(&mut desk, &digits(index, 8));
        assert!(can_pack(lut.len(), &bits, &desk.fft));
        let mut lwe = Vec::new();
        tfhe_vertical_packing_lookup(&lut, &mut lwe, &bits, &desk.fft, 8);
        assert_eq!(lwe.len(), GLWE_DIM * POLY + 1);
        assert_eq!(read(&desk, &lwe), entry(0, index));
    }
}

#[test]
fn a_packed_lookup_in_several_tables() {
    let mut desk = desk();
    let luts = vec![table(0, 2), table(1, 2), table(2, 2)];
    for index in [0usize, 77, 127] {
        let bits = encrypt_bits(&mut desk, &digits(index, 7));
        let mut outs = vec![Vec::new(); 3];
        tfhe_vertical_packing_multi_lookup(&luts, &mut outs, &bits, &desk.fft, 7);
        for (which, lwe) in outs.iter().enumerate() {
            assert_eq!(read(&desk, lwe), entry(which, index));
        }
    }
}

#[test]
fn a_lookup_without_extraction_leaves_the_entry_at_the_constant_term() {
    let mut desk = desk();
    let lut = table(1, 2);
    for index in [0usize, 5, 64, 100] {
        let bits = encrypt_bits(&mut desk, &digits(index, 7));
        let glwe = horizontal_vertical_packing_without_extract(&lut, &bits, &desk.fft);
        assert_eq!(glwe.len(), (GLWE_DIM + 1) * POLY);
        let ciphertext = GlweCiphertext::from_container(
            glwe.as_slice(),
            PolynomialSize(POLY),
            CiphertextModulus::new_native(),
        );
        let mut plain = PlaintextList::new(0u64, PlaintextCount(POLY));
        decrypt_glwe_ciphertext(&desk.key, &ciphertext, &mut plain);
        assert_eq!(decode_chunk(plain.into_container()[0], 4), entry(1, index));
    }
}

#[test]
fn a_table_is_packed_in_a_power_of_two_of_whole_polynomials() {
    let mut desk = desk();
    let bits = encrypt_bits(&mut desk, &digits(0, 7));
    assert!(can_pack(POLY, &bits, &desk.fft));
    assert!(can_pack(2 * POLY, &bits, &desk.fft));
    assert!(can_pack(128 * POLY, &bits, &desk.fft));
    assert!(!can_pack(256 * POLY, &bits, &desk.fft));
    assert!(!can_pack(3 * POLY, &bits, &desk.fft));
    assert!(!can_pack(POLY + 1, &bits, &desk.fft));
    assert!(!can_pack(POLY / 2, &bits, &desk.fft));
    assert!(!can_pack(0, &bits, &desk.fft));
    assert!(!can_pack(POLY, &bits, &Fft::new(PolynomialSize(2 * POLY))));
}

#[test]
fn lists_of_selector_bits_are_joined_in_order() {
    let mut desk = desk();
    let lists = vec![
        encrypt_bits(&mut desk, &[1, 0, 0, 1]),
        encrypt_bits(&mut desk, &[0, 1, 1, 0]),
        encrypt_bits(&mut desk, &[1, 1, 1, 1]),
        encrypt_bits(&mut desk, &[0, 0, 0, 0]),
    ];
    assert!(check_selectors_alike(&lists));
    assert_eq!(count_selectors(&lists, true), Some(16));
    assert_eq!(count_selectors(&lists, false), Some(8));
    let all = concat_ggsw_lists(&lists, true);
    assert_eq!(all.list.count(), 16);
    assert_eq!(all.list.polynomial_size(), PolynomialSize(POLY));
    let mut joined: Vec<c64> = Vec::new();
    for list in lists.iter() {
        joined.extend_from_slice(list.list.as_view().data());
    }
    assert!(all.list.as_view().data() == joined.as_slice());
    let half = concat_ggsw_lists(&lists, false);
    assert_eq!(half.list.count(), 8);
    assert!(half.list.as_view().data() == &joined[..joined.len() / 2]);
    // The joined bits address a table as the bits of one list would.
    let lut = table(2, 4);
    let mut lwe = Vec::new();
    tfhe_vertical_packing_lookup(&lut, &mut lwe, &half, &desk.fft, 8);
    assert_eq!(read(&desk, &lwe), entry(2, 0b1001_0110));
}

#[test]
fn lists_of_different_shapes_are_not_alike() {
    let mut desk = desk();
    let mut lists = vec![encrypt_bits(&mut desk, &[1, 0, 0, 1])];
    lists.push(SelectorBits {
        list: FourierGgswCiphertextList::new(
            vec![c64::default(); 4 * POLY * 4 * LEVELS],
            4,
            GlweDimension(GLWE_DIM).to_glwe_size(),
            PolynomialSize(2 * POLY),
            DecompositionBaseLog(BASE_LOG),
            DecompositionLevelCount(LEVELS),
        ),
    });
    assert!(!check_selectors_alike(&lists));
    assert!(check_selectors_alike(&Vec::new()));
}

#[test]
fn two_operands_with_a_list_each_are_compared() {
    let mut desk = desk();
    for (a, b) in [(5usize, 3usize), (3, 5), (0xbeef, 0xbeef), (0x8000, 0x7fff), (0, 0xffff)] {
        let input = vec![
            encrypt_bits(&mut desk, &encode_vec_nibbles(a, 16)),
            encrypt_bits(&mut desk, &encode_vec_nibbles(b, 16)),
        ];
        for (op, expected) in [
            (ArithmeticOp::GT, a > b),
            (ArithmeticOp::LTE, a <= b),
            (ArithmeticOp::EQ, a == b),
        ] {
            let mut outs = vec![vec![7u64; GLWE_DIM * POLY + 1]; 4];
            assert!(can_compare(&input, &desk.fft, &outs));
            opmized_compare(&input, &mut outs, op, &desk.fft);
            assert_eq!(outs.len(), 4);
            for chunk in &outs[..3] {
                assert_eq!(chunk, &vec![0u64; GLWE_DIM * POLY + 1]);
            }
            assert_eq!(read(&desk, &outs[3]), expected as u64);
        }
    }
}

#[test]
fn operands_are_compared_only_on_lists_of_one_shape() {
    let mut desk = desk();
    let outs = vec![vec![0u64; GLWE_DIM * POLY + 1]; 4];
    let first = encrypt_bits(&mut desk, &encode_vec_nibbles(1, 16));
    let second = encrypt_bits(&mut desk, &encode_vec_nibbles(2, 16));
    let short = encrypt_bits(&mut desk, &encode_vec_nibbles(2, 12));
    assert!(!can_compare(&vec![first], &desk.fft, &outs));
    let first = encrypt_bits(&mut desk, &encode_vec_nibbles(1, 16));
    assert!(!can_compare(&vec![first, short], &desk.fft, &outs));
    let first = encrypt_bits(&mut desk, &encode_vec_nibbles(1, 16));
    let pair = vec![first, second];
    assert!(can_compare(&pair, &desk.fft, &outs));
    assert!(!can_compare(&pair, &desk.fft, &Vec::new()));
    assert!(!can_compare(&pair, &desk.fft, &vec![vec![0u64; POLY]; 4]));
    assert!(!can_compare(&pair, &Fft::new(PolynomialSize(2 * POLY)), &outs));
}

fn blank_list(count: usize, poly: usize, base_log: usize, levels: usize) -> SelectorBits {
    let glwe_size = GlweDimension(GLWE_DIM).to_glwe_size();
    SelectorBits {
        list: FourierGgswCiphertextList::new(
            vec![c64::default(); count * (poly / 2) * glwe_size.0 * glwe_size.0 * levels],
            count,
            glwe_size,
            PolynomialSize(poly),
            DecompositionBaseLog(base_log),
            DecompositionLevelCount(levels),
        ),
    }
}

#[test]
fn a_decomposition_without_levels_or_digits_steers_nothing() {
    let fft = Fft::new(PolynomialSize(POLY));
    let outs = vec![vec![0u64; GLWE_DIM * POLY + 1]; 4];
    assert!(can_pack(POLY, &blank_list(7, POLY, 16, 1), &fft));
    assert!(!can_pack(POLY, &blank_list(7, POLY, 16, 0), &fft));
    assert!(!can_pack(POLY, &blank_list(7, POLY, 0, 1), &fft));
    assert!(!can_pack(POLY, &blank_list(7, POLY, 16, 4), &fft));
    let pair = |base_log: usize, levels: usize| {
        vec![blank_list(16, POLY, base_log, levels), blank_list(16, POLY, base_log, levels)]
    };
    assert!(can_compare(&pair(16, 1), &fft, &outs));
    assert!(!can_compare(&pair(16, 0), &fft, &outs));
    assert!(!can_compare(&pair(0, 3), &fft, &outs));
}

#[test]
fn polynomials_of_fewer_than_eight_coefficients_are_not_steered() {
    let fft = Fft::new(PolynomialSize(4));
    let bits = blank_list(7, 4, 16, 1);
    assert!(!can_pack(4, &bits, &fft));
    assert!(!can_pack(8, &bits, &fft));
    let outs = vec![vec![0u64; GLWE_DIM * 4 + 1]; 4];
    let pair = vec![blank_list(16, 4, 16, 1), blank_list(16, 4, 16, 1)];
    assert!(!can_compare(&pair, &fft, &outs));
    let fft = Fft::new(PolynomialSize(8));
    assert!(can_pack(8, &blank_list(7, 8, 16, 1), &fft));
}
