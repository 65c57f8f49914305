use fhe_processor::operations::mask_chunk::{masking_chunk_msb, masking_chunk_msb_decode};
use fhe_processor::operations::operand::ArithmeticOp;
use fhe_processor::operations::plain_lut::{
    adjust_lut_with_masking, adjust_lut_with_masking_decode, build_split_lut_tables,
    build_split_lut_tables_cipher_plain, build_split_lut_tables_plain_cipher,
    get_plain_cipher_cipher, get_plain_lut_cipher_plain, get_plain_lut_plain_cipher,
    split_adjusted_lut_by_chunk,
};

const OPS: [ArithmeticOp; 8] = [
    ArithmeticOp::Add,
    ArithmeticOp::Sub,
    ArithmeticOp::Mul,
    ArithmeticOp::Div,
    ArithmeticOp::GT,
    ArithmeticOp::MAX,
    ArithmeticOp::SL,
    ArithmeticOp::XOR,
];

#[test]
fn the_table_of_two_operands_has_the_first_operand_on_top() {
    let table = get_plain_cipher_cipher(8, &ArithmeticOp::Sub);
    assert_eq!(table.len(), 1 << 16);
    assert_eq!(table[250 * 256 + 255], 251);
    assert_eq!(table[255 * 256 + 250], 5);
    assert_eq!(table[0], 0);
    for a in (0usize..256).step_by(7) {
        for b in (0usize..256).step_by(11) {
            assert_eq!(table[a * 256 + b], (a as u8).wrapping_sub(b as u8) as usize);
        }
    }
}

#[test]
fn the_table_of_one_operand_holds_the_constant() {
    let table = get_plain_lut_cipher_plain(8, 5, &ArithmeticOp::Div);
    assert_eq!(table.len(), 256);
    assert_eq!(table[20], 4);
    assert_eq!(table[4], 0);
    let table = get_plain_lut_plain_cipher(8, 200, &ArithmeticOp::Div);
    assert_eq!(table.len(), 256);
    assert_eq!(table[7], 28);
    assert_eq!(table[0], 0);
    let table = get_plain_lut_cipher_plain(16, 0x1_0003, &ArithmeticOp::Add);
    assert_eq!(table.len(), 1 << 16);
    assert_eq!(table[0xffff], 2);
}

#[test]
fn adjusting_reads_the_table_through_the_transform() {
    let plain: Vec<usize> = (0..256).map(|i| i * 3).collect();
    let decoded = adjust_lut_with_masking_decode(&plain, &[4, 4], 4);
    let encoded = adjust_lut_with_masking(&plain, &[4, 4], 4);
    assert_eq!(decoded.len(), 256);
    assert_eq!(encoded.len(), 256);
    for i in 0usize..256 {
        let (low, high) = (i & 15, i >> 4);
        let unmasked = masking_chunk_msb_decode(low, 4, 4) | (masking_chunk_msb_decode(high, 4, 4) << 4);
        let masked = masking_chunk_msb(low, 4, 4) | (masking_chunk_msb(high, 4, 4) << 4);
        assert_eq!(decoded[i], plain[unmasked]);
        assert_eq!(encoded[i], plain[masked]);
        assert_eq!(decoded[masked], plain[i]);
    }
    assert_eq!(decoded[0b1001_1110], 0b1101_1001 * 3);
}

#[test]
fn adjusting_with_blocks_of_unequal_width() {
    let plain: Vec<usize> = (0..64).collect();
    let decoded = adjust_lut_with_masking_decode(&plain, &[2, 4], 2);
    assert_eq!(decoded.len(), 64);
    for i in 0usize..64 {
        let (low, high) = (i & 3, i >> 2);
        let unmasked = masking_chunk_msb_decode(low, 2, 2) | (masking_chunk_msb_decode(high, 2, 4) << 2);
        assert_eq!(decoded[i], unmasked);
    }
    assert_eq!(adjust_lut_with_masking_decode(&[9], &[], 0), vec![9]);
}

#[test]
fn splitting_puts_the_most_significant_chunk_first() {
    let tables = split_adjusted_lut_by_chunk(&[0xab, 0x01, 0xf0], 8, 4);
    assert_eq!(tables, vec![vec![0xa, 0x0, 0xf], vec![0xb, 0x1, 0x0]]);
    let tables = split_adjusted_lut_by_chunk(&[0b1110_0100], 8, 2);
    assert_eq!(tables, vec![vec![3], vec![2], vec![1], vec![0]]);
    let tables = split_adjusted_lut_by_chunk(&[0b1110_0100], 8, 8);
    assert_eq!(tables, vec![vec![0b1110_0100]]);
    assert_eq!(split_adjusted_lut_by_chunk(&[1, 2], 0, 4), Vec::<Vec<usize>>::new());
}

#[test]
fn compiled_tables_answer_for_every_pair_of_bytes() {
    for op in OPS {
        for chunk in [2usize, 4] {
            let tables = build_split_lut_tables(8, vec![8, 8], chunk, &op);
            assert_eq!(tables.len(), 8 / chunk);
            for a in 0usize..256 {
                for b in (0usize..256).step_by(5) {
                    let index = (masking_chunk_msb(a, chunk, 8) << 8) | masking_chunk_msb(b, chunk, 8);
                    let mut value = 0;
                    for table in tables.iter() {
                        assert_eq!(table.len(), 1 << 16);
                        value = (value << chunk) | table[index];
                    }
                    assert_eq!(value as u64, op.compute(a as u64, b as u64, 8));
                }
            }
        }
    }
}

#[test]
fn compiled_tables_answer_with_a_constant() {
    for op in OPS {
        let after = build_split_lut_tables_cipher_plain(8, 37, vec![8], 4, &op);
        let before = build_split_lut_tables_plain_cipher(8, 37, vec![8], 4, &op);
        for a in 0usize..256 {
            let index = masking_chunk_msb(a, 4, 8);
            let value = (after[0][index] << 4) | after[1][index];
            assert_eq!(value as u64, op.compute(a as u64, 37, 8));
            let value = (before[0][index] << 4) | before[1][index];
            assert_eq!(value as u64, op.compute(37, a as u64, 8));
        }
    }
}

#[test]
fn every_entry_stands_at_the_masked_form_of_its_index() {
    let plain: Vec<usize> = (0..1usize << 11).map(|x| x * 3 + 1).collect();
    let widths = [4usize, 3, 4];
    let adjusted = adjust_lut_with_masking_decode(&plain, &widths, 2);
    let masked = adjust_lut_with_masking(&plain, &widths, 2);
    assert_eq!(adjusted.len(), 1 << 11);
    let mut seen = vec![false; 1 << 11];
    for x in 0..1usize << 11 {
        let (low, mid, top) = (x & 15, (x >> 4) & 7, x >> 7);
        let enc = masking_chunk_msb(low, 2, 4)
            | masking_chunk_msb(mid, 2, 3) << 4
            | masking_chunk_msb(top, 2, 4) << 7;
        assert_eq!(adjusted[enc], plain[x]);
        let dec = masking_chunk_msb_decode(low, 2, 4)
            | masking_chunk_msb_decode(mid, 2, 3) << 4
            | masking_chunk_msb_decode(top, 2, 4) << 7;
        assert_eq!(masked[dec], plain[x]);
        assert!(!seen[enc]);
        seen[enc] = true;
    }
}

#[test]
fn the_chunks_at_the_index_of_two_operands_make_the_result() {
    for (chunk, op) in [(4usize, ArithmeticOp::Sub), (2, ArithmeticOp::Mul), (1, ArithmeticOp::Add)] {
        let tables = build_split_lut_tables(8, vec![8, 8], chunk, &op);
        assert_eq!(tables.len(), 8 / chunk);
        for (a, b) in [(250usize, 255usize), (5, 3), (0, 0), (255, 255), (17, 200)] {
            let index = masking_chunk_msb(a, chunk, 8) << 8 | masking_chunk_msb(b, chunk, 8);
            let mut word = 0usize;
            for table in tables.iter() {
                assert_eq!(table.len(), 1 << 16);
                word = (word << chunk) | table[index];
            }
            assert_eq!(word as u64, op.compute(a as u64, b as u64, 8));
        }
    }
    let tables = build_split_lut_tables(8, vec![8, 8], 4, &ArithmeticOp::Sub);
    let index = masking_chunk_msb(250, 4, 8) << 8 | masking_chunk_msb(255, 4, 8);
    assert_eq!((tables[0][index], tables[1][index]), (15, 11));
}
