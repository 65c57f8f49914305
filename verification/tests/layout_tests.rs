use fhe_processor::operations::manager::{
    decode_chunk, encode_chunk, recombine_chunks, split_bits_high_to_low, Step,
};

#[test]
fn a_word_is_cut_from_the_top() {
    assert_eq!(split_bits_high_to_low(0xabcd, 16, 4), vec![0xa, 0xb, 0xc, 0xd]);
    assert_eq!(split_bits_high_to_low(0xabcd, 8, 4), vec![0xc, 0xd]);
    assert_eq!(split_bits_high_to_low(0b10_1101, 6, 4), vec![0b10, 0b1101]);
    assert_eq!(split_bits_high_to_low(0b110, 3, 1), vec![1, 1, 0]);
    assert_eq!(split_bits_high_to_low(5, 8, 8), vec![5]);
    assert_eq!(split_bits_high_to_low(usize::MAX, 64, 16), vec![0xffff; 4]);
}

#[test]
fn chunks_are_put_together_from_the_top() {
    assert_eq!(recombine_chunks(&[0xa, 0xb, 0xc, 0xd], 4), 0xabcd);
    assert_eq!(recombine_chunks(&[0b10, 0b1101], 4), 0b10_1101);
    assert_eq!(recombine_chunks(&[], 4), 0);
    assert_eq!(recombine_chunks(&[1, 1, 0], 1), 6);
}

#[test]
fn split_and_recombine_round_trip() {
    let mut value: usize = 0x0123_4567_89ab_cdef;
    for _ in 0..500 {
        value = value.wrapping_mul(6364136223846793005).wrapping_add(1442695040888963407);
        for chunk in [1usize, 2, 4] {
            for width in [8usize, 16, 32] {
                let chunks = split_bits_high_to_low(value, width, chunk);
                assert_eq!(chunks.len(), width / chunk);
                assert!(chunks.iter().all(|c| *c < (1 << chunk)));
                assert_eq!(recombine_chunks(&chunks, chunk), value & ((1 << width) - 1));
            }
        }
        let chunks = split_bits_high_to_low(value, 10, 4);
        assert_eq!(chunks.len(), 3);
        assert_eq!(recombine_chunks(&chunks, 4), value & 0x3ff);
    }
}

#[test]
fn a_chunk_is_scaled_into_the_top_of_its_plaintext() {
    assert_eq!(encode_chunk(1, 4), 1 << 60);
    assert_eq!(encode_chunk(15, 4), 15 << 60);
    assert_eq!(encode_chunk(0, 4), 0);
    assert_eq!(encode_chunk(3, 2), 3 << 62);
    assert_eq!(encode_chunk(5, 64), 5);
}

#[test]
fn a_plaintext_is_rounded_to_the_nearest_chunk() {
    assert_eq!(decode_chunk(1 << 60, 4), 1);
    assert_eq!(decode_chunk((1 << 60) + (1 << 59) - 1, 4), 1);
    assert_eq!(decode_chunk((1 << 60) + (1 << 59), 4), 2);
    assert_eq!(decode_chunk((1 << 60) - (1 << 59), 4), 1);
    assert_eq!(decode_chunk((1 << 60) - (1 << 59) - 1, 4), 0);
    assert_eq!(decode_chunk(u64::MAX, 4), 0);
    assert_eq!(decode_chunk((15 << 60) + (1 << 59), 4), 0);
    assert_eq!(decode_chunk(3 << 62, 2), 3);
    for chunk in 0u64..16 {
        for noise in [0i64, 1, -1, (1 << 59) - 1, -(1 << 59)] {
            let plain = encode_chunk(chunk, 4).wrapping_add(noise as u64);
            assert_eq!(decode_chunk(plain, 4), chunk);
        }
    }
}

#[test]
fn a_step_keeps_what_it_is_given() {
    let step = Step::new(2, vec![0, 1], 5);
    assert_eq!(step.op_index, 2);
    assert_eq!(step.input_indices, vec![0, 1]);
    assert_eq!(step.output_index, 5);
}
