use fhe_processor::operations::mask_chunk::{
    masked_bit_extraction, masked_bit_extraction_decode, masking_chunk_msb,
    masking_chunk_msb_decode, usize_to_vec, vec_to_usize,
};

#[test]
fn test_masking_chunk_msb() {
    let input = 0b1101_1101_1001_1101;
    let chunk_size = 4;
    let total_bits = 16;
    let output = masking_chunk_msb(input, chunk_size, total_bits);
    println!("{:b}->{:b}", input, output);
}

#[test]
fn masking_gives_the_prefix_parities_of_each_chunk() {
    assert_eq!(masking_chunk_msb(0b1101_1001, 4, 8), 0b1001_1110);
    assert_eq!(masking_chunk_msb(0b1101_1101_1001_1101, 4, 16), 0b1001_1001_1110_1001);
    assert_eq!(masking_chunk_msb(0b10_11, 2, 4), 0b11_10);
    assert_eq!(masking_chunk_msb(0b1011, 1, 4), 0b1011);
    assert_eq!(masking_chunk_msb(0xff00, 4, 8), 0);
    assert_eq!(masking_chunk_msb(123, 4, 0), 0);
}

#[test]
fn unmasking_combines_neighbours() {
    assert_eq!(masking_chunk_msb_decode(0b1001_1110, 4, 8), 0b1101_1001);
    assert_eq!(masking_chunk_msb_decode(0b11_10, 2, 4), 0b10_11);
    assert_eq!(masking_chunk_msb_decode(0b1011, 1, 4), 0b1011);
}

#[test]
fn masking_round_trip_on_all_bytes() {
    for chunk in [1usize, 2, 4] {
        for value in 0usize..256 {
            let masked = masking_chunk_msb(value, chunk, 8);
            assert!(masked < 256);
            assert_eq!(masking_chunk_msb_decode(masked, chunk, 8), value);
            let plain = masking_chunk_msb_decode(value, chunk, 8);
            assert_eq!(masking_chunk_msb(plain, chunk, 8), value);
        }
    }
}

#[test]
fn masking_round_trip_on_wide_words() {
    let mut value: usize = 0x9e37_79b9;
    for _ in 0..2000 {
        value = value.wrapping_mul(6364136223846793005).wrapping_add(1442695040888963407);
        for chunk in [1usize, 2, 4] {
            for width in [8usize, 16, 32] {
                let word = value & ((1 << width) - 1);
                let masked = masking_chunk_msb(value, chunk, width);
                assert_eq!(masking_chunk_msb_decode(masked, chunk, width), word);
                let plain = masking_chunk_msb_decode(value, chunk, width);
                assert_eq!(masking_chunk_msb(plain, chunk, width), word);
            }
        }
    }
}

#[test]
fn masking_round_trip_with_a_short_last_chunk() {
    for value in 0usize..256 {
        let masked = masking_chunk_msb(value, 3, 8);
        assert_eq!(masking_chunk_msb_decode(masked, 3, 8), value);
    }
    assert_eq!(masking_chunk_msb(0b11_101_110, 3, 8), 0b10_110_100);
}

#[test]
fn one_chunk_is_masked_from_its_top_digit_down() {
    assert_eq!(masked_bit_extraction(0b1101, 4), vec![1, 0, 0, 1]);
    assert_eq!(masked_bit_extraction(0b1111_1101, 4), vec![1, 0, 0, 1]);
    assert_eq!(masked_bit_extraction(0b1, 1), vec![1]);
    assert_eq!(masked_bit_extraction(7, 0), Vec::<usize>::new());
}

#[test]
fn one_chunk_is_unmasked_by_its_neighbours() {
    assert_eq!(masked_bit_extraction_decode(&[1, 0, 0, 1]), vec![1, 0, 1, 1]);
    assert_eq!(masked_bit_extraction_decode(&[]), Vec::<usize>::new());
    assert_eq!(masked_bit_extraction_decode(&[1]), vec![1]);
    assert_eq!(masked_bit_extraction_decode(&[6, 3, 5]), vec![5, 6, 5]);
    for value in 0usize..16 {
        let masked = masked_bit_extraction(value, 4);
        assert_eq!(masked_bit_extraction_decode(&masked), usize_to_vec(value, 4));
    }
}

#[test]
fn digits_of_a_word_and_back() {
    assert_eq!(usize_to_vec(0b1011, 6), vec![1, 1, 0, 1, 0, 0]);
    assert_eq!(usize_to_vec(5, 0), Vec::<usize>::new());
    assert_eq!(usize_to_vec(usize::MAX, 3), vec![1, 1, 1]);
    assert_eq!(vec_to_usize(&[1, 1, 0, 1]), 11);
    assert_eq!(vec_to_usize(&[]), 0);
    assert_eq!(vec_to_usize(&[2, 1]), 2);
    assert_eq!(vec_to_usize(&[3, 1, 4]), 19);
    for value in [0usize, 1, 0xdead_beef, 0x1234_5678_9abc_def0] {
        assert_eq!(vec_to_usize(&usize_to_vec(value, 64)), value);
        assert_eq!(vec_to_usize(&usize_to_vec(value, 12)), value & 0xfff);
    }
}
