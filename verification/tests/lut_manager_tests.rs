use fhe_processor::operations::lut_manager::{
    decode_special_encoded_byte, encode_special_byte, ArithmeticLookupManager,
    ArithmeticLookupTables, ArithmeticOp,
};

fn test_arithmetic_operations() {
    let mut manager = ArithmeticLookupManager::new();

    manager.add_operations(&[
        ArithmeticOp::Add,
        ArithmeticOp::Sub,
        ArithmeticOp::Mul,
        ArithmeticOp::Div,
    ]);

    println!("已加载运算: {:?}", manager.get_loaded_operations());
    println!(
        "总内存使用: {} MB",
        manager.total_memory_usage() / 1024 / 1024
    );

    let test_cases = [(100u8, 50u8), (255, 1), (0, 128), (42, 123), (1, 7)];

    for (normal, encoded) in test_cases {
        let decoded = decode_special_encoded_byte(encoded);
        println!(
            "\n测试: normal={}, encoded={:08b}, decoded={}",
            normal, encoded, decoded
        );

        for op in [
            ArithmeticOp::Add,
            ArithmeticOp::Sub,
            ArithmeticOp::Mul,
            ArithmeticOp::Div,
        ] {
            let expected = op.compute(normal, decoded);
            let expected_low = (expected & 0xF) as u64;
            let expected_high = ((expected >> 4) & 0xF) as u64;

            if let Some((result_low, result_high)) = manager.lookup(op, normal, encoded) {
                let match_result = expected_low == result_low && expected_high == result_high;
                println!(
                    "  {}: {} -> 期望=({},{}) 结果=({},{}) 匹配={}",
                    op.name(),
                    expected,
                    expected_low,
                    expected_high,
                    result_low,
                    result_high,
                    match_result
                );
            }
        }
    }
}

#[test]
fn test_all_operations_correctness() {
    let mut manager = ArithmeticLookupManager::new();
    manager.add_operations(&[
        ArithmeticOp::Add,
        ArithmeticOp::Sub,
        ArithmeticOp::Mul,
        ArithmeticOp::Div,
    ]);

    for normal in (0u8..=255).step_by(17) {
        for encoded in (0u8..=255).step_by(19) {
            let decoded = decode_special_encoded_byte(encoded);

            for op in [
                ArithmeticOp::Add,
                ArithmeticOp::Sub,
                ArithmeticOp::Mul,
                ArithmeticOp::Div,
            ] {
                let expected = op.compute(normal, decoded);
                let expected_low = (expected & 0xF) as u64;
                let expected_high = ((expected >> 4) & 0xF) as u64;

                let (result_low, result_high) = manager.lookup(op, normal, encoded).unwrap();
                assert_eq!(
                    (expected_low, expected_high),
                    (result_low, result_high),
                    "{} 失败: normal={}, encoded={}, decoded={}",
                    op.name(),
                    normal,
                    encoded,
                    decoded
                );
            }
        }
    }
}

#[test]
fn test_manager_operations() {
    let mut manager = ArithmeticLookupManager::new();

    assert_eq!(manager.get_loaded_operations().len(), 0);

    manager.add_operation(ArithmeticOp::Add);
    assert_eq!(manager.get_loaded_operations().len(), 1);
    assert!(manager.get_table(ArithmeticOp::Add).is_some());

    manager.remove_operation(ArithmeticOp::Add);
    assert_eq!(manager.get_loaded_operations().len(), 0);
    assert!(manager.get_table(ArithmeticOp::Add).is_none());
}

#[test]
fn test_division_by_zero() {
    let tables = ArithmeticLookupTables::new(ArithmeticOp::Div);

    for normal in 0u8..=255 {
        for encoded in 0u8..=255 {
            let decoded = decode_special_encoded_byte(encoded);
            if decoded == 0 {
                let (low, high) = tables.lookup(normal, encoded);
                assert_eq!(low, 0);
                assert_eq!(high, 0);
                break;
            }
        }
    }
}

#[test]
fn main() {
    test_arithmetic_operations();
}

#[test]
fn a_byte_is_masked_nibble_by_nibble() {
    assert_eq!(encode_special_byte(0b1101_1001), ([1, 0, 0, 1], [1, 1, 1, 0]));
    assert_eq!(encode_special_byte(0), ([0; 4], [0; 4]));
    assert_eq!(encode_special_byte(0xff), ([1, 0, 1, 0], [1, 0, 1, 0]));
    assert_eq!(decode_special_encoded_byte(0b1001_1110), 0b1101_1001);
    for byte in 0u8..=255 {
        let (high, low) = encode_special_byte(byte);
        let mut masked = 0u8;
        for bit in high.iter().chain(low.iter()) {
            masked = (masked << 1) | *bit as u8;
        }
        assert_eq!(decode_special_encoded_byte(masked), byte);
    }
}

#[test]
fn the_four_operations_on_bytes() {
    assert_eq!(ArithmeticOp::Add.compute(200, 100), 44);
    assert_eq!(ArithmeticOp::Sub.compute(3, 5), 254);
    assert_eq!(ArithmeticOp::Mul.compute(16, 17), 16);
    assert_eq!(ArithmeticOp::Div.compute(200, 7), 28);
    assert_eq!(ArithmeticOp::Div.compute(200, 0), 0);
    assert_eq!(ArithmeticOp::Add.name(), "addition");
    assert_eq!(ArithmeticOp::Sub.name(), "subtraction");
    assert_eq!(ArithmeticOp::Mul.name(), "multiplication");
    assert_eq!(ArithmeticOp::Div.name(), "division");
}

#[test]
fn tables_and_their_parts() {
    let mut manager = ArithmeticLookupManager::default();
    manager.add_operation(ArithmeticOp::Sub);
    manager.add_operation(ArithmeticOp::Add);
    manager.add_operation(ArithmeticOp::Sub);
    assert_eq!(manager.get_loaded_operations(), vec![ArithmeticOp::Sub, ArithmeticOp::Add]);
    assert_eq!(manager.total_memory_usage(), 2 * 2 * 65536 * 8);
    assert!(manager.lookup(ArithmeticOp::Mul, 1, 1).is_none());
    assert!(manager.get_subtable(ArithmeticOp::Mul, 1).is_none());
    assert!(!manager.remove_operation(ArithmeticOp::Mul));
    let table = manager.get_table(ArithmeticOp::Add).unwrap();
    assert_eq!(table.get_operation(), ArithmeticOp::Add);
    assert_eq!(table.memory_usage(), 2 * 65536 * 8);
    assert_eq!(table.get_low_nibble_table().len(), 65536);
    assert_eq!(table.get_high_nibble_table().len(), 65536);
    let subtable = manager.get_subtable(ArithmeticOp::Add, 77).unwrap();
    assert_eq!(subtable.get_normal_input(), 77);
    assert_eq!(subtable.get_operation(), ArithmeticOp::Add);
    assert_eq!(subtable.get_low_nibble_subtable().len(), 256);
    assert_eq!(subtable.get_high_nibble_subtable().len(), 256);
    let encoded_inputs = [0u8, 15, 240, 255];
    let batch = subtable.lookup_batch(&encoded_inputs);
    let lows = subtable.lookup_low_nibble_batch(&encoded_inputs);
    let highs = subtable.lookup_high_nibble_batch(&encoded_inputs);
    for (i, encoded) in encoded_inputs.iter().enumerate() {
        let expected = 77u8.wrapping_add(decode_special_encoded_byte(*encoded));
        assert_eq!(batch[i], ((expected & 15) as u64, (expected >> 4) as u64));
        assert_eq!(subtable.lookup(*encoded), batch[i]);
        assert_eq!(lows[i], batch[i].0);
        assert_eq!(highs[i], batch[i].1);
        assert_eq!(subtable.lookup_low_nibble(*encoded), batch[i].0);
        assert_eq!(subtable.lookup_high_nibble(*encoded), batch[i].1);
        assert_eq!(manager.lookup(ArithmeticOp::Add, 77, *encoded), Some(batch[i]));
    }
    manager.clear();
    assert!(manager.get_loaded_operations().is_empty());
    assert_eq!(manager.total_memory_usage(), 0);
}
