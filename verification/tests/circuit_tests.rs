use fhe_processor::operations::operand::ArithmeticOp;
use fhe_processor::operations::operation::OperandType;
use fhe_processor::opmized_operations::compare::{
    comparison_circuit, encode_vec_nibbles, encrypted_controls, plain_controls, relation_values,
};
use fhe_processor::opmized_operations::sign::sign_constants;
use fhe_processor::opmized_operations::tree::{
    build_tree, run_plain, Control, Gate, EQUAL, GREATER, LESS, MID_0, MID_1, SLOTS,
};

fn selectors(words: &[(usize, usize)]) -> Vec<bool> {
    let mut bits = Vec::new();
    for (word, width) in words {
        bits.extend(encode_vec_nibbles(*word, *width).iter().map(|b| *b == 1));
    }
    bits
}

/// Runs the circuit on the values 1, 2 and 3 for "greater", "equal" and
/// "less" and returns what the running outcome holds at the end.
fn outcome(gates: &Vec<Gate>, selectors: &Vec<bool>) -> u64 {
    let mut regs = vec![0u64; SLOTS];
    regs[GREATER] = 1;
    regs[EQUAL] = 2;
    regs[LESS] = 3;
    run_plain(gates, regs, selectors)[EQUAL]
}

fn expected(a: usize, b: usize) -> u64 {
    if a > b {
        1
    } else if a == b {
        2
    } else {
        3
    }
}

fn next(seed: &mut u64) -> u64 {
    *seed ^= *seed << 13;
    *seed ^= *seed >> 7;
    *seed ^= *seed << 17;
    *seed
}

#[test]
fn the_tree_compares_random_words_of_32_digits() {
    let gates = comparison_circuit(OperandType::BothCipher, 0, 32);
    let mut seed = 0x9e37_79b9_7f4a_7c15u64;
    for round in 0..300 {
        let word = next(&mut seed);
        let a = (word & 0xffff_ffff) as usize;
        let mut b = (word >> 32) as usize;
        if round % 3 == 0 {
            b = a ^ (1 << (round % 32));
        }
        if round % 50 == 0 {
            b = a;
        }
        let sel = selectors(&[(a, 32), (b, 32)]);
        assert_eq!(outcome(&gates, &sel), expected(a, b), "{} against {}", a, b);
        let (g, e, l) = relation_values(ArithmeticOp::GT);
        let mut regs = vec![0u64; SLOTS];
        regs[GREATER] = g;
        regs[EQUAL] = e;
        regs[LESS] = l;
        assert_eq!(run_plain(&gates, regs, &sel)[EQUAL], (a > b) as u64);
    }
}

#[test]
fn the_tree_compares_all_pairs_of_bytes() {
    let gates = comparison_circuit(OperandType::BothCipher, 0, 8);
    for a in 0usize..256 {
        for b in 0usize..256 {
            assert_eq!(outcome(&gates, &selectors(&[(a, 8), (b, 8)])), expected(a, b));
        }
    }
}

#[test]
fn the_tree_compares_with_a_constant_on_either_side() {
    let mut seed = 0x1234_5678_9abc_def1u64;
    for _ in 0..200 {
        let word = next(&mut seed);
        let a = (word & 0xffff) as usize;
        let constant = ((word >> 16) & 0xffff) as usize;
        let after = comparison_circuit(OperandType::CipherPlain, constant, 16);
        let before = comparison_circuit(OperandType::PlainCipher, constant, 16);
        let sel = selectors(&[(a, 16)]);
        assert_eq!(outcome(&after, &sel), expected(a, constant));
        assert_eq!(outcome(&before, &sel), expected(constant, a));
    }
    let wide = comparison_circuit(OperandType::CipherPlain, 0x1_0005, 16);
    assert_eq!(outcome(&wide, &selectors(&[(5, 16)])), 2);
}

#[test]
fn every_relation_has_its_truth_values() {
    assert_eq!(relation_values(ArithmeticOp::GT), (1, 0, 0));
    assert_eq!(relation_values(ArithmeticOp::GTE), (1, 1, 0));
    assert_eq!(relation_values(ArithmeticOp::LT), (0, 0, 1));
    assert_eq!(relation_values(ArithmeticOp::LTE), (0, 1, 1));
    assert_eq!(relation_values(ArithmeticOp::EQ), (0, 1, 0));
    assert_eq!(relation_values(ArithmeticOp::Add), (0, 0, 0));
}

#[test]
fn a_group_of_four_places_takes_twenty_one_selections() {
    let gates = comparison_circuit(OperandType::BothCipher, 0, 4);
    assert_eq!(gates.len(), 21);
    assert_eq!(
        gates[0],
        Gate { control: Control::Encrypted(7), if_clear: LESS, if_set: EQUAL, target: MID_1 }
    );
    assert_eq!(
        gates[1],
        Gate { control: Control::Encrypted(7), if_clear: EQUAL, if_set: GREATER, target: MID_0 }
    );
    assert_eq!(
        gates[2],
        Gate { control: Control::Encrypted(3), if_clear: MID_0, if_set: MID_1, target: 4 }
    );
    assert_eq!(
        gates[20],
        Gate { control: Control::Encrypted(0), if_clear: MID_0, if_set: MID_1, target: EQUAL }
    );
    assert_eq!(comparison_circuit(OperandType::BothCipher, 0, 32).len(), 8 * 21);
    assert_eq!(comparison_circuit(OperandType::BothCipher, 0, 0).len(), 0);
}

#[test]
fn controls_are_listed_from_the_least_significant_place() {
    assert_eq!(
        encrypted_controls(4, 3),
        vec![Control::Encrypted(6), Control::Encrypted(5), Control::Encrypted(4)]
    );
    assert_eq!(
        plain_controls(0b1101, 4),
        vec![
            Control::Plain(true),
            Control::Plain(false),
            Control::Plain(false),
            Control::Plain(true)
        ]
    );
}

#[test]
fn groups_of_other_sizes_compare_as_well() {
    for group in [1usize, 2, 3, 8] {
        for a in 0usize..64 {
            for b in 0usize..64 {
                let first = encrypted_controls(0, 6);
                let second = encrypted_controls(6, 6);
                let gates = build_tree(&first, &second, group);
                let mut sel = Vec::new();
                for word in [a, b] {
                    let mut masked = vec![false; 6];
                    let mut parity = false;
                    for p in (0..6).rev() {
                        if (p + 1) % group == 0 || p == 5 {
                            parity = false;
                        }
                        parity ^= (word >> p) & 1 == 1;
                        masked[5 - p] = parity;
                    }
                    sel.extend(masked);
                }
                if 6 % group == 0 {
                    assert_eq!(outcome(&gates, &sel), expected(a, b));
                }
            }
        }
    }
}

#[test]
fn the_sign_has_one_zero_and_all_ones() {
    let (greater, equal, less) = sign_constants(4);
    assert_eq!(greater, vec![1 << 60, 0, 0, 0]);
    assert_eq!(equal, vec![0; 4]);
    assert_eq!(less, vec![15 << 60; 4]);
    let (greater, equal, less) = sign_constants(0);
    assert!(greater.is_empty() && equal.is_empty() && less.is_empty());
}
