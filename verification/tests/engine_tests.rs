use fhe_processor::operations::manager::{map_chunks_to_lwe, OperationManager, Step};
use fhe_processor::operations::operand::ArithmeticOp;
use fhe_processor::operations::operation::{OperandType, Operation};
use fhe_processor::opmized_operations::compare::encode_vec_nibbles;
use fhe_processor::primitives::{Encryptor, SelectorBits};
use fhe_processor::programs::average::AverageProgram;
use fhe_processor::programs::bubble::BubbleProgram;
use fhe_processor::programs::maximum::MaximumProgram;
use fhe_processor::programs::squaresum::SquaresumProgram;
use fhe_processor::utils::parms::ProcessorParam;
use tfhe::core_crypto::fft_impl::fft64::c64;
use tfhe::core_crypto::prelude::{
    allocate_and_generate_new_binary_glwe_secret_key, convert_standard_ggsw_ciphertext_to_fourier,
    decrypt_lwe_ciphertext, encrypt_constant_ggsw_ciphertext, ActivatedRandomGenerator,
    CiphertextModulus, DecompositionBaseLog, DecompositionLevelCount, EncryptionRandomGenerator,
    Fft, FourierGgswCiphertextList, GgswCiphertext, GlweDimension, GlweSecretKeyOwned,
    LweCiphertext, Plaintext, PolynomialSize, SecretRandomGenerator, StandardDev,
};
use std::time::Instant;
use tfhe::core_crypto::seeders::new_seeder;

const GLWE_DIM: usize = 1;
const BASE_LOG: usize = 16;
const LEVELS: usize = 1;
const MESSAGE: usize = 4;

/// An engine together with what stands in for bootstrapping: the key, with
/// which a chunk is read and its selector bits are encrypted afresh.
struct Rig {
    manager: OperationManager,
    key: GlweSecretKeyOwned<u64>,
    generator: EncryptionRandomGenerator<ActivatedRandomGenerator>,
    poly: usize,
}

fn noise() -> StandardDev {
    StandardDev(0.00000000000000029403601535432533)
}

fn rig(registers: usize, width: usize) -> Rig {
    rig_with(registers, width, 64)
}

fn rig_with(registers: usize, width: usize, poly: usize) -> Rig {
    let mut boxed_seeder = new_seeder();
    let seeder = boxed_seeder.as_mut();
    let mut secret_generator = SecretRandomGenerator::<ActivatedRandomGenerator>::new(seeder.seed());
    let key = allocate_and_generate_new_binary_glwe_secret_key(
        GlweDimension(GLWE_DIM),
        PolynomialSize(poly),
        &mut secret_generator,
    );
    let encryptor = Encryptor {
        generator: EncryptionRandomGenerator::<ActivatedRandomGenerator>::new(seeder.seed(), seeder),
        noise: noise(),
    };
    let generator = EncryptionRandomGenerator::<ActivatedRandomGenerator>::new(seeder.seed(), seeder);
    let param = ProcessorParam::new(
        64, poly, GLWE_DIM, 0, 8, 3, 4, 4, 8, 3, 8, 3, BASE_LOG, LEVELS, 0, MESSAGE, MESSAGE,
    );
    let manager = OperationManager::new(
        param,
        registers,
        width,
        key.as_ref().to_vec(),
        encryptor,
        Fft::new(PolynomialSize(poly)),
    );
    Rig { manager, key, generator, poly }
}

fn encrypt_selectors(rig: &mut Rig, bits: &[usize]) -> SelectorBits {
    let glwe_size = GlweDimension(GLWE_DIM).to_glwe_size();
    let count = bits.len();
    let poly = rig.poly;
    let mut list = FourierGgswCiphertextList::new(
        vec![c64::default(); count * (poly / 2) * glwe_size.0 * glwe_size.0 * LEVELS],
        count,
        glwe_size,
        PolynomialSize(poly),
        DecompositionBaseLog(BASE_LOG),
        DecompositionLevelCount(LEVELS),
    );
    for (bit, mut fourier) in bits.iter().zip(list.as_mut_view().into_ggsw_iter()) {
        let mut ggsw = GgswCiphertext::new(
            0u64,
            glwe_size,
            PolynomialSize(poly),
            DecompositionBaseLog(BASE_LOG),
            DecompositionLevelCount(LEVELS),
            CiphertextModulus::new_native(),
        );
        encrypt_constant_ggsw_ciphertext(
            &rig.key,
            &mut ggsw,
            Plaintext(*bit as u64),
            noise(),
            &mut rig.generator,
        );
        convert_standard_ggsw_ciphertext_to_fourier(&ggsw, &mut fourier);
    }
    SelectorBits { list }
}

/// What bootstrapping does to one chunk: the selector bits of its value.
fn bootstrap(rig: &mut Rig, chunk: &Vec<u64>) -> SelectorBits {
    let key = rig.key.as_lwe_secret_key();
    let lwe = LweCiphertext::from_container(chunk.as_slice(), CiphertextModulus::new_native());
    let plain = decrypt_lwe_ciphertext(&key, &lwe).0;
    let value = ((((plain >> 59) + 1) >> 1) % 16) as usize;
    let bits = encode_vec_nibbles(value, 4);
    encrypt_selectors(rig, &bits)
}

/// Runs the plan once: every step bootstraps the chunks of its input
/// registers and is then executed on their selector bits.
fn execute(rig: &mut Rig) {
    let chunks = rig.manager.lwe_lists[0].len();
    for i in 0..rig.manager.execution_plan.len() {
        let inputs = rig.manager.step_inputs(i);
        let mut lists = Vec::new();
        for register in inputs.iter() {
            for c in 0..chunks {
                let chunk = rig.manager.lwe_lists[*register][c].clone();
                lists.push(bootstrap(rig, &chunk));
            }
        }
        while !lists.is_empty() && lists.len() < 2 * chunks {
            let spare = encrypt_selectors(rig, &[0, 0, 0, 0]);
            lists.push(spare);
        }
        assert!(rig.manager.execute_step(i, &lists));
    }
}

fn load_all(rig: &mut Rig, values: &[usize]) {
    for (register, value) in values.iter().enumerate() {
        rig.manager.load_data(*value, register);
    }
}

fn next(seed: &mut u64) -> u64 {
    *seed ^= *seed << 13;
    *seed ^= *seed >> 7;
    *seed ^= *seed << 17;
    *seed
}

const SAMPLE_SIZE: usize = 1;

#[test]
fn test_manager_maximum() {
    let size = 5_usize;
    let mut rig = rig(size + 1, 8);
    rig.manager.add_operatoins(MaximumProgram::load_operatonis());
    rig.manager.set_execution_plan(MaximumProgram::load_programs(size));

    rig.manager.load_data(16, 0);
    rig.manager.load_data(4, 1);
    rig.manager.load_data(0, 2);
    rig.manager.load_data(9, 3);
    rig.manager.load_data(5, 4);
    let t = Instant::now();
    for _ in 0..SAMPLE_SIZE {
        execute(&mut rig);
    }

    println!("Execution time: {:.3?}", t.elapsed() / SAMPLE_SIZE as u32);
    let result = rig.manager.get_data(size);
    println!("Maximum of [16, 4, 0, 9, 5] is {}", result);
    assert_eq!(result, 16);
}

#[test]
fn test_manager_bubble() {
    let size = 5_usize;
    let mut rig = rig(size + 1, 8);
    rig.manager.add_operatoins(BubbleProgram::load_operatonis());
    rig.manager.set_execution_plan(BubbleProgram::load_programs(size));

    rig.manager.load_data(16, 0);
    rig.manager.load_data(4, 1);
    rig.manager.load_data(0, 2);
    rig.manager.load_data(9, 3);
    rig.manager.load_data(5, 4);
    let t = Instant::now();
    for _ in 0..SAMPLE_SIZE {
        execute(&mut rig);
    }

    println!("Execution time: {:.3?}", t.elapsed() / SAMPLE_SIZE as u32);
    let mut line = format!("[16, 4, 0, 9, 5] after sorting is: [");
    let mut sorted = Vec::new();
    for i in 0..size {
        let result = rig.manager.get_data(i);
        line = format!("{}{} ", line, result);
        sorted.push(result);
    }
    println!("{}]", line);
    assert_eq!(sorted, vec![0, 4, 5, 9, 16]);
}

#[test]
fn test_manager_squaresum() {
    let size = 5_usize;
    let mut rig = rig(size + 2, 8);
    rig.manager.add_operatoins(SquaresumProgram::load_operatonis());
    rig.manager.set_execution_plan(SquaresumProgram::load_programs(size));

    rig.manager.load_data(2, 0);
    rig.manager.load_data(4, 1);
    rig.manager.load_data(0, 2);
    rig.manager.load_data(9, 3);
    rig.manager.load_data(5, 4);

    let t = Instant::now();
    for _ in 0..SAMPLE_SIZE {
        rig.manager.load_data(0, size + 1);
        execute(&mut rig);
    }

    println!("Execution time: {:.3?}", t.elapsed() / SAMPLE_SIZE as u32);
    let result = rig.manager.get_data(size + 1);
    println!(
        "Square sum of [2,4,0,9,5] is {}, which should be {}",
        result,
        (2 * 2 + 4 * 4 + 0_usize + 9 * 9 + 5 * 5)
    );
    assert_eq!(result, 126);
}

#[test]
fn test_manager_average() {
    let size = 5_usize;
    let mut rig = rig(size + 1, 8);
    rig.manager.add_operatoins(AverageProgram::load_operatonis(size));
    rig.manager.set_execution_plan(AverageProgram::load_programs(size));

    rig.manager.load_data(2, 0);
    rig.manager.load_data(4, 1);
    rig.manager.load_data(0, 2);
    rig.manager.load_data(9, 3);
    rig.manager.load_data(5, 4);

    let t = Instant::now();
    for _ in 0..SAMPLE_SIZE {
        rig.manager.load_data(0, size);
        execute(&mut rig);
    }

    println!("Execution time: {:.3?}", t.elapsed() / SAMPLE_SIZE as u32);
    let result = rig.manager.get_data(size);
    println!(
        "Average of [2,4,0,9,5] is {}, which should be {}",
        result,
        (2 + 4 + 0 + 9 + 5) / 5_usize
    );
    assert_eq!(result, 4);
}

#[test]
fn test_manager_large_compare_cc() {
    let size = 2_usize;
    let mut rig = rig(size + 1, 16);
    rig.manager.add_operation(ArithmeticOp::LT, OperandType::BothCipher, None);
    rig.manager.set_execution_plan(vec![Step::new(0, vec![0, 1], size)]);
    let mut seed = 0x2545_f491_4f6c_dd1du64;
    let mut count = 0;
    let samples = 10;
    let t = Instant::now();
    for _ in 0..samples {
        let word = next(&mut seed);
        let a = (word as u32 % 65536) as usize;
        let b = ((word >> 32) as u32 % 65536) as usize;
        let true_result: usize = if a < b { 1 } else { 0 };
        rig.manager.load_data(a, 0);
        rig.manager.load_data(b, 1);
        execute(&mut rig);
        let result = rig.manager.get_data(size);
        println!(
            " 16-bit-CC-LT({}, {}) = {}, which should be {}",
            a, b, result, true_result
        );

        if result == true_result {
            count = count + 1;
        }
    }
    println!("accuracy: {:.3?}", count as f64 / samples as f64);
    println!("Execution time: {:.3?}", t.elapsed() / samples as u32);
    assert_eq!(count, samples);
}

#[test]
fn test_manager_large_compare_pc() {
    let size = 1_usize;
    let b = 32718_usize;
    let mut rig = rig(size + 1, 16);
    rig.manager.add_operation(ArithmeticOp::GT, OperandType::CipherPlain, Some(b));
    rig.manager.set_execution_plan(vec![Step::new(0, vec![0], size)]);
    let mut seed = 0x9e37_79b9_7f4a_7c15u64;
    let mut count = 0;
    let samples = 10;
    let t = Instant::now();
    for _ in 0..samples {
        let a = (next(&mut seed) as u32 % 65536) as usize;
        let true_result: usize = if a > b { 1 } else { 0 };
        rig.manager.load_data(a, 0);
        execute(&mut rig);
        let result = rig.manager.get_data(size);

        println!(
            "16-bit-CP-GT({}, {}) = {}, which should be {}",
            a, b, result, true_result
        );
        if result == true_result {
            count = count + 1;
        }
    }
    println!("accuracy: {:.3?}", count as f64 / samples as f64);
    println!("Execution time: {:.3?}", t.elapsed() / samples as u32);
    assert_eq!(count, samples);
}

#[test]
fn test_manager_sign() {
    let size = 1_usize;
    let b = 1 << 31;
    let mut rig = rig(size + 1, 32);
    rig.manager.add_operation(ArithmeticOp::SIGN, OperandType::CipherPlain, Some(b));
    rig.manager.set_execution_plan(vec![Step::new(0, vec![0], size)]);
    let mut seed = 0x0123_4567_89ab_cdefu64;
    let mut count = 0;
    let samples = 10;
    let t = Instant::now();
    for round in 0..samples {
        let mut a = next(&mut seed) as u32 as usize;
        if round == 0 {
            a = b;
        }
        let true_result: usize = if a > b {
            1
        } else if a == b {
            0
        } else {
            (1 << 32) - 1
        };
        rig.manager.load_data(a, 0);
        execute(&mut rig);
        let result = rig.manager.get_data(size);

        println!(
            " sign({}, {}) = {}, which should be {}",
            a, b, result, true_result
        );

        if result == true_result {
            count = count + 1;
        }
    }
    println!("accuracy: {:.3?}", count as f64 / samples as f64);
    println!("Execution time: {:.3?}", t.elapsed() / samples as u32);
    assert_eq!(count, samples);
}

#[test]
fn add_two_registers() {
    let mut rig = rig(3, 8);
    let index = rig.manager.add_operation(ArithmeticOp::Add, OperandType::BothCipher, None);
    assert_eq!(index, 0);
    rig.manager.set_execution_plan(vec![Step::new(0, vec![0, 1], 2)]);
    rig.manager.load_data(5, 0);
    rig.manager.load_data(3, 1);
    execute(&mut rig);
    assert_eq!(rig.manager.get_data(2), 8);
    assert_eq!(rig.manager.get_data(0), 5);
    assert_eq!(rig.manager.get_data(1), 3);
}

#[test]
fn subtract_wraps_around() {
    let mut rig = rig(3, 8);
    rig.manager.add_operation(ArithmeticOp::Sub, OperandType::BothCipher, None);
    rig.manager.set_execution_plan(vec![Step::new(0, vec![0, 1], 2)]);
    rig.manager.load_data(250, 0);
    rig.manager.load_data(255, 1);
    execute(&mut rig);
    assert_eq!(rig.manager.get_data(2), 251);
}

#[test]
fn load_and_read_back() {
    let mut rig = rig(2, 16);
    for value in [0usize, 1, 0x1234, 0xffff, 0x8001] {
        rig.manager.load_data(value, 1);
        assert_eq!(rig.manager.get_data(1), value);
    }
    rig.manager.load_data(0x1_2345, 0);
    assert_eq!(rig.manager.get_data(0), 0x2345);
    assert_eq!(rig.manager.lwe_lists.len(), 2);
    assert_eq!(rig.manager.lwe_lists[0].len(), 4);
}

#[test]
fn a_fresh_engine_holds_zeros() {
    let mut rig = rig(4, 8);
    assert!(rig.manager.operations.is_empty());
    assert!(rig.manager.execution_plan.is_empty());
    assert_eq!(rig.manager.data_len, 8);
    for register in 0..4 {
        assert_eq!(rig.manager.get_data(register), 0);
    }
    execute(&mut rig);
}

#[test]
fn a_move_copies_a_register() {
    let mut rig = rig(3, 16);
    let index = rig.manager.add_operation(ArithmeticOp::MOVE, OperandType::BothCipher, None);
    assert!(rig.manager.operations[index].cipher_lut.is_empty());
    rig.manager.set_execution_plan(vec![Step::new(0, vec![1], 2)]);
    rig.manager.load_data(0xbeef, 1);
    assert_eq!(rig.manager.step_inputs(0), Vec::<usize>::new());
    assert!(rig.manager.execute_step(0, &Vec::new()));
    assert_eq!(rig.manager.get_data(2), 0xbeef);
    assert_eq!(rig.manager.lwe_lists[2], rig.manager.lwe_lists[1]);
    assert_eq!(rig.manager.get_data(0), 0);
}

#[test]
fn packed_tables_serve_every_output_chunk() {
    for poly in [64usize, 256, 512, 1024] {
        let mut rig = rig_with(2, 8, poly);
        rig.manager.add_operation(ArithmeticOp::Mul, OperandType::CipherPlain, Some(7));
        rig.manager.add_operation(ArithmeticOp::Sub, OperandType::PlainCipher, Some(7));
        let operation = &rig.manager.operations[0];
        let capacity = poly / 256;
        assert_eq!(operation.lut_pack_size, if capacity < 1 { 1 } else { capacity });
        assert_eq!(operation.cipher_lut.len(), if capacity < 2 { 2 } else { 1 });
        let per_list = if capacity < 1 { 256 } else { poly };
        assert!(operation.cipher_lut.iter().all(|list| list.len() == per_list));
        rig.manager.set_execution_plan(vec![
            Step::new(0, vec![0], 1),
            Step::new(1, vec![1], 0),
        ]);
        rig.manager.load_data(0x5b, 0);
        execute(&mut rig);
        assert_eq!(rig.manager.lwe_lists[1].len(), 2);
        assert_eq!(rig.manager.get_data(1), (0x5b * 7) % 256);
        assert_eq!(rig.manager.get_data(0), (7 + 256 - (0x5b * 7) % 256) % 256);
    }
}

#[test]
fn a_relation_on_bytes_is_looked_up() {
    let mut rig = rig(3, 8);
    rig.manager.add_operation(ArithmeticOp::GT, OperandType::BothCipher, None);
    assert_eq!(rig.manager.operations[0].cipher_lut.len(), 2);
    rig.manager.set_execution_plan(vec![Step::new(0, vec![0, 1], 2)]);
    for (a, b) in [(9usize, 5usize), (5, 9), (7, 7)] {
        rig.manager.load_data(a, 0);
        rig.manager.load_data(b, 1);
        execute(&mut rig);
        assert_eq!(rig.manager.get_data(2), (a > b) as usize);
    }
}

#[test]
fn a_step_that_cannot_be_executed_changes_nothing() {
    let mut rig = rig(3, 8);
    rig.manager.add_operation(ArithmeticOp::Add, OperandType::BothCipher, None);
    rig.manager.add_operation(ArithmeticOp::MOVE, OperandType::BothCipher, None);
    rig.manager.set_execution_plan(vec![
        Step::new(0, vec![0, 1], 2),
        Step::new(5, vec![0, 1], 2),
        Step::new(0, vec![0, 9], 2),
        Step::new(0, vec![0], 2),
        Step::new(1, vec![0], 7),
        Step::new(1, vec![], 2),
    ]);
    rig.manager.load_data(1, 0);
    rig.manager.load_data(2, 1);
    rig.manager.load_data(77, 2);
    let before = rig.manager.lwe_lists.clone();
    assert!(rig.manager.check_step(0));
    assert_eq!(rig.manager.step_inputs(0), vec![0, 1]);
    for step in 1..7 {
        assert!(!rig.manager.check_step(step));
        assert_eq!(rig.manager.step_inputs(step), Vec::<usize>::new());
        assert!(!rig.manager.execute_step(step, &Vec::new()));
    }
    assert!(!rig.manager.execute_step(0, &Vec::new()));
    let short = vec![encrypt_selectors(&mut rig, &[0, 0, 0, 0])];
    assert!(!rig.manager.execute_step(0, &short));
    let mut mixed = Vec::new();
    for _ in 0..4 {
        let list = encrypt_selectors(&mut rig, &[0, 0, 0, 0]);
        mixed.push(list);
    }
    rig.poly = 128;
    rig.key = {
        let mut boxed_seeder = new_seeder();
        let mut secret_generator =
            SecretRandomGenerator::<ActivatedRandomGenerator>::new(boxed_seeder.as_mut().seed());
        allocate_and_generate_new_binary_glwe_secret_key(
            GlweDimension(GLWE_DIM),
            PolynomialSize(128),
            &mut secret_generator,
        )
    };
    let odd = encrypt_selectors(&mut rig, &[0, 0, 0, 0]);
    mixed[3] = odd;
    assert!(!rig.manager.execute_step(0, &mixed));
    assert_eq!(rig.manager.lwe_lists, before);
}

#[test]
fn operations_are_numbered_as_they_are_added() {
    let mut rig = rig(1, 16);
    assert_eq!(
        rig.manager.add_operation(ArithmeticOp::GT, OperandType::CipherPlain, Some(3)),
        0
    );
    assert_eq!(
        rig.manager.add_operation(ArithmeticOp::SIGN, OperandType::CipherPlain, Some(3)),
        1
    );
    assert_eq!(
        rig.manager.add_operation(ArithmeticOp::Add, OperandType::CipherPlain, Some(3)),
        2
    );
    assert!(rig.manager.operations[0].cipher_lut.is_empty());
    assert!(rig.manager.operations[1].cipher_lut.is_empty());
    assert_eq!(rig.manager.operations[2].cipher_lut.len(), 4);
    assert_eq!(rig.manager.operations[2].bit_width, 16);
    assert_eq!(rig.manager.operations[2].chunk_size, 4);
    rig.manager.remove_operation(0);
    assert_eq!(rig.manager.operations.len(), 2);
    assert_eq!(rig.manager.operations[0].op, ArithmeticOp::SIGN);
    assert_eq!(rig.manager.operations[1].op, ArithmeticOp::Add);
}

#[test]
fn greater_than_on_words_of_32_digits_over_random_pairs() {
    let mut rig = rig(3, 32);
    rig.manager.add_operation(ArithmeticOp::GT, OperandType::BothCipher, None);
    rig.manager.set_execution_plan(vec![Step::new(0, vec![0, 1], 2)]);
    let mut seed = 0x9e37_79b9_7f4a_7c15u64;
    let mut pairs: Vec<(usize, usize)> = vec![
        (0, 0),
        (1, 0),
        (0, 1),
        (0xffff_ffff, 0xffff_ffff),
        (0xffff_ffff, 0xffff_fffe),
        (0x8000_0000, 0x7fff_ffff),
        (0x0001_0000, 0x0000_ffff),
        (0x1234_5678, 0x1234_5679),
    ];
    while pairs.len() < 110 {
        let word = next(&mut seed);
        let a = (word & 0xffff_ffff) as usize;
        let close = next(&mut seed);
        let b = if close % 4 == 0 {
            a ^ (1usize << (close >> 8) % 32)
        } else {
            (close >> 32) as usize
        };
        pairs.push((a, b));
    }
    let mut mismatches = 0;
    for (a, b) in pairs.iter() {
        rig.manager.load_data(*a, 0);
        rig.manager.load_data(*b, 1);
        execute(&mut rig);
        let expected: usize = if a > b { 1 } else { 0 };
        if rig.manager.get_data(2) != expected {
            mismatches += 1;
        }
    }
    assert_eq!(mismatches, 0);
}

#[test]
fn tables_are_compiled_for_supported_widths_only() {
    let delta = 1u64 << 60;
    assert!(Operation::can_compile(OperandType::BothCipher, 8, 4, 64, delta, None));
    assert!(Operation::can_compile(OperandType::CipherPlain, 16, 4, 64, delta, Some(3)));
    assert!(Operation::can_compile(OperandType::PlainCipher, 32, 4, 1024, delta, Some(3)));
    assert!(Operation::can_compile(OperandType::BothCipher, 16, 4, 1024, delta, None));
    assert!(!Operation::can_compile(OperandType::BothCipher, 32, 4, 1024, delta, None));
    assert!(!Operation::can_compile(OperandType::BothCipher, 12, 4, 64, delta, None));
    assert!(!Operation::can_compile(OperandType::BothCipher, 8, 0, 64, delta, None));
    assert!(!Operation::can_compile(OperandType::BothCipher, 8, 3, 64, delta, None));
    assert!(!Operation::can_compile(OperandType::BothCipher, 8, 16, 64, delta, None));
    assert!(!Operation::can_compile(OperandType::BothCipher, 8, 4, 0, delta, None));
    assert!(!Operation::can_compile(OperandType::CipherPlain, 8, 4, 64, delta, None));
    assert!(!Operation::can_compile(OperandType::PlainCipher, 8, 4, 64, delta, None));
    assert!(Operation::can_compile(OperandType::BothCipher, 8, 4, 64, u64::MAX / 15, None));
    assert!(!Operation::can_compile(OperandType::BothCipher, 8, 4, 64, u64::MAX / 15 + 1, None));
}

#[test]
fn an_engine_needs_parameters_that_fit_together() {
    let param = |message: usize| {
        ProcessorParam::new(64, 64, 2, 0, 8, 3, 4, 4, 8, 3, 8, 3, 16, 1, 0, message, message)
    };
    assert!(OperationManager::can_configure(&param(4), 8, 128));
    assert!(OperationManager::can_configure(&param(4), 64, 128));
    assert!(OperationManager::can_configure(&param(3), 7, 128));
    assert!(!OperationManager::can_configure(&param(3), 64, 128));
    assert!(!OperationManager::can_configure(&param(4), 65, 128));
    assert!(!OperationManager::can_configure(&param(4), 0, 128));
    assert!(!OperationManager::can_configure(&param(0), 8, 128));
    assert!(!OperationManager::can_configure(&param(63), 8, 128));
    assert!(!OperationManager::can_configure(&param(4), 8, 127));
    assert!(!OperationManager::can_configure(&param(4), 8, 0));
}

#[test]
fn an_engine_accepts_what_it_can_compile() {
    let rig = rig(2, 8);
    assert!(rig.manager.accepts(ArithmeticOp::Add, OperandType::BothCipher, None));
    assert!(rig.manager.accepts(ArithmeticOp::Add, OperandType::CipherPlain, Some(1)));
    assert!(!rig.manager.accepts(ArithmeticOp::Add, OperandType::CipherPlain, None));
    assert!(rig.manager.accepts(ArithmeticOp::MOVE, OperandType::CipherPlain, None));
    assert!(rig.manager.accepts(ArithmeticOp::SIGN, OperandType::CipherPlain, None));
    let wide = rig_with(2, 32, 64);
    assert!(!wide.manager.accepts(ArithmeticOp::Add, OperandType::BothCipher, None));
    assert!(wide.manager.accepts(ArithmeticOp::GT, OperandType::BothCipher, None));
    assert!(wide.manager.accepts(ArithmeticOp::Add, OperandType::CipherPlain, Some(9)));
}

#[test]
fn the_chunks_of_a_register_are_paired_with_the_chunks_of_a_value() {
    let registers = vec![
        vec![vec![1u64, 2], vec![3, 4], vec![5, 6]],
        vec![vec![7u64, 8], vec![9, 10], vec![11, 12]],
    ];
    let pairs = map_chunks_to_lwe(&registers, 1, 0xabc, 12, 4);
    assert_eq!(pairs.len(), 3);
    assert_eq!(pairs[0], (&vec![7u64, 8], 0xa));
    assert_eq!(pairs[1], (&vec![9u64, 10], 0xb));
    assert_eq!(pairs[2], (&vec![11u64, 12], 0xc));
    let pairs = map_chunks_to_lwe(&registers, 0, 0x1fff, 10, 4);
    assert_eq!(pairs[0], (&vec![1u64, 2], 0x3));
    assert_eq!(pairs[1], (&vec![3u64, 4], 0xf));
    assert_eq!(pairs[2], (&vec![5u64, 6], 0xf));
}

#[test]
fn every_chunk_of_a_loaded_register_encrypts_its_chunk_of_the_value() {
    let mut rig = rig(2, 16);
    let before = rig.manager.lwe_lists[1].clone();
    rig.manager.load_data(0xa5c3, 0);
    assert_eq!(rig.manager.lwe_lists[1], before);
    let key = rig.key.as_lwe_secret_key();
    for (c, chunk) in [0xau64, 0x5, 0xc, 0x3].iter().enumerate() {
        let words = rig.manager.lwe_lists[0][c].clone();
        let lwe = LweCiphertext::from_container(words, CiphertextModulus::new_native());
        let plain = decrypt_lwe_ciphertext(&key, &lwe).0;
        let noise = plain.wrapping_sub(chunk << 60);
        assert!(noise.min(noise.wrapping_neg()) < 1 << 20);
    }
    rig.manager.load_data(0x1_ffff, 0);
    assert_eq!(rig.manager.get_data(0), 0xffff);
}
