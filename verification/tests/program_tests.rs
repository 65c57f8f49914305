use fhe_processor::operations::manager::Step;
use fhe_processor::operations::operand::ArithmeticOp;
use fhe_processor::operations::operation::OperandType;
use fhe_processor::programs::average::AverageProgram;
use fhe_processor::programs::bubble::BubbleProgram;
use fhe_processor::programs::maximum::MaximumProgram;
use fhe_processor::programs::squaresum::SquaresumProgram;

fn listing(steps: &Vec<Step>) -> Vec<(usize, Vec<usize>, usize)> {
    steps
        .iter()
        .map(|s| (s.op_index, s.input_indices.clone(), s.output_index))
        .collect()
}

/// Runs a plan on plain registers of eight digits.
fn run(
    operations: &Vec<(ArithmeticOp, OperandType, Option<usize>)>,
    plan: &Vec<Step>,
    registers: &mut Vec<u64>,
) {
    for step in plan {
        let (op, kind, constant) = operations[step.op_index];
        let first = registers[step.input_indices[0]];
        let value = match (op, kind) {
            (ArithmeticOp::MOVE, _) => first,
            (_, OperandType::BothCipher) => op.compute(first, registers[step.input_indices[1]], 8),
            (_, OperandType::CipherPlain) => op.compute(first, constant.unwrap() as u64 % 256, 8),
            (_, OperandType::PlainCipher) => op.compute(constant.unwrap() as u64 % 256, first, 8),
        };
        registers[step.output_index] = value;
    }
}

#[test]
fn the_maximum_program() {
    assert_eq!(
        MaximumProgram::load_operatonis(),
        vec![(ArithmeticOp::MAX, OperandType::BothCipher, None)]
    );
    assert_eq!(
        listing(&MaximumProgram::load_programs(3)),
        vec![(0, vec![0, 3], 3), (0, vec![1, 3], 3), (0, vec![2, 3], 3)]
    );
    assert!(MaximumProgram::load_programs(0).is_empty());
    let mut registers = vec![16, 4, 0, 9, 5, 0];
    run(&MaximumProgram::load_operatonis(), &MaximumProgram::load_programs(5), &mut registers);
    assert_eq!(registers[5], 16);
}

#[test]
fn the_average_program() {
    assert_eq!(
        AverageProgram::load_operatonis(5),
        vec![
            (ArithmeticOp::Add, OperandType::BothCipher, None),
            (ArithmeticOp::Div, OperandType::CipherPlain, Some(5))
        ]
    );
    assert_eq!(
        listing(&AverageProgram::load_programs(2)),
        vec![(0, vec![0, 2], 2), (0, vec![1, 2], 2), (1, vec![2], 2)]
    );
    let mut registers = vec![2, 4, 0, 9, 5, 0];
    run(&AverageProgram::load_operatonis(5), &AverageProgram::load_programs(5), &mut registers);
    assert_eq!(registers[5], 4);
}

#[test]
fn the_squaresum_program() {
    assert_eq!(
        SquaresumProgram::load_operatonis(),
        vec![
            (ArithmeticOp::Mul, OperandType::BothCipher, None),
            (ArithmeticOp::Add, OperandType::BothCipher, None),
            (ArithmeticOp::MOVE, OperandType::BothCipher, None)
        ]
    );
    assert_eq!(
        listing(&SquaresumProgram::load_programs(2)),
        vec![(0, vec![0, 0], 2), (1, vec![2, 3], 3), (0, vec![1, 1], 2), (1, vec![2, 3], 3)]
    );
    let mut registers = vec![2, 4, 0, 9, 5, 0, 0];
    run(&SquaresumProgram::load_operatonis(), &SquaresumProgram::load_programs(5), &mut registers);
    assert_eq!(registers[6], 126);
}

#[test]
fn the_bubble_program() {
    assert_eq!(
        BubbleProgram::load_operatonis(),
        vec![
            (ArithmeticOp::MAX, OperandType::BothCipher, None),
            (ArithmeticOp::MIN, OperandType::BothCipher, None),
            (ArithmeticOp::MOVE, OperandType::BothCipher, None)
        ]
    );
    assert_eq!(
        listing(&BubbleProgram::load_programs(3)),
        vec![
            (0, vec![0, 1], 3),
            (1, vec![0, 1], 0),
            (2, vec![3], 1),
            (0, vec![1, 2], 3),
            (1, vec![1, 2], 1),
            (2, vec![3], 2),
            (0, vec![0, 1], 3),
            (1, vec![0, 1], 0),
            (2, vec![3], 1),
        ]
    );
    assert!(BubbleProgram::load_programs(1).is_empty());
    assert_eq!(BubbleProgram::load_programs(5).len(), 30);
    let mut registers = vec![16, 4, 0, 9, 5, 0];
    run(&BubbleProgram::load_operatonis(), &BubbleProgram::load_programs(5), &mut registers);
    assert_eq!(registers[..5], [0, 4, 5, 9, 16]);
}
