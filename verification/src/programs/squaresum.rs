//! The sum of the squares of `size` registers, gathered in register
//! `size + 1`, with register `size` as scratch.

use crate::operations::manager::{plan_view, Step, StepView};
use crate::operations::operand::ArithmeticOp;
use crate::operations::operation::OperandType;
use vstd::prelude::*;

verus! {

pub struct SquaresumProgram;

impl SquaresumProgram {
    /// The operations of the program: product, sum and move.
    pub fn load_operatonis() -> (operations: Vec<(ArithmeticOp, OperandType, Option<usize>)>)
        ensures
            operations@ == seq![
                (ArithmeticOp::Mul, OperandType::BothCipher, None::<usize>),
                (ArithmeticOp::Add, OperandType::BothCipher, None::<usize>),
                (ArithmeticOp::MOVE, OperandType::BothCipher, None::<usize>),
            ],
    {
        let mut operations = Vec::new();
        operations.push((ArithmeticOp::Mul, OperandType::BothCipher, None));
        operations.push((ArithmeticOp::Add, OperandType::BothCipher, None));
        operations.push((ArithmeticOp::MOVE, OperandType::BothCipher, None));
        operations
    }

    /// Step `t` of the plan: the steps come in pairs, a square and a sum.
    pub open spec fn step(size: usize, t: int) -> StepView {
        if t % 2 == 0 {
            StepView {
                op_index: 0,
                input_indices: seq![(t / 2) as usize, (t / 2) as usize],
                output_index: size,
            }
        } else {
            StepView {
                op_index: 1,
                input_indices: seq![size, (size + 1) as usize],
                output_index: (size + 1) as usize,
            }
        }
    }

    /// The plan: for every register `i` below `size`, register `size`
    /// becomes its square, and register `size + 1` takes the square up.
    pub fn load_programs(size: usize) -> (programs: Vec<Step>)
        requires
            size < usize::MAX,
        ensures
            plan_view(programs@) == Seq::new((2 * size) as nat, |t: int| Self::step(size, t)),
    {
        let mut programs: Vec<Step> = Vec::new();
        let mut i: usize = 0;
        while i < size
            invariant
                i <= size,
                size < usize::MAX,
                programs.len() == 2 * i,
                forall|k: int|
                    0 <= k < 2 * i ==> (#[trigger] programs[k])@ == Self::step(size, k),
            decreases size - i,
        {
            programs.push(Step::new(0, vec![i, i], size));
            programs.push(Step::new(1, vec![size, size + 1], size + 1));
            i += 1;
        }
        proof {
            assert(plan_view(programs@) =~~= Seq::new(
                (2 * size) as nat,
                |t: int| Self::step(size, t),
            ));
        }
        programs
    }
}

} // verus!
