//! The average of `size` registers: their sum gathered in register `size`,
//! then divided by `size`.

use crate::operations::manager::{plan_view, Step, StepView};
use crate::operations::operand::ArithmeticOp;
use crate::operations::operation::OperandType;
use vstd::prelude::*;

verus! {

pub struct AverageProgram;

impl AverageProgram {
    /// The operations of the program: the sum of two registers, and the
    /// division of a register by `size`.
    pub fn load_operatonis(size: usize) -> (operations: Vec<
        (ArithmeticOp, OperandType, Option<usize>),
    >)
        ensures
            operations@ == seq![
                (ArithmeticOp::Add, OperandType::BothCipher, None::<usize>),
                (ArithmeticOp::Div, OperandType::CipherPlain, Some(size)),
            ],
    {
        let mut operations = Vec::new();
        operations.push((ArithmeticOp::Add, OperandType::BothCipher, None));
        operations.push((ArithmeticOp::Div, OperandType::CipherPlain, Some(size)));
        operations
    }

    /// Step `i` of the plan.
    pub open spec fn step(size: usize, i: int) -> StepView {
        if i < size {
            StepView { op_index: 0, input_indices: seq![i as usize, size], output_index: size }
        } else {
            StepView { op_index: 1, input_indices: seq![size], output_index: size }
        }
    }

    /// The plan: register `size` takes up every register below it in turn,
    /// and is divided at the end.
    pub fn load_programs(size: usize) -> (programs: Vec<Step>)
        ensures
            plan_view(programs@) == Seq::new((size + 1) as nat, |i: int| Self::step(size, i)),
    {
        let mut programs: Vec<Step> = Vec::new();
        let mut i: usize = 0;
        while i < size
            invariant
                i <= size,
                programs.len() == i,
                forall|k: int| 0 <= k < i ==> (#[trigger] programs[k])@ == Self::step(size, k),
            decreases size - i,
        {
            programs.push(Step::new(0, vec![i, size], size));
            i += 1;
        }
        let ghost before = programs@;
        programs.push(Step::new(1, vec![size], size));
        proof {
            assert forall|k: int| 0 <= k <= size implies plan_view(programs@)[k] =~~= Self::step(
                size,
                k,
            ) by {
                if k < size {
                    assert(programs@[k] == before[k]);
                }
            }
            assert(plan_view(programs@) =~~= Seq::new(
                (size + 1) as nat,
                |i: int| Self::step(size, i),
            ));
        }
        programs
    }
}

} // verus!
