//! The maximum of `size` registers, gathered in register `size`.

use crate::operations::manager::{plan_view, Step, StepView};
use crate::operations::operand::ArithmeticOp;
use crate::operations::operation::OperandType;
use vstd::prelude::*;

verus! {

pub struct MaximumProgram;

impl MaximumProgram {
    /// The one operation of the program: the maximum of two registers.
    pub fn load_operatonis() -> (operations: Vec<(ArithmeticOp, OperandType, Option<usize>)>)
        ensures
            operations@ == seq![(ArithmeticOp::MAX, OperandType::BothCipher, None::<usize>)],
    {
        let mut operations = Vec::new();
        operations.push((ArithmeticOp::MAX, OperandType::BothCipher, None));
        operations
    }

    /// Step `i` of the plan.
    pub open spec fn step(size: usize, i: int) -> StepView {
        StepView { op_index: 0, input_indices: seq![i as usize, size], output_index: size }
    }

    /// The plan: for every register `i` below `size`, register `size`
    /// becomes the maximum of register `i` and itself.
    pub fn load_programs(size: usize) -> (programs: Vec<Step>)
        ensures
            plan_view(programs@) == Seq::new(size as nat, |i: int| Self::step(size, i)),
    {
        let mut programs: Vec<Step> = Vec::new();
        let mut i: usize = 0;
        while i < size
            invariant
                i <= size,
                programs.len() == i,
                forall|k: int| 0 <= k < i ==> (#[trigger] programs[k])@ == Self::step(size, k),
            decreases size - i,
        {
            programs.push(Step::new(0, vec![i, size], size));
            i += 1;
        }
        proof {
            assert(plan_view(programs@) =~~= Seq::new(size as nat, |i: int| Self::step(size, i)));
        }
        programs
    }
}

} // verus!
