//! Bubble sort of `size` registers in place, with register `size` as
//! scratch.

use crate::operations::manager::{plan_view, Step, StepView};
use crate::operations::operand::ArithmeticOp;
use crate::operations::operation::OperandType;
use vstd::prelude::*;

verus! {

pub struct BubbleProgram;

impl BubbleProgram {
    /// The operations of the program: maximum, minimum and move.
    pub fn load_operatonis() -> (operations: Vec<(ArithmeticOp, OperandType, Option<usize>)>)
        ensures
            operations@ == seq![
                (ArithmeticOp::MAX, OperandType::BothCipher, None::<usize>),
                (ArithmeticOp::MIN, OperandType::BothCipher, None::<usize>),
                (ArithmeticOp::MOVE, OperandType::BothCipher, None::<usize>),
            ],
    {
        let mut operations = Vec::new();
        operations.push((ArithmeticOp::MAX, OperandType::BothCipher, None));
        operations.push((ArithmeticOp::MIN, OperandType::BothCipher, None));
        operations.push((ArithmeticOp::MOVE, OperandType::BothCipher, None));
        operations
    }

    /// The exchange of registers `j` and `j + 1`: the scratch register takes
    /// their maximum, register `j` their minimum, and register `j + 1` the
    /// scratch register.
    pub open spec fn exchange(size: usize, j: int) -> Seq<StepView> {
        seq![
            StepView {
                op_index: 0,
                input_indices: seq![j as usize, (j + 1) as usize],
                output_index: size,
            },
            StepView {
                op_index: 1,
                input_indices: seq![j as usize, (j + 1) as usize],
                output_index: j as usize,
            },
            StepView { op_index: 2, input_indices: seq![size], output_index: (j + 1) as usize },
        ]
    }

    /// The first `j` exchanges of a pass: those of the registers `0..j`.
    pub open spec fn pass(size: usize, j: nat) -> Seq<StepView>
        decreases j,
    {
        if j == 0 {
            Seq::empty()
        } else {
            Self::pass(size, (j - 1) as nat) + Self::exchange(size, j - 1)
        }
    }

    /// The first `done` passes: pass number `k` makes `size - k` exchanges, so
    /// that it leaves the greatest of the registers it covers on top.
    pub open spec fn passes(size: usize, done: nat) -> Seq<StepView>
        decreases done,
    {
        if done == 0 {
            Seq::empty()
        } else {
            Self::passes(size, (done - 1) as nat) + Self::pass(size, (size - done) as nat)
        }
    }

    /// The plan: `size` passes, each one exchange shorter than the one
    /// before.
    pub fn load_programs(size: usize) -> (programs: Vec<Step>)
        ensures
            plan_view(programs@) == Self::passes(size, size as nat),
    {
        let mut programs: Vec<Step> = Vec::new();
        let mut done: usize = 0;
        proof {
            assert(plan_view(programs@) =~~= Self::passes(size, 0));
        }
        while done < size
            invariant
                done <= size,
                plan_view(programs@) == Self::passes(size, done as nat),
            decreases size - done,
        {
            let i = size - 1 - done;
            let ghost before = plan_view(programs@);
            let mut j: usize = 0;
            proof {
                assert(plan_view(programs@) =~~= before + Self::pass(size, 0));
            }
            while j < i
                invariant
                    j <= i,
                    i < size,
                    plan_view(programs@) == before + Self::pass(size, j as nat),
                decreases i - j,
            {
                let ghost start = plan_view(programs@);
                programs.push(Step::new(0, vec![j, j + 1], size));
                programs.push(Step::new(1, vec![j, j + 1], j));
                programs.push(Step::new(2, vec![size], j + 1));
                proof {
                    let now = plan_view(programs@);
                    let want = start + Self::exchange(size, j as int);
                    assert(now.len() == want.len());
                    assert forall|k: int| 0 <= k < now.len() implies now[k] =~~= want[k] by {
                        if k < start.len() {
                            assert(now[k] == programs@[k]@);
                        }
                    }
                    assert(plan_view(programs@) =~~= start + Self::exchange(size, j as int));
                    assert(start + Self::exchange(size, j as int) =~~= before + Self::pass(
                        size,
                        (j + 1) as nat,
                    ));
                }
                j += 1;
            }
            done += 1;
        }
        programs
    }
}

} // verus!
