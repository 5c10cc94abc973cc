//! Instructions of the target virtual machine, as the code generator sees
//! them: an opcode, up to three operand slots, and a patchable jump-target
//! field.  The physical bit-encoding is the execution engine's concern.

use vstd::prelude::*;

verus! {

/// The closed opcode set the generator emits.
#[derive(Clone, Copy, Debug, PartialEq, Eq, Structural)]
pub enum OpCode {
    /// Load a constant-table entry into register `a` (constant index in `b`).
    LoadConstant,
    /// Load nil into register `a`.
    LoadNil,
    /// Load a boolean into register `a` (`b` = 1 for true); if `c` is nonzero
    /// the next instruction is skipped.
    LoadBool,
    /// Copy register `b` into register `a`.
    Move,
    /// Arithmetic negation of register `b` into register `a`.
    UnaryMinus,
    /// Length of the value in register `b` into register `a`.
    Length,
    /// Logical negation of register `b` into register `a`.
    LogicalNot,
    Add,
    Sub,
    Mul,
    Div,
    Mod,
    /// Concatenate registers `b` and `c` into register `a`.
    Concat,
    /// Compare registers `b` and `c`; `a` gives the expected outcome.  Falls
    /// through on mismatch, otherwise takes the jump of the next instruction.
    Equal,
    LessThan,
    LessEqual,
    /// Test register `b` against the boolean in `a` and jump on match.
    TestJump,
    /// Unconditional jump to the pc in the jump field.
    Jump,
    /// Load upvalue `b` into register `a`.
    GetUpValue,
    /// `a := table[key]`, table slot in `b`, key slot in `c`.
    GetIndexed,
    /// `table[key] := value`.
    SetIndexed,
    Call,
    VarArg,
    /// Close every upvalue that captures a register at or above `a`.
    CloseUpValues,
    Return,
}

/// One fixed-width instruction.  While a jump is still pending, `jump` holds
/// the next element of its patch chain (an earlier pc) or `None` at the end
/// of the chain; patching overwrites it with the real branch target.
#[derive(Clone, Copy, Debug)]
pub struct Instruction {
    pub op: OpCode,
    pub a: usize,
    pub b: usize,
    pub c: usize,
    pub jump: Option<usize>,
}

impl Instruction {
    /// The same instruction with its jump field replaced.
    pub open spec fn with_jump(self, target: Option<usize>) -> Instruction {
        Instruction { jump: target, ..self }
    }

    pub fn new(op: OpCode, a: usize, b: usize, c: usize) -> (r: Instruction)
        ensures
            r == (Instruction { op, a, b, c, jump: None::<usize> }),
    {
        Instruction { op, a, b, c, jump: None }
    }
}

} // verus!
