//! The per-instruction record: a decoded opcode together with its byte
//! offset and the coarse stack-effect figures derived from the catalog.

use vstd::prelude::*;

use crate::catalog::{
    arg_size, arg_size_spec, is_defined_spec, is_dup, is_dup_spec, is_non_stack_increasing,
    is_non_stack_increasing_spec, is_push, is_push_spec, is_swap, is_swap_spec, pops, pops_spec,
    AND_OP, JUMP, JUMPDEST, JUMPI, POP_OP,
};

verus! {

/// The coarse instruction category: the only axis the symbolic interpreter
/// switches on.
#[derive(Clone, Copy, Debug, PartialEq, Eq, Structural)]
pub enum OpType {
    Jump,
    JumpI,
    Dup,
    Push,
    Swap,
    And,
    Pop,
    Other,
}

/// The category a byte value falls under.
pub open spec fn category_spec(b: u8) -> OpType {
    if is_push_spec(b) is Some {
        OpType::Push
    } else if is_swap_spec(b) is Some {
        OpType::Swap
    } else if is_dup_spec(b) is Some {
        OpType::Dup
    } else if b == AND_OP {
        OpType::And
    } else if b == POP_OP {
        OpType::Pop
    } else if b == JUMP {
        OpType::Jump
    } else if b == JUMPI {
        OpType::JumpI
    } else {
        OpType::Other
    }
}

/// A decoded instruction.  `code` is the opcode byte (or the offending byte
/// when `is_invalid` is set), `pc` its byte offset once placed in the code.
#[derive(Clone, Debug)]
pub struct Operation {
    pub code: u8,
    pub rm_stack_count: u8,
    pub add_stack_count: u8,
    pub arg_size: u8,
    pub is_invalid: bool,
    pub pc: Option<usize>,
}

/// How many cells an instruction removes: the `N` of a DUP or SWAP opcode,
/// and otherwise the catalog's pops column.
pub open spec fn rm_count_spec(b: u8) -> u8 {
    if 0x80 <= b && b <= 0x8F {
        (b - 0x7F) as u8
    } else if 0x90 <= b && b <= 0x9F {
        (b - 0x8F) as u8
    } else {
        pops_spec(b)
    }
}

/// Zero for the designated non-stack-increasing opcodes, one otherwise.
pub open spec fn add_count_spec(b: u8) -> u8 {
    if is_non_stack_increasing_spec(b) {
        0
    } else {
        1
    }
}

impl Operation {
    /// The record a defined opcode byte decodes to, before a byte offset is
    /// attached.
    pub open spec fn decoded_spec(b: u8) -> Operation {
        Operation {
            code: b,
            rm_stack_count: rm_count_spec(b),
            add_stack_count: add_count_spec(b),
            arg_size: arg_size_spec(b),
            is_invalid: false,
            pc: None,
        }
    }

    /// The record that stands for an undecodable byte at a given offset.
    pub open spec fn invalid_spec(b: u8, pc: Option<usize>) -> Operation {
        Operation {
            code: b,
            rm_stack_count: 0,
            add_stack_count: 0,
            arg_size: 0,
            is_invalid: true,
            pc,
        }
    }

    /// Decode a defined opcode byte into a record.
    pub fn from_byte(b: u8) -> (op: Operation)
        requires
            is_defined_spec(b),
        ensures
            op == Operation::decoded_spec(b),
    {
        let rm: u8 = if 0x80 <= b && b <= 0x8F {
            b - 0x7F
        } else if 0x90 <= b && b <= 0x9F {
            b - 0x8F
        } else {
            pops(b)
        };
        let add: u8 = if is_non_stack_increasing(b) {
            0
        } else {
            1
        };
        Operation {
            code: b,
            rm_stack_count: rm,
            add_stack_count: add,
            arg_size: arg_size(b),
            is_invalid: false,
            pc: None,
        }
    }

    /// The record carrying a byte that failed to decode.
    pub fn invalid(invalid_code: u8, pc: Option<usize>) -> (op: Operation)
        ensures
            op == Operation::invalid_spec(invalid_code, pc),
    {
        Operation {
            code: invalid_code,
            rm_stack_count: 0,
            add_stack_count: 0,
            arg_size: 0,
            is_invalid: true,
            pc,
        }
    }

    /// Attach a byte offset.
    pub fn pc(self, addr: usize) -> (op: Operation)
        ensures
            op == (Operation { pc: Some(addr), ..self }),
    {
        Operation { pc: Some(addr), ..self }
    }

    /// The coarse category of this instruction.
    pub fn category(&self) -> (t: OpType)
        ensures
            t == category_spec(self.code),
    {
        if is_push(self.code).is_some() {
            OpType::Push
        } else if is_swap(self.code).is_some() {
            OpType::Swap
        } else if is_dup(self.code).is_some() {
            OpType::Dup
        } else if self.code == AND_OP {
            OpType::And
        } else if self.code == POP_OP {
            OpType::Pop
        } else if self.code == JUMP {
            OpType::Jump
        } else if self.code == JUMPI {
            OpType::JumpI
        } else {
            OpType::Other
        }
    }

    /// A record is well formed against a code of length `n` when its offset
    /// is attached, its derived fields agree with the catalog, and its
    /// immediate lies inside the code.
    pub open spec fn wf(self, n: nat) -> bool {
        &&& self.pc is Some
        &&& self.pc->0 < n
        &&& if self.is_invalid {
            self == Operation::invalid_spec(self.code, self.pc) && (!is_defined_spec(self.code)
                || self.pc->0 + 1 + arg_size_spec(self.code) > n)
        } else {
            self == (Operation { pc: self.pc, ..Operation::decoded_spec(self.code) })
                && is_defined_spec(self.code) && self.pc->0 + 1 + self.arg_size <= n
        }
    }
}

} // verus!
