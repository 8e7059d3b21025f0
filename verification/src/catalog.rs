//! The opcode catalog: a total description of the 256 possible byte values.
//!
//! Every other component queries this module for instruction facts: whether a
//! byte is a defined opcode, how many immediate bytes follow it, how many
//! stack cells it consumes, and whether it unconditionally ends a basic block.
//! The instruction set is the London-era set of the Ethereum virtual machine;
//! the designated invalid byte 0xFE is deliberately left undefined so that it
//! flows through the invalid-byte path of the disassembler.

use vstd::prelude::*;

verus! {

pub const JUMPDEST: u8 = 0x5B;
pub const JUMP: u8 = 0x56;
pub const JUMPI: u8 = 0x57;
pub const AND_OP: u8 = 0x16;
pub const POP_OP: u8 = 0x50;

/// Whether `b` is a defined opcode of the instruction set.
pub open spec fn is_defined_spec(b: u8) -> bool {
    b <= 0x0B || (0x10 <= b && b <= 0x1D) || b == 0x20 || (0x30 <= b && b <= 0x48) || (0x50 <= b
        && b <= 0x9F) || (0xA0 <= b && b <= 0xA4) || (0xF0 <= b && b <= 0xF5) || b == 0xFA || b
        == 0xFD || b == 0xFF
}

pub fn is_defined(b: u8) -> (r: bool)
    ensures
        r == is_defined_spec(b),
{
    b <= 0x0B || (0x10 <= b && b <= 0x1D) || b == 0x20 || (0x30 <= b && b <= 0x48) || (0x50 <= b
        && b <= 0x9F) || (0xA0 <= b && b <= 0xA4) || (0xF0 <= b && b <= 0xF5) || b == 0xFA || b
        == 0xFD || b == 0xFF
}

/// The number of immediate bytes that follow the opcode byte: non-zero only
/// for the 32 push opcodes, whose immediates are 1 to 32 bytes wide.
pub open spec fn arg_size_spec(b: u8) -> u8 {
    if 0x60 <= b && b <= 0x7F {
        (b - 0x5F) as u8
    } else {
        0
    }
}

pub fn arg_size(b: u8) -> (r: u8)
    ensures
        r == arg_size_spec(b),
{
    if 0x60 <= b && b <= 0x7F {
        b - 0x5F
    } else {
        0
    }
}

/// `Some(n)` when `b` is PUSHn, with an `n`-byte immediate.
pub open spec fn is_push_spec(b: u8) -> Option<u8> {
    if 0x60 <= b && b <= 0x7F {
        Some((b - 0x5F) as u8)
    } else {
        None
    }
}

pub fn is_push(b: u8) -> (r: Option<u8>)
    ensures
        r == is_push_spec(b),
{
    if 0x60 <= b && b <= 0x7F {
        Some(b - 0x5F)
    } else {
        None
    }
}

/// `Some(n)` when `b` is SWAPn, which exchanges the top cell with the one `n` below.
pub open spec fn is_swap_spec(b: u8) -> Option<u8> {
    if 0x90 <= b && b <= 0x9F {
        Some((b - 0x8F) as u8)
    } else {
        None
    }
}

pub fn is_swap(b: u8) -> (r: Option<u8>)
    ensures
        r == is_swap_spec(b),
{
    if 0x90 <= b && b <= 0x9F {
        Some(b - 0x8F)
    } else {
        None
    }
}

/// `Some(n)` when `b` is DUPn, which copies the cell `n - 1` below the top.
pub open spec fn is_dup_spec(b: u8) -> Option<u8> {
    if 0x80 <= b && b <= 0x8F {
        Some((b - 0x7F) as u8)
    } else {
        None
    }
}

pub fn is_dup(b: u8) -> (r: Option<u8>)
    ensures
        r == is_dup_spec(b),
{
    if 0x80 <= b && b <= 0x8F {
        Some(b - 0x7F)
    } else {
        None
    }
}

/// Opcodes that unconditionally terminate a basic block: the jumps, return,
/// revert, stop, the designated invalid byte, and selfdestruct.
pub open spec fn is_block_end_spec(b: u8) -> bool {
    b == 0x00 || b == JUMP || b == JUMPI || b == 0xF3 || b == 0xFD || b == 0xFE || b == 0xFF
}

pub fn is_block_end(b: u8) -> (r: bool)
    ensures
        r == is_block_end_spec(b),
{
    b == 0x00 || b == 0x56 || b == 0x57 || b == 0xF3 || b == 0xFD || b == 0xFE || b == 0xFF
}

/// The designated set of opcodes that leave nothing new on the stack: the
/// terminators, POP, the jumps, and the memory and storage stores.
pub open spec fn is_non_stack_increasing_spec(b: u8) -> bool {
    b == 0x00 || b == POP_OP || b == 0x52 || b == 0x53 || b == 0x55 || b == JUMP || b == JUMPI || b
        == 0xF3 || b == 0xFD || b == 0xFE || b == 0xFF
}

pub fn is_non_stack_increasing(b: u8) -> (r: bool)
    ensures
        r == is_non_stack_increasing_spec(b),
{
    b == 0x00 || b == 0x50 || b == 0x52 || b == 0x53 || b == 0x55 || b == 0x56 || b == 0x57 || b
        == 0xF3 || b == 0xFD || b == 0xFE || b == 0xFF
}

/// How many stack cells the opcode consumes (the catalog's pops column).
/// Undefined bytes consume nothing.
pub open spec fn pops_spec(b: u8) -> u8 {
    if b == 0x15 || b == 0x19 || b == 0x31 || b == 0x35 || b == 0x3B || b == 0x3F || b == 0x40 || b
        == 0x50 || b == 0x51 || b == 0x54 || b == 0x56 || b == 0xFF {
        1
    } else if (0x01 <= b && b <= 0x07) || b == 0x0A || b == 0x0B || (0x10 <= b && b <= 0x14) || (
    0x16 <= b && b <= 0x18) || (0x1A <= b && b <= 0x1D) || b == 0x20 || b == 0x52 || b == 0x53 || b
        == 0x55 || b == 0x57 || b == 0xA0 || b == 0xF3 || b == 0xFD {
        2
    } else if b == 0x08 || b == 0x09 || b == 0x37 || b == 0x39 || b == 0x3E || b == 0xA1 || b
        == 0xF0 {
        3
    } else if b == 0x3C || b == 0xA2 || b == 0xF5 {
        4
    } else if b == 0xA3 {
        5
    } else if b == 0xA4 || b == 0xF4 || b == 0xFA {
        6
    } else if b == 0xF1 || b == 0xF2 {
        7
    } else if 0x80 <= b && b <= 0x8F {
        (b - 0x7F) as u8
    } else if 0x90 <= b && b <= 0x9F {
        (b - 0x8E) as u8
    } else {
        0
    }
}

pub fn pops(b: u8) -> (r: u8)
    ensures
        r == pops_spec(b),
{
    if b == 0x15 || b == 0x19 || b == 0x31 || b == 0x35 || b == 0x3B || b == 0x3F || b == 0x40 || b
        == 0x50 || b == 0x51 || b == 0x54 || b == 0x56 || b == 0xFF {
        1
    } else if (0x01 <= b && b <= 0x07) || b == 0x0A || b == 0x0B || (0x10 <= b && b <= 0x14) || (
    0x16 <= b && b <= 0x18) || (0x1A <= b && b <= 0x1D) || b == 0x20 || b == 0x52 || b == 0x53 || b
        == 0x55 || b == 0x57 || b == 0xA0 || b == 0xF3 || b == 0xFD {
        2
    } else if b == 0x08 || b == 0x09 || b == 0x37 || b == 0x39 || b == 0x3E || b == 0xA1 || b
        == 0xF0 {
        3
    } else if b == 0x3C || b == 0xA2 || b == 0xF5 {
        4
    } else if b == 0xA3 {
        5
    } else if b == 0xA4 || b == 0xF4 || b == 0xFA {
        6
    } else if b == 0xF1 || b == 0xF2 {
        7
    } else if 0x80 <= b && b <= 0x8F {
        b - 0x7F
    } else if 0x90 <= b && b <= 0x9F {
        b - 0x8E
    } else {
        0
    }
}

} // verus!
