//! Decoding a 32-bit word into an instruction.
//!
//! Bits 22 to 24 hold the opcode, bits 19 to 21 and 16 to 18 the two
//! registers; the lowest three bits hold the destination register of an
//! R-type instruction, the lowest sixteen the offset of an I-type one.

use vstd::prelude::*;
use crate::types::{IType, ITypeOpcode, OType, OTypeOpcode, OpType, RType, RTypeOpcode};

verus! {

/// The opcode of `instruction`.
pub open spec fn opcode_of(instruction: i32) -> int {
    (instruction as int / 0x40_0000) % 8
}

/// The first register of `instruction`.
pub open spec fn reg_a_of(instruction: i32) -> int {
    (instruction as int / 0x8_0000) % 8
}

/// The second register of `instruction`.
pub open spec fn reg_b_of(instruction: i32) -> int {
    (instruction as int / 0x1_0000) % 8
}

/// The destination register of `instruction`.
pub open spec fn dest_reg_of(instruction: i32) -> int {
    instruction as int % 8
}

/// The offset of `instruction`: its lowest sixteen bits, read as a signed
/// number.
pub open spec fn offset_of(instruction: i32) -> int {
    let low = instruction as int % 0x1_0000;
    if low < 0x8000 {
        low
    } else {
        low - 0x1_0000
    }
}

/// What `instruction` stands for.
pub open spec fn decode(instruction: i32) -> OpType {
    let register_a = reg_a_of(instruction) as u8;
    let register_b = reg_b_of(instruction) as u8;
    let destination = dest_reg_of(instruction) as u8;
    let offset = offset_of(instruction) as i16;
    let opcode = opcode_of(instruction);
    if opcode == 0 {
        OpType::R(RType { code: RTypeOpcode::Add, register_a, register_b, destination })
    } else if opcode == 1 {
        OpType::R(RType { code: RTypeOpcode::Nand, register_a, register_b, destination })
    } else if opcode == 2 {
        OpType::I(IType { code: ITypeOpcode::LoadWord, register_a, register_b, offset })
    } else if opcode == 3 {
        OpType::I(IType { code: ITypeOpcode::StoreWord, register_a, register_b, offset })
    } else if opcode == 4 {
        OpType::I(IType { code: ITypeOpcode::BranchEq, register_a, register_b, offset })
    } else if opcode == 5 {
        OpType::O(OType { code: OTypeOpcode::X })
    } else if opcode == 6 {
        OpType::O(OType { code: OTypeOpcode::Halt })
    } else {
        OpType::O(OType { code: OTypeOpcode::NoOp })
    }
}

/// Decodes `instruction`. Every word stands for an instruction.
pub fn parse_instruction(instruction: i32) -> (op: OpType)
    ensures
        op == decode(instruction),
{
    let opcode = get_opcode(instruction);
    if opcode == 0b000 {
        OpType::R(
            RType {
                code: RTypeOpcode::Add,
                register_a: get_reg_a(instruction),
                register_b: get_reg_b(instruction),
                destination: get_dest_reg(instruction),
            },
        )
    } else if opcode == 0b001 {
        OpType::R(
            RType {
                code: RTypeOpcode::Nand,
                register_a: get_reg_a(instruction),
                register_b: get_reg_b(instruction),
                destination: get_dest_reg(instruction),
            },
        )
    } else if opcode == 0b010 {
        OpType::I(
            IType {
                code: ITypeOpcode::LoadWord,
                register_a: get_reg_a(instruction),
                register_b: get_reg_b(instruction),
                offset: get_offset(instruction),
            },
        )
    } else if opcode == 0b011 {
        OpType::I(
            IType {
                code: ITypeOpcode::StoreWord,
                register_a: get_reg_a(instruction),
                register_b: get_reg_b(instruction),
                offset: get_offset(instruction),
            },
        )
    } else if opcode == 0b100 {
        OpType::I(
            IType {
                code: ITypeOpcode::BranchEq,
                register_a: get_reg_a(instruction),
                register_b: get_reg_b(instruction),
                offset: get_offset(instruction),
            },
        )
    } else if opcode == 0b101 {
        OpType::O(OType { code: OTypeOpcode::X })
    } else if opcode == 0b110 {
        OpType::O(OType { code: OTypeOpcode::Halt })
    } else {
        OpType::O(OType { code: OTypeOpcode::NoOp })
    }
}

/// The opcode of `instruction`, from 0 to 7.
pub fn get_opcode(instruction: i32) -> (code: u8)
    ensures
        code == opcode_of(instruction),
{
    assert(((instruction >> 22) & 0b111) == (instruction as int / 0x40_0000) % 8) by (bit_vector);
    assert(0 <= ((instruction >> 22) & 0b111) < 8) by (bit_vector);
    ((instruction >> 22) & 0b111) as u8
}

/// The first register of `instruction`, from 0 to 7.
pub fn get_reg_a(instruction: i32) -> (register: u8)
    ensures
        register == reg_a_of(instruction),
{
    assert(((instruction >> 19) & 0b111) == (instruction as int / 0x8_0000) % 8) by (bit_vector);
    assert(0 <= ((instruction >> 19) & 0b111) < 8) by (bit_vector);
    ((instruction >> 19) & 0b111) as u8
}

/// The second register of `instruction`, from 0 to 7.
pub fn get_reg_b(instruction: i32) -> (register: u8)
    ensures
        register == reg_b_of(instruction),
{
    assert(((instruction >> 16) & 0b111) == (instruction as int / 0x1_0000) % 8) by (bit_vector);
    assert(0 <= ((instruction >> 16) & 0b111) < 8) by (bit_vector);
    ((instruction >> 16) & 0b111) as u8
}

/// The destination register of `instruction`, from 0 to 7.
pub fn get_dest_reg(instruction: i32) -> (register: u8)
    ensures
        register == dest_reg_of(instruction),
{
    assert((instruction & 0b111) == instruction as int % 8) by (bit_vector);
    assert(0 <= (instruction & 0b111) < 8) by (bit_vector);
    (instruction & 0b111) as u8
}

/// The offset of `instruction`, from -32768 to 32767.
pub fn get_offset(instruction: i32) -> (offset: i16)
    ensures
        offset == offset_of(instruction),
{
    let low: i32 = instruction & 0xFFFF;
    assert(low == instruction as int % 0x1_0000) by (bit_vector)
        requires
            low == instruction & 0xFFFF,
    ;
    assert(low < 0x8000 ==> low as i16 == low) by (bit_vector)
        requires
            0 <= low < 0x1_0000,
    ;
    assert(low >= 0x8000 ==> low as i16 == low - 0x1_0000) by (bit_vector)
        requires
            0 <= low < 0x1_0000,
    ;
    #[verifier::truncate]
    (low as i16)
}

} // verus!
