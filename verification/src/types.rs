//! The instructions of the machine.

use vstd::prelude::*;

verus! {

/// An instruction, by its format.
#[derive(Clone, Copy, Debug, PartialEq, Eq, Structural)]
pub enum OpType {
    R(RType),
    I(IType),
    O(OType),
}

/// An instruction on two source registers and a destination register.
#[derive(Clone, Copy, Debug, PartialEq, Eq, Structural)]
pub struct RType {
    pub code: RTypeOpcode,
    pub register_a: u8,
    pub register_b: u8,
    pub destination: u8,
}

/// An instruction on two registers and a signed 16-bit offset.
#[derive(Clone, Copy, Debug, PartialEq, Eq, Structural)]
pub struct IType {
    pub code: ITypeOpcode,
    pub register_a: u8,
    pub register_b: u8,
    pub offset: i16,
}

/// An instruction without operands.
#[derive(Clone, Copy, Debug, PartialEq, Eq, Structural)]
pub struct OType {
    pub code: OTypeOpcode,
}

#[derive(Clone, Copy, Debug, PartialEq, Eq, Structural)]
pub enum RTypeOpcode {
    Add,
    Nand,
}

#[derive(Clone, Copy, Debug, PartialEq, Eq, Structural)]
pub enum ITypeOpcode {
    LoadWord,
    StoreWord,
    BranchEq,
}

#[derive(Clone, Copy, Debug, PartialEq, Eq, Structural)]
pub enum OTypeOpcode {
    X,
    Halt,
    NoOp,
}

} // verus!
