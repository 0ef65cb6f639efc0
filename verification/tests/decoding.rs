use cache_sim::parser::{
    get_dest_reg, get_offset, get_opcode, get_reg_a, get_reg_b, parse_instruction,
};
use cache_sim::types::{IType, ITypeOpcode, OType, OTypeOpcode, OpType, RType, RTypeOpcode};

fn word(opcode: i32, reg_a: i32, reg_b: i32, low: i32) -> i32 {
    (opcode << 22) | (reg_a << 19) | (reg_b << 16) | (low & 0xFFFF)
}

#[test]
fn add_is_opcode_zero() {
    assert_eq!(
        parse_instruction(word(0, 1, 2, 3)),
        OpType::R(RType {
            code: RTypeOpcode::Add,
            register_a: 1,
            register_b: 2,
            destination: 3
        })
    );
    assert_eq!(
        parse_instruction(0),
        OpType::R(RType {
            code: RTypeOpcode::Add,
            register_a: 0,
            register_b: 0,
            destination: 0
        })
    );
}

#[test]
fn nand_is_opcode_one() {
    assert_eq!(
        parse_instruction(word(1, 7, 6, 5)),
        OpType::R(RType {
            code: RTypeOpcode::Nand,
            register_a: 7,
            register_b: 6,
            destination: 5
        })
    );
}

#[test]
fn load_store_and_branch_carry_an_offset() {
    assert_eq!(
        parse_instruction(8454149),
        OpType::I(IType {
            code: ITypeOpcode::LoadWord,
            register_a: 0,
            register_b: 1,
            offset: 5
        })
    );
    assert_eq!(
        parse_instruction(word(3, 4, 5, 32767)),
        OpType::I(IType {
            code: ITypeOpcode::StoreWord,
            register_a: 4,
            register_b: 5,
            offset: 32767
        })
    );
    assert_eq!(
        parse_instruction(word(4, 2, 2, -3)),
        OpType::I(IType {
            code: ITypeOpcode::BranchEq,
            register_a: 2,
            register_b: 2,
            offset: -3
        })
    );
}

#[test]
fn offset_is_read_as_a_signed_number() {
    assert_eq!(get_offset(0x7FFF), 32767);
    assert_eq!(get_offset(0x8000), -32768);
    assert_eq!(get_offset(0xFFFF), -1);
    assert_eq!(get_offset(0x1_0000), 0);
    assert_eq!(get_offset(-1), -1);
    assert_eq!(get_offset(i32::MIN), 0);
    assert_eq!(get_offset(word(2, 7, 7, -32768)), -32768);
}

#[test]
fn instructions_without_operands() {
    assert_eq!(
        parse_instruction(word(5, 0, 0, 0)),
        OpType::O(OType {
            code: OTypeOpcode::X
        })
    );
    assert_eq!(
        parse_instruction(25165824),
        OpType::O(OType {
            code: OTypeOpcode::Halt
        })
    );
    assert_eq!(
        parse_instruction(29360128),
        OpType::O(OType {
            code: OTypeOpcode::NoOp
        })
    );
    // The other fields of such a word do not matter.
    assert_eq!(
        parse_instruction(word(6, 3, 4, 99)),
        OpType::O(OType {
            code: OTypeOpcode::Halt
        })
    );
}

#[test]
fn bits_above_the_opcode_do_not_matter() {
    let high = 0x7E00_0000;
    assert_eq!(get_opcode(high | word(3, 1, 2, 4)), 3);
    assert_eq!(
        parse_instruction(high | word(1, 1, 2, 4)),
        parse_instruction(word(1, 1, 2, 4))
    );
    // A negative word: every bit set.
    assert_eq!(get_opcode(-1), 7);
    assert_eq!(get_reg_a(-1), 7);
    assert_eq!(get_reg_b(-1), 7);
    assert_eq!(get_dest_reg(-1), 7);
    assert_eq!(
        parse_instruction(-1),
        OpType::O(OType {
            code: OTypeOpcode::NoOp
        })
    );
    assert_eq!(get_opcode(i32::MIN), 0);
}

#[test]
fn fields_are_three_bits_each() {
    for opcode in 0..8 {
        for reg_a in 0..8 {
            for reg_b in 0..8 {
                let w = word(opcode, reg_a, reg_b, 0xABCD);
                assert_eq!(get_opcode(w) as i32, opcode);
                assert_eq!(get_reg_a(w) as i32, reg_a);
                assert_eq!(get_reg_b(w) as i32, reg_b);
                assert_eq!(get_dest_reg(w), 0b101);
            }
        }
    }
}
