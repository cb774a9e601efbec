use browser_engine::lc3::{read_memory, sign_extend, update_flags, ConditionFlag, InstructionSet, Register};

#[test]
fn operations_have_their_codes() {
    let all = [
        InstructionSet::OP_BR,
        InstructionSet::OP_ADD,
        InstructionSet::OP_LD,
        InstructionSet::OP_ST,
        InstructionSet::OP_JSR,
        InstructionSet::OP_AND,
        InstructionSet::OP_LDR,
        InstructionSet::OP_STR,
        InstructionSet::OP_RTI,
        InstructionSet::OP_NOT,
        InstructionSet::OP_LDI,
        InstructionSet::OP_STI,
        InstructionSet::OP_JMP,
        InstructionSet::OP_RES,
        InstructionSet::OP_LEA,
        InstructionSet::OP_TRAP,
    ];
    for (code, operation) in all.iter().enumerate() {
        assert_eq!(InstructionSet::from_u16(code as u16), *operation);
    }
}

#[test]
fn operation_is_in_the_highest_bits() {
    assert_eq!(InstructionSet::decode(0x0000), InstructionSet::OP_BR);
    assert_eq!(InstructionSet::decode(0x1234), InstructionSet::OP_ADD);
    assert_eq!(InstructionSet::decode(0x2EE0), InstructionSet::OP_LD);
    assert_eq!(InstructionSet::decode(0xF025), InstructionSet::OP_TRAP);
    assert_eq!(InstructionSet::decode(0xEFFF), InstructionSet::OP_LEA);
}

#[test]
fn registers_and_flags() {
    assert_eq!(Register::R_R0.index(), 0);
    assert_eq!(Register::R_R7.index(), 7);
    assert_eq!(Register::R_PC.index(), 8);
    assert_eq!(Register::R_COND.index(), 9);
    assert_eq!(ConditionFlag::FL_POS.bits(), 1);
    assert_eq!(ConditionFlag::FL_ZRO.bits(), 2);
    assert_eq!(ConditionFlag::FL_NEG.bits(), 4);
}

#[test]
fn sign_is_extended_to_the_whole_word() {
    assert_eq!(sign_extend(0x001F, 5), 0xFFFF);
    assert_eq!(sign_extend(0x0010, 5), 0xFFF0);
    assert_eq!(sign_extend(0x000F, 5), 0x000F);
    assert_eq!(sign_extend(0x0000, 5), 0x0000);
    assert_eq!(sign_extend(0x0001, 1), 0xFFFF);
    assert_eq!(sign_extend(0x00FF, 9), 0x00FF);
    assert_eq!(sign_extend(0x01FF, 9), 0xFFFF);
    assert_eq!(sign_extend(0x4000, 15), 0xC000);
    assert_eq!(sign_extend(0x0030, 5), 0xFFF0);
}

#[test]
fn flags_follow_the_sign() {
    let mut registers: [u16; 10] = [0, 5, 0x8000, 0xFFFF, 0x7FFF, 0, 0, 0, 0x3000, 0];
    update_flags(&mut registers, 0);
    assert_eq!(registers[9], 2);
    update_flags(&mut registers, 1);
    assert_eq!(registers[9], 1);
    update_flags(&mut registers, 2);
    assert_eq!(registers[9], 4);
    update_flags(&mut registers, 3);
    assert_eq!(registers[9], 4);
    update_flags(&mut registers, 4);
    assert_eq!(registers[9], 1);
    update_flags(&mut registers, 9);
    assert_eq!(registers[9], 1);
    assert_eq!(&registers[..9], &[0, 5, 0x8000, 0xFFFF, 0x7FFF, 0, 0, 0, 0x3000]);
}

#[test]
fn memory_is_read_by_address() {
    let mut memory: Vec<u16> = vec![0; 65536];
    memory[0x3001] = 0x1234;
    memory[0xFFFF] = 7;
    let mut boxed: Box<[u16; 65536]> = memory.into_boxed_slice().try_into().unwrap();
    assert_eq!(read_memory(&0x3001, &mut boxed), 0x1234);
    assert_eq!(read_memory(&0xFFFF, &mut boxed), 7);
    assert_eq!(read_memory(&0, &mut boxed), 0);
}

#[test]
fn test_bit_shifting() {
    // 12000 is 0x2EE0: its four highest bits hold 2
    let val: u16 = 12000;
    let es: u16 = val >> 12;

    assert_eq!(es + 1, 3);
}

#[test]
fn test_sign_extend() {
    // a shift to the right keeps the sign, so every bit of -1 stays set
    let val = (-1 >> (5 - 1)) & 1;
    assert_eq!(val, 1);
}
