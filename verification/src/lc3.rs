//! Word-level helpers of an LC-3 interpreter: registers, operation codes,
//! condition flags and sign extension.

use vstd::prelude::*;

verus! {

/// The registers of the machine, in the order of the register file.
#[allow(non_camel_case_types)]
#[derive(Clone, Copy, PartialEq, Eq, Debug, Structural)]
pub enum Register {
    R_R0,
    R_R1,
    R_R2,
    R_R3,
    R_R4,
    R_R5,
    R_R6,
    R_R7,
    R_PC,
    R_COND,
}

/// The operations of the machine, in the order of their codes.
#[allow(non_camel_case_types)]
#[derive(Clone, Copy, PartialEq, Eq, Debug, Structural)]
pub enum InstructionSet {
    /// branch
    OP_BR,
    /// add
    OP_ADD,
    /// load
    OP_LD,
    /// store
    OP_ST,
    /// jump register
    OP_JSR,
    /// bitwise and
    OP_AND,
    /// load register
    OP_LDR,
    /// store register
    OP_STR,
    /// unused
    OP_RTI,
    /// bitwise not
    OP_NOT,
    /// load indirect
    OP_LDI,
    /// store indirect
    OP_STI,
    /// jump
    OP_JMP,
    /// reserved
    OP_RES,
    /// load effective address
    OP_LEA,
    /// execute trap
    OP_TRAP,
}

/// The sign of the value that was last written to a register.
#[allow(non_camel_case_types)]
#[derive(Clone, Copy, PartialEq, Eq, Debug, Structural)]
pub enum ConditionFlag {
    FL_POS,
    FL_ZRO,
    FL_NEG,
}

impl Register {
    /// The place of the register in the register file.
    pub open spec fn place(self) -> nat {
        match self {
            Register::R_R0 => 0,
            Register::R_R1 => 1,
            Register::R_R2 => 2,
            Register::R_R3 => 3,
            Register::R_R4 => 4,
            Register::R_R5 => 5,
            Register::R_R6 => 6,
            Register::R_R7 => 7,
            Register::R_PC => 8,
            Register::R_COND => 9,
        }
    }

    /// The place of the register in the register file.
    pub fn index(self) -> (i: usize)
        ensures
            i == self.place(),
            i < 10,
    {
        match self {
            Register::R_R0 => 0,
            Register::R_R1 => 1,
            Register::R_R2 => 2,
            Register::R_R3 => 3,
            Register::R_R4 => 4,
            Register::R_R5 => 5,
            Register::R_R6 => 6,
            Register::R_R7 => 7,
            Register::R_PC => 8,
            Register::R_COND => 9,
        }
    }
}

impl ConditionFlag {
    /// The word that stands for the flag: one bit each, from the lowest.
    pub open spec fn word(self) -> u16 {
        match self {
            ConditionFlag::FL_POS => 1,
            ConditionFlag::FL_ZRO => 2,
            ConditionFlag::FL_NEG => 4,
        }
    }

    /// The word that stands for the flag.
    pub fn bits(self) -> (w: u16)
        ensures
            w == self.word(),
    {
        match self {
            ConditionFlag::FL_POS => 1,
            ConditionFlag::FL_ZRO => 2,
            ConditionFlag::FL_NEG => 4,
        }
    }

    /// The flag for the word `value`, read as a signed number.
    pub open spec fn of(value: u16) -> ConditionFlag {
        if value == 0 {
            ConditionFlag::FL_ZRO
        } else if value >= 0x8000 {
            ConditionFlag::FL_NEG
        } else {
            ConditionFlag::FL_POS
        }
    }
}

impl InstructionSet {
    /// The code of the operation.
    pub open spec fn code(self) -> u16 {
        match self {
            InstructionSet::OP_BR => 0,
            InstructionSet::OP_ADD => 1,
            InstructionSet::OP_LD => 2,
            InstructionSet::OP_ST => 3,
            InstructionSet::OP_JSR => 4,
            InstructionSet::OP_AND => 5,
            InstructionSet::OP_LDR => 6,
            InstructionSet::OP_STR => 7,
            InstructionSet::OP_RTI => 8,
            InstructionSet::OP_NOT => 9,
            InstructionSet::OP_LDI => 10,
            InstructionSet::OP_STI => 11,
            InstructionSet::OP_JMP => 12,
            InstructionSet::OP_RES => 13,
            InstructionSet::OP_LEA => 14,
            InstructionSet::OP_TRAP => 15,
        }
    }

    /// The operation with the code `value`.
    pub fn from_u16(value: u16) -> (operation: InstructionSet)
        requires
            value < 16,
        ensures
            operation.code() == value,
    {
        match value {
            0 => InstructionSet::OP_BR,
            1 => InstructionSet::OP_ADD,
            2 => InstructionSet::OP_LD,
            3 => InstructionSet::OP_ST,
            4 => InstructionSet::OP_JSR,
            5 => InstructionSet::OP_AND,
            6 => InstructionSet::OP_LDR,
            7 => InstructionSet::OP_STR,
            8 => InstructionSet::OP_RTI,
            9 => InstructionSet::OP_NOT,
            10 => InstructionSet::OP_LDI,
            11 => InstructionSet::OP_STI,
            12 => InstructionSet::OP_JMP,
            13 => InstructionSet::OP_RES,
            14 => InstructionSet::OP_LEA,
            _ => InstructionSet::OP_TRAP,
        }
    }

    /// The operation of the instruction `instr`: its four highest bits.
    pub fn decode(instr: u16) -> (operation: InstructionSet)
        ensures
            operation.code() == instr / 4096,
    {
        assert(instr >> 12 == instr / 4096) by (bit_vector);
        Self::from_u16(instr >> 12)
    }
}

/// The word of `memory` at the address `instruct`.
pub fn read_memory(instruct: &u16, memory: &mut [u16; 65536]) -> (word: u16)
    ensures
        word == old(memory)[*instruct as int],
        *final(memory) == *old(memory),
{
    memory[*instruct as usize]
}

/// The word `value`, whose lowest `bit_count` bits hold a signed number,
/// with the sign of that number in all higher bits.
pub open spec fn extended(value: u16, bit_count: u16) -> u16 {
    if (value >> ((bit_count - 1) as u16)) & 1 == 1 {
        value | (0xFFFFu16 << bit_count)
    } else {
        value
    }
}

/// Extends the signed number in the lowest `bit_count` bits of `value` to
/// the whole word.
pub fn sign_extend(value: u16, bit_count: i32) -> (word: u16)
    requires
        1 <= bit_count <= 15,
    ensures
        word == extended(value, bit_count as u16),
{
    let mut t = value;
    let count: u16 = bit_count as u16;
    if ((t >> (count - 1)) & 1) == 1 {
        t |= 0xFFFFu16 << count;
    }
    t
}

/// Sets the condition register to the sign of the value in register `r`.
pub fn update_flags(registers: &mut [u16; 10], r: u16)
    requires
        r < 10,
    ensures
        final(registers)@ == old(registers)@.update(
            Register::R_COND.place() as int,
            ConditionFlag::of(old(registers)[r as int]).word(),
        ),
{
    let value: u16 = registers[r as usize];
    assert(value >> 15 == 1 <==> value >= 0x8000) by (bit_vector);
    let flag = if value == 0 {
        ConditionFlag::FL_ZRO
    } else if value >> 15 == 1 {
        ConditionFlag::FL_NEG
    } else {
        ConditionFlag::FL_POS
    };
    registers[Register::R_COND.index()] = flag.bits();
}

} // verus!
