//! Instruction words and their decoding.
//!
//! A 32-bit word is decoded in four steps: the opcode (the low seven bits),
//! the format that the opcode implies, the fields that the format defines, and
//! the mnemonic that opcode and fields select. Each step has a spec function
//! that says what it yields, and the executable step is proved against it.

use vstd::prelude::*;
use crate::consts;

verus! {

/// RISC-V opcodes: the category of an instruction.
#[derive(Clone, Copy, Debug, PartialEq, Eq, Structural)]
pub enum Opcode {
    Lui,
    AuiPc,
    Jal,
    Jalr,
    Branch,
    Load,
    Store,
    Op,
    OpImm,
    MiscMem,
    System,
    Amo,
    LoadFp,
    StoreFp,
    OpFp,
    Fmadd,
    Fmsub,
    Fnmadd,
    Fnmsub,
}

impl Opcode {
    /// The opcode that the low seven bits of `value` select, if any.
    pub open spec fn decoded(value: u32) -> Option<Opcode> {
        let opcode = value & consts::OPCODE_MASK;
        if opcode == 0b0110111 {
            Some(Opcode::Lui)
        } else if opcode == 0b0010111 {
            Some(Opcode::AuiPc)
        } else if opcode == 0b1101111 {
            Some(Opcode::Jal)
        } else if opcode == 0b1100111 {
            Some(Opcode::Jalr)
        } else if opcode == 0b1100011 {
            Some(Opcode::Branch)
        } else if opcode == 0b0000011 {
            Some(Opcode::Load)
        } else if opcode == 0b0100011 {
            Some(Opcode::Store)
        } else if opcode == 0b0110011 {
            Some(Opcode::Op)
        } else if opcode == 0b0010011 {
            Some(Opcode::OpImm)
        } else if opcode == 0b0001111 {
            Some(Opcode::MiscMem)
        } else if opcode == 0b1110011 {
            Some(Opcode::System)
        } else if opcode == 0b0101111 {
            Some(Opcode::Amo)
        } else if opcode == 0b0000111 {
            Some(Opcode::LoadFp)
        } else if opcode == 0b0100111 {
            Some(Opcode::StoreFp)
        } else if opcode == 0b1000011 {
            Some(Opcode::Fmadd)
        } else if opcode == 0b1000111 {
            Some(Opcode::Fmsub)
        } else if opcode == 0b1001011 {
            Some(Opcode::Fnmsub)
        } else if opcode == 0b1001111 {
            Some(Opcode::Fnmadd)
        } else if opcode == 0b1010011 {
            Some(Opcode::OpFp)
        } else {
            None
        }
    }

    /// Reads the opcode of an instruction word; `None` for a word whose low
    /// seven bits name no opcode.
    pub fn new(value: u32) -> (opcode: Option<Opcode>)
        ensures
            opcode == Opcode::decoded(value),
    {
        let opcode: u32 = value & consts::OPCODE_MASK;
        match opcode {
            0b0110111 => Some(Opcode::Lui),
            0b0010111 => Some(Opcode::AuiPc),
            0b1101111 => Some(Opcode::Jal),
            0b1100111 => Some(Opcode::Jalr),
            0b1100011 => Some(Opcode::Branch),
            0b0000011 => Some(Opcode::Load),
            0b0100011 => Some(Opcode::Store),
            0b0110011 => Some(Opcode::Op),
            0b0010011 => Some(Opcode::OpImm),
            0b0001111 => Some(Opcode::MiscMem),
            0b1110011 => Some(Opcode::System),
            0b0101111 => Some(Opcode::Amo),
            0b0000111 => Some(Opcode::LoadFp),
            0b0100111 => Some(Opcode::StoreFp),
            0b1000011 => Some(Opcode::Fmadd),
            0b1000111 => Some(Opcode::Fmsub),
            0b1001011 => Some(Opcode::Fnmsub),
            0b1001111 => Some(Opcode::Fnmadd),
            0b1010011 => Some(Opcode::OpFp),
            _ => None,
        }
    }

    /// Whether the opcode belongs to the floating-point extension.
    pub open spec fn is_float(self) -> bool {
        self is Fmadd || self is Fmsub || self is Fnmadd || self is Fnmsub || self is OpFp
            || self is StoreFp || self is LoadFp
    }

    /// Tells a floating-point opcode from the others.
    pub fn is_fp(&self) -> (r: bool)
        ensures
            r == self.is_float(),
    {
        match self {
            Opcode::Fmadd
            | Opcode::Fmsub
            | Opcode::Fnmadd
            | Opcode::Fnmsub
            | Opcode::OpFp
            | Opcode::StoreFp
            | Opcode::LoadFp => true,
            _ => false,
        }
    }
}

/// RISC-V instruction formats.
#[derive(Clone, Copy, Debug, PartialEq, Eq, Structural)]
pub enum Format {
    R,
    R4,
    I,
    S,
    B,
    U,
    J,
}

impl Format {
    /// The format in which instructions of `opcode` are laid out.
    pub open spec fn of(opcode: Opcode) -> Format {
        match opcode {
            Opcode::Lui | Opcode::AuiPc => Format::U,
            Opcode::Jal => Format::J,
            Opcode::Jalr | Opcode::Load | Opcode::LoadFp | Opcode::OpImm | Opcode::MiscMem
            | Opcode::System => Format::I,
            Opcode::Branch => Format::B,
            Opcode::Store | Opcode::StoreFp => Format::S,
            Opcode::Op | Opcode::OpFp => Format::R,
            Opcode::Fmadd | Opcode::Fmsub | Opcode::Fnmadd | Opcode::Fnmsub | Opcode::Amo => {
                Format::R4
            },
        }
    }
}

impl From<Opcode> for Format {
    fn from(opcode: Opcode) -> (format: Format) {
        match opcode {
            Opcode::Lui => Format::U,
            Opcode::AuiPc => Format::U,
            Opcode::Jal => Format::J,
            Opcode::Jalr => Format::I,
            Opcode::Branch => Format::B,
            Opcode::Load | Opcode::LoadFp => Format::I,
            Opcode::Store | Opcode::StoreFp => Format::S,
            Opcode::Op | Opcode::OpFp => Format::R,
            Opcode::OpImm => Format::I,
            Opcode::MiscMem => Format::I,
            Opcode::System => Format::I,
            Opcode::Fmadd | Opcode::Fmsub | Opcode::Fnmadd | Opcode::Fnmsub | Opcode::Amo => {
                Format::R4
            },
        }
    }
}

impl vstd::std_specs::convert::FromSpecImpl<Opcode> for Format {
    open spec fn obeys_from_spec() -> bool {
        true
    }

    open spec fn from_spec(opcode: Opcode) -> Format {
        Format::of(opcode)
    }
}

/// The bits of `inst` under `mask`, moved down by `shift` places.
pub open spec fn bit_field(inst: u32, mask: u32, shift: u8) -> u8 {
    ((inst & mask) >> shift) as u8
}

/// Extracts a field of at most eight bits from an instruction word.
pub fn extract_field(inst: u32, mask: u32, shift: u8) -> (field: u8)
    requires
        shift < 32,
        (mask >> shift) <= 0xff,
    ensures
        field == bit_field(inst, mask, shift),
        field <= (mask >> shift),
{
    assert(((inst & mask) >> shift) <= (mask >> shift)) by (bit_vector)
        requires
            shift < 32,
    ;
    ((inst & mask) >> shift) as u8
}

/// `value`, whose low `width` bits are significant, with bit `width - 1`
/// copied into every higher bit.
pub open spec fn sign_extended(value: u32, width: u32) -> u32 {
    if width >= 32 {
        value
    } else if value & (1u32 << ((width - 1) as u32)) != 0 {
        value | (0xffff_ffffu32 << width)
    } else {
        value
    }
}

/// Sign-extends the low `width` bits of `value` to 32 bits.
pub fn sign_extend(value: u32, width: u32) -> (extended: u32)
    requires
        1 <= width <= 32,
    ensures
        extended == sign_extended(value, width),
{
    if width >= 32 {
        value
    } else if value & (1u32 << (width - 1)) != 0 {
        value | (0xffff_ffffu32 << width)
    } else {
        value
    }
}

/// The fields of an instruction word. A field that the word's format does not
/// define is `None`; the immediate is sign-extended to 32 bits.
#[derive(Clone, Copy, Debug, Default, PartialEq, Eq, Structural)]
pub struct Fields {
    pub rs1: Option<u8>,
    pub rs2: Option<u8>,
    pub rs3: Option<u8>,
    pub rd: Option<u8>,
    pub funct2: Option<u8>,
    pub funct3: Option<u8>,
    pub funct7: Option<u8>,
    pub imm: Option<u32>,
}

impl Fields {
    /// The immediate bits of `inst` as its format scatters them, gathered
    /// into one number and not yet sign-extended.
    pub open spec fn raw_immediate(inst: u32, format: Format, opcode: Opcode) -> u32 {
        let funct3 = bit_field(inst, consts::FUNCT3_MASK, consts::FUNCT3_SHIFT);
        match format {
            Format::R | Format::R4 => 0,
            Format::I => if opcode == Opcode::OpImm && (funct3 == 0x1 || funct3 == 0x5) {
                (inst & consts::RS2_MASK) >> consts::RS2_SHIFT
            } else {
                (inst & 0xfff00000) >> 20u32
            },
            Format::S => ((inst & 0xfe000000) >> 20u32) | ((inst & 0xf80) >> 7u32),
            Format::B => ((inst & 0x80000000) >> 19u32) | ((inst & 0x80) << 4u32) | ((inst
                & 0x7e000000) >> 20u32) | ((inst & 0xf00) >> 7u32),
            Format::U => inst & 0xfffff000,
            Format::J => ((inst & 0x80000000) >> 11u32) | (inst & 0xff000) | ((inst & 0x100000)
                >> 9u32) | ((inst & 0x7fe00000) >> 20u32),
        }
    }

    /// The number of significant bits in the immediate of an instruction of
    /// `opcode`.
    pub open spec fn immediate_width(opcode: Opcode) -> u32 {
        match opcode {
            Opcode::Lui | Opcode::AuiPc => 32,
            Opcode::Jal => 21,
            Opcode::Branch => 13,
            _ => 12,
        }
    }

    /// The sign-extended immediate of `inst`.
    pub open spec fn immediate(inst: u32, format: Format, opcode: Opcode) -> u32 {
        sign_extended(Fields::raw_immediate(inst, format, opcode), Fields::immediate_width(opcode))
    }

    /// The fields of `inst` when read in `format`.
    pub open spec fn decoded(inst: u32, format: Format, opcode: Opcode) -> Fields {
        let rs1 = bit_field(inst, consts::RS1_MASK, consts::RS1_SHIFT);
        let rs2 = bit_field(inst, consts::RS2_MASK, consts::RS2_SHIFT);
        let rs3 = bit_field(inst, consts::RS3_MASK, consts::RS3_SHIFT);
        let rd = bit_field(inst, consts::RD_MASK, consts::RD_SHIFT);
        let funct2 = bit_field(inst, consts::FUNCT2_MASK, consts::FUNCT2_SHIFT);
        let funct3 = bit_field(inst, consts::FUNCT3_MASK, consts::FUNCT3_SHIFT);
        let funct7 = bit_field(inst, consts::FUNCT7_MASK, consts::FUNCT7_SHIFT);
        let imm = Fields::immediate(inst, format, opcode);
        match format {
            Format::R => Fields {
                rs1: Some(rs1),
                rs2: Some(rs2),
                rs3: None,
                rd: Some(rd),
                funct2: None,
                funct3: Some(funct3),
                funct7: Some(funct7),
                imm: None,
            },
            Format::R4 => Fields {
                rs1: Some(rs1),
                rs2: Some(rs2),
                rs3: Some(rs3),
                rd: Some(rd),
                funct2: Some(funct2),
                funct3: Some(funct3),
                funct7: None,
                imm: None,
            },
            Format::I => Fields {
                rs1: Some(rs1),
                rs2: None,
                rs3: None,
                rd: Some(rd),
                funct2: None,
                funct3: Some(funct3),
                funct7: None,
                imm: Some(imm),
            },
            Format::S | Format::B => Fields {
                rs1: Some(rs1),
                rs2: Some(rs2),
                rs3: None,
                rd: None,
                funct2: None,
                funct3: Some(funct3),
                funct7: None,
                imm: Some(imm),
            },
            Format::J | Format::U => Fields {
                rs1: None,
                rs2: None,
                rs3: None,
                rd: Some(rd),
                funct2: None,
                funct3: None,
                funct7: None,
                imm: Some(imm),
            },
        }
    }

    /// Every register number among the fields is below 32.
    pub open spec fn registers_in_range(self) -> bool {
        &&& self.rs1 matches Some(r) ==> r < 32
        &&& self.rs2 matches Some(r) ==> r < 32
        &&& self.rs3 matches Some(r) ==> r < 32
        &&& self.rd matches Some(r) ==> r < 32
    }

    /// Splits an instruction word into the fields of its format.
    pub fn new(inst: u32, format: Format, opcode: Opcode) -> (fields: Fields)
        ensures
            fields == Fields::decoded(inst, format, opcode),
            fields.registers_in_range(),
    {
        assert(consts::RS1_MASK >> consts::RS1_SHIFT == 31 && consts::RS2_MASK
            >> consts::RS2_SHIFT == 31 && consts::RS3_MASK >> consts::RS3_SHIFT == 31
            && consts::RD_MASK >> consts::RD_SHIFT == 31 && consts::FUNCT2_MASK
            >> consts::FUNCT2_SHIFT == 3 && consts::FUNCT3_MASK >> consts::FUNCT3_SHIFT == 7
            && consts::FUNCT7_MASK >> consts::FUNCT7_SHIFT == 127) by (bit_vector);
        let rs1: u8 = extract_field(inst, consts::RS1_MASK, consts::RS1_SHIFT);
        let rs2: u8 = extract_field(inst, consts::RS2_MASK, consts::RS2_SHIFT);
        let rs3: u8 = extract_field(inst, consts::RS3_MASK, consts::RS3_SHIFT);
        let rd: u8 = extract_field(inst, consts::RD_MASK, consts::RD_SHIFT);
        let funct2: u8 = extract_field(inst, consts::FUNCT2_MASK, consts::FUNCT2_SHIFT);
        let funct3: u8 = extract_field(inst, consts::FUNCT3_MASK, consts::FUNCT3_SHIFT);
        let funct7: u8 = extract_field(inst, consts::FUNCT7_MASK, consts::FUNCT7_SHIFT);
        let raw: u32 = match format {
            Format::R | Format::R4 => 0,
            Format::I => if opcode == Opcode::OpImm && (funct3 == 0x1 || funct3 == 0x5) {
                (inst & consts::RS2_MASK) >> consts::RS2_SHIFT
            } else {
                (inst & 0xfff00000) >> 20u32
            },
            Format::S => ((inst & 0xfe000000) >> 20u32) | ((inst & 0xf80) >> 7u32),
            Format::B => ((inst & 0x80000000) >> 19u32) | ((inst & 0x80) << 4u32) | ((inst
                & 0x7e000000) >> 20u32) | ((inst & 0xf00) >> 7u32),
            Format::U => inst & 0xfffff000,
            Format::J => ((inst & 0x80000000) >> 11u32) | (inst & 0xff000) | ((inst & 0x100000)
                >> 9u32) | ((inst & 0x7fe00000) >> 20u32),
        };
        let width: u32 = match opcode {
            Opcode::Lui | Opcode::AuiPc => 32,
            Opcode::Jal => 21,
            Opcode::Branch => 13,
            _ => 12,
        };
        let imm: u32 = sign_extend(raw, width);
        match format {
            Format::R => Fields {
                rs1: Some(rs1),
                rs2: Some(rs2),
                rs3: None,
                rd: Some(rd),
                funct2: None,
                funct3: Some(funct3),
                funct7: Some(funct7),
                imm: None,
            },
            Format::R4 => Fields {
                rs1: Some(rs1),
                rs2: Some(rs2),
                rs3: Some(rs3),
                rd: Some(rd),
                funct2: Some(funct2),
                funct3: Some(funct3),
                funct7: None,
                imm: None,
            },
            Format::I => Fields {
                rs1: Some(rs1),
                rs2: None,
                rs3: None,
                rd: Some(rd),
                funct2: None,
                funct3: Some(funct3),
                funct7: None,
                imm: Some(imm),
            },
            Format::S | Format::B => Fields {
                rs1: Some(rs1),
                rs2: Some(rs2),
                rs3: None,
                rd: None,
                funct2: None,
                funct3: Some(funct3),
                funct7: None,
                imm: Some(imm),
            },
            Format::J | Format::U => Fields {
                rs1: None,
                rs2: None,
                rs3: None,
                rd: Some(rd),
                funct2: None,
                funct3: None,
                funct7: None,
                imm: Some(imm),
            },
        }
    }
}

/// RISC-V mnemonics of the RV32IMA and single-precision instruction sets.
#[derive(Clone, Copy, Debug, PartialEq, Eq, Structural)]
pub enum Function {
    /// Load upper immediate
    Lui,
    /// Add upper immediate to PC
    AuiPc,
    /// Jump and link
    Jal,
    /// Jump and link register
    Jalr,
    /// Branch if equal
    Beq,
    /// Branch if not equal
    Bne,
    /// Branch if less than
    Blt,
    /// Branch if greater or equal
    Bge,
    /// Branch if less than (unsigned)
    Bltu,
    /// Branch if greater or equal (unsigned)
    Bgeu,
    /// Load byte
    Lb,
    /// Load halfword
    Lh,
    /// Load word
    Lw,
    /// Load byte (unsigned)
    Lbu,
    /// Load halfword (unsigned)
    Lhu,
    /// Store byte
    Sb,
    /// Store halfword
    Sh,
    /// Store word
    Sw,
    /// Add immediate
    Addi,
    /// Set less than immediate
    Slti,
    /// Set less than immediate (unsigned)
    Sltiu,
    /// Exclusive or immediate
    Xori,
    /// Logical or immediate
    Ori,
    /// Logical and immediate
    Andi,
    /// Shift left logical immediate
    Slli,
    /// Shift right logical immediate
    Srli,
    /// Shift right arithmetic immediate
    Srai,
    /// Add
    Add,
    /// Subtract
    Sub,
    /// Shift left logical
    Sll,
    /// Set less than
    Slt,
    /// Set less than unsigned
    Sltu,
    /// Exclusive or
    Xor,
    /// Shift right logical
    Srl,
    /// Shift right arithmetic
    Sra,
    /// Logical or
    Or,
    /// Logical and
    And,
    Fence,
    Fencei,
    Ecall,
    Ebreak,
    Mul,
    Mulh,
    Mulhsu,
    Mulhu,
    Div,
    Divu,
    Rem,
    Remu,
    Lrw,
    Scw,
    Amoswapw,
    Amoaddw,
    Amoxorw,
    Amoandw,
    Amoorw,
    Amominw,
    Amomaxw,
    Amominuw,
    Amomaxuw,
    Flw,
    Fsw,
    Fmadds,
    Fmsubs,
    Fnmsubs,
    Fnmadds,
    Fadds,
    Fsubs,
    Fmuls,
    Fdivs,
    Fsqrts,
    Fsgnjs,
    Fsgnjns,
    Fsgnjxs,
    Fmins,
    Fmaxs,
    Fcvtws,
    Fcvtwus,
    Fmvxw,
    Feqs,
    Flts,
    Fles,
    Fclasss,
    Fcvtsw,
    Fcvtswu,
    Fmvwx,
}

impl Function {
    /// The branch that `funct3` selects.
    pub open spec fn branch(funct3: u8) -> Option<Function> {
        if funct3 == 0b000 {
            Some(Function::Beq)
        } else if funct3 == 0b001 {
            Some(Function::Bne)
        } else if funct3 == 0b100 {
            Some(Function::Blt)
        } else if funct3 == 0b101 {
            Some(Function::Bge)
        } else if funct3 == 0b110 {
            Some(Function::Bltu)
        } else if funct3 == 0b111 {
            Some(Function::Bgeu)
        } else {
            None
        }
    }

    /// The load that `funct3` selects.
    pub open spec fn load(funct3: u8) -> Option<Function> {
        if funct3 == 0b000 {
            Some(Function::Lb)
        } else if funct3 == 0b001 {
            Some(Function::Lh)
        } else if funct3 == 0b010 {
            Some(Function::Lw)
        } else if funct3 == 0b100 {
            Some(Function::Lbu)
        } else if funct3 == 0b101 {
            Some(Function::Lhu)
        } else {
            None
        }
    }

    /// The store that `funct3` selects.
    pub open spec fn store(funct3: u8) -> Option<Function> {
        if funct3 == 0b000 {
            Some(Function::Sb)
        } else if funct3 == 0b001 {
            Some(Function::Sh)
        } else if funct3 == 0b010 {
            Some(Function::Sw)
        } else {
            None
        }
    }

    /// The register-immediate operation that `funct3` and, for the right
    /// shifts, the top seven bits of the word select.
    pub open spec fn op_imm(funct3: u8, top7: u8) -> Option<Function> {
        if funct3 == 0b000 {
            Some(Function::Addi)
        } else if funct3 == 0b010 {
            Some(Function::Slti)
        } else if funct3 == 0b011 {
            Some(Function::Sltiu)
        } else if funct3 == 0b100 {
            Some(Function::Xori)
        } else if funct3 == 0b110 {
            Some(Function::Ori)
        } else if funct3 == 0b111 {
            Some(Function::Andi)
        } else if funct3 == 0b001 {
            Some(Function::Slli)
        } else if funct3 == 0b101 && top7 == 0 {
            Some(Function::Srli)
        } else if funct3 == 0b101 && top7 == 0b0100000 {
            Some(Function::Srai)
        } else {
            None
        }
    }

    /// The register-register operation that `funct3` and `funct7` select.
    pub open spec fn op(funct3: u8, funct7: u8) -> Option<Function> {
        if funct7 == 0 {
            if funct3 == 0b000 {
                Some(Function::Add)
            } else if funct3 == 0b001 {
                Some(Function::Sll)
            } else if funct3 == 0b010 {
                Some(Function::Slt)
            } else if funct3 == 0b011 {
                Some(Function::Sltu)
            } else if funct3 == 0b100 {
                Some(Function::Xor)
            } else if funct3 == 0b101 {
                Some(Function::Srl)
            } else if funct3 == 0b110 {
                Some(Function::Or)
            } else if funct3 == 0b111 {
                Some(Function::And)
            } else {
                None
            }
        } else if funct7 == 0b0100000 {
            if funct3 == 0b000 {
                Some(Function::Sub)
            } else if funct3 == 0b101 {
                Some(Function::Sra)
            } else {
                None
            }
        } else if funct7 == 1 {
            if funct3 == 0b000 {
                Some(Function::Mul)
            } else if funct3 == 0b001 {
                Some(Function::Mulh)
            } else if funct3 == 0b010 {
                Some(Function::Mulhsu)
            } else if funct3 == 0b011 {
                Some(Function::Mulhu)
            } else if funct3 == 0b100 {
                Some(Function::Div)
            } else if funct3 == 0b101 {
                Some(Function::Divu)
            } else if funct3 == 0b110 {
                Some(Function::Rem)
            } else if funct3 == 0b111 {
                Some(Function::Remu)
            } else {
                None
            }
        } else {
            None
        }
    }

    /// The atomic operation on a word that the top five bits of the
    /// instruction (`funct5`) select; `funct3` must name the word width.
    pub open spec fn amo(funct3: u8, funct5: u8) -> Option<Function> {
        if funct3 != 0b010 {
            None
        } else if funct5 == 0b00010 {
            Some(Function::Lrw)
        } else if funct5 == 0b00011 {
            Some(Function::Scw)
        } else if funct5 == 0b00001 {
            Some(Function::Amoswapw)
        } else if funct5 == 0b00000 {
            Some(Function::Amoaddw)
        } else if funct5 == 0b00100 {
            Some(Function::Amoxorw)
        } else if funct5 == 0b01100 {
            Some(Function::Amoandw)
        } else if funct5 == 0b01000 {
            Some(Function::Amoorw)
        } else if funct5 == 0b10000 {
            Some(Function::Amominw)
        } else if funct5 == 0b10100 {
            Some(Function::Amomaxw)
        } else if funct5 == 0b11000 {
            Some(Function::Amominuw)
        } else if funct5 == 0b11100 {
            Some(Function::Amomaxuw)
        } else {
            None
        }
    }

    /// The single-precision operation that `funct7`, `funct3` and the `rs2`
    /// field select.
    pub open spec fn op_fp(funct3: u8, funct7: u8, rs2: u8) -> Option<Function> {
        if funct7 == 0b0000000 {
            Some(Function::Fadds)
        } else if funct7 == 0b0000100 {
            Some(Function::Fsubs)
        } else if funct7 == 0b0001000 {
            Some(Function::Fmuls)
        } else if funct7 == 0b0001100 {
            Some(Function::Fdivs)
        } else if funct7 == 0b0101100 {
            if rs2 == 0 {
                Some(Function::Fsqrts)
            } else {
                None
            }
        } else if funct7 == 0b0010000 {
            if funct3 == 0b000 {
                Some(Function::Fsgnjs)
            } else if funct3 == 0b001 {
                Some(Function::Fsgnjns)
            } else if funct3 == 0b010 {
                Some(Function::Fsgnjxs)
            } else {
                None
            }
        } else if funct7 == 0b0010100 {
            if funct3 == 0b000 {
                Some(Function::Fmins)
            } else if funct3 == 0b001 {
                Some(Function::Fmaxs)
            } else {
                None
            }
        } else if funct7 == 0b1100000 {
            if rs2 == 1 {
                Some(Function::Fcvtwus)
            } else {
                Some(Function::Fcvtws)
            }
        } else if funct7 == 0b1110000 {
            if funct3 == 0b000 && rs2 == 0 {
                Some(Function::Fmvxw)
            } else if funct3 == 0b001 && rs2 == 0 {
                Some(Function::Fclasss)
            } else {
                None
            }
        } else if funct7 == 0b1010000 {
            if funct3 == 0b010 {
                Some(Function::Feqs)
            } else if funct3 == 0b001 {
                Some(Function::Flts)
            } else if funct3 == 0b000 {
                Some(Function::Fles)
            } else {
                None
            }
        } else if funct7 == 0b1101000 {
            if rs2 == 1 {
                Some(Function::Fcvtswu)
            } else {
                Some(Function::Fcvtsw)
            }
        } else if funct7 == 0b1111000 {
            if funct3 == 0b000 && rs2 == 0 {
                Some(Function::Fmvwx)
            } else {
                None
            }
        } else {
            None
        }
    }

    /// The mnemonic of the word `inst` with the given fields and opcode, or
    /// `None` where the encoding names no instruction of the supported sets.
    /// A field that the format leaves out rules the encoding out as well.
    pub open spec fn decoded(inst: u32, fields: Fields, opcode: Opcode) -> Option<Function> {
        let top7 = bit_field(inst, consts::FUNCT7_MASK, consts::FUNCT7_SHIFT);
        match opcode {
            Opcode::Lui => Some(Function::Lui),
            Opcode::AuiPc => Some(Function::AuiPc),
            Opcode::Jal => Some(Function::Jal),
            Opcode::Jalr => Some(Function::Jalr),
            Opcode::LoadFp => Some(Function::Flw),
            Opcode::StoreFp => Some(Function::Fsw),
            Opcode::Fmadd => Some(Function::Fmadds),
            Opcode::Fmsub => Some(Function::Fmsubs),
            Opcode::Fnmadd => Some(Function::Fnmadds),
            Opcode::Fnmsub => Some(Function::Fnmsubs),
            Opcode::Branch => match fields.funct3 {
                Some(funct3) => Function::branch(funct3),
                None => None,
            },
            Opcode::Load => match fields.funct3 {
                Some(funct3) => Function::load(funct3),
                None => None,
            },
            Opcode::Store => match fields.funct3 {
                Some(funct3) => Function::store(funct3),
                None => None,
            },
            Opcode::OpImm => match fields.funct3 {
                Some(funct3) => Function::op_imm(funct3, top7),
                None => None,
            },
            Opcode::Op => match (fields.funct3, fields.funct7) {
                (Some(funct3), Some(funct7)) => Function::op(funct3, funct7),
                _ => None,
            },
            Opcode::MiscMem => match fields.funct3 {
                Some(funct3) => if funct3 == 0b000 {
                    Some(Function::Fence)
                } else if funct3 == 0b001 {
                    Some(Function::Fencei)
                } else {
                    None
                },
                None => None,
            },
            Opcode::System => match fields.funct3 {
                Some(funct3) => if funct3 != 0 {
                    None
                } else if fields.imm == Some(1u32) {
                    Some(Function::Ebreak)
                } else {
                    Some(Function::Ecall)
                },
                None => None,
            },
            Opcode::Amo => match (fields.funct3, fields.rs3) {
                (Some(funct3), Some(funct5)) => Function::amo(funct3, funct5),
                _ => None,
            },
            Opcode::OpFp => match (fields.funct3, fields.funct7, fields.rs2) {
                (Some(funct3), Some(funct7), Some(rs2)) => Function::op_fp(funct3, funct7, rs2),
                _ => None,
            },
        }
    }

    fn new_branch(funct3: u8) -> (function: Option<Function>)
        ensures
            function == Function::branch(funct3),
    {
        match funct3 {
            0b000 => Some(Function::Beq),
            0b001 => Some(Function::Bne),
            0b100 => Some(Function::Blt),
            0b101 => Some(Function::Bge),
            0b110 => Some(Function::Bltu),
            0b111 => Some(Function::Bgeu),
            _ => None,
        }
    }

    fn new_load(funct3: u8) -> (function: Option<Function>)
        ensures
            function == Function::load(funct3),
    {
        match funct3 {
            0b000 => Some(Function::Lb),
            0b001 => Some(Function::Lh),
            0b010 => Some(Function::Lw),
            0b100 => Some(Function::Lbu),
            0b101 => Some(Function::Lhu),
            _ => None,
        }
    }

    fn new_store(funct3: u8) -> (function: Option<Function>)
        ensures
            function == Function::store(funct3),
    {
        match funct3 {
            0b000 => Some(Function::Sb),
            0b001 => Some(Function::Sh),
            0b010 => Some(Function::Sw),
            _ => None,
        }
    }

    fn new_op_imm(funct3: u8, top7: u8) -> (function: Option<Function>)
        ensures
            function == Function::op_imm(funct3, top7),
    {
        match funct3 {
            0b000 => Some(Function::Addi),
            0b010 => Some(Function::Slti),
            0b011 => Some(Function::Sltiu),
            0b100 => Some(Function::Xori),
            0b110 => Some(Function::Ori),
            0b111 => Some(Function::Andi),
            0b001 => Some(Function::Slli),
            0b101 => if top7 == 0 {
                Some(Function::Srli)
            } else if top7 == 0b0100000 {
                Some(Function::Srai)
            } else {
                None
            },
            _ => None,
        }
    }

    fn new_op(funct3: u8, funct7: u8) -> (function: Option<Function>)
        ensures
            function == Function::op(funct3, funct7),
    {
        match (funct7, funct3) {
            (0, 0b000) => Some(Function::Add),
            (0, 0b001) => Some(Function::Sll),
            (0, 0b010) => Some(Function::Slt),
            (0, 0b011) => Some(Function::Sltu),
            (0, 0b100) => Some(Function::Xor),
            (0, 0b101) => Some(Function::Srl),
            (0, 0b110) => Some(Function::Or),
            (0, 0b111) => Some(Function::And),
            (0b0100000, 0b000) => Some(Function::Sub),
            (0b0100000, 0b101) => Some(Function::Sra),
            (1, 0b000) => Some(Function::Mul),
            (1, 0b001) => Some(Function::Mulh),
            (1, 0b010) => Some(Function::Mulhsu),
            (1, 0b011) => Some(Function::Mulhu),
            (1, 0b100) => Some(Function::Div),
            (1, 0b101) => Some(Function::Divu),
            (1, 0b110) => Some(Function::Rem),
            (1, 0b111) => Some(Function::Remu),
            _ => None,
        }
    }

    fn new_amo(funct3: u8, funct5: u8) -> (function: Option<Function>)
        ensures
            function == Function::amo(funct3, funct5),
    {
        if funct3 != 0b010 {
            return None;
        }
        match funct5 {
            0b00010 => Some(Function::Lrw),
            0b00011 => Some(Function::Scw),
            0b00001 => Some(Function::Amoswapw),
            0b00000 => Some(Function::Amoaddw),
            0b00100 => Some(Function::Amoxorw),
            0b01100 => Some(Function::Amoandw),
            0b01000 => Some(Function::Amoorw),
            0b10000 => Some(Function::Amominw),
            0b10100 => Some(Function::Amomaxw),
            0b11000 => Some(Function::Amominuw),
            0b11100 => Some(Function::Amomaxuw),
            _ => None,
        }
    }

    fn new_op_fp(funct3: u8, funct7: u8, rs2: u8) -> (function: Option<Function>)
        ensures
            function == Function::op_fp(funct3, funct7, rs2),
    {
        match funct7 {
            0b0000000 => Some(Function::Fadds),
            0b0000100 => Some(Function::Fsubs),
            0b0001000 => Some(Function::Fmuls),
            0b0001100 => Some(Function::Fdivs),
            0b0101100 => if rs2 == 0 {
                Some(Function::Fsqrts)
            } else {
                None
            },
            0b0010000 => match funct3 {
                0b000 => Some(Function::Fsgnjs),
                0b001 => Some(Function::Fsgnjns),
                0b010 => Some(Function::Fsgnjxs),
                _ => None,
            },
            0b0010100 => match funct3 {
                0b000 => Some(Function::Fmins),
                0b001 => Some(Function::Fmaxs),
                _ => None,
            },
            0b1100000 => if rs2 == 1 {
                Some(Function::Fcvtwus)
            } else {
                Some(Function::Fcvtws)
            },
            0b1110000 => if funct3 == 0b000 && rs2 == 0 {
                Some(Function::Fmvxw)
            } else if funct3 == 0b001 && rs2 == 0 {
                Some(Function::Fclasss)
            } else {
                None
            },
            0b1010000 => match funct3 {
                0b010 => Some(Function::Feqs),
                0b001 => Some(Function::Flts),
                0b000 => Some(Function::Fles),
                _ => None,
            },
            0b1101000 => if rs2 == 1 {
                Some(Function::Fcvtswu)
            } else {
                Some(Function::Fcvtsw)
            },
            0b1111000 => if funct3 == 0b000 && rs2 == 0 {
                Some(Function::Fmvwx)
            } else {
                None
            },
            _ => None,
        }
    }

    /// Decodes the mnemonic of an instruction word; `None` where the encoding
    /// names no instruction.
    pub fn decode(inst: u32, fields: &Fields, opcode: Opcode) -> (function: Option<Function>)
        ensures
            function == Function::decoded(inst, *fields, opcode),
    {
        assert(consts::FUNCT7_MASK >> consts::FUNCT7_SHIFT == 127) by (bit_vector);
        match opcode {
            Opcode::Lui => Some(Function::Lui),
            Opcode::AuiPc => Some(Function::AuiPc),
            Opcode::Jal => Some(Function::Jal),
            Opcode::Jalr => Some(Function::Jalr),
            Opcode::LoadFp => Some(Function::Flw),
            Opcode::StoreFp => Some(Function::Fsw),
            Opcode::Fmadd => Some(Function::Fmadds),
            Opcode::Fmsub => Some(Function::Fmsubs),
            Opcode::Fnmadd => Some(Function::Fnmadds),
            Opcode::Fnmsub => Some(Function::Fnmsubs),
            Opcode::Branch => match fields.funct3 {
                Some(funct3) => Function::new_branch(funct3),
                None => None,
            },
            Opcode::Load => match fields.funct3 {
                Some(funct3) => Function::new_load(funct3),
                None => None,
            },
            Opcode::Store => match fields.funct3 {
                Some(funct3) => Function::new_store(funct3),
                None => None,
            },
            Opcode::OpImm => match fields.funct3 {
                Some(funct3) => {
                    let top7: u8 = extract_field(inst, consts::FUNCT7_MASK, consts::FUNCT7_SHIFT);
                    Function::new_op_imm(funct3, top7)
                },
                None => None,
            },
            Opcode::Op => match (fields.funct3, fields.funct7) {
                (Some(funct3), Some(funct7)) => Function::new_op(funct3, funct7),
                _ => None,
            },
            Opcode::MiscMem => match fields.funct3 {
                Some(0b000) => Some(Function::Fence),
                Some(0b001) => Some(Function::Fencei),
                _ => None,
            },
            Opcode::System => match fields.funct3 {
                Some(0) => match fields.imm {
                    Some(1) => Some(Function::Ebreak),
                    _ => Some(Function::Ecall),
                },
                _ => None,
            },
            Opcode::Amo => match (fields.funct3, fields.rs3) {
                (Some(funct3), Some(funct5)) => Function::new_amo(funct3, funct5),
                _ => None,
            },
            Opcode::OpFp => match (fields.funct3, fields.funct7, fields.rs2) {
                (Some(funct3), Some(funct7), Some(rs2)) => Function::new_op_fp(funct3, funct7, rs2),
                _ => None,
            },
        }
    }

    /// Decodes the mnemonic of an instruction word that names an instruction.
    pub fn new(inst: u32, fields: &Fields, opcode: Opcode) -> (function: Function)
        requires
            Function::decoded(inst, *fields, opcode) is Some,
        ensures
            Some(function) == Function::decoded(inst, *fields, opcode),
    {
        match Function::decode(inst, fields, opcode) {
            Some(function) => function,
            None => Function::Addi,
        }
    }

    /// Whether the mnemonic is a load-reserved, a store-conditional or an
    /// atomic read-modify-write.
    pub open spec fn is_atomic(self) -> bool {
        self is Lrw || self is Scw || self is Amoswapw || self is Amoaddw || self is Amoxorw
            || self is Amoandw || self is Amoorw || self is Amominw || self is Amomaxw
            || self is Amominuw || self is Amomaxuw
    }

    /// The cycles that the arithmetic unit needs for the operation.
    pub open spec fn latency(self) -> usize {
        match self {
            Function::Mul | Function::Mulh | Function::Mulhsu | Function::Mulhu => {
                consts::MUL_CYCLE
            },
            Function::Div | Function::Divu | Function::Rem | Function::Remu => consts::DIV_CYCLE,
            _ => consts::ADD_CYCLE,
        }
    }
}

/// A single decoded machine instruction.
#[derive(Clone, Copy, Debug, PartialEq, Eq, Structural)]
pub struct Instruction {
    /// The instruction word.
    pub value: u32,
    /// Category of the instruction, e.g., load, branch, or op.
    pub opcode: Opcode,
    /// Format associated with the opcode, e.g., R-type or I-type.
    pub format: Format,
    /// The subfields of the word.
    pub fields: Fields,
    /// The instruction's mnemonic, e.g., JAL, XOR, or SRA.
    pub function: Function,
}

impl Instruction {
    /// The canonical NOP, `addi x0, x0, 0`.
    pub open spec fn nop() -> Instruction {
        Instruction {
            value: consts::NOP,
            opcode: Opcode::OpImm,
            format: Format::I,
            fields: Fields {
                rs1: Some(0u8),
                rs2: None,
                rs3: None,
                rd: Some(0u8),
                funct2: None,
                funct3: Some(0u8),
                funct7: None,
                imm: Some(0u32),
            },
            function: Function::Addi,
        }
    }

    /// The two accesses to the floating-point control register that are
    /// executed as a NOP.
    pub open spec fn is_fcsr_access(value: u32) -> bool {
        value == 0x003027f3 || value == 0x00351073
    }

    /// Whether `value` encodes an instruction that the decoder knows.
    pub open spec fn decodable(value: u32) -> bool {
        Instruction::is_fcsr_access(value) || match Opcode::decoded(value) {
            Some(opcode) => Function::decoded(
                value,
                Fields::decoded(value, Format::of(opcode), opcode),
                opcode,
            ) is Some,
            None => false,
        }
    }

    /// The instruction that a decodable `value` encodes.
    pub open spec fn decoded(value: u32) -> Instruction {
        if Instruction::is_fcsr_access(value) {
            Instruction::nop()
        } else {
            let opcode = Opcode::decoded(value).unwrap();
            let format = Format::of(opcode);
            let fields = Fields::decoded(value, format, opcode);
            Instruction {
                value,
                opcode,
                format,
                fields,
                function: Function::decoded(value, fields, opcode).unwrap(),
            }
        }
    }

    /// Whether format, fields and mnemonic are those that go with the opcode:
    /// the format is the opcode's, the fields that the format defines are
    /// present with register numbers below 32, and the mnemonic is one of the
    /// opcode's. Every decoded instruction is consistent.
    pub open spec fn consistent(self) -> bool {
        &&& self.format == Format::of(self.opcode)
        &&& self.fields.registers_in_range()
        &&& self.format is R || self.format is R4 || self.format is S || self.format is B
            ==> self.fields.rs1 is Some && self.fields.rs2 is Some
        &&& self.format is I ==> self.fields.rs1 is Some
        &&& self.format is I || self.format is S || self.format is B || self.format is U
            || self.format is J ==> self.fields.imm is Some
        &&& self.format is S || self.format is B <==> self.fields.rd is None
        &&& self.opcode is Load ==> self.function is Lb || self.function is Lbu
            || self.function is Lh || self.function is Lhu || self.function is Lw
        &&& self.opcode is Store ==> self.function is Sb || self.function is Sh
            || self.function is Sw
        &&& self.opcode is Amo ==> self.function.is_atomic()
        &&& self.function.is_atomic() ==> self.opcode is Amo
        &&& self.function is Ecall ==> self.opcode is System
        &&& self.function is Jalr <==> self.opcode is Jalr
    }

    /// Decodes an instruction word, or returns `None` for a word that encodes
    /// no known instruction.
    pub fn decode(value: u32) -> (inst: Option<Instruction>)
        ensures
            inst is Some <==> Instruction::decodable(value),
            inst matches Some(i) ==> i == Instruction::decoded(value) && i.consistent(),
    {
        if value == 0x003027f3 || value == 0x00351073 {
            return Some(Instruction::default());
        }
        let opcode = match Opcode::new(value) {
            Some(opcode) => opcode,
            None => {
                return None;
            },
        };
        let format: Format = Format::from(opcode);
        let fields = Fields::new(value, format, opcode);
        match Function::decode(value, &fields, opcode) {
            Some(function) => Some(Instruction { value, opcode, format, fields, function }),
            None => None,
        }
    }

    /// Decodes an instruction word that encodes a known instruction.
    pub fn new(value: u32) -> (inst: Instruction)
        requires
            Instruction::decodable(value),
        ensures
            inst == Instruction::decoded(value),
            inst.consistent(),
    {
        match Instruction::decode(value) {
            Some(inst) => inst,
            None => Instruction::default(),
        }
    }

    /// Whether the instruction is the canonical NOP.
    pub fn is_nop(&self) -> (r: bool)
        ensures
            r == (self.value == consts::NOP),
    {
        self.value == consts::NOP
    }
}

impl Default for Instruction {
    /// Constructs a canonical NOP encoded as ADDI x0, x0, 0.
    fn default() -> (inst: Instruction)
        ensures
            inst == Instruction::nop(),
            inst.consistent(),
    {
        Instruction {
            value: consts::NOP,
            opcode: Opcode::OpImm,
            format: Format::I,
            fields: Fields {
                rs1: Some(0),
                rs2: None,
                rs3: None,
                rd: Some(0),
                funct2: None,
                funct3: Some(0),
                funct7: None,
                imm: Some(0),
            },
            function: Function::Addi,
        }
    }
}

/// A field of five bits is a number below 32.
proof fn lemma_register_fields_in_range(inst: u32)
    ensures
        bit_field(inst, consts::RS1_MASK, consts::RS1_SHIFT) < 32,
        bit_field(inst, consts::RS2_MASK, consts::RS2_SHIFT) < 32,
        bit_field(inst, consts::RS3_MASK, consts::RS3_SHIFT) < 32,
        bit_field(inst, consts::RD_MASK, consts::RD_SHIFT) < 32,
{
    assert(((inst & 0xf8000) >> 15u8) < 32 && ((inst & 0x1f00000) >> 20u8) < 32 && ((inst
        & 0xf8000000) >> 27u8) < 32 && ((inst & 0xf80) >> 7u8) < 32) by (bit_vector);
}

/// Every instruction that the decoder yields is consistent.
pub proof fn lemma_decoded_consistent(value: u32)
    requires
        Instruction::decodable(value),
    ensures
        Instruction::decoded(value).consistent(),
{
    lemma_register_fields_in_range(value);
}

/// The NOP word decodes to the canonical NOP instruction.
pub proof fn lemma_nop_decodes()
    ensures
        Instruction::decodable(consts::NOP),
        Instruction::decoded(consts::NOP) == Instruction::nop(),
{
    let v: u32 = consts::NOP;
    assert(v & 0x7f == 0x13 && ((v & 0xf8000) >> 15u8) as u8 == 0 && ((v & 0xf80) >> 7u8) as u8
        == 0 && ((v & 0x7000) >> 12u8) as u8 == 0 && ((v & 0xfe000000) >> 25u8) as u8 == 0 && (v
        & 0x1f00000) >> 20u8 == 0 && (v & 0xfff00000) >> 20u32 == 0 && 0u32 & (1u32 << 11u32)
        == 0) by (bit_vector)
        requires
            v == 0x13,
    ;
}

} // verus!
