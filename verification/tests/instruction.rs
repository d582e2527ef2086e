use riscv_5stage_simulator::consts;
use riscv_5stage_simulator::instruction::{Fields, Format, Function, Instruction, Opcode};

/// Instruction::default() should be a NOP
#[test]
fn nop() {
    let insn = Instruction::default();
    assert_eq!(insn.function, Function::Addi);
    assert_eq!(insn.fields.rd, Some(0));
    assert_eq!(insn.fields.rs1, Some(0));
    assert_eq!(insn.fields.imm, Some(0));
}

#[test]
fn nop_word_decodes_to_default() {
    let insn = Instruction::new(consts::NOP);
    assert_eq!(insn, Instruction::default());
    assert!(insn.is_nop());
    assert_eq!(insn.opcode, Opcode::OpImm);
    assert_eq!(insn.format, Format::I);
}

#[test]
fn decode_addi_negative_immediate() {
    // addi x10, x10, -1
    let insn = Instruction::new(0xfff5_0513);
    assert_eq!(insn.function, Function::Addi);
    assert_eq!(insn.fields.rd, Some(10));
    assert_eq!(insn.fields.rs1, Some(10));
    assert_eq!(insn.fields.rs2, None);
    assert_eq!(insn.fields.imm, Some(0xffff_ffff));
}

#[test]
fn decode_register_operations() {
    // add x3, x1, x2
    let add = Instruction::new(0x0020_81b3);
    assert_eq!(add.function, Function::Add);
    assert_eq!(add.format, Format::R);
    assert_eq!(add.fields.rs1, Some(1));
    assert_eq!(add.fields.rs2, Some(2));
    assert_eq!(add.fields.rd, Some(3));
    assert_eq!(add.fields.funct7, Some(0));
    assert_eq!(add.fields.imm, None);
    // sub x3, x1, x2
    assert_eq!(Instruction::new(0x4020_81b3).function, Function::Sub);
    // mul x3, x1, x2
    assert_eq!(Instruction::new(0x0220_81b3).function, Function::Mul);
    // divu x3, x1, x2
    assert_eq!(Instruction::new(0x0220_d1b3).function, Function::Divu);
    // sra x3, x1, x2
    assert_eq!(Instruction::new(0x4020_d1b3).function, Function::Sra);
}

#[test]
fn decode_shift_immediates() {
    // slli x1, x2, 31
    let slli = Instruction::new(0x01f1_1093);
    assert_eq!(slli.function, Function::Slli);
    assert_eq!(slli.fields.imm, Some(31));
    // srli x1, x2, 3
    assert_eq!(Instruction::new(0x0031_5093).function, Function::Srli);
    // srai x1, x2, 3: the immediate is the shift amount alone
    let srai = Instruction::new(0x4031_5093);
    assert_eq!(srai.function, Function::Srai);
    assert_eq!(srai.fields.imm, Some(3));
}

#[test]
fn decode_branch_and_jump_immediates() {
    // bne x1, x0, -4
    let bne = Instruction::new(0xfe00_9ee3);
    assert_eq!(bne.function, Function::Bne);
    assert_eq!(bne.format, Format::B);
    assert_eq!(bne.fields.rd, None);
    assert_eq!(bne.fields.imm, Some(0xffff_fffc));
    // beq x1, x2, 8
    let beq = Instruction::new(0x0020_8463);
    assert_eq!(beq.function, Function::Beq);
    assert_eq!(beq.fields.imm, Some(8));
    // jal x1, 0x34, the word 0x034000ef
    let jal = Instruction::new(0x0340_00ef);
    assert_eq!(jal.function, Function::Jal);
    assert_eq!(jal.fields.rd, Some(1));
    assert_eq!(jal.fields.imm, Some(0x34));
    // jal x0, -8
    let back = Instruction::new(0xff9f_f06f);
    assert_eq!(back.fields.imm, Some(0xffff_fff8));
    // jalr x0, 0(x1)
    let ret = Instruction::new(0x0000_8067);
    assert_eq!(ret.function, Function::Jalr);
    assert_eq!(ret.opcode, Opcode::Jalr);
}

#[test]
fn decode_upper_immediates() {
    // lui x5, 0x12345
    let lui = Instruction::new(0x1234_52b7);
    assert_eq!(lui.function, Function::Lui);
    assert_eq!(lui.fields.imm, Some(0x1234_5000));
    assert_eq!(lui.fields.rs1, None);
    // auipc x5, 0xfffff
    let auipc = Instruction::new(0xffff_f297);
    assert_eq!(auipc.function, Function::AuiPc);
    assert_eq!(auipc.fields.imm, Some(0xffff_f000));
}

#[test]
fn decode_loads_and_stores() {
    // lw x3, 0(x2)
    let lw = Instruction::new(0x0001_2183);
    assert_eq!(lw.function, Function::Lw);
    assert_eq!(lw.opcode, Opcode::Load);
    // lbu x3, -1(x2)
    let lbu = Instruction::new(0xfff1_4183);
    assert_eq!(lbu.function, Function::Lbu);
    assert_eq!(lbu.fields.imm, Some(0xffff_ffff));
    // sw x1, 0(x2)
    let sw = Instruction::new(0x0011_2023);
    assert_eq!(sw.function, Function::Sw);
    assert_eq!(sw.format, Format::S);
    assert_eq!(sw.fields.rs1, Some(2));
    assert_eq!(sw.fields.rs2, Some(1));
    assert_eq!(sw.fields.rd, None);
    // sb x1, -3(x2)
    let sb = Instruction::new(0xfe11_0ea3);
    assert_eq!(sb.function, Function::Sb);
    assert_eq!(sb.fields.imm, Some(0xffff_fffd));
}

#[test]
fn decode_system_and_atomics() {
    assert_eq!(Instruction::new(0x0000_0073).function, Function::Ecall);
    assert_eq!(Instruction::new(0x0010_0073).function, Function::Ebreak);
    assert_eq!(Instruction::new(0x0000_000f).function, Function::Fence);
    // amoswap.w x3, x2, (x1)
    let swap = Instruction::new(0x0820_a1af);
    assert_eq!(swap.function, Function::Amoswapw);
    assert_eq!(swap.opcode, Opcode::Amo);
    assert_eq!(swap.format, Format::R4);
    // lr.w x3, (x1) and sc.w x3, x2, (x1)
    assert_eq!(Instruction::new(0x1000_a1af).function, Function::Lrw);
    assert_eq!(Instruction::new(0x1820_a1af).function, Function::Scw);
    // amoadd.w, amomaxu.w
    assert_eq!(Instruction::new(0x0020_a1af).function, Function::Amoaddw);
    assert_eq!(Instruction::new(0xe020_a1af).function, Function::Amomaxuw);
}

#[test]
fn accesses_to_the_float_control_register_are_nops() {
    assert_eq!(Instruction::new(0x0030_27f3), Instruction::default());
    assert_eq!(Instruction::new(0x0035_1073), Instruction::default());
}

#[test]
fn decode_rejects_unknown_words() {
    // no such opcode
    assert_eq!(Instruction::decode(0x0000_0000), None);
    assert_eq!(Instruction::decode(0xffff_ffff), None);
    // a load with funct3 = 3
    assert_eq!(Instruction::decode(0x0001_3183), None);
    // a register operation with an unknown funct7
    assert_eq!(Instruction::decode(0x1020_81b3), None);
    // a csr access other than the two that are NOPs
    assert_eq!(Instruction::decode(0x3400_1073), None);
    assert!(Instruction::decode(0x0020_81b3).is_some());
    assert_eq!(Opcode::new(0x0000_0000), None);
    assert_eq!(Opcode::new(0x33), Some(Opcode::Op));
}

#[test]
fn float_instructions_decode() {
    // flw f1, 0(x2)
    let flw = Instruction::new(0x0001_2087);
    assert_eq!(flw.function, Function::Flw);
    assert!(flw.opcode.is_fp());
    // fadd.s f3, f1, f2
    let fadd = Instruction::new(0x0020_81d3);
    assert_eq!(fadd.function, Function::Fadds);
    assert!(!Opcode::Op.is_fp());
}

#[test]
fn formats_follow_opcodes() {
    assert_eq!(Format::from(Opcode::Lui), Format::U);
    assert_eq!(Format::from(Opcode::Jal), Format::J);
    assert_eq!(Format::from(Opcode::Branch), Format::B);
    assert_eq!(Format::from(Opcode::Store), Format::S);
    assert_eq!(Format::from(Opcode::Amo), Format::R4);
    assert_eq!(Format::from(Opcode::System), Format::I);
}

#[test]
fn fields_of_a_word() {
    let fields = Fields::new(0x0020_81b3, Format::R, Opcode::Op);
    assert_eq!(
        fields,
        Fields {
            rs1: Some(1),
            rs2: Some(2),
            rs3: None,
            rd: Some(3),
            funct2: None,
            funct3: Some(0),
            funct7: Some(0),
            imm: None,
        }
    );
    assert_eq!(
        Function::new(0x0020_81b3, &fields, Opcode::Op),
        Function::Add
    );
    assert_eq!(Function::decode(0x1020_81b3, &Fields::new(0x1020_81b3, Format::R, Opcode::Op), Opcode::Op), None);
}
