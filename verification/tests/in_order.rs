use riscv_5stage_simulator::alu::alu;
use riscv_5stage_simulator::instruction::{Function, Instruction, Opcode};
use riscv_5stage_simulator::memory::ProcessMemory;
use riscv_5stage_simulator::pipeline::syscall::{HostCall, HostReply};
use riscv_5stage_simulator::pipeline::{Pipeline, Status};

const BASE: u32 = 0x1000;
const DATA: u32 = 0x2000;
const STACK_SIZE: u32 = 0x1000;

fn r_type(funct7: u32, rs2: u32, rs1: u32, funct3: u32, rd: u32, opcode: u32) -> u32 {
    (funct7 << 25) | (rs2 << 20) | (rs1 << 15) | (funct3 << 12) | (rd << 7) | opcode
}

fn i_type(imm: i32, rs1: u32, funct3: u32, rd: u32, opcode: u32) -> u32 {
    (((imm as u32) & 0xfff) << 20) | (rs1 << 15) | (funct3 << 12) | (rd << 7) | opcode
}

fn s_type(imm: i32, rs2: u32, rs1: u32, funct3: u32) -> u32 {
    let imm = imm as u32;
    (((imm >> 5) & 0x7f) << 25)
        | (rs2 << 20)
        | (rs1 << 15)
        | (funct3 << 12)
        | ((imm & 0x1f) << 7)
        | 0x23
}

fn b_type(imm: i32, rs2: u32, rs1: u32, funct3: u32) -> u32 {
    let imm = imm as u32;
    (((imm >> 12) & 1) << 31)
        | (((imm >> 5) & 0x3f) << 25)
        | (rs2 << 20)
        | (rs1 << 15)
        | (funct3 << 12)
        | (((imm >> 1) & 0xf) << 8)
        | (((imm >> 11) & 1) << 7)
        | 0x63
}

fn j_type(imm: i32, rd: u32) -> u32 {
    let imm = imm as u32;
    (((imm >> 20) & 1) << 31)
        | (((imm >> 1) & 0x3ff) << 21)
        | (((imm >> 11) & 1) << 20)
        | (((imm >> 12) & 0xff) << 12)
        | (rd << 7)
        | 0x6f
}

fn addi(rd: u32, rs1: u32, imm: i32) -> u32 {
    i_type(imm, rs1, 0, rd, 0x13)
}

fn op(funct7: u32, funct3: u32, rd: u32, rs1: u32, rs2: u32) -> u32 {
    r_type(funct7, rs2, rs1, funct3, rd, 0x33)
}

fn lui(rd: u32, imm: u32) -> u32 {
    (imm & 0xffff_f000) | (rd << 7) | 0x37
}

fn load(funct3: u32, rd: u32, rs1: u32, imm: i32) -> u32 {
    i_type(imm, rs1, funct3, rd, 0x03)
}

fn store(funct3: u32, rs2: u32, rs1: u32, imm: i32) -> u32 {
    s_type(imm, rs2, rs1, funct3)
}

fn amo(funct5: u32, rd: u32, rs2: u32, rs1: u32) -> u32 {
    (funct5 << 27) | (rs2 << 20) | (rs1 << 15) | (2 << 12) | (rd << 7) | 0x2f
}

const ECALL: u32 = 0x0000_0073;

/// An image with `program` at `BASE` and 64 bytes of data at `DATA`.
fn image(program: &[u32]) -> ProcessMemory {
    let mut bytes: Vec<u8> = Vec::new();
    for word in program {
        bytes.extend_from_slice(&word.to_le_bytes());
    }
    assert!(bytes.len() <= (DATA - BASE) as usize);
    bytes.resize((DATA - BASE) as usize, 0);
    bytes.extend((0u8..64).map(|i| i.wrapping_mul(37).wrapping_add(11)));
    ProcessMemory {
        v_address_range: (BASE, BASE + bytes.len() as u32),
        read_only_range: (0, 0),
        stack_range: (0u32.wrapping_sub(STACK_SIZE), 0),
        data: bytes,
        stack: vec![0; STACK_SIZE as usize],
        stack_pointer_init: 0u32.wrapping_sub(16),
    }
}

/// A machine that executes one instruction after the other.
struct Machine {
    pc: u32,
    gpr: [u32; 32],
    memory: ProcessMemory,
}

impl Machine {
    fn put(&mut self, rd: Option<u8>, value: u32) {
        if let Some(rd) = rd {
            if rd != 0 {
                self.gpr[rd as usize] = value;
            }
        }
    }

    /// Executes the instruction at `pc`; returns false when the program
    /// exits.
    fn step(&mut self) -> bool {
        let word = self.memory.read_inst(self.pc).unwrap();
        let mut inst = Instruction::decode(word).unwrap();
        if inst.opcode.is_fp() {
            inst = Instruction::default();
        }
        let imm = inst.fields.imm.unwrap_or(0);
        let first = self.gpr[inst.fields.rs1.unwrap_or(0) as usize];
        let second = match inst.fields.rs2 {
            Some(rs2) => self.gpr[rs2 as usize],
            None => imm,
        };
        let next = self.pc.wrapping_add(4);
        let compute = |a: u32, b: u32| alu(&inst.function, a as i32, b as i32) as u32;
        match inst.opcode {
            Opcode::Lui => {
                self.put(inst.fields.rd, imm);
                self.pc = next;
            }
            Opcode::AuiPc => {
                self.put(inst.fields.rd, self.pc.wrapping_add(imm));
                self.pc = next;
            }
            Opcode::Jal => {
                self.put(inst.fields.rd, next);
                self.pc = self.pc.wrapping_add(imm);
            }
            Opcode::Jalr => {
                self.put(inst.fields.rd, next);
                self.pc = first.wrapping_add(imm);
            }
            Opcode::Branch => {
                self.pc = if compute(first, second) == 1 {
                    self.pc.wrapping_add(imm)
                } else {
                    next
                };
            }
            Opcode::Load => {
                let address = first.wrapping_add(imm);
                let value = match inst.function {
                    Function::Lb => self.memory.read::<i8>(address).unwrap() as u32,
                    Function::Lbu => self.memory.read::<u8>(address).unwrap() as u32,
                    Function::Lh => self.memory.read::<i16>(address).unwrap() as u32,
                    Function::Lhu => self.memory.read::<u16>(address).unwrap() as u32,
                    _ => self.memory.read::<u32>(address).unwrap(),
                };
                self.put(inst.fields.rd, value);
                self.pc = next;
            }
            Opcode::Store => {
                let address = first.wrapping_add(imm);
                match inst.function {
                    Function::Sb => self.memory.write(address, second as u8).unwrap(),
                    Function::Sh => self.memory.write(address, second as u16).unwrap(),
                    _ => self.memory.write(address, second).unwrap(),
                }
                self.pc = next;
            }
            Opcode::Amo => {
                let address = first;
                if inst.function == Function::Scw {
                    self.memory.write(address, second).unwrap();
                    self.put(inst.fields.rd, 0);
                } else {
                    let old = self.memory.read::<u32>(address).unwrap();
                    let new = match inst.function {
                        Function::Lrw => None,
                        Function::Amoswapw => Some(second),
                        Function::Amoaddw => Some(old.wrapping_add(second)),
                        Function::Amoxorw => Some(old ^ second),
                        Function::Amoandw => Some(old & second),
                        Function::Amoorw => Some(old | second),
                        Function::Amominw => Some((old as i32).min(second as i32) as u32),
                        Function::Amomaxw => Some((old as i32).max(second as i32) as u32),
                        Function::Amominuw => Some(old.min(second)),
                        _ => Some(old.max(second)),
                    };
                    if let Some(new) = new {
                        self.memory.write(address, new).unwrap();
                    }
                    self.put(inst.fields.rd, old);
                }
                self.pc = next;
            }
            _ => {
                if inst.function == Function::Ecall {
                    match self.gpr[17] {
                        93 | 94 => {
                            self.gpr[10] = 0;
                            return false;
                        }
                        174 | 175 => self.gpr[10] = 1000,
                        other => panic!("system call {} in a test", other),
                    }
                } else {
                    self.put(inst.fields.rd, compute(first, second));
                }
                self.pc = next;
            }
        }
        true
    }
}

/// Runs `program` on the pipeline and in program order, and compares: the
/// addresses of the instructions that retire, the registers, and memory.
fn compare(program: &[u32]) -> Pipeline {
    let mut machine = Machine {
        pc: BASE,
        gpr: [0; 32],
        memory: image(program),
    };
    machine.gpr[2] = machine.memory.stack_pointer_init;
    let mut expected_pcs: Vec<u32> = Vec::new();
    loop {
        expected_pcs.push(machine.pc);
        assert!(expected_pcs.len() < 10_000);
        if !machine.step() {
            break;
        }
    }

    let mut pipeline = Pipeline::new(BASE, image(program));
    let mut pcs: Vec<u32> = Vec::new();
    let mut finished = false;
    for _ in 0..100_000 {
        let (retired, mut status) = pipeline.run_clock();
        pcs.extend(retired.iter().map(|(_, entry)| entry.pc));
        if let Status::Host(call) = &status {
            let reply = match call {
                HostCall::GetUid | HostCall::GetEuid => HostReply::Value(1000),
                _ => HostReply::Failed,
            };
            status = pipeline.resume_clock(call, &reply);
        }
        match status {
            Status::Running => {}
            Status::Finished => {
                finished = true;
                break;
            }
            other => panic!("unexpected status {:?}", other),
        }
    }
    assert!(finished);
    assert_eq!(pcs, expected_pcs);
    let gpr: Vec<u32> = pipeline.reg.gpr.iter().map(|r| r.read()).collect();
    assert_eq!(gpr, machine.gpr.to_vec());
    assert_eq!(pipeline.memory.data, machine.memory.data);
    assert_eq!(pipeline.memory.stack, machine.memory.stack);
    pipeline
}

fn exit() -> [u32; 2] {
    [addi(17, 0, 93), ECALL]
}

#[test]
fn arithmetic_with_dependencies() {
    let mut program = vec![
        addi(1, 0, 37),
        addi(2, 0, -5),
        op(1, 0, 3, 1, 2),  // mul
        op(1, 4, 4, 3, 2),  // div
        op(1, 6, 5, 1, 2),  // rem
        op(0, 0, 6, 3, 4),  // add
        op(0x20, 0, 7, 6, 5),  // sub
        op(0, 1, 8, 7, 1),  // sll
        op(0x20, 5, 9, 8, 1),  // sra
        op(1, 1, 10, 9, 8),  // mulh
        op(1, 3, 11, 9, 8),  // mulhu
        op(0, 2, 12, 2, 1),  // slt
        op(0, 3, 13, 2, 1),  // sltu
        op(1, 5, 14, 2, 0),  // divu by zero
        addi(15, 14, 1),
        op(0, 4, 16, 10, 11),  // xor
    ];
    program.extend_from_slice(&exit());
    let pipeline = compare(&program);
    assert_eq!(pipeline.reg.gpr[3].read(), (-185i32) as u32);
    assert_eq!(pipeline.reg.gpr[4].read(), 37);
    assert_eq!(pipeline.reg.gpr[14].read(), u32::MAX);
    assert_eq!(pipeline.reg.gpr[15].read(), 0);
}

#[test]
fn sum_in_a_loop() {
    // x1 = 10; x2 = 0; L: x2 += x1; x1 -= 1; bnez x1, L
    let mut program = vec![
        addi(1, 0, 10),
        addi(2, 0, 0),
        op(0, 0, 2, 2, 1),
        addi(1, 1, -1),
        b_type(-8, 0, 1, 1),
    ];
    program.extend_from_slice(&exit());
    let pipeline = compare(&program);
    assert_eq!(pipeline.reg.gpr[2].read(), 55);
}

#[test]
fn nested_branches() {
    // counts the numbers below 12 that are even, and those not below 5
    let mut program = vec![
        addi(1, 0, 0),
        addi(5, 0, 12),
        addi(6, 0, 5),
        // L:
        i_type(1, 1, 7, 4, 0x13),  // andi x4, x1, 1
        b_type(8, 0, 4, 1),         // bnez x4, +8
        addi(12, 12, 1),
        b_type(8, 6, 1, 6),         // bltu x1, x6, +8
        addi(13, 13, 1),
        addi(1, 1, 1),
        b_type(-24, 5, 1, 4),       // blt x1, x5, L
    ];
    program.extend_from_slice(&exit());
    let pipeline = compare(&program);
    assert_eq!(pipeline.reg.gpr[12].read(), 6);
    assert_eq!(pipeline.reg.gpr[13].read(), 7);
}

#[test]
fn calls_and_returns() {
    // main: x10 = 3; call double; call double; exit.  double: x10 += x10; ret
    let program = vec![
        addi(10, 0, 3),
        j_type(20, 1),     // jal x1, double
        j_type(16, 1),     // jal x1, double
        addi(11, 10, 0),
        addi(17, 0, 93),
        ECALL,
        // double:
        op(0, 0, 10, 10, 10),
        i_type(0, 1, 0, 0, 0x67),  // jalr x0, 0(x1)
    ];
    let pipeline = compare(&program);
    assert_eq!(pipeline.reg.gpr[11].read(), 12);
}

#[test]
fn words_in_memory() {
    let mut program = vec![
        lui(5, DATA),
        addi(1, 0, 0x123),
        store(2, 1, 5, 0),
        load(2, 2, 5, 0),
        addi(2, 2, 1),
        store(2, 2, 5, 4),
        load(2, 3, 5, 4),
        load(2, 4, 5, 8),
        store(2, 4, 5, 0),
        load(2, 6, 5, 0),
        op(0, 0, 7, 3, 6),
    ];
    program.extend_from_slice(&exit());
    let pipeline = compare(&program);
    assert_eq!(pipeline.reg.gpr[3].read(), 0x124);
    assert_eq!(pipeline.memory.read_u32(DATA), pipeline.memory.read_u32(DATA + 8));
}

#[test]
fn bytes_and_halfwords_in_memory() {
    // every access has an address of its own, or the address of a store of
    // the same width before it
    let mut program = vec![
        lui(5, DATA),
        addi(1, 0, -2),
        store(0, 1, 5, 16),
        load(0, 2, 5, 16),
        load(4, 3, 5, 16),
        store(1, 1, 5, 20),
        load(1, 4, 5, 20),
        load(5, 6, 5, 20),
        load(0, 7, 5, 1),
        load(5, 8, 5, 2),
        store(0, 7, 5, 24),
        load(4, 9, 5, 24),
    ];
    program.extend_from_slice(&exit());
    let pipeline = compare(&program);
    assert_eq!(pipeline.reg.gpr[2].read(), 0xffff_fffe);
    assert_eq!(pipeline.reg.gpr[3].read(), 0xfe);
    assert_eq!(pipeline.reg.gpr[4].read(), 0xffff_fffe);
    assert_eq!(pipeline.reg.gpr[6].read(), 0xfffe);
}

#[test]
fn addresses_that_depend_on_slow_results() {
    // the address of the store comes from a division, the load behind it
    // must wait for it
    let mut program = vec![
        lui(5, DATA),
        addi(1, 0, 64),
        addi(2, 0, 4),
        op(1, 4, 3, 1, 2),   // div x3 = 16
        op(0, 0, 6, 5, 3),   // x6 = DATA + 16
        store(2, 1, 6, 0),
        load(2, 7, 5, 16),
        addi(8, 7, 1),
    ];
    program.extend_from_slice(&exit());
    let pipeline = compare(&program);
    assert_eq!(pipeline.reg.gpr[7].read(), 64);
    assert_eq!(pipeline.reg.gpr[8].read(), 65);
}

#[test]
fn atomic_operations() {
    let mut program = vec![
        lui(5, DATA),
        addi(1, 0, -7),
        amo(0b00000, 2, 1, 5),  // amoadd
        amo(0b00001, 3, 1, 5),  // amoswap
        amo(0b00100, 4, 2, 5),  // amoxor
        amo(0b01100, 6, 3, 5),  // amoand
        amo(0b01000, 7, 1, 5),  // amoor
        amo(0b10000, 8, 2, 5),  // amomin
        amo(0b10100, 9, 2, 5),  // amomax
        amo(0b11000, 10, 1, 5), // amominu
        amo(0b11100, 11, 1, 5), // amomaxu
        amo(0b00010, 12, 0, 5), // lr
        amo(0b00011, 13, 4, 5), // sc
        load(2, 14, 5, 0),
    ];
    program.extend_from_slice(&exit());
    let pipeline = compare(&program);
    assert_eq!(pipeline.reg.gpr[13].read(), 0);
    assert_eq!(pipeline.reg.gpr[14].read(), pipeline.reg.gpr[4].read());
}

#[test]
fn system_calls_in_program_order() {
    let mut program = vec![
        addi(17, 0, 174),
        ECALL,
        addi(5, 10, 1),
        addi(17, 0, 175),
        ECALL,
        op(0, 0, 6, 10, 5),
    ];
    program.extend_from_slice(&exit());
    let pipeline = compare(&program);
    assert_eq!(pipeline.reg.gpr[5].read(), 1001);
    assert_eq!(pipeline.reg.gpr[6].read(), 2001);
}

#[test]
fn memory_is_written_only_when_a_store_retires() {
    let program = vec![
        lui(5, DATA),
        addi(1, 0, 0x55),
        store(2, 1, 5, 0),
        addi(17, 0, 93),
        ECALL,
    ];
    let before = image(&program).data;
    let mut pipeline = Pipeline::new(BASE, image(&program));
    let store_pc = BASE + 8;
    let mut stored = false;
    for _ in 0..200 {
        let (retired, status) = pipeline.run_clock();
        if retired.iter().any(|(_, entry)| entry.pc == store_pc) {
            stored = true;
        }
        if stored {
            assert_eq!(pipeline.memory.read_u32(DATA), Ok(0x55));
        } else {
            assert_eq!(pipeline.memory.data, before);
        }
        if !matches!(status, Status::Running) {
            break;
        }
    }
    assert!(stored);
}

#[test]
fn registers_change_only_when_an_instruction_retires() {
    let program = vec![
        addi(1, 0, 7),
        op(1, 0, 2, 1, 1),
        op(1, 4, 3, 2, 1),
        addi(17, 0, 93),
        ECALL,
    ];
    let mut pipeline = Pipeline::new(BASE, image(&program));
    let mut gpr: Vec<u32> = pipeline.reg.gpr.iter().map(|r| r.read()).collect();
    for _ in 0..200 {
        let (retired, status) = pipeline.run_clock();
        let now: Vec<u32> = pipeline.reg.gpr.iter().map(|r| r.read()).collect();
        if retired.is_empty() {
            assert_eq!(now, gpr);
        }
        // a register that is not renamed holds the result of its last writer
        for (_, entry) in &retired {
            if entry.rd != 0 && pipeline.reg.related_rob[entry.rd as usize].is_none() {
                if entry.inst.function != Function::Ecall {
                    assert_eq!(Some(now[entry.rd as usize]), entry.reg_value);
                }
            }
        }
        // a register is renamed only to an entry in flight that writes it
        for (r, renamed) in pipeline.reg.related_rob.iter().enumerate() {
            if let Some(index) = renamed {
                assert_eq!(pipeline.rob.get(*index).unwrap().rd as usize, r);
            }
        }
        gpr = now;
        if !matches!(status, Status::Running) {
            break;
        }
    }
    assert_eq!(gpr[3], 7);
}

#[test]
fn a_load_that_overlaps_an_older_store_at_another_address_reads_early() {
    // the store writes the word at DATA, the load reads the byte behind its
    // first byte: the addresses differ, so the load does not wait, and reads
    // what memory holds before the store retires
    let mut program = vec![
        lui(5, DATA),
        addi(1, 0, -1),
        store(2, 1, 5, 0),
        load(4, 2, 5, 1),
    ];
    program.extend_from_slice(&exit());
    let stale = image(&program).data[(DATA - BASE) as usize + 1] as u32;
    let mut pipeline = Pipeline::new(BASE, image(&program));
    for _ in 0..200 {
        let (_, status) = pipeline.run_clock();
        if !matches!(status, Status::Running) {
            break;
        }
    }
    assert_eq!(pipeline.memory.read_u32(DATA), Ok(0xffff_ffff));
    assert_eq!(pipeline.reg.gpr[2].read(), stale);
    assert_ne!(stale, 0xff);
}
