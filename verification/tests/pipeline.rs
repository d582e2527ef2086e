use riscv_5stage_simulator::memory::ProcessMemory;
use riscv_5stage_simulator::pipeline::exception::Exception;
use riscv_5stage_simulator::pipeline::syscall::{HostCall, HostReply};
use riscv_5stage_simulator::pipeline::{Fault, Pipeline, Status};
use riscv_5stage_simulator::register::Register;

const BASE: u32 = 0x1000;
const STACK_SIZE: u32 = 0x1_0000;

fn r_type(funct7: u32, rs2: u32, rs1: u32, funct3: u32, rd: u32, opcode: u32) -> u32 {
    (funct7 << 25) | (rs2 << 20) | (rs1 << 15) | (funct3 << 12) | (rd << 7) | opcode
}

fn i_type(imm: i32, rs1: u32, funct3: u32, rd: u32, opcode: u32) -> u32 {
    (((imm as u32) & 0xfff) << 20) | (rs1 << 15) | (funct3 << 12) | (rd << 7) | opcode
}

fn s_type(imm: i32, rs2: u32, rs1: u32, funct3: u32, opcode: u32) -> u32 {
    let imm = imm as u32;
    (((imm >> 5) & 0x7f) << 25)
        | (rs2 << 20)
        | (rs1 << 15)
        | (funct3 << 12)
        | ((imm & 0x1f) << 7)
        | opcode
}

fn b_type(imm: i32, rs2: u32, rs1: u32, funct3: u32) -> u32 {
    let imm = imm as u32;
    (((imm >> 12) & 1) << 31)
        | (((imm >> 5) & 0x3f) << 25)
        | (rs2 << 20)
        | (rs1 << 15)
        | (funct3 << 12)
        | (((imm >> 1) & 0xf) << 8)
        | (((imm >> 11) & 1) << 7)
        | 0x63
}

fn j_type(imm: i32, rd: u32) -> u32 {
    let imm = imm as u32;
    (((imm >> 20) & 1) << 31)
        | (((imm >> 1) & 0x3ff) << 21)
        | (((imm >> 11) & 1) << 20)
        | (((imm >> 12) & 0xff) << 12)
        | (rd << 7)
        | 0x6f
}

fn addi(rd: u32, rs1: u32, imm: i32) -> u32 {
    i_type(imm, rs1, 0, rd, 0x13)
}

fn add(rd: u32, rs1: u32, rs2: u32) -> u32 {
    r_type(0, rs2, rs1, 0, rd, 0x33)
}

fn mul(rd: u32, rs1: u32, rs2: u32) -> u32 {
    r_type(1, rs2, rs1, 0, rd, 0x33)
}

fn div(rd: u32, rs1: u32, rs2: u32) -> u32 {
    r_type(1, rs2, rs1, 4, rd, 0x33)
}

fn lui(rd: u32, imm: u32) -> u32 {
    (imm & 0xffff_f000) | (rd << 7) | 0x37
}

fn auipc(rd: u32, imm: u32) -> u32 {
    (imm & 0xffff_f000) | (rd << 7) | 0x17
}

fn lw(rd: u32, rs1: u32, imm: i32) -> u32 {
    i_type(imm, rs1, 2, rd, 0x03)
}

fn lb(rd: u32, rs1: u32, imm: i32) -> u32 {
    i_type(imm, rs1, 0, rd, 0x03)
}

fn lbu(rd: u32, rs1: u32, imm: i32) -> u32 {
    i_type(imm, rs1, 4, rd, 0x03)
}

fn lhu(rd: u32, rs1: u32, imm: i32) -> u32 {
    i_type(imm, rs1, 5, rd, 0x03)
}

fn sw(rs2: u32, rs1: u32, imm: i32) -> u32 {
    s_type(imm, rs2, rs1, 2, 0x23)
}

fn sb(rs2: u32, rs1: u32, imm: i32) -> u32 {
    s_type(imm, rs2, rs1, 0, 0x23)
}

fn bne(rs1: u32, rs2: u32, imm: i32) -> u32 {
    b_type(imm, rs2, rs1, 1)
}

fn beq(rs1: u32, rs2: u32, imm: i32) -> u32 {
    b_type(imm, rs2, rs1, 0)
}

fn jal(rd: u32, imm: i32) -> u32 {
    j_type(imm, rd)
}

fn jalr(rd: u32, rs1: u32, imm: i32) -> u32 {
    i_type(imm, rs1, 0, rd, 0x67)
}

fn amo(funct5: u32, rd: u32, rs2: u32, rs1: u32) -> u32 {
    (funct5 << 27) | (rs2 << 20) | (rs1 << 15) | (2 << 12) | (rd << 7) | 0x2f
}

const ECALL: u32 = 0x0000_0073;

/// An image with `program` at `BASE`, followed by `data`, and a stack at the
/// top of the address space.
fn image(program: &[u32], data: &[u8]) -> ProcessMemory {
    let mut bytes: Vec<u8> = Vec::new();
    for word in program {
        bytes.extend_from_slice(&word.to_le_bytes());
    }
    bytes.extend_from_slice(data);
    let end = BASE + bytes.len() as u32;
    ProcessMemory {
        v_address_range: (BASE, end),
        read_only_range: (0, 0),
        stack_range: (0u32.wrapping_sub(STACK_SIZE), 0),
        data: bytes,
        stack: vec![0; STACK_SIZE as usize],
        stack_pointer_init: 0u32.wrapping_sub(16),
    }
}

struct Run {
    /// The addresses of the retired instructions, in the order of retirement.
    pcs: Vec<u32>,
    /// For each retired instruction, the cycle in which it retired.
    cycles: Vec<usize>,
    /// What was written to each file.
    written: Vec<(u32, Vec<u8>)>,
    status: Status,
}

/// Runs the pipeline until the process ends, for at most `limit` cycles. The
/// host of the process accepts every write in full and has user id 1000.
fn run(pipeline: &mut Pipeline, limit: usize) -> Run {
    let mut run = Run {
        pcs: Vec::new(),
        cycles: Vec::new(),
        written: Vec::new(),
        status: Status::Running,
    };
    for _ in 0..limit {
        let (retired, mut status) = pipeline.run_clock();
        for (_, entry) in &retired {
            run.pcs.push(entry.pc);
            run.cycles.push(pipeline.clock);
        }
        if let Status::Host(call) = &status {
            let reply = match call {
                HostCall::Write { fd, data } => {
                    run.written.push((*fd, data.clone()));
                    HostReply::Value(data.len() as u32)
                }
                HostCall::GetUid | HostCall::GetEuid => HostReply::Value(1000),
                HostCall::GetGid | HostCall::GetEgid => HostReply::Value(100),
                HostCall::Uname { .. } => HostReply::Data(b"Linux".to_vec()),
                HostCall::FStat { .. } => HostReply::Data(vec![7; 8]),
                HostCall::ReadLinkAt { .. } => HostReply::Data(b"/bin/prog".to_vec()),
            };
            status = pipeline.resume_clock(call, &reply);
        }
        match status {
            Status::Running => {}
            status => {
                run.status = status;
                return run;
            }
        }
    }
    run
}

fn start(program: &[u32], data: &[u8]) -> Pipeline {
    Pipeline::new(BASE, image(program, data))
}

fn gpr(pipeline: &Pipeline, r: usize) -> u32 {
    pipeline.reg.gpr[r].read()
}

fn finished(run: &Run) -> bool {
    matches!(run.status, Status::Finished)
}

#[test]
fn a_new_pipeline_is_empty() {
    let pipeline = start(&[ECALL], &[]);
    assert_eq!(pipeline.clock, 0);
    assert_eq!(pipeline.rob.len(), 0);
    assert_eq!(pipeline.reg.pc.read(), BASE);
    assert_eq!(gpr(&pipeline, 2), 0u32.wrapping_sub(16));
    assert_eq!(gpr(&pipeline, 0), 0);
    assert!(pipeline.reg.related_rob.iter().all(|r| r.is_none()));
    assert!(pipeline.awaiting.is_none());
}

#[test]
fn straight_line_program() {
    let program = [addi(1, 0, 5), addi(2, 0, 7), add(3, 1, 2), ECALL];
    let mut pipeline = start(&program, &[]);
    pipeline.reg.gpr[17] = Register::new(93, true);
    let run = run(&mut pipeline, 100);
    assert!(finished(&run));
    assert_eq!(gpr(&pipeline, 3), 12);
    assert_eq!(gpr(&pipeline, 1), 5);
    assert_eq!(gpr(&pipeline, 2), 7);
    assert_eq!(run.pcs, vec![BASE, BASE + 4, BASE + 8, BASE + 12]);
    // an exit leaves zero in a0
    assert_eq!(gpr(&pipeline, 10), 0);
}

#[test]
fn exit_group_ends_the_process_too() {
    let program = [addi(17, 0, 94), ECALL];
    let mut pipeline = start(&program, &[]);
    let run = run(&mut pipeline, 100);
    assert!(finished(&run));
    assert_eq!(run.pcs, vec![BASE, BASE + 4]);
}

#[test]
fn read_after_write_hazard() {
    let dependent = [addi(1, 0, 1), addi(1, 1, 2), addi(2, 1, 3), addi(17, 0, 93), ECALL];
    let mut pipeline = start(&dependent, &[]);
    let chained = run(&mut pipeline, 100);
    assert!(finished(&chained));
    assert_eq!(gpr(&pipeline, 1), 3);
    assert_eq!(gpr(&pipeline, 2), 6);

    let independent = [addi(1, 0, 1), addi(3, 0, 2), addi(2, 0, 3), addi(17, 0, 93), ECALL];
    let mut pipeline = start(&independent, &[]);
    let free = run(&mut pipeline, 100);
    assert!(finished(&free));
    assert_eq!(chained.pcs, free.pcs);
    // the third instruction waits for the second, which waits for the first
    assert!(chained.cycles[2] > free.cycles[2]);
    assert!(chained.cycles[1] > free.cycles[1]);
    assert_eq!(chained.cycles[0], free.cycles[0]);
}

#[test]
fn x0_is_never_written() {
    let program = [addi(0, 0, 5), add(1, 0, 0), addi(17, 0, 93), ECALL];
    let mut pipeline = start(&program, &[]);
    let run = run(&mut pipeline, 100);
    assert!(finished(&run));
    assert_eq!(gpr(&pipeline, 0), 0);
    assert_eq!(gpr(&pipeline, 1), 0);
}

#[test]
fn loop_with_a_mispredicted_exit() {
    // x1 = 3; L: x1 -= 1; bnez x1, L; exit
    let program = [
        addi(17, 0, 93),
        addi(1, 0, 3),
        addi(1, 1, -1),
        bne(1, 0, -4),
        ECALL,
    ];
    let looping = BASE + 8;
    let branch = BASE + 12;
    let exit = BASE + 16;
    let mut pipeline = start(&program, &[]);
    let mut pcs: Vec<u32> = Vec::new();
    let mut predictions: Vec<bool> = Vec::new();
    let mut status = Status::Running;
    for _ in 0..200 {
        let (retired, s) = pipeline.run_clock();
        for (_, entry) in &retired {
            pcs.push(entry.pc);
            if entry.pc == branch {
                predictions.push(pipeline.branch_predictor.predict(branch));
            }
        }
        if !matches!(s, Status::Running) {
            status = s;
            break;
        }
    }
    assert!(matches!(status, Status::Finished));
    assert_eq!(gpr(&pipeline, 1), 0);
    assert_eq!(
        pcs,
        vec![
            BASE,
            BASE + 4,
            looping,
            branch,
            looping,
            branch,
            looping,
            branch,
            exit
        ]
    );
    assert_eq!(*pcs.last().unwrap(), exit);
    // after the first two taken branches the prediction is "taken"; the fall
    // through at the end mispredicts and leaves the prediction as it is
    assert_eq!(predictions, vec![false, true, true]);
}

#[test]
fn jump_and_link() {
    // jal x1, +8; (skipped) addi x5, x0, 1; addi x6, x0, 2; exit
    let program = [
        addi(17, 0, 93),
        jal(1, 8),
        addi(5, 0, 1),
        addi(6, 0, 2),
        ECALL,
    ];
    let mut pipeline = start(&program, &[]);
    let run = run(&mut pipeline, 100);
    assert!(finished(&run));
    assert_eq!(gpr(&pipeline, 1), BASE + 8);
    assert_eq!(gpr(&pipeline, 5), 0);
    assert_eq!(gpr(&pipeline, 6), 2);
    assert_eq!(run.pcs, vec![BASE, BASE + 4, BASE + 12, BASE + 16]);
}

#[test]
fn jump_and_link_register() {
    // auipc x5, 0; jalr x1, 16(x5); (skipped) addi x6, x0, 1; (skipped) addi x6, x0, 2;
    // target: addi x7, x0, 3; exit
    let program = [
        addi(17, 0, 93),
        auipc(5, 0),
        jalr(1, 5, 16),
        addi(6, 0, 1),
        addi(6, 0, 2),
        addi(7, 0, 3),
        ECALL,
    ];
    let mut pipeline = start(&program, &[]);
    let run = run(&mut pipeline, 100);
    assert!(finished(&run));
    assert_eq!(gpr(&pipeline, 5), BASE + 4);
    assert_eq!(gpr(&pipeline, 1), BASE + 12);
    assert_eq!(gpr(&pipeline, 6), 0);
    assert_eq!(gpr(&pipeline, 7), 3);
    assert_eq!(run.pcs, vec![BASE, BASE + 4, BASE + 8, BASE + 20, BASE + 24]);
}

#[test]
fn upper_immediates() {
    let program = [lui(5, 0x1234_5000), addi(5, 5, 0x678), addi(17, 0, 93), ECALL];
    let mut pipeline = start(&program, &[]);
    let run = run(&mut pipeline, 100);
    assert!(finished(&run));
    assert_eq!(gpr(&pipeline, 5), 0x1234_5678);
}

#[test]
fn multiplication_takes_longer_than_addition() {
    let slow = [addi(1, 0, 6), mul(2, 1, 1), addi(17, 0, 93), ECALL];
    let mut pipeline = start(&slow, &[]);
    let with_mul = run(&mut pipeline, 100);
    assert!(finished(&with_mul));
    assert_eq!(gpr(&pipeline, 2), 36);

    let fast = [addi(1, 0, 6), add(2, 1, 1), addi(17, 0, 93), ECALL];
    let mut pipeline = start(&fast, &[]);
    let with_add = run(&mut pipeline, 100);
    assert!(finished(&with_add));
    assert_eq!(gpr(&pipeline, 2), 12);
    assert_eq!(with_mul.cycles[1] - with_add.cycles[1], 3);

    let slower = [addi(1, 0, 6), div(2, 1, 1), addi(17, 0, 93), ECALL];
    let mut pipeline = start(&slower, &[]);
    let with_div = run(&mut pipeline, 100);
    assert!(finished(&with_div));
    assert_eq!(gpr(&pipeline, 2), 1);
    assert_eq!(with_div.cycles[1] - with_add.cycles[1], 7);
}

#[test]
fn store_then_load_of_the_same_address() {
    // x2 is the address of the data word, produced by a multi-cycle mul
    let data_offset = 9 * 4;
    let program = [
        addi(17, 0, 93),
        addi(1, 0, 77),
        addi(4, 0, 1),
        lui(5, BASE),
        addi(5, 5, data_offset),
        mul(2, 5, 4),
        sw(1, 2, 0),
        lw(3, 2, 0),
        ECALL,
    ];
    let mut pipeline = start(&program, &[0xaa, 0xbb, 0xcc, 0xdd]);
    let run = run(&mut pipeline, 200);
    assert!(finished(&run));
    assert_eq!(gpr(&pipeline, 2), BASE + data_offset as u32);
    assert_eq!(gpr(&pipeline, 3), 77);
    assert_eq!(gpr(&pipeline, 3), gpr(&pipeline, 1));
    assert_eq!(pipeline.memory.read_u32(BASE + data_offset as u32), Ok(77));
    // the load retires after the store
    assert!(run.cycles[7] > run.cycles[6]);
}

#[test]
fn loads_sign_and_zero_extend() {
    let data_offset = 8 * 4;
    let program = [
        addi(17, 0, 93),
        lui(5, BASE),
        addi(5, 5, data_offset),
        lb(1, 5, 0),
        lbu(2, 5, 0),
        lhu(3, 5, 2),
        lw(4, 5, 0),
        ECALL,
    ];
    let mut pipeline = start(&program, &[0x80, 0x01, 0xfe, 0xff]);
    let run = run(&mut pipeline, 200);
    assert!(finished(&run));
    assert_eq!(gpr(&pipeline, 1), 0xffff_ff80);
    assert_eq!(gpr(&pipeline, 2), 0x80);
    assert_eq!(gpr(&pipeline, 3), 0xfffe);
    assert_eq!(gpr(&pipeline, 4), 0xfffe_0180);
}

#[test]
fn store_byte_writes_one_byte() {
    let data_offset = 6 * 4;
    let program = [
        addi(17, 0, 93),
        lui(5, BASE),
        addi(5, 5, data_offset),
        addi(1, 0, 0x7ff),
        sb(1, 5, 1),
        ECALL,
    ];
    let mut pipeline = start(&program, &[0x11, 0x22, 0x33, 0x44]);
    let run = run(&mut pipeline, 200);
    assert!(finished(&run));
    assert_eq!(
        pipeline.memory.read_bytes(BASE + data_offset as u32, 4).unwrap(),
        &[0x11, 0xff, 0x33, 0x44]
    );
}

#[test]
fn atomic_swap() {
    // M[a] = 10, x2 = 20; amoswap.w x3, x2, (x1)
    let data_offset = 6 * 4;
    let program = [
        addi(17, 0, 93),
        lui(1, BASE),
        addi(1, 1, data_offset),
        addi(2, 0, 20),
        amo(0b00001, 3, 2, 1),
        ECALL,
    ];
    let mut pipeline = start(&program, &[10, 0, 0, 0]);
    let run = run(&mut pipeline, 200);
    assert!(finished(&run));
    assert_eq!(gpr(&pipeline, 3), 10);
    assert_eq!(pipeline.memory.read_u32(BASE + data_offset as u32), Ok(20));
}

#[test]
fn atomic_add_and_extremes() {
    let data_offset = 9 * 4;
    let program = [
        addi(17, 0, 93),
        lui(1, BASE),
        addi(1, 1, data_offset),
        addi(2, 0, -3),
        // amoadd.w x3, x2, (x1): 10 + -3
        amo(0b00000, 3, 2, 1),
        // amomax.w x4, x2, (x1): max(7, -3) signed
        amo(0b10100, 4, 2, 1),
        // amomaxu.w x5, x2, (x1): max(7, 0xfffffffd) unsigned
        amo(0b11100, 5, 2, 1),
        // lr.w x6, (x1)
        amo(0b00010, 6, 0, 1),
        ECALL,
    ];
    let mut pipeline = start(&program, &[10, 0, 0, 0]);
    let run = run(&mut pipeline, 400);
    assert!(finished(&run));
    assert_eq!(gpr(&pipeline, 3), 10);
    assert_eq!(gpr(&pipeline, 4), 7);
    assert_eq!(gpr(&pipeline, 5), 7);
    assert_eq!(gpr(&pipeline, 6), 0xffff_fffd);
    assert_eq!(
        pipeline.memory.read_u32(BASE + data_offset as u32),
        Ok(0xffff_fffd)
    );
}

#[test]
fn store_conditional_succeeds() {
    let data_offset = 6 * 4;
    let program = [
        addi(17, 0, 93),
        lui(1, BASE),
        addi(1, 1, data_offset),
        addi(2, 0, 55),
        // sc.w x3, x2, (x1)
        amo(0b00011, 3, 2, 1),
        ECALL,
    ];
    let mut pipeline = start(&program, &[1, 2, 3, 4]);
    pipeline.reg.gpr[3] = Register::new(99, true);
    let run = run(&mut pipeline, 200);
    assert!(finished(&run));
    assert_eq!(gpr(&pipeline, 3), 0);
    assert_eq!(pipeline.memory.read_u32(BASE + data_offset as u32), Ok(55));
}

#[test]
fn write_system_call() {
    let message = b"Hello, World!";
    let data_offset = 7 * 4;
    let program = [
        addi(10, 0, 1),
        lui(11, BASE),
        addi(11, 11, data_offset),
        addi(12, 0, 13),
        addi(17, 0, 64),
        ECALL,
        ECALL,
    ];
    let mut pipeline = start(&program, message);
    // the second ecall is the same write again, since a0 is 13 afterwards it
    // goes to file 13; stop after the first
    let mut written: Vec<(u32, Vec<u8>)> = Vec::new();
    let mut a0_after = None;
    for _ in 0..100 {
        let (_, status) = pipeline.run_clock();
        if let Status::Host(call) = status {
            match &call {
                HostCall::Write { fd, data } => written.push((*fd, data.clone())),
                _ => panic!("unexpected request"),
            }
            let status = pipeline.resume_clock(&call, &HostReply::Value(13));
            assert!(matches!(status, Status::Running));
            a0_after = Some(gpr(&pipeline, 10));
            break;
        }
    }
    assert_eq!(written, vec![(1, message.to_vec())]);
    assert_eq!(a0_after, Some(13));
}

#[test]
fn identity_system_calls() {
    let program = [
        addi(17, 0, 174),
        ECALL,
        add(5, 10, 0),
        addi(17, 0, 176),
        ECALL,
        add(6, 10, 0),
        addi(17, 0, 93),
        ECALL,
    ];
    let mut pipeline = start(&program, &[]);
    let run = run(&mut pipeline, 200);
    assert!(finished(&run));
    assert_eq!(gpr(&pipeline, 5), 1000);
    assert_eq!(gpr(&pipeline, 6), 100);
}

#[test]
fn brk_extends_the_data_region() {
    let program = [
        lui(10, 0x2000),
        addi(17, 0, 214),
        ECALL,
        sb(17, 10, 0),
        addi(17, 0, 93),
        ECALL,
    ];
    let mut pipeline = start(&program, &[]);
    let run = run(&mut pipeline, 200);
    assert!(finished(&run));
    assert_eq!(pipeline.memory.v_address_range, (BASE, 0x2001));
    assert_eq!(pipeline.memory.data.len(), 0x1001);
    assert_eq!(pipeline.memory.read_u8(0x2000), Ok(214));
}

#[test]
fn unknown_system_call_is_a_fault() {
    let program = [addi(17, 0, 1), ECALL];
    let mut pipeline = start(&program, &[]);
    let run = run(&mut pipeline, 100);
    match run.status {
        Status::Fault(Fault::Retire { pc, exception }) => {
            assert_eq!(pc, BASE + 4);
            assert_eq!(exception, Exception::FailCallingSyscall(1));
        }
        other => panic!("unexpected status {:?}", other),
    }
    assert_eq!(pipeline.rob.len(), 0);
}

#[test]
fn a_failing_host_call_is_a_fault() {
    let program = [addi(17, 0, 174), ECALL];
    let mut pipeline = start(&program, &[]);
    let mut outcome = None;
    for _ in 0..100 {
        let (_, status) = pipeline.run_clock();
        if let Status::Host(call) = status {
            outcome = Some(pipeline.resume_clock(&call, &HostReply::Failed));
            break;
        }
    }
    match outcome {
        Some(Status::Fault(Fault::Retire { pc, exception })) => {
            assert_eq!(pc, BASE + 4);
            assert_eq!(exception, Exception::FailCallingSyscall(174));
        }
        other => panic!("unexpected status {:?}", other),
    }
}

#[test]
fn store_to_read_only_memory_faults_at_retirement() {
    let program = [lui(5, BASE), sw(5, 5, 0), addi(17, 0, 93), ECALL];
    let mut pipeline = start(&program, &[]);
    pipeline.memory.read_only_range = (BASE, BASE + 16);
    let run = run(&mut pipeline, 200);
    match run.status {
        Status::Fault(Fault::Retire { pc, exception }) => {
            assert_eq!(pc, BASE + 4);
            assert_eq!(exception, Exception::WritingToReadOnlyMemory(BASE));
        }
        other => panic!("unexpected status {:?}", other),
    }
    // nothing was written, and everything in flight is gone
    assert_eq!(pipeline.memory.read_u32(BASE), Ok(lui(5, BASE)));
    assert_eq!(pipeline.rob.len(), 0);
    assert_eq!(run.pcs, vec![BASE, BASE + 4]);
}

#[test]
fn load_from_an_invalid_address_faults_at_retirement() {
    let program = [lw(5, 0, 16), addi(17, 0, 93), ECALL];
    let mut pipeline = start(&program, &[]);
    let run = run(&mut pipeline, 200);
    match run.status {
        Status::Fault(Fault::Retire { pc, exception }) => {
            assert_eq!(pc, BASE);
            assert_eq!(exception, Exception::WritingToInvalidMemory(16));
        }
        other => panic!("unexpected status {:?}", other),
    }
}

#[test]
fn a_fault_on_a_mispredicted_path_is_dropped() {
    // the branch is taken, but predicted not taken: the load behind it is
    // issued, would fault, and is squashed
    let program = [
        addi(17, 0, 93),
        addi(1, 0, 1),
        mul(1, 1, 1),
        bne(1, 0, 8),
        lw(5, 0, 16),
        ECALL,
    ];
    let mut pipeline = start(&program, &[]);
    let run = run(&mut pipeline, 200);
    assert!(finished(&run));
    assert_eq!(run.pcs, vec![BASE, BASE + 4, BASE + 8, BASE + 12, BASE + 20]);
}

#[test]
fn running_off_the_program_is_a_fault() {
    let program = [addi(1, 0, 1)];
    let mut pipeline = start(&program, &[]);
    let run = run(&mut pipeline, 100);
    match run.status {
        Status::Fault(Fault::Fetch { pc }) => assert_eq!(pc, BASE + 4),
        other => panic!("unexpected status {:?}", other),
    }
    assert_eq!(gpr(&pipeline, 1), 1);
}

#[test]
fn an_unknown_word_is_a_fault_when_it_is_reached() {
    let program = [addi(1, 0, 1), 0xffff_ffff];
    let mut pipeline = start(&program, &[]);
    let run = run(&mut pipeline, 100);
    match run.status {
        Status::Fault(Fault::IllegalInstruction { pc, word }) => {
            assert_eq!(pc, BASE + 4);
            assert_eq!(word, 0xffff_ffff);
        }
        other => panic!("unexpected status {:?}", other),
    }
    assert_eq!(run.pcs, vec![BASE]);
}

#[test]
fn float_instructions_run_as_nops() {
    // fadd.s f3, f1, f2 between two additions
    let program = [addi(1, 0, 1), 0x0020_81d3, addi(17, 0, 93), ECALL];
    let mut pipeline = start(&program, &[]);
    let run = run(&mut pipeline, 100);
    assert!(finished(&run));
    assert_eq!(run.pcs.len(), 4);
    assert_eq!(gpr(&pipeline, 3), 0);
}

#[test]
fn squash_leaves_nothing_in_flight() {
    let mut pipeline = start(&[addi(1, 0, 1), addi(2, 1, 1), lw(3, 2, 0), ECALL], &[]);
    pipeline.run_clock();
    assert!(pipeline.rob.len() > 0);
    assert!(pipeline.reg.related_rob.iter().any(|r| r.is_some()));
    pipeline.clear_all_buffers();
    assert_eq!(pipeline.rob.len(), 0);
    assert!(pipeline.reg.related_rob.iter().all(|r| r.is_none()));
    assert!(pipeline.rs.completed_jobs().is_empty());
    assert!(pipeline.write_result().is_empty());
}

#[test]
fn at_most_two_instructions_issue_per_cycle() {
    let mut pipeline = start(&[addi(1, 0, 1), addi(2, 0, 1), addi(3, 0, 1), ECALL], &[]);
    let (issued, fault) = pipeline.issue();
    assert_eq!(issued.len(), 2);
    assert_eq!(fault, None);
    assert_eq!(pipeline.rob.len(), 2);
    assert_eq!(pipeline.reg.pc.read(), BASE + 8);
    assert_eq!(pipeline.reg.related_rob[1], Some(issued[0]));
    assert_eq!(pipeline.reg.related_rob[2], Some(issued[1]));
    let (issued, _) = pipeline.issue();
    // the ecall ends the phase and then stalls it
    assert_eq!(issued.len(), 2);
    let (issued, fault) = pipeline.issue();
    assert_eq!(issued.len(), 0);
    assert_eq!(fault, None);
}
