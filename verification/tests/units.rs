use riscv_5stage_simulator::consts;
use riscv_5stage_simulator::instruction::{Function, Instruction, Opcode};
use riscv_5stage_simulator::memory::ProcessMemory;
use riscv_5stage_simulator::pipeline::branch_predictor::BranchPredictor;
use riscv_5stage_simulator::pipeline::exception::Exception;
use riscv_5stage_simulator::pipeline::functional_units::address::AddressUnit;
use riscv_5stage_simulator::pipeline::functional_units::memory::MemoryUnit;
use riscv_5stage_simulator::pipeline::load_buffer::{
    LoadBuffer, LoadBufferEntry, LoadBufferStatus,
};
use riscv_5stage_simulator::pipeline::operand::Operand;
use riscv_5stage_simulator::pipeline::reorder_buffer::{
    ReorderBuffer, ReorderBufferEntry, Retirement,
};
use riscv_5stage_simulator::pipeline::reservation_station::{
    FinishedCalc, RSEntry, RSStatus, ReservationStation,
};
use riscv_5stage_simulator::register::{Register, RegisterFile};

// addi x1, x0, 5
const ADDI_X1: u32 = 0x0050_0093;
// add x3, x1, x2
const ADD_X3: u32 = 0x0020_81b3;
// mul x3, x1, x2
const MUL_X3: u32 = 0x0220_81b3;
// lw x3, 4(x2)
const LW_X3: u32 = 0x0041_2183;
// sw x1, 8(x2)
const SW_X1: u32 = 0x0011_2423;
// beq x1, x2, 8
const BEQ: u32 = 0x0020_8463;
// jalr x1, 12(x5)
const JALR_X1: u32 = 0x00c2_80e7;
// amoswap.w x3, x2, (x1)
const AMOSWAP: u32 = 0x0820_a1af;
// lr.w x3, (x1)
const LRW: u32 = 0x1000_a1af;
// sc.w x3, x2, (x1)
const SCW: u32 = 0x1820_a1af;
// lui x5, 0x12345
const LUI_X5: u32 = 0x1234_52b7;
// auipc x5, 0x1
const AUIPC_X5: u32 = 0x0000_1297;
// jal x1, 0x34
const JAL_X1: u32 = 0x0340_00ef;
const ECALL: u32 = 0x0000_0073;

fn inst(word: u32) -> Instruction {
    Instruction::new(word)
}

fn small_memory() -> ProcessMemory {
    ProcessMemory {
        v_address_range: (0x100, 0x110),
        read_only_range: (0, 0),
        stack_range: (0xffff_fff0, 0),
        data: vec![0x80, 0x81, 0x02, 0x03, 0xff, 0xff, 0xff, 0x7f, 8, 9, 10, 11, 12, 13, 14, 15],
        stack: vec![0; 16],
        stack_pointer_init: 0xffff_fff0,
    }
}

#[test]
fn operand_default_and_forwarding() {
    assert_eq!(Operand::default(), Operand::Value(0));
    assert_eq!(Operand::Rob(3).forward(3, 42), Operand::Value(42));
    assert_eq!(Operand::Rob(3).forward(4, 42), Operand::Rob(3));
    assert_eq!(Operand::Value(7).forward(3, 42), Operand::Value(7));
    assert_eq!(Operand::Value(7).value(), Some(7));
    assert_eq!(Operand::Rob(7).value(), None);
}

#[test]
fn registers() {
    let mut register = Register::new(5, true);
    assert_eq!(register.read(), 5);
    register.write(9);
    assert_eq!(register.read(), 9);
    let mut fixed = Register::new(5, false);
    fixed.write(9);
    assert_eq!(fixed.read(), 5);
}

#[test]
fn register_file() {
    let mut reg = RegisterFile::new(0x1000, 0xffff_fff0);
    assert_eq!(reg.pc.read(), 0x1000);
    assert_eq!(reg.gpr[2].read(), 0xffff_fff0);
    assert!(reg
        .gpr
        .iter()
        .enumerate()
        .all(|(i, r)| i == 2 || r.read() == 0));
    assert!(reg.related_rob.iter().all(|r| r.is_none()));
    reg.write_gpr(0, 7);
    assert_eq!(reg.gpr[0].read(), 0);
    reg.write_gpr(31, 7);
    assert_eq!(reg.gpr[31].read(), 7);
    reg.set_pc(0x2000);
    assert_eq!(reg.pc.read(), 0x2000);
    // x0 is never renamed
    reg.set_reg_rob_index(0, 4);
    assert_eq!(reg.related_rob[0], None);
    reg.set_reg_rob_index(5, 4);
    assert_eq!(reg.related_rob[5], Some(4));
    // a younger writer keeps the name
    reg.clear_rename(5, 3);
    assert_eq!(reg.related_rob[5], Some(4));
    reg.clear_rename(5, 4);
    assert_eq!(reg.related_rob[5], None);
    reg.set_reg_rob_index(6, 1);
    reg.set_reg_rob_index(7, 2);
    reg.clear_renames();
    assert!(reg.related_rob.iter().all(|r| r.is_none()));
    assert_eq!(reg.gpr[31].read(), 7);
}

#[test]
fn reading_a_register_through_the_map() {
    let mut reg = RegisterFile::new(0, 0);
    let mut rob = ReorderBuffer::new(4);
    let mut predictor = BranchPredictor::new();
    reg.write_gpr(1, 11);
    assert_eq!(reg.get_reg_value(1, &rob), Operand::Value(11));
    assert_eq!(reg.get_reg_value(0, &rob), Operand::Value(0));
    let index = rob.issue(0x100, inst(ADDI_X1), &reg, &mut predictor);
    reg.set_reg_rob_index(1, index);
    // the writer has no result yet
    assert_eq!(reg.get_reg_value(1, &rob), Operand::Rob(index));
    rob.propagate(&FinishedCalc { rob_idx: index, reg_value: 5, exception: None });
    // the writer has its result, which is not yet in the register
    assert_eq!(reg.get_reg_value(1, &rob), Operand::Value(5));
    assert_eq!(reg.gpr[1].read(), 11);
    // a name that dangles reads as a reference
    reg.set_reg_rob_index(2, 99);
    assert_eq!(reg.get_reg_value(2, &rob), Operand::Rob(99));
}

#[test]
fn predictor_table() {
    let mut predictor = BranchPredictor::default();
    // unseen: predicted not taken, last not taken
    assert!(!predictor.predict(0x10));
    // (false, false), taken -> (false, true)
    predictor.update(0x10, 1);
    assert!(!predictor.predict(0x10));
    // (false, true), taken -> (true, true)
    predictor.update(0x10, 1);
    assert!(predictor.predict(0x10));
    // (true, true), not taken -> (true, false)
    predictor.update(0x10, 0);
    assert!(predictor.predict(0x10));
    // (true, false), taken -> (true, true)
    predictor.update(0x10, 1);
    assert!(predictor.predict(0x10));
    // (true, true), not taken, not taken -> (false, false)
    predictor.update(0x10, 0);
    predictor.update(0x10, 0);
    assert!(!predictor.predict(0x10));
    // (false, false), taken, not taken -> (false, false): one taken does not count
    predictor.update(0x10, 1);
    predictor.update(0x10, 0);
    predictor.update(0x10, 1);
    assert!(!predictor.predict(0x10));
    // every address has its own state, an address that was never predicted too
    predictor.update(0x20, 1);
    predictor.update(0x20, 7);
    assert!(predictor.predict(0x20));
    assert!(!predictor.predict(0x10));
    assert!(!predictor.predict(0x30));
}

#[test]
fn entries_of_new_instructions() {
    let entry = ReorderBufferEntry::new(0x100, inst(ADD_X3));
    assert_eq!(entry.pc, 0x100);
    assert_eq!(entry.rd, 3);
    assert_eq!(entry.reg_value, None);
    assert_eq!(entry.mem_value, Operand::Value(0));
    assert_eq!(entry.addr, Operand::Value(0));
    assert_eq!(entry.mem_rem_cycle, consts::MEM_CYCLE);
    assert_eq!(entry.mem_exception, Ok(()));
    assert!(!entry.branch_pred);
    assert!(!entry.is_completed());
    assert_eq!(ReorderBufferEntry::new(0x100, inst(LUI_X5)).reg_value, Some(0x1234_5000));
    assert_eq!(ReorderBufferEntry::new(0x100, inst(AUIPC_X5)).reg_value, Some(0x1100));
    assert_eq!(ReorderBufferEntry::new(0xffff_fffc, inst(AUIPC_X5)).reg_value, Some(0xffc));
    assert_eq!(ReorderBufferEntry::new(0x100, inst(JAL_X1)).reg_value, Some(0x104));
    assert_eq!(ReorderBufferEntry::new(0x100, inst(JALR_X1)).reg_value, Some(0x104));
    assert_eq!(ReorderBufferEntry::new(0x100, inst(SCW)).reg_value, Some(0));
    assert_eq!(ReorderBufferEntry::new(0x100, inst(AMOSWAP)).reg_value, None);
    assert_eq!(ReorderBufferEntry::new(0x100, inst(SW_X1)).rd, 0);
    assert_eq!(ReorderBufferEntry::new(0x100, inst(BEQ)).rd, 0);
    assert!(ReorderBufferEntry::new(0x100, inst(LUI_X5)).is_completed());
}

#[test]
fn completion_of_entries() {
    let mut store = ReorderBufferEntry::new(0x100, inst(SW_X1));
    store.addr = Operand::Rob(0);
    store.mem_value = Operand::Value(1);
    assert!(!store.is_completed());
    store.addr = Operand::Value(0x104);
    assert!(!store.is_completed());
    store.mem_rem_cycle = 0;
    assert!(store.is_completed());
    store.mem_value = Operand::Rob(2);
    assert!(!store.is_completed());

    let mut amo = ReorderBufferEntry::new(0x100, inst(AMOSWAP));
    amo.addr = Operand::Value(0x104);
    amo.mem_value = Operand::Value(1);
    amo.mem_rem_cycle = 0;
    assert!(!amo.is_completed());
    amo.reg_value = Some(3);
    assert!(amo.is_completed());
    amo.mem_rem_cycle = 1;
    assert!(!amo.is_completed());

    let mut jalr = ReorderBufferEntry::new(0x100, inst(JALR_X1));
    jalr.addr = Operand::Rob(0);
    assert!(!jalr.is_completed());
    jalr.addr = Operand::Value(0x200);
    assert!(jalr.is_completed());

    let mut load = ReorderBufferEntry::new(0x100, inst(LW_X3));
    load.addr = Operand::Value(0x104);
    load.mem_rem_cycle = 0;
    assert!(!load.is_completed());
    load.reg_value = Some(0);
    assert!(load.is_completed());
}

#[test]
fn reorder_buffer_is_a_queue() {
    let reg = RegisterFile::new(0, 0);
    let mut predictor = BranchPredictor::new();
    let mut rob = ReorderBuffer::default();
    assert_eq!(rob.len(), 0);
    assert!(!rob.is_full());
    assert!(rob.pop_front().is_none());
    assert!(rob.completed_entries().is_empty());
    let a = rob.issue(0x100, inst(ADDI_X1), &reg, &mut predictor);
    let b = rob.issue(0x104, inst(ADD_X3), &reg, &mut predictor);
    let c = rob.issue(0x108, inst(LUI_X5), &reg, &mut predictor);
    assert_eq!(rob.len(), 3);
    assert!(a != b && b != c && a != c);
    assert_eq!(rob.nth_index(0), Some(a));
    assert_eq!(rob.nth_index(2), Some(c));
    assert_eq!(rob.nth_index(3), None);
    assert_eq!(rob.to_index(1), Some(b));
    assert_eq!(rob.to_relative_pos(c), Some(2));
    assert_eq!(rob.to_relative_pos(77), None);
    assert_eq!(rob.get(b).unwrap().pc, 0x104);
    assert!(rob.get(77).is_none());
    let pcs: Vec<u32> = rob.iter().iter().map(|e| e.pc).collect();
    assert_eq!(pcs, vec![0x100, 0x104, 0x108]);
    let ids: Vec<usize> = rob.iter_with_id().iter().map(|(id, _)| *id).collect();
    assert_eq!(ids, vec![a, b, c]);

    // the youngest entry is completed, but the oldest is not: nothing leaves
    assert!(rob.completed_entries().is_empty());
    rob.propagate(&FinishedCalc { rob_idx: a, reg_value: 5, exception: None });
    let completed = rob.completed_entries();
    assert_eq!(completed.len(), 1);
    assert_eq!(completed[0].0, a);
    assert_eq!(completed[0].1.reg_value, Some(5));
    assert_eq!(rob.len(), 2);
    rob.propagate(&FinishedCalc { rob_idx: b, reg_value: 6, exception: None });
    let completed = rob.completed_entries();
    let ids: Vec<usize> = completed.iter().map(|(id, _)| *id).collect();
    assert_eq!(ids, vec![b, c]);
    assert_eq!(rob.len(), 0);

    // an index that was handed back is used again
    let d = rob.issue(0x10c, inst(ADDI_X1), &reg, &mut predictor);
    assert_eq!(d, a);
    assert_eq!(rob.pop_front().unwrap().pc, 0x10c);
    rob.issue(0x110, inst(ADDI_X1), &reg, &mut predictor);
    rob.clear();
    assert_eq!(rob.len(), 0);
    assert_eq!(rob.nth_index(0), None);
}

#[test]
fn reorder_buffer_capacity() {
    let reg = RegisterFile::new(0, 0);
    let mut predictor = BranchPredictor::new();
    let mut rob = ReorderBuffer::new(2);
    rob.issue(0x100, inst(ADDI_X1), &reg, &mut predictor);
    assert!(!rob.is_full());
    rob.issue(0x104, inst(ADDI_X1), &reg, &mut predictor);
    assert!(rob.is_full());
    rob.pop_front();
    assert!(!rob.is_full());
    assert!(ReorderBuffer::new(0).is_full());
}

#[test]
fn walking_the_reorder_buffer() {
    let reg = RegisterFile::new(0, 0);
    let mut predictor = BranchPredictor::new();
    let mut rob = ReorderBuffer::new(8);
    let a = rob.issue(0x100, inst(ADDI_X1), &reg, &mut predictor);
    let b = rob.issue(0x104, inst(ADD_X3), &reg, &mut predictor);
    let c = rob.issue(0x108, inst(LUI_X5), &reg, &mut predictor);
    let mut walk = rob.cursor();
    assert_eq!(walk.len(), 3);
    let (first, entry) = walk.next().unwrap();
    assert_eq!((first, entry.pc), (a, 0x100));
    let (last, entry) = walk.next_back().unwrap();
    assert_eq!((last, entry.pc), (c, 0x108));
    assert_eq!(walk.len(), 1);
    assert_eq!(walk.next_back().unwrap().0, b);
    assert!(walk.next().is_none());
    assert!(walk.next_back().is_none());
    assert_eq!(walk.len(), 0);
}

#[test]
fn changing_an_entry_in_place() {
    let reg = RegisterFile::new(0, 0);
    let mut predictor = BranchPredictor::new();
    let mut rob = ReorderBuffer::new(8);
    let a = rob.issue(0x100, inst(SW_X1), &reg, &mut predictor);
    rob.get_mut(a).unwrap().mem_rem_cycle = 3;
    assert_eq!(rob.get(a).unwrap().mem_rem_cycle, 3);
    assert!(rob.get_mut(a + 1).is_none());
    let mut entry = *rob.get(a).unwrap();
    entry.addr = Operand::Value(0x20);
    rob.set(a, entry);
    assert_eq!(rob.get(a).unwrap().addr, Operand::Value(0x20));
}

#[test]
fn issue_reads_operands_of_memory_instructions() {
    let mut reg = RegisterFile::new(0, 0);
    let mut predictor = BranchPredictor::new();
    let mut rob = ReorderBuffer::new(8);
    reg.write_gpr(1, 0x104);
    let producer = rob.issue(0x100, inst(ADDI_X1), &reg, &mut predictor);
    // x2 is renamed to the producer, x1 is not renamed
    reg.set_reg_rob_index(2, producer);
    let store = rob.issue(0x104, inst(SW_X1), &reg, &mut predictor);
    let entry = *rob.get(store).unwrap();
    assert_eq!(entry.mem_value, Operand::Value(0x104));
    assert_eq!(entry.addr, Operand::Rob(store));
    let swap = rob.issue(0x108, inst(AMOSWAP), &reg, &mut predictor);
    let entry = *rob.get(swap).unwrap();
    assert_eq!(entry.mem_value, Operand::Rob(producer));
    assert_eq!(entry.addr, Operand::Value(0x104));
    let load = rob.issue(0x10c, inst(LW_X3), &reg, &mut predictor);
    assert_eq!(rob.get(load).unwrap().addr, Operand::Rob(load));
    assert_eq!(rob.get(load).unwrap().mem_value, Operand::Value(0));
    // a result reaches the operands that wait for it, and its own entry
    rob.propagate(&FinishedCalc {
        rob_idx: producer,
        reg_value: 9,
        exception: Some(Exception::WritingToInvalidMemory(1)),
    });
    assert_eq!(rob.get(swap).unwrap().mem_value, Operand::Value(9));
    assert_eq!(rob.get(producer).unwrap().reg_value, Some(9));
    assert_eq!(
        rob.get(producer).unwrap().mem_exception,
        Err(Exception::WritingToInvalidMemory(1))
    );
    assert_eq!(rob.get(store).unwrap().addr, Operand::Rob(store));
}

#[test]
fn branch_entries_record_the_prediction() {
    let reg = RegisterFile::new(0, 0);
    let mut predictor = BranchPredictor::new();
    let mut rob = ReorderBuffer::new(8);
    let first = rob.issue(0x100, inst(BEQ), &reg, &mut predictor);
    assert!(!rob.get(first).unwrap().branch_pred);
    predictor.update(0x100, 1);
    predictor.update(0x100, 1);
    let second = rob.issue(0x100, inst(BEQ), &reg, &mut predictor);
    assert!(rob.get(second).unwrap().branch_pred);
    // only a branch records a prediction
    let third = rob.issue(0x100, inst(ADDI_X1), &reg, &mut predictor);
    assert!(!rob.get(third).unwrap().branch_pred);
}

#[test]
fn retirement() {
    let mut memory = small_memory();
    let mut reg = RegisterFile::new(0, 0);
    reg.set_reg_rob_index(3, 7);

    // a result goes to the destination register, whose name is released
    let mut add = ReorderBufferEntry::new(0x100, inst(ADD_X3));
    add.reg_value = Some(12);
    assert_eq!(add.retire(7, &mut memory, &mut reg), Ok(Retirement::Done));
    assert_eq!(reg.gpr[3].read(), 12);
    assert_eq!(reg.related_rob[3], None);

    // a younger writer keeps the name
    reg.set_reg_rob_index(3, 8);
    add.reg_value = Some(13);
    assert_eq!(add.retire(7, &mut memory, &mut reg), Ok(Retirement::Done));
    assert_eq!(reg.gpr[3].read(), 13);
    assert_eq!(reg.related_rob[3], Some(8));

    // a branch reports whether it was predicted rightly
    let mut branch = ReorderBufferEntry::new(0x100, inst(BEQ));
    branch.reg_value = Some(1);
    branch.branch_pred = true;
    assert_eq!(branch.retire(1, &mut memory, &mut reg), Ok(Retirement::Done));
    branch.branch_pred = false;
    assert_eq!(branch.retire(1, &mut memory, &mut reg), Ok(Retirement::Mispredicted));
    branch.reg_value = Some(0);
    assert_eq!(branch.retire(1, &mut memory, &mut reg), Ok(Retirement::Done));

    // an ecall reports itself and leaves the registers alone
    let mut ecall = ReorderBufferEntry::new(0x100, inst(ECALL));
    ecall.reg_value = Some(0);
    reg.write_gpr(0, 1);
    assert_eq!(ecall.retire(1, &mut memory, &mut reg), Ok(Retirement::SystemCall));

    // a store writes memory
    let mut store = ReorderBufferEntry::new(0x100, inst(SW_X1));
    store.addr = Operand::Value(0x108);
    store.mem_value = Operand::Value(0x0403_0201);
    store.mem_rem_cycle = 0;
    assert_eq!(store.retire(1, &mut memory, &mut reg), Ok(Retirement::Done));
    assert_eq!(memory.data[8..12], [1, 2, 3, 4]);

    // a fault that the entry carries is returned, and nothing changes
    let before = memory.data.clone();
    store.mem_exception = Err(Exception::WritingToInvalidMemory(0x42));
    store.mem_value = Operand::Value(0);
    assert_eq!(
        store.retire(1, &mut memory, &mut reg),
        Err(Exception::WritingToInvalidMemory(0x42))
    );
    assert_eq!(memory.data, before);

    // load-reserved writes its register and not memory
    let mut lr = ReorderBufferEntry::new(0x100, inst(LRW));
    lr.addr = Operand::Value(0x108);
    lr.mem_value = Operand::Value(0);
    lr.reg_value = Some(0x0403_0201);
    lr.mem_rem_cycle = 0;
    assert_eq!(lr.retire(1, &mut memory, &mut reg), Ok(Retirement::Done));
    assert_eq!(memory.data, before);
    assert_eq!(reg.gpr[3].read(), 0x0403_0201);
}

#[test]
fn memory_unit_loads() {
    let memory = small_memory();
    let load = |word: u32, addr: u32| {
        let mut entry = ReorderBufferEntry::new(0x100, inst(word));
        MemoryUnit::execute(addr, &mut entry, &memory)
    };
    // lb, lbu, lh, lhu, lw x3, 0(x2)
    assert_eq!(load(0x0001_0183, 0x100), Ok(0xffff_ff80));
    assert_eq!(load(0x0001_4183, 0x100), Ok(0x80));
    assert_eq!(load(0x0001_1183, 0x100), Ok(0xffff_8180));
    assert_eq!(load(0x0001_5183, 0x100), Ok(0x8180));
    assert_eq!(load(0x0001_2183, 0x100), Ok(0x0302_8180));
    assert_eq!(load(0x0001_0183, 0x102), Ok(2));
    assert_eq!(load(0x0001_1183, 0x102), Ok(0x0302));
    assert_eq!(
        load(0x0001_2183, 0x10e),
        Err(Exception::WritingToInvalidMemory(0x10e))
    );
    assert_eq!(load(0x0001_0183, 0x10f), Ok(15));
}

#[test]
fn memory_unit_atomics() {
    let memory = small_memory();
    let atomic = |funct5: u32, operand: u32| {
        let word = (funct5 << 27) | (2 << 20) | (1 << 15) | (2 << 12) | (3 << 7) | 0x2f;
        let mut entry = ReorderBufferEntry::new(0x100, inst(word));
        entry.mem_value = Operand::Value(operand);
        entry.mem_rem_cycle = 0;
        let read = MemoryUnit::execute(0x104, &mut entry, &memory);
        (read, entry.mem_value, entry.mem_rem_cycle)
    };
    let old = 0x7fff_ffff;
    let restarted = consts::MEM_CYCLE;
    assert_eq!(atomic(0b00001, 5), (Ok(old), Operand::Value(5), restarted));
    assert_eq!(atomic(0b00000, 1), (Ok(old), Operand::Value(0x8000_0000), restarted));
    assert_eq!(atomic(0b00000, 0x8000_0001), (Ok(old), Operand::Value(0), restarted));
    assert_eq!(atomic(0b00100, 0xff), (Ok(old), Operand::Value(0x7fff_ff00), restarted));
    assert_eq!(atomic(0b01100, 0xff), (Ok(old), Operand::Value(0xff), restarted));
    assert_eq!(atomic(0b01000, 0x8000_0000), (Ok(old), Operand::Value(0xffff_ffff), restarted));
    assert_eq!(atomic(0b10000, 0x8000_0000), (Ok(old), Operand::Value(0x8000_0000), restarted));
    assert_eq!(atomic(0b10100, 0x8000_0000), (Ok(old), Operand::Value(old), restarted));
    assert_eq!(atomic(0b11000, 0x8000_0000), (Ok(old), Operand::Value(old), restarted));
    assert_eq!(atomic(0b11100, 0x8000_0000), (Ok(old), Operand::Value(0x8000_0000), restarted));
    // load-reserved reads and has nothing to write
    assert_eq!(atomic(0b00010, 5), (Ok(old), Operand::Value(0), 0));
}

#[test]
fn memory_unit_stores() {
    let store = |word: u32, value: u32| {
        let mut memory = small_memory();
        let mut entry = ReorderBufferEntry::new(0x100, inst(word));
        entry.addr = Operand::Value(0x108);
        entry.mem_value = Operand::Value(value);
        let result = MemoryUnit::execute_store(&entry, &mut memory);
        (result, memory.data[8..12].to_vec())
    };
    // sb, sh, sw x1, 0(x2)
    assert_eq!(store(0x0011_0023, 0xa1b2_c3d4), (Ok(()), vec![0xd4, 9, 10, 11]));
    assert_eq!(store(0x0011_1023, 0xa1b2_c3d4), (Ok(()), vec![0xd4, 0xc3, 10, 11]));
    assert_eq!(store(0x0011_2023, 0xa1b2_c3d4), (Ok(()), vec![0xd4, 0xc3, 0xb2, 0xa1]));

    // nothing is written while address or value are unknown
    let mut memory = small_memory();
    let mut entry = ReorderBufferEntry::new(0x100, inst(SW_X1));
    entry.addr = Operand::Rob(1);
    entry.mem_value = Operand::Value(1);
    assert_eq!(MemoryUnit::execute_store(&entry, &mut memory), Ok(()));
    assert_eq!(memory.data, small_memory().data);
    // an atomic operation writes only when it has read
    let mut amo = ReorderBufferEntry::new(0x100, inst(AMOSWAP));
    amo.addr = Operand::Value(0x108);
    amo.mem_value = Operand::Value(1);
    assert_eq!(MemoryUnit::execute_store(&amo, &mut memory), Ok(()));
    assert_eq!(memory.data, small_memory().data);
    amo.reg_value = Some(0);
    assert_eq!(MemoryUnit::execute_store(&amo, &mut memory), Ok(()));
    assert_eq!(memory.data[8..12], [1, 0, 0, 0]);
    // a store that faults
    entry.addr = Operand::Value(0x200);
    assert_eq!(
        MemoryUnit::execute_store(&entry, &mut memory),
        Err(Exception::WritingToInvalidMemory(0x200))
    );
}

#[test]
fn address_unit() {
    let mut reg = RegisterFile::new(0, 0);
    let mut predictor = BranchPredictor::new();
    let mut rob = ReorderBuffer::new(8);
    let mut unit = AddressUnit::default();
    reg.write_gpr(2, 0x100);
    let producer = rob.issue(0x0fc, inst(ADDI_X1), &reg, &mut predictor);
    reg.set_reg_rob_index(5, producer);
    let load = rob.issue(0x100, inst(LW_X3), &reg, &mut predictor);
    unit.issue(load, inst(LW_X3), &reg, &rob);
    let jump = rob.issue(0x104, inst(JALR_X1), &reg, &mut predictor);
    unit.issue(jump, inst(JALR_X1), &reg, &rob);
    assert_eq!(unit.buf.len(), 2);
    assert_eq!(unit.buf[&load].operand, (Operand::Value(0x100), Operand::Value(4)));
    assert_eq!(unit.buf[&load].remaining_clock, 1);
    assert_eq!(unit.buf[&jump].operand, (Operand::Rob(producer), Operand::Value(12)));

    // the load has its base register, the jump waits
    assert_eq!(unit.execute(&mut rob), None);
    assert_eq!(rob.get(load).unwrap().addr, Operand::Value(0x104));
    assert_eq!(rob.get(jump).unwrap().addr, Operand::Rob(jump));
    assert_eq!(unit.buf.len(), 1);

    unit.propagate(&FinishedCalc { rob_idx: producer, reg_value: 0xffff_fff8, exception: None });
    assert_eq!(unit.buf[&jump].operand.0, Operand::Value(0xffff_fff8));
    // the target wraps around
    assert_eq!(unit.execute(&mut rob), Some(4));
    assert_eq!(rob.get(jump).unwrap().addr, Operand::Value(4));
    assert!(unit.buf.is_empty());
    assert_eq!(unit.execute(&mut rob), None);

    unit.issue(load, inst(LW_X3), &reg, &rob);
    unit.clear();
    assert!(unit.buf.is_empty());
}

#[test]
fn a_jump_to_address_zero_is_reported() {
    let reg = RegisterFile::new(0, 0);
    let mut predictor = BranchPredictor::new();
    let mut rob = ReorderBuffer::new(8);
    let mut unit = AddressUnit::new();
    // jalr x0, 0(x0)
    let jump = rob.issue(0x104, inst(0x0000_0067), &reg, &mut predictor);
    unit.issue(jump, inst(0x0000_0067), &reg, &rob);
    assert_eq!(unit.execute(&mut rob), Some(0));
}

#[test]
fn load_readiness() {
    let mut reg = RegisterFile::new(0, 0);
    let mut predictor = BranchPredictor::new();
    let mut rob = ReorderBuffer::new(8);
    reg.write_gpr(1, 0x108);
    let store = rob.issue(0x100, inst(SW_X1), &reg, &mut predictor);
    let lr = rob.issue(0x104, inst(LRW), &reg, &mut predictor);
    let load = rob.issue(0x108, inst(LW_X3), &reg, &mut predictor);
    let younger = rob.issue(0x10c, inst(SW_X1), &reg, &mut predictor);
    let waiting = LoadBufferEntry { rob_index: load, status: LoadBufferStatus::Wait, value: Ok(0) };

    // the address of the load is unknown
    assert!(!LoadBuffer::is_load_ready(&waiting, &rob));
    rob.get_mut(load).unwrap().addr = Operand::Value(0x108);
    // the address of the older store is unknown
    assert!(!LoadBuffer::is_load_ready(&waiting, &rob));
    // the older store writes the address of the load
    rob.get_mut(store).unwrap().addr = Operand::Value(0x108);
    assert!(!LoadBuffer::is_load_ready(&waiting, &rob));
    // the older store writes another address; the load-reserved before the
    // load and the younger store with its unknown address do not matter
    rob.get_mut(store).unwrap().addr = Operand::Value(0x10c);
    assert_eq!(rob.get(lr).unwrap().addr, Operand::Value(0x108));
    assert_eq!(rob.get(younger).unwrap().addr, Operand::Rob(younger));
    assert!(LoadBuffer::is_load_ready(&waiting, &rob));
    // a load that has finished is not ready again
    let finished = LoadBufferEntry { status: LoadBufferStatus::Finished, ..waiting };
    assert!(!LoadBuffer::is_load_ready(&finished, &rob));
    // a load without an entry in the reorder buffer is not ready
    let stray = LoadBufferEntry { rob_index: 99, ..waiting };
    assert!(!LoadBuffer::is_load_ready(&stray, &rob));
    // once the older store has retired, nothing blocks the load
    rob.get_mut(store).unwrap().addr = Operand::Value(0x108);
    assert!(!LoadBuffer::is_load_ready(&waiting, &rob));
    rob.pop_front();
    assert!(LoadBuffer::is_load_ready(&waiting, &rob));
}

#[test]
fn an_atomic_waits_for_its_operand() {
    let mut reg = RegisterFile::new(0, 0);
    let mut predictor = BranchPredictor::new();
    let mut rob = ReorderBuffer::new(8);
    reg.write_gpr(1, 0x108);
    let producer = rob.issue(0x100, inst(ADDI_X1), &reg, &mut predictor);
    reg.set_reg_rob_index(2, producer);
    let swap = rob.issue(0x104, inst(AMOSWAP), &reg, &mut predictor);
    let entry = LoadBufferEntry { rob_index: swap, status: LoadBufferStatus::Wait, value: Ok(0) };
    assert_eq!(rob.get(swap).unwrap().mem_value, Operand::Rob(producer));
    assert!(!LoadBuffer::is_load_ready(&entry, &rob));
    rob.propagate(&FinishedCalc { rob_idx: producer, reg_value: 20, exception: None });
    assert!(LoadBuffer::is_load_ready(&entry, &rob));
}

#[test]
fn load_buffer_lets_the_latency_pass() {
    let memory = small_memory();
    let mut reg = RegisterFile::new(0, 0);
    let mut predictor = BranchPredictor::new();
    let mut rob = ReorderBuffer::new(8);
    let mut buffer = LoadBuffer::default();
    reg.write_gpr(2, 0x100);
    let load = rob.issue(0x100, inst(LW_X3), &reg, &mut predictor);
    buffer.issue(load, &rob, &reg);
    // not ready: nothing happens
    buffer.execute(&mut rob, &memory);
    assert_eq!(rob.get(load).unwrap().mem_rem_cycle, consts::MEM_CYCLE);
    assert!(buffer.pop_finished().is_empty());
    rob.get_mut(load).unwrap().addr = Operand::Value(0x104);
    for left in (1..consts::MEM_CYCLE).rev() {
        buffer.execute(&mut rob, &memory);
        assert_eq!(rob.get(load).unwrap().mem_rem_cycle, left);
        assert!(buffer.pop_finished().is_empty());
    }
    buffer.execute(&mut rob, &memory);
    assert_eq!(rob.get(load).unwrap().mem_rem_cycle, 0);
    buffer.propagate(&FinishedCalc { rob_idx: load, reg_value: 0, exception: None });
    let finished = buffer.pop_finished();
    assert_eq!(finished.len(), 1);
    assert_eq!(finished[0].rob_idx, load);
    assert_eq!(finished[0].reg_value, 0x7fff_ffff);
    assert_eq!(finished[0].exception, None);
    assert!(buffer.pop_finished().is_empty());

    // a load that faults finishes with the fault and the value zero
    let bad = rob.issue(0x104, inst(LW_X3), &reg, &mut predictor);
    buffer.issue(bad, &rob, &reg);
    rob.get_mut(bad).unwrap().addr = Operand::Value(0x200);
    rob.get_mut(bad).unwrap().mem_rem_cycle = 1;
    buffer.execute(&mut rob, &memory);
    let finished = buffer.pop_finished();
    assert_eq!(finished.len(), 1);
    assert_eq!(finished[0].reg_value, 0);
    assert_eq!(finished[0].exception, Some(Exception::WritingToInvalidMemory(0x200)));
    buffer.issue(bad, &rob, &reg);
    buffer.clear();
    assert!(buffer.pop_finished().is_empty());
}

#[test]
fn station_entries() {
    let entry = RSEntry {
        rob_index: 1,
        status: RSStatus::Wait,
        inst: inst(ADD_X3),
        operand: (Operand::Value(3), Operand::Rob(2)),
        value: 0,
        remaining_clock: 1,
    };
    assert_eq!(entry.operand_values(), (Some(3), None));
    assert_eq!(ReservationStation::remain_clock(Function::Add), consts::ADD_CYCLE);
    assert_eq!(ReservationStation::remain_clock(Function::Mul), 4);
    assert_eq!(ReservationStation::remain_clock(Function::Mulhsu), 4);
    assert_eq!(ReservationStation::remain_clock(Function::Div), 8);
    assert_eq!(ReservationStation::remain_clock(Function::Remu), 8);
    assert_eq!(ReservationStation::remain_clock(Function::Lw), 1);
    assert_eq!(ReservationStation::remain_clock(Function::Beq), 1);
}

#[test]
fn station_executes_when_operands_are_known() {
    let memory = small_memory();
    let mut reg = RegisterFile::new(0, 0);
    let mut predictor = BranchPredictor::new();
    let mut rob = ReorderBuffer::new(8);
    let mut rs = ReservationStation::default();
    reg.write_gpr(2, 6);
    let first = rob.issue(0x100, inst(ADDI_X1), &reg, &mut predictor);
    rs.issue(first, &rob, &reg);
    reg.set_reg_rob_index(1, first);
    let second = rob.issue(0x104, inst(MUL_X3), &reg, &mut predictor);
    rs.issue(second, &rob, &reg);
    reg.set_reg_rob_index(3, second);

    assert!(rs.completed_jobs().is_empty());
    assert_eq!(rs.execute(&mut rob, &memory), None);
    let jobs = rs.completed_jobs();
    assert_eq!(jobs.len(), 1);
    assert_eq!((jobs[0].rob_idx, jobs[0].reg_value, jobs[0].exception), (first, 5, None));
    rs.propagate(&jobs[0]);
    rob.propagate(&jobs[0]);
    // the multiplication takes four cycles from now on
    for _ in 0..3 {
        rs.execute(&mut rob, &memory);
        assert!(rs.completed_jobs().is_empty());
    }
    rs.execute(&mut rob, &memory);
    let jobs = rs.completed_jobs();
    assert_eq!(jobs.len(), 1);
    assert_eq!((jobs[0].rob_idx, jobs[0].reg_value), (second, 30));
    assert!(rs.completed_jobs().is_empty());
}

#[test]
fn instructions_go_to_their_units() {
    let memory = small_memory();
    let mut reg = RegisterFile::new(0, 0);
    let mut predictor = BranchPredictor::new();
    let mut rob = ReorderBuffer::new(16);
    let mut rs = ReservationStation::new();
    reg.write_gpr(5, 0x100);
    // none of these needs a unit: nothing ever finishes
    for word in [LUI_X5, AUIPC_X5, JAL_X1, SCW] {
        let index = rob.issue(0x100, inst(word), &reg, &mut predictor);
        rs.issue(index, &rob, &reg);
    }
    for _ in 0..12 {
        assert_eq!(rs.execute(&mut rob, &memory), None);
        assert!(rs.completed_jobs().is_empty());
    }
    // a jalr goes to the address unit, which reports its target
    let jump = rob.issue(0x100, inst(JALR_X1), &reg, &mut predictor);
    rs.issue(jump, &rob, &reg);
    assert_eq!(rs.execute(&mut rob, &memory), Some(0x10c));
    assert!(rs.completed_jobs().is_empty());
    rs.clear();
    assert!(rs.completed_jobs().is_empty());
}

#[test]
fn the_store_at_the_head_lets_its_latency_pass() {
    let memory = small_memory();
    let mut reg = RegisterFile::new(0, 0);
    let mut predictor = BranchPredictor::new();
    let mut rob = ReorderBuffer::new(8);
    let mut rs = ReservationStation::new();
    reg.write_gpr(2, 0x100);
    reg.write_gpr(1, 0x55);
    let first = rob.issue(0x100, inst(SW_X1), &reg, &mut predictor);
    rs.issue(first, &rob, &reg);
    let second = rob.issue(0x104, inst(SW_X1), &reg, &mut predictor);
    rs.issue(second, &rob, &reg);
    // the first cycle computes the addresses, and the store at the head
    // starts to wait; the store behind it does not
    rs.execute(&mut rob, &memory);
    assert_eq!(rob.get(first).unwrap().addr, Operand::Value(0x108));
    assert_eq!(rob.get(first).unwrap().mem_rem_cycle, consts::MEM_CYCLE - 1);
    assert_eq!(rob.get(second).unwrap().mem_rem_cycle, consts::MEM_CYCLE);
    for _ in 1..consts::MEM_CYCLE {
        assert!(!rob.get(first).unwrap().is_completed());
        rs.execute(&mut rob, &memory);
    }
    assert!(rob.get(first).unwrap().is_completed());
    assert_eq!(rob.get(second).unwrap().mem_rem_cycle, consts::MEM_CYCLE);
    // memory is written only when the store retires
    assert_eq!(memory.data, small_memory().data);
    assert_eq!(Opcode::Store, rob.get(first).unwrap().inst.opcode);
}
