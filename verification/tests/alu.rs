use riscv_5stage_simulator::alu::{alu, to_signed, to_unsigned};
use riscv_5stage_simulator::instruction::Function;

#[test]
fn add_and_sub_wrap() {
    assert_eq!(alu(&Function::Add, 5, 7), 12);
    assert_eq!(alu(&Function::Addi, i32::MAX, 1), i32::MIN);
    assert_eq!(alu(&Function::Sub, i32::MIN, 1), i32::MAX);
    assert_eq!(alu(&Function::Sub, 3, 5), -2);
    assert_eq!(alu(&Function::AuiPc, 0x1000, 0x2000), 0x3000);
    assert_eq!(alu(&Function::Lw, i32::MAX, i32::MAX), -2);
}

#[test]
fn comparisons() {
    assert_eq!(alu(&Function::Slt, -1, 1), 1);
    assert_eq!(alu(&Function::Slti, 1, -1), 0);
    assert_eq!(alu(&Function::Sltu, -1, 1), 0);
    assert_eq!(alu(&Function::Sltiu, 1, -1), 1);
    assert_eq!(alu(&Function::Beq, 4, 4), 1);
    assert_eq!(alu(&Function::Bne, 4, 4), 0);
    assert_eq!(alu(&Function::Blt, -5, 4), 1);
    assert_eq!(alu(&Function::Bltu, -5, 4), 0);
    assert_eq!(alu(&Function::Bge, 4, 4), 1);
    assert_eq!(alu(&Function::Bgeu, 4, -5), 0);
}

#[test]
fn logic() {
    assert_eq!(alu(&Function::And, 0b1100, 0b1010), 0b1000);
    assert_eq!(alu(&Function::Ori, 0b1100, 0b1010), 0b1110);
    assert_eq!(alu(&Function::Xor, 0b1100, 0b1010), 0b0110);
    assert_eq!(alu(&Function::Xori, -1, 0x0f), -16);
    assert_eq!(alu(&Function::Lui, 123, 0x1234_5000), 0x1234_5000);
}

#[test]
fn shifts_use_the_low_five_bits() {
    assert_eq!(alu(&Function::Sll, 1, 31), i32::MIN);
    assert_eq!(alu(&Function::Sll, 1, 32), 1);
    assert_eq!(alu(&Function::Sll, 1, 33), 2);
    assert_eq!(alu(&Function::Slli, 3, 4), 48);
    assert_eq!(alu(&Function::Srl, -1, 28), 0xf);
    assert_eq!(alu(&Function::Srl, -1, 60), 0xf);
    assert_eq!(alu(&Function::Srli, i32::MIN, 31), 1);
    assert_eq!(alu(&Function::Sra, -16, 2), -4);
    assert_eq!(alu(&Function::Sra, -16, 34), -4);
    assert_eq!(alu(&Function::Srai, i32::MIN, 31), -1);
    assert_eq!(alu(&Function::Srai, 64, 3), 8);
}

#[test]
fn multiplication() {
    assert_eq!(alu(&Function::Mul, 6, 7), 42);
    assert_eq!(alu(&Function::Mul, -6, 7), -42);
    assert_eq!(alu(&Function::Mul, 0x10000, 0x10000), 0);
    assert_eq!(alu(&Function::Mul, i32::MAX, i32::MAX), 1);
    assert_eq!(alu(&Function::Mulh, 0x10000, 0x10000), 1);
    assert_eq!(alu(&Function::Mulh, -1, 1), -1);
    assert_eq!(alu(&Function::Mulh, i32::MIN, i32::MIN), 0x4000_0000);
    assert_eq!(alu(&Function::Mulhu, -1, -1), -2);
    assert_eq!(alu(&Function::Mulhu, -1, 1), 0);
    assert_eq!(alu(&Function::Mulhsu, -1, -1), -1);
    assert_eq!(alu(&Function::Mulhsu, 1, -1), 0);
    assert_eq!(alu(&Function::Mulhsu, i32::MIN, -1), i32::MIN);
}

#[test]
fn division() {
    assert_eq!(alu(&Function::Div, 7, 2), 3);
    assert_eq!(alu(&Function::Div, -7, 2), -3);
    assert_eq!(alu(&Function::Div, 7, -2), -3);
    assert_eq!(alu(&Function::Div, -7, -2), 3);
    assert_eq!(alu(&Function::Rem, 7, 2), 1);
    assert_eq!(alu(&Function::Rem, -7, 2), -1);
    assert_eq!(alu(&Function::Rem, 7, -2), 1);
    assert_eq!(alu(&Function::Rem, -7, -2), -1);
    assert_eq!(alu(&Function::Divu, -1, 2), i32::MAX);
    assert_eq!(alu(&Function::Remu, -1, 16), 15);
}

#[test]
fn division_by_zero_and_overflow() {
    assert_eq!(alu(&Function::Div, 7, 0), -1);
    assert_eq!(alu(&Function::Divu, 7, 0), -1);
    assert_eq!(alu(&Function::Rem, 7, 0), 7);
    assert_eq!(alu(&Function::Remu, -7, 0), -7);
    assert_eq!(alu(&Function::Div, i32::MIN, -1), i32::MIN);
    assert_eq!(alu(&Function::Rem, i32::MIN, -1), 0);
    assert_eq!(alu(&Function::Div, i32::MIN, 1), i32::MIN);
}

#[test]
fn other_operations_yield_zero() {
    assert_eq!(alu(&Function::Ecall, 3, 4), 0);
    assert_eq!(alu(&Function::Fence, 3, 4), 0);
    assert_eq!(alu(&Function::Amoaddw, 3, 4), 0);
}

#[test]
fn signed_and_unsigned_readings() {
    assert_eq!(to_unsigned(-1), u32::MAX);
    assert_eq!(to_unsigned(i32::MIN), 0x8000_0000);
    assert_eq!(to_unsigned(5), 5);
    assert_eq!(to_signed(u32::MAX), -1);
    assert_eq!(to_signed(0x8000_0000), i32::MIN);
    assert_eq!(to_signed(5), 5);
}
