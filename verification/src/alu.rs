//! Arithmetic logic unit.
//!
//! The unit is a pure function of an operation and two 32-bit inputs. What it
//! computes is defined here over the mathematical integers: [`alu_result`] is
//! the reference, and [`alu`] is proved to return exactly that.

use vstd::prelude::*;
use vstd::wrapping::i32_specs::signed_crop;
use crate::instruction::Function;

verus! {

/// The value of the 32 bits of `a` read as an unsigned number.
pub open spec fn unsigned(a: i32) -> int {
    if a < 0 {
        a + 0x1_0000_0000
    } else {
        a as int
    }
}

/// The value of the 32 bits of `u` read as a two's complement number.
pub open spec fn signed(u: u32) -> int {
    if u >= 0x8000_0000 {
        u - 0x1_0000_0000
    } else {
        u as int
    }
}

/// The number of places by which a shift moves: the low five bits of the
/// second input.
pub open spec fn shift_amount(b: i32) -> u32 {
    (unsigned(b) % 32) as u32
}

/// The quotient of `a` by a non-zero `b`, rounded towards zero.
pub open spec fn quotient_towards_zero(a: int, b: int) -> int {
    if a >= 0 && b > 0 {
        a / b
    } else if a < 0 && b < 0 {
        (-a) / (-b)
    } else if a < 0 {
        -((-a) / b)
    } else {
        -(a / (-b))
    }
}

/// The remainder that goes with [`quotient_towards_zero`]: it has the sign of
/// the dividend `a`, and its size is that of `|a|` modulo `|b|`.
pub open spec fn remainder_towards_zero(a: int, b: int) -> int {
    if a >= 0 && b > 0 {
        a % b
    } else if a < 0 && b < 0 {
        -((-a) % (-b))
    } else if a < 0 {
        -((-a) % b)
    } else {
        a % (-b)
    }
}

/// A quotient of non-negative numbers is no larger than the dividend, and a
/// remainder is smaller than the divisor.
proof fn lemma_quotient_bounds(x: int, d: int)
    requires
        x >= 0,
        d > 0,
    ensures
        0 <= x / d <= x,
        0 <= x % d < d,
        x % d <= x,
        d == 1 ==> x / d == x && x % d == 0,
        d >= 2 && x > 0 ==> x / d < x,
        x == 0 ==> x / d == 0 && x % d == 0,
{
    vstd::arithmetic::div_mod::lemma_fundamental_div_mod(x, d);
    vstd::arithmetic::div_mod::lemma_div_pos_is_pos(x, d);
    vstd::arithmetic::div_mod::lemma_mod_bound(x, d);
    assert(x / d <= x) by (nonlinear_arith)
        requires
            x >= 0,
            d > 0,
            x / d >= 0,
            x == d * (x / d) + x % d,
            x % d >= 0,
    ;
    if d == 1 {
        vstd::arithmetic::div_mod::lemma_div_basics(x);
    }
    if d >= 2 && x > 0 {
        assert(x / d < x) by (nonlinear_arith)
            requires
                x > 0,
                d >= 2,
                x / d >= 0,
                x == d * (x / d) + x % d,
                x % d >= 0,
        ;
    }
}

/// The quotient and remainder rounded towards zero recompose the dividend.
pub proof fn lemma_division_recomposes(a: int, b: int)
    requires
        b != 0,
    ensures
        a == b * quotient_towards_zero(a, b) + remainder_towards_zero(a, b),
{
    if a >= 0 && b > 0 {
        vstd::arithmetic::div_mod::lemma_fundamental_div_mod(a, b);
    } else if a < 0 && b < 0 {
        vstd::arithmetic::div_mod::lemma_fundamental_div_mod(-a, -b);
        assert(-a == (-b) * ((-a) / (-b)) + (-a) % (-b));
        assert(a == b * ((-a) / (-b)) - (-a) % (-b)) by (nonlinear_arith)
            requires
                -a == (-b) * ((-a) / (-b)) + (-a) % (-b),
        ;
    } else if a < 0 {
        vstd::arithmetic::div_mod::lemma_fundamental_div_mod(-a, b);
        assert(a == b * (-((-a) / b)) - (-a) % b) by (nonlinear_arith)
            requires
                -a == b * ((-a) / b) + (-a) % b,
        ;
    } else {
        vstd::arithmetic::div_mod::lemma_fundamental_div_mod(a, -b);
        assert(a == b * (-(a / (-b))) + a % (-b)) by (nonlinear_arith)
            requires
                a == (-b) * (a / (-b)) + a % (-b),
        ;
    }
}

/// `1` for true and `0` for false.
pub open spec fn flag(b: bool) -> i32 {
    if b {
        1
    } else {
        0
    }
}

/// What the unit computes for operation `func` on inputs `a` and `b`.
///
/// Sums, differences and products wrap to 32 bits. A shift moves by the low
/// five bits of `b`; `Sra` and `Srai` copy the sign bit in from the left,
/// `Srl` and `Srli` shift zeros in. The upper-half multiplications return bits
/// 32 to 63 of the full product, with each input read as signed or unsigned as
/// the mnemonic says. A division by zero yields all ones and leaves the
/// dividend as the remainder; the one signed division that overflows yields
/// the dividend, with remainder zero. An operation that is not arithmetic
/// yields zero.
pub open spec fn alu_result(func: Function, a: i32, b: i32) -> i32 {
    match func {
        Function::Add | Function::Addi | Function::AuiPc | Function::Jal | Function::Jalr
        | Function::Lb | Function::Lbu | Function::Lh | Function::Lhu | Function::Lw
        | Function::Sb | Function::Sh | Function::Sw => signed_crop(a + b),
        Function::Sub => signed_crop(a - b),
        Function::Slt | Function::Slti | Function::Blt => flag(a < b),
        Function::Sltu | Function::Sltiu | Function::Bltu => flag(unsigned(a) < unsigned(b)),
        Function::And | Function::Andi => a & b,
        Function::Or | Function::Ori => a | b,
        Function::Xor | Function::Xori => a ^ b,
        Function::Sll | Function::Slli => signed((unsigned(a) as u32) << shift_amount(b)) as i32,
        Function::Srl | Function::Srli => signed((unsigned(a) as u32) >> shift_amount(b)) as i32,
        Function::Sra | Function::Srai => a >> shift_amount(b),
        Function::Lui => b,
        Function::Beq => flag(a == b),
        Function::Bne => flag(a != b),
        Function::Bge => flag(a >= b),
        Function::Bgeu => flag(unsigned(a) >= unsigned(b)),
        Function::Mul => signed_crop(a * b),
        Function::Mulh => ((a * b) / 0x1_0000_0000) as i32,
        Function::Mulhsu => ((a * unsigned(b)) / 0x1_0000_0000) as i32,
        Function::Mulhu => signed_crop((unsigned(a) * unsigned(b)) / 0x1_0000_0000),
        Function::Div => if b == 0 {
            -1i32
        } else if a == i32::MIN && b == -1 {
            i32::MIN
        } else {
            quotient_towards_zero(a as int, b as int) as i32
        },
        Function::Divu => if b == 0 {
            -1i32
        } else {
            signed_crop(unsigned(a) / unsigned(b))
        },
        Function::Rem => if b == 0 {
            a
        } else {
            remainder_towards_zero(a as int, b as int) as i32
        },
        Function::Remu => if b == 0 {
            a
        } else {
            signed_crop(unsigned(a) % unsigned(b))
        },
        _ => 0,
    }
}

/// Reads the bits of a signed word as an unsigned one.
pub fn to_unsigned(a: i32) -> (u: u32)
    ensures
        u == unsigned(a),
        a == signed(u),
{
    if a < 0 {
        ((a as i64) + 0x1_0000_0000i64) as u32
    } else {
        a as u32
    }
}

/// Reads the bits of an unsigned word as a signed one.
pub fn to_signed(u: u32) -> (a: i32)
    ensures
        a == signed(u),
        u == unsigned(a),
        a == signed_crop(u as int),
{
    if u >= 0x8000_0000 {
        ((u as i64) - 0x1_0000_0000i64) as i32
    } else {
        u as i32
    }
}

fn mul_high_signed(a: i32, b: i32) -> (r: i32)
    ensures
        r == (a * b) / 0x1_0000_0000,
{
    assert(-0x4000_0000_0000_0000 < a * b <= 0x4000_0000_0000_0000) by (nonlinear_arith)
        requires
            -0x8000_0000 <= a < 0x8000_0000,
            -0x8000_0000 <= b < 0x8000_0000,
    ;
    let product: i64 = (a as i64) * (b as i64);
    match product.checked_div_euclid(0x1_0000_0000i64) {
        Some(high) => high as i32,
        None => 0,
    }
}

fn mul_high_signed_unsigned(a: i32, b: u32) -> (r: i32)
    ensures
        r == (a * b) / 0x1_0000_0000,
{
    assert(-0x8000_0000_0000_0000 <= a * b < 0x8000_0000_0000_0000) by (nonlinear_arith)
        requires
            -0x8000_0000 <= a < 0x8000_0000,
            0 <= b < 0x1_0000_0000,
    ;
    let product: i64 = (a as i64) * (b as i64);
    match product.checked_div_euclid(0x1_0000_0000i64) {
        Some(high) => high as i32,
        None => 0,
    }
}

fn mul_high_unsigned(a: u32, b: u32) -> (r: u32)
    ensures
        r == (a * b) / 0x1_0000_0000,
{
    assert(0 <= a * b <= 0xffff_fffe_0000_0001) by (nonlinear_arith)
        requires
            0 <= a < 0x1_0000_0000,
            0 <= b < 0x1_0000_0000,
    ;
    let product: u64 = (a as u64) * (b as u64);
    (product / 0x1_0000_0000u64) as u32
}

fn shift_left(a: i32, b: i32) -> (r: i32)
    ensures
        r == signed((unsigned(a) as u32) << shift_amount(b)),
{
    to_signed(to_unsigned(a).wrapping_shl(to_unsigned(b)))
}

fn shift_right_logical(a: i32, b: i32) -> (r: i32)
    ensures
        r == signed((unsigned(a) as u32) >> shift_amount(b)),
{
    to_signed(to_unsigned(a).wrapping_shr(to_unsigned(b)))
}

fn shift_right_arithmetic(a: i32, b: i32) -> (r: i32)
    ensures
        r == a >> shift_amount(b),
{
    a.wrapping_shr(to_unsigned(b))
}

fn divide(a: i32, b: i32) -> (r: i32)
    ensures
        r == alu_result(Function::Div, a, b),
{
    proof {
        let x = a as int;
        let d = b as int;
        if d != 0 {
            lemma_quotient_bounds(
                if x < 0 {
                    -x
                } else {
                    x
                },
                if d < 0 {
                    -d
                } else {
                    d
                },
            );
            assert(x * -1 == -x && d * -1 == -d);
        }
    }
    match a.checked_div(b) {
        Some(quotient) => quotient,
        None => if b == 0 {
            -1
        } else {
            i32::MIN
        },
    }
}

fn remainder(a: i32, b: i32) -> (r: i32)
    ensures
        r == alu_result(Function::Rem, a, b),
{
    proof {
        let x = a as int;
        let d = b as int;
        if d != 0 {
            lemma_quotient_bounds(
                if x < 0 {
                    -x
                } else {
                    x
                },
                if d < 0 {
                    -d
                } else {
                    d
                },
            );
            assert(x * -1 == -x && d * -1 == -d);
        }
    }
    match a.checked_rem(b) {
        Some(remainder) => remainder,
        None => if b == 0 {
            a
        } else {
            0
        },
    }
}

fn divide_unsigned(a: i32, b: i32) -> (r: i32)
    ensures
        r == alu_result(Function::Divu, a, b),
{
    let divisor: u32 = to_unsigned(b);
    if divisor == 0 {
        -1
    } else {
        to_signed(to_unsigned(a) / divisor)
    }
}

fn remainder_unsigned(a: i32, b: i32) -> (r: i32)
    ensures
        r == alu_result(Function::Remu, a, b),
{
    let divisor: u32 = to_unsigned(b);
    if divisor == 0 {
        a
    } else {
        to_signed(to_unsigned(a) % divisor)
    }
}

fn add_wrapping(a: i32, b: i32) -> (r: i32)
    ensures
        r == signed_crop(a + b),
{
    a.wrapping_add(b)
}

fn sub_wrapping(a: i32, b: i32) -> (r: i32)
    ensures
        r == signed_crop(a - b),
{
    a.wrapping_sub(b)
}

fn flag_of(b: bool) -> (r: i32)
    ensures
        r == flag(b),
{
    if b {
        1
    } else {
        0
    }
}

/// Performs one ALU operation.
pub fn alu(func: &Function, input1: i32, input2: i32) -> (output: i32)
    ensures
        output == alu_result(*func, input1, input2),
{
    match func {
        Function::Add
        | Function::Addi
        | Function::AuiPc
        | Function::Jal
        | Function::Jalr
        | Function::Lb
        | Function::Lbu
        | Function::Lh
        | Function::Lhu
        | Function::Lw
        | Function::Sb
        | Function::Sh
        | Function::Sw => add_wrapping(input1, input2),
        Function::Sub => sub_wrapping(input1, input2),
        Function::Slt | Function::Slti | Function::Blt => flag_of(input1 < input2),
        Function::Sltu | Function::Sltiu | Function::Bltu => flag_of(
            to_unsigned(input1) < to_unsigned(input2),
        ),
        Function::And | Function::Andi => input1 & input2,
        Function::Or | Function::Ori => input1 | input2,
        Function::Xor | Function::Xori => input1 ^ input2,
        Function::Sll | Function::Slli => shift_left(input1, input2),
        Function::Srl | Function::Srli => shift_right_logical(input1, input2),
        Function::Sra | Function::Srai => shift_right_arithmetic(input1, input2),
        Function::Lui => input2,
        Function::Beq => flag_of(input1 == input2),
        Function::Bne => flag_of(input1 != input2),
        Function::Bge => flag_of(input1 >= input2),
        Function::Bgeu => flag_of(to_unsigned(input1) >= to_unsigned(input2)),
        Function::Mul => input1.wrapping_mul(input2),
        Function::Mulh => mul_high_signed(input1, input2),
        Function::Mulhsu => mul_high_signed_unsigned(input1, to_unsigned(input2)),
        Function::Mulhu => to_signed(mul_high_unsigned(to_unsigned(input1), to_unsigned(input2))),
        Function::Div => divide(input1, input2),
        Function::Divu => divide_unsigned(input1, input2),
        Function::Rem => remainder(input1, input2),
        Function::Remu => remainder_unsigned(input1, input2),
        _ => 0,
    }
}

} // verus!
