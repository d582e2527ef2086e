//! Read-only instruction memory, loaded from a disassembly listing.
//!
//! A line of a listing that holds an instruction looks like this:
//!
//! ```text
//!      16c:	00 15 05 13    addi x10 , x10 , 1
//! ```
//!
//! It starts with blanks, the address in hexadecimal digits and a colon;
//! after more blanks come the four bytes of the instruction, two digits each
//! with one blank between them; the rest of the line is free. Any other line
//! holds no instruction.

use vstd::prelude::*;
use crate::consts;

verus! {

/// Whether `byte` is a space or a tab.
pub open spec fn is_blank(byte: u8) -> bool {
    byte == 0x20 || byte == 0x09
}

/// Whether `byte` is a hexadecimal digit.
pub open spec fn is_hex_digit(byte: u8) -> bool {
    (0x30 <= byte <= 0x39) || (0x41 <= byte <= 0x46) || (0x61 <= byte <= 0x66)
}

/// The value of the hexadecimal digit `byte`; zero for any other byte.
pub open spec fn digit_value(byte: u8) -> int {
    if 0x30 <= byte <= 0x39 {
        byte - 0x30
    } else if 0x41 <= byte <= 0x46 {
        byte - 0x41 + 10
    } else if 0x61 <= byte <= 0x66 {
        byte - 0x61 + 10
    } else {
        0
    }
}

/// The number of blanks in `line` from `start` on.
pub open spec fn blank_run(line: Seq<u8>, start: int) -> int
    decreases line.len() - start,
{
    if 0 <= start < line.len() && is_blank(line[start]) {
        1 + blank_run(line, start + 1)
    } else {
        0
    }
}

/// The number of hexadecimal digits in `line` from `start` on.
pub open spec fn hex_run(line: Seq<u8>, start: int) -> int
    decreases line.len() - start,
{
    if 0 <= start < line.len() && is_hex_digit(line[start]) {
        1 + hex_run(line, start + 1)
    } else {
        0
    }
}

/// The place of the first instruction byte in a line that starts with blanks,
/// an address and a colon followed by blanks.
pub open spec fn bytes_start(line: Seq<u8>) -> int {
    let blanks = blank_run(line, 0);
    let digits = hex_run(line, blanks);
    blanks + digits + 1 + blank_run(line, blanks + digits + 1)
}

/// Whether `line` holds an instruction.
pub open spec fn is_instruction_line(line: Seq<u8>) -> bool {
    let blanks = blank_run(line, 0);
    let digits = hex_run(line, blanks);
    let colon = blanks + digits;
    let start = bytes_start(line);
    &&& blanks >= 1
    &&& digits >= 1
    &&& colon < line.len()
    &&& line[colon] == 0x3a
    &&& blank_run(line, colon + 1) >= 1
    &&& start + 11 <= line.len()
    &&& is_hex_digit(line[start]) && is_hex_digit(line[start + 1])
    &&& is_blank(line[start + 2])
    &&& is_hex_digit(line[start + 3]) && is_hex_digit(line[start + 4])
    &&& is_blank(line[start + 5])
    &&& is_hex_digit(line[start + 6]) && is_hex_digit(line[start + 7])
    &&& is_blank(line[start + 8])
    &&& is_hex_digit(line[start + 9]) && is_hex_digit(line[start + 10])
    &&& forall|i: int| start + 11 <= i < line.len() ==> line[i] != 0x0a
}

/// The parts of a line that holds an instruction: the digits of the address
/// and of the four bytes.
#[derive(Debug)]
pub struct Captures {
    pub addr: Vec<u8>,
    pub byte1: Vec<u8>,
    pub byte2: Vec<u8>,
    pub byte3: Vec<u8>,
    pub byte4: Vec<u8>,
}

/// Why a string of hexadecimal digits is no number of 32 bits.
#[derive(Debug, Clone, Copy, PartialEq, Eq, Structural)]
pub enum ParseError {
    /// The string holds no digit.
    Empty,
    /// The string holds something else than hexadecimal digits.
    InvalidDigit,
    /// The number does not fit in 32 bits.
    Overflow,
}

/// The number that the hexadecimal digits `digits` denote.
pub open spec fn hex_value(digits: Seq<u8>) -> int
    decreases digits.len(),
{
    if digits.len() == 0 {
        0
    } else {
        hex_value(digits.drop_last()) * 16 + digit_value(digits.last())
    }
}

/// Whether every byte of `digits` is a hexadecimal digit.
pub open spec fn all_hex(digits: Seq<u8>) -> bool {
    forall|i: int| 0 <= i < digits.len() ==> is_hex_digit(#[trigger] digits[i])
}

/// What parsing `text` as a hexadecimal number of 32 bits gives. A plus sign
/// may stand before the digits.
pub open spec fn parsed_hex(text: Seq<u8>) -> Result<u32, ParseError> {
    let digits = if text.len() > 1 && text[0] == 0x2b {
        text.drop_first()
    } else {
        text
    };
    if text.len() == 0 {
        Err(ParseError::Empty)
    } else if !all_hex(digits) {
        Err(ParseError::InvalidDigit)
    } else if hex_value(digits) > u32::MAX {
        Err(ParseError::Overflow)
    } else {
        Ok(hex_value(digits) as u32)
    }
}

/// The value of a sequence of digits does not shrink when digits follow.
proof fn lemma_hex_value_grows(digits: Seq<u8>, n: int)
    requires
        0 <= n <= digits.len(),
    ensures
        0 <= hex_value(digits.take(n)) <= hex_value(digits),
    decreases digits.len() - n,
{
    lemma_hex_value_nonnegative(digits.take(n));
    if n < digits.len() {
        lemma_hex_value_grows(digits, n + 1);
        assert(digits.take(n + 1).drop_last() =~= digits.take(n));
    } else {
        assert(digits.take(n) =~= digits);
    }
}

proof fn lemma_hex_value_nonnegative(digits: Seq<u8>)
    ensures
        hex_value(digits) >= 0,
    decreases digits.len(),
{
    if digits.len() > 0 {
        lemma_hex_value_nonnegative(digits.drop_last());
    }
}

/// Tells a space or a tab from other bytes.
fn blank(byte: u8) -> (r: bool)
    ensures
        r == is_blank(byte),
{
    byte == 0x20 || byte == 0x09
}

/// The value of a hexadecimal digit, or `None` for another byte.
fn hex_digit(byte: u8) -> (r: Option<u8>)
    ensures
        r is Some <==> is_hex_digit(byte),
        r matches Some(v) ==> v == digit_value(byte) && v < 16,
{
    if 0x30 <= byte && byte <= 0x39 {
        Some(byte - 0x30)
    } else if 0x41 <= byte && byte <= 0x46 {
        Some(byte - 0x41 + 10)
    } else if 0x61 <= byte && byte <= 0x66 {
        Some(byte - 0x61 + 10)
    } else {
        None
    }
}

/// Parses `text` as a hexadecimal number of 32 bits.
pub fn parse_hex(text: &[u8]) -> (r: Result<u32, ParseError>)
    ensures
        r == parsed_hex(text@),
{
    if text.len() == 0 {
        return Err(ParseError::Empty);
    }
    let first: usize = if text.len() > 1 && text[0] == 0x2b {
        1
    } else {
        0
    };
    let ghost digits = if first == 1 {
        text@.drop_first()
    } else {
        text@
    };
    proof {
        assert(digits =~= text@.subrange(first as int, text@.len() as int));
        assert(digits.take(0) =~= Seq::<u8>::empty());
    }
    let mut value: u64 = 0;
    let mut overflow: bool = false;
    let mut i: usize = first;
    while i < text.len()
        invariant
            first <= i <= text@.len(),
            text@.len() > 0,
            digits == (if text@.len() > 1 && text@[0] == 0x2b {
                text@.drop_first()
            } else {
                text@
            }),
            digits == text@.subrange(first as int, text@.len() as int),
            forall|j: int| 0 <= j < i - first ==> is_hex_digit(#[trigger] digits[j]),
            !overflow ==> value == hex_value(digits.take(i - first)) && value <= u32::MAX,
            overflow ==> hex_value(digits.take(i - first)) > u32::MAX,
        decreases text@.len() - i,
    {
        let digit: u8 = match hex_digit(text[i]) {
            Some(digit) => digit,
            None => {
                proof {
                    assert(digits[i - first] == text@[i as int]);
                    assert(!is_hex_digit(digits[i - first]));
                    assert(!all_hex(digits));
                }
                return Err(ParseError::InvalidDigit);
            },
        };
        proof {
            assert(digits[i - first] == text@[i as int]);
            assert(digits.take(i - first + 1).drop_last() =~= digits.take(i - first));
            assert(digits.take(i - first + 1).last() == text@[i as int]);
            lemma_hex_value_nonnegative(digits.take(i - first));
        }
        if !overflow {
            value = value * 16 + digit as u64;
            if value > u32::MAX as u64 {
                overflow = true;
            }
        }
        i += 1;
    }
    proof {
        assert(digits.take(digits.len() as int) =~= digits);
        assert(all_hex(digits));
    }
    if overflow {
        Err(ParseError::Overflow)
    } else {
        Ok(value as u32)
    }
}

/// The number of blanks in `line` from `start` on.
fn count_blanks(line: &[u8], start: usize) -> (count: usize)
    requires
        start <= line@.len(),
    ensures
        count == blank_run(line@, start as int),
        start + count <= line@.len(),
    decreases line@.len() - start,
{
    if start < line.len() && blank(line[start]) {
        1 + count_blanks(line, start + 1)
    } else {
        0
    }
}

/// The number of hexadecimal digits in `line` from `start` on.
fn count_hex_digits(line: &[u8], start: usize) -> (count: usize)
    requires
        start <= line@.len(),
    ensures
        count == hex_run(line@, start as int),
        start + count <= line@.len(),
    decreases line@.len() - start,
{
    if start < line.len() && hex_digit(line[start]).is_some() {
        1 + count_hex_digits(line, start + 1)
    } else {
        0
    }
}

/// Copies the bytes of `line` from `start` up to `end`.
fn copy_range(line: &[u8], start: usize, end: usize) -> (bytes: Vec<u8>)
    requires
        start <= end <= line@.len(),
    ensures
        bytes@ == line@.subrange(start as int, end as int),
{
    let mut bytes: Vec<u8> = Vec::new();
    let mut i: usize = start;
    while i < end
        invariant
            start <= i <= end <= line@.len(),
            bytes@ == line@.subrange(start as int, i as int),
        decreases end - i,
    {
        bytes.push(line[i]);
        proof {
            assert(bytes@ =~= line@.subrange(start as int, i + 1));
        }
        i += 1;
    }
    bytes
}

/// Takes a line of a listing apart. Returns `None` for a line that holds no
/// instruction.
pub fn captures(line: &[u8]) -> (caps: Option<Captures>)
    ensures
        caps is Some <==> is_instruction_line(line@),
        caps matches Some(c) ==> {
            let blanks = blank_run(line@, 0);
            let start = bytes_start(line@);
            &&& c.addr@ == line@.subrange(blanks, blanks + hex_run(line@, blanks))
            &&& c.byte1@ == line@.subrange(start, start + 2)
            &&& c.byte2@ == line@.subrange(start + 3, start + 5)
            &&& c.byte3@ == line@.subrange(start + 6, start + 8)
            &&& c.byte4@ == line@.subrange(start + 9, start + 11)
        },
{
    let len: usize = line.len();
    let blanks: usize = count_blanks(line, 0);
    if blanks == 0 {
        return None;
    }
    let digits: usize = count_hex_digits(line, blanks);
    if digits == 0 {
        return None;
    }
    let colon: usize = blanks + digits;
    if colon >= len || line[colon] != 0x3a {
        return None;
    }
    let gap: usize = count_blanks(line, colon + 1);
    if gap == 0 {
        return None;
    }
    let start: usize = colon + 1 + gap;
    proof {
        assert(start == bytes_start(line@));
    }
    if len - start < 11 {
        return None;
    }
    let hex_ok: bool = hex_digit(line[start]).is_some() && hex_digit(line[start + 1]).is_some()
        && hex_digit(line[start + 3]).is_some() && hex_digit(line[start + 4]).is_some()
        && hex_digit(line[start + 6]).is_some() && hex_digit(line[start + 7]).is_some()
        && hex_digit(line[start + 9]).is_some() && hex_digit(line[start + 10]).is_some();
    let blanks_ok: bool = blank(line[start + 2]) && blank(line[start + 5]) && blank(
        line[start + 8],
    );
    if !hex_ok || !blanks_ok {
        return None;
    }
    proof {
        assert(is_instruction_line(line@) <==> (forall|j: int|
            start + 11 <= j < line@.len() ==> line@[j] != 0x0a));
    }
    let mut i: usize = start + 11;
    while i < len
        invariant
            len == line@.len(),
            start + 11 <= i <= len,
            is_instruction_line(line@) <==> (forall|j: int|
                start + 11 <= j < line@.len() ==> line@[j] != 0x0a),
            forall|j: int| start + 11 <= j < i ==> line@[j] != 0x0a,
        decreases len - i,
    {
        if line[i] == 0x0a {
            proof {
                assert(line@[i as int] == 0x0a);
            }
            return None;
        }
        i += 1;
    }
    Some(
        Captures {
            addr: copy_range(line, blanks, colon),
            byte1: copy_range(line, start, start + 2),
            byte2: copy_range(line, start + 3, start + 5),
            byte3: copy_range(line, start + 6, start + 8),
            byte4: copy_range(line, start + 9, start + 11),
        },
    )
}

/// The address that a line of a listing gives.
pub fn extract_addr(caps: &Captures) -> (r: Result<u32, ParseError>)
    ensures
        r == parsed_hex(caps.addr@),
{
    parse_hex(caps.addr.as_slice())
}

/// The instruction word that a line of a listing gives: its four bytes, the
/// first being the most significant.
pub fn extract_insn(caps: &Captures) -> (r: Result<u32, ParseError>)
    ensures
        r == parsed_hex(caps.byte1@ + caps.byte2@ + caps.byte3@ + caps.byte4@),
{
    let mut digits: Vec<u8> = Vec::new();
    proof {
        assert(digits@ =~= caps.byte1@.take(0));
    }
    let mut i: usize = 0;
    while i < caps.byte1.len()
        invariant
            i <= caps.byte1@.len(),
            digits@ == caps.byte1@.take(i as int),
        decreases caps.byte1@.len() - i,
    {
        digits.push(caps.byte1[i]);
        proof {
            assert(digits@ =~= caps.byte1@.take(i + 1));
        }
        i += 1;
    }
    proof {
        assert(digits@ =~= caps.byte1@ + caps.byte2@.take(0));
    }
    let mut i: usize = 0;
    while i < caps.byte2.len()
        invariant
            i <= caps.byte2@.len(),
            digits@ == caps.byte1@ + caps.byte2@.take(i as int),
        decreases caps.byte2@.len() - i,
    {
        digits.push(caps.byte2[i]);
        proof {
            assert(digits@ =~= caps.byte1@ + caps.byte2@.take(i + 1));
        }
        i += 1;
    }
    proof {
        assert(digits@ =~= caps.byte1@ + caps.byte2@ + caps.byte3@.take(0));
    }
    let mut i: usize = 0;
    while i < caps.byte3.len()
        invariant
            i <= caps.byte3@.len(),
            digits@ == caps.byte1@ + caps.byte2@ + caps.byte3@.take(i as int),
        decreases caps.byte3@.len() - i,
    {
        digits.push(caps.byte3[i]);
        proof {
            assert(digits@ =~= caps.byte1@ + caps.byte2@ + caps.byte3@.take(i + 1));
        }
        i += 1;
    }
    proof {
        assert(digits@ =~= caps.byte1@ + caps.byte2@ + caps.byte3@ + caps.byte4@.take(0));
    }
    let mut i: usize = 0;
    while i < caps.byte4.len()
        invariant
            i <= caps.byte4@.len(),
            digits@ == caps.byte1@ + caps.byte2@ + caps.byte3@ + caps.byte4@.take(i as int),
        decreases caps.byte4@.len() - i,
    {
        digits.push(caps.byte4[i]);
        proof {
            assert(digits@ =~= caps.byte1@ + caps.byte2@ + caps.byte3@ + caps.byte4@.take(i + 1));
        }
        i += 1;
    }
    proof {
        assert(digits@ =~= caps.byte1@ + caps.byte2@ + caps.byte3@ + caps.byte4@);
    }
    parse_hex(digits.as_slice())
}

/// The lines of a listing as sequences of bytes.
pub open spec fn texts(lines: Seq<Vec<u8>>) -> Seq<Seq<u8>> {
    lines.map_values(|line: Vec<u8>| line@)
}

/// Why a listing cannot be loaded.
#[derive(Debug, Clone, Copy, PartialEq, Eq, Structural)]
pub enum ListingError {
    /// The line with this number, counted from zero, holds digits that are
    /// no number of 32 bits.
    Number(usize),
    /// The line with this number gives an address that is not the place of
    /// its instruction in the memory.
    Address(usize),
}

/// A read-only instruction memory.
pub struct InstructionMemory {
    pub mem: Vec<u32>,
}

impl InstructionMemory {
    /// The instruction word that an instruction line gives.
    pub open spec fn line_word(line: Seq<u8>) -> Result<u32, ParseError> {
        let start = bytes_start(line);
        parsed_hex(
            line.subrange(start, start + 2) + line.subrange(start + 3, start + 5) + line.subrange(
                start + 6,
                start + 8,
            ) + line.subrange(start + 9, start + 11),
        )
    }

    /// The address that an instruction line gives.
    pub open spec fn line_addr(line: Seq<u8>) -> Result<u32, ParseError> {
        let blanks = blank_run(line, 0);
        parsed_hex(line.subrange(blanks, blanks + hex_run(line, blanks)))
    }

    /// The words that the first `n` lines of a listing load, or the first
    /// line among them that cannot be loaded. Each instruction line gives
    /// one word, and its address must be the place of the word, in bytes.
    pub open spec fn loaded(lines: Seq<Seq<u8>>, n: int) -> Result<Seq<u32>, ListingError>
        decreases n,
    {
        if n <= 0 {
            Ok(Seq::empty())
        } else {
            match InstructionMemory::loaded(lines, n - 1) {
                Err(e) => Err(e),
                Ok(mem) => {
                    let line = lines[n - 1];
                    if !is_instruction_line(line) {
                        Ok(mem)
                    } else {
                        match (
                            InstructionMemory::line_addr(line),
                            InstructionMemory::line_word(line),
                        ) {
                            (Ok(addr), Ok(word)) => if mem.len() <= 0x3fff_ffff && addr
                                == mem.len() * 4 {
                                Ok(mem.push(word))
                            } else {
                                Err(ListingError::Address((n - 1) as usize))
                            },
                            _ => Err(ListingError::Number((n - 1) as usize)),
                        }
                    }
                },
            }
        }
    }

    /// A line that cannot be loaded stays the first such line when more
    /// lines follow.
    proof fn lemma_error_persists(lines: Seq<Seq<u8>>, n: int, m: int)
        requires
            0 <= n <= m,
            InstructionMemory::loaded(lines, n) is Err,
        ensures
            InstructionMemory::loaded(lines, m) == InstructionMemory::loaded(lines, n),
        decreases m - n,
    {
        if n < m {
            InstructionMemory::lemma_error_persists(lines, n, m - 1);
        }
    }

    /// Loads the lines of a listing. The first instruction line must have
    /// address 0, and each following one the address of the word after;
    /// lines that hold no instruction are ignored. The memory ends with the
    /// halt signal.
    pub fn new(lines: &Vec<Vec<u8>>) -> (r: Result<InstructionMemory, ListingError>)
        ensures
            match InstructionMemory::loaded(texts(lines@), lines@.len() as int) {
                Ok(mem) => r is Ok && r->Ok_0.mem@ == mem.push(consts::HALT),
                Err(e) => r is Err && r->Err_0 == e,
            },
    {
        let ghost listing = texts(lines@);
        let mut mem: Vec<u32> = Vec::new();
        let mut n: usize = 0;
        while n < lines.len()
            invariant
                n <= lines@.len(),
                listing == texts(lines@),
                InstructionMemory::loaded(listing, n as int) == Ok::<Seq<u32>, ListingError>(mem@),
            decreases lines@.len() - n,
        {
            let line: &Vec<u8> = &lines[n];
            proof {
                assert(listing[n as int] == line@);
            }
            match captures(line.as_slice()) {
                Some(caps) => {
                    let addr: Result<u32, ParseError> = extract_addr(&caps);
                    let insn: Result<u32, ParseError> = extract_insn(&caps);
                    match (addr, insn) {
                        (Ok(addr), Ok(insn)) => {
                            if mem.len() > 0x3fff_ffff || addr != (mem.len() * 4) as u32 {
                                proof {
                                    InstructionMemory::lemma_error_persists(
                                        listing,
                                        n + 1,
                                        lines@.len() as int,
                                    );
                                }
                                return Err(ListingError::Address(n));
                            }
                            mem.push(insn);
                        },
                        _ => {
                            proof {
                                InstructionMemory::lemma_error_persists(
                                    listing,
                                    n + 1,
                                    lines@.len() as int,
                                );
                            }
                            return Err(ListingError::Number(n));
                        },
                    }
                },
                None => {},
            }
            n += 1;
        }
        mem.push(consts::HALT);
        Ok(InstructionMemory { mem })
    }

    /// Reads an instruction from `InstructionMemory`.
    ///
    /// The requested address is right-shifted by 2 to ensure word alignment.
    pub fn read(&self, addr: usize) -> (word: u32)
        requires
            addr / 4 < self.mem@.len(),
        ensures
            word == self.mem@[addr as int / 4],
    {
        assert(addr >> 2 == addr / 4) by (bit_vector);
        let word_addr: usize = addr >> 2;
        self.mem[word_addr]
    }
}

} // verus!
