use riscv_5stage_simulator::consts;
use riscv_5stage_simulator::memory::instruction::{
    captures, extract_addr, extract_insn, parse_hex, Captures, InstructionMemory, ListingError,
    ParseError,
};

#[test]
fn regex() {
    let haystack: &str = "     16c:	00 15 05 13    addi x10 , x10 , 1";
    let caps = captures(haystack.as_bytes()).unwrap();
    assert_eq!("16c".as_bytes(), caps.addr.as_slice());
    assert_eq!("00".as_bytes(), caps.byte1.as_slice());
    assert_eq!("15".as_bytes(), caps.byte2.as_slice());
    assert_eq!("05".as_bytes(), caps.byte3.as_slice());
    assert_eq!("13".as_bytes(), caps.byte4.as_slice());

    let haystack: &str = "1c4 <FAIL____src_ins_assembly_test_s>:";
    assert!(captures(haystack.as_bytes()).is_none());
}

#[test]
fn extract_addr_from_regex_captures() {
    let haystack: &str = "     16c:	00 15 05 13    addi x10 , x10 , 1";
    let caps = captures(haystack.as_bytes()).unwrap();
    let addr = extract_addr(&caps).unwrap();
    assert_eq!(addr, 0x16c);
}

#[test]
fn extract_insn_from_regex_captures() {
    let haystack: &str = "     16c:	00 15 05 13    addi x10 , x10 , 1";
    let caps = captures(haystack.as_bytes()).unwrap();
    let insn = extract_insn(&caps).unwrap();
    assert_eq!(insn, 0x00_15_05_13);
}

#[test]
fn lines_that_hold_no_instruction() {
    // no blank before the address
    assert!(captures(b"16c:\t00 15 05 13").is_none());
    // no colon
    assert!(captures(b"  16c \t00 15 05 13").is_none());
    // no blank after the colon
    assert!(captures(b"  16c:00 15 05 13").is_none());
    // a byte of one digit
    assert!(captures(b"  16c: 00 1 05 13").is_none());
    // two blanks between bytes
    assert!(captures(b"  16c: 00  15 05 13").is_none());
    // three bytes only
    assert!(captures(b"  16c: 00 15 05").is_none());
    // a digit that is not hexadecimal
    assert!(captures(b"  16g: 00 15 05 13").is_none());
    // a line break in the rest of the line
    assert!(captures(b"  16c: 00 15 05 13 addi\nmore").is_none());
    assert!(captures(b"").is_none());
    // the shortest instruction line
    assert!(captures(b" 0: AB cd 0f 9A").is_some());
}

#[test]
fn parse_hex_values_and_errors() {
    assert_eq!(parse_hex(b"0"), Ok(0));
    assert_eq!(parse_hex(b"ff"), Ok(255));
    assert_eq!(parse_hex(b"DeadBeef"), Ok(0xdead_beef));
    assert_eq!(parse_hex(b"ffffffff"), Ok(u32::MAX));
    assert_eq!(parse_hex(b"00000000ffffffff"), Ok(u32::MAX));
    assert_eq!(parse_hex(b"+1f"), Ok(0x1f));
    assert_eq!(parse_hex(b""), Err(ParseError::Empty));
    assert_eq!(parse_hex(b"+"), Err(ParseError::InvalidDigit));
    assert_eq!(parse_hex(b"-1"), Err(ParseError::InvalidDigit));
    assert_eq!(parse_hex(b"12g4"), Err(ParseError::InvalidDigit));
    assert_eq!(parse_hex(b"100000000"), Err(ParseError::Overflow));
    assert_eq!(
        parse_hex(b"0").ok(),
        u32::from_str_radix("0", 16).ok()
    );
    assert_eq!(
        parse_hex(b"+7fffffff").ok(),
        u32::from_str_radix("+7fffffff", 16).ok()
    );
}

#[test]
fn extract_from_captures_that_hold_no_number() {
    let caps = Captures {
        addr: b"1ffffffff".to_vec(),
        byte1: b"0".to_vec(),
        byte2: b"x".to_vec(),
        byte3: Vec::new(),
        byte4: Vec::new(),
    };
    assert_eq!(extract_addr(&caps), Err(ParseError::Overflow));
    assert_eq!(extract_insn(&caps), Err(ParseError::InvalidDigit));
}

fn lines(text: &[&str]) -> Vec<Vec<u8>> {
    text.iter().map(|line| line.as_bytes().to_vec()).collect()
}

#[test]
fn load_a_listing() {
    let listing = lines(&[
        "00000000 <_start>:",
        "       0:\t00 15 05 13    addi x10 , x10 , 1",
        "",
        "       4:\t00 20 81 b3    add x3 , x1 , x2",
        "       8:\tfe 00 9e e3    bne x1 , x0 , -4",
    ]);
    let memory = InstructionMemory::new(&listing).unwrap();
    assert_eq!(
        memory.mem,
        vec![0x0015_0513, 0x0020_81b3, 0xfe00_9ee3, consts::HALT]
    );
    assert_eq!(memory.read(0), 0x0015_0513);
    assert_eq!(memory.read(4), 0x0020_81b3);
    assert_eq!(memory.read(7), 0x0020_81b3);
    assert_eq!(memory.read(12), consts::HALT);
}

#[test]
fn load_an_empty_listing() {
    let memory = InstructionMemory::new(&Vec::new()).unwrap();
    assert_eq!(memory.mem, vec![consts::HALT]);
}

#[test]
fn load_a_listing_with_a_wrong_address() {
    let listing = lines(&[
        "       0:\t00 15 05 13    addi x10 , x10 , 1",
        "       8:\t00 20 81 b3    add x3 , x1 , x2",
    ]);
    assert_eq!(
        InstructionMemory::new(&listing).err(),
        Some(ListingError::Address(1))
    );
    let listing = lines(&["      16c:\t00 15 05 13    addi x10 , x10 , 1"]);
    assert_eq!(
        InstructionMemory::new(&listing).err(),
        Some(ListingError::Address(0))
    );
}

#[test]
fn load_a_listing_with_an_address_that_is_too_long() {
    let listing = lines(&["  100000000:\t00 15 05 13    addi x10 , x10 , 1"]);
    assert_eq!(
        InstructionMemory::new(&listing).err(),
        Some(ListingError::Number(0))
    );
}
