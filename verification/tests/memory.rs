use riscv_5stage_simulator::elf::{extract_section, ProgramHeader, SectionHeader, PF_W, PT_LOAD};
use riscv_5stage_simulator::memory::image::{ImageError, STACK_SIZE};
use riscv_5stage_simulator::memory::{fill, ProcessMemory};
use riscv_5stage_simulator::pipeline::exception::Exception;

fn init_memory() -> ProcessMemory {
    let mut memory = ProcessMemory::default();
    memory
        .initialize_stack(8 * 1024 * 1024, &[], "test_bin", 0)
        .unwrap();
    memory
}

#[test]
fn mod_test_reading_memory() {
    let mut memory = init_memory();

    let mem_len = memory.stack.len();
    memory.stack[mem_len - 1] = 10;
    memory.stack[mem_len - 2] = 20;
    assert_eq!(memory.read::<u8>(-1i32 as u32).unwrap(), 10);
    assert_eq!(memory.read_bytes(-2i32 as u32, 2).unwrap(), &[20, 10]);
    memory.stack[mem_len - 1] = 0x10;
    memory.stack[mem_len - 2] = 0x20;
    assert_eq!(memory.read::<u16>(-2i32 as u32).unwrap(), 0x1020);
}

#[test]
fn mod_test_writing_memory() {
    let mut memory = init_memory();
    memory.write(-4i32 as u32, 600u32).unwrap();
    assert_eq!(memory.read::<u32>(-4i32 as u32).unwrap(), 600);
    memory.write(-8i32 as u32, 0x12345678u32).unwrap();
    assert_eq!(
        memory.read_bytes(-8i32 as u32, 4).unwrap(),
        &[0x78, 0x56, 0x34, 0x12]
    );

    memory.write(-8i32 as u32, 0xABCDu16).unwrap();
    assert_eq!(
        memory.read_bytes(-8i32 as u32, 4).unwrap(),
        &[0xCD, 0xAB, 0x34, 0x12]
    );

    let arr = [1u8, 2, 3, 4];
    memory.write_slice(-4i32 as u32, arr.as_ref()).unwrap();
    assert_eq!(memory.read::<u32>(-4i32 as u32).unwrap(), 0x04030201);
}

#[test]
fn signed_values_round_trip() {
    let mut memory = init_memory();
    memory.write(0u32.wrapping_sub(16), -10i8).unwrap();
    assert_eq!(memory.read::<i8>(0u32.wrapping_sub(16)), Ok(-10));
    assert_eq!(memory.read::<u8>(0u32.wrapping_sub(16)), Ok(246));
    memory.write(0u32.wrapping_sub(16), -2i16).unwrap();
    assert_eq!(memory.read::<i16>(0u32.wrapping_sub(16)), Ok(-2));
    assert_eq!(memory.read::<u16>(0u32.wrapping_sub(16)), Ok(0xfffe));
    memory.write(0u32.wrapping_sub(16), i32::MIN).unwrap();
    assert_eq!(memory.read::<i32>(0u32.wrapping_sub(16)), Ok(i32::MIN));
    assert_eq!(memory.read::<u32>(0u32.wrapping_sub(16)), Ok(0x8000_0000));
    memory.write(0u32.wrapping_sub(10), 911u32).unwrap();
    assert_eq!(memory.read::<u32>(0u32.wrapping_sub(10)), Ok(911));
}

fn small_image() -> ProcessMemory {
    ProcessMemory {
        v_address_range: (0x100, 0x110),
        read_only_range: (0x100, 0x108),
        stack_range: (0xffff_fff0, 0),
        data: (0u8..16).collect(),
        stack: vec![0xee; 16],
        stack_pointer_init: 0xffff_fff0,
    }
}

#[test]
fn address_checks() {
    let memory = small_image();
    assert_eq!(
        memory.check_address_space(0xff),
        Err(Exception::WritingToInvalidMemory(0xff))
    );
    assert_eq!(memory.check_address_space(0x100), Ok(()));
    assert_eq!(memory.check_address_space(0x10f), Ok(()));
    assert_eq!(
        memory.check_address_space(0x110),
        Err(Exception::WritingToInvalidMemory(0x110))
    );
    assert_eq!(
        memory.check_address_space(0xffff_ffef),
        Err(Exception::WritingToInvalidMemory(0xffff_ffef))
    );
    assert_eq!(memory.check_address_space(0xffff_fff0), Ok(()));
    assert_eq!(memory.check_address_space(0xffff_ffff), Ok(()));
    assert_eq!(
        memory.check_write_address_space(0x100),
        Err(Exception::WritingToReadOnlyMemory(0x100))
    );
    assert_eq!(
        memory.check_write_address_space(0x107),
        Err(Exception::WritingToReadOnlyMemory(0x107))
    );
    assert_eq!(memory.check_write_address_space(0x108), Ok(()));
    assert_eq!(memory.check_write_address_space(0xff), Ok(()));
}

#[test]
fn reads_in_both_regions() {
    let memory = small_image();
    assert_eq!(memory.read_u8(0x103), Ok(3));
    assert_eq!(memory.read_u16(0x103), Ok(0x0403));
    assert_eq!(memory.read_u32(0x104), Ok(0x0706_0504));
    assert_eq!(memory.read_inst(0x10c), Ok(0x0f0e_0d0c));
    assert_eq!(memory.read_bytes(0x10e, 2).unwrap(), &[14, 15]);
    assert_eq!(memory.read_bytes(0x10e, 0).unwrap(), &[] as &[u8]);
    assert_eq!(memory.read_u32(0xffff_fffc), Ok(0xeeee_eeee));
    // a read must not run past the end of its region
    assert_eq!(
        memory.read_u32(0x10d),
        Err(Exception::WritingToInvalidMemory(0x10d))
    );
    assert_eq!(
        memory.read_u16(0xffff_ffff),
        Err(Exception::WritingToInvalidMemory(0xffff_ffff))
    );
    assert_eq!(
        memory.read_inst(0x10e),
        Err(Exception::WritingToInvalidMemory(0x10e))
    );
    // instructions are not fetched from the stack
    assert_eq!(
        memory.read_inst(0xffff_fff0),
        Err(Exception::WritingToInvalidMemory(0xffff_fff0))
    );
    assert_eq!(
        memory.read_u8(0x50),
        Err(Exception::WritingToInvalidMemory(0x50))
    );
}

#[test]
fn read_inst_is_little_endian() {
    let mut memory = small_image();
    memory.data[8] = 0x13;
    memory.data[9] = 0x05;
    memory.data[10] = 0x15;
    memory.data[11] = 0x00;
    assert_eq!(memory.read_inst(0x108), Ok(0x0015_0513));
}

#[test]
fn writes_and_their_faults() {
    let mut memory = small_image();
    assert_eq!(
        memory.write_u32(0x104, 1),
        Err(Exception::WritingToReadOnlyMemory(0x104))
    );
    assert_eq!(
        memory.write_u8(0x110, 1),
        Err(Exception::WritingToInvalidMemory(0x110))
    );
    assert_eq!(
        memory.write_u32(0x10e, 1),
        Err(Exception::WritingToInvalidMemory(0x10e))
    );
    assert_eq!(memory.data, (0u8..16).collect::<Vec<u8>>());
    assert_eq!(memory.write_u32(0x108, 0xa1b2_c3d4), Ok(()));
    assert_eq!(memory.write_u16(0x10c, 0xe5f6), Ok(()));
    assert_eq!(memory.write_u8(0x10f, 0x77), Ok(()));
    assert_eq!(
        memory.data,
        vec![0, 1, 2, 3, 4, 5, 6, 7, 0xd4, 0xc3, 0xb2, 0xa1, 0xf6, 0xe5, 14, 0x77]
    );
    assert_eq!(memory.write_slice(0xffff_fffe, &[1, 2]), Ok(()));
    assert_eq!(memory.stack[14..], [1, 2]);
    assert_eq!(memory.write_slice(0x108, &[]), Ok(()));
    // only the first address is checked against the read-only range
    assert_eq!(
        memory.write_slice(0x107, &[9, 9]),
        Err(Exception::WritingToReadOnlyMemory(0x107))
    );
}

#[test]
fn mutable_window() {
    let mut memory = small_image();
    {
        let window = memory.read_bytes_mut(0x102, 3).unwrap();
        assert_eq!(window, &[2, 3, 4]);
        fill(window, &[0xaa, 0xbb]);
    }
    assert_eq!(memory.data[..6], [0, 1, 0xaa, 0xbb, 4, 5]);
    assert_eq!(
        memory.read_bytes_mut(0x10f, 2).err(),
        Some(Exception::WritingToInvalidMemory(0x10f))
    );
}

#[test]
fn strings_in_memory() {
    let mut memory = small_image();
    memory.data[5] = 0;
    assert_eq!(memory.read_c_string(0x101), Ok(vec![1, 2, 3, 4]));
    assert_eq!(memory.read_c_string(0x105), Ok(vec![]));
    // no zero byte before the end of the region
    assert_eq!(
        memory.read_c_string(0x106),
        Err(Exception::WritingToInvalidMemory(0x106))
    );
    assert_eq!(
        memory.read_c_string(0x10),
        Err(Exception::WritingToInvalidMemory(0x10))
    );
}

#[test]
fn growing_the_data_region() {
    let mut memory = small_image();
    memory.grow(0x105);
    assert_eq!(memory.v_address_range, (0x100, 0x110));
    memory.grow(0x110);
    assert_eq!(memory.v_address_range, (0x100, 0x111));
    assert_eq!(memory.data.len(), 17);
    assert_eq!(memory.data[16], 0);
    memory.grow(0x11f);
    assert_eq!(memory.data.len(), 32);
    // the region does not grow into the stack
    memory.grow(0xffff_fff0);
    assert_eq!(memory.v_address_range, (0x100, 0x120));
}

#[test]
fn initial_stack_of_a_process_without_headers() {
    let memory = init_memory();
    assert_eq!(memory.stack.len(), 8 * 1024 * 1024);
    assert_eq!(memory.stack_range, (0u32.wrapping_sub(8 * 1024 * 1024), 0));
    // the name and its zero byte lie at the top
    let name_addr = 0u32.wrapping_sub(9);
    assert_eq!(memory.read_bytes(name_addr, 9).unwrap(), b"test_bin\0");
    let sp = memory.stack_pointer_init;
    assert_eq!(sp % 16, 0);
    assert_eq!(sp, (name_addr - 80) & 0xffff_fff0);
    // argc, argv[0], the end of argv, the end of envp
    assert_eq!(memory.read_u32(sp), Ok(1));
    assert_eq!(memory.read_u32(sp + 4), Ok(name_addr));
    assert_eq!(memory.read_u32(sp + 8), Ok(0));
    assert_eq!(memory.read_u32(sp + 12), Ok(0));
    // the auxiliary vector
    let aux: Vec<(u32, u32)> = (0..8)
        .map(|i| {
            (
                memory.read_u32(sp + 16 + 8 * i).unwrap(),
                memory.read_u32(sp + 20 + 8 * i).unwrap(),
            )
        })
        .collect();
    assert_eq!(
        aux,
        vec![
            (9, 0),
            (5, 0),
            (4, 32),
            (3, 0),
            (6, 0),
            (23, 0),
            (25, name_addr),
            (0, 0)
        ]
    );
}

fn header(p_type: u32, offset: u32, vaddr: u32, filesz: u32, memsz: u32, flags: u32) -> ProgramHeader {
    ProgramHeader {
        p_type,
        p_offset: offset,
        p_vaddr: vaddr,
        p_paddr: vaddr,
        p_filesz: filesz,
        p_memsz: memsz,
        p_flags: flags,
        p_align: 0x1000,
    }
}

#[test]
fn image_of_a_program() {
    let file: Vec<u8> = (0u8..64).collect();
    let headers = [
        header(PT_LOAD, 8, 0x100, 16, 16, 5),
        header(6, 0, 0, 0, 0, 4),
        header(PT_LOAD, 32, 0x120, 4, 12, 4 | PF_W),
    ];
    let memory = ProcessMemory::new(&headers, &file, "prog", 0x104).unwrap();
    assert_eq!(memory.v_address_range, (0, 0x12c));
    assert_eq!(memory.read_only_range, (0x100, 0x110));
    assert_eq!(memory.data.len(), 0x12c);
    assert!(memory.data[..0x100].iter().all(|b| *b == 0));
    assert_eq!(memory.data[0x100..0x110], file[8..24]);
    assert!(memory.data[0x110..0x120].iter().all(|b| *b == 0));
    assert_eq!(memory.data[0x120..0x124], file[32..36]);
    assert!(memory.data[0x124..].iter().all(|b| *b == 0));
    assert_eq!(memory.stack.len(), STACK_SIZE as usize);
    assert_eq!(memory.stack_range, (0u32.wrapping_sub(STACK_SIZE), 0));

    // the program headers lie at the top of the stack, the first one highest
    let first = 0u32.wrapping_sub(32);
    let last = 0u32.wrapping_sub(96);
    assert_eq!(memory.read_bytes(first, 32).unwrap(), headers[0].to_bytes());
    assert_eq!(memory.read_bytes(last, 32).unwrap(), headers[2].to_bytes());
    assert_eq!(memory.read_u32(first), Ok(PT_LOAD));
    assert_eq!(memory.read_u32(first + 8), Ok(0x100));
    let name_addr = last - 5;
    assert_eq!(memory.read_bytes(name_addr, 5).unwrap(), b"prog\0");
    let sp = memory.stack_pointer_init;
    assert_eq!(sp % 16, 0);
    assert_eq!(memory.read_u32(sp), Ok(1));
    assert_eq!(memory.read_u32(sp + 4), Ok(name_addr));
    assert_eq!(memory.read_u32(sp + 16), Ok(9));
    assert_eq!(memory.read_u32(sp + 20), Ok(0x104));
    assert_eq!(memory.read_u32(sp + 24), Ok(5));
    assert_eq!(memory.read_u32(sp + 28), Ok(3));
    assert_eq!(memory.read_u32(sp + 40), Ok(3));
    assert_eq!(memory.read_u32(sp + 44), Ok(last));

    // the read-only segment cannot be written, the other one can
    let mut memory = memory;
    assert_eq!(
        memory.write_u8(0x100, 1),
        Err(Exception::WritingToReadOnlyMemory(0x100))
    );
    assert_eq!(memory.write_u8(0x120, 1), Ok(()));
}

#[test]
fn segments_that_do_not_fit() {
    let file: Vec<u8> = (0u8..64).collect();
    // bytes beyond the end of the file
    assert_eq!(
        ProcessMemory::new(&[header(PT_LOAD, 60, 0x100, 8, 8, 5)], &file, "p", 0).err(),
        Some(ImageError::Segment(0))
    );
    // larger in the file than in memory
    assert_eq!(
        ProcessMemory::new(&[header(PT_LOAD, 0, 0x100, 8, 4, 5)], &file, "p", 0).err(),
        Some(ImageError::Segment(0))
    );
    // beyond the address space
    assert_eq!(
        ProcessMemory::new(&[header(PT_LOAD, 0, 0xffff_fff0, 8, 0x20, 5)], &file, "p", 0).err(),
        Some(ImageError::Segment(0))
    );
    // below the end of the segment before
    let headers = [
        header(PT_LOAD, 0, 0x100, 8, 8, 5),
        header(1234, 0, 0, 0, 0, 0),
        header(PT_LOAD, 8, 0x104, 8, 8, 5),
    ];
    assert_eq!(
        ProcessMemory::new(&headers, &file, "p", 0).err(),
        Some(ImageError::Segment(2))
    );
}

#[test]
fn names_and_stacks_that_do_not_fit() {
    assert_eq!(
        ProcessMemory::new(&[], &[], "a\0b", 0).err(),
        Some(ImageError::Name)
    );
    let mut memory = ProcessMemory::default();
    // a stack of 64 bytes cannot hold a name of 10 bytes with vector and arguments
    let aux_addr = ((0u32.wrapping_sub(9) - 80) & 0xffff_fff0) + 16;
    assert_eq!(
        memory.initialize_stack(64, &[], "test_bin", 0),
        Err(ImageError::Stack(Exception::WritingToInvalidMemory(
            aux_addr
        )))
    );
}

#[test]
fn finding_a_section() {
    let names = b"\0.text\0.data\0.bss";
    let headers = [
        SectionHeader { sh_name: 0, sh_type: 0, ..Default::default() },
        SectionHeader { sh_name: 1, sh_type: 8, sh_addr: 0x1, sh_size: 0x2, ..Default::default() },
        SectionHeader { sh_name: 1, sh_type: 1, sh_addr: 0x10114, sh_size: 0x51830, ..Default::default() },
        SectionHeader { sh_name: 7, sh_type: 1, sh_addr: 0x70000, sh_size: 0x100, ..Default::default() },
        SectionHeader { sh_name: 1, sh_type: 1, sh_addr: 0x3, sh_size: 0x4, ..Default::default() },
        SectionHeader { sh_name: 13, sh_type: 1, sh_addr: 0x5, sh_size: 0x6, ..Default::default() },
        SectionHeader { sh_name: 99, sh_type: 1, ..Default::default() },
    ];
    let t_section = extract_section(&headers, names, b".text").unwrap();
    assert_eq!(t_section.base_addr, 0x10114);
    assert_eq!(t_section.size, 0x51830);
    assert!(t_section.data.is_empty());
    assert_eq!(extract_section(&headers, names, b".data").unwrap().base_addr, 0x70000);
    // the last name ends with the table
    assert_eq!(extract_section(&headers, names, b".bss").unwrap().base_addr, 0x5);
    assert!(extract_section(&headers, names, b".tex").is_none());
    assert!(extract_section(&headers, names, b".text2").is_none());
    assert!(extract_section(&headers, names, b"text").is_none());
    assert!(extract_section(&headers[..2], names, b".text").is_none());
    assert!(extract_section(&[], names, b".text").is_none());
}
