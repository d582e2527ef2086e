//! The parts of an ELF file that the loader reads, as plain values: program
//! headers, which say how the file maps into memory, and section headers.

use vstd::prelude::*;
use crate::memory::word_bytes;

verus! {

/// The type of a program header that describes a loadable segment.
pub const PT_LOAD: u32 = 1;

/// The flag of a segment that may be written.
pub const PF_W: u32 = 2;

/// The type of a section that holds data of the program.
pub const SHT_PROGBITS: u32 = 1;

/// The size of a program header of a 32-bit file, in bytes.
pub const SIZEOF_PHDR: u32 = 32;

/// A program header of a 32-bit ELF file.
#[derive(Clone, Copy, Debug, Default, PartialEq, Eq, Structural)]
pub struct ProgramHeader {
    /// Segment type
    pub p_type: u32,
    /// Segment file offset
    pub p_offset: u32,
    /// Segment virtual address
    pub p_vaddr: u32,
    /// Segment physical address
    pub p_paddr: u32,
    /// Segment size in file
    pub p_filesz: u32,
    /// Segment size in memory
    pub p_memsz: u32,
    /// Segment flags
    pub p_flags: u32,
    /// Segment alignment
    pub p_align: u32,
}

impl ProgramHeader {
    /// Whether the header describes a segment that is loaded into memory.
    pub open spec fn loadable(self) -> bool {
        self.p_type == PT_LOAD
    }

    /// Whether the segment may be written.
    pub open spec fn writable(self) -> bool {
        self.p_flags & PF_W != 0
    }

    /// The header as it stands in a file: its eight words in little-endian
    /// order.
    #[verifier::opaque]
    pub open spec fn bytes(self) -> Seq<u8> {
        word_bytes(self.p_type) + word_bytes(self.p_offset) + word_bytes(self.p_vaddr)
            + word_bytes(self.p_paddr) + word_bytes(self.p_filesz) + word_bytes(self.p_memsz)
            + word_bytes(self.p_flags) + word_bytes(self.p_align)
    }

    /// Whether the header describes a segment that is loaded into memory.
    pub fn is_load(&self) -> (r: bool)
        ensures
            r == self.loadable(),
    {
        self.p_type == PT_LOAD
    }

    /// Whether the segment may be written.
    pub fn is_write(&self) -> (r: bool)
        ensures
            r == self.writable(),
    {
        self.p_flags & PF_W != 0
    }

    /// The header as it stands in a file.
    pub fn to_bytes(&self) -> (bytes: Vec<u8>)
        ensures
            bytes@ == self.bytes(),
            bytes@.len() == SIZEOF_PHDR,
    {
        let mut bytes: Vec<u8> = Vec::new();
        push_word(&mut bytes, self.p_type);
        push_word(&mut bytes, self.p_offset);
        push_word(&mut bytes, self.p_vaddr);
        push_word(&mut bytes, self.p_paddr);
        push_word(&mut bytes, self.p_filesz);
        push_word(&mut bytes, self.p_memsz);
        push_word(&mut bytes, self.p_flags);
        push_word(&mut bytes, self.p_align);
        proof {
            reveal(ProgramHeader::bytes);
            assert(bytes@ =~= self.bytes());
        }
        bytes
    }
}

/// Appends the four bytes of `word`, in little-endian order, to `bytes`.
pub fn push_word(bytes: &mut Vec<u8>, word: u32)
    ensures
        final(bytes)@ == old(bytes)@ + word_bytes(word),
{
    bytes.push((word % 0x100) as u8);
    bytes.push(((word / 0x100) % 0x100) as u8);
    bytes.push(((word / 0x1_0000) % 0x100) as u8);
    bytes.push((word / 0x100_0000) as u8);
    proof {
        assert(bytes@ =~= old(bytes)@ + word_bytes(word));
    }
}

/// A section header of a 32-bit ELF file.
#[derive(Clone, Copy, Debug, Default, PartialEq, Eq, Structural)]
pub struct SectionHeader {
    /// The place of the section's name in the table of section names.
    pub sh_name: u32,
    /// Section type
    pub sh_type: u32,
    /// Section flags
    pub sh_flags: u32,
    /// The address of the section in memory.
    pub sh_addr: u32,
    /// The place of the section in the file.
    pub sh_offset: u32,
    /// The size of the section in bytes.
    pub sh_size: u32,
}

/// A section of a program: where it lies in memory.
#[derive(Debug, Default)]
pub struct Section {
    pub base_addr: usize,
    pub size: usize,
    pub data: Vec<u8>,
}

/// The length of the name that starts at `offset` in a table of names: the
/// bytes up to the next zero byte, or up to the end of the table.
pub open spec fn name_length(table: Seq<u8>, offset: int) -> int
    decreases table.len() - offset,
{
    if 0 <= offset < table.len() && table[offset] != 0 {
        1 + name_length(table, offset + 1)
    } else {
        0
    }
}

/// Whether the name at `offset` in `table` is `name`.
pub open spec fn is_named(table: Seq<u8>, offset: int, name: Seq<u8>) -> bool {
    offset < table.len() && table.subrange(offset, offset + name_length(table, offset)) == name
}

/// Whether `header` is a section that holds data of the program and goes by
/// the name `name`.
pub open spec fn is_section(header: SectionHeader, table: Seq<u8>, name: Seq<u8>) -> bool {
    header.sh_type == SHT_PROGBITS && is_named(table, header.sh_name as int, name)
}

proof fn lemma_name_length_bounds(table: Seq<u8>, offset: int)
    requires
        0 <= offset <= table.len(),
    ensures
        0 <= name_length(table, offset) <= table.len() - offset,
    decreases table.len() - offset,
{
    if offset < table.len() && table[offset] != 0 {
        lemma_name_length_bounds(table, offset + 1);
    }
}

/// Tells whether the name at `offset` in `table` is `name`.
fn name_matches(table: &[u8], offset: usize, name: &[u8]) -> (r: bool)
    ensures
        r == is_named(table@, offset as int, name@),
{
    let table_len: usize = table.len();
    if offset >= table_len {
        return false;
    }
    let mut i: usize = 0;
    while i < name.len()
        invariant
            table_len == table@.len(),
            offset < table@.len(),
            i <= name@.len(),
            offset + i <= table@.len(),
            forall|j: int| 0 <= j < i ==> table@[offset + j] == name@[j] && name@[j] != 0,
            name_length(table@, offset as int) == i + name_length(table@, offset + i),
        decreases name@.len() - i,
    {
        if i >= table_len - offset || table[offset + i] == 0 || table[offset + i] != name[i] {
            proof {
                lemma_name_length_bounds(table@, offset + i);
                let len = name_length(table@, offset as int);
                let found = table@.subrange(offset as int, offset + len);
                if found == name@ {
                    assert(len == name@.len());
                    if offset + i < table@.len() && table@[offset + i] != 0 {
                        lemma_name_length_bounds(table@, offset + i + 1);
                        assert(name_length(table@, offset + i) == 1 + name_length(
                            table@,
                            offset + i + 1,
                        ));
                        assert(found[i as int] == table@[offset + i]);
                    }
                }
            }
            return false;
        }
        i += 1;
    }
    let ended: bool = i >= table_len - offset || table[offset + i] == 0;
    proof {
        lemma_name_length_bounds(table@, offset + i);
        let len = name_length(table@, offset as int);
        let found = table@.subrange(offset as int, offset + len);
        if ended {
            assert(len == i);
            assert(found =~= name@);
        } else {
            lemma_name_length_bounds(table@, offset + i + 1);
            assert(name_length(table@, offset + i) == 1 + name_length(table@, offset + i + 1));
            assert(len > name@.len());
        }
    }
    ended
}

/// Finds the section with the name `name` among the sections that hold data
/// of the program. Where several have the name, the first counts.
pub fn extract_section(headers: &[SectionHeader], names: &[u8], name: &[u8]) -> (section: Option<
    Section,
>)
    ensures
        section is Some <==> exists|i: int|
            0 <= i < headers@.len() && is_section(#[trigger] headers@[i], names@, name@),
        section matches Some(s) ==> exists|i: int|
            {
                &&& 0 <= i < headers@.len()
                &&& is_section(#[trigger] headers@[i], names@, name@)
                &&& forall|j: int| 0 <= j < i ==> !is_section(#[trigger] headers@[j], names@, name@)
                &&& s.base_addr == headers@[i].sh_addr
                &&& s.size == headers@[i].sh_size
                &&& s.data@ == Seq::<u8>::empty()
            },
{
    let mut i: usize = 0;
    while i < headers.len()
        invariant
            i <= headers@.len(),
            forall|j: int| 0 <= j < i ==> !is_section(#[trigger] headers@[j], names@, name@),
        decreases headers@.len() - i,
    {
        let header: SectionHeader = headers[i];
        if header.sh_type == SHT_PROGBITS && name_matches(names, header.sh_name as usize, name) {
            return Some(
                Section {
                    base_addr: header.sh_addr as usize,
                    size: header.sh_size as usize,
                    data: Vec::new(),
                },
            );
        }
        i += 1;
    }
    None
}

} // verus!
