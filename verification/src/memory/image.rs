//! Building the image of a process from a program file.
//!
//! The loadable segments of the file go to the data region, which starts at
//! address zero, each at its virtual address. The stack lies at the top of
//! the address space and starts out with what a Linux program expects there:
//! the number of arguments, the argument pointers, an empty environment, and
//! the auxiliary vector; above them lie the name of the program and a copy of
//! the program headers.

use vstd::prelude::*;
use vstd::slice::slice_subrange;
use vstd::string::StringSliceAdditionalSpecFns;
use crate::elf::{push_word, ProgramHeader, SIZEOF_PHDR};
use crate::memory::{word_bytes, MemoryImage, ProcessMemory};
use crate::pipeline::exception::Exception;

verus! {

// The types of the entries of the auxiliary vector.
pub const AT_NULL: u32 = 0;

pub const AT_PHDR: u32 = 3;

pub const AT_PHENT: u32 = 4;

pub const AT_PHNUM: u32 = 5;

pub const AT_PAGESZ: u32 = 6;

pub const AT_ENTRY: u32 = 9;

pub const AT_SECURE: u32 = 23;

pub const AT_RANDOM: u32 = 25;

/// The size of the stack of a process, in bytes.
pub const STACK_SIZE: u32 = 0x80_0000;

/// An entry of the auxiliary vector.
#[derive(Clone, Copy, Debug, PartialEq, Eq, Structural)]
pub struct AuxVec {
    pub vec_type: u32,
    pub data: u32,
}

impl AuxVec {
    pub fn new(vec_type: u32, data: u32) -> (entry: AuxVec)
        ensures
            entry == (AuxVec { vec_type, data }),
    {
        AuxVec { vec_type, data }
    }

    /// The entry as it stands in memory: its two words in little-endian
    /// order.
    pub open spec fn bytes(self) -> Seq<u8> {
        word_bytes(self.vec_type) + word_bytes(self.data)
    }
}

/// Why a program cannot be loaded.
#[derive(Clone, Copy, Debug, PartialEq, Eq, Structural)]
pub enum ImageError {
    /// The loadable segment with this number, counted from zero among all
    /// program headers, does not fit: its bytes are not all in the file, it
    /// is larger in the file than in memory, it reaches beyond the address
    /// space, or it starts below the end of the segment before it.
    Segment(usize),
    /// The name of the program holds a zero byte or is too long.
    Name,
    /// The stack cannot hold what the process starts with.
    Stack(Exception),
}

/// `n` zero bytes.
pub open spec fn zeros(n: int) -> Seq<u8> {
    Seq::new(n as nat, |i: int| 0u8)
}

/// The image without any segment and without a stack.
pub open spec fn empty_image() -> MemoryImage {
    MemoryImage {
        v_address_range: (0, 0),
        read_only_range: (0, 0),
        stack_range: (0, 0),
        data: Seq::empty(),
        stack: Seq::empty(),
        stack_pointer_init: 0,
    }
}

/// The auxiliary vector of a process with entry point `entry` and `count`
/// program headers at `headers_addr`, whose name lies at `name_addr`.
pub open spec fn aux_vector(entry: u32, count: u32, headers_addr: u32, name_addr: u32) -> Seq<
    AuxVec,
> {
    seq![
        AuxVec { vec_type: AT_ENTRY, data: entry },
        AuxVec { vec_type: AT_PHNUM, data: count },
        AuxVec { vec_type: AT_PHENT, data: SIZEOF_PHDR },
        AuxVec { vec_type: AT_PHDR, data: headers_addr },
        AuxVec { vec_type: AT_PAGESZ, data: 0 },
        AuxVec { vec_type: AT_SECURE, data: 0 },
        AuxVec { vec_type: AT_RANDOM, data: name_addr },
        AuxVec { vec_type: AT_NULL, data: 0 },
    ]
}

/// The bytes of `entries`, one entry after the other.
#[verifier::opaque]
pub open spec fn aux_bytes(entries: Seq<AuxVec>) -> Seq<u8>
    decreases entries.len(),
{
    if entries.len() == 0 {
        Seq::empty()
    } else {
        aux_bytes(entries.drop_last()) + entries.last().bytes()
    }
}

/// The bytes of the words `words`, in little-endian order.
#[verifier::opaque]
pub open spec fn words_bytes(words: Seq<u32>) -> Seq<u8>
    decreases words.len(),
{
    if words.len() == 0 {
        Seq::empty()
    } else {
        words_bytes(words.drop_last()) + word_bytes(words.last())
    }
}

/// What a process with one argument, its name at `name_addr`, finds at its
/// stack pointer: the number of arguments, the pointer to the name, the end
/// of the arguments and the end of the environment.
pub open spec fn argument_words(name_addr: u32) -> Seq<u32> {
    seq![1u32, name_addr, 0u32, 0u32]
}

/// The stack pointer from which auxiliary vector and arguments are pushed,
/// so that the stack pointer is a multiple of 16 afterwards; `sp` is the
/// stack pointer before, and `total` the number of bytes to push.
pub open spec fn aligned_for(sp: u32, total: u32) -> u32 {
    let next = vstd::wrapping::u32_specs::wrapping_sub(sp, total);
    vstd::wrapping::u32_specs::wrapping_sub(
        sp,
        vstd::wrapping::u32_specs::wrapping_sub(next, next & 0xffff_fff0),
    )
}

/// Pushing `total` bytes from the aligned stack pointer leaves a stack
/// pointer that is a multiple of 16.
pub proof fn lemma_aligned(sp: u32, total: u32)
    ensures
        vstd::wrapping::u32_specs::wrapping_sub(aligned_for(sp, total), total) % 16 == 0,
{
    let next = vstd::wrapping::u32_specs::wrapping_sub(sp, total);
    let slack = vstd::wrapping::u32_specs::wrapping_sub(next, next & 0xffff_fff0);
    let from = vstd::wrapping::u32_specs::wrapping_sub(sp, slack);
    let last = vstd::wrapping::u32_specs::wrapping_sub(from, total);
    assert(next & 0xffff_fff0 <= next && (next & 0xffff_fff0) % 16 == 0) by (bit_vector);
    assert(slack == next - (next & 0xffff_fff0));
    assert(last == next & 0xffff_fff0);
}

impl MemoryImage {
    /// Whether the segment of `header` can be loaded behind what the image
    /// holds, from a file of `file_len` bytes.
    pub open spec fn fits(self, header: ProgramHeader, file_len: int) -> bool {
        &&& header.p_offset + header.p_filesz <= file_len
        &&& header.p_filesz <= header.p_memsz
        &&& header.p_vaddr + header.p_memsz <= u32::MAX
        &&& self.v_address_range.1 <= header.p_vaddr
    }

    /// The image with the segment of `header` loaded from `file`: the data
    /// region reaches up to the end of the segment, the bytes of the segment
    /// are those of the file followed by zeros, and so are the bytes between
    /// this segment and the one before. A segment that must not be written
    /// extends the read-only range.
    pub open spec fn with_segment(self, header: ProgramHeader, file: Seq<u8>) -> MemoryImage {
        let start = header.p_vaddr;
        let end = (header.p_vaddr + header.p_memsz) as u32;
        MemoryImage {
            read_only_range: if header.writable() {
                self.read_only_range
            } else if self.read_only_range.0 == self.read_only_range.1 {
                (start, end)
            } else {
                (self.read_only_range.0, end)
            },
            v_address_range: (self.v_address_range.0, end),
            data: self.data + zeros(start - self.data.len()) + file.subrange(
                header.p_offset as int,
                header.p_offset + header.p_filesz,
            ) + zeros(header.p_memsz - header.p_filesz),
            ..self
        }
    }

    /// The image with the loadable segments among the first `n` of
    /// `headers` loaded from `file`, or the first segment that does not fit.
    pub open spec fn loaded(headers: Seq<ProgramHeader>, n: int, file: Seq<u8>) -> Result<
        MemoryImage,
        ImageError,
    >
        decreases n,
    {
        if n <= 0 {
            Ok(empty_image())
        } else {
            match MemoryImage::loaded(headers, n - 1, file) {
                Err(e) => Err(e),
                Ok(image) => if !headers[n - 1].loadable() {
                    Ok(image)
                } else if image.fits(headers[n - 1], file.len() as int) {
                    Ok(image.with_segment(headers[n - 1], file))
                } else {
                    Err(ImageError::Segment((n - 1) as usize))
                },
            }
        }
    }

    /// The image with a stack of `size` bytes at the top of the address
    /// space. Bytes that the stack held before stay, new ones are zero.
    pub open spec fn with_stack(self, size: u32) -> MemoryImage {
        MemoryImage {
            stack: if size > self.stack.len() {
                self.stack + zeros(size - self.stack.len())
            } else {
                self.stack.take(size as int)
            },
            stack_range: (vstd::wrapping::u32_specs::wrapping_sub(0, size), 0),
            ..self
        }
    }

    /// The image and the stack pointer after `bytes` have been pushed on the
    /// stack at `sp`, or the fault of the store.
    pub open spec fn pushed(self, sp: u32, bytes: Seq<u8>) -> Result<(MemoryImage, u32),
        Exception> {
        let at = vstd::wrapping::u32_specs::wrapping_sub(sp, bytes.len() as u32);
        match self.store_fault(at, bytes.len() as int) {
            Some(e) => Err(e),
            None => Ok((self.stored(at, bytes), at)),
        }
    }

    /// The image and the stack pointer after the first `n` of `headers` have
    /// been pushed, one after the other, from `sp` on.
    pub open spec fn pushed_headers(self, headers: Seq<ProgramHeader>, n: int, sp: u32) -> Result<
        (MemoryImage, u32),
        Exception,
    >
        decreases n,
    {
        if n <= 0 {
            Ok((self, sp))
        } else {
            match self.pushed_headers(headers, n - 1, sp) {
                Err(e) => Err(e),
                Ok((image, at)) => image.pushed(at, headers[n - 1].bytes()),
            }
        }
    }

    /// The image with the stack with which a process starts that has the
    /// program headers `headers`, the name `name` and the entry point
    /// `entry`; or why there is no such stack.
    ///
    /// From the top of the address space downwards lie the program headers,
    /// the name with a zero byte behind it, the auxiliary vector, and the
    /// arguments, at which the stack pointer points.
    pub open spec fn with_initial_stack(
        self,
        size: u32,
        headers: Seq<ProgramHeader>,
        name: Seq<u8>,
        entry: u32,
    ) -> Result<MemoryImage, ImageError> {
        if name.contains(0u8) || name.len() >= u32::MAX || headers.len() > u32::MAX {
            Err(ImageError::Name)
        } else {
            match self.with_stack(size).pushed_headers(headers, headers.len() as int, 0) {
                Err(e) => Err(ImageError::Stack(e)),
                Ok((image, headers_addr)) => match image.pushed(headers_addr, name + seq![0u8]) {
                    Err(e) => Err(ImageError::Stack(e)),
                    Ok((image, name_addr)) => {
                        let aux = aux_bytes(
                            aux_vector(entry, headers.len() as u32, headers_addr, name_addr),
                        );
                        let arguments = words_bytes(argument_words(name_addr));
                        match image.pushed(aligned_for(name_addr, 80), aux) {
                            Err(e) => Err(ImageError::Stack(e)),
                            Ok((image, aux_addr)) => match image.pushed(aux_addr, arguments) {
                                Err(e) => Err(ImageError::Stack(e)),
                                Ok((image, sp)) => Ok(
                                    MemoryImage { stack_pointer_init: sp, ..image },
                                ),
                            },
                        }
                    },
                },
            }
        }
    }

    /// The image of a process: the segments of the program, and the stack
    /// with which the process starts.
    pub open spec fn of_program(
        headers: Seq<ProgramHeader>,
        file: Seq<u8>,
        name: Seq<u8>,
        entry: u32,
    ) -> Result<MemoryImage, ImageError> {
        match MemoryImage::loaded(headers, headers.len() as int, file) {
            Err(e) => Err(e),
            Ok(image) => image.with_initial_stack(STACK_SIZE, headers, name, entry),
        }
    }
}

/// A segment that does not fit stays the first such segment when more program
/// headers follow.
proof fn lemma_load_error_persists(headers: Seq<ProgramHeader>, n: int, m: int, file: Seq<u8>)
    requires
        0 <= n <= m,
        MemoryImage::loaded(headers, n, file) is Err,
    ensures
        MemoryImage::loaded(headers, m, file) == MemoryImage::loaded(headers, n, file),
    decreases m - n,
{
    if n < m {
        lemma_load_error_persists(headers, n, m - 1, file);
    }
}

/// The data region of a loaded image holds a byte for every address below
/// its end.
proof fn lemma_loaded_length(headers: Seq<ProgramHeader>, n: int, file: Seq<u8>)
    requires
        0 <= n <= headers.len(),
    ensures
        MemoryImage::loaded(headers, n, file) matches Ok(image) ==> image.data.len()
            == image.v_address_range.1 && image.v_address_range.0 == 0 && image.stack.len() == 0,
    decreases n,
{
    if n > 0 {
        lemma_loaded_length(headers, n - 1, file);
    }
}

/// Tells whether `bytes` holds a zero byte.
fn holds_zero(bytes: &[u8]) -> (r: bool)
    ensures
        r == bytes@.contains(0u8),
{
    let mut i: usize = 0;
    while i < bytes.len()
        invariant
            i <= bytes@.len(),
            forall|j: int| 0 <= j < i ==> bytes@[j] != 0,
        decreases bytes@.len() - i,
    {
        if bytes[i] == 0 {
            return true;
        }
        i += 1;
    }
    false
}

impl ProcessMemory {
    /// Loads the segment of `header` from the file `elf_data` behind the
    /// segments that the image holds.
    fn load_segment(&mut self, header: &ProgramHeader, elf_data: &[u8])
        requires
            old(self)@.fits(*header, elf_data@.len() as int),
            old(self)@.data.len() == old(self)@.v_address_range.1,
        ensures
            final(self)@ == old(self)@.with_segment(*header, elf_data@),
    {
        let end: u32 = header.p_vaddr + header.p_memsz;
        if !header.is_write() {
            if self.read_only_range.0 == self.read_only_range.1 {
                self.read_only_range = (header.p_vaddr, end);
            } else {
                self.read_only_range.1 = end;
            }
        }
        let ghost before = self.data@;
        self.data.resize(header.p_vaddr as usize, 0);
        let ghost gapped = self.data@;
        proof {
            assert(gapped =~= before + zeros(header.p_vaddr - before.len()));
        }
        let file_len: usize = elf_data.len();
        let file_start: usize = header.p_offset as usize;
        self.data.extend_from_slice(
            slice_subrange(elf_data, file_start, file_start + header.p_filesz as usize),
        );
        let ghost filled = self.data@;
        proof {
            assert(filled == gapped + elf_data@.subrange(
                header.p_offset as int,
                header.p_offset + header.p_filesz,
            ));
        }
        self.data.resize(end as usize, 0);
        self.v_address_range.1 = end;
        proof {
            assert(self.data@ =~= filled + zeros(header.p_memsz - header.p_filesz));
        }
    }

    /// Builds the image of a process from the program headers of its file,
    /// the bytes of the file, the name under which the program runs and the
    /// address at which it starts.
    pub fn new(
        program_headers: &[ProgramHeader],
        elf_data: &[u8],
        program_name: &str,
        entry_point: u32,
    ) -> (r: Result<ProcessMemory, ImageError>)
        ensures
            match MemoryImage::of_program(
                program_headers@,
                elf_data@,
                program_name.spec_bytes(),
                entry_point,
            ) {
                Ok(image) => r is Ok && r->Ok_0@ == image,
                Err(e) => r is Err && r->Err_0 == e,
            },
    {
        let mut memory = ProcessMemory {
            v_address_range: (0, 0),
            read_only_range: (0, 0),
            stack_range: (0, 0),
            data: Vec::new(),
            stack: Vec::new(),
            stack_pointer_init: 0,
        };
        let mut n: usize = 0;
        while n < program_headers.len()
            invariant
                n <= program_headers@.len(),
                MemoryImage::loaded(program_headers@, n as int, elf_data@) == Ok::<
                    MemoryImage,
                    ImageError,
                >(memory@),
            decreases program_headers@.len() - n,
        {
            let header: ProgramHeader = program_headers[n];
            proof {
                lemma_loaded_length(program_headers@, n as int, elf_data@);
            }
            if header.is_load() {
                let fits: bool = header.p_offset as usize <= elf_data.len()
                    && header.p_filesz as usize
                    <= elf_data.len() - header.p_offset as usize
                        && header.p_filesz <= header.p_memsz
                    && header.p_memsz <= u32::MAX - header.p_vaddr && memory.v_address_range.1
                    <= header.p_vaddr;
                if !fits {
                    proof {
                        lemma_load_error_persists(
                            program_headers@,
                            n + 1,
                            program_headers@.len() as int,
                            elf_data@,
                        );
                    }
                    return Err(ImageError::Segment(n));
                }
                memory.load_segment(&header, elf_data);
            }
            n += 1;
        }
        match memory.initialize_stack(STACK_SIZE, program_headers, program_name, entry_point) {
            Ok(()) => Ok(memory),
            Err(e) => Err(e),
        }
    }

    /// Pushes `bytes` on the stack at `sp`. Returns the new stack pointer.
    pub fn push(&mut self, sp: u32, bytes: &[u8]) -> (r: Result<u32, Exception>)
        requires
            bytes@.len() <= u32::MAX,
        ensures
            match old(self)@.pushed(sp, bytes@) {
                Ok((image, at)) => r == Ok::<u32, Exception>(at) && final(self)@ == image,
                Err(e) => r == Err::<u32, Exception>(e) && final(self)@ == old(self)@,
            },
    {
        let at: u32 = sp.wrapping_sub(bytes.len() as u32);
        match self.write_slice(at, bytes) {
            Ok(()) => Ok(at),
            Err(e) => Err(e),
        }
    }

    /// Pushes the program headers on the stack, the first at the highest
    /// address. Returns the new stack pointer and the number of headers.
    pub fn push_program_headers(&mut self, headers: &[ProgramHeader], sp: u32) -> (r: Result<
        (u32, u32),
        Exception,
    >)
        requires
            headers@.len() <= u32::MAX,
        ensures
            match old(self)@.pushed_headers(headers@, headers@.len() as int, sp) {
                Ok((image, at)) => r == Ok::<(u32, u32), Exception>((at, headers@.len() as u32))
                    && final(self)@ == image,
                Err(e) => r == Err::<(u32, u32), Exception>(e),
            },
    {
        let mut top: u32 = sp;
        let mut n: usize = 0;
        while n < headers.len()
            invariant
                n <= headers@.len(),
                headers@.len() <= u32::MAX,
                old(self)@.pushed_headers(headers@, n as int, sp) == Ok::<
                    (MemoryImage, u32),
                    Exception,
                >((self@, top)),
            decreases headers@.len() - n,
        {
            let bytes: Vec<u8> = headers[n].to_bytes();
            let ghost image = self@;
            let ghost from = top;
            match self.push(top, bytes.as_slice()) {
                Ok(at) => {
                    top = at;
                },
                Err(e) => {
                    proof {
                        assert(image.pushed(from, headers@[n as int].bytes()) == Err::<
                            (MemoryImage, u32),
                            Exception,
                        >(e));
                        assert(old(self)@.pushed_headers(headers@, n + 1, sp) == Err::<
                            (MemoryImage, u32),
                            Exception,
                        >(e));
                        lemma_push_error_persists(
                            old(self)@,
                            headers@,
                            n + 1,
                            headers@.len() as int,
                            sp,
                        );
                    }
                    return Err(e);
                },
            }
            n += 1;
        }
        Ok((top, headers.len() as u32))
    }

    /// Pushes the name of the program, with a zero byte behind it, on the
    /// stack. Returns the new stack pointer.
    pub fn push_program_name(&mut self, name: &[u8], sp: u32) -> (r: Result<u32, Exception>)
        requires
            name@.len() < u32::MAX,
        ensures
            match old(self)@.pushed(sp, name@ + seq![0u8]) {
                Ok((image, at)) => r == Ok::<u32, Exception>(at) && final(self)@ == image,
                Err(e) => r == Err::<u32, Exception>(e) && final(self)@ == old(self)@,
            },
    {
        let mut bytes: Vec<u8> = Vec::new();
        bytes.extend_from_slice(name);
        bytes.push(0);
        proof {
            assert(bytes@ =~= name@ + seq![0u8]);
        }
        self.push(sp, bytes.as_slice())
    }

    /// Gives the process a stack of `stack_size` bytes, and puts on it what a
    /// process finds on its stack when it starts.
    pub fn initialize_stack(
        &mut self,
        stack_size: u32,
        program_headers: &[ProgramHeader],
        program_name: &str,
        entry_point: u32,
    ) -> (r: Result<(), ImageError>)
        ensures
            match old(self)@.with_initial_stack(
                stack_size,
                program_headers@,
                program_name.spec_bytes(),
                entry_point,
            ) {
                Ok(image) => r is Ok && final(self)@ == image,
                Err(e) => r is Err && r->Err_0 == e,
            },
    {
        let name: &[u8] = program_name.as_bytes();
        if holds_zero(name) || name.len() >= u32::MAX as usize || program_headers.len()
            > u32::MAX as usize {
            return Err(ImageError::Name);
        }
        self.stack.resize(stack_size as usize, 0);
        self.stack_range = (0u32.wrapping_sub(stack_size), 0);
        proof {
            assert(self@.stack =~= old(self)@.with_stack(stack_size).stack);
        }
        let (headers_addr, header_num): (u32, u32) = match self.push_program_headers(
            program_headers,
            0,
        ) {
            Ok(pushed) => pushed,
            Err(e) => {
                return Err(ImageError::Stack(e));
            },
        };
        let name_addr: u32 = match self.push_program_name(name, headers_addr) {
            Ok(name_addr) => name_addr,
            Err(e) => {
                return Err(ImageError::Stack(e));
            },
        };
        let aux: Vec<u8> = auxiliary_block(entry_point, header_num, headers_addr, name_addr);
        let arguments: Vec<u8> = argument_block(name_addr);
        // align the stack pointer
        let total_bytes: u32 = 80;
        let next_sp: u32 = name_addr.wrapping_sub(total_bytes);
        let sp: u32 = name_addr.wrapping_sub(next_sp.wrapping_sub(next_sp & 0xffff_fff0));
        let sp: u32 = match self.push(sp, aux.as_slice()) {
            Ok(sp) => sp,
            Err(e) => {
                return Err(ImageError::Stack(e));
            },
        };
        let sp: u32 = match self.push(sp, arguments.as_slice()) {
            Ok(sp) => sp,
            Err(e) => {
                return Err(ImageError::Stack(e));
            },
        };
        self.stack_pointer_init = sp;
        Ok(())
    }
}

/// The bytes of the auxiliary vector.
fn auxiliary_block(entry: u32, count: u32, headers_addr: u32, name_addr: u32) -> (bytes: Vec<u8>)
    ensures
        bytes@ == aux_bytes(aux_vector(entry, count, headers_addr, name_addr)),
        bytes@.len() == 64,
{
    let mut aux: Vec<u8> = Vec::new();
    push_aux(&mut aux, AuxVec::new(AT_ENTRY, entry));
    push_aux(&mut aux, AuxVec::new(AT_PHNUM, count));
    push_aux(&mut aux, AuxVec::new(AT_PHENT, SIZEOF_PHDR));
    push_aux(&mut aux, AuxVec::new(AT_PHDR, headers_addr));
    push_aux(&mut aux, AuxVec::new(AT_PAGESZ, 0));
    push_aux(&mut aux, AuxVec::new(AT_SECURE, 0));
    push_aux(&mut aux, AuxVec::new(AT_RANDOM, name_addr));
    push_aux(&mut aux, AuxVec::new(AT_NULL, 0));
    proof {
        let entries = aux_vector(entry, count, headers_addr, name_addr);
        reveal_with_fuel(aux_bytes, 9);
        let e7 = entries.drop_last();
        let e6 = e7.drop_last();
        let e5 = e6.drop_last();
        let e4 = e5.drop_last();
        let e3 = e4.drop_last();
        let e2 = e3.drop_last();
        let e1 = e2.drop_last();
        assert(e1.drop_last() =~= Seq::<AuxVec>::empty());
        assert(aux@ =~= aux_bytes(entries));
    }
    aux
}

/// The bytes of what the process finds at its stack pointer.
fn argument_block(name_addr: u32) -> (bytes: Vec<u8>)
    ensures
        bytes@ == words_bytes(argument_words(name_addr)),
        bytes@.len() == 16,
{
    let mut arguments: Vec<u8> = Vec::new();
    push_word(&mut arguments, 1);
    push_word(&mut arguments, name_addr);
    push_word(&mut arguments, 0);
    push_word(&mut arguments, 0);
    proof {
        let words = argument_words(name_addr);
        reveal_with_fuel(words_bytes, 5);
        assert(words.drop_last().drop_last().drop_last().drop_last() =~= Seq::<u32>::empty());
        assert(arguments@ =~= words_bytes(words));
    }
    arguments
}

/// Appends the bytes of `entry` to `bytes`.
fn push_aux(bytes: &mut Vec<u8>, entry: AuxVec)
    ensures
        final(bytes)@ == old(bytes)@ + entry.bytes(),
{
    push_word(bytes, entry.vec_type);
    push_word(bytes, entry.data);
    proof {
        assert(bytes@ =~= old(bytes)@ + entry.bytes());
    }
}

/// A program header that cannot be pushed stays the first such header when
/// more follow.
proof fn lemma_push_error_persists(
    image: MemoryImage,
    headers: Seq<ProgramHeader>,
    n: int,
    m: int,
    sp: u32,
)
    requires
        0 <= n <= m,
        image.pushed_headers(headers, n, sp) is Err,
    ensures
        image.pushed_headers(headers, m, sp) == image.pushed_headers(headers, n, sp),
    decreases m - n,
{
    if n < m {
        lemma_push_error_persists(image, headers, n, m - 1, sp);
    }
}

} // verus!
