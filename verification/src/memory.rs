//! The address space of the simulated process.
//!
//! A process image has two regions: the data region, which holds the loadable
//! segments of the program from address `v_address_range.0` on, and the stack,
//! which reaches from `stack_range.0` to the top of the 32-bit address space.
//! An address at or above `stack_range.0` belongs to the stack.

pub mod image;
pub mod instruction;

use vstd::prelude::*;
use vstd::slice::slice_subrange;
use byteorder::{ByteOrder, LittleEndian};
use crate::pipeline::exception::Exception;

verus! {

/// The number that four bytes encode in little-endian order.
pub open spec fn le_word(bytes: Seq<u8>) -> u32
    recommends
        bytes.len() == 4,
{
    (bytes[0] + 0x100 * bytes[1] + 0x1_0000 * bytes[2] + 0x100_0000 * bytes[3]) as u32
}

/// The number that two bytes encode in little-endian order.
pub open spec fn le_half(bytes: Seq<u8>) -> u16
    recommends
        bytes.len() == 2,
{
    (bytes[0] + 0x100 * bytes[1]) as u16
}

/// The four bytes that encode `word` in little-endian order.
pub open spec fn word_bytes(word: u32) -> Seq<u8> {
    seq![
        (word % 0x100) as u8,
        ((word / 0x100) % 0x100) as u8,
        ((word / 0x1_0000) % 0x100) as u8,
        (word / 0x100_0000) as u8,
    ]
}

/// The two bytes that encode `half` in little-endian order.
pub open spec fn half_bytes(half: u16) -> Seq<u8> {
    seq![(half % 0x100) as u8, (half / 0x100) as u8]
}

/// Decoding the encoding of a word or halfword gives the number back.
pub proof fn lemma_le_round_trip(word: u32, half: u16)
    ensures
        le_word(word_bytes(word)) == word,
        le_half(half_bytes(half)) == half,
{
}

/// `byteorder::LittleEndian::read_u32`: decodes the first four bytes of `buf`
/// as a little-endian number. The function panics on a shorter buffer, which
/// the precondition rules out. Verus takes this contract on trust: it is a
/// claim about `byteorder`, and is not proved here.
#[verifier::external_body]
fn read_u32_le(buf: &[u8]) -> (word: u32)
    requires
        buf@.len() >= 4,
    ensures
        word == le_word(buf@.subrange(0, 4)),
{
    LittleEndian::read_u32(buf)
}

/// The image of a process: its data region, its stack, and the address ranges
/// that they occupy.
#[derive(Debug, Default)]
pub struct ProcessMemory {
    /// The addresses of the data region: first address, and one past the last.
    pub v_address_range: (u32, u32),
    /// The addresses that must not be written.
    pub read_only_range: (u32, u32),
    /// The first address of the stack; the stack ends with the address space.
    pub stack_range: (u32, u32),
    /// The bytes of the data region.
    pub data: Vec<u8>,
    /// The bytes of the stack.
    pub stack: Vec<u8>,
    /// The stack pointer with which the process starts.
    pub stack_pointer_init: u32,
}

/// The mathematical content of a [`ProcessMemory`].
pub struct MemoryImage {
    pub v_address_range: (u32, u32),
    pub read_only_range: (u32, u32),
    pub stack_range: (u32, u32),
    pub data: Seq<u8>,
    pub stack: Seq<u8>,
    pub stack_pointer_init: u32,
}

impl View for ProcessMemory {
    type V = MemoryImage;

    open spec fn view(&self) -> MemoryImage {
        MemoryImage {
            v_address_range: self.v_address_range,
            read_only_range: self.read_only_range,
            stack_range: self.stack_range,
            data: self.data@,
            stack: self.stack@,
            stack_pointer_init: self.stack_pointer_init,
        }
    }
}

/// Copies `value` over the bytes of `buf` that start at `offset`.
fn copy_into(buf: &mut Vec<u8>, offset: usize, value: &[u8])
    requires
        offset + value@.len() <= old(buf)@.len(),
    ensures
        final(buf)@ == old(buf)@.subrange(0, offset as int) + value@ + old(buf)@.subrange(
            offset + value@.len(),
            old(buf)@.len() as int,
        ),
        final(buf)@.len() == old(buf)@.len(),
{
    let len: usize = buf.len();
    let mut i: usize = 0;
    while i < value.len()
        invariant
            i <= value@.len(),
            offset + value@.len() <= buf@.len(),
            buf@.len() == len,
            buf@.len() == old(buf)@.len(),
            forall|j: int| 0 <= j < offset ==> buf@[j] == old(buf)@[j],
            forall|j: int| offset <= j < offset + i ==> buf@[j] == value@[j - offset],
            forall|j: int| offset + i <= j < buf@.len() ==> buf@[j] == old(buf)@[j],
        decreases value@.len() - i,
    {
        buf[offset + i] = value[i];
        i += 1;
    }
    assert(buf@ =~= old(buf)@.subrange(0, offset as int) + value@ + old(buf)@.subrange(
        offset + value@.len(),
        old(buf)@.len() as int,
    ));
}

impl MemoryImage {
    /// Whether `addr` lies in the data region or in the stack.
    pub open spec fn in_address_space(&self, addr: u32) -> bool {
        !(addr < self.v_address_range.0 || (addr >= self.v_address_range.1 && addr
            < self.stack_range.0))
    }

    /// Whether `addr` lies in the range that must not be written.
    pub open spec fn in_read_only(&self, addr: u32) -> bool {
        self.read_only_range.0 <= addr < self.read_only_range.1
    }

    /// Whether `addr` belongs to the stack.
    pub open spec fn in_stack(&self, addr: u32) -> bool {
        addr >= self.stack_range.0
    }

    /// The bytes of the region that `addr` belongs to.
    pub open spec fn region(&self, addr: u32) -> Seq<u8> {
        if self.in_stack(addr) {
            self.stack
        } else {
            self.data
        }
    }

    /// The place of `addr` in its region.
    pub open spec fn offset(&self, addr: u32) -> int {
        if self.in_stack(addr) {
            addr - self.stack_range.0
        } else {
            addr - self.v_address_range.0
        }
    }

    /// Whether `size` bytes from `addr` on can be accessed: `addr` is in the
    /// address space, and the bytes do not run past the end of its region.
    pub open spec fn accessible(&self, addr: u32, size: int) -> bool {
        self.in_address_space(addr) && self.offset(addr) + size <= self.region(addr).len()
    }

    /// The `size` bytes from `addr` on.
    pub open spec fn bytes_at(&self, addr: u32, size: int) -> Seq<u8> {
        self.region(addr).subrange(self.offset(addr), self.offset(addr) + size)
    }

    /// The image after the `size` bytes from `addr` on have been replaced by
    /// `bytes`.
    pub open spec fn spliced(self, addr: u32, size: int, bytes: Seq<u8>) -> MemoryImage {
        let offset = self.offset(addr);
        let region = self.region(addr);
        let updated = region.subrange(0, offset) + bytes + region.subrange(
            offset + size,
            region.len() as int,
        );
        if self.in_stack(addr) {
            MemoryImage { stack: updated, ..self }
        } else {
            MemoryImage { data: updated, ..self }
        }
    }

    /// The image after `bytes` have been stored from `addr` on.
    pub open spec fn stored(self, addr: u32, bytes: Seq<u8>) -> MemoryImage {
        self.spliced(addr, bytes.len() as int, bytes)
    }

    /// Whether the bytes from `addr` on form a string of `len` bytes that a
    /// zero byte ends.
    pub open spec fn string_at(&self, addr: u32, len: int) -> bool {
        let offset = self.offset(addr);
        let region = self.region(addr);
        &&& self.in_address_space(addr)
        &&& 0 <= len
        &&& offset + len < region.len()
        &&& region[offset + len] == 0
        &&& forall|k: int| offset <= k < offset + len ==> region[k] != 0
    }

    /// The image after the data region has been extended, by zero bytes, up
    /// to and including the address `addr`. An address that the region
    /// holds already, or that lies in the stack, changes nothing.
    pub open spec fn grown(self, addr: u32) -> MemoryImage {
        if self.v_address_range.1 <= addr < self.stack_range.0 && self.v_address_range.0
            <= self.v_address_range.1 {
            let len = addr + 1 - self.v_address_range.0;
            MemoryImage {
                v_address_range: (self.v_address_range.0, (addr + 1) as u32),
                data: if len > self.data.len() {
                    self.data + Seq::new((len - self.data.len()) as nat, |i: int| 0u8)
                } else {
                    self.data
                },
                ..self
            }
        } else {
            self
        }
    }

    /// The fault that a store of `size` bytes at `addr` raises, if any.
    pub open spec fn store_fault(&self, addr: u32, size: int) -> Option<Exception> {
        if !self.in_address_space(addr) {
            Some(Exception::WritingToInvalidMemory(addr))
        } else if self.in_read_only(addr) {
            Some(Exception::WritingToReadOnlyMemory(addr))
        } else if !self.accessible(addr, size) {
            Some(Exception::WritingToInvalidMemory(addr))
        } else {
            None
        }
    }
}

impl ProcessMemory {
    /// Checks that `addr` lies in the data region or in the stack.
    pub fn check_address_space(&self, addr: u32) -> (r: Result<(), Exception>)
        ensures
            r is Ok <==> self@.in_address_space(addr),
            r matches Err(e) ==> e == Exception::WritingToInvalidMemory(addr),
    {
        if addr < self.v_address_range.0 || (addr >= self.v_address_range.1 && addr
            < self.stack_range.0) {
            Err(Exception::WritingToInvalidMemory(addr))
        } else {
            Ok(())
        }
    }

    /// Checks that `addr` may be written.
    pub fn check_write_address_space(&self, addr: u32) -> (r: Result<(), Exception>)
        ensures
            r is Ok <==> !self@.in_read_only(addr),
            r matches Err(e) ==> e == Exception::WritingToReadOnlyMemory(addr),
    {
        if self.read_only_range.0 <= addr && addr < self.read_only_range.1 {
            Err(Exception::WritingToReadOnlyMemory(addr))
        } else {
            Ok(())
        }
    }

    /// Reads `size` bytes from `addr` on.
    pub fn read_bytes(&self, addr: u32, size: usize) -> (r: Result<&[u8], Exception>)
        ensures
            r is Ok <==> self@.accessible(addr, size as int),
            r matches Ok(bytes) ==> bytes@ == self@.bytes_at(addr, size as int),
            r matches Err(e) ==> e == Exception::WritingToInvalidMemory(addr),
    {
        if self.check_address_space(addr).is_err() {
            return Err(Exception::WritingToInvalidMemory(addr));
        }
        if addr < self.stack_range.0 {
            let offset: usize = (addr - self.v_address_range.0) as usize;
            if offset > self.data.len() || size > self.data.len() - offset {
                return Err(Exception::WritingToInvalidMemory(addr));
            }
            Ok(slice_subrange(self.data.as_slice(), offset, offset + size))
        } else {
            let offset: usize = (addr - self.stack_range.0) as usize;
            if offset > self.stack.len() || size > self.stack.len() - offset {
                return Err(Exception::WritingToInvalidMemory(addr));
            }
            Ok(slice_subrange(self.stack.as_slice(), offset, offset + size))
        }
    }

    /// Reads the instruction word at `addr`, which must lie in the data
    /// region.
    pub fn read_inst(&self, addr: u32) -> (r: Result<u32, Exception>)
        ensures
            r is Ok <==> !self@.in_stack(addr) && self@.accessible(addr, 4),
            r matches Ok(word) ==> word == le_word(self@.bytes_at(addr, 4)),
            r matches Err(e) ==> e == Exception::WritingToInvalidMemory(addr),
    {
        if addr >= self.stack_range.0 {
            return Err(Exception::WritingToInvalidMemory(addr));
        }
        match self.read_bytes(addr, 4) {
            Ok(bytes) => {
                assert(bytes@.subrange(0, 4) == bytes@);
                Ok(read_u32_le(bytes))
            },
            Err(e) => Err(e),
        }
    }

    /// Reads the byte at `addr`.
    pub fn read_u8(&self, addr: u32) -> (r: Result<u8, Exception>)
        ensures
            r is Ok <==> self@.accessible(addr, 1),
            r matches Ok(byte) ==> byte == self@.bytes_at(addr, 1)[0],
            r matches Err(e) ==> e == Exception::WritingToInvalidMemory(addr),
    {
        match self.read_bytes(addr, 1) {
            Ok(bytes) => Ok(bytes[0]),
            Err(e) => Err(e),
        }
    }

    /// Reads the little-endian halfword at `addr`.
    pub fn read_u16(&self, addr: u32) -> (r: Result<u16, Exception>)
        ensures
            r is Ok <==> self@.accessible(addr, 2),
            r matches Ok(half) ==> half == le_half(self@.bytes_at(addr, 2)),
            r matches Err(e) ==> e == Exception::WritingToInvalidMemory(addr),
    {
        match self.read_bytes(addr, 2) {
            Ok(bytes) => Ok(bytes[0] as u16 + 0x100 * (bytes[1] as u16)),
            Err(e) => Err(e),
        }
    }

    /// Reads the little-endian word at `addr`.
    pub fn read_u32(&self, addr: u32) -> (r: Result<u32, Exception>)
        ensures
            r is Ok <==> self@.accessible(addr, 4),
            r matches Ok(word) ==> word == le_word(self@.bytes_at(addr, 4)),
            r matches Err(e) ==> e == Exception::WritingToInvalidMemory(addr),
    {
        match self.read_bytes(addr, 4) {
            Ok(bytes) => Ok(
                bytes[0] as u32 + 0x100 * (bytes[1] as u32) + 0x1_0000 * (bytes[2] as u32)
                    + 0x100_0000 * (bytes[3] as u32),
            ),
            Err(e) => Err(e),
        }
    }

    /// Stores the bytes of `value` from `addr` on. Nothing is stored when
    /// `addr` is outside the address space or read-only, or when the bytes
    /// would run past the end of the region.
    pub fn write_slice(&mut self, addr: u32, value: &[u8]) -> (r: Result<(), Exception>)
        ensures
            r == (match old(self)@.store_fault(addr, value@.len() as int) {
                Some(e) => Err::<(), Exception>(e),
                None => Ok(()),
            }),
            r is Ok ==> final(self)@ == old(self)@.stored(addr, value@),
            r is Err ==> final(self)@ == old(self)@,
    {
        self.check_address_space(addr)?;
        self.check_write_address_space(addr)?;
        if addr < self.stack_range.0 {
            let offset: usize = (addr - self.v_address_range.0) as usize;
            if offset > self.data.len() || value.len() > self.data.len() - offset {
                return Err(Exception::WritingToInvalidMemory(addr));
            }
            copy_into(&mut self.data, offset, value);
        } else {
            let offset: usize = (addr - self.stack_range.0) as usize;
            if offset > self.stack.len() || value.len() > self.stack.len() - offset {
                return Err(Exception::WritingToInvalidMemory(addr));
            }
            copy_into(&mut self.stack, offset, value);
        }
        Ok(())
    }

    /// Stores a byte at `addr`.
    pub fn write_u8(&mut self, addr: u32, value: u8) -> (r: Result<(), Exception>)
        ensures
            r == (match old(self)@.store_fault(addr, 1) {
                Some(e) => Err::<(), Exception>(e),
                None => Ok(()),
            }),
            r is Ok ==> final(self)@ == old(self)@.stored(addr, seq![value]),
            r is Err ==> final(self)@ == old(self)@,
    {
        let bytes: [u8; 1] = [value];
        assert(bytes@ =~= seq![value]);
        self.write_slice(addr, bytes.as_slice())
    }

    /// Stores a halfword at `addr`, in little-endian order.
    pub fn write_u16(&mut self, addr: u32, value: u16) -> (r: Result<(), Exception>)
        ensures
            r == (match old(self)@.store_fault(addr, 2) {
                Some(e) => Err::<(), Exception>(e),
                None => Ok(()),
            }),
            r is Ok ==> final(self)@ == old(self)@.stored(addr, half_bytes(value)),
            r is Err ==> final(self)@ == old(self)@,
    {
        let bytes: [u8; 2] = [(value % 0x100) as u8, (value / 0x100) as u8];
        assert(bytes@ =~= half_bytes(value));
        self.write_slice(addr, bytes.as_slice())
    }

    /// Stores a word at `addr`, in little-endian order.
    pub fn write_u32(&mut self, addr: u32, value: u32) -> (r: Result<(), Exception>)
        ensures
            r == (match old(self)@.store_fault(addr, 4) {
                Some(e) => Err::<(), Exception>(e),
                None => Ok(()),
            }),
            r is Ok ==> final(self)@ == old(self)@.stored(addr, word_bytes(value)),
            r is Err ==> final(self)@ == old(self)@,
    {
        let bytes: [u8; 4] = [
            (value % 0x100) as u8,
            ((value / 0x100) % 0x100) as u8,
            ((value / 0x1_0000) % 0x100) as u8,
            (value / 0x100_0000) as u8,
        ];
        assert(bytes@ =~= word_bytes(value));
        self.write_slice(addr, bytes.as_slice())
    }

    /// The `size` bytes from `addr` on, for changing them in place: what the
    /// caller leaves in them takes their place in the image. Whether the
    /// bytes may be written is not checked.
    pub fn read_bytes_mut(&mut self, addr: u32, size: usize) -> (r: Result<&mut [u8], Exception>)
        ensures
            r is Ok <==> old(self)@.accessible(addr, size as int),
            r matches Ok(bytes) ==> bytes@ == old(self)@.bytes_at(addr, size as int) && final(self)@
                == old(self)@.spliced(addr, size as int, final(bytes)@),
            r matches Err(e) ==> e == Exception::WritingToInvalidMemory(addr) && final(self)@
                == old(self)@,
    {
        if self.check_address_space(addr).is_err() {
            return Err(Exception::WritingToInvalidMemory(addr));
        }
        if addr < self.stack_range.0 {
            let offset: usize = (addr - self.v_address_range.0) as usize;
            if offset > self.data.len() || size > self.data.len() - offset {
                return Err(Exception::WritingToInvalidMemory(addr));
            }
            let ghost region = self.data@;
            let (head, rest) = self.data.as_mut_slice().split_at_mut(offset);
            let (bytes, tail) = rest.split_at_mut(size);
            proof {
                assert(bytes@ =~= region.subrange(offset as int, offset + size));
                assert(head@ + final(bytes)@ + tail@
                    =~= region.subrange(0,
                    offset as int) + final(bytes)@ + region.subrange(offset + size,
                    region.len() as int));
                assert(head@ + (final(bytes)@ + tail@) =~= head@ + final(bytes)@ + tail@);
            }
            Ok(bytes)
        } else {
            let offset: usize = (addr - self.stack_range.0) as usize;
            if offset > self.stack.len() || size > self.stack.len() - offset {
                return Err(Exception::WritingToInvalidMemory(addr));
            }
            let ghost region = self.stack@;
            let (head, rest) = self.stack.as_mut_slice().split_at_mut(offset);
            let (bytes, tail) = rest.split_at_mut(size);
            proof {
                assert(bytes@ =~= region.subrange(offset as int, offset + size));
                assert(head@ + final(bytes)@ + tail@
                    =~= region.subrange(0,
                    offset as int) + final(bytes)@ + region.subrange(offset + size,
                    region.len() as int));
                assert(head@ + (final(bytes)@ + tail@) =~= head@ + final(bytes)@ + tail@);
            }
            Ok(bytes)
        }
    }

    /// Reads the string at `addr`: the bytes up to the first zero byte.
    pub fn read_c_string(&self, addr: u32) -> (r: Result<Vec<u8>, Exception>)
        ensures
            r matches Ok(string) ==> self@.string_at(addr, string@.len() as int) && string@
                == self@.bytes_at(addr, string@.len() as int),
            r matches Err(e) ==> e == Exception::WritingToInvalidMemory(addr) && forall|len: int|
                !self@.string_at(addr, len),
    {
        if self.check_address_space(addr).is_err() {
            return Err(Exception::WritingToInvalidMemory(addr));
        }
        let in_stack: bool = addr >= self.stack_range.0;
        let offset: usize = if in_stack {
            (addr - self.stack_range.0) as usize
        } else {
            (addr - self.v_address_range.0) as usize
        };
        let region: &Vec<u8> = if in_stack {
            &self.stack
        } else {
            &self.data
        };
        let mut string: Vec<u8> = Vec::new();
        let mut i: usize = offset;
        while i < region.len()
            invariant
                region@ == self@.region(addr),
                offset == self@.offset(addr),
                self@.in_address_space(addr),
                offset <= i,
                string@.len() == i - offset,
                forall|k: int| offset <= k < i ==> region@[k] != 0,
                i <= region@.len() ==> string@ == region@.subrange(offset as int, i as int),
            decreases region@.len() - i,
        {
            let byte: u8 = region[i];
            if byte == 0 {
                return Ok(string);
            }
            string.push(byte);
            proof {
                assert(string@ =~= region@.subrange(offset as int, i + 1));
            }
            i += 1;
        }
        proof {
            assert forall|len: int| !self@.string_at(addr, len) by {
                if self@.string_at(addr, len) {
                    if offset + len < i {
                        assert(region@[offset + len] != 0);
                    }
                }
            }
        }
        Err(Exception::WritingToInvalidMemory(addr))
    }

    /// Extends the data region, by zero bytes, up to and including the
    /// address `addr`.
    pub fn grow(&mut self, addr: u32)
        ensures
            final(self)@ == old(self)@.grown(addr),
    {
        if self.v_address_range.1 <= addr && addr < self.stack_range.0 && self.v_address_range.0
            <= self.v_address_range.1 {
            let len: usize = (addr + 1 - self.v_address_range.0) as usize;
            if len > self.data.len() {
                self.data.resize(len, 0);
                proof {
                    assert(self.data@ =~= old(self).data@ + Seq::new(
                        (len - old(self).data@.len()) as nat,
                        |i: int| 0u8,
                    ));
                }
            }
            self.v_address_range.1 = addr + 1;
        }
    }
}

/// Copies `data` over the first bytes of `buf`.
pub fn fill(buf: &mut [u8], data: &[u8])
    requires
        data@.len() <= old(buf)@.len(),
    ensures
        final(buf)@ == data@ + old(buf)@.subrange(data@.len() as int, old(buf)@.len() as int),
{
    let mut i: usize = 0;
    while i < data.len()
        invariant
            i <= data@.len(),
            data@.len() <= buf@.len(),
            buf@.len() == old(buf)@.len(),
            forall|j: int| 0 <= j < i ==> buf@[j] == data@[j],
            forall|j: int| i <= j < buf@.len() ==> buf@[j] == old(buf)@[j],
        decreases data@.len() - i,
    {
        buf[i] = data[i];
        i += 1;
    }
    assert(buf@ =~= data@ + old(buf)@.subrange(data@.len() as int, old(buf)@.len() as int));
}

/// A number that can be read from and written to memory: an integer of one,
/// two or four bytes, in little-endian order and two's complement.
pub trait Scalar: Copy {
    /// The number of bytes of a value.
    spec fn width() -> nat;

    /// The value that `bytes` encode.
    spec fn decoded(bytes: Seq<u8>) -> Self;

    /// The bytes that encode the value.
    spec fn encoded(self) -> Seq<u8>;

    /// The number of bytes of a value.
    fn size() -> (size: usize)
        ensures
            size == Self::width(),
    ;

    /// Decodes a value.
    fn decode(bytes: &[u8]) -> (value: Self)
        requires
            bytes@.len() == Self::width(),
        ensures
            value == Self::decoded(bytes@),
    ;

    /// Encodes the value.
    fn encode(self) -> (bytes: Vec<u8>)
        ensures
            bytes@ == self.encoded(),
            bytes@.len() == Self::width(),
    ;
}

impl Scalar for u8 {
    open spec fn width() -> nat {
        1
    }

    open spec fn decoded(bytes: Seq<u8>) -> u8 {
        bytes[0]
    }

    open spec fn encoded(self) -> Seq<u8> {
        seq![self]
    }

    fn size() -> (size: usize) {
        1
    }

    fn decode(bytes: &[u8]) -> (value: u8) {
        bytes[0]
    }

    fn encode(self) -> (bytes: Vec<u8>) {
        let mut bytes: Vec<u8> = Vec::new();
        bytes.push(self);
        proof {
            assert(bytes@ =~= seq![self]);
        }
        bytes
    }
}

impl Scalar for u16 {
    open spec fn width() -> nat {
        2
    }

    open spec fn decoded(bytes: Seq<u8>) -> u16 {
        le_half(bytes)
    }

    open spec fn encoded(self) -> Seq<u8> {
        half_bytes(self)
    }

    fn size() -> (size: usize) {
        2
    }

    fn decode(bytes: &[u8]) -> (value: u16) {
        bytes[0] as u16 + 0x100 * (bytes[1] as u16)
    }

    fn encode(self) -> (bytes: Vec<u8>) {
        let mut bytes: Vec<u8> = Vec::new();
        bytes.push((self % 0x100) as u8);
        bytes.push((self / 0x100) as u8);
        proof {
            assert(bytes@ =~= half_bytes(self));
        }
        bytes
    }
}

impl Scalar for u32 {
    open spec fn width() -> nat {
        4
    }

    open spec fn decoded(bytes: Seq<u8>) -> u32 {
        le_word(bytes)
    }

    open spec fn encoded(self) -> Seq<u8> {
        word_bytes(self)
    }

    fn size() -> (size: usize) {
        4
    }

    fn decode(bytes: &[u8]) -> (value: u32) {
        bytes[0] as u32 + 0x100 * (bytes[1] as u32) + 0x1_0000 * (bytes[2] as u32) + 0x100_0000
            * (bytes[3] as u32)
    }

    fn encode(self) -> (bytes: Vec<u8>) {
        let mut bytes: Vec<u8> = Vec::new();
        bytes.push((self % 0x100) as u8);
        bytes.push(((self / 0x100) % 0x100) as u8);
        bytes.push(((self / 0x1_0000) % 0x100) as u8);
        bytes.push((self / 0x100_0000) as u8);
        proof {
            assert(bytes@ =~= word_bytes(self));
        }
        bytes
    }
}

impl Scalar for i8 {
    open spec fn width() -> nat {
        1
    }

    open spec fn decoded(bytes: Seq<u8>) -> i8 {
        if bytes[0] >= 0x80 {
            (bytes[0] - 0x100) as i8
        } else {
            bytes[0] as i8
        }
    }

    open spec fn encoded(self) -> Seq<u8> {
        seq![
            if self < 0 {
                (self + 0x100) as u8
            } else {
                self as u8
            },
        ]
    }

    fn size() -> (size: usize) {
        1
    }

    fn decode(bytes: &[u8]) -> (value: i8) {
        let byte: u8 = bytes[0];
        if byte >= 0x80 {
            (byte as i16 - 0x100) as i8
        } else {
            byte as i8
        }
    }

    fn encode(self) -> (bytes: Vec<u8>) {
        let byte: u8 = if self < 0 {
            (self as i16 + 0x100) as u8
        } else {
            self as u8
        };
        let mut bytes: Vec<u8> = Vec::new();
        bytes.push(byte);
        proof {
            assert(bytes@ =~= self.encoded());
        }
        bytes
    }
}

impl Scalar for i16 {
    open spec fn width() -> nat {
        2
    }

    open spec fn decoded(bytes: Seq<u8>) -> i16 {
        if le_half(bytes) >= 0x8000 {
            (le_half(bytes) - 0x1_0000) as i16
        } else {
            le_half(bytes) as i16
        }
    }

    open spec fn encoded(self) -> Seq<u8> {
        half_bytes(
            if self < 0 {
                (self + 0x1_0000) as u16
            } else {
                self as u16
            },
        )
    }

    fn size() -> (size: usize) {
        2
    }

    fn decode(bytes: &[u8]) -> (value: i16) {
        let half: u16 = u16::decode(bytes);
        if half >= 0x8000 {
            (half as i32 - 0x1_0000) as i16
        } else {
            half as i16
        }
    }

    fn encode(self) -> (bytes: Vec<u8>) {
        let half: u16 = if self < 0 {
            (self as i32 + 0x1_0000) as u16
        } else {
            self as u16
        };
        half.encode()
    }
}

impl Scalar for i32 {
    open spec fn width() -> nat {
        4
    }

    open spec fn decoded(bytes: Seq<u8>) -> i32 {
        if le_word(bytes) >= 0x8000_0000 {
            (le_word(bytes) - 0x1_0000_0000) as i32
        } else {
            le_word(bytes) as i32
        }
    }

    open spec fn encoded(self) -> Seq<u8> {
        word_bytes(
            if self < 0 {
                (self + 0x1_0000_0000) as u32
            } else {
                self as u32
            },
        )
    }

    fn size() -> (size: usize) {
        4
    }

    fn decode(bytes: &[u8]) -> (value: i32) {
        let word: u32 = u32::decode(bytes);
        if word >= 0x8000_0000 {
            (word as i64 - 0x1_0000_0000) as i32
        } else {
            word as i32
        }
    }

    fn encode(self) -> (bytes: Vec<u8>) {
        let word: u32 = if self < 0 {
            (self as i64 + 0x1_0000_0000) as u32
        } else {
            self as u32
        };
        word.encode()
    }
}

impl ProcessMemory {
    /// Reads the value at `addr`.
    pub fn read<T: Scalar>(&self, addr: u32) -> (r: Result<T, Exception>)
        ensures
            r is Ok <==> self@.accessible(addr, T::width() as int),
            r matches Ok(value) ==> value == T::decoded(self@.bytes_at(addr, T::width() as int)),
            r matches Err(e) ==> e == Exception::WritingToInvalidMemory(addr),
    {
        match self.read_bytes(addr, T::size()) {
            Ok(bytes) => Ok(T::decode(bytes)),
            Err(e) => Err(e),
        }
    }

    /// Stores `value` at `addr`.
    pub fn write<T: Scalar>(&mut self, addr: u32, value: T) -> (r: Result<(), Exception>)
        ensures
            r == (match old(self)@.store_fault(addr, T::width() as int) {
                Some(e) => Err::<(), Exception>(e),
                None => Ok(()),
            }),
            r is Ok ==> final(self)@ == old(self)@.stored(addr, value.encoded()),
            r is Err ==> final(self)@ == old(self)@,
    {
        let bytes: Vec<u8> = value.encode();
        self.write_slice(addr, bytes.as_slice())
    }
}

} // verus!
