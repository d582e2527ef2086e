//! System calls.
//!
//! An `ecall` takes effect when it retires. What it asks for is decided here
//! from the registers and the memory of the process alone. A call that only
//! concerns the process, such as `brk`, is carried out at once. A call that
//! needs the host is handed out as a [`HostCall`]; whoever drives the
//! simulation performs it, and hands back a [`HostReply`], which is applied
//! to the process here.

use vstd::prelude::*;
use vstd::slice::slice_to_vec;
use crate::consts;
use crate::memory::{fill, MemoryImage, ProcessMemory};
use crate::pipeline::exception::Exception;
use crate::pipeline::Pipeline;
use crate::register::{RegisterFile, RegisterState};

verus! {

/// A request to the host.
#[derive(Debug)]
pub enum HostCall {
    /// Write `data` to the file `fd`; the reply is the number of bytes
    /// written.
    Write { fd: u32, data: Vec<u8> },
    /// Read the target of the symbolic link `path`, relative to the directory
    /// `fd`; the reply is the target, of at most `buf_size` bytes.
    ReadLinkAt { fd: u32, path: Vec<u8>, buf_addr: u32, buf_size: u32 },
    /// Describe the file `fd`; the reply is the bytes of the description.
    FStat { fd: u32, buf_addr: u32 },
    /// Describe the system; the reply is the bytes of the description.
    Uname { buf_addr: u32 },
    /// The reply is the user id.
    GetUid,
    /// The reply is the effective user id.
    GetEuid,
    /// The reply is the group id.
    GetGid,
    /// The reply is the effective group id.
    GetEgid,
}

/// The mathematical content of a [`HostCall`].
pub enum HostRequest {
    Write { fd: u32, data: Seq<u8> },
    ReadLinkAt { fd: u32, path: Seq<u8>, buf_addr: u32, buf_size: u32 },
    FStat { fd: u32, buf_addr: u32 },
    Uname { buf_addr: u32 },
    GetUid,
    GetEuid,
    GetGid,
    GetEgid,
}

impl View for HostCall {
    type V = HostRequest;

    open spec fn view(&self) -> HostRequest {
        match self {
            HostCall::Write { fd, data } => HostRequest::Write { fd: *fd, data: data@ },
            HostCall::ReadLinkAt { fd, path, buf_addr, buf_size } => HostRequest::ReadLinkAt {
                fd: *fd,
                path: path@,
                buf_addr: *buf_addr,
                buf_size: *buf_size,
            },
            HostCall::FStat { fd, buf_addr } => HostRequest::FStat { fd: *fd, buf_addr: *buf_addr },
            HostCall::Uname { buf_addr } => HostRequest::Uname { buf_addr: *buf_addr },
            HostCall::GetUid => HostRequest::GetUid,
            HostCall::GetEuid => HostRequest::GetEuid,
            HostCall::GetGid => HostRequest::GetGid,
            HostCall::GetEgid => HostRequest::GetEgid,
        }
    }
}

impl HostRequest {
    /// The number of the system call that makes the request.
    pub open spec fn number(self) -> u32 {
        match self {
            HostRequest::Write { .. } => 64,
            HostRequest::ReadLinkAt { .. } => 78,
            HostRequest::FStat { .. } => 80,
            HostRequest::Uname { .. } => 160,
            HostRequest::GetUid => 174,
            HostRequest::GetEuid => 175,
            HostRequest::GetGid => 176,
            HostRequest::GetEgid => 177,
        }
    }
}

/// What the host answers.
#[derive(Debug)]
pub enum HostReply {
    /// The call succeeded with a number.
    Value(u32),
    /// The call succeeded with bytes.
    Data(Vec<u8>),
    /// The call failed.
    Failed,
}

/// The mathematical content of a [`HostReply`].
pub enum HostAnswer {
    Value(u32),
    Data(Seq<u8>),
    Failed,
}

impl View for HostReply {
    type V = HostAnswer;

    open spec fn view(&self) -> HostAnswer {
        match self {
            HostReply::Value(value) => HostAnswer::Value(*value),
            HostReply::Data(data) => HostAnswer::Data(data@),
            HostReply::Failed => HostAnswer::Failed,
        }
    }
}

/// What a system call comes to.
pub enum Plan {
    /// The call concerns the process alone, and leaves it in this state.
    Local(MemoryImage, RegisterState),
    /// The call needs the host.
    Host(HostRequest),
    /// The call cannot be made.
    Refused(Exception),
}

/// The length of the string at `addr`.
pub open spec fn string_length(memory: MemoryImage, addr: u32) -> int {
    choose|len: int| memory.string_at(addr, len)
}

/// A string has one length: the place of its first zero byte.
pub proof fn lemma_string_length_unique(memory: MemoryImage, addr: u32, a: int, b: int)
    requires
        memory.string_at(addr, a),
        memory.string_at(addr, b),
    ensures
        a == b,
{
    if a < b {
        assert(memory.region(addr)[memory.offset(addr) + a] != 0);
    } else if b < a {
        assert(memory.region(addr)[memory.offset(addr) + b] != 0);
    }
}

/// What the system call that the registers describe comes to. The number of
/// the call is in `a7`, its arguments are in `a0` to `a3`.
pub open spec fn plan(memory: MemoryImage, reg: RegisterState) -> Plan {
    let number = reg.gpr[consts::SYSCALL_NUM_REG as int];
    let a0 = reg.gpr[consts::SYSCALL_ARG1_REG as int];
    let a1 = reg.gpr[consts::SYSCALL_ARG2_REG as int];
    let a2 = reg.gpr[consts::SYSCALL_ARG3_REG as int];
    let a3 = reg.gpr[consts::SYSCALL_ARG4_REG as int];
    if number == 64 {
        if memory.accessible(a1, a2 as int) {
            Plan::Host(HostRequest::Write { fd: a0, data: memory.bytes_at(a1, a2 as int) })
        } else {
            Plan::Refused(Exception::WritingToInvalidMemory(a1))
        }
    } else if number == 78 {
        if !(exists|len: int| memory.string_at(a1, len)) {
            Plan::Refused(Exception::WritingToInvalidMemory(a1))
        } else if !memory.accessible(a2, a3 as int) {
            Plan::Refused(Exception::WritingToInvalidMemory(a2))
        } else {
            Plan::Host(
                HostRequest::ReadLinkAt {
                    fd: a0,
                    path: memory.bytes_at(a1, string_length(memory, a1)),
                    buf_addr: a2,
                    buf_size: a3,
                },
            )
        }
    } else if number == 80 {
        Plan::Host(HostRequest::FStat { fd: a0, buf_addr: a1 })
    } else if number == 160 {
        Plan::Host(HostRequest::Uname { buf_addr: a0 })
    } else if number == 174 {
        Plan::Host(HostRequest::GetUid)
    } else if number == 175 {
        Plan::Host(HostRequest::GetEuid)
    } else if number == 176 {
        Plan::Host(HostRequest::GetGid)
    } else if number == 177 {
        Plan::Host(HostRequest::GetEgid)
    } else if number == 214 {
        Plan::Local(memory.grown(a0), reg.written(consts::SYSCALL_RET_REG as int, a0))
    } else if number == 93 || number == 94 {
        Plan::Local(memory, reg.written(consts::SYSCALL_RET_REG as int, 0))
    } else {
        Plan::Refused(Exception::FailCallingSyscall(number))
    }
}

/// Whether the system call that the registers describe ends the process.
pub open spec fn exits(reg: RegisterState) -> bool {
    reg.gpr[consts::SYSCALL_NUM_REG as int] == 93 || reg.gpr[consts::SYSCALL_NUM_REG as int]
        == 94
}

/// The process after the host has answered `request` with `answer`: the
/// bytes of the answer are in memory and the result is in `a0`. An answer of
/// the wrong kind, or one that does not fit, counts as a failure of the call.
pub open spec fn answered(
    memory: MemoryImage,
    reg: RegisterState,
    request: HostRequest,
    answer: HostAnswer,
) -> Result<(MemoryImage, RegisterState), Exception> {
    let ret = consts::SYSCALL_RET_REG as int;
    match (request, answer) {
        (HostRequest::Write { .. }, HostAnswer::Value(count)) => Ok(
            (memory, reg.written(ret, count)),
        ),
        (HostRequest::ReadLinkAt { buf_addr, buf_size, .. }, HostAnswer::Data(target)) => {
            if target.len() > buf_size {
                Err(Exception::FailCallingSyscall(78))
            } else if !memory.accessible(buf_addr, buf_size as int) {
                Err(Exception::WritingToInvalidMemory(buf_addr))
            } else {
                Ok((memory.stored(buf_addr, target), reg.written(ret, target.len() as u32)))
            }
        },
        (HostRequest::FStat { buf_addr, .. }, HostAnswer::Data(stat)) => {
            match memory.store_fault(buf_addr, stat.len() as int) {
                Some(e) => Err(e),
                None => Ok((memory.stored(buf_addr, stat), reg.written(ret, 0))),
            }
        },
        (HostRequest::Uname { buf_addr }, HostAnswer::Data(name)) => {
            match memory.store_fault(buf_addr, name.len() as int) {
                Some(e) => Err(e),
                None => Ok((memory.stored(buf_addr, name), reg.written(ret, 0))),
            }
        },
        (HostRequest::GetUid, HostAnswer::Value(id)) => Ok((memory, reg.written(ret, id))),
        (HostRequest::GetEuid, HostAnswer::Value(id)) => Ok((memory, reg.written(ret, id))),
        (HostRequest::GetGid, HostAnswer::Value(id)) => Ok((memory, reg.written(ret, id))),
        (HostRequest::GetEgid, HostAnswer::Value(id)) => Ok((memory, reg.written(ret, id))),
        _ => Err(Exception::FailCallingSyscall(request.number())),
    }
}

impl Pipeline {
    /// Starts the system call that the registers describe. A call that
    /// concerns only the process is carried out; for a call that needs the
    /// host the request is returned, and process and registers stay as they
    /// are until the answer is applied.
    pub fn system_call(memory: &mut ProcessMemory, reg: &mut RegisterFile) -> (r: Result<
        Option<HostCall>,
        Exception,
    >)
        ensures
            match plan(old(memory)@, old(reg)@) {
                Plan::Local(m, g) => r == Ok::<Option<HostCall>, Exception>(None) && final(memory)@
                    == m && final(reg)@ == g,
                Plan::Host(request) => {
                    &&& r matches Ok(Some(call))
                    &&& call@ == request
                    &&& final(memory)@ == old(memory)@
                    &&& final(reg)@ == old(reg)@
                },
                Plan::Refused(e) => r == Err::<Option<HostCall>, Exception>(e) && final(memory)@
                    == old(memory)@ && final(reg)@ == old(reg)@,
            },
    {
        let syscall_num: u32 = reg.gpr[consts::SYSCALL_NUM_REG].read();
        let a0: u32 = reg.gpr[consts::SYSCALL_ARG1_REG].read();
        let a1: u32 = reg.gpr[consts::SYSCALL_ARG2_REG].read();
        let a2: u32 = reg.gpr[consts::SYSCALL_ARG3_REG].read();
        let a3: u32 = reg.gpr[consts::SYSCALL_ARG4_REG].read();
        match syscall_num {
            64 => match memory.read_bytes(a1, a2 as usize) {
                Ok(bytes) => Ok(Some(HostCall::Write { fd: a0, data: slice_to_vec(bytes) })),
                Err(e) => Err(e),
            },
            78 => {
                let path: Vec<u8> = match memory.read_c_string(a1) {
                    Ok(path) => path,
                    Err(e) => {
                        return Err(e);
                    },
                };
                proof {
                    lemma_string_length_unique(
                        memory@,
                        a1,
                        path@.len() as int,
                        string_length(memory@, a1),
                    );
                }
                match memory.read_bytes(a2, a3 as usize) {
                    Ok(_) => Ok(
                        Some(HostCall::ReadLinkAt { fd: a0, path, buf_addr: a2, buf_size: a3 }),
                    ),
                    Err(e) => Err(e),
                }
            },
            80 => Ok(Some(HostCall::FStat { fd: a0, buf_addr: a1 })),
            160 => Ok(Some(HostCall::Uname { buf_addr: a0 })),
            174 => Ok(Some(HostCall::GetUid)),
            175 => Ok(Some(HostCall::GetEuid)),
            176 => Ok(Some(HostCall::GetGid)),
            177 => Ok(Some(HostCall::GetEgid)),
            214 => {
                memory.grow(a0);
                reg.write_gpr(consts::SYSCALL_RET_REG as u8, a0);
                Ok(None)
            },
            93 | 94 => {
                reg.write_gpr(consts::SYSCALL_RET_REG as u8, 0);
                Ok(None)
            },
            _ => Err(Exception::FailCallingSyscall(syscall_num)),
        }
    }

    /// Applies the answer of the host to the system call `call`.
    pub fn finish_system_call(
        memory: &mut ProcessMemory,
        reg: &mut RegisterFile,
        call: &HostCall,
        reply: &HostReply,
    ) -> (r: Result<(), Exception>)
        ensures
            match answered(old(memory)@, old(reg)@, call@, reply@) {
                Ok((m, g)) => r is Ok && final(memory)@ == m && final(reg)@ == g,
                Err(e) => r == Err::<(), Exception>(e) && final(memory)@ == old(memory)@
                    && final(reg)@ == old(reg)@,
            },
    {
        let ret: u8 = consts::SYSCALL_RET_REG as u8;
        match (call, reply) {
            (HostCall::Write { .. }, HostReply::Value(count)) => {
                reg.write_gpr(ret, *count);
                Ok(())
            },
            (HostCall::ReadLinkAt { buf_addr, buf_size, .. }, HostReply::Data(target)) => {
                if target.len() > *buf_size as usize {
                    return Err(Exception::FailCallingSyscall(78));
                }
                let ghost before = memory@;
                let buf: &mut [u8] = memory.read_bytes_mut(*buf_addr, *buf_size as usize)?;
                fill(buf, target.as_slice());
                proof {
                    let offset = before.offset(*buf_addr);
                    let region = before.region(*buf_addr);
                    let size = *buf_size as int;
                    assert(region.subrange(0, offset) + (target@ + region.subrange(
                        offset,
                        offset + size,
                    ).subrange(target@.len() as int, size)) + region.subrange(
                        offset + size,
                        region.len() as int,
                    ) =~= region.subrange(0, offset) + target@ + region.subrange(
                        offset + target@.len(),
                        region.len() as int,
                    ));
                }
                reg.write_gpr(ret, target.len() as u32);
                Ok(())
            },
            (HostCall::FStat { buf_addr, .. }, HostReply::Data(stat)) => {
                memory.write_slice(*buf_addr, stat.as_slice())?;
                reg.write_gpr(ret, 0);
                Ok(())
            },
            (HostCall::Uname { buf_addr }, HostReply::Data(name)) => {
                memory.write_slice(*buf_addr, name.as_slice())?;
                reg.write_gpr(ret, 0);
                Ok(())
            },
            (HostCall::GetUid, HostReply::Value(id)) => {
                reg.write_gpr(ret, *id);
                Ok(())
            },
            (HostCall::GetEuid, HostReply::Value(id)) => {
                reg.write_gpr(ret, *id);
                Ok(())
            },
            (HostCall::GetGid, HostReply::Value(id)) => {
                reg.write_gpr(ret, *id);
                Ok(())
            },
            (HostCall::GetEgid, HostReply::Value(id)) => {
                reg.write_gpr(ret, *id);
                Ok(())
            },
            (HostCall::Write { .. }, _) => Err(Exception::FailCallingSyscall(64)),
            (HostCall::ReadLinkAt { .. }, _) => Err(Exception::FailCallingSyscall(78)),
            (HostCall::FStat { .. }, _) => Err(Exception::FailCallingSyscall(80)),
            (HostCall::Uname { .. }, _) => Err(Exception::FailCallingSyscall(160)),
            (HostCall::GetUid, _) => Err(Exception::FailCallingSyscall(174)),
            (HostCall::GetEuid, _) => Err(Exception::FailCallingSyscall(175)),
            (HostCall::GetGid, _) => Err(Exception::FailCallingSyscall(176)),
            (HostCall::GetEgid, _) => Err(Exception::FailCallingSyscall(177)),
        }
    }
}

} // verus!
