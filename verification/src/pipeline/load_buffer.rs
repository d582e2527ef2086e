//! The load buffer: loads and atomic operations in flight.
//!
//! A load may read memory only when no older store that is still in flight
//! could write the address that it reads. The buffer holds each load until
//! that is so, lets the memory latency pass, and then carries out the read.

use vstd::prelude::*;
use std::collections::HashMap;
use crate::instruction::{Function, Opcode};
use crate::memory::{MemoryImage, ProcessMemory};
use crate::pipeline::exception::Exception;
use crate::pipeline::functional_units::memory::{
    after_load, load_width, loaded_value, MemoryUnit,
};
use crate::pipeline::keyed::collect_keys;
use crate::pipeline::operand::Operand;
use crate::pipeline::reorder_buffer::{ReorderBuffer, ReorderBufferEntry};
use crate::pipeline::reservation_station::FinishedCalc;
use crate::register::RegisterFile;

verus! {

broadcast use vstd::std_specs::hash::group_hash_axioms;

/// The progress of a load.
#[derive(Debug, Clone, Copy, PartialEq, Eq, Structural)]
pub enum LoadBufferStatus {
    Wait,
    Execute,
    Finished,
}

/// A load in flight, owned by the reorder-buffer entry `rob_index`.
#[derive(Debug, Clone, Copy)]
pub struct LoadBufferEntry {
    pub rob_index: usize,
    pub status: LoadBufferStatus,
    pub value: Result<u32, Exception>,
}

/// The loads in flight, by reorder-buffer index.
#[derive(Debug)]
pub struct LoadBuffer {
    buf: HashMap<usize, LoadBufferEntry>,
}

/// Whether the store `entry`, which is in flight, keeps a load of `addr` from
/// reading: its address is still unknown, or it is `addr`.
pub open spec fn blocks_load(entry: ReorderBufferEntry, addr: u32) -> bool {
    entry.is_store() && match entry.addr {
        Operand::Rob(_) => true,
        Operand::Value(a) => a == addr,
    }
}

/// Whether `load` may execute: it has not finished, its address is known,
/// the register operand of an atomic read-modify-write is known, and no
/// older entry of the reorder buffer blocks it.
pub open spec fn load_ready(
    load: LoadBufferEntry,
    order: Seq<usize>,
    entries: Map<usize, ReorderBufferEntry>,
) -> bool {
    let entry = entries[load.rob_index];
    &&& !(load.status is Finished)
    &&& entries.contains_key(load.rob_index)
    &&& entry.addr is Value
    &&& entry.inst.opcode is Amo && !(entry.inst.function is Lrw) ==> entry.mem_value is Value
    &&& forall|p: int|
        0 <= p < order.index_of(load.rob_index) ==> !blocks_load(
            #[trigger] entries[order[p]],
            entry.addr->Value_0,
        )
}

/// What the read of the load of `entry` yields in the image `mem`.
pub open spec fn load_outcome(entry: ReorderBufferEntry, mem: MemoryImage) -> Result<
    u32,
    Exception,
> {
    let addr = entry.addr->Value_0;
    let width = load_width(entry.inst.function);
    if mem.accessible(addr, width) {
        Ok(loaded_value(entry.inst.function, mem.bytes_at(addr, width)))
    } else {
        Err(Exception::WritingToInvalidMemory(addr))
    }
}

/// The memory latency of `entry` that is left after one more cycle.
pub open spec fn latency_left(entry: ReorderBufferEntry) -> usize {
    if entry.mem_rem_cycle > 0 {
        (entry.mem_rem_cycle - 1) as usize
    } else {
        0
    }
}

/// A ready load after one cycle: it executes, and once the memory latency
/// of its owner `entry` has passed it has finished with the value read.
pub open spec fn ticked_load(
    load: LoadBufferEntry,
    entry: ReorderBufferEntry,
    mem: MemoryImage,
) -> LoadBufferEntry {
    if latency_left(entry) == 0 {
        LoadBufferEntry {
            status: LoadBufferStatus::Finished,
            value: load_outcome(entry, mem),
            ..load
        }
    } else {
        LoadBufferEntry { status: LoadBufferStatus::Execute, ..load }
    }
}

/// The owner of a ready load after one cycle: one cycle of latency has
/// passed, and when none is left the load has read.
pub open spec fn ticked_owner(entry: ReorderBufferEntry, mem: MemoryImage) -> ReorderBufferEntry {
    let waited = ReorderBufferEntry { mem_rem_cycle: latency_left(entry), ..entry };
    if latency_left(entry) == 0 {
        match load_outcome(entry, mem) {
            Ok(value) => after_load(waited, value),
            Err(_) => waited,
        }
    } else {
        waited
    }
}

/// The loads after one cycle.
pub open spec fn loads_after_execute(
    buf: Map<usize, LoadBufferEntry>,
    order: Seq<usize>,
    entries: Map<usize, ReorderBufferEntry>,
    mem: MemoryImage,
) -> Map<usize, LoadBufferEntry> {
    Map::new(
        |idx: usize| buf.contains_key(idx),
        |idx: usize|
            if load_ready(buf[idx], order, entries) {
                ticked_load(buf[idx], entries[idx], mem)
            } else {
                buf[idx]
            },
    )
}

/// The entries of the reorder buffer after one cycle of the load buffer.
pub open spec fn rob_after_loads(
    buf: Map<usize, LoadBufferEntry>,
    order: Seq<usize>,
    entries: Map<usize, ReorderBufferEntry>,
    mem: MemoryImage,
) -> Map<usize, ReorderBufferEntry> {
    Map::new(
        |idx: usize| entries.contains_key(idx),
        |idx: usize|
            if buf.contains_key(idx) && load_ready(buf[idx], order, entries) {
                ticked_owner(entries[idx], mem)
            } else {
                entries[idx]
            },
    )
}

/// The result that a finished load puts on the common bus.
pub open spec fn load_result(load: LoadBufferEntry) -> FinishedCalc {
    FinishedCalc {
        rob_idx: load.rob_index,
        reg_value: match load.value {
            Ok(value) => value,
            Err(_) => 0,
        },
        exception: match load.value {
            Ok(_) => None,
            Err(e) => Some(e),
        },
    }
}

/// Whether `jobs` are the results of the finished loads of `buf`, each once,
/// in some order.
pub open spec fn drains_loads(buf: Map<usize, LoadBufferEntry>, jobs: Seq<FinishedCalc>) -> bool {
    &&& forall|j: int|
        0 <= j < jobs.len() ==> {
            let idx = (#[trigger] jobs[j]).rob_idx;
            &&& buf.contains_key(idx)
            &&& buf[idx].status is Finished
            &&& jobs[j] == load_result(buf[idx])
        }
    &&& forall|j: int, k: int|
        0 <= j < jobs.len() && 0 <= k < jobs.len() && j != k ==> (#[trigger] jobs[j]).rob_idx != (
        #[trigger] jobs[k]).rob_idx
    &&& forall|idx: usize|
        buf.contains_key(idx) && (#[trigger] buf[idx]).status is Finished ==> exists|j: int|
            0 <= j < jobs.len() && (#[trigger] jobs[j]).rob_idx == idx
}

/// The loads that are left when the finished ones have been taken out.
pub open spec fn unfinished_loads(buf: Map<usize, LoadBufferEntry>) -> Map<usize, LoadBufferEntry> {
    Map::new(
        |idx: usize| buf.contains_key(idx) && !(buf[idx].status is Finished),
        |idx: usize| buf[idx],
    )
}

/// The readiness of a load depends on the order of the reorder buffer, on
/// instructions and addresses of the entries, and on the load's own entry;
/// it is the same in two buffers that agree on these.
pub proof fn lemma_ready_stable(load: LoadBufferEntry, a: &ReorderBuffer, b: &ReorderBuffer)
    requires
        a.order() == b.order(),
        a.entries().dom() == b.entries().dom(),
        forall|idx: usize|
            a.entries().contains_key(idx) ==> (#[trigger] a.entries()[idx]).inst
                == b.entries()[idx].inst && a.entries()[idx].addr == b.entries()[idx].addr,
        a.entries().contains_key(load.rob_index) ==> a.entries()[load.rob_index]
            == b.entries()[load.rob_index],
        a.wf(),
        b.wf(),
    ensures
        load_ready(load, a.order(), a.entries()) == load_ready(load, b.order(), b.entries()),
{
    if a.entries().contains_key(load.rob_index) {
        let addr = a.entries()[load.rob_index].addr->Value_0;
        assert forall|p: int| 0 <= p < a.order().index_of(load.rob_index) implies blocks_load(
            #[trigger] a.entries()[a.order()[p]],
            addr,
        ) == blocks_load(b.entries()[b.order()[p]], addr) by {
            assert(a.order().to_set().contains(load.rob_index));
            assert(a.order().contains(load.rob_index));
            assert(a.order().contains(a.order()[p]));
            assert(a.order().to_set().contains(a.order()[p]));
        }
        if load_ready(load, a.order(), a.entries()) {
            assert forall|p: int| 0 <= p < b.order().index_of(load.rob_index) implies !blocks_load(
                #[trigger] b.entries()[b.order()[p]],
                addr,
            ) by {
                assert(!blocks_load(a.entries()[a.order()[p]], addr));
            }
        }
        if load_ready(load, b.order(), b.entries()) {
            assert forall|p: int| 0 <= p < a.order().index_of(load.rob_index) implies !blocks_load(
                #[trigger] a.entries()[a.order()[p]],
                addr,
            ) by {
                assert(!blocks_load(b.entries()[b.order()[p]], addr));
            }
        }
    }
}

/// A load reads memory only when no older store in flight could write the
/// address that it reads: in the cycle in which a load finishes, every older
/// entry of the reorder buffer that stores has a known address, and that
/// address is not the address of the load.
pub proof fn lemma_load_waits_for_older_stores(
    buf: Map<usize, LoadBufferEntry>,
    order: Seq<usize>,
    entries: Map<usize, ReorderBufferEntry>,
    mem: MemoryImage,
    idx: usize,
    p: int,
)
    requires
        buf.contains_key(idx),
        !(buf[idx].status is Finished),
        loads_after_execute(buf, order, entries, mem)[idx].status is Finished,
        0 <= p < order.index_of(buf[idx].rob_index),
        entries[order[p]].is_store(),
    ensures
        entries.contains_key(buf[idx].rob_index),
        entries[buf[idx].rob_index].addr is Value,
        entries[order[p]].addr is Value,
        entries[order[p]].addr != entries[buf[idx].rob_index].addr,
{
    assert(load_ready(buf[idx], order, entries));
    assert(!blocks_load(entries[order[p]], entries[buf[idx].rob_index].addr->Value_0));
}

/// A load that is not ready stays as it is, and so does its owner: a load
/// never reads while an older store blocks it.
pub proof fn lemma_blocked_load_does_not_read(
    buf: Map<usize, LoadBufferEntry>,
    order: Seq<usize>,
    entries: Map<usize, ReorderBufferEntry>,
    mem: MemoryImage,
    idx: usize,
)
    requires
        buf.contains_key(idx),
        entries.contains_key(idx),
        !load_ready(buf[idx], order, entries),
    ensures
        loads_after_execute(buf, order, entries, mem)[idx] == buf[idx],
        rob_after_loads(buf, order, entries, mem)[idx] == entries[idx],
{
}

impl LoadBuffer {
    /// The loads in flight, by reorder-buffer index.
    pub closed spec fn entries(&self) -> Map<usize, LoadBufferEntry> {
        self.buf@
    }

    /// Every load is filed under the index of its owner.
    pub open spec fn wf(&self) -> bool {
        forall|idx: usize|
            self.entries().contains_key(idx) ==> (#[trigger] self.entries()[idx]).rob_index == idx
    }

    /// A buffer without loads.
    pub fn new() -> (buffer: LoadBuffer)
        ensures
            buffer.wf(),
            buffer.entries() == Map::<usize, LoadBufferEntry>::empty(),
    {
        LoadBuffer { buf: HashMap::new() }
    }

    /// Removes every load.
    pub fn clear(&mut self)
        ensures
            final(self).wf(),
            final(self).entries() == Map::<usize, LoadBufferEntry>::empty(),
    {
        self.buf.clear();
    }

    /// Takes up the load or atomic operation that owns reorder-buffer entry
    /// `rob_index`.
    pub fn issue(&mut self, rob_index: usize, rob: &ReorderBuffer, reg: &RegisterFile)
        requires
            old(self).wf(),
            rob.entries().contains_key(rob_index),
            rob.entries()[rob_index].inst.opcode is Load || rob.entries()[rob_index].inst.opcode
                is Amo,
        ensures
            final(self).wf(),
            final(self).entries() == old(self).entries().insert(
                rob_index,
                LoadBufferEntry { rob_index, status: LoadBufferStatus::Wait, value: Ok(0) },
            ),
    {
        self.buf.insert(
            rob_index,
            LoadBufferEntry { rob_index, status: LoadBufferStatus::Wait, value: Ok(0) },
        );
    }

    /// Broadcasts the result `job`. A load has no operand of its own, so the
    /// buffer stays as it is: address and value of a load wait in its
    /// reorder-buffer entry.
    pub fn propagate(&mut self, job: &FinishedCalc)
        ensures
            final(self).entries() == old(self).entries(),
    {
    }

    /// Removes the loads that have finished and returns their results, in no
    /// particular order.
    pub fn pop_finished(&mut self) -> (finished: Vec<FinishedCalc>)
        requires
            old(self).wf(),
        ensures
            final(self).wf(),
            final(self).entries() == unfinished_loads(old(self).entries()),
            drains_loads(old(self).entries(), finished@),
    {
        let keys: Vec<usize> = collect_keys(&self.buf);
        let mut finished: Vec<FinishedCalc> = Vec::new();
        let ghost mut popped: Seq<usize> = Seq::empty();
        let mut i: usize = 0;
        while i < keys.len()
            invariant
                i <= keys@.len(),
                keys@.no_duplicates(),
                keys@.to_set() == old(self).buf@.dom(),
                old(self).wf(),
                forall|idx: usize|
                    #![trigger self.buf@.contains_key(idx)]
                    self.buf@.contains_key(idx) ==> old(self).buf@.contains_key(idx)
                        && self.buf@[idx] == old(self).buf@[idx],
                forall|j: int|
                    0 <= j < i ==> (self.buf@.contains_key(keys@[j])
                        <==> !(old(self).buf@[keys@[j]].status is Finished)),
                forall|j: int| i <= j < keys@.len() ==> self.buf@.contains_key(keys@[j]),
                popped.len() == finished@.len(),
                forall|j: int|
                    0 <= j < finished@.len() ==> {
                        &&& (#[trigger] finished@[j]).rob_idx == popped[j]
                        &&& keys@.subrange(0, i as int).contains(popped[j])
                        &&& old(self).buf@[popped[j]].status is Finished
                        &&& finished@[j] == load_result(old(self).buf@[popped[j]])
                    },
                popped.no_duplicates(),
                forall|j: int|
                    0 <= j < i && old(self).buf@[keys@[j]].status is Finished ==> popped.contains(
                        keys@[j],
                    ),
            decreases keys@.len() - i,
        {
            let key: usize = keys[i];
            proof {
                assert(keys@.contains(key));
                assert(keys@.to_set().contains(key));
            }
            let entry: LoadBufferEntry = match self.buf.get(&key) {
                Some(entry) => *entry,
                None => {
                    proof {
                        assert(false);
                    }
                    i += 1;
                    continue ;
                },
            };
            let ghost buf_before = self.buf@;
            let ghost popped_before = popped;
            let ghost finished_before = finished@;
            if entry.status == LoadBufferStatus::Finished {
                self.buf.remove(&key);
                finished.push(
                    FinishedCalc {
                        rob_idx: entry.rob_index,
                        reg_value: match entry.value {
                            Ok(value) => value,
                            Err(_) => 0,
                        },
                        exception: match entry.value {
                            Ok(_) => None,
                            Err(e) => Some(e),
                        },
                    },
                );
                proof {
                    popped = popped.push(key);
                }
            }
            proof {
                assert forall|idx: usize|
                    #![trigger self.buf@.contains_key(idx)]
                    self.buf@.contains_key(idx) implies old(self).buf@.contains_key(idx)
                    && self.buf@[idx] == old(self).buf@[idx] by {
                    assert(buf_before.contains_key(idx));
                }
                assert forall|j: int| 0 <= j < i implies (self.buf@.contains_key(keys@[j])
                    <==> !(old(self).buf@[keys@[j]].status is Finished)) by {
                    assert(keys@[j] != key);
                }
                assert forall|j: int| i < j < keys@.len() implies self.buf@.contains_key(
                    keys@[j],
                ) by {
                    assert(keys@[j] != key);
                }
                assert(keys@.subrange(0, i + 1)[i as int] == key);
                assert forall|idx: usize|
                    keys@.subrange(0, i as int).contains(idx) implies keys@.subrange(
                    0,
                    i + 1,
                ).contains(idx) by {
                    let p = choose|p: int| 0 <= p < i && keys@.subrange(0, i as int)[p] == idx;
                    assert(keys@.subrange(0, i + 1)[p] == idx);
                }
                assert(!keys@.subrange(0, i as int).contains(key)) by {
                    if keys@.subrange(0, i as int).contains(key) {
                        let p = choose|p: int| 0 <= p < i && keys@.subrange(0, i as int)[p] == key;
                        assert(keys@[p] == key);
                    }
                }
                assert forall|j: int| 0 <= j < finished@.len() implies {
                    &&& (#[trigger] finished@[j]).rob_idx == popped[j]
                    &&& keys@.subrange(0, i + 1).contains(popped[j])
                    &&& old(self).buf@[popped[j]].status is Finished
                    &&& finished@[j] == load_result(old(self).buf@[popped[j]])
                } by {
                    if j < finished_before.len() {
                        assert(finished@[j] == finished_before[j]);
                        assert(popped[j] == popped_before[j]);
                    }
                }
                assert(popped.no_duplicates()) by {
                    assert forall|a: int, b: int|
                        0 <= a < popped.len() && 0 <= b < popped.len() && a != b implies popped[a]
                        != popped[b] by {
                        if a < popped_before.len() && b < popped_before.len() {
                        } else if a < popped_before.len() {
                            assert(finished_before[a].rob_idx == popped_before[a]);
                        } else {
                            assert(finished_before[b].rob_idx == popped_before[b]);
                        }
                    }
                }
                assert forall|j: int|
                    0 <= j < i + 1 && old(self).buf@[keys@[j]].status
                        is Finished implies popped.contains(keys@[j]) by {
                    if j < i {
                        let p = choose|p: int|
                            0 <= p < popped_before.len() && popped_before[p] == keys@[j];
                        assert(popped[p] == keys@[j]);
                    } else {
                        assert(popped[popped.len() - 1] == key);
                    }
                }
            }
            i += 1;
        }
        proof {
            assert(self.buf@ =~= Map::new(
                |idx: usize|
                    old(self).entries().contains_key(idx) && !(old(self).entries()[idx].status
                        is Finished),
                |idx: usize| old(self).entries()[idx],
            )) by {
                assert forall|k: usize|
                    self.buf@.contains_key(k)
                        <==> (old(self).buf@.contains_key(k)
                        && !(old(self).buf@[k].status is Finished)) by {
                    if old(self).buf@.contains_key(k) {
                        assert(keys@.to_set().contains(k));
                        assert(keys@.contains(k));
                        let j = choose|j: int| 0 <= j < keys@.len() && keys@[j] == k;
                        assert(self.buf@.contains_key(keys@[j])
                            <==> !(old(self).buf@[keys@[j]].status is Finished));
                    } else {
                        assert(!self.buf@.contains_key(k));
                    }
                }
            }
            assert forall|j: int| 0 <= j < finished@.len() implies {
                let idx = (#[trigger] finished@[j]).rob_idx;
                &&& old(self).entries().contains_key(idx)
                &&& old(self).entries()[idx].status is Finished
                &&& finished@[j] == load_result(old(self).entries()[idx])
            } by {
                let p = choose|p: int|
                    0 <= p < keys@.len() && keys@.subrange(0, keys@.len() as int)[p] == popped[j];
                assert(keys@[p] == popped[j]);
                assert(keys@.contains(popped[j]));
                assert(keys@.to_set().contains(popped[j]));
            }
            assert forall|j: int, k: int|
                0 <= j < finished@.len() && 0 <= k < finished@.len() && j != k implies
                (#[trigger] finished@[j]).rob_idx != (#[trigger] finished@[k]).rob_idx by {
                assert(popped[j] != popped[k]);
            }
            assert forall|idx: usize|
                old(self).entries().contains_key(idx)
                    && (#[trigger] old(self).entries()[idx]).status is Finished
                    implies exists|j: int|
                0 <= j < finished@.len() && (#[trigger] finished@[j]).rob_idx == idx by {
                assert(keys@.to_set().contains(idx));
                assert(keys@.contains(idx));
                let q = choose|q: int| 0 <= q < keys@.len() && keys@[q] == idx;
                assert(popped.contains(keys@[q]));
                let p = choose|p: int| 0 <= p < popped.len() && popped[p] == idx;
                assert(finished@[p].rob_idx == idx);
            }
        }
        finished
    }

    /// Whether `load` may execute.
    pub fn is_load_ready(load: &LoadBufferEntry, rob: &ReorderBuffer) -> (ready: bool)
        requires
            rob.wf(),
        ensures
            ready == load_ready(*load, rob.order(), rob.entries()),
    {
        if load.status == LoadBufferStatus::Finished {
            return false;
        }
        let rob_entry: ReorderBufferEntry = match rob.get(load.rob_index) {
            Some(entry) => *entry,
            None => {
                return false;
            },
        };
        let my_addr: u32 = match rob_entry.addr {
            Operand::Value(target_addr) => target_addr,
            Operand::Rob(_) => {
                return false;
            },
        };
        if rob_entry.inst.opcode == Opcode::Amo && rob_entry.inst.function != Function::Lrw {
            if let Operand::Rob(_) = rob_entry.mem_value {
                return false;
            }
        }
        proof {
            assert(rob.order().to_set().contains(load.rob_index));
            assert(rob.order().contains(load.rob_index));
        }
        let ghost age = rob.order().index_of(load.rob_index);
        let mut p: usize = 0;
        while p < rob.len()
            invariant
                rob.wf(),
                !(load.status is Finished),
                rob.entries().contains_key(load.rob_index),
                rob.entries()[load.rob_index] == rob_entry,
                rob_entry.addr == Operand::Value(my_addr),
                rob_entry.inst.opcode is Amo && !(rob_entry.inst.function is Lrw)
                    ==> rob_entry.mem_value is Value,
                rob.order().contains(load.rob_index),
                age == rob.order().index_of(load.rob_index),
                0 <= age < rob.order().len(),
                rob.order()[age] == load.rob_index,
                p <= age,
                forall|q: int|
                    0 <= q < p ==> !blocks_load(#[trigger] rob.entries()[rob.order()[q]], my_addr),
            decreases rob.order().len() - p,
        {
            let id: usize = match rob.nth_index(p) {
                Some(id) => id,
                None => {
                    return false;
                },
            };
            if id == load.rob_index {
                proof {
                    assert(p == age);
                }
                return true;
            }
            proof {
                assert(rob.order().contains(id));
                assert(rob.order().to_set().contains(id));
            }
            let older: ReorderBufferEntry = match rob.get(id) {
                Some(entry) => *entry,
                None => {
                    return false;
                },
            };
            let is_store: bool = older.inst.opcode == Opcode::Store || (older.inst.opcode
                == Opcode::Amo && older.inst.function != Function::Lrw);
            if is_store {
                let blocks: bool = match older.addr {
                    Operand::Rob(_) => true,
                    Operand::Value(addr) => addr == my_addr,
                };
                if blocks {
                    proof {
                        assert(blocks_load(rob.entries()[rob.order()[p as int]], my_addr));
                    }
                    return false;
                }
            }
            p += 1;
        }
        true
    }

    /// Runs the buffer for one cycle: every load that is ready lets one cycle
    /// of memory latency pass, and reads from `mem` when none is left.
    pub fn execute(&mut self, rob: &mut ReorderBuffer, mem: &ProcessMemory)
        requires
            old(self).wf(),
            old(rob).wf(),
        ensures
            final(self).wf(),
            final(rob).wf(),
            final(rob).order() == old(rob).order(),
            final(rob).capacity() == old(rob).capacity(),
            final(self).entries()
                == loads_after_execute(old(self).entries(), old(rob).order(), old(rob).entries(),
                mem@),
            final(rob).entries()
                == rob_after_loads(old(self).entries(), old(rob).order(), old(rob).entries(), mem@),
    {
        let keys: Vec<usize> = collect_keys(&self.buf);
        let mut i: usize = 0;
        while i < keys.len()
            invariant
                i <= keys@.len(),
                keys@.no_duplicates(),
                keys@.to_set() == old(self).buf@.dom(),
                old(self).wf(),
                self.wf(),
                old(rob).wf(),
                rob.wf(),
                rob.order() == old(rob).order(),
                rob.capacity() == old(rob).capacity(),
                rob.entries().dom() == old(rob).entries().dom(),
                self.buf@.dom() == old(self).buf@.dom(),
                forall|idx: usize|
                    rob.entries().contains_key(idx) ==> (#[trigger] rob.entries()[idx]).inst
                        == old(rob).entries()[idx].inst
                            && rob.entries()[idx].addr == old(rob).entries()[idx].addr,
                forall|j: int|
                    0 <= j < i ==> self.buf@[keys@[j]] == loads_after_execute(
                        old(self).buf@,
                        old(rob).order(),
 old(rob).entries(),
 mem@,
                    )[keys@[j]],
                forall|j: int| i <= j < keys@.len()
                    ==> self.buf@[keys@[j]] == old(self).buf@[keys@[j]],
                forall|j: int|
                    0 <= j < i && rob.entries().contains_key(keys@[j]) ==> rob.entries()[keys@[j]]
                        == rob_after_loads(old(self).buf@, old(rob).order(), old(rob).entries(),
                            mem@)[keys@[j]],
                forall|idx: usize|
                    rob.entries().contains_key(idx) && !keys@.subrange(0, i as int).contains(idx)
                        ==> rob.entries()[idx] == old(rob).entries()[idx],
            decreases keys@.len() - i,
        {
            let key: usize = keys[i];
            proof {
                assert(keys@.contains(key));
                assert(keys@.to_set().contains(key));
                assert(!keys@.subrange(0, i as int).contains(key)) by {
                    if keys@.subrange(0, i as int).contains(key) {
                        let p = choose|p: int| 0 <= p < i && keys@.subrange(0, i as int)[p] == key;
                        assert(keys@[p] == key);
                    }
                }
            }
            let entry: LoadBufferEntry = match self.buf.get(&key) {
                Some(entry) => *entry,
                None => {
                    proof {
                        assert(false);
                    }
                    i += 1;
                    continue ;
                },
            };
            let ghost rob_before = rob.entries();
            let ghost buf_before = self.buf@;
            proof {
                assert(entry == old(self).buf@[key]);
                assert(entry.rob_index == key);
                lemma_ready_stable(entry, rob, old(rob));
            }
            if LoadBuffer::is_load_ready(&entry, rob) {
                let mut rob_entry: ReorderBufferEntry = match rob.get(key) {
                    Some(rob_entry) => *rob_entry,
                    None => {
                        proof {
                            assert(false);
                        }
                        i += 1;
                        continue ;
                    },
                };
                proof {
                    assert(rob_entry == old(rob).entries()[key]);
                }
                let addr: u32 = match rob_entry.addr {
                    Operand::Value(a) => a,
                    Operand::Rob(_) => 0,
                };
                let mut updated = LoadBufferEntry { status: LoadBufferStatus::Execute, ..entry };
                rob_entry.mem_rem_cycle = rob_entry.mem_rem_cycle.saturating_sub(1);
                if rob_entry.mem_rem_cycle == 0 {
                    updated.value = MemoryUnit::execute(addr, &mut rob_entry, mem);
                    updated.status = LoadBufferStatus::Finished;
                }
                rob.set(key, rob_entry);
                self.buf.insert(key, updated);
                proof {
                    assert(updated == ticked_load(entry, old(rob).entries()[key], mem@));
                    assert(rob_entry == ticked_owner(old(rob).entries()[key], mem@));
                }
            }
            proof {
                assert(rob.entries().dom() =~= old(rob).entries().dom());
                assert(self.buf@.dom() =~= old(self).buf@.dom());
                assert forall|j: int| 0 <= j < i + 1 implies self.buf@[keys@[j]]
                    == loads_after_execute(old(self).buf@, old(rob).order(), old(rob).entries(),
                        mem@)[keys@[j]] by {
                    if j < i {
                        assert(keys@[j] != key);
                        assert(buf_before[keys@[j]] == loads_after_execute(
                            old(self).buf@,
                            old(rob).order(),
 old(rob).entries(),
 mem@,
                        )[keys@[j]]);
                    }
                }
                assert forall|j: int| i < j < keys@.len()
                    implies self.buf@[keys@[j]] == old(self).buf@[keys@[j]] by {
                    assert(keys@[j] != key);
                }
                assert forall|j: int|
                    0 <= j < i + 1 && rob.entries().contains_key(
                        keys@[j],
                    ) implies rob.entries()[keys@[j]] == rob_after_loads(
                    old(self).buf@,
                    old(rob).order(),
 old(rob).entries(),
 mem@,
                )[keys@[j]] by {
                    if j < i {
                        assert(keys@[j] != key);
                        assert(rob_before[keys@[j]] == rob_after_loads(
                            old(self).buf@,
                            old(rob).order(),
 old(rob).entries(),
 mem@,
                        )[keys@[j]]);
                    } else {
                        assert(rob_before[key] == old(rob).entries()[key]);
                    }
                }
                assert forall|idx: usize|
                    rob.entries().contains_key(idx) && !keys@.subrange(0, i + 1).contains(
                        idx,
                    ) implies rob.entries()[idx] == old(rob).entries()[idx] by {
                    assert(keys@.subrange(0, i + 1)[i as int] == key);
                    assert(idx != key);
                    assert(!keys@.subrange(0, i as int).contains(idx)) by {
                        if keys@.subrange(0, i as int).contains(idx) {
                            let p = choose|p: int|
                                0 <= p < i && keys@.subrange(0, i as int)[p] == idx;
                            assert(keys@.subrange(0, i + 1)[p] == idx);
                        }
                    }
                }
                assert forall|idx: usize| rob.entries().contains_key(idx) implies
                    (#[trigger] rob.entries()[idx]).inst == old(rob).entries()[idx].inst
                    && rob.entries()[idx].addr == old(rob).entries()[idx].addr by {
                    if idx != key {
                        assert(rob.entries()[idx] == rob_before[idx]);
                    }
                }
                assert(self.wf()) by {
                    assert forall|idx: usize| self.entries().contains_key(idx) implies
                        (#[trigger] self.entries()[idx]).rob_index == idx by {
                        if idx != key {
                            assert(self.buf@[idx] == buf_before[idx]);
                        }
                    }
                }
            }
            i += 1;
        }
        proof {
            assert(self.buf@
                =~= loads_after_execute(old(self).buf@, old(rob).order(), old(rob).entries(),
                mem@)) by {
                assert forall|k: usize| self.buf@.contains_key(k) implies self.buf@[k]
                    == loads_after_execute(old(self).buf@, old(rob).order(), old(rob).entries(),
                        mem@)[k] by {
                    assert(keys@.to_set().contains(k));
                    assert(keys@.contains(k));
                    let j = choose|j: int| 0 <= j < keys@.len() && keys@[j] == k;
                    assert(self.buf@[keys@[j]] == loads_after_execute(
                        old(self).buf@,
                        old(rob).order(),
 old(rob).entries(),
 mem@,
                    )[keys@[j]]);
                }
            }
            assert(rob.entries()
                =~= rob_after_loads(old(self).buf@, old(rob).order(), old(rob).entries(),
                mem@)) by {
                assert forall|k: usize| rob.entries().contains_key(k) implies rob.entries()[k]
                    == rob_after_loads(old(self).buf@, old(rob).order(), old(rob).entries(),
                        mem@)[k] by {
                    if keys@.contains(k) {
                        let j = choose|j: int| 0 <= j < keys@.len() && keys@[j] == k;
                        assert(rob.entries()[keys@[j]] == rob_after_loads(
                            old(self).buf@,
                            old(rob).order(),
 old(rob).entries(),
 mem@,
                        )[keys@[j]]);
                    } else {
                        assert(!keys@.subrange(0, keys@.len() as int).contains(k)) by {
                            assert(keys@.subrange(0, keys@.len() as int) =~= keys@);
                        }
                        assert(!keys@.to_set().contains(k));
                    }
                }
            }
        }
    }
}

impl Default for LoadBuffer {
    fn default() -> (buffer: LoadBuffer)
        ensures
            buffer.wf(),
            buffer.entries() == Map::<usize, LoadBufferEntry>::empty(),
    {
        LoadBuffer::new()
    }
}

} // verus!
