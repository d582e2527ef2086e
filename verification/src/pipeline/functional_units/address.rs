//! The address unit: computes the effective address of loads and stores and
//! the target of `jalr`.

use vstd::prelude::*;
use std::collections::HashMap;
use crate::instruction::{Instruction, Opcode};
use crate::pipeline::keyed::collect_keys;
use crate::pipeline::operand::Operand;
use crate::pipeline::reorder_buffer::{ReorderBuffer, ReorderBufferEntry};
use crate::pipeline::reservation_station::{FinishedCalc, RSEntry, RSStatus};
use crate::register::{RegisterFile, RegisterState};

verus! {

broadcast use vstd::std_specs::hash::group_hash_axioms;

/// The entries that wait for their base register, by reorder-buffer index.
#[derive(Debug)]
pub struct AddressUnit {
    pub buf: HashMap<usize, RSEntry>,
}

/// The entry with which the address unit starts on instruction `inst` of
/// reorder-buffer entry `rob_idx`: the base register read through the
/// register map, and the immediate.
pub open spec fn address_entry(
    rob_idx: usize,
    inst: Instruction,
    reg: RegisterState,
    entries: Map<usize, ReorderBufferEntry>,
) -> RSEntry {
    RSEntry {
        rob_index: rob_idx,
        status: RSStatus::Wait,
        inst,
        operand: (
            reg.operand(
                match inst.fields.rs1 {
                    Some(rs1) => rs1 as int,
                    None => 0,
                },
                entries,
            ),
            Operand::Value(
                match inst.fields.imm {
                    Some(imm) => imm,
                    None => 0,
                },
            ),
        ),
        value: 0,
        remaining_clock: 1,
    }
}

/// The address that a ready entry yields: base plus offset, wrapping.
pub open spec fn effective_address(entry: RSEntry) -> u32 {
    vstd::wrapping::u32_specs::wrapping_add(entry.operand.0->Value_0, entry.operand.1->Value_0)
}

/// The entries of the unit after one cycle: those that were ready are gone.
pub open spec fn unit_after_execute(buf: Map<usize, RSEntry>) -> Map<usize, RSEntry> {
    Map::new(|idx: usize| buf.contains_key(idx) && !buf[idx].ready(), |idx: usize| buf[idx])
}

/// The entries of the reorder buffer after one cycle of the address unit:
/// each entry whose address the unit has computed holds that address.
pub open spec fn rob_after_address(
    entries: Map<usize, ReorderBufferEntry>,
    buf: Map<usize, RSEntry>,
) -> Map<usize, ReorderBufferEntry> {
    Map::new(
        |idx: usize| entries.contains_key(idx),
        |idx: usize|
            if buf.contains_key(idx) && buf[idx].ready() {
                ReorderBufferEntry {
                    addr: Operand::Value(effective_address(buf[idx])),
                    ..entries[idx]
                }
            } else {
                entries[idx]
            },
    )
}

/// The entries after the result `value` of reorder-buffer entry `rob_idx`
/// has been broadcast.
pub open spec fn forwarded_entries(buf: Map<usize, RSEntry>, rob_idx: usize, value: u32) -> Map<
    usize,
    RSEntry,
> {
    Map::new(|idx: usize| buf.contains_key(idx), |idx: usize| buf[idx].forwarded(rob_idx, value))
}

impl AddressUnit {
    /// A unit without entries.
    pub fn new() -> (unit: AddressUnit)
        ensures
            unit.buf@ == Map::<usize, RSEntry>::empty(),
    {
        AddressUnit { buf: HashMap::new() }
    }

    /// Removes every entry.
    pub fn clear(&mut self)
        ensures
            final(self).buf@ == Map::<usize, RSEntry>::empty(),
    {
        self.buf.clear()
    }

    /// Takes up the address computation of instruction `inst`, which owns
    /// reorder-buffer entry `rob_idx`.
    pub fn issue(&mut self, rob_idx: usize, inst: Instruction, reg: &RegisterFile,
        rob: &ReorderBuffer)
        requires
            inst.fields.registers_in_range(),
        ensures
            final(self).buf@ == old(self).buf@.insert(
                rob_idx,
                address_entry(rob_idx, inst, reg@, rob.entries()),
            ),
    {
        let rs1: u8 = inst.fields.rs1.unwrap_or(0);
        let imm: u32 = inst.fields.imm.unwrap_or(0);
        let entry = RSEntry {
            rob_index: rob_idx,
            status: RSStatus::Wait,
            inst,
            operand: (reg.get_reg_value(rs1, rob), Operand::Value(imm)),
            value: 0,
            remaining_clock: 1,
        };
        self.buf.insert(rob_idx, entry);
    }

    /// Broadcasts the result `job` to the waiting entries.
    pub fn propagate(&mut self, job: &FinishedCalc)
        ensures
            final(self).buf@ == forwarded_entries(old(self).buf@, job.rob_idx, job.reg_value),
    {
        let keys: Vec<usize> = collect_keys(&self.buf);
        let mut i: usize = 0;
        while i < keys.len()
            invariant
                i <= keys@.len(),
                keys@.no_duplicates(),
                keys@.to_set() == old(self).buf@.dom(),
                self.buf@.dom() == old(self).buf@.dom(),
                forall|j: int|
                    0 <= j < i ==> self.buf@[keys@[j]] == old(self).buf@[keys@[j]].forwarded(
                        job.rob_idx,
                        job.reg_value,
                    ),
                forall|j: int| i <= j < keys@.len()
                    ==> self.buf@[keys@[j]] == old(self).buf@[keys@[j]],
            decreases keys@.len() - i,
        {
            let key: usize = keys[i];
            proof {
                assert(keys@.contains(key));
                assert(keys@.to_set().contains(key));
            }
            let entry: RSEntry = match self.buf.get(&key) {
                Some(entry) => *entry,
                None => {
                    proof {
                        assert(false);
                    }
                    i += 1;
                    continue ;
                },
            };
            let updated = RSEntry {
                operand: (
                    entry.operand.0.forward(job.rob_idx, job.reg_value),
                    entry.operand.1.forward(job.rob_idx, job.reg_value),
                ),
                ..entry
            };
            let ghost before = self.buf@;
            self.buf.insert(key, updated);
            proof {
                assert(self.buf@.dom() =~= before.dom());
                assert forall|j: int| 0 <= j < i
                    implies self.buf@[keys@[j]]
                    == old(self).buf@[keys@[j]].forwarded(job.rob_idx, job.reg_value) by {
                    assert(keys@[j] != key);
                }
                assert forall|j: int| i < j < keys@.len()
                    implies self.buf@[keys@[j]] == old(self).buf@[keys@[j]] by {
                    assert(keys@[j] != key);
                }
            }
            i += 1;
        }
        proof {
            assert(self.buf@ =~= forwarded_entries(old(self).buf@, job.rob_idx, job.reg_value)) by {
                assert forall|k: usize| self.buf@.contains_key(k)
                    implies self.buf@[k]
                    == old(self).buf@[k].forwarded(job.rob_idx, job.reg_value) by {
                    assert(keys@.to_set().contains(k));
                    assert(keys@.contains(k));
                    let j = choose|j: int| 0 <= j < keys@.len() && keys@[j] == k;
                    assert(self.buf@[keys@[j]] == old(self).buf@[keys@[j]].forwarded(
                        job.rob_idx,
                        job.reg_value,
                    ));
                }
            }
        }
    }

    /// Runs the unit for one cycle: every entry whose base register is known
    /// yields its address, which goes to the owner's reorder-buffer entry,
    /// and leaves the unit.
    ///
    /// Returns the target of a `jalr` whose address was computed in this
    /// cycle. Where several were, the target is that of one of them.
    pub fn execute(&mut self, rob: &mut ReorderBuffer) -> (npc: Option<u32>)
        requires
            old(rob).wf(),
        ensures
            final(rob).wf(),
            final(rob).order() == old(rob).order(),
            final(rob).capacity() == old(rob).capacity(),
            final(rob).entries() == rob_after_address(old(rob).entries(), old(self).buf@),
            final(self).buf@ == unit_after_execute(old(self).buf@),
            npc matches Some(target) ==> exists|idx: usize|
                #![trigger old(self).buf@[idx]]
                old(self).buf@.contains_key(idx) && old(self).buf@[idx].ready()
                    && old(self).buf@[idx].inst.opcode is Jalr
                    && target == effective_address(old(self).buf@[idx]),
            npc is None ==> forall|idx: usize|
                #![trigger old(self).buf@[idx]]
                old(self).buf@.contains_key(idx) && old(self).buf@[idx].ready()
                    ==> !(old(self).buf@[idx].inst.opcode is Jalr),
    {
        let keys: Vec<usize> = collect_keys(&self.buf);
        let mut npc: Option<u32> = None;
        let mut i: usize = 0;
        while i < keys.len()
            invariant
                i <= keys@.len(),
                keys@.no_duplicates(),
                keys@.to_set() == old(self).buf@.dom(),
                old(rob).wf(),
                rob.wf(),
                rob.order() == old(rob).order(),
                rob.capacity() == old(rob).capacity(),
                rob.entries().dom() == old(rob).entries().dom(),
                forall|idx: usize|
                    #![trigger self.buf@.contains_key(idx)]
                    self.buf@.contains_key(idx) ==> old(self).buf@.contains_key(idx)
                        && self.buf@[idx] == old(self).buf@[idx],
                forall|j: int|
                    0 <= j < i ==> (self.buf@.contains_key(keys@[j])
                        <==> !old(self).buf@[keys@[j]].ready()),
                forall|j: int| i <= j < keys@.len() ==> self.buf@.contains_key(keys@[j]),
                forall|j: int|
                    0 <= j < i && rob.entries().contains_key(keys@[j]) ==> rob.entries()[keys@[j]]
                        == rob_after_address(old(rob).entries(), old(self).buf@)[keys@[j]],
                forall|idx: usize|
                    rob.entries().contains_key(idx) && !keys@.subrange(0, i as int).contains(idx)
                        ==> rob.entries()[idx] == old(rob).entries()[idx],
                npc matches Some(target) ==> exists|idx: usize|
                    #![trigger old(self).buf@[idx]]
                    old(self).buf@.contains_key(idx) && old(self).buf@[idx].ready()
                        && old(self).buf@[idx].inst.opcode is Jalr && target == effective_address(
                        old(self).buf@[idx],
                    ),
                npc is None ==> forall|j: int|
                    0 <= j < i && old(self).buf@[keys@[j]].ready()
                        ==> !(old(self).buf@[keys@[j]].inst.opcode is Jalr),
            decreases keys@.len() - i,
        {
            let key: usize = keys[i];
            proof {
                assert(keys@.contains(key));
                assert(keys@.to_set().contains(key));
            }
            let entry: RSEntry = match self.buf.get(&key) {
                Some(entry) => *entry,
                None => {
                    proof {
                        assert(false);
                    }
                    i += 1;
                    continue ;
                },
            };
            let ghost rob_before = rob.entries();
            let ghost buf_before = self.buf@;
            if let (Operand::Value(reg_val), Operand::Value(imm)) = entry.operand {
                let value: u32 = reg_val.wrapping_add(imm);
                let owner: Option<ReorderBufferEntry> = match rob.get(key) {
                    Some(owner) => Some(*owner),
                    None => None,
                };
                if let Some(owner) = owner {
                    rob.set(key, ReorderBufferEntry { addr: Operand::Value(value), ..owner });
                }
                self.buf.remove(&key);
                if entry.inst.opcode == Opcode::Jalr && npc.is_none() {
                    npc = Some(value);
                }
            }
            proof {
                assert(rob.entries().dom() =~= old(rob).entries().dom());
                assert forall|idx: usize| #![trigger self.buf@.contains_key(idx)]
                    self.buf@.contains_key(idx) implies old(self).buf@.contains_key(idx)
                    && self.buf@[idx] == old(self).buf@[idx] by {
                    assert(buf_before.contains_key(idx));
                }
                assert forall|j: int| 0 <= j < i implies (self.buf@.contains_key(keys@[j])
                    <==> !old(self).buf@[keys@[j]].ready()) by {
                    assert(keys@[j] != key);
                }
                assert forall|j: int| i < j < keys@.len() implies self.buf@.contains_key(
                    keys@[j],
                ) by {
                    assert(keys@[j] != key);
                }
                assert forall|j: int|
                    0 <= j < i + 1 && rob.entries().contains_key(
                        keys@[j],
                    ) implies rob.entries()[keys@[j]] == rob_after_address(
                    old(rob).entries(),
                    old(self).buf@,
                )[keys@[j]] by {
                    if j < i {
                        assert(keys@[j] != key);
                        assert(rob_before[keys@[j]] == rob_after_address(
                            old(rob).entries(),
                            old(self).buf@,
                        )[keys@[j]]);
                    } else {
                        assert(!keys@.subrange(0, i as int).contains(key)) by {
                            if keys@.subrange(0, i as int).contains(key) {
                                let p = choose|p: int|
                                    0 <= p < i && keys@.subrange(0, i as int)[p] == key;
                                assert(keys@[p] == key);
                            }
                        }
                        assert(rob_before[key] == old(rob).entries()[key]);
                    }
                }
                assert forall|idx: usize|
                    rob.entries().contains_key(idx) && !keys@.subrange(0, i + 1).contains(
                        idx,
                    ) implies rob.entries()[idx] == old(rob).entries()[idx] by {
                    assert(keys@.subrange(0, i + 1)[i as int] == key);
                    assert(idx != key);
                    assert(!keys@.subrange(0, i as int).contains(idx)) by {
                        if keys@.subrange(0, i as int).contains(idx) {
                            let p = choose|p: int|
                                0 <= p < i && keys@.subrange(0, i as int)[p] == idx;
                            assert(keys@.subrange(0, i + 1)[p] == idx);
                        }
                    }
                }
            }
            i += 1;
        }
        proof {
            assert(self.buf@ =~= unit_after_execute(old(self).buf@)) by {
                assert forall|k: usize|
                    self.buf@.contains_key(k)
                        <==> (old(self).buf@.contains_key(k) && !old(self).buf@[k].ready()) by {
                    if old(self).buf@.contains_key(k) {
                        assert(keys@.to_set().contains(k));
                        assert(keys@.contains(k));
                        let j = choose|j: int| 0 <= j < keys@.len() && keys@[j] == k;
                        assert(self.buf@.contains_key(keys@[j])
                            <==> !old(self).buf@[keys@[j]].ready());
                    } else {
                        assert(!self.buf@.contains_key(k));
                    }
                }
            }
            assert(rob.entries() =~= rob_after_address(old(rob).entries(), old(self).buf@)) by {
                assert forall|k: usize| rob.entries().contains_key(k) implies rob.entries()[k]
                    == rob_after_address(old(rob).entries(), old(self).buf@)[k] by {
                    if keys@.contains(k) {
                        let j = choose|j: int| 0 <= j < keys@.len() && keys@[j] == k;
                        assert(rob.entries()[keys@[j]] == rob_after_address(
                            old(rob).entries(),
                            old(self).buf@,
                        )[keys@[j]]);
                    } else {
                        assert(!keys@.subrange(0, keys@.len() as int).contains(k)) by {
                            assert(keys@.subrange(0, keys@.len() as int) =~= keys@);
                        }
                        assert(!keys@.to_set().contains(k));
                    }
                }
            }
            if npc is None {
                assert forall|idx: usize|
                    #![trigger old(self).buf@[idx]]
                    old(self).buf@.contains_key(idx) && old(self).buf@[idx].ready()
                        implies !(old(self).buf@[idx].inst.opcode is Jalr) by {
                    assert(keys@.to_set().contains(idx));
                    assert(keys@.contains(idx));
                    let j = choose|j: int| 0 <= j < keys@.len() && keys@[j] == idx;
                    assert(old(self).buf@[keys@[j]].ready());
                }
            }
        }
        npc
    }
}

impl Default for AddressUnit {
    fn default() -> (unit: AddressUnit)
        ensures
            unit.buf@ == Map::<usize, RSEntry>::empty(),
    {
        AddressUnit::new()
    }
}

} // verus!
