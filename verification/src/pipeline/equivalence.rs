//! The pipeline and the program.
//!
//! The instructions that retire, cycle after cycle, are a run of the machine
//! that executes the program one instruction after the other: they are the
//! instructions that the machine fetches, in its order, and when they have
//! retired registers and memory hold what the machine has computed. This
//! holds under two provisos on the program, which the pipeline does not
//! check: a store in flight has no byte in common with a younger load to
//! another address, nor with a younger instruction.

use vstd::prelude::*;
use crate::memory::MemoryImage;
use crate::pipeline::coherence::{
    lemma_answer_coherent, lemma_execute_coherent, lemma_issue_coherent, lemma_proceed_coherent,
    lemma_retire_coherent, lemma_squash_is_complete, lemma_write_result_coherent,
};
use crate::pipeline::dataflow::{
    lemma_answer_dataflow, lemma_commit_keeps_awaiting, lemma_operand_at_agrees,
    lemma_retire_dataflow, lemma_squash_dataflow, lemma_tick_dataflow,
};
use crate::pipeline::exception::Exception;
use crate::pipeline::forwarding::{
    lemma_answer_outstanding, lemma_retire_outstanding, lemma_squash_outstanding,
};
use crate::pipeline::in_order::{Machine, Stepped};
use crate::pipeline::memory_order::{
    lemma_commit_faithful, lemma_proceed_faithful, lemma_retire_fetched, lemma_retire_loads,
    lemma_retire_separated, lemma_retirement_is_step_in_program_order, lemma_squash_fetched,
    lemma_squash_loads, lemma_unchanged_fetched,
};
use crate::pipeline::program_order::{
    lemma_broadcast_all_keeps_fetch, lemma_retire_program_order, lemma_squash_program_order,
    lemma_unchanged_program_order,
};
use crate::pipeline::reorder_buffer::ReorderBufferEntry;
use crate::pipeline::reservation_station::FinishedCalc;
use crate::pipeline::syscall::{answered, HostAnswer, HostRequest};
use crate::pipeline::{Fault, Outcome, PipelineState, Step};
use crate::register::RegisterState;

verus! {

/// Whether the instructions of `retired`, with `outcome` at their end, are a
/// run of the machine from the state `start` that leaves the state `end`.
///
/// The instructions are those that the machine fetches, one after the
/// other, at their addresses. Where the simulation goes on, `end` is the
/// state of the machine after as many steps as there are instructions.
/// Otherwise the machine says why it does not: the last of the instructions
/// is an exit or a call to the host, which leaves `end`, or a fault, which
/// leaves the machine as it was; or the machine has taken all the steps and
/// finds no instruction in `end`.
pub open spec fn is_run(
    start: Machine,
    retired: Seq<(usize, ReorderBufferEntry)>,
    outcome: Outcome,
    end: Machine,
) -> bool {
    let n = retired.len();
    &&& forall|j: int|
        0 <= j < n ==> {
            &&& start.run(j as nat) matches Some(machine)
            &&& machine.pc == (#[trigger] retired[j]).1.pc
            &&& machine.fetched() == Some(retired[j].1.inst)
        }
    &&& match outcome {
        Outcome::Running => start.run(n) == Some(end),
        Outcome::Finished => {
            &&& n > 0
            &&& start.run((n - 1) as nat) matches Some(machine)
            &&& machine.step() == Stepped::Exit(end)
        },
        Outcome::Host(request) => {
            &&& n > 0
            &&& start.run((n - 1) as nat) matches Some(machine)
            &&& machine.step() == Stepped::Host(request, end)
        },
        Outcome::Fault(Fault::Retire { pc, exception }) => {
            &&& n > 0
            &&& start.run((n - 1) as nat) matches Some(machine)
            &&& machine.pc == pc
            &&& machine.step() == Stepped::Fault(exception)
            &&& end == machine
        },
        Outcome::Fault(Fault::Fetch { pc }) => {
            &&& start.run(n) == Some(end)
            &&& end.pc == pc
            &&& end.step() is NoInstruction
        },
        Outcome::Fault(Fault::IllegalInstruction { pc, word }) => {
            &&& start.run(n) == Some(end)
            &&& end.pc == pc
            &&& end.step() is NoInstruction
        },
    }
}

/// When the oldest instruction in flight retires, the machine takes a step:
/// the instruction is the one that the machine fetches, and the retirement
/// leaves registers and memory, and the address of the instruction that
/// retires next, as the step leaves the machine. A retirement that ends the
/// cycle with a fault is a step that faults, and changes nothing.
pub proof fn lemma_retirement_is_step(s: PipelineState)
    requires
        s.faithful(),
        s.head_completed(),
    ensures
        ({
            let entry = s.entries[s.order[0]];
            let (next, step) = s.popped().retired(s.order[0], entry);
            let machine = s.machine();
            &&& machine.pc == entry.pc
            &&& machine.fetched() == Some(entry.inst)
            &&& match step {
                Step::Continue => machine.step() == Stepped::Next(next.machine()),
                Step::EndBatch => machine.step() == Stepped::Next(next.machine()),
                Step::Halt(Outcome::Finished) => machine.step() == Stepped::Exit(next.machine()),
                Step::Halt(Outcome::Host(request)) => machine.step() == Stepped::Host(
                    request,
                    next.machine(),
                ),
                Step::Halt(Outcome::Fault(fault)) => {
                    &&& machine.step() matches Stepped::Fault(exception)
                    &&& fault == Fault::Retire { pc: machine.pc, exception }
                    &&& next.machine() == machine
                },
                Step::Halt(Outcome::Running) => false,
            }
        }),
{
    let index = s.order[0];
    let entry = s.entries[index];
    let (next, step) = s.popped().retired(index, entry);
    let machine = s.machine();
    lemma_retirement_is_step_in_program_order(s);
    lemma_retire_program_order(s);
    assert(s.order.contains(index));
    assert(s.reads_at(0));
    if entry.inst.function is Ecall {
        assert(entry.well_formed());
        // an `ecall` is the youngest instruction in flight, so the program
        // goes on where the pipeline fetches
        assert(s.order.len() == 1) by {
            if s.order.len() > 1 {
                assert(!(s.entries[s.order[0]].inst.function is Ecall));
            }
        }
        assert(s.order.last() == s.order[0]);
        assert(next.order.len() == 0);
        // the system call reads and writes the registers of the machine
        let ret = crate::consts::SYSCALL_RET_REG as int;
        assert(s.reg.writable[ret] && machine.registers().writable[ret]);
    }
}

/// Retiring the oldest instruction keeps the pipeline faithful, and keeps
/// the provisos.
pub proof fn lemma_retire_faithful(s: PipelineState)
    requires
        s.faithful(),
        s.undisturbed(),
        s.head_completed(),
    ensures
        s.popped().retired(s.order[0], s.entries[s.order[0]]).0.faithful(),
        s.popped().retired(s.order[0], s.entries[s.order[0]]).0.undisturbed(),
{
    lemma_retire_coherent(s);
    lemma_retire_outstanding(s);
    lemma_retire_dataflow(s);
    lemma_retire_program_order(s);
    lemma_retire_loads(s);
    lemma_retire_separated(s);
    lemma_retire_fetched(s);
}

/// The commit phase is a run of the machine. The instructions that retire
/// are those that the machine fetches, one after the other, from the state
/// of the program before the phase. Where the phase ends without ending the
/// cycle, the state of the program after it is the state of the machine
/// after as many steps as instructions have retired. Where it ends the
/// cycle, the last instruction that has retired is the step of the machine
/// that says why: an exit, a call to the host, or a fault.
pub proof fn lemma_commit_is_run(s: PipelineState)
    requires
        s.faithful(),
        s.undisturbed(),
    ensures
        is_run(s.machine(), s.committed().1, s.committed().2, s.committed().0.machine()),
        !(s.committed().2 is Fault) || s.committed().2->Fault_0 is Retire,
    decreases s.order.len(),
{
    let start = s.machine();
    assert(start.run(0) == Some(start));
    if s.head_completed() {
        let index = s.order[0];
        let entry = s.entries[index];
        let (next, step) = s.popped().retired(index, entry);
        let retired = s.committed().1;
        lemma_retirement_is_step(s);
        lemma_retire_faithful(s);
        lemma_retire_coherent(s);
        if step is Continue {
            assert(PipelineState { order: s.order.drop_first(), ..next } == next);
            lemma_commit_is_run(next);
            let rest = next.committed().1;
            // a run of the machine from the next state is a run from this
            // state without its first step
            assert forall|j: nat| #[trigger] start.run(j + 1) == next.machine().run(j) by {
                assert(((j + 1) - 1) as nat == j);
            }
            assert forall|j: int| 0 < j < retired.len() implies #[trigger] retired[j]
                == rest[j - 1] && start.run(j as nat) == next.machine().run((j - 1) as nat) by {
                assert(start.run(((j - 1) as nat) + 1) == next.machine().run((j - 1) as nat));
            }
            let n = rest.len();
            assert(start.run(n + 1) == next.machine().run(n));
            if n > 0 {
                assert(start.run(((n - 1) as nat) + 1) == next.machine().run((n - 1) as nat));
            }
        } else {
            assert(start.run(1) == match start.step() {
                Stepped::Next(machine) => machine.run(0),
                _ => None,
            });
        }
    }
}

/// Issuing an instruction leaves the instruction that retires next as it
/// is: the oldest in flight, or else the one that is issued.
proof fn lemma_issue_keeps_oldest(s: PipelineState, index: usize)
    requires
        s.coherent(),
        s.next_instruction() is Some,
        !s.entries.contains_key(index),
    ensures
        s.issued(index).retires_next() == s.retires_next(),
{
    let t = s.issued(index);
    if s.order.len() > 0 {
        assert(s.order.contains(s.order[0]));
        assert(t.order[0] == s.order[0]);
    } else {
        assert(t.order[0] == index);
    }
}

/// The phases that follow commit leave the state of the program as it is:
/// registers and memory do not change, and the instruction that retires
/// next stays the same.
pub proof fn lemma_proceed_keeps_machine(
    s: PipelineState,
    next: PipelineState,
    fault: Option<Fault>,
)
    requires
        s.coherent(),
        s.proceeds(next, fault),
    ensures
        next.machine() == s.machine(),
{
    let (jobs, npc, issued) = choose|jobs: Seq<FinishedCalc>, npc: Option<u32>, issued: Seq<usize>|
        #![trigger s.drained().broadcast_all(jobs).executed(npc).after_issue(issued)]
        {
            let written = s.drained().broadcast_all(jobs);
            let executed = written.executed(npc);
            &&& s.finishes(jobs)
            &&& written.redirects(npc)
            &&& executed.issues(issued)
            &&& next == executed.after_issue(issued)
            &&& fault == executed.issue_fault()
        };
    lemma_proceed_coherent(s, next, fault);
    let written = s.drained().broadcast_all(jobs);
    let executed = written.executed(npc);
    lemma_write_result_coherent(s, jobs);
    lemma_broadcast_all_keeps_fetch(s.drained(), jobs);
    assert(written.retires_next() == s.retires_next()) by {
        if s.order.len() > 0 {
            assert(s.order.contains(s.order[0]));
            assert(s.drained().entries.contains_key(s.order[0]));
        }
    }
    lemma_execute_coherent(written, npc);
    assert(executed.retires_next() == written.retires_next()) by {
        if written.order.len() > 0 {
            assert(written.order.contains(written.order[0]));
        } else if npc is Some {
            let idx = choose|idx: usize|
                #![trigger written.address_unit[idx]]
                written.address_unit.contains_key(idx) && written.address_unit[idx].ready()
                    && written.address_unit[idx].inst.opcode is Jalr;
            assert(written.entries.contains_key(idx));
            assert(written.order.contains(idx));
        }
    }
    if issued.len() >= 1 {
        lemma_issue_keeps_oldest(executed, issued[0]);
        if issued.len() == 2 {
            lemma_issue_coherent(executed, issued[0]);
            lemma_issue_keeps_oldest(executed.issued(issued[0]), issued[1]);
        }
    }
}

/// A cycle is a run of the machine, and keeps the pipeline faithful: the
/// instructions that retire in the cycle, with the outcome of the cycle, are
/// a run from the state of the program before the cycle to the state of the
/// program after it.
pub proof fn lemma_cycle_is_run(
    s: PipelineState,
    next: PipelineState,
    retired: Seq<(usize, ReorderBufferEntry)>,
    outcome: Outcome,
)
    requires
        s.faithful(),
        s.undisturbed(),
        s.awaiting is None,
        s.cycle(next, retired, outcome),
    ensures
        next.faithful(),
        outcome is Running ==> next.awaiting is None,
        outcome is Host ==> next.awaiting is Some,
        is_run(s.machine(), retired, outcome, next.machine()),
{
    let started = PipelineState { clock: s.clock + 1, ..s };
    lemma_commit_awaits(started);
    lemma_tick_faithful(s, started);
    assert(started.machine() == s.machine());
    let (committed, entries, ended) = started.committed();
    lemma_commit_is_run(started);
    lemma_commit_faithful(started);
    lemma_commit_keeps_awaiting(started);
    if ended is Running {
        let fault = choose|fault: Option<Fault>|
            #![trigger PipelineState::outcome_of(fault)]
            committed.proceeds(next, fault) && outcome == PipelineState::outcome_of(fault);
        lemma_proceed_faithful(committed, next, fault);
        lemma_proceed_keeps_machine(committed, next, fault);
        lemma_proceed_reports(committed, next, fault);
    }
}

/// A commit phase that ends with a request to the host leaves the pipeline
/// waiting for the answer.
proof fn lemma_commit_awaits(s: PipelineState)
    ensures
        s.committed().2 is Host ==> s.committed().0.awaiting is Some,
    decreases s.order.len(),
{
    if s.head_completed() {
        let (next, step) = s.popped().retired(s.order[0], s.entries[s.order[0]]);
        if step is Continue {
            lemma_commit_awaits(PipelineState { order: s.order.drop_first(), ..next });
        }
    }
}

/// The tick of the clock keeps the pipeline faithful, and the provisos.
proof fn lemma_tick_faithful(s: PipelineState, t: PipelineState)
    requires
        s.faithful(),
        s.undisturbed(),
        t == (PipelineState { clock: t.clock, ..s }),
    ensures
        t.faithful(),
        t.undisturbed(),
{
    lemma_tick_dataflow(s, t.clock);
    lemma_unchanged_program_order(s, t);
    lemma_unchanged_fetched(s, t);
    assert forall|p: int| 0 <= p < t.order.len() implies #[trigger] t.load_sound_at(p) by {
        assert(s.load_sound_at(p));
        lemma_operand_at_agrees(s, t, p, s.entries[s.order[p]].inst.fields.rs2->0 as int);
    }
}

/// The phases that follow commit keep the pipeline from waiting for the
/// host, and report a fault only where the machine finds no instruction.
proof fn lemma_proceed_reports(s: PipelineState, next: PipelineState, fault: Option<Fault>)
    requires
        s.coherent(),
        s.awaiting is None,
        s.proceeds(next, fault),
    ensures
        next.awaiting is None,
        match fault {
            None => true,
            Some(Fault::Fetch { pc }) => next.machine().pc == pc && next.machine().step()
                is NoInstruction,
            Some(Fault::IllegalInstruction { pc, word }) => next.machine().pc == pc
                && next.machine().step() is NoInstruction,
            Some(Fault::Retire { .. }) => false,
        },
{
    let (jobs, npc, issued) = choose|jobs: Seq<FinishedCalc>, npc: Option<u32>, issued: Seq<usize>|
        #![trigger s.drained().broadcast_all(jobs).executed(npc).after_issue(issued)]
        {
            let written = s.drained().broadcast_all(jobs);
            let executed = written.executed(npc);
            &&& s.finishes(jobs)
            &&& written.redirects(npc)
            &&& executed.issues(issued)
            &&& next == executed.after_issue(issued)
            &&& fault == executed.issue_fault()
        };
    crate::pipeline::dataflow::lemma_broadcast_all_keeps_awaiting(s.drained(), jobs);
}

/// The answer of the host to a system call is the answer to the machine.
/// Where the answer can be applied, the state of the program after the cycle
/// is the state of the machine after the answer. Where it cannot, the cycle
/// ends with a fault of the `ecall`, at which the program stands again, and
/// registers and memory stay as they are. The pipeline stays faithful.
pub proof fn lemma_resume_is_answer(
    s: PipelineState,
    request: HostRequest,
    answer: HostAnswer,
    next: PipelineState,
    outcome: Outcome,
)
    requires
        s.faithful(),
        s.awaiting is Some,
        s.resumed(request, answer, next, outcome),
    ensures
        next.faithful(),
        next.awaiting is None,
        match s.machine().answered(request, answer) {
            Ok(machine) => is_run(machine, Seq::empty(), outcome, next.machine()),
            Err(exception) => {
                &&& outcome == Outcome::Fault(Fault::Retire { pc: s.awaiting->0, exception })
                &&& next.machine() == Machine { pc: s.awaiting->0, ..s.machine() }
            },
        },
{
    let machine = s.machine();
    let ret = crate::consts::SYSCALL_RET_REG as int;
    assert(s.order.len() == 0);
    assert(s.reg.writable[ret]);
    assert(machine.registers().writable[ret]);
    match answered(s.memory, s.reg, request, answer) {
        Ok((memory, reg)) => {
            assert(answered(machine.memory, machine.registers(), request, answer) matches Ok(
                (m, g),
            ) && m == memory && g.gpr == reg.gpr);
            assert(reg.pc == s.reg.pc);
            let applied = PipelineState { memory, reg, awaiting: None, ..s };
            lemma_answer_coherent(s, request, answer);
            lemma_answer_outstanding(s, request, answer);
            lemma_answer_dataflow(s, request, answer);
            lemma_unchanged_program_order(s, applied);
            assert(applied.faithful());
            let fault = choose|fault: Option<Fault>|
                #![trigger PipelineState::outcome_of(fault)]
                applied.proceeds(next, fault) && outcome == PipelineState::outcome_of(fault);
            lemma_proceed_faithful(applied, next, fault);
            lemma_proceed_keeps_machine(applied, next, fault);
            lemma_proceed_reports(applied, next, fault);
            assert(machine.answered(request, answer) == Ok::<Machine, Exception>(
                applied.machine(),
            ));
            assert(applied.machine().run(0) == Some(applied.machine()));
        },
        Err(exception) => {
            assert(answered(machine.memory, machine.registers(), request, answer) == Err::<
                (MemoryImage, RegisterState),
                Exception,
            >(exception));
            let cleared = PipelineState { awaiting: None, ..s };
            let pc = s.awaiting->0;
            lemma_squash_is_complete(cleared, pc);
            lemma_squash_outstanding(cleared, pc);
            lemma_squash_dataflow(cleared, pc);
            lemma_squash_program_order(cleared, pc);
            lemma_squash_loads(cleared, pc);
            lemma_squash_fetched(cleared, pc);
        },
    }
}

impl PipelineState {
    /// Whether the simulation may go on from this state to `next` in one
    /// cycle, in which the entries `retired` retire. Without an `exchange`,
    /// the cycle ends and the simulation goes on. With one, the cycle waits
    /// for the host with the request of the exchange, and comes to its end
    /// once the host has given the answer of the exchange.
    pub open spec fn advances(
        self,
        next: PipelineState,
        retired: Seq<(usize, ReorderBufferEntry)>,
        exchange: Option<(HostRequest, HostAnswer)>,
    ) -> bool {
        match exchange {
            None => self.cycle(next, retired, Outcome::Running),
            Some((request, answer)) => exists|waiting: PipelineState|
                #![trigger self.cycle(waiting, retired, Outcome::Host(request))]
                self.cycle(waiting, retired, Outcome::Host(request)) && waiting.resumed(
                    request,
                    answer,
                    next,
                    Outcome::Running,
                ),
        }
    }
}

impl Machine {
    /// The machine after `n` instructions. With an `exchange`, the last of
    /// them is the call to the host that makes the request of the exchange,
    /// and the host gives the answer of the exchange.
    pub open spec fn advanced(self, n: nat, exchange: Option<(HostRequest, HostAnswer)>) -> Option<
        Machine,
    > {
        match exchange {
            None => self.run(n),
            Some((request, answer)) => if n == 0 {
                None
            } else {
                match self.run((n - 1) as nat) {
                    Some(machine) => match machine.step() {
                        Stepped::Host(asked, waiting) => if asked == request {
                            match waiting.answered(request, answer) {
                                Ok(machine) => Some(machine),
                                Err(_) => None,
                            }
                        } else {
                            None
                        },
                        _ => None,
                    },
                    None => None,
                }
            },
        }
    }

    /// The machine after the first `i` cycles of a simulation in which the
    /// entries `retired[k]` retire in cycle `k`, with the exchange
    /// `exchanges[k]` with the host.
    pub open spec fn after_cycles(
        self,
        retired: Seq<Seq<(usize, ReorderBufferEntry)>>,
        exchanges: Seq<Option<(HostRequest, HostAnswer)>>,
        i: int,
    ) -> Option<Machine>
        decreases i,
    {
        if i <= 0 {
            Some(self)
        } else {
            match self.after_cycles(retired, exchanges, i - 1) {
                Some(machine) => machine.advanced(retired[i - 1].len(), exchanges[i - 1]),
                None => None,
            }
        }
    }
}

/// Whether `states` are the states of the pipeline between the cycles of a
/// simulation that goes on, `retired[i]` being the entries that retire in
/// the cycle that leads from `states[i]` to the state behind it, and
/// `exchanges[i]` the exchange with the host in that cycle.
pub open spec fn simulation(
    states: Seq<PipelineState>,
    retired: Seq<Seq<(usize, ReorderBufferEntry)>>,
    exchanges: Seq<Option<(HostRequest, HostAnswer)>>,
) -> bool {
    &&& states.len() == retired.len() + 1
    &&& exchanges.len() == retired.len()
    &&& forall|i: int|
        0 <= i < retired.len() ==> states[i].advances(
            states[i + 1],
            #[trigger] retired[i],
            exchanges[i],
        )
}

/// A cycle after which the simulation goes on advances the machine: the
/// instructions that retire in it are those that the machine fetches, one
/// after the other, and the state of the program after the cycle is the
/// state of the machine after them, and after the answer of the host, if
/// the cycle has waited for one. The pipeline stays faithful.
pub proof fn lemma_advance_is_run(
    s: PipelineState,
    next: PipelineState,
    retired: Seq<(usize, ReorderBufferEntry)>,
    exchange: Option<(HostRequest, HostAnswer)>,
)
    requires
        s.faithful(),
        s.undisturbed(),
        s.awaiting is None,
        s.advances(next, retired, exchange),
    ensures
        next.faithful(),
        next.awaiting is None,
        s.machine().advanced(retired.len(), exchange) == Some(next.machine()),
        forall|j: int|
            0 <= j < retired.len() ==> {
                &&& s.machine().run(j as nat) matches Some(machine)
                &&& machine.pc == (#[trigger] retired[j]).1.pc
                &&& machine.fetched() == Some(retired[j].1.inst)
            },
{
    match exchange {
        None => {
            lemma_cycle_is_run(s, next, retired, Outcome::Running);
        },
        Some((request, answer)) => {
            let waiting = choose|waiting: PipelineState|
                #![trigger s.cycle(waiting, retired, Outcome::Host(request))]
                s.cycle(waiting, retired, Outcome::Host(request)) && waiting.resumed(
                    request,
                    answer,
                    next,
                    Outcome::Running,
                );
            lemma_cycle_is_run(s, waiting, retired, Outcome::Host(request));
            lemma_resume_is_answer(waiting, request, answer, next, Outcome::Running);
            let answered = waiting.machine().answered(request, answer);
            assert(answered is Ok);
            assert(answered->Ok_0.run(0) == Some(answered->Ok_0));
        },
    }
}

/// Cycle after cycle, the pipeline runs the program. Under the provisos,
/// the state of the program after any number of cycles of a simulation is
/// the state of the machine after the instructions that have retired and
/// the answers that the host has given, and the instructions that retire in
/// the next cycle are those that the machine fetches from there, one after
/// the other.
pub proof fn lemma_simulation_is_run(
    states: Seq<PipelineState>,
    retired: Seq<Seq<(usize, ReorderBufferEntry)>>,
    exchanges: Seq<Option<(HostRequest, HostAnswer)>>,
    i: int,
)
    requires
        simulation(states, retired, exchanges),
        states[0].faithful(),
        states[0].awaiting is None,
        forall|k: int| 0 <= k < retired.len() ==> (#[trigger] states[k]).undisturbed(),
        0 <= i <= retired.len(),
    ensures
        states[i].faithful(),
        states[i].awaiting is None,
        states[0].machine().after_cycles(retired, exchanges, i) == Some(states[i].machine()),
        i < retired.len() ==> forall|j: int|
            0 <= j < retired[i].len() ==> {
                &&& states[i].machine().run(j as nat) matches Some(machine)
                &&& machine.pc == (#[trigger] retired[i][j]).1.pc
                &&& machine.fetched() == Some(retired[i][j].1.inst)
            },
    decreases i,
{
    if i > 0 {
        lemma_simulation_is_run(states, retired, exchanges, i - 1);
        assert(states[i - 1].undisturbed());
        assert(states[i - 1].advances(states[(i - 1) + 1], retired[i - 1], exchanges[i - 1]));
        lemma_advance_is_run(states[i - 1], states[i], retired[i - 1], exchanges[i - 1]);
    }
    if i < retired.len() {
        assert(states[i].undisturbed());
        assert(states[i].advances(states[i + 1], retired[i], exchanges[i]));
        lemma_advance_is_run(states[i], states[i + 1], retired[i], exchanges[i]);
    }
}

} // verus!
