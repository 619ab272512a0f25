//! The trap dispatcher: decodes the cause register, routes timer interrupts
//! to the scheduler and environment calls to the syscall layer, classifies
//! faults, and advances the trap return address past a synchronous trap's
//! instruction.
//!
//! The trap entry assembly saved the registers into the context array before
//! this runs and restores them after; the runtime also reads the instruction
//! word at the trap return address and hands it in, since only it can touch
//! machine memory.

use vstd::prelude::*;
use crate::heap::Heap;
use crate::sched::scheduler;
use crate::sched::pick_post;
use crate::sched::reap_post;
use crate::sched::tick_rel;
use crate::sched::tick_tree;
use crate::syscalls::ModeSwitch;
use crate::syscalls::do_msyscall;
use crate::syscalls::do_syscall;
use crate::syscalls::syscall_post;
use crate::syscalls::MMODE;
use crate::syscalls::UMODE;

verus! {

/// Top bit of the cause register: set for asynchronous interrupts.
pub const ASYNC: u32 = 0x8000_0000;

/// Low bits of the cause register: the interrupt or exception code.
pub const CODE_MASK: u32 = 0x7FFF_FFFF;

/// Low bits of an instruction: `11` marks a full-width instruction.
pub const INST_MASK: u32 = 0x0000_0003;

/// Machine-timer interrupt code.
pub const MTIMER: u32 = 7;

/// User-mode environment call exception code.
pub const UECALL: u32 = 8;

/// Machine-mode environment call exception code.
pub const MECALL: u32 = 11;

/// How the dispatcher classified a trap, for the runtime to act on.
pub enum TrapOutcome {
    /// A machine timer tick: the scheduler ran; re-arm the timer.
    Timer,
    /// A user-mode environment call: the result sits in the saved a0 slot.
    Syscall,
    /// A machine-mode environment call: perform the privilege switch.
    Switch(ModeSwitch),
    /// An unrecoverable synchronous fault: log it and halt.
    Fault,
    /// Any other interrupt: log it and continue unchanged.
    Ignored,
}

/// The next trap return address: asynchronous traps resume in place, while
/// synchronous ones step past the trapping instruction, four bytes for a
/// full-width instruction and two for a compressed one.
pub open spec fn advanced_mepc(mepc: u32, is_async: bool, inst: u32) -> int {
    if is_async {
        mepc as int
    } else if inst & INST_MASK == INST_MASK {
        mepc + 4
    } else {
        mepc + 2
    }
}

/// Advance the trap return address past the trapping instruction, for
/// synchronous traps only.
pub fn update_mepc(mepc: u32, is_async: bool, inst: u32) -> (r: u32)
    requires
        mepc + 4 <= u32::MAX,
    ensures
        r == advanced_mepc(mepc, is_async, inst),
{
    if is_async {
        mepc
    } else if inst & INST_MASK == INST_MASK {
        mepc + 4
    } else {
        mepc + 2
    }
}

/// Whether the cause names a synchronous code this kernel cannot recover
/// from: anything but the environment calls and the breakpoint chatter.
pub open spec fn is_fatal_fault(code: u32) -> bool {
    code != UECALL && code != MECALL && code != 3 && code != 9
}

/// Dispatch one trap. `cause`, `mepc` and `mtval` came from the trap CSRs;
/// `inst` is the instruction word at `mepc`, read by the runtime. A timer
/// interrupt runs the scheduler and returns the chosen process's saved pc; a
/// user-mode environment call runs the syscall named by the saved a0 slot,
/// writes the result back into that slot, and steps past the call; a
/// machine-mode environment call is decoded into a privilege switch for the
/// runtime; faults are classified for the runtime to log and halt on.
pub fn handle_trap(
    sched: &mut scheduler, heap: &mut Heap, ctx: &mut [u32; 32], cause: u32, mepc: u32,
    mtval: u32, inst: u32,
) -> (r: (u32, TrapOutcome))
    requires
        old(sched).wf(),
        old(heap).wf(),
        mepc + 4 <= u32::MAX,
        cause == ASYNC | MTIMER ==> {
            &&& (old(sched).current matches Some(c)
                    ==> c.vruntime + c.QM < crate::sched::VR_BOUND)
            &&& (old(sched).current is Some
                    ==> old(sched).schedule@.dom().len() + 1 < crate::sched::LEN_BOUND)
        },
    ensures
        final(sched).wf(),
        final(heap).wf(),
        final(heap)@.len() == old(heap)@.len(),
        cause == ASYNC | MTIMER ==> r.1 is Timer && tick_rel(*old(sched), *final(sched))
            && exists|t0: Map<i64, crate::sched::PCB>, kw: Option<i64>|
                #![trigger tick_tree(*old(sched), old(ctx)@, mepc, t0),
                    pick_post(t0, *final(sched), kw)]
            {
                &&& tick_tree(*old(sched), old(ctx)@, mepc, t0)
                &&& pick_post(t0, *final(sched), kw)
                &&& reap_post(t0, kw, old(heap)@, final(heap)@)
                &&& match kw {
                    Some(kwk) => final(ctx)@ == t0[kwk].context@ && r.0 == t0[kwk].pc,
                    None => final(ctx)@ == old(ctx)@ && r.0 == mepc,
                }
            },
        cause & ASYNC != 0 && cause & CODE_MASK != MTIMER ==> r.1 is Ignored
            && r.0 == mepc && *final(sched) == *old(sched) && final(heap)@ == old(heap)@
            && final(ctx)@ == old(ctx)@,
        cause & ASYNC == 0 ==> r.0 == advanced_mepc(mepc, false, inst),
        cause & ASYNC == 0 && cause & CODE_MASK == UECALL ==> r.1 is Syscall
            && exists|res: u32| {
                &&& #[trigger] syscall_post(*old(sched), *old(heap), *final(sched), *final(heap),
                    old(ctx)@[10], old(ctx)@[11], old(ctx)@[12], old(ctx)@[13], old(ctx)@[14],
                    old(ctx)@[15], old(ctx)@[16], res)
                &&& final(ctx)@ == old(ctx)@.update(10, res)
            },
        cause & ASYNC == 0 && cause & CODE_MASK == MECALL ==> {
            &&& *final(sched) == *old(sched) && final(heap)@ == old(heap)@
            &&& final(ctx)@ == old(ctx)@
            &&& (r.1 matches TrapOutcome::Switch(m) ==> {
                &&& (old(ctx)@[10] == UMODE ==> m is User)
                &&& (old(ctx)@[10] == MMODE ==> m is Machine)
            })
            &&& r.1 is Switch
        },
        cause & ASYNC == 0 && is_fatal_fault(cause & CODE_MASK) ==> r.1 is Fault
            && *final(sched) == *old(sched) && final(heap)@ == old(heap)@
            && final(ctx)@ == old(ctx)@,
    {
    let code = cause & CODE_MASK;
    let is_async = cause & ASYNC != 0;
    proof {
        assert((cause == ASYNC | MTIMER) <==> (cause & ASYNC != 0 && cause & CODE_MASK == MTIMER))
            by (bit_vector);
    }
    if is_async {
        if code == MTIMER {
            let new_mepc = sched.update_schedule(heap, ctx, mepc);
            (new_mepc, TrapOutcome::Timer)
        } else {
            // Software and external interrupts are only reported.
            (mepc, TrapOutcome::Ignored)
        }
    } else if code == UECALL {
        let res = do_syscall(sched, heap, ctx[10], ctx[11], ctx[12], ctx[13], ctx[14],
            ctx[15], ctx[16]);
        ctx[10] = res;
        proof {
            assert(ctx@ =~= old(ctx)@.update(10, res));
        }
        (update_mepc(mepc, false, inst), TrapOutcome::Syscall)
    } else if code == MECALL {
        let m = do_msyscall(ctx[10]);
        (update_mepc(mepc, false, inst), TrapOutcome::Switch(m))
    } else if code == 3 || code == 9 {
        // Breakpoints and supervisor calls are only reported.
        (update_mepc(mepc, false, inst), TrapOutcome::Ignored)
    } else {
        // Misaligned accesses, access faults, illegal instructions and page
        // faults: the runtime logs the faulting value and halts.
        (update_mepc(mepc, false, inst), TrapOutcome::Fault)
    }
}

} // verus!
