//! The syscall layer: demultiplexes user-mode environment-call codes and
//! carries them out against the scheduler and the heap, and decodes
//! machine-mode environment calls into privilege-mode switches.
//!
//! The caller read the code from the saved a0 slot and the arguments from
//! a1..=a6; the result goes back into the saved a0 slot.

use vstd::prelude::*;
use crate::heap::Heap;
use crate::heap::kfree_post;
use crate::heap::kmalloc_post_any;
use crate::sched::scheduler;
use crate::sched::PCB;
use crate::sched::live_count;
use crate::sched::live_pid;
use crate::sched::is_killed_version;
use crate::sched::spawn_ok;
use crate::sched::tree_has_pid_spec;

verus! {

pub const EXIT: u32 = 1;
pub const WRITE: u32 = 2;
pub const READ: u32 = 3;
pub const ALLOC: u32 = 4;
pub const FREE: u32 = 5;
pub const BARRIER: u32 = 6;
pub const SPAWN: u32 = 7;
pub const WAITPID: u32 = 8;
pub const KILL: u32 = 9;
pub const NPROC: u32 = 10;
pub const PROCS: u32 = 11;
pub const SLEEP: u32 = 12;

pub const UMODE: u32 = 0;
pub const MMODE: u32 = 3;

/// One process's public record, as the process listing reports it.
#[allow(non_camel_case_types)]
#[derive(Clone, Copy)]
pub struct process_info {
    pub pid: i32,
    pub vruntime: u64,
    pub name: u32,
    pub waitpid: i32,
    pub sleep: i16,
}

/// The records of every live process, the current one first and then the
/// ready tree's in ascending key order: what the process listing publishes.
pub open spec fn procs_list(s: scheduler) -> Seq<process_info> {
    let cur = match s.current {
        None => Seq::<process_info>::empty(),
        Some(c) => seq![info_of(c)],
    };
    cur + crate::rbtree::entries_of(s.schedule.root).map_values(|e: (i64, PCB)| info_of(e.1))
}

/// One record, serialized as six words: pid, the two halves of the virtual
/// runtime, the name address, the awaited pid, and the sleep count.
pub open spec fn rec_words(p: process_info) -> Seq<u32> {
    seq![p.pid as u32, p.vruntime as u32, (p.vruntime >> 32) as u32, p.name,
        p.waitpid as u32, p.sleep as u32]
}

/// The record describing one control block.
pub open spec fn info_of(p: PCB) -> process_info {
    process_info {
        pid: p.pid,
        vruntime: p.vruntime,
        name: p.name,
        waitpid: p.waitpid,
        sleep: p.sleep,
    }
}

/// The privilege transition a machine-mode environment call asks for.
pub enum ModeSwitch {
    /// Drop to user mode and return from the trap there.
    User,
    /// Come back up to machine mode.
    Machine,
    /// No transition: the subcode is unknown.
    Unknown,
}

/// Decode a machine-mode environment call: subcode 0 asks for user mode,
/// subcode 3 for machine mode. The runtime performs the switch itself, with
/// the privileged return instruction this crate cannot carry.
pub fn do_msyscall(code: u32) -> (r: ModeSwitch)
    ensures
        code == UMODE ==> r is User,
        code == MMODE ==> r is Machine,
        code != UMODE && code != MMODE ==> r is Unknown,
{
    if code == UMODE {
        ModeSwitch::User
    } else if code == MMODE {
        ModeSwitch::Machine
    } else {
        ModeSwitch::Unknown
    }
}

/// What carrying out one syscall does to the kernel and hands back.
pub open spec fn syscall_post(
    pre_s: scheduler, pre_h: Heap, post_s: scheduler, post_h: Heap,
    code: u32, a0: u32, a1: u32, a2: u32, a3: u32, a4: u32, a5: u32, r: u32,
) -> bool {
    &&& post_s.wf()
    &&& post_h.wf()
    &&& post_h@.len() == pre_h@.len()
    &&& (code == EXIT ==> post_h@ == pre_h@ && {
        match pre_s.current {
            None => r == 1 && post_s == pre_s,
            Some(c) => r == 0 && post_s == scheduler {
                current: Some(PCB { kill: true, ..c }), ..pre_s },
        }
    })
    &&& (code == ALLOC ==> post_s == pre_s && {
        &&& ((r == 0) <==> crate::heap::no_fit(pre_h@, a0))
        &&& (r == 0 ==> post_h@ == pre_h@)
        &&& (r != 0 ==> kmalloc_post_any(pre_h@, post_h@, a0, r as int))
    })
    &&& (code == FREE ==> post_s == pre_s && {
        &&& ((r == 0) <==> (1 <= a0 < pre_h@.len()
            && crate::heap::is_block_offset(pre_h@, a0 - 1)))
        &&& (r != 0 ==> post_h@ == pre_h@)
        &&& (r == 0 ==> (crate::heap::hdr_taken(pre_h@[a0 - 1])
                ==> kfree_post(pre_h@, post_h@, a0 as int))
            && (!crate::heap::hdr_taken(pre_h@[a0 - 1]) ==> post_h@ == pre_h@))
    })
    &&& (code == SPAWN ==> {
        &&& (r == 0xFFFF_FFFFu32) == !spawn_ok(pre_s, pre_h, a0, a2)
        &&& (r != 0xFFFF_FFFFu32 ==> r == pre_s.next_pid
            && live_count(post_s) == live_count(pre_s) + 1
            && post_s.next_pid == pre_s.next_pid + 1)
        &&& (r == 0xFFFF_FFFFu32 ==> post_s == pre_s && post_h@ == pre_h@)
    })
    &&& (code == WAITPID ==> post_h@ == pre_h@ && {
        match pre_s.current {
            None => r == 1 && post_s == pre_s,
            Some(c) => {
                if live_pid(pre_s, a0 as i32) {
                    r == 0 && post_s == scheduler {
                        current: Some(PCB { waitpid: a0 as i32, ..c }), ..pre_s }
                } else {
                    r == 1 && post_s == pre_s
                }
            },
        }
    })
    &&& (code == KILL ==> post_h@ == pre_h@ && {
        &&& (r == 0) == live_pid(pre_s, a0 as i32)
        &&& live_count(post_s) == live_count(pre_s)
        &&& (r == 0 ==> exists|p: PCB| #[trigger] is_killed_version(pre_s, post_s, a0 as i32, p))
        &&& (r != 0 ==> post_s == pre_s)
    })
    &&& (code == NPROC ==> post_s == pre_s && post_h@ == pre_h@ && r == live_count(pre_s))
    &&& (code == PROCS ==> post_s == pre_s && {
        let n = procs_list(pre_s).len() as int;
        &&& (!crate::heap::user_word_at(pre_h@, a0 as int)
                ==> r == 1 && post_h@ == pre_h@)
        &&& (crate::heap::user_word_at(pre_h@, a0 as int) && n == 0
                ==> r == 0 && post_h@ == pre_h@.update(a0 as int, 0u32))
        &&& (crate::heap::user_word_at(pre_h@, a0 as int) && n > 0
                && crate::heap::no_fit(pre_h@, (24 * n) as u32)
                ==> r == 1 && post_h@ == pre_h@)
        &&& (crate::heap::user_word_at(pre_h@, a0 as int) && n > 0
                && !crate::heap::no_fit(pre_h@, (24 * n) as u32)
                ==> r == n && procs_published(pre_s, pre_h@, post_h@, a0))
    })
    &&& (code == SLEEP ==> post_h@ == pre_h@ && {
        match pre_s.current {
            None => r == 1 && post_s == pre_s,
            Some(c) => r == 0 && post_s == scheduler {
                current: Some(PCB { sleep: (100 * a0) as i16, ..c }), ..pre_s },
        }
    })
    &&& ((code == WRITE || code == READ || code == BARRIER)
        ==> post_s == pre_s && post_h@ == pre_h@ && r == 0)
    &&& ((code < 1 || code > 12) ==> post_s == pre_s && post_h@ == pre_h@ && r == 1)
}

/// Carry out one user-mode syscall against the scheduler and the heap, and
/// hand back the value for the saved a0 slot.
pub fn do_syscall(
    sched: &mut scheduler, heap: &mut Heap, code: u32, a0: u32, a1: u32, a2: u32, a3: u32,
    a4: u32, a5: u32,
) -> (r: u32)
    requires
        old(sched).wf(),
        old(heap).wf(),
    ensures
        syscall_post(*old(sched), *old(heap), *final(sched), *final(heap),
            code, a0, a1, a2, a3, a4, a5, r),
{
    if code == EXIT {
        handle_exit(sched)
    } else if code == ALLOC {
        handle_alloc(heap, a0)
    } else if code == FREE {
        handle_free(heap, a0)
    } else if code == SPAWN {
        handle_spawn(sched, heap, a0, a1, a2, a3, a4, a5)
    } else if code == WAITPID {
        handle_waitpid(sched, a0)
    } else if code == KILL {
        handle_kill(sched, a0)
    } else if code == NPROC {
        handle_nproc(sched)
    } else if code == PROCS {
        handle_procs(sched, heap, a0)
    } else if code == SLEEP {
        handle_sleep(sched, a0)
    } else if code == WRITE || code == READ || code == BARRIER {
        // Console and synchronisation chatter the runtime reports.
        0
    } else {
        // An unknown code is an invalid argument: a nonzero error, no change.
        1
    }
}

/// Mark the calling process for reaping; it leaves at the next tick.
fn handle_exit(sched: &mut scheduler) -> (r: u32)
    requires
        old(sched).wf(),
    ensures
        final(sched).wf(),
        match old(sched).current {
            None => r == 1 && *final(sched) == *old(sched),
            Some(c) => r == 0 && *final(sched) == scheduler {
                current: Some(PCB { kill: true, ..c }), ..*old(sched) },
        },
{
    match sched.current {
        None => 1,
        Some(c) => {
            sched.current = Some(PCB { kill: true, ..c });
            0
        },
    }
}

/// Allocate heap memory for the caller; the payload's word offset, or zero.
fn handle_alloc(heap: &mut Heap, n_bytes: u32) -> (r: u32)
    requires
        old(heap).wf(),
    ensures
        final(heap).wf(),
        final(heap)@.len() == old(heap)@.len(),
        (r == 0) <==> crate::heap::no_fit(old(heap)@, n_bytes),
        r == 0 ==> final(heap)@ == old(heap)@,
        r != 0 ==> kmalloc_post_any(old(heap)@, final(heap)@, n_bytes, r as int),
{
    let ghost h0 = heap@;
    match heap.kmalloc(n_bytes) {
        None => 0,
        Some(p) => {
            proof {
                assert(kmalloc_post_any(h0, heap@, n_bytes, p as int));
                let i = choose|i: int| crate::heap::kmalloc_post(h0, heap@, n_bytes, p as int, i);
                crate::heap::lemma_block_fact(h0, i);
                assert(1 <= p < 0x8000);
            }
            p as u32
        },
    }
}

/// Free the block at the caller's pointer; nonzero when the pointer names no
/// block of the heap.
fn handle_free(heap: &mut Heap, ptr: u32) -> (r: u32)
    requires
        old(heap).wf(),
    ensures
        final(heap).wf(),
        final(heap)@.len() == old(heap)@.len(),
        (r == 0) <==> (1 <= ptr < old(heap)@.len()
            && crate::heap::is_block_offset(old(heap)@, ptr - 1)),
        r != 0 ==> final(heap)@ == old(heap)@,
        r == 0 ==> (crate::heap::hdr_taken(old(heap)@[ptr - 1])
                ==> kfree_post(old(heap)@, final(heap)@, ptr as int))
            && (!crate::heap::hdr_taken(old(heap)@[ptr - 1])
                ==> final(heap)@ == old(heap)@),
{
    if heap.is_block_start(ptr as usize) {
        heap.kfree(ptr as usize);
        0
    } else {
        1
    }
}

/// Spawn a process; its pid, or the all-ones word on failure.
fn handle_spawn(
    sched: &mut scheduler, heap: &mut Heap, stack_size: u32, ip: u32, qm: u32, data: u32,
    data_len: u32, name: u32,
) -> (r: u32)
    requires
        old(sched).wf(),
        old(heap).wf(),
    ensures
        final(sched).wf(),
        final(heap).wf(),
        final(heap)@.len() == old(heap)@.len(),
        (r == 0xFFFF_FFFFu32) == !spawn_ok(*old(sched), *old(heap), stack_size, qm),
        r != 0xFFFF_FFFFu32 ==> r == old(sched).next_pid
            && live_count(*final(sched)) == live_count(*old(sched)) + 1
            && final(sched).next_pid == old(sched).next_pid + 1,
        r == 0xFFFF_FFFFu32 ==> *final(sched) == *old(sched) && final(heap)@ == old(heap)@,
{
    let pid = sched.new_process(heap, stack_size, ip, qm, data, data_len, name);
    if pid == -1 {
        0xFFFF_FFFFu32
    } else {
        proof {
            assert(0 <= pid < 0x8000_0000);
        }
        pid as u32
    }
}

/// Block the caller until the given pid is gone; nonzero when no live
/// process carries that pid, or nothing is current.
fn handle_waitpid(sched: &mut scheduler, pid: u32) -> (r: u32)
    requires
        old(sched).wf(),
    ensures
        final(sched).wf(),
        match old(sched).current {
            None => r == 1 && *final(sched) == *old(sched),
            Some(c) => {
                if live_pid(*old(sched), pid as i32) {
                    r == 0 && *final(sched) == scheduler {
                        current: Some(PCB { waitpid: pid as i32, ..c }), ..*old(sched) }
                } else {
                    r == 1 && *final(sched) == *old(sched)
                }
            },
        },
{
    match sched.current {
        None => 1,
        Some(c) => {
            if c.pid == #[verifier::truncate] (pid as i32)
                || sched.tree_has_pid(#[verifier::truncate] (pid as i32)) {
                sched.current = Some(PCB { waitpid: #[verifier::truncate] (pid as i32), ..c });
                0
            } else {
                1
            }
        },
    }
}

/// Mark the process with the given pid for reaping; nonzero when no live
/// process carries it.
fn handle_kill(sched: &mut scheduler, pid: u32) -> (r: u32)
    requires
        old(sched).wf(),
    ensures
        final(sched).wf(),
        (r == 0) == live_pid(*old(sched), pid as i32),
        live_count(*final(sched)) == live_count(*old(sched)),
        r == 0 ==> exists|p: PCB| #[trigger] is_killed_version(*old(sched), *final(sched), pid as i32, p),
        r != 0 ==> *final(sched) == *old(sched),
{
    if sched.kill(#[verifier::truncate] (pid as i32)) {
        0
    } else {
        1
    }
}

/// The number of live processes.
fn handle_nproc(sched: &mut scheduler) -> (r: u32)
    requires
        old(sched).wf(),
    ensures
        *final(sched) == *old(sched),
        r == live_count(*old(sched)),
{
    sched.nproc() as u32
}

/// What a successful process listing publishes: a fresh block holding one
/// six-word record per live process, in listing order, and the block's
/// payload offset written through the caller's out-pointer.
pub open spec fn procs_published(
    pre_s: scheduler, pre_h: Seq<u32>, post_h: Seq<u32>, out: u32,
) -> bool {
    let infos = procs_list(pre_s);
    let n = infos.len() as int;
    exists|p: usize, mid: Seq<u32>, mid2: Seq<u32>|
        #![trigger kmalloc_post_any(pre_h, mid, (24 * n) as u32, p as int),
            mid2.update(out as int, p as u32)]
    {
        &&& kmalloc_post_any(pre_h, mid, (24 * n) as u32, p as int)
        &&& mid2.len() == mid.len()
        &&& (forall|j: int| 0 <= j < mid2.len() && !(p <= j < p + 6 * n) ==> mid2[j] == mid[j])
        &&& (forall|i: int, w: int| 0 <= i < n && 0 <= w < 6
                ==> #[trigger] mid2[p + 6 * i + w] == rec_words(infos[i])[w])
        &&& post_h == mid2.update(out as int, p as u32)
    }
}

/// Snapshot every live process into a freshly allocated array of six-word
/// records and publish the array's offset through the caller's out-pointer.
/// The record count comes back; nonzero-as-error comes back when the
/// out-pointer is not allocated storage or no block fits the array.
#[verifier::rlimit(100)]
fn handle_procs(sched: &mut scheduler, heap: &mut Heap, out: u32) -> (r: u32)
    requires
        old(sched).wf(),
        old(heap).wf(),
    ensures
        *final(sched) == *old(sched),
        final(heap).wf(),
        final(heap)@.len() == old(heap)@.len(),
        ({
            let n = procs_list(*old(sched)).len() as int;
            &&& (!crate::heap::user_word_at(old(heap)@, out as int)
                    ==> r == 1 && final(heap)@ == old(heap)@)
            &&& (crate::heap::user_word_at(old(heap)@, out as int) && n == 0
                    ==> r == 0 && final(heap)@ == old(heap)@.update(out as int, 0u32))
            &&& (crate::heap::user_word_at(old(heap)@, out as int) && n > 0
                    && crate::heap::no_fit(old(heap)@, (24 * n) as u32)
                    ==> r == 1 && final(heap)@ == old(heap)@)
            &&& (crate::heap::user_word_at(old(heap)@, out as int) && n > 0
                    && !crate::heap::no_fit(old(heap)@, (24 * n) as u32)
                    ==> r == n && procs_published(*old(sched), old(heap)@, final(heap)@, out))
        }),
{
    if !heap.is_user_word(out as usize) {
        return 1;
    }
    let infos = sched.collect_all_procs();
    let n = infos.len();
    proof {
        sched.schedule.lemma_len();
        assert(n < crate::sched::LEN_BOUND + 1);
    }
    if n == 0 {
        let ok = heap.write_user_word(out as usize, 0);
        proof {
            assert(ok);
        }
        return 0;
    }
    let bytes: u32 = (24 * n) as u32;
    let p = match heap.kmalloc(bytes) {
        None => {
            return 1;
        },
        Some(p) => p,
    };
    let ghost mid = heap@;
    let ghost gi = choose|i: int| crate::heap::kmalloc_post(old(heap)@, mid, bytes,
        p as int, i);
    proof {
        let bs = crate::heap::blocks_from(old(heap)@, 0);
        assert(heap.blocks()[gi] == ((p - 1) as int,
            crate::heap::hdr_size(mid[p as int - 1]), true)
            && crate::heap::hdr_size(mid[p as int - 1]) >= 6 * n
            && (p - 1) + 1 + crate::heap::hdr_size(mid[p as int - 1]) <= mid.len()) by {
            let tsize = if bs[gi].1 == crate::heap::need_words(bytes) + 1 {
                bs[gi].1
            } else {
                crate::heap::need_words(bytes)
            };
            if bs[gi].1 > tsize {
                assert(heap.blocks()[gi] == (bs[gi].0, tsize, true));
            } else {
                assert(heap.blocks()[gi] == (bs[gi].0, bs[gi].1, true));
            }
            crate::heap::lemma_block_fact(mid, gi);
        }
        crate::heap::lemma_block_fact(old(heap)@, gi);
        assert(p >= 1);
        assert(p + 6 * n <= mid.len());
    }
    let mut i: usize = 0;
    while i < n
        invariant
            heap.wf(),
            heap@.len() == mid.len(),
            heap.blocks() == crate::heap::blocks_from(mid, 0),
            0 <= gi < heap.blocks().len(),
            heap.blocks()[gi].2,
            heap.blocks()[gi].0 == p - 1,
            p >= 1,
            heap.blocks()[gi].0 + heap.blocks()[gi].1 >= p + 6 * n - 1,
            p + 6 * n <= heap@.len(),
            n == infos@.len(),
            n < crate::sched::LEN_BOUND + 1,
            i <= n,
            forall|j: int| 0 <= j < heap@.len() && !(p <= j < p + 6 * i)
                ==> heap@[j] == mid[j],
            forall|i2: int, w: int| 0 <= i2 < i && 0 <= w < 6
                ==> #[trigger] heap@[p + 6 * i2 + w] == rec_words(infos@[i2])[w],
        decreases n - i,
    {
        let info = infos[i];
        let base = p + 6 * i;
        heap.write_word(base, #[verifier::truncate] (info.pid as u32), Ghost(gi));
        heap.write_word(base + 1, #[verifier::truncate] (info.vruntime as u32), Ghost(gi));
        heap.write_word(base + 2, #[verifier::truncate] ((info.vruntime >> 32u64) as u32),
            Ghost(gi));
        heap.write_word(base + 3, info.name, Ghost(gi));
        heap.write_word(base + 4, #[verifier::truncate] (info.waitpid as u32), Ghost(gi));
        heap.write_word(base + 5, #[verifier::truncate] (info.sleep as u32), Ghost(gi));
        proof {
            assert forall|w: int| 0 <= w < 6
                implies heap@[p + 6 * i + w] == rec_words(infos@[i as int])[w] by {
            }
        }
        i += 1;
    }
    let ghost mid2 = heap@;
    proof {
        crate::heap::lemma_kmalloc_keeps_user_word(old(heap)@, mid, bytes, p as int,
            out as int);
        assert(crate::heap::user_word_at(mid2, out as int)) by {
            assert(crate::heap::blocks_from(mid2, 0) == crate::heap::blocks_from(mid, 0));
        }
    }
    let ok = heap.write_user_word(out as usize, p as u32);
    proof {
        assert(ok);
        assert(procs_published(*old(sched), old(heap)@, heap@, out)) by {
            assert(kmalloc_post_any(old(heap)@, mid, (24 * procs_list(*old(sched)).len())
                as u32, p as int));
            assert(heap@ == mid2.update(out as int, p as u32));
        }
        assert(!crate::heap::no_fit(old(heap)@, bytes)) by {
            let bs = crate::heap::blocks_from(old(heap)@, 0);
            assert(!(bs[gi].2 || bs[gi].1 < crate::heap::need_words(bytes)));
        }
    }
    proof {
        assert(n == procs_list(*old(sched)).len());
    }
    n as u32
}

/// Put the caller to sleep for the given seconds, at one hundred ticks per
/// second; nonzero when nothing is current.
fn handle_sleep(sched: &mut scheduler, secs: u32) -> (r: u32)
    requires
        old(sched).wf(),
    ensures
        final(sched).wf(),
        match old(sched).current {
            None => r == 1 && *final(sched) == *old(sched),
            Some(c) => r == 0 && *final(sched) == scheduler {
                current: Some(PCB { sleep: (100 * secs) as i16, ..c }), ..*old(sched) },
        },
{
    match sched.current {
        None => 1,
        Some(c) => {
            let ticks: i16 = #[verifier::truncate] ((100u64 * (secs as u64)) as i16);
            proof {
                assert(ticks == (100 * secs) as i16) by (bit_vector)
                    requires ticks == ((100u64 * (secs as u64)) as i16);
            }
            sched.current = Some(PCB { sleep: ticks, ..c });
            0
        },
    }
}

impl scheduler {
    /// A record for every live process: the current one first, then the
    /// ready tree's, for the process listing.
    pub fn collect_all_procs(&self) -> (r: Vec<process_info>)
        requires
            self.wf(),
        ensures
            r@ == procs_list(*self),
            r@.len() == live_count(*self),
            self.current matches Some(c) ==> r@[0] == info_of(c),
            forall|k: i64| self.schedule@.dom().contains(k)
                ==> exists|j: int| 0 <= j < r@.len()
                    && #[trigger] r@[j] == info_of(self.schedule@[k]),
    {
        proof {
            self.schedule.lemma_len();
        }
        let mut r: Vec<process_info> = Vec::new();
        match &self.current {
            Some(c) => {
                r.push(process_info {
                    pid: c.pid,
                    vruntime: c.vruntime,
                    name: c.name,
                    waitpid: c.waitpid,
                    sleep: c.sleep,
                });
            },
            None => {},
        }
        let entries = self.schedule.entries();
        let base = r.len();
        let mut idx: usize = 0;
        while idx < entries.len()
            invariant
                self.wf(),
                idx <= entries@.len(),
                r@.len() == base + idx,
                base == (if self.current is Some { 1int } else { 0int }),
                self.current matches Some(c) ==> r@[0] == info_of(c),
                entries@.len() == self.schedule@.dom().len(),
                forall|j: int| 0 <= j < entries@.len() ==>
                    self.schedule@.dom().contains((#[trigger] entries@[j]).0)
                    && entries@[j].1 == self.schedule@[entries@[j].0],
                forall|k: i64| self.schedule@.dom().contains(k)
                    ==> exists|j: int| 0 <= j < entries@.len()
                        && (#[trigger] entries@[j]).0 == k,
                entries@ == crate::rbtree::entries_of(self.schedule.root),
                forall|j: int| 0 <= j < idx
                    ==> #[trigger] r@[base + j] == info_of(entries@[j].1),
            decreases entries@.len() - idx,
        {
            let p = entries[idx].1;
            r.push(process_info {
                pid: p.pid,
                vruntime: p.vruntime,
                name: p.name,
                waitpid: p.waitpid,
                sleep: p.sleep,
            });
            idx += 1;
        }
        proof {
            assert forall|k: i64| self.schedule@.dom().contains(k)
                implies exists|j: int| 0 <= j < r@.len()
                    && #[trigger] r@[j] == info_of(self.schedule@[k]) by {
                let j0 = choose|j0: int| 0 <= j0 < entries@.len()
                    && (#[trigger] entries@[j0]).0 == k;
                assert(r@[base + j0] == info_of(entries@[j0].1));
            }
            assert(r@ =~= procs_list(*self)) by {
                let tail = crate::rbtree::entries_of(self.schedule.root)
                    .map_values(|e: (i64, PCB)| info_of(e.1));
                assert(tail.len() == entries@.len());
                assert forall|j: int| 0 <= j < entries@.len()
                    implies r@[base + j] == #[trigger] tail[j] by {
                    assert(tail[j] == info_of(entries@[j].1));
                }
            }
        }
        r
    }
}

} // verus!
