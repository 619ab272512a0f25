//! The scheduler: fair selection over a tree of runnable processes keyed by
//! virtual runtime, with killing, waiting and sleeping handled at each
//! scheduling decision.
//!
//! Each runnable, non-current process sits in the ready tree under a key at
//! or above its recorded virtual runtime (keys are probed upward on
//! collision, so they stay unique). One process at most is current. A tick
//! saves the current process's context, advances its virtual runtime by its
//! quantum multiplier, re-inserts it, and picks the minimum-key candidate
//! that is neither killed, nor waiting on a live process, nor sleeping.

use vstd::prelude::*;
use crate::heap::Heap;
use crate::rbtree::rbtree;

verus! {

/// Virtual runtimes stay below this bound; the key space above it is spare
/// room for collision probing.
pub const VR_BOUND: u64 = 0x1000_0000_0000_0000;

/// More processes than this never exist at once (the heap could not hold
/// their stacks).
pub const LEN_BOUND: usize = 0x10000;

/// All per-process state the kernel keeps.
#[allow(non_camel_case_types)]
#[derive(Clone, Copy)]
pub struct PCB {
    /// Saved general-purpose register file.
    pub context: [u32; 32],
    /// Saved trap return address.
    pub pc: u32,
    /// Accumulated virtual time; the scheduling key.
    pub vruntime: u64,
    /// Quantum multiplier: virtual time advances by this much per tick, so a
    /// higher value means a lower priority.
    pub QM: u32,
    /// Process id, unique among live processes and never reused.
    pub pid: i32,
    /// Requested stack size in bytes.
    pub stack_size: u32,
    /// Word offset of the stack allocation in the heap; zero when none.
    pub stack_pointer: u32,
    /// Opaque address of the process's name string.
    pub name: u32,
    /// Set by exit or kill; the process is reaped at the next scheduling
    /// decision that examines it.
    pub kill: bool,
    /// Pid being waited on, or -1.
    pub waitpid: i32,
    /// Ticks of sleep remaining.
    pub sleep: i16,
}

/// Scheduler state: the running process, the ready tree, and the pid
/// allocator.
#[allow(non_camel_case_types)]
pub struct scheduler {
    pub current: Option<PCB>,
    pub schedule: rbtree<PCB>,
    pub next_pid: i32,
}

/// Some entry of the tree belongs to the given pid.
pub open spec fn tree_has_pid_spec(t: Map<i64, PCB>, pid: i32) -> bool {
    exists|k: i64| t.dom().contains(k) && (#[trigger] t[k]).pid == pid
}

/// A pid is live: it belongs to a tree entry or to the current process.
pub open spec fn live_pid(s: scheduler, pid: i32) -> bool {
    ||| tree_has_pid_spec(s.schedule@, pid)
    ||| (s.current matches Some(c) && c.pid == pid)
}

/// Number of live processes: the tree's entries plus the current process.
pub open spec fn live_count(s: scheduler) -> int {
    s.schedule@.dom().len() + (if s.current is Some { 1int } else { 0int })
}

/// One tick of sleep served.
pub open spec fn dec_sleep(p: PCB) -> PCB {
    PCB { sleep: if p.sleep > 0 { (p.sleep - 1) as i16 } else { p.sleep }, ..p }
}

/// `a` is `b` after at most one tick of sleep served.
pub open spec fn pcb_like(a: PCB, b: PCB) -> bool {
    a == b || a == dec_sleep(b)
}

/// The adopted process has its wait cleared.
pub open spec fn clear_wait(p: PCB) -> PCB {
    PCB { waitpid: -1i32, ..p }
}

/// A candidate the scheduler may adopt, judged against the pid snapshot
/// `t0`: not killed, not waiting on a pid that the snapshot holds, and not
/// sleeping.
pub open spec fn eligible(p: PCB, t0: Map<i64, PCB>) -> bool {
    &&& !p.kill
    &&& !(p.waitpid != -1 && tree_has_pid_spec(t0, p.waitpid))
    &&& p.sleep <= 0
}

/// Every tree entry and the current process carry distinct pids.
pub open spec fn pids_unique(s: scheduler) -> bool {
    &&& (forall|k1: i64, k2: i64|
            s.schedule@.dom().contains(k1) && s.schedule@.dom().contains(k2) && k1 != k2
            ==> (#[trigger] s.schedule@[k1]).pid != (#[trigger] s.schedule@[k2]).pid)
    &&& (s.current matches Some(c) ==> forall|k: i64|
            s.schedule@.dom().contains(k) ==> (#[trigger] s.schedule@[k]).pid != c.pid)
}

/// A live process's bookkeeping: pid allocated below `next_pid`, virtual
/// runtime in range.
pub open spec fn pcb_ok(s: scheduler, p: PCB) -> bool {
    &&& 0 <= p.pid < s.next_pid
    &&& p.vruntime < VR_BOUND
}

impl scheduler {
    /// The scheduler's invariant: the tree is a well-formed map of bounded
    /// size whose keys sit at or above the held process's virtual runtime,
    /// pids are unique and below the allocator mark, and virtual runtimes
    /// stay in range.
    pub open spec fn wf(&self) -> bool {
        &&& self.schedule.wf()
        &&& self.schedule@.dom().len() < LEN_BOUND
        &&& 0 <= self.next_pid
        &&& pids_unique(*self)
        &&& (forall|k: i64| #[trigger] self.schedule@.dom().contains(k)
                ==> 0 <= k < VR_BOUND + LEN_BOUND)
        &&& (forall|k: i64| self.schedule@.dom().contains(k)
                ==> (#[trigger] self.schedule@[k]).vruntime <= k as u64)
        &&& (forall|k: i64| self.schedule@.dom().contains(k)
                ==> pcb_ok(*self, #[trigger] self.schedule@[k]))
        &&& (self.current matches Some(c) ==> pcb_ok(*self, c))
    }

    /// A fresh scheduler: nothing current, an empty tree, pids from zero.
    pub fn new() -> (s: scheduler)
        ensures
            s.wf(),
            s.current is None,
            s.schedule@ == Map::<i64, PCB>::empty(),
            s.next_pid == 0,
    {
        scheduler { current: None, schedule: rbtree::new(), next_pid: 0 }
    }

    /// Set up a fresh ready tree; the current process and the pid allocator
    /// are untouched. The caller re-arms the machine timer around this, as
    /// the boot path does.
    pub fn init(&mut self)
        requires
            old(self).wf(),
        ensures
            final(self).wf(),
            final(self).current == old(self).current,
            final(self).next_pid == old(self).next_pid,
            final(self).schedule@ == Map::<i64, PCB>::empty(),
    {
        self.schedule = rbtree::new();
        proof {
            assert(self.schedule@.dom() =~= Set::<i64>::empty());
        }
    }

    /// Insert a process at the first free key at or above `key`, probing
    /// upward by one on collision.
    fn add_to_tree(&mut self, key: u64, val: PCB)
        requires
            old(self).schedule.wf(),
            old(self).schedule@.dom().len() < LEN_BOUND,
            key < VR_BOUND,
            forall|k: i64| old(self).schedule@.dom().contains(k)
                ==> 0 <= k < VR_BOUND + LEN_BOUND,
        ensures
            final(self).schedule.wf(),
            final(self).current == old(self).current,
            final(self).next_pid == old(self).next_pid,
            exists|k2: i64| {
                &&& 0 <= k2 && key <= k2 as u64 && #[trigger] trigger_key(k2)
                &&& k2 < VR_BOUND + LEN_BOUND
                &&& !old(self).schedule@.dom().contains(k2)
                &&& (forall|kk: i64| 0 <= kk < k2 && key <= kk as u64
                        ==> old(self).schedule@.dom().contains(kk))
                &&& final(self).schedule@ == old(self).schedule@.insert(k2, val)
            },
            final(self).schedule@.dom().len() == old(self).schedule@.dom().len() + 1,
    {
        proof {
            self.schedule.lemma_len();
        }
        let ghost t0 = self.schedule@;
        let mut k: u64 = key;
        let ghost mut probed: Set<i64> = Set::empty();
        while self.schedule.lookup(k as i64).is_some()
            invariant
                self.schedule.wf(),
                self.schedule@ == t0,
                self.current == old(self).current,
                self.next_pid == old(self).next_pid,
                t0.dom().len() < LEN_BOUND,
                t0.dom().finite(),
                key < VR_BOUND,
                key <= k,
                probed.finite(),
                probed.len() == k - key,
                probed.subset_of(t0.dom()),
                forall|x: i64| probed.contains(x) ==> key <= x as u64 && (x as u64) < k,
                forall|kk: i64| 0 <= kk && key <= kk as u64 && (kk as u64) < k
                    ==> t0.dom().contains(kk),
                k - key <= t0.dom().len(),
                k < VR_BOUND + LEN_BOUND as u64,
            decreases t0.dom().len() + 1 - (k - key),
        {
            proof {
                self.schedule.lemma_len();
                assert(!probed.contains(k as i64));
                vstd::set::axiom_set_insert_len(probed, k as i64);
                probed = probed.insert(k as i64);
                assert(probed.subset_of(t0.dom()));
                vstd::set_lib::lemma_len_subset(probed, t0.dom());
                assert forall|kk: i64| 0 <= kk && key <= kk as u64 && (kk as u64) < k + 1
                    implies t0.dom().contains(kk) by {
                    if kk as u64 == k {
                        assert(kk == k as i64);
                    }
                }
            }
            k = k + 1;
        }
        proof {
            assert(!self.schedule@.dom().contains(k as i64));
            assert(trigger_key(k as i64));
            assert forall|kk: i64| 0 <= kk < k as i64 && key <= kk as u64
                implies t0.dom().contains(kk) by {
                assert((kk as u64) < k);
            }
        }
        self.schedule.insert(k as i64, val);
        proof {
            self.schedule.lemma_len();
        }
    }

    /// Whether some process in the ready tree carries the pid.
    pub fn tree_has_pid(&self, pid: i32) -> (r: bool)
        requires
            self.schedule.wf(),
        ensures
            r == tree_has_pid_spec(self.schedule@, pid),
    {
        let entries = self.schedule.entries();
        let mut idx: usize = 0;
        while idx < entries.len()
            invariant
                self.schedule.wf(),
                idx <= entries@.len(),
                entries@.len() == self.schedule@.dom().len(),
                forall|j: int| 0 <= j < entries@.len() ==>
                    self.schedule@.dom().contains((#[trigger] entries@[j]).0)
                    && entries@[j].1 == self.schedule@[entries@[j].0],
                forall|k: i64| self.schedule@.dom().contains(k)
                    ==> exists|j: int| 0 <= j < entries@.len() && (#[trigger] entries@[j]).0 == k,
                forall|j: int| 0 <= j < idx ==> (#[trigger] entries@[j]).1.pid != pid,
            decreases entries@.len() - idx,
        {
            if entries[idx].1.pid == pid {
                return true;
            }
            idx += 1;
        }
        proof {
            assert forall|k: i64| self.schedule@.dom().contains(k)
                implies (#[trigger] self.schedule@[k]).pid != pid by {
                let j = choose|j: int| 0 <= j < entries@.len() && (#[trigger] entries@[j]).0 == k;
                assert(entries@[j].1.pid != pid);
            }
        }
        false
    }

    /// The process with the given pid, current or in the tree; a copy of its
    /// control block, or nothing when no live process carries the pid.
    pub fn get_pcb(&self, pid: i32) -> (r: Option<PCB>)
        requires
            self.schedule.wf(),
        ensures
            r matches Some(p) ==> p.pid == pid
                && ((self.current matches Some(c) && c == p)
                    || (exists|k: i64| self.schedule@.dom().contains(k)
                        && #[trigger] self.schedule@[k] == p)),
            r is None ==> !live_pid(*self, pid),
    {
        match &self.current {
            Some(c) if c.pid == pid => {
                return Some(*c);
            },
            _ => {},
        }
        let entries = self.schedule.entries();
        let mut idx: usize = 0;
        while idx < entries.len()
            invariant
                self.schedule.wf(),
                idx <= entries@.len(),
                forall|j: int| 0 <= j < entries@.len() ==>
                    self.schedule@.dom().contains((#[trigger] entries@[j]).0)
                    && entries@[j].1 == self.schedule@[entries@[j].0],
                forall|k: i64| self.schedule@.dom().contains(k)
                    ==> exists|j: int| 0 <= j < entries@.len() && (#[trigger] entries@[j]).0 == k,
                forall|j: int| 0 <= j < idx ==> (#[trigger] entries@[j]).1.pid != pid,
            decreases entries@.len() - idx,
        {
            if entries[idx].1.pid == pid {
                let ghost k = entries@[idx as int].0;
                proof {
                    assert(self.schedule@[k] == entries@[idx as int].1);
                }
                return Some(entries[idx].1);
            }
            idx += 1;
        }
        proof {
            assert forall|k: i64| self.schedule@.dom().contains(k)
                implies (#[trigger] self.schedule@[k]).pid != pid by {
                let j = choose|j: int| 0 <= j < entries@.len() && (#[trigger] entries@[j]).0 == k;
                assert(entries@[j].1.pid != pid);
            }
        }
        None
    }

    /// Mark the process with the given pid for reaping at the next
    /// scheduling decision; whether a live process carried the pid. Nothing
    /// else changes: no process is created or destroyed here.
    #[verifier::rlimit(60)]
    pub fn kill(&mut self, pid: i32) -> (r: bool)
        requires
            old(self).wf(),
        ensures
            final(self).wf(),
            r == live_pid(*old(self), pid),
            live_count(*final(self)) == live_count(*old(self)),
            final(self).next_pid == old(self).next_pid,
            final(self).schedule@.dom() == old(self).schedule@.dom(),
            r ==> exists|p: PCB| is_killed_version(*old(self), *final(self), pid, p),
            !r ==> *final(self) == *old(self),
    {
        match &self.current {
            Some(c) if c.pid == pid => {
                let mut c2 = *c;
                c2.kill = true;
                let ghost pre = *self;
                self.current = Some(c2);
                proof {
                    assert(is_killed_version(*old(self), *self, pid, c2));
                    assert(pids_unique(*self));
                    assert(pcb_ok(*self, c2));
                    assert(forall|k: i64| self.schedule@.dom().contains(k)
                        ==> pcb_ok(*self, #[trigger] self.schedule@[k]));
                    assert(self.schedule.wf());
                    assert(self.schedule@.dom().len() < LEN_BOUND);
                    assert(0 <= self.next_pid);
                    assert forall|k: i64| #[trigger] self.schedule@.dom().contains(k)
                        implies 0 <= k < VR_BOUND + LEN_BOUND by {
                        assert(old(self).schedule@.dom().contains(k));
                    }
                    assert forall|k: i64| self.schedule@.dom().contains(k)
                        implies (#[trigger] self.schedule@[k]).vruntime <= k as u64 by {
                        assert(old(self).schedule@.dom().contains(k));
                        assert(old(self).schedule@[k] == self.schedule@[k]);
                    }
                    assert(self.current matches Some(c) ==> pcb_ok(*self, c));
                }
                return true;
            },
            _ => {},
        }
        let entries = self.schedule.entries();
        let mut idx: usize = 0;
        while idx < entries.len()
            invariant
                *self == *old(self),
                self.wf(),
                idx <= entries@.len(),
                forall|j: int| 0 <= j < entries@.len() ==>
                    self.schedule@.dom().contains((#[trigger] entries@[j]).0)
                    && entries@[j].1 == self.schedule@[entries@[j].0],
                forall|k: i64| self.schedule@.dom().contains(k)
                    ==> exists|j: int| 0 <= j < entries@.len() && (#[trigger] entries@[j]).0 == k,
                forall|j: int| 0 <= j < idx ==> (#[trigger] entries@[j]).1.pid != pid,
            decreases entries@.len() - idx,
        {
            if entries[idx].1.pid == pid {
                let k: i64 = entries[idx].0;
                let mut p = entries[idx].1;
                proof {
                    assert(self.schedule@[k] == p);
                    self.schedule.lemma_len();
                }
                p.kill = true;
                self.schedule.insert(k, p);
                proof {
                    assert(self.schedule@.dom() =~= old(self).schedule@.dom());
                    assert(is_killed_version(*old(self), *self, pid, p));
                    assert(pids_unique(*self));
                }
                return true;
            }
            idx += 1;
        }
        proof {
            assert forall|k: i64| self.schedule@.dom().contains(k)
                implies (#[trigger] self.schedule@[k]).pid != pid by {
                let j = choose|j: int| 0 <= j < entries@.len() && (#[trigger] entries@[j]).0 == k;
                assert(entries@[j].1.pid != pid);
            }
        }
        false
    }

    /// Number of live processes: the ready tree's population plus one for
    /// the current process.
    pub fn nproc(&self) -> (r: usize)
        requires
            self.wf(),
        ensures
            r == live_count(*self),
    {
        proof {
            self.schedule.lemma_len();
        }
        if self.current.is_some() {
            self.schedule.len + 1
        } else {
            self.schedule.len
        }
    }
}

/// When a spawn is owed success: the arguments are sane, there is room in
/// the process table and pid space, and the heap has a free block that fits
/// the requested stack.
pub open spec fn spawn_ok(s: scheduler, h: Heap, stack_size: u32, qm: u32) -> bool {
    &&& qm >= 1
    &&& stack_size > 0
    &&& stack_size <= crate::heap::MAX_BLOCK_SIZE
    &&& s.next_pid < i32::MAX
    &&& s.schedule@.dom().len() + 1 < LEN_BOUND
    &&& exists|j: int| 0 <= j < h.blocks().len() && !(#[trigger] h.blocks()[j]).2
            && h.blocks()[j].1 >= crate::heap::need_words(stack_size)
}

/// The control block a fresh spawn builds: argument and data registers set,
/// the stack pointer register at the stack's top, everything else zeroed,
/// bookkeeping fields per the arguments.
pub open spec fn spawned_pcb(
    pre: scheduler, ip: u32, qm: u32, name: u32, stack_size: u32, sp: usize, dst: int,
    dlen: u32, p: PCB,
) -> bool {
    let words = crate::heap::need_words(stack_size);
    &&& p.pid == pre.next_pid
    &&& p.pc == ip
    &&& p.QM == qm
    &&& p.vruntime == pre.schedule@.dom().len()
    &&& p.kill == false
    &&& p.waitpid == -1
    &&& p.sleep == 0
    &&& p.name == name
    &&& p.stack_size == stack_size
    &&& p.stack_pointer == sp
    &&& p.context@[2] == (sp + words) as u32
    &&& p.context@[10] == dst as u32
    &&& p.context@[11] == dlen
    &&& (forall|i: int| 0 <= i < 32 && i != 2 && i != 10 && i != 11 ==> p.context@[i] == 0)
}

impl scheduler {
    /// Spawn a process: allocate its stack from the heap, copy the handed
    /// data to the stack's top, build its control block, insert it into the
    /// ready tree at its starting virtual runtime, and hand out a fresh pid.
    /// Returns -1, changing nothing, when the stack cannot be allocated or
    /// an argument is unusable; data that does not fit the stack, lies
    /// outside the heap, or overlaps the new stack is not copied.
    #[verifier::rlimit(100)]
    pub fn new_process(
        &mut self, heap: &mut Heap, stack_size: u32, ip: u32, qm: u32, data_ptr: u32,
        data_len: u32, name: u32,
    ) -> (pid: i32)
        requires
            old(self).wf(),
            old(heap).wf(),
        ensures
            final(self).wf(),
            final(heap).wf(),
            final(heap)@.len() == old(heap)@.len(),
            pid == -1 || pid == old(self).next_pid,
            (pid == -1) == !spawn_ok(*old(self), *old(heap), stack_size, qm),
            pid == -1 ==> *final(self) == *old(self) && final(heap)@ == old(heap)@,
            pid >= 0 ==> {
                &&& final(self).next_pid == old(self).next_pid + 1
                &&& final(self).current == old(self).current
                &&& live_count(*final(self)) == live_count(*old(self)) + 1
                &&& exists|k2: i64, sp: usize, dst: int, dlen: u32, p: PCB|
                    #![trigger trigger_key(k2),
                        spawned_pcb(*old(self), ip, qm, name, stack_size, sp, dst, dlen, p)]
                {
                    &&& trigger_key(k2)
                    &&& spawned_pcb(*old(self), ip, qm, name, stack_size, sp, dst, dlen, p)
                    &&& !old(self).schedule@.dom().contains(k2)
                    &&& (forall|kk: i64| 0 <= kk < k2
                            && old(self).schedule@.dom().len() <= kk as u64
                            ==> old(self).schedule@.dom().contains(kk))
                    &&& final(self).schedule@ == old(self).schedule@.insert(k2, p)
                    &&& old(self).schedule@.dom().len() <= k2 as u64
                    &&& dlen == (if spawn_copy_ok(old(heap)@.len() as int, stack_size, sp,
                            data_ptr, data_len) { data_len } else { 0u32 })
                    &&& dst == sp + crate::heap::need_words(stack_size) - dlen
                    &&& spawn_heap_post(old(heap)@, final(heap)@, stack_size, sp, dst, dlen,
                            data_ptr)
                }
            },
    {
        if qm == 0 || self.next_pid == i32::MAX || stack_size == 0
            || stack_size > crate::heap::MAX_BLOCK_SIZE {
            return -1;
        }
        proof {
            self.schedule.lemma_len();
        }
        if self.schedule.len + 1 >= LEN_BOUND {
            return -1;
        }
        let sp = match heap.kmalloc(stack_size) {
            None => {
                proof {
                    assert(!spawn_ok(*old(self), *old(heap), stack_size, qm)) by {
                        if spawn_ok(*old(self), *old(heap), stack_size, qm) {
                            let j = choose|j: int| 0 <= j < old(heap).blocks().len()
                                && !(#[trigger] old(heap).blocks()[j]).2
                                && old(heap).blocks()[j].1
                                    >= crate::heap::need_words(stack_size);
                            assert(old(heap).blocks()[j].2
                                || old(heap).blocks()[j].1
                                    < crate::heap::need_words(stack_size));
                        }
                    }
                }
                return -1;
            },
            Some(sp) => sp,
        };
        let ghost mid = heap@;
        let ghost gi = choose|i: int| crate::heap::kmalloc_post(old(heap)@, mid, stack_size,
            sp as int, i);
        let words: u32 = (stack_size + 3) / 4;
        proof {
            let bs = crate::heap::blocks_from(old(heap)@, 0);
            assert(heap.blocks()[gi] == ((sp - 1) as int,
                crate::heap::hdr_size(mid[sp as int - 1]), true)
                && crate::heap::hdr_size(mid[sp as int - 1]) >= words
                && (sp - 1) + 1 + crate::heap::hdr_size(mid[sp as int - 1]) <= mid.len()) by {
                let tsize = if bs[gi].1 == crate::heap::need_words(stack_size) + 1 {
                    bs[gi].1
                } else {
                    crate::heap::need_words(stack_size)
                };
                if bs[gi].1 > tsize {
                    assert(heap.blocks()[gi] == (bs[gi].0, tsize, true));
                } else {
                    assert(heap.blocks()[gi] == (bs[gi].0, bs[gi].1, true));
                }
                crate::heap::lemma_block_fact(mid, gi);
            }
            assert(sp + (stack_size + 3) / 4 <= mid.len());
            crate::heap::lemma_block_fact(old(heap)@, gi);
            assert(sp >= 1);
        }
        // Copy the handed data to the top of the new stack, when it fits the
        // stack, lies inside the heap, and does not overlap the new stack.
        let heap_words = heap.region_words();
        let top: usize = sp + (words as usize);
        let copy_ok: bool = data_ptr != 0 && data_len <= words
            && (data_ptr as u64) + (data_len as u64) <= (heap_words as u64)
            && ((data_ptr as u64) + (data_len as u64) <= (sp as u64)
                || (data_ptr as u64) >= (top as u64));
        let dlen: u32 = if copy_ok { data_len } else { 0 };
        let dst: usize = top - (dlen as usize);
        let mut jj: usize = 0;
        while jj < dlen as usize
            invariant
                heap.wf(),
                heap@.len() == mid.len(),
                heap.blocks() == crate::heap::blocks_from(mid, 0),
                0 <= gi < heap.blocks().len(),
                heap.blocks()[gi].2,
                heap.blocks()[gi].0 == sp - 1,
                sp >= 1,
                heap.blocks()[gi].0 + heap.blocks()[gi].1 >= sp + words - 1,
                sp + words <= heap@.len(),
                dlen <= words,
                dst == sp + words - dlen,
                jj <= dlen,
                dlen > 0 ==> (data_ptr + dlen <= sp || data_ptr >= sp + words)
                    && data_ptr + dlen <= heap@.len(),
                forall|j: int| 0 <= j < heap@.len() && !(dst <= j < dst + jj)
                    ==> heap@[j] == mid[j],
                forall|j: int| dst <= j < dst + jj ==> heap@[j] == mid[data_ptr + (j - dst)],
            decreases dlen - jj,
        {
            let v = heap.read_word((data_ptr as usize) + jj);
            proof {
                assert(heap@[data_ptr + jj] == mid[data_ptr + jj]);
            }
            heap.write_word(dst + jj, v, Ghost(gi));
            jj += 1;
        }
        // Build and register the control block.
        let vr: u64 = self.schedule.len as u64;
        let mut context: [u32; 32] = [0, 0, 0, 0, 0, 0, 0, 0, 0, 0, 0, 0, 0, 0, 0, 0,
            0, 0, 0, 0, 0, 0, 0, 0, 0, 0, 0, 0, 0, 0, 0, 0];
        context[2] = top as u32;
        context[10] = dst as u32;
        context[11] = dlen;
        let pcb = PCB {
            context,
            pc: ip,
            vruntime: vr,
            QM: qm,
            pid: self.next_pid,
            stack_size,
            stack_pointer: sp as u32,
            name,
            kill: false,
            waitpid: -1,
            sleep: 0,
        };
        let pid = self.next_pid;
        proof {
            self.schedule.lemma_len();
        }
        self.add_to_tree(vr, pcb);
        self.next_pid = pid + 1;
        proof {
            self.schedule.lemma_len();
            let k2 = choose|k2: i64| {
                &&& 0 <= k2 && vr <= k2 as u64 && #[trigger] trigger_key(k2)
                &&& k2 < VR_BOUND + LEN_BOUND
                &&& !old(self).schedule@.dom().contains(k2)
                &&& (forall|kk: i64| 0 <= kk < k2 && vr <= kk as u64
                        ==> old(self).schedule@.dom().contains(kk))
                &&& self.schedule@ == old(self).schedule@.insert(k2, pcb)
            };
            assert(spawned_pcb(*old(self), ip, qm, name, stack_size, sp, dst as int, dlen, pcb));
            assert(copy_ok == spawn_copy_ok(old(heap)@.len() as int, stack_size, sp,
                data_ptr, data_len));
            assert(spawn_heap_post(old(heap)@, heap@, stack_size, sp, dst as int, dlen,
                data_ptr)) by {
                assert(crate::heap::kmalloc_post_any(old(heap)@, mid, stack_size, sp as int));
                assert(forall|j: int| 0 <= j < heap@.len() && !(dst <= j < dst + dlen)
                    ==> heap@[j] == mid[j]);
                assert forall|j: int| 0 <= j < dlen
                    implies #[trigger] heap@[dst + j] == mid[data_ptr + j] by {
                    assert(heap@[dst + j] == mid[data_ptr + ((dst + j) - dst)]);
                }
            }
            assert(self.wf()) by {
                new_process_wf(*old(self), *self, k2, pcb);
            }
            assert(spawn_ok(*old(self), *old(heap), stack_size, qm)) by {
                let bs = crate::heap::blocks_from(old(heap)@, 0);
                assert(0 <= gi < bs.len() && !bs[gi].2
                    && bs[gi].1 >= crate::heap::need_words(stack_size));
            }
        }
        pid
    }
}

/// Whether spawn copies the handed data: the pointer is nonzero, the data
/// fits the stack, lies inside the heap, and does not overlap the new stack.
pub open spec fn spawn_copy_ok(
    heap_len: int, stack_size: u32, sp: usize, data_ptr: u32, data_len: u32,
) -> bool {
    let words = crate::heap::need_words(stack_size);
    &&& data_ptr != 0
    &&& data_len <= words
    &&& data_ptr + data_len <= heap_len
    &&& (data_ptr + data_len <= sp || data_ptr >= sp + words)
}

/// The heap after a spawn: first the stack block is allocated, exactly as
/// `kmalloc` leaves the region, and then the handed words are copied from
/// `data_ptr` to the stack top at `dst`; no other word changes.
pub open spec fn spawn_heap_post(
    pre: Seq<u32>, post: Seq<u32>, stack_size: u32, sp: usize, dst: int, dlen: u32, data_ptr: u32,
) -> bool {
    exists|mid: Seq<u32>| {
        &&& #[trigger] crate::heap::kmalloc_post_any(pre, mid, stack_size, sp as int)
        &&& post.len() == mid.len()
        &&& (forall|j: int| 0 <= j < post.len() && !(dst <= j < dst + dlen)
                ==> post[j] == mid[j])
        &&& (forall|j: int| 0 <= j < dlen ==> #[trigger] post[dst + j] == mid[data_ptr + j])
    }
}

/// The spawned scheduler state keeps the invariant: the new pid is fresh,
/// the new key is in range, and everything else is untouched.
proof fn new_process_wf(pre: scheduler, post: scheduler, k2: i64, p: PCB)
    requires
        pre.wf(),
        pre.next_pid < i32::MAX,
        pre.schedule@.dom().len() + 1 < LEN_BOUND,
        post.schedule.wf(),
        post.next_pid == pre.next_pid + 1,
        post.current == pre.current,
        0 <= k2 < VR_BOUND + LEN_BOUND,
        !pre.schedule@.dom().contains(k2),
        post.schedule@ == pre.schedule@.insert(k2, p),
        p.pid == pre.next_pid,
        p.vruntime <= k2 as u64,
        p.vruntime < VR_BOUND,
        post.schedule@.dom().len() == pre.schedule@.dom().len() + 1,
    ensures
        post.wf(),
{
    assert forall|k: i64| #[trigger] post.schedule@.dom().contains(k)
        implies 0 <= k < VR_BOUND + LEN_BOUND by {
        if k != k2 {
            assert(pre.schedule@.dom().contains(k));
        }
    }
    assert forall|k: i64| post.schedule@.dom().contains(k)
        implies (#[trigger] post.schedule@[k]).vruntime <= k as u64 by {
        if k != k2 {
            assert(pre.schedule@.dom().contains(k));
            assert(post.schedule@[k] == pre.schedule@[k]);
        }
    }
    assert forall|k: i64| post.schedule@.dom().contains(k)
        implies pcb_ok(post, #[trigger] post.schedule@[k]) by {
        if k != k2 {
            assert(pre.schedule@.dom().contains(k));
            assert(post.schedule@[k] == pre.schedule@[k]);
            assert(pcb_ok(pre, pre.schedule@[k]));
        }
    }
    assert(pids_unique(post)) by {
        assert forall|ka: i64, kb: i64|
            post.schedule@.dom().contains(ka) && post.schedule@.dom().contains(kb) && ka != kb
            implies (#[trigger] post.schedule@[ka]).pid != (#[trigger] post.schedule@[kb]).pid by {
            if ka != k2 && kb != k2 {
                assert(pre.schedule@.dom().contains(ka) && pre.schedule@.dom().contains(kb));
            } else if ka == k2 {
                assert(pre.schedule@.dom().contains(kb));
                assert(pcb_ok(pre, pre.schedule@[kb]));
            } else {
                assert(pre.schedule@.dom().contains(ka));
                assert(pcb_ok(pre, pre.schedule@[ka]));
            }
        }
        if post.current is Some {
            assert(pcb_ok(pre, post.current->Some_0));
        }
    }
}

/// The scan examined the candidate at key `k`: it reached it before stopping
/// at the winner (the winner's own key counts as examined).
pub open spec fn examined(kw: Option<i64>, k: i64) -> bool {
    match kw {
        None => true,
        Some(kwk) => k <= kwk,
    }
}

/// One guarded free, as the reaper performs it: an offset that names no
/// block of the region is refused and changes nothing; a block already free
/// stays as it is; a taken block is freed and coalesced.
pub open spec fn free_step(pre: Seq<u32>, post: Seq<u32>, p: int) -> bool {
    if !(1 <= p < pre.len()) || !crate::heap::is_block_offset(pre, p - 1) {
        post == pre
    } else if !crate::heap::hdr_taken(pre[p - 1]) {
        post == pre
    } else {
        crate::heap::kfree_post(pre, post, p)
    }
}

/// The region `post` comes from `pre` by freeing the listed payload offsets
/// in order, one guarded free each, and by nothing else.
pub open spec fn frees_rel(pre: Seq<u32>, post: Seq<u32>, ptrs: Seq<int>) -> bool
    decreases ptrs.len(),
{
    if ptrs.len() == 0 {
        post == pre
    } else {
        exists|m: Seq<u32>| #[trigger] free_step(pre, m, ptrs[0])
            && frees_rel(m, post, ptrs.skip(1))
    }
}

/// A chain of guarded frees can be extended by one more.
proof fn lemma_frees_snoc(pre: Seq<u32>, mid: Seq<u32>, post: Seq<u32>, ptrs: Seq<int>, p: int)
    requires
        frees_rel(pre, mid, ptrs),
        free_step(mid, post, p),
    ensures
        frees_rel(pre, post, ptrs.push(p)),
    decreases ptrs.len(),
{
    if ptrs.len() == 0 {
        assert(ptrs.push(p)[0] == p);
        assert(ptrs.push(p).skip(1) =~= Seq::<int>::empty());
        assert(free_step(pre, post, p) && frees_rel(post, post, ptrs.push(p).skip(1)));
    } else {
        let m = choose|m: Seq<u32>| #[trigger] free_step(pre, m, ptrs[0])
            && frees_rel(m, mid, ptrs.skip(1));
        lemma_frees_snoc(m, mid, post, ptrs.skip(1), p);
        assert(ptrs.push(p)[0] == ptrs[0]);
        assert(ptrs.push(p).skip(1) =~= ptrs.skip(1).push(p));
        assert(free_step(pre, m, ptrs.push(p)[0])
            && frees_rel(m, post, ptrs.push(p).skip(1)));
    }
}

/// The heap's part of one scheduling decision: its only change is one
/// guarded free for the stack of each examined killed candidate, in scan
/// order.
pub open spec fn reap_post(
    t0: Map<i64, PCB>, kw: Option<i64>, pre_h: Seq<u32>, post_h: Seq<u32>,
) -> bool {
    exists|rptrs: Seq<int>| {
        &&& #[trigger] frees_rel(pre_h, post_h, rptrs)
        &&& (forall|j: int| 0 <= j < rptrs.len() ==> exists|k: i64|
                t0.dom().contains(k) && examined(kw, k) && (#[trigger] t0[k]).kill
                && #[trigger] rptrs[j] == t0[k].stack_pointer)
        &&& (forall|k: i64| t0.dom().contains(k) && (#[trigger] t0[k]).kill && examined(kw, k)
                ==> exists|j: int| 0 <= j < rptrs.len()
                    && #[trigger] rptrs[j] == t0[k].stack_pointer)
    }
}

/// What one scheduling decision guarantees, relative to the tree `t0` it
/// scanned (the ready tree with the descheduled process already re-inserted)
/// and the key `kw` of the winner, if any.
///
/// The winner is the eligible candidate with the least key; every candidate
/// below it was ineligible, and none is eligible at all when there is no
/// winner. Every non-killed loser stays in the tree: candidates above the
/// winner exactly as they were, examined ones re-inserted with at most one
/// tick of sleep served. Everything in the final tree is accounted for the
/// same way.
pub open spec fn pick_post(t0: Map<i64, PCB>, post: scheduler, kw: Option<i64>) -> bool {
    &&& pick_winner(t0, post, kw)
    &&& pick_survivors(t0, post, kw)
    &&& pick_sources(t0, post, kw)
}

/// The winner half of a scheduling decision: the adopted process is the
/// eligible candidate with the least key, its wait cleared; no candidate
/// below it was eligible, and none at all when nothing was adopted.
#[verifier::opaque]
pub open spec fn pick_winner(t0: Map<i64, PCB>, post: scheduler, kw: Option<i64>) -> bool {
    match kw {
        None => {
            &&& post.current is None
            &&& forall|k: i64| t0.dom().contains(k) ==> !eligible(#[trigger] t0[k], t0)
        },
        Some(kwk) => {
            &&& t0.dom().contains(kwk)
            &&& eligible(t0[kwk], t0)
            &&& post.current == Some(clear_wait(t0[kwk]))
            &&& forall|k: i64| t0.dom().contains(k) && k < kwk
                    ==> !eligible(#[trigger] t0[k], t0)
        },
    }
}

/// The losers' half of a scheduling decision: every non-killed candidate
/// stays in the tree — above the winner exactly as it was, examined ones
/// re-inserted with exactly one tick of sleep served.
#[verifier::opaque]
pub open spec fn pick_survivors(t0: Map<i64, PCB>, post: scheduler, kw: Option<i64>) -> bool {
    forall|k: i64| #![trigger t0.dom().contains(k)]
        t0.dom().contains(k) && Some(k) != kw && !t0[k].kill ==> {
            if kw is Some && k > kw->Some_0 {
                post.schedule@.dom().contains(k) && post.schedule@[k] == t0[k]
            } else {
                exists|k2: i64| post.schedule@.dom().contains(k2)
                    && #[trigger] post.schedule@[k2] == dec_sleep(t0[k])
            }
        }
}

/// The accounting half of a scheduling decision: everything in the final
/// tree traces back to a candidate that was not the winner and was either
/// not killed or never examined.
#[verifier::opaque]
pub open spec fn pick_sources(t0: Map<i64, PCB>, post: scheduler, kw: Option<i64>) -> bool {
    forall|k2: i64| #![trigger post.schedule@.dom().contains(k2)]
        post.schedule@.dom().contains(k2) ==>
            exists|k: i64| #![trigger t0.dom().contains(k)]
                t0.dom().contains(k) && Some(k) != kw && pcb_like(post.schedule@[k2], t0[k])
                && (!t0[k].kill || (kw is Some && k > kw->Some_0))
}

/// An examined killed candidate is gone after the decision: no entry of the
/// final tree and not the winner carries its pid. Every survivor traces back
/// to a different key of the scan tree, whose pids are distinct.
pub proof fn lemma_pick_reaps(t0: Map<i64, PCB>, post: scheduler, kw: Option<i64>, k: i64)
    requires
        pick_post(t0, post, kw),
        forall|k1: i64, k2: i64| t0.dom().contains(k1) && t0.dom().contains(k2) && k1 != k2
            ==> (#[trigger] t0[k1]).pid != (#[trigger] t0[k2]).pid,
        t0.dom().contains(k),
        t0[k].kill,
        examined(kw, k),
    ensures
        forall|k2: i64| post.schedule@.dom().contains(k2)
            ==> (#[trigger] post.schedule@[k2]).pid != t0[k].pid,
        post.current matches Some(c) ==> c.pid != t0[k].pid,
{
    reveal(pick_winner);
    reveal(pick_sources);
    assert forall|k2: i64| post.schedule@.dom().contains(k2)
        implies (#[trigger] post.schedule@[k2]).pid != t0[k].pid by {
        let ks = choose|ks: i64| #![trigger t0.dom().contains(ks)]
            t0.dom().contains(ks) && Some(ks) != kw
            && pcb_like(post.schedule@[k2], t0[ks])
            && (!t0[ks].kill || (kw is Some && ks > kw->Some_0));
        assert(post.schedule@[k2].pid == t0[ks].pid);
        if post.schedule@[k2].pid == t0[k].pid {
            assert(ks == k);
        }
    }
    if kw is Some {
        assert(eligible(t0[kw->Some_0], t0));
        assert(kw->Some_0 != k);
    }
}

/// Some entry of the tree holds `w` with one tick of sleep served.
pub open spec fn reinserted(t: Map<i64, PCB>, w: PCB) -> bool {
    exists|k2: i64| t.dom().contains(k2) && #[trigger] t[k2] == dec_sleep(w)
}

/// The value comes from one of the first `n` set-aside candidates, with one
/// tick of sleep served.
pub open spec fn from_waiting(v: PCB, waiting: Seq<PCB>, n: int) -> bool {
    exists|j: int| 0 <= j < n && v == dec_sleep(#[trigger] waiting[j])
}

impl scheduler {
    /// One scheduling decision over the ready tree. Scans candidates in key
    /// order; reaps killed ones (freeing their stacks), sets aside the ones
    /// waiting on a live pid or sleeping, and adopts the first eligible one,
    /// whose saved context is loaded and whose saved pc is returned. The set-
    /// aside candidates get one tick of sleep served and go back into the
    /// tree at their recorded virtual runtimes. With no eligible candidate,
    /// the context and return pc are left as they came.
    #[verifier::rlimit(100)]
    pub fn schedule_next(&mut self, heap: &mut Heap, ctx: &mut [u32; 32], mepc: u32) -> (r: u32)
        requires
            old(self).wf(),
            old(heap).wf(),
            old(self).current is None,
        ensures
            final(self).wf(),
            final(heap).wf(),
            final(heap)@.len() == old(heap)@.len(),
            final(self).next_pid == old(self).next_pid,
            exists|kw: Option<i64>| {
                &&& #[trigger] pick_post(old(self).schedule@, *final(self), kw)
                &&& reap_post(old(self).schedule@, kw, old(heap)@, final(heap)@)
                &&& match kw {
                    Some(kwk) => final(ctx)@ == old(self).schedule@[kwk].context@
                        && r == old(self).schedule@[kwk].pc,
                    None => final(ctx)@ == old(ctx)@ && r == mepc,
                }
            },
    {
        let ghost t0 = self.schedule@;
        let ghost pre = *old(self);
        proof {
            self.schedule.lemma_len();
        }
        // Pid snapshot: liveness of wait targets is judged against the tree
        // as it stands when the scan begins.
        let snapshot: Vec<(i64, PCB)> = self.schedule.entries();
        let mut waiting: Vec<PCB> = Vec::new();
        let ghost mut wkeys: Seq<i64> = Seq::empty();
        let ghost mut done: Set<i64> = Set::empty();
        let ghost mut kw: Option<i64> = None;
        let ghost heap0 = heap@;
        let ghost mut rptrs: Seq<int> = Seq::empty();
        let ghost mut rkeys: Seq<i64> = Seq::empty();
        proof {
            assert(self.schedule@ =~= t0.remove_keys(done));
            assert(frees_rel(heap0, heap@, rptrs));
        }
        loop
            invariant_except_break
                self.current is None,
                kw is None,
            invariant
                self.schedule.wf(),
                heap.wf(),
                heap@.len() == old(heap)@.len(),
                self.next_pid == pre.next_pid,
                t0 == pre.schedule@,
                pre.wf(),
                pre.current is None,
                done.finite(),
                done.subset_of(t0.dom()),
                kw is None ==> self.schedule@ == t0.remove_keys(done),
                kw matches Some(kwk2) ==> self.schedule@ == t0.remove_keys(done).remove(kwk2),
                forall|d: i64, k: i64| done.contains(d) && #[trigger] self.schedule@.dom().contains(k)
                    ==> d < k && #[trigger] trigger_key(d),
                forall|d: i64| #[trigger] done.contains(d) ==> !eligible(t0[d], t0),
                wkeys.len() == waiting@.len(),
                wkeys.len() <= done.len(),
                forall|j: int| 0 <= j < wkeys.len() ==> done.contains(#[trigger] wkeys[j])
                    && !t0[wkeys[j]].kill && waiting@[j] == t0[wkeys[j]],
                forall|j1: int, j2: int| 0 <= j1 < j2 < wkeys.len()
                    ==> #[trigger] wkeys[j1] < #[trigger] wkeys[j2],
                forall|d: i64| #[trigger] done.contains(d) ==> t0[d].kill
                    || exists|j: int| 0 <= j < wkeys.len() && #[trigger] wkeys[j] == d,
                heap0 == old(heap)@,
                frees_rel(heap0, heap@, rptrs),
                rptrs.len() == rkeys.len(),
                forall|j: int| 0 <= j < rkeys.len() ==> done.contains(#[trigger] rkeys[j])
                    && t0[rkeys[j]].kill && rptrs[j] == t0[rkeys[j]].stack_pointer,
                forall|d: i64| #[trigger] done.contains(d) && t0[d].kill
                    ==> exists|j: int| 0 <= j < rkeys.len() && #[trigger] rkeys[j] == d,
                snapshot@.len() == t0.dom().len(),
                forall|j: int| 0 <= j < snapshot@.len() ==>
                    t0.dom().contains((#[trigger] snapshot@[j]).0)
                    && snapshot@[j].1 == t0[snapshot@[j].0],
                forall|k: i64| t0.dom().contains(k)
                    ==> exists|j: int| 0 <= j < snapshot@.len()
                        && (#[trigger] snapshot@[j]).0 == k,
                kw matches Some(kwk) ==> {
                    &&& t0.dom().contains(kwk)
                    &&& !done.contains(kwk)
                    &&& eligible(t0[kwk], t0)
                    &&& self.current == Some(clear_wait(t0[kwk]))
                    &&& forall|d: i64| #[trigger] done.contains(d) ==> d < kwk
                    &&& forall|k: i64| #[trigger] t0.dom().contains(k) && k < kwk
                            ==> done.contains(k)
                },
            ensures
                kw is None ==> done == t0.dom() && self.current is None,
            decreases self.schedule@.dom().len(),
        {
            proof {
                self.schedule.lemma_len();
            }
            let ghost tin = self.schedule@;
            proof {
                assert forall|d: i64, k: i64|
                    #![trigger done.contains(d), tin.dom().contains(k)]
                    done.contains(d) && tin.dom().contains(k)
                    implies d < k by {
                    assert(self.schedule@.dom().contains(k));
                    assert(trigger_key(d));
                }
            }
            let cand = self.schedule.remove_min();
            let (key, mut pcb) = match cand {
                None => {
                    proof {
                        assert(self.schedule@.dom() =~= Set::<i64>::empty());
                        assert(done =~= t0.dom()) by {
                            assert forall|k: i64| t0.dom().contains(k)
                                implies done.contains(k) by {
                                if !done.contains(k) {
                                    assert(t0.remove_keys(done).dom().contains(k));
                                }
                            }
                        }
                    }
                    break;
                },
                Some(pair) => pair,
            };
            proof {
                assert(tin.dom().contains(key));
                assert(t0.dom().contains(key) && !done.contains(key) && t0[key] == pcb);
                assert(forall|d: i64| #[trigger] done.contains(d) ==> d < key);
                assert(forall|k2: i64| #[trigger] tin.dom().contains(k2) ==> key <= k2);
            }
            if pcb.kill {
                // Reap: give the stack back and drop the control block.
                let ghost heap_pre = heap@;
                if heap.is_block_start(pcb.stack_pointer as usize) {
                    heap.kfree(pcb.stack_pointer as usize);
                }
                proof {
                    assert(free_step(heap_pre, heap@, pcb.stack_pointer as int));
                    lemma_frees_snoc(heap0, heap_pre, heap@, rptrs, pcb.stack_pointer as int);
                    let ghost rkeys0 = rkeys;
                    rptrs = rptrs.push(pcb.stack_pointer as int);
                    rkeys = rkeys.push(key);
                    assert(!eligible(t0[key], t0));
                    assert(t0[key].kill);
                    vstd::set::axiom_set_insert_len(done, key);
                    done = done.insert(key);
                    assert(self.schedule@ =~= t0.remove_keys(done));
                    assert(rkeys[rkeys.len() - 1] == key
                        && rptrs[rptrs.len() - 1] == t0[key].stack_pointer);
                    assert forall|d: i64| #[trigger] done.contains(d) && t0[d].kill
                        implies exists|j: int| 0 <= j < rkeys.len()
                            && #[trigger] rkeys[j] == d by {
                        if d == key {
                            assert(rkeys[rkeys.len() - 1] == d);
                        } else {
                            let j = choose|j: int| 0 <= j < rkeys0.len()
                                && #[trigger] rkeys0[j] == d;
                            assert(rkeys[j] == d);
                        }
                    }
                    assert forall|d: i64, k: i64| done.contains(d)
                        && #[trigger] self.schedule@.dom().contains(k)
                        implies d < k && #[trigger] trigger_key(d) by {
                        assert(tin.dom().contains(k) && k != key);
                    }
                }
            } else {
                let waits = pcb.waitpid != -1
                    && tree_pid_in_snapshot(&snapshot, Ghost(t0), pcb.waitpid);
                if waits || pcb.sleep > 0 {
                    // Set aside: waiting on a live process, or sleeping.
                    waiting.push(pcb);
                    proof {
                        assert(!eligible(t0[key], t0));
                        vstd::set::axiom_set_insert_len(done, key);
                        done = done.insert(key);
                        let ghost wkeys0 = wkeys;
                        wkeys = wkeys.push(key);
                        assert(wkeys[wkeys.len() - 1] == key);
                        assert(waiting@[waiting@.len() - 1] == t0[key]);
                        assert forall|d: i64| #[trigger] done.contains(d) implies t0[d].kill
                            || exists|j: int| 0 <= j < wkeys.len()
                                && #[trigger] wkeys[j] == d by {
                            if d == key {
                                assert(wkeys[wkeys.len() - 1] == d);
                            } else if !t0[d].kill {
                                let j = choose|j: int| 0 <= j < wkeys0.len()
                                    && #[trigger] wkeys0[j] == d;
                                assert(wkeys[j] == d);
                            }
                        }
                        assert(self.schedule@ =~= t0.remove_keys(done));
                        assert forall|d: i64, k: i64| done.contains(d)
                            && #[trigger] self.schedule@.dom().contains(k)
                            implies d < k && #[trigger] trigger_key(d) by {
                            assert(tin.dom().contains(k) && k != key);
                        }
                    }
                } else {
                    // Adopt: the first candidate neither killed, nor waiting
                    // on a live pid, nor sleeping.
                    pcb.waitpid = -1;
                    self.current = Some(pcb);
                    proof {
                        assert(eligible(t0[key], t0));
                        kw = Some(key);
                        assert(pcb == clear_wait(t0[key]));
                        assert(self.schedule@ =~= t0.remove_keys(done).remove(key));
                        assert forall|k: i64| #[trigger] t0.dom().contains(k) && k < key
                            implies done.contains(k) by {
                            if !done.contains(k) {
                                assert(tin.dom().contains(k));
                            }
                        }
                    }
                    break;
                }
            }
        }
        let ghost s1 = self.schedule@;
        proof {
            self.schedule.lemma_len();
            vstd::set_lib::lemma_len_subset(done, t0.dom());
            assert(s1.dom().subset_of(t0.dom())) by {
                assert forall|k: i64| s1.dom().contains(k) implies t0.dom().contains(k) by {}
            }
            vstd::set_lib::lemma_len_subset(s1.dom(), t0.dom());
            assert(s1.dom().len() + waiting@.len() < LEN_BOUND) by {
                lemma_scan_count(t0, s1, done, kw);
            }
            assert forall|k: i64| #[trigger] s1.dom().contains(k)
                implies s1[k] == t0[k] && Some(k) != kw && !done.contains(k) by {
                assert(t0.dom().contains(k));
            }
            assert forall|j: int| 0 <= j < wkeys.len()
                implies t0.dom().contains(#[trigger] wkeys[j]) && Some(wkeys[j]) != kw by {
                assert(done.contains(wkeys[j]));
            }
            assert forall|j1: int, j2: int| 0 <= j1 < j2 < waiting@.len()
                implies (#[trigger] waiting@[j1]).pid != (#[trigger] waiting@[j2]).pid by {
                assert(wkeys[j1] < wkeys[j2]);
                assert(waiting@[j1] == t0[wkeys[j1]] && waiting@[j2] == t0[wkeys[j2]]);
            }
            assert forall|j: int, k: i64| 0 <= j < waiting@.len()
                && #[trigger] self.schedule@.dom().contains(k)
                implies (#[trigger] waiting@[j]).pid != self.schedule@[k].pid by {
                assert(s1.dom().contains(k) && s1[k] == t0[k]);
                assert(!done.contains(k) && done.contains(wkeys[j]));
                assert(waiting@[j] == t0[wkeys[j]] && k != wkeys[j]);
            }
            assert forall|k1: i64, k2: i64|
                self.schedule@.dom().contains(k1) && self.schedule@.dom().contains(k2) && k1 != k2
                implies (#[trigger] self.schedule@[k1]).pid
                    != (#[trigger] self.schedule@[k2]).pid by {
                assert(s1[k1] == t0[k1] && s1[k2] == t0[k2]);
                assert(t0.dom().contains(k1) && t0.dom().contains(k2));
            }
            assert forall|k: i64| #[trigger] self.schedule@.dom().contains(k)
                implies 0 <= k < VR_BOUND + LEN_BOUND
                    && self.schedule@[k].vruntime <= k as u64
                    && pcb_ok(pre, self.schedule@[k]) by {
                assert(s1[k] == t0[k] && t0.dom().contains(k));
            }
            if kw is Some {
                let kwk = kw->Some_0;
                assert forall|k: i64| #[trigger] self.schedule@.dom().contains(k)
                    implies self.schedule@[k].pid != t0[kwk].pid by {
                    assert(s1[k] == t0[k] && t0.dom().contains(k) && k != kwk);
                }
                assert forall|j: int| 0 <= j < waiting@.len()
                    implies (#[trigger] waiting@[j]).pid != t0[kwk].pid by {
                    assert(waiting@[j] == t0[wkeys[j]] && wkeys[j] != kwk);
                }
            }
        }
        // Serve one tick of sleep to each set-aside candidate and put it
        // back at its recorded virtual runtime.
        let mut idx: usize = 0;
        while idx < waiting.len()
            invariant
                self.schedule.wf(),
                self.next_pid == pre.next_pid,
                pre.wf(),
                t0 == pre.schedule@,
                self.current == (match kw {
                    Some(kwk) => Some(clear_wait(t0[kwk])),
                    None => None::<PCB>,
                }),
                kw matches Some(kwk) ==> t0.dom().contains(kwk) && eligible(t0[kwk], t0),
                idx <= waiting@.len(),
                wkeys.len() == waiting@.len(),
                forall|j: int| 0 <= j < wkeys.len() ==> t0.dom().contains(#[trigger] wkeys[j])
                    && !t0[wkeys[j]].kill && waiting@[j] == t0[wkeys[j]]
                    && Some(wkeys[j]) != kw,
                forall|j1: int, j2: int| 0 <= j1 < j2 < wkeys.len()
                    ==> #[trigger] wkeys[j1] != #[trigger] wkeys[j2],
                self.schedule@.dom().len() == s1.dom().len() + idx,
                s1.dom().len() + waiting@.len() < LEN_BOUND,
                s1.dom().subset_of(t0.dom()),
                forall|k: i64| #[trigger] s1.dom().contains(k) ==> s1[k] == t0[k]
                    && Some(k) != kw,
                forall|k: i64| #[trigger] self.schedule@.dom().contains(k)
                    ==> 0 <= k < VR_BOUND + LEN_BOUND,
                forall|k: i64| self.schedule@.dom().contains(k)
                    ==> (#[trigger] self.schedule@[k]).vruntime <= k as u64,
                forall|k: i64| self.schedule@.dom().contains(k)
                    ==> pcb_ok(pre, #[trigger] self.schedule@[k]),
                forall|k1: i64, k2: i64|
                    self.schedule@.dom().contains(k1) && self.schedule@.dom().contains(k2)
                    && k1 != k2
                    ==> (#[trigger] self.schedule@[k1]).pid != (#[trigger] self.schedule@[k2]).pid,
                forall|j: int, k: i64| idx <= j < waiting@.len()
                    && #[trigger] self.schedule@.dom().contains(k)
                    ==> (#[trigger] waiting@[j]).pid != self.schedule@[k].pid,
                forall|j1: int, j2: int| 0 <= j1 < j2 < waiting@.len()
                    ==> (#[trigger] waiting@[j1]).pid != (#[trigger] waiting@[j2]).pid,
                self.current matches Some(c) ==> {
                    &&& (forall|k: i64| #[trigger] self.schedule@.dom().contains(k)
                            ==> self.schedule@[k].pid != c.pid)
                    &&& (forall|j: int| idx <= j < waiting@.len()
                            ==> (#[trigger] waiting@[j]).pid != c.pid)
                },
                forall|k: i64| #[trigger] s1.dom().contains(k)
                    ==> self.schedule@.dom().contains(k) && self.schedule@[k] == s1[k],
                forall|j: int| 0 <= j < idx
                    ==> #[trigger] reinserted(self.schedule@, waiting@[j]),
                forall|k2: i64| #[trigger] self.schedule@.dom().contains(k2)
                    ==> (s1.dom().contains(k2) && self.schedule@[k2] == s1[k2])
                        || from_waiting(self.schedule@[k2], waiting@, idx as int),
            decreases waiting@.len() - idx,
        {
            let mut w = waiting[idx];
            let ghost w0 = w;
            if w.sleep > 0 {
                w.sleep = w.sleep - 1;
            }
            proof {
                assert(w == dec_sleep(w0));
                assert(w0 == t0[wkeys[idx as int]]);
                assert(pcb_ok(pre, w0));
            }
            let ghost tree_before = self.schedule@;
            self.add_to_tree(w.vruntime, w);
            proof {
                let k2n = choose|k2n: i64| {
                    &&& 0 <= k2n && w.vruntime <= k2n as u64 && #[trigger] trigger_key(k2n)
                    &&& k2n < VR_BOUND + LEN_BOUND
                    &&& !tree_before.dom().contains(k2n)
                    &&& (forall|kk: i64| 0 <= kk < k2n && w.vruntime <= kk as u64
                            ==> tree_before.dom().contains(kk))
                    &&& self.schedule@ == tree_before.insert(k2n, w)
                };
                assert(self.schedule@.dom().contains(k2n)
                    && self.schedule@[k2n] == dec_sleep(waiting@[idx as int]));
                assert forall|k: i64| #[trigger] self.schedule@.dom().contains(k)
                    implies 0 <= k < VR_BOUND + LEN_BOUND by {
                    if k != k2n {
                        assert(tree_before.dom().contains(k));
                    }
                }
                assert forall|j: int| 0 <= j < idx + 1
                    implies #[trigger] reinserted(self.schedule@, waiting@[j]) by {
                    if j < idx {
                        assert(reinserted(tree_before, waiting@[j]));
                        let k2 = choose|k2: i64| tree_before.dom().contains(k2)
                            && #[trigger] tree_before[k2] == dec_sleep(waiting@[j]);
                        assert(self.schedule@.dom().contains(k2)
                            && self.schedule@[k2] == dec_sleep(waiting@[j]));
                    } else {
                        assert(self.schedule@[k2n] == dec_sleep(waiting@[j]));
                    }
                }
                assert forall|k2: i64| #[trigger] self.schedule@.dom().contains(k2)
                    implies (s1.dom().contains(k2) && self.schedule@[k2] == s1[k2])
                        || from_waiting(self.schedule@[k2], waiting@, idx + 1) by {
                    if k2 == k2n {
                        assert(self.schedule@[k2n] == dec_sleep(waiting@[idx as int]));
                        assert(from_waiting(self.schedule@[k2n], waiting@, idx + 1));
                    } else {
                        assert(tree_before.dom().contains(k2)
                            && tree_before[k2] == self.schedule@[k2]);
                        if !(s1.dom().contains(k2) && tree_before[k2] == s1[k2]) {
                            assert(from_waiting(tree_before[k2], waiting@, idx as int));
                            let j = choose|j: int| 0 <= j < idx
                                && tree_before[k2] == dec_sleep(#[trigger] waiting@[j]);
                            assert(from_waiting(self.schedule@[k2], waiting@, idx + 1));
                        }
                    }
                }
            }
            idx += 1;
        }
        proof {
            schedule_next_post(pre, *self, t0, s1, done, kw, wkeys, waiting@);
            assert(reap_post(t0, kw, heap0, heap@)) by {
                assert forall|j: int| 0 <= j < rptrs.len() implies exists|k: i64|
                    t0.dom().contains(k) && examined(kw, k) && (#[trigger] t0[k]).kill
                    && #[trigger] rptrs[j] == t0[k].stack_pointer by {
                    let k = rkeys[j];
                    assert(done.contains(k));
                    assert(examined(kw, k));
                    assert(t0.dom().contains(k) && t0[k].kill
                        && rptrs[j] == t0[k].stack_pointer);
                }
                assert forall|k: i64| t0.dom().contains(k) && (#[trigger] t0[k]).kill
                    && examined(kw, k)
                    implies exists|j: int| 0 <= j < rptrs.len()
                        && #[trigger] rptrs[j] == t0[k].stack_pointer by {
                    assert(done.contains(k)) by {
                        if kw is Some {
                            assert(k != kw->Some_0);
                        }
                    }
                    let j = choose|j: int| 0 <= j < rkeys.len() && #[trigger] rkeys[j] == k;
                    assert(rptrs[j] == t0[k].stack_pointer);
                }
            }
        }
        // Load the winner's context.
        match &self.current {
            Some(c) => {
                *ctx = c.context;
                proof {
                    let kwk = kw->Some_0;
                    assert(c.context@ == t0[kwk].context@ && c.pc == t0[kwk].pc);
                    assert(pick_post(pre.schedule@, *self, kw));
                }
                c.pc
            },
            None => {
                proof {
                    assert(pick_post(pre.schedule@, *self, kw));
                }
                mepc
            },
        }
    }
}

/// Counting the scan's outcome: what is left in the tree plus what was set
/// aside never exceeds what the scan started with.
proof fn lemma_scan_count(
    t0: Map<i64, PCB>, s1: Map<i64, PCB>, done: Set<i64>, kw: Option<i64>,
)
    requires
        t0.dom().finite(),
        done.finite(),
        done.subset_of(t0.dom()),
        t0.dom().len() < LEN_BOUND,
        kw is None ==> s1 == t0.remove_keys(done),
        kw matches Some(kwk) ==> s1 == t0.remove_keys(done).remove(kwk)
            && t0.dom().contains(kwk) && !done.contains(kwk),
    ensures
        s1.dom().len() + done.len() <= t0.dom().len(),
    decreases done.len(),
{
    if done.is_empty() {
        assert(t0.remove_keys(done) =~= t0);
        match kw {
            None => {},
            Some(kwk) => {
                vstd::set::axiom_set_remove_len(t0.dom(), kwk);
                assert(s1.dom() =~= t0.dom().remove(kwk));
            },
        }
    } else {
        let d = done.choose();
        assert(done.contains(d));
        let t0r = t0.remove(d);
        let doner = done.remove(d);
        vstd::set::axiom_set_remove_len(t0.dom(), d);
        vstd::set::axiom_set_remove_len(done, d);
        assert(t0r.dom() =~= t0.dom().remove(d));
        assert(t0r.remove_keys(doner) =~= t0.remove_keys(done));
        match kw {
            None => {
                lemma_scan_count(t0r, s1, doner, kw);
            },
            Some(kwk) => {
                assert(t0r.remove_keys(doner).remove(kwk) =~= s1);
                lemma_scan_count(t0r, s1, doner, kw);
            },
        }
    }
}

/// Stitch the scan's and the re-insertion's bookkeeping into the scheduling
/// decision's contract.
#[verifier::rlimit(100)]
proof fn schedule_next_post(
    pre: scheduler, post: scheduler, t0: Map<i64, PCB>, s1: Map<i64, PCB>, done: Set<i64>,
    kw: Option<i64>, wkeys: Seq<i64>, waiting: Seq<PCB>,
)
    requires
        t0 == pre.schedule@,
        pre.wf(),
        post.current == (match kw {
            Some(kwk) => Some(clear_wait(t0[kwk])),
            None => None::<PCB>,
        }),
        kw matches Some(kwk) ==> t0.dom().contains(kwk) && eligible(t0[kwk], t0),
        kw matches Some(kwk) ==> forall|k: i64| #[trigger] t0.dom().contains(k) && k < kwk
            ==> done.contains(k),
        kw matches Some(kwk) ==> forall|d: i64| #[trigger] done.contains(d) ==> d < kwk,
        kw is None ==> done == t0.dom(),
        forall|d: i64| #[trigger] done.contains(d) ==> !eligible(t0[d], t0),
        forall|d: i64| #[trigger] done.contains(d) ==> t0[d].kill
            || exists|j: int| 0 <= j < wkeys.len() && #[trigger] wkeys[j] == d,
        wkeys.len() == waiting.len(),
        forall|j: int| 0 <= j < wkeys.len() ==> t0.dom().contains(#[trigger] wkeys[j])
            && !t0[wkeys[j]].kill && waiting[j] == t0[wkeys[j]]
            && Some(wkeys[j]) != kw && done.contains(wkeys[j]),
        done.subset_of(t0.dom()),
        kw matches Some(kwk) ==> !done.contains(kwk),
        forall|k: i64| #[trigger] s1.dom().contains(k) ==> s1[k] == t0[k] && Some(k) != kw,
        kw is None ==> s1 == t0.remove_keys(done),
        kw matches Some(kwk) ==> s1 == t0.remove_keys(done).remove(kwk),
        forall|k: i64| #[trigger] s1.dom().contains(k)
            ==> post.schedule@.dom().contains(k) && post.schedule@[k] == s1[k],
        forall|j: int| 0 <= j < waiting.len()
            ==> #[trigger] reinserted(post.schedule@, waiting[j]),
        forall|k2: i64| #[trigger] post.schedule@.dom().contains(k2)
            ==> (s1.dom().contains(k2) && post.schedule@[k2] == s1[k2])
                || from_waiting(post.schedule@[k2], waiting, waiting.len() as int),
    ensures
        pick_post(t0, post, kw),
{
    reveal(pick_winner);
    reveal(pick_survivors);
    reveal(pick_sources);
    assert forall|k: i64| #![trigger t0.dom().contains(k)]
        t0.dom().contains(k) && Some(k) != kw && !t0[k].kill implies {
        if kw is Some && k > kw->Some_0 {
            post.schedule@.dom().contains(k) && post.schedule@[k] == t0[k]
        } else {
            exists|k2: i64| post.schedule@.dom().contains(k2)
                && #[trigger] post.schedule@[k2] == dec_sleep(t0[k])
        }
    } by {
        if kw is Some && k > kw->Some_0 {
            assert(!done.contains(k)) by {
                if done.contains(k) {
                    assert(exists|j: int| 0 <= j < wkeys.len() && #[trigger] wkeys[j] == k
                        || t0[k].kill);
                }
                if done.contains(k) && !t0[k].kill {
                    let j = choose|j: int| 0 <= j < wkeys.len() && #[trigger] wkeys[j] == k;
                    assert(done.contains(wkeys[j]));
                }
            }
            assert(s1.dom().contains(k) && s1[k] == t0[k]);
        } else {
            // The candidate was examined: it sits among the set-aside ones.
            assert(done.contains(k)) by {
                if kw is None {
                } else {
                    assert(k < kw->Some_0 || k == kw->Some_0 || k > kw->Some_0);
                }
            }
            let j = choose|j: int| 0 <= j < wkeys.len() && #[trigger] wkeys[j] == k;
            assert(waiting[j] == t0[k]);
            assert(reinserted(post.schedule@, waiting[j]));
            let k2 = choose|k2: i64| post.schedule@.dom().contains(k2)
                && #[trigger] post.schedule@[k2] == dec_sleep(waiting[j]);
            assert(post.schedule@[k2] == dec_sleep(t0[k]));
        }
    }
    assert forall|k2: i64| #![trigger post.schedule@.dom().contains(k2)]
        post.schedule@.dom().contains(k2) implies
        exists|k: i64| #![trigger t0.dom().contains(k)]
            t0.dom().contains(k) && Some(k) != kw && pcb_like(post.schedule@[k2], t0[k])
            && (!t0[k].kill || (kw is Some && k > kw->Some_0)) by {
        if s1.dom().contains(k2) && post.schedule@[k2] == s1[k2] {
            assert(!done.contains(k2));
            assert(!t0[k2].kill || (kw is Some && k2 > kw->Some_0)) by {
                if kw is None {
                    assert(done.contains(k2));
                } else {
                    let kwk = kw->Some_0;
                    assert(k2 != kwk);
                    if k2 < kwk {
                        assert(done.contains(k2));
                    }
                }
            }
            assert(t0.dom().contains(k2) && Some(k2) != kw
                && pcb_like(post.schedule@[k2], t0[k2]));
        } else {
            assert(from_waiting(post.schedule@[k2], waiting, waiting.len() as int));
            let j = choose|j: int| 0 <= j < waiting.len()
                && post.schedule@[k2] == dec_sleep(#[trigger] waiting[j]);
            let k = wkeys[j];
            assert(t0.dom().contains(k) && Some(k) != kw && !t0[k].kill
                && pcb_like(post.schedule@[k2], t0[k]));
        }
    }
}

/// Whether some snapshot entry carries the pid: the liveness test a waiting
/// process's target is judged by.
fn tree_pid_in_snapshot(snapshot: &Vec<(i64, PCB)>, Ghost(t0): Ghost<Map<i64, PCB>>, pid: i32)
    -> (r: bool)
    requires
        forall|j: int| 0 <= j < snapshot@.len() ==>
            t0.dom().contains((#[trigger] snapshot@[j]).0)
            && snapshot@[j].1 == t0[snapshot@[j].0],
        forall|k: i64| t0.dom().contains(k)
            ==> exists|j: int| 0 <= j < snapshot@.len() && (#[trigger] snapshot@[j]).0 == k,
    ensures
        r == tree_has_pid_spec(t0, pid),
{
    let mut j: usize = 0;
    while j < snapshot.len()
        invariant
            forall|i: int| 0 <= i < snapshot@.len() ==>
                t0.dom().contains((#[trigger] snapshot@[i]).0)
                && snapshot@[i].1 == t0[snapshot@[i].0],
            forall|k: i64| t0.dom().contains(k)
                ==> exists|i: int| 0 <= i < snapshot@.len() && (#[trigger] snapshot@[i]).0 == k,
            j <= snapshot@.len(),
            forall|i: int| 0 <= i < j ==> (#[trigger] snapshot@[i]).1.pid != pid,
        decreases snapshot@.len() - j,
    {
        if snapshot[j].1.pid == pid {
            return true;
        }
        j += 1;
    }
    proof {
        assert forall|k: i64| t0.dom().contains(k)
            implies (#[trigger] t0[k]).pid != pid by {
            let i = choose|i: int| 0 <= i < snapshot@.len() && (#[trigger] snapshot@[i]).0 == k;
            assert(snapshot@[i].1.pid != pid);
        }
    }
    false
}

/// Marker used to pin the witness key of an insertion.
pub open spec fn trigger_key(k: i64) -> bool {
    true
}

/// `post` is `pre` with exactly the live process `p` of pid `pid` marked
/// killed, wherever it sat.
pub open spec fn is_killed_version(pre: scheduler, post: scheduler, pid: i32, p: PCB) -> bool {
    ||| (pre.current matches Some(c) && c.pid == pid
            && p == PCB { kill: true, ..c }
            && post == scheduler { current: Some(p), ..pre })
    ||| (exists|k: i64| pre.schedule@.dom().contains(k) && (#[trigger] pre.schedule@[k]).pid == pid
            && p == PCB { kill: true, ..pre.schedule@[k] }
            && post.current == pre.current && post.next_pid == pre.next_pid
            && post.schedule@ == pre.schedule@.insert(k, p))
}

} // verus!

verus! {

/// `c2` is `c` as descheduled by a tick: the live context and the trap
/// return pc saved into it, its virtual runtime advanced by its quantum
/// multiplier, all else unchanged.
pub open spec fn descheduled(c: PCB, ctx0: Seq<u32>, mepc: u32, c2: PCB) -> bool {
    &&& c2.context@ == ctx0
    &&& c2.pc == mepc
    &&& c2.vruntime == c.vruntime + c.QM
    &&& c2.QM == c.QM
    &&& c2.pid == c.pid
    &&& c2.stack_size == c.stack_size
    &&& c2.stack_pointer == c.stack_pointer
    &&& c2.name == c.name
    &&& c2.kill == c.kill
    &&& c2.waitpid == c.waitpid
    &&& c2.sleep == c.sleep
}

/// The descheduled current process `c2` entered the scan tree `t0` at the
/// fresh key `kc`, at or above its advanced virtual runtime.
pub open spec fn tick_step(
    pre: scheduler, ctx0: Seq<u32>, mepc: u32, t0: Map<i64, PCB>, kc: i64, c2: PCB,
) -> bool {
    &&& (pre.current matches Some(c) && descheduled(c, ctx0, mepc, c2))
    &&& 0 <= kc
    &&& !pre.schedule@.dom().contains(kc)
    &&& c2.vruntime <= kc as u64
    &&& (forall|kk: i64| 0 <= kk < kc && c2.vruntime <= kk as u64
            ==> pre.schedule@.dom().contains(kk))
    &&& t0 == pre.schedule@.insert(kc, c2)
}

/// The tree a tick's scheduling decision scans: the pre-tick ready tree,
/// with the descheduled current process inserted at a fresh key at or above
/// its advanced virtual runtime.
pub open spec fn tick_tree(pre: scheduler, ctx0: Seq<u32>, mepc: u32, t0: Map<i64, PCB>) -> bool {
    match pre.current {
        None => t0 == pre.schedule@,
        Some(c) => exists|kc: i64, c2: PCB| #[trigger] tick_step(pre, ctx0, mepc, t0, kc, c2),
    }
}

/// `post` follows from `pre` by one timer tick: the current process was
/// saved and re-inserted, and one scheduling decision ran over the result.
pub open spec fn tick_rel(pre: scheduler, post: scheduler) -> bool {
    exists|ctx0: Seq<u32>, mepc: u32, t0: Map<i64, PCB>, kw: Option<i64>|
        #![trigger tick_tree(pre, ctx0, mepc, t0), pick_post(t0, post, kw)]
    {
        &&& tick_tree(pre, ctx0, mepc, t0)
        &&& pick_post(t0, post, kw)
    }
}

/// Inserting the descheduled current process keeps the scheduler invariant.
proof fn deschedule_wf(pre: scheduler, post: scheduler, kc: i64, c2: PCB)
    requires
        pre.wf(),
        pre.current matches Some(c) && c2.pid == c.pid && c2.vruntime < VR_BOUND,
        post.next_pid == pre.next_pid,
        post.current is None,
        post.schedule.wf(),
        0 <= kc < VR_BOUND + LEN_BOUND,
        !pre.schedule@.dom().contains(kc),
        c2.vruntime <= kc as u64,
        post.schedule@ == pre.schedule@.insert(kc, c2),
        post.schedule@.dom().len() == pre.schedule@.dom().len() + 1,
        post.schedule@.dom().len() < LEN_BOUND,
    ensures
        post.wf(),
{
    let c = pre.current->Some_0;
    assert forall|k: i64| #[trigger] post.schedule@.dom().contains(k)
        implies 0 <= k < VR_BOUND + LEN_BOUND by {
        if k != kc {
            assert(pre.schedule@.dom().contains(k));
        }
    }
    assert forall|k: i64| post.schedule@.dom().contains(k)
        implies (#[trigger] post.schedule@[k]).vruntime <= k as u64 by {
        if k != kc {
            assert(pre.schedule@.dom().contains(k));
            assert(post.schedule@[k] == pre.schedule@[k]);
        }
    }
    assert forall|k: i64| post.schedule@.dom().contains(k)
        implies pcb_ok(post, #[trigger] post.schedule@[k]) by {
        if k != kc {
            assert(pre.schedule@.dom().contains(k));
            assert(post.schedule@[k] == pre.schedule@[k]);
            assert(pcb_ok(pre, pre.schedule@[k]));
        } else {
            assert(pcb_ok(pre, c));
        }
    }
    assert(pids_unique(post)) by {
        assert forall|ka: i64, kb: i64|
            post.schedule@.dom().contains(ka) && post.schedule@.dom().contains(kb) && ka != kb
            implies (#[trigger] post.schedule@[ka]).pid != (#[trigger] post.schedule@[kb]).pid by {
            if ka != kc && kb != kc {
                assert(pre.schedule@.dom().contains(ka) && pre.schedule@.dom().contains(kb));
            } else if ka == kc {
                assert(pre.schedule@.dom().contains(kb));
                assert(pre.schedule@[kb].pid != c.pid);
            } else {
                assert(pre.schedule@.dom().contains(ka));
                assert(pre.schedule@[ka].pid != c.pid);
            }
        }
    }
}

impl scheduler {
    /// One timer tick. If a process is current, its live context and trap
    /// return pc are saved into its control block, its virtual runtime
    /// advances by its quantum multiplier, and it goes back into the ready
    /// tree; then one scheduling decision runs and the chosen process's
    /// saved context is loaded and its saved pc returned. The caller re-arms
    /// the machine timer around this call.
    pub fn update_schedule(&mut self, heap: &mut Heap, ctx: &mut [u32; 32], mepc: u32) -> (r: u32)
        requires
            old(self).wf(),
            old(heap).wf(),
            old(self).current matches Some(c) ==> c.vruntime + c.QM < VR_BOUND,
            old(self).current is Some ==> old(self).schedule@.dom().len() + 1 < LEN_BOUND,
        ensures
            final(self).wf(),
            final(heap).wf(),
            final(heap)@.len() == old(heap)@.len(),
            final(self).next_pid == old(self).next_pid,
            tick_rel(*old(self), *final(self)),
            exists|t0: Map<i64, PCB>, kw: Option<i64>|
                #![trigger tick_tree(*old(self), old(ctx)@, mepc, t0),
                    pick_post(t0, *final(self), kw)]
            {
                &&& tick_tree(*old(self), old(ctx)@, mepc, t0)
                &&& pick_post(t0, *final(self), kw)
                &&& reap_post(t0, kw, old(heap)@, final(heap)@)
                &&& match kw {
                    Some(kwk) => final(ctx)@ == t0[kwk].context@ && r == t0[kwk].pc,
                    None => final(ctx)@ == old(ctx)@ && r == mepc,
                }
            },
    {
        let cur = self.current;
        if let Some(mut c) = cur {
            let ghost c_pre = c;
            c.context = *ctx;
            c.pc = mepc;
            c.vruntime = c.vruntime + (c.QM as u64);
            self.current = None;
            proof {
                self.schedule.lemma_len();
                assert(descheduled(c_pre, old(ctx)@, mepc, c));
            }
            let ghost mid_pre = *self;
            self.add_to_tree(c.vruntime, c);
            proof {
                self.schedule.lemma_len();
                let kc = choose|kc: i64| {
                    &&& 0 <= kc && c.vruntime <= kc as u64 && #[trigger] trigger_key(kc)
                    &&& kc < VR_BOUND + LEN_BOUND
                    &&& !old(self).schedule@.dom().contains(kc)
                    &&& (forall|kk: i64| 0 <= kk < kc && c.vruntime <= kk as u64
                            ==> old(self).schedule@.dom().contains(kk))
                    &&& self.schedule@ == old(self).schedule@.insert(kc, c)
                };
                deschedule_wf(*old(self), *self, kc, c);
                assert(tick_tree(*old(self), old(ctx)@, mepc, self.schedule@)) by {
                    assert(tick_step(*old(self), old(ctx)@, mepc, self.schedule@, kc, c));
                }
            }
        } else {
            proof {
                assert(tick_tree(*old(self), old(ctx)@, mepc, self.schedule@));
            }
        }
        let ghost t0 = self.schedule@;
        let ghost mid = *self;
        let ghost heap_mid = heap@;
        let r = self.schedule_next(heap, ctx, mepc);
        proof {
            let kw = choose|kw: Option<i64>| {
                &&& #[trigger] pick_post(mid.schedule@, *self, kw)
                &&& reap_post(mid.schedule@, kw, heap_mid, heap@)
                &&& match kw {
                    Some(kwk) => ctx@ == mid.schedule@[kwk].context@ && r == mid.schedule@[kwk].pc,
                    None => ctx@ == old(ctx)@ && r == mepc,
                }
            };
            assert(tick_tree(*old(self), old(ctx)@, mepc, t0) && pick_post(t0, *self, kw)
                && reap_post(t0, kw, old(heap)@, heap@));
        }
        r
    }
}

} // verus!

verus! {

/// The pids of processes that are running (current) right now.
pub open spec fn running_pids(s: scheduler) -> Set<i32> {
    match s.current {
        None => Set::empty(),
        Some(c) => Set::empty().insert(c.pid),
    }
}

/// At most one process is current at any time, and its pid belongs to no
/// entry of the ready tree.
pub proof fn lemma_at_most_one_current(s: scheduler)
    requires
        s.wf(),
    ensures
        running_pids(s).finite(),
        running_pids(s).len() <= 1,
        forall|pid: i32| #[trigger] running_pids(s).contains(pid)
            ==> !tree_has_pid_spec(s.schedule@, pid),
{
    match s.current {
        None => {
            assert(running_pids(s).len() == 0);
        },
        Some(c) => {
            vstd::set::axiom_set_insert_len(Set::<i32>::empty(), c.pid);
            assert forall|pid: i32| #[trigger] running_pids(s).contains(pid)
                implies !tree_has_pid_spec(s.schedule@, pid) by {
                if tree_has_pid_spec(s.schedule@, pid) {
                    let k = choose|k: i64| s.schedule@.dom().contains(k)
                        && (#[trigger] s.schedule@[k]).pid == pid;
                    assert(s.schedule@[k].pid != c.pid);
                }
            }
        },
    }
}

/// One tick never schedules a process that is asleep, and serves it at most
/// one tick of sleep: it stays in the ready tree, still itself, one tick
/// closer to waking.
#[verifier::rlimit(100)]
#[verifier::spinoff_prover]
pub proof fn lemma_tick_respects_sleep(pre: scheduler, post: scheduler, k: i64)
    requires
        pre.wf(),
        tick_rel(pre, post),
        pre.schedule@.dom().contains(k),
        pre.schedule@[k].sleep > 0,
        !pre.schedule@[k].kill,
    ensures
        post.current matches Some(c) ==> c.pid != pre.schedule@[k].pid,
        exists|k2: i64| #![trigger post.schedule@[k2]] {
            let p = pre.schedule@[k];
            let q = post.schedule@[k2];
            &&& post.schedule@.dom().contains(k2)
            &&& q.pid == p.pid
            &&& p.sleep - 1 <= q.sleep <= p.sleep
            &&& q.kill == p.kill
            &&& q.waitpid == p.waitpid
            &&& q.QM == p.QM
        },
{
    let p = pre.schedule@[k];
    let (ctx0, mepc, t0, kw) = choose|ctx0: Seq<u32>, mepc: u32, t0: Map<i64, PCB>,
        kw: Option<i64>| #![trigger tick_tree(pre, ctx0, mepc, t0), pick_post(t0, post, kw)]
        tick_tree(pre, ctx0, mepc, t0) && pick_post(t0, post, kw);
    reveal(pick_winner);
    reveal(pick_survivors);
    assert(t0.dom().contains(k) && t0[k] == p) by {
        match pre.current {
            None => {},
            Some(c) => {
                let (kc, c2) = choose|kc: i64, c2: PCB|
                    #[trigger] tick_step(pre, ctx0, mepc, t0, kc, c2);
                assert(k != kc);
            },
        }
    }
    assert(!eligible(t0[k], t0));
    assert(Some(k) != kw) by {
        if kw is Some && kw->Some_0 == k {
            assert(eligible(t0[kw->Some_0], t0));
        }
    }
    assert(!t0[k].kill);
    let k2 = if kw is Some && k > kw->Some_0 {
        k
    } else {
        choose|k2: i64| post.schedule@.dom().contains(k2)
            && #[trigger] post.schedule@[k2] == dec_sleep(t0[k])
    };
    assert(post.schedule@.dom().contains(k2) && pcb_like(post.schedule@[k2], t0[k]));
    assert(post.schedule@[k2].pid == p.pid
        && p.sleep - 1 <= post.schedule@[k2].sleep <= p.sleep
        && post.schedule@[k2].kill == p.kill
        && post.schedule@[k2].waitpid == p.waitpid
        && post.schedule@[k2].QM == p.QM);
    match post.current {
        None => {},
        Some(c) => {
            let kwk = kw->Some_0;
            assert(c == clear_wait(t0[kwk]));
            assert(c.pid != p.pid) by {
                if c.pid == p.pid {
                    tick_tree_pids_unique(pre, ctx0, mepc, t0);
                    assert(t0[kwk].pid == t0[k].pid && kwk != k);
                }
            }
        },
    }
}

/// One tick never schedules a process that waits on a pid that is live when
/// the tick begins: it stays in the ready tree, still waiting.
#[verifier::rlimit(100)]
#[verifier::spinoff_prover]
pub proof fn lemma_tick_respects_waitpid(pre: scheduler, post: scheduler, k: i64)
    requires
        pre.wf(),
        tick_rel(pre, post),
        pre.schedule@.dom().contains(k),
        pre.schedule@[k].waitpid != -1,
        live_pid(pre, pre.schedule@[k].waitpid),
        !pre.schedule@[k].kill,
    ensures
        post.current matches Some(c) ==> c.pid != pre.schedule@[k].pid,
        exists|k2: i64| #![trigger post.schedule@[k2]] {
            let p = pre.schedule@[k];
            let q = post.schedule@[k2];
            &&& post.schedule@.dom().contains(k2)
            &&& q.pid == p.pid
            &&& q.waitpid == p.waitpid
            &&& q.kill == p.kill
            &&& q.QM == p.QM
        },
{
    let p = pre.schedule@[k];
    let (ctx0, mepc, t0, kw) = choose|ctx0: Seq<u32>, mepc: u32, t0: Map<i64, PCB>,
        kw: Option<i64>| #![trigger tick_tree(pre, ctx0, mepc, t0), pick_post(t0, post, kw)]
        tick_tree(pre, ctx0, mepc, t0) && pick_post(t0, post, kw);
    reveal(pick_winner);
    reveal(pick_survivors);
    assert(t0.dom().contains(k) && t0[k] == p && tree_has_pid_spec(t0, p.waitpid)) by {
        match pre.current {
            None => {
                assert(tree_has_pid_spec(pre.schedule@, p.waitpid));
            },
            Some(c) => {
                let (kc, c2) = choose|kc: i64, c2: PCB|
                    #[trigger] tick_step(pre, ctx0, mepc, t0, kc, c2);
                assert(k != kc);
                assert(c2.pid == c.pid);
                if c.pid == p.waitpid {
                    assert(t0.dom().contains(kc) && t0[kc].pid == p.waitpid);
                } else {
                    let kq = choose|kq: i64| pre.schedule@.dom().contains(kq)
                        && (#[trigger] pre.schedule@[kq]).pid == p.waitpid;
                    assert(t0.dom().contains(kq) && t0[kq].pid == p.waitpid);
                }
            },
        }
    }
    assert(!eligible(t0[k], t0));
    assert(Some(k) != kw) by {
        if kw is Some && kw->Some_0 == k {
            assert(eligible(t0[kw->Some_0], t0));
        }
    }
    let k2 = if kw is Some && k > kw->Some_0 {
        k
    } else {
        choose|k2: i64| post.schedule@.dom().contains(k2)
            && #[trigger] post.schedule@[k2] == dec_sleep(t0[k])
    };
    assert(post.schedule@.dom().contains(k2) && pcb_like(post.schedule@[k2], t0[k]));
    match post.current {
        None => {},
        Some(c) => {
            let kwk = kw->Some_0;
            assert(c == clear_wait(t0[kwk]));
            assert(c.pid != p.pid) by {
                if c.pid == p.pid {
                    tick_tree_pids_unique(pre, ctx0, mepc, t0);
                    assert(t0[kwk].pid == t0[k].pid && kwk != k);
                }
            }
        },
    }
}

/// The scan tree of a tick carries distinct pids, like the scheduler state
/// it came from.
proof fn tick_tree_pids_unique(pre: scheduler, ctx0: Seq<u32>, mepc: u32, t0: Map<i64, PCB>)
    requires
        pre.wf(),
        tick_tree(pre, ctx0, mepc, t0),
    ensures
        forall|k1: i64, k2: i64|
            t0.dom().contains(k1) && t0.dom().contains(k2) && k1 != k2
            ==> (#[trigger] t0[k1]).pid != (#[trigger] t0[k2]).pid,
{
    match pre.current {
        None => {},
        Some(c) => {
            let (kc, c2) = choose|kc: i64, c2: PCB|
                #[trigger] tick_step(pre, ctx0, mepc, t0, kc, c2);
            assert(c2.pid == c.pid);
            assert forall|k1: i64, k2: i64|
                t0.dom().contains(k1) && t0.dom().contains(k2) && k1 != k2
                implies (#[trigger] t0[k1]).pid != (#[trigger] t0[k2]).pid by {
                if k1 != kc && k2 != kc {
                    assert(pre.schedule@.dom().contains(k1)
                        && pre.schedule@.dom().contains(k2));
                } else if k1 == kc {
                    assert(pre.schedule@.dom().contains(k2));
                    assert(pre.schedule@[k2].pid != c.pid);
                } else {
                    assert(pre.schedule@.dom().contains(k1));
                    assert(pre.schedule@[k1].pid != c.pid);
                }
            }
        },
    }
}

/// A process that goes to sleep for `n` ticks is not scheduled for at least
/// `n` ticks: over any run of consecutive well-formed tick states, a process
/// sitting in the ready tree with `sleep >= n` and not marked killed is
/// never the current process of the first `n` successor states.
#[verifier::rlimit(100)]
#[verifier::spinoff_prover]
pub proof fn lemma_sleep_holds_off_scheduling(states: Seq<scheduler>, pid: i32, k: i64, n: int)
    requires
        states.len() >= 1,
        forall|i: int| 0 <= i < states.len() ==> (#[trigger] states[i]).wf(),
        forall|i: int| 0 <= i < states.len() - 1 ==> tick_rel(#[trigger] states[i], states[i + 1]),
        states[0].schedule@.dom().contains(k),
        states[0].schedule@[k].pid == pid,
        states[0].schedule@[k].sleep >= n,
        !states[0].schedule@[k].kill,
        n >= 1,
    ensures
        forall|i: int| 1 <= i <= n && i < states.len()
            ==> ((#[trigger] states[i]).current matches Some(c) ==> c.pid != pid),
    decreases states.len(),
{
    if states.len() >= 2 {
        let p = states[0].schedule@[k];
        lemma_tick_respects_sleep(states[0], states[1], k);
        assert(states[1].current matches Some(c) ==> c.pid != pid);
        let k2 = choose|k2: i64| #![trigger states[1].schedule@[k2]] {
            let q = states[1].schedule@[k2];
            &&& states[1].schedule@.dom().contains(k2)
            &&& q.pid == p.pid
            &&& p.sleep - 1 <= q.sleep <= p.sleep
            &&& q.kill == p.kill
            &&& q.waitpid == p.waitpid
            &&& q.QM == p.QM
        };
        if n >= 2 {
            let tail = states.skip(1);
            assert(tail.len() == states.len() - 1);
            assert(forall|i: int| 0 <= i < tail.len() ==> #[trigger] tail[i] == states[i + 1]);
            lemma_sleep_holds_off_scheduling(tail, pid, k2, n - 1);
            assert forall|i: int| 1 <= i <= n && i < states.len()
                implies ((#[trigger] states[i]).current matches Some(c) ==> c.pid != pid) by {
                if i >= 2 {
                    assert(tail[i - 1] == states[i]);
                    assert(tail[i - 1].current matches Some(c) ==> c.pid != pid);
                }
            }
        }
    }
}

/// A process waiting on pid `q` is not scheduled while a live process
/// carries pid `q`: over any run of consecutive well-formed tick states in
/// which `q` stays live, a process sitting in the ready tree waiting on `q`
/// and not marked killed is never scheduled.
#[verifier::rlimit(100)]
#[verifier::spinoff_prover]
pub proof fn lemma_waitpid_holds_off_scheduling(states: Seq<scheduler>, pid: i32, k: i64, q: i32)
    requires
        states.len() >= 1,
        forall|i: int| 0 <= i < states.len() ==> (#[trigger] states[i]).wf(),
        forall|i: int| 0 <= i < states.len() - 1 ==> tick_rel(#[trigger] states[i], states[i + 1]),
        forall|i: int| 0 <= i < states.len() - 1 ==> live_pid(#[trigger] states[i], q),
        states[0].schedule@.dom().contains(k),
        states[0].schedule@[k].pid == pid,
        states[0].schedule@[k].waitpid == q,
        q != -1,
        !states[0].schedule@[k].kill,
    ensures
        forall|i: int| 1 <= i < states.len()
            ==> ((#[trigger] states[i]).current matches Some(c) ==> c.pid != pid),
    decreases states.len(),
{
    if states.len() >= 2 {
        let p = states[0].schedule@[k];
        lemma_tick_respects_waitpid(states[0], states[1], k);
        assert(states[1].current matches Some(c) ==> c.pid != pid);
        let k2 = choose|k2: i64| #![trigger states[1].schedule@[k2]] {
            let w = states[1].schedule@[k2];
            &&& states[1].schedule@.dom().contains(k2)
            &&& w.pid == p.pid
            &&& w.waitpid == p.waitpid
            &&& w.kill == p.kill
            &&& w.QM == p.QM
        };
        let tail = states.skip(1);
        assert(tail.len() == states.len() - 1);
        assert(forall|i: int| 0 <= i < tail.len() ==> #[trigger] tail[i] == states[i + 1]);
        lemma_waitpid_holds_off_scheduling(tail, pid, k2, q);
        assert forall|i: int| 1 <= i < states.len()
            implies ((#[trigger] states[i]).current matches Some(c) ==> c.pid != pid) by {
            if i >= 2 {
                assert(tail[i - 1] == states[i]);
                assert(tail[i - 1].current matches Some(c) ==> c.pid != pid);
            }
        }
    }
}

} // verus!
