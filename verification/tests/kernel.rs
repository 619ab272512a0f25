use kcore::heap::Heap;
use kcore::sched::scheduler;
use kcore::syscalls;
use kcore::syscalls::ModeSwitch;
use kcore::trap;
use kcore::trap::TrapOutcome;

const TIMER_CAUSE: u32 = 0x8000_0007;

fn fresh_kernel() -> (scheduler, Heap, [u32; 32]) {
    (scheduler::new(), Heap::heap_init(14208 / 4), [0u32; 32])
}

fn tick(s: &mut scheduler, h: &mut Heap, ctx: &mut [u32; 32]) {
    let (_mepc, outcome) = trap::handle_trap(s, h, ctx, TIMER_CAUSE, 0x1000, 0, 0);
    assert!(matches!(outcome, TrapOutcome::Timer));
}

fn current_pid(s: &scheduler) -> i32 {
    match &s.current {
        Some(c) => c.pid,
        None => -1,
    }
}

/// Two always-runnable processes with quanta 1 and 2 split 300 ticks about
/// 200 to 100: virtual time advances twice as fast for the heavier quantum.
#[test]
fn fair_split_by_quantum() {
    let (mut s, mut h, mut ctx) = fresh_kernel();
    let pid_a = s.new_process(&mut h, 512, 0x2000, 1, 0, 0, 0);
    let pid_b = s.new_process(&mut h, 512, 0x3000, 2, 0, 0, 0);
    assert_eq!(pid_a, 0);
    assert_eq!(pid_b, 1);
    let mut a_runs = 0u32;
    let mut b_runs = 0u32;
    for _ in 0..300 {
        tick(&mut s, &mut h, &mut ctx);
        let p = current_pid(&s);
        if p == pid_a {
            a_runs += 1;
        } else if p == pid_b {
            b_runs += 1;
        }
    }
    assert_eq!(a_runs + b_runs, 300);
    assert!(a_runs >= 190 && a_runs <= 210, "a_runs = {}", a_runs);
    assert!(b_runs >= 90 && b_runs <= 110, "b_runs = {}", b_runs);
}

/// A process that sleeps one second is kept off the processor for at least
/// one hundred ticks, then runs again shortly after its sleep is served.
#[test]
fn sleep_holds_a_process_off() {
    let (mut s, mut h, mut ctx) = fresh_kernel();
    let pid_a = s.new_process(&mut h, 512, 0x2000, 1, 0, 0, 0);
    let pid_b = s.new_process(&mut h, 512, 0x3000, 1, 0, 0, 0);
    assert!(pid_a >= 0 && pid_b >= 0);
    // Run until A is current, then let it ask for one second of sleep.
    while current_pid(&s) != pid_a {
        tick(&mut s, &mut h, &mut ctx);
    }
    let r = syscalls::do_syscall(&mut s, &mut h, syscalls::SLEEP, 1, 0, 0, 0, 0, 0);
    assert_eq!(r, 0);
    // For the next hundred ticks, A never runs.
    for _ in 0..100 {
        tick(&mut s, &mut h, &mut ctx);
        assert_ne!(current_pid(&s), pid_a);
    }
    // Its sleep served, A runs again within a few more ticks.
    let mut woke = false;
    for _ in 0..5 {
        tick(&mut s, &mut h, &mut ctx);
        if current_pid(&s) == pid_a {
            woke = true;
            break;
        }
    }
    assert!(woke);
}

/// A process waiting on another is never scheduled while the target lives,
/// and resumes promptly once the target has exited and been reaped.
#[test]
fn waitpid_blocks_until_exit() {
    let (mut s, mut h, mut ctx) = fresh_kernel();
    let pid_init = s.new_process(&mut h, 512, 0x2000, 1, 0, 0, 0);
    assert!(pid_init >= 0);
    // Run until init is current; init spawns A and waits on it.
    while current_pid(&s) != pid_init {
        tick(&mut s, &mut h, &mut ctx);
    }
    let pid_a = syscalls::do_syscall(&mut s, &mut h, syscalls::SPAWN, 512, 0x3000, 1, 0, 0, 0);
    assert!(pid_a != u32::MAX);
    let r = syscalls::do_syscall(&mut s, &mut h, syscalls::WAITPID, pid_a, 0, 0, 0, 0, 0);
    assert_eq!(r, 0);
    // While A lives, init is never scheduled; A runs every tick.
    for _ in 0..50 {
        tick(&mut s, &mut h, &mut ctx);
        assert_ne!(current_pid(&s), pid_init);
    }
    assert_eq!(current_pid(&s), pid_a as i32);
    // A exits; after it is reaped, init resumes by the next tick.
    let r = syscalls::do_syscall(&mut s, &mut h, syscalls::EXIT, 0, 0, 0, 0, 0, 0);
    assert_eq!(r, 0);
    let mut resumed_after = 0;
    for i in 1..=3 {
        tick(&mut s, &mut h, &mut ctx);
        if current_pid(&s) == pid_init {
            resumed_after = i;
            break;
        }
    }
    assert!(resumed_after >= 1 && resumed_after <= 3, "resumed_after = {}", resumed_after);
    assert_eq!(syscalls::do_syscall(&mut s, &mut h, syscalls::NPROC, 0, 0, 0, 0, 0, 0), 1);
}

/// Killing a pid that does not exist reports an error and changes nothing.
#[test]
fn kill_unknown_pid_fails_cleanly() {
    let (mut s, mut h, mut ctx) = fresh_kernel();
    let pid_a = s.new_process(&mut h, 512, 0x2000, 1, 0, 0, 0);
    assert!(pid_a >= 0);
    tick(&mut s, &mut h, &mut ctx);
    let n0 = syscalls::do_syscall(&mut s, &mut h, syscalls::NPROC, 0, 0, 0, 0, 0, 0);
    let r = syscalls::do_syscall(&mut s, &mut h, syscalls::KILL, 999, 0, 0, 0, 0, 0);
    assert_ne!(r, 0);
    let n1 = syscalls::do_syscall(&mut s, &mut h, syscalls::NPROC, 0, 0, 0, 0, 0, 0);
    assert_eq!(n0, n1);
    assert_eq!(n1, 1);
}

/// Killing a live pid succeeds; the victim is reaped at the next decision
/// and the population drops.
#[test]
fn kill_live_pid_reaps() {
    let (mut s, mut h, mut ctx) = fresh_kernel();
    let pid_a = s.new_process(&mut h, 512, 0x2000, 1, 0, 0, 0);
    let pid_b = s.new_process(&mut h, 512, 0x3000, 1, 0, 0, 0);
    assert!(pid_a >= 0 && pid_b >= 0);
    tick(&mut s, &mut h, &mut ctx);
    assert_eq!(s.nproc(), 2);
    let r = syscalls::do_syscall(&mut s, &mut h, syscalls::KILL, pid_b as u32, 0, 0, 0, 0, 0);
    assert_eq!(r, 0);
    assert_eq!(s.nproc(), 2);
    for _ in 0..3 {
        tick(&mut s, &mut h, &mut ctx);
    }
    assert_eq!(s.nproc(), 1);
    assert!(!s.tree_has_pid(pid_b));
}

/// Spawn sets up the control block, the listing shows every live process,
/// and the population count agrees.
#[test]
fn spawn_and_listing() {
    let (mut s, mut h, mut ctx) = fresh_kernel();
    let pid_a = s.new_process(&mut h, 512, 0x2000, 1, 0, 0, 0x7777);
    assert_eq!(pid_a, 0);
    assert_eq!(s.nproc(), 1);
    let pcb = s.get_pcb(pid_a).unwrap();
    assert_eq!(pcb.pc, 0x2000);
    assert_eq!(pcb.QM, 1);
    assert_eq!(pcb.name, 0x7777);
    assert!(!pcb.kill);
    assert_eq!(pcb.waitpid, -1);
    assert_eq!(pcb.sleep, 0);
    tick(&mut s, &mut h, &mut ctx);
    assert_eq!(current_pid(&s), pid_a);
    // The restored context carries the stack pointer register at stack top.
    assert_eq!(ctx[2], pcb.stack_pointer + 512 / 4);
    let infos = s.collect_all_procs();
    assert_eq!(infos.len(), 1);
    assert_eq!(infos[0].pid, pid_a);
    // A spawn that cannot fit a stack fails with -1 and changes nothing.
    let bad = s.new_process(&mut h, 131072, 0x2000, 1, 0, 0, 0);
    assert_eq!(bad, -1);
    // A zero quantum multiplier is rejected.
    assert_eq!(s.new_process(&mut h, 512, 0x2000, 0, 0, 0, 0), -1);
    assert_eq!(s.nproc(), 1);
}

/// Spawn copies the handed words to the top of the new stack and points the
/// argument registers at them.
#[test]
fn spawn_copies_data_to_stack_top() {
    let (mut s, mut h, _ctx) = fresh_kernel();
    // Stage two data words in a scratch allocation.
    let src = h.kmalloc(8).unwrap();
    assert!(h.write_user_word(src, 0xAABBCCDD));
    assert!(!h.write_user_word(0, 1));
    let pid = s.new_process(&mut h, 64, 0x2000, 1, src as u32, 2, 0);
    assert!(pid >= 0);
    let pcb = s.get_pcb(pid).unwrap();
    let words = 64 / 4;
    let dst = pcb.context[10] as usize;
    assert_eq!(dst, pcb.stack_pointer as usize + words - 2);
    assert_eq!(pcb.context[11], 2);
    assert_eq!(h.read_word(dst), 0xAABBCCDD);
}

/// The syscall demultiplexer passes allocation and free through to the heap.
#[test]
fn syscall_alloc_free() {
    let (mut s, mut h, _ctx) = fresh_kernel();
    let p = syscalls::do_syscall(&mut s, &mut h, syscalls::ALLOC, 64, 0, 0, 0, 0, 0);
    assert!(p != 0);
    let r = syscalls::do_syscall(&mut s, &mut h, syscalls::FREE, p, 0, 0, 0, 0, 0);
    assert_eq!(r, 0);
    // Freeing garbage is refused with a nonzero code.
    let r = syscalls::do_syscall(&mut s, &mut h, syscalls::FREE, 0xFFFF, 0, 0, 0, 0, 0);
    assert_ne!(r, 0);
    // Sleeping or waiting with nothing current is an error.
    assert_eq!(syscalls::do_syscall(&mut s, &mut h, syscalls::SLEEP, 1, 0, 0, 0, 0, 0), 1);
    assert_eq!(syscalls::do_syscall(&mut s, &mut h, syscalls::EXIT, 0, 0, 0, 0, 0, 0), 1);
    // An unknown code is an invalid argument: nonzero error, nothing changes.
    assert_ne!(syscalls::do_syscall(&mut s, &mut h, 99, 0, 0, 0, 0, 0, 0), 0);
    assert_ne!(syscalls::do_syscall(&mut s, &mut h, 0, 0, 0, 0, 0, 0, 0), 0);
    // Console chatter codes are reported and succeed without change.
    assert_eq!(syscalls::do_syscall(&mut s, &mut h, syscalls::WRITE, 0, 0, 0, 0, 0, 0), 0);
}

/// A process may wait on any live pid, its own included; only a pid no live
/// process carries is refused.
#[test]
fn waitpid_judges_liveness() {
    let (mut s, mut h, mut ctx) = fresh_kernel();
    let pid_a = s.new_process(&mut h, 512, 0x2000, 1, 0, 0, 0);
    assert!(pid_a >= 0);
    tick(&mut s, &mut h, &mut ctx);
    assert_eq!(current_pid(&s), pid_a);
    // No live process carries pid 7: refused, nothing set.
    assert_ne!(syscalls::do_syscall(&mut s, &mut h, syscalls::WAITPID, 7, 0, 0, 0, 0, 0), 0);
    assert_eq!(s.current.as_ref().unwrap().waitpid, -1);
    // The caller's own pid is live: the wait is granted.
    assert_eq!(
        syscalls::do_syscall(&mut s, &mut h, syscalls::WAITPID, pid_a as u32, 0, 0, 0, 0, 0),
        0
    );
    assert_eq!(s.current.as_ref().unwrap().waitpid, pid_a);
}

/// The process listing allocates an array of six-word records and publishes
/// its offset through the caller's out-pointer.
#[test]
fn procs_publishes_records() {
    let (mut s, mut h, mut ctx) = fresh_kernel();
    let pid_a = s.new_process(&mut h, 512, 0x2000, 1, 0, 0, 0x1234);
    let pid_b = s.new_process(&mut h, 512, 0x3000, 2, 0, 0, 0x5678);
    assert!(pid_a >= 0 && pid_b >= 0);
    tick(&mut s, &mut h, &mut ctx);
    // A word of allocated storage to receive the array's offset.
    let out = h.kmalloc(4).unwrap();
    // An out-pointer that is no allocated storage is refused.
    assert_ne!(syscalls::do_syscall(&mut s, &mut h, syscalls::PROCS, 0, 0, 0, 0, 0, 0), 0);
    let n = syscalls::do_syscall(&mut s, &mut h, syscalls::PROCS, out as u32, 0, 0, 0, 0, 0);
    assert_eq!(n, 2);
    let arr = h.read_word(out) as usize;
    assert!(arr != 0);
    // The current process's record comes first: pid, vruntime low and high,
    // name, awaited pid, sleep.
    let infos = s.collect_all_procs();
    for i in 0..n as usize {
        assert_eq!(h.read_word(arr + 6 * i), infos[i].pid as u32);
        assert_eq!(h.read_word(arr + 6 * i + 1), infos[i].vruntime as u32);
        assert_eq!(h.read_word(arr + 6 * i + 2), (infos[i].vruntime >> 32) as u32);
        assert_eq!(h.read_word(arr + 6 * i + 3), infos[i].name);
        assert_eq!(h.read_word(arr + 6 * i + 4), infos[i].waitpid as u32);
        assert_eq!(h.read_word(arr + 6 * i + 5), infos[i].sleep as u32);
    }
    assert_eq!(infos[0].pid, current_pid(&s));
}

/// Trap decoding: a user environment call runs the syscall named in the
/// saved a0 slot and steps past the call instruction.
#[test]
fn trap_dispatch() {
    let (mut s, mut h, mut ctx) = fresh_kernel();
    ctx[10] = syscalls::NPROC;
    let (mepc, outcome) = trap::handle_trap(&mut s, &mut h, &mut ctx, 8, 0x1000, 0, 0x73);
    assert!(matches!(outcome, TrapOutcome::Syscall));
    // The ecall instruction word ends in `11`: a full-width instruction.
    assert_eq!(mepc, 0x1004);
    assert_eq!(ctx[10], 0);
    // A compressed instruction advances by two.
    assert_eq!(trap::update_mepc(0x1000, false, 0x0001), 0x1002);
    assert_eq!(trap::update_mepc(0x1000, true, 0x0001), 0x1000);
    // A machine-mode environment call decodes into a privilege switch.
    ctx[10] = syscalls::UMODE;
    let (_m, outcome) = trap::handle_trap(&mut s, &mut h, &mut ctx, 11, 0x1000, 0, 0x73);
    assert!(matches!(outcome, TrapOutcome::Switch(ModeSwitch::User)));
    assert!(matches!(syscalls::do_msyscall(syscalls::MMODE), ModeSwitch::Machine));
    assert!(matches!(syscalls::do_msyscall(7), ModeSwitch::Unknown));
    // A load access fault is fatal.
    let (_m, outcome) = trap::handle_trap(&mut s, &mut h, &mut ctx, 5, 0x1000, 0xdead, 0x73);
    assert!(matches!(outcome, TrapOutcome::Fault));
    // Other interrupts are ignored in place.
    let (mepc, outcome) = trap::handle_trap(&mut s, &mut h, &mut ctx, 0x8000_0003, 0x1000, 0, 0);
    assert!(matches!(outcome, TrapOutcome::Ignored));
    assert_eq!(mepc, 0x1000);
}

/// The machine timer is re-armed one tick interval past the current time.
#[test]
fn timer_and_peripherals() {
    let (hi, lo) = kcore::machine::reset_timers(0, 0xFFFF_0000);
    // 65 MHz over 100 Hz is 650 000 cycles; the low word wraps into the high.
    let cmp = ((hi as u64) << 32) + lo as u64;
    assert_eq!(cmp, 0xFFFF_0000u64 + 650_000);
    assert_eq!(
        kcore::machine::get_clint_register(kcore::machine::ClintRegister::MTIMECMPLO),
        0x0200_4000
    );
    let (idx, cfg, addr) = kcore::pmp::pmp_set(1, true, false, true, kcore::pmp::PMP_MODES::TOR,
        0x8000_0000, 0xFFFF_FFFF);
    assert_eq!(idx, 0);
    assert_eq!(cfg, 0xFFFF_0DFF);
    assert_eq!(addr, 0x8000_0000);
    let (_i, _c, naddr) = kcore::pmp::pmp_set(0, true, true, true,
        kcore::pmp::PMP_MODES::NAPOT, 0x80, 0);
    assert_eq!(naddr, !(0x80u32 >> 3));
    let mut b = kcore::barrier::Barrier::new(2);
    assert!(!b.check());
    b.wait();
    b.wait();
    assert!(b.check());
    let (mut con, div) = kcore::console::Console::init();
    assert_eq!(div, 65_000_000 / 115_200 - 1);
    con.putc('h');
    con.putc('i');
    assert_eq!(con.uart.tx, vec![b'h', b'i']);
    assert_eq!(con.getc(0x8000_0000), None);
    con.uart.rx.push(b'x');
    assert_eq!(con.getc(b'x' as u32), Some('x'));
    assert!(con.uart.rx.is_empty());
    assert!(kcore::uart::uart_tx_ready(0));
    assert!(!kcore::uart::uart_tx_ready(0x8000_0001));
}
