//! Machine constants: the CLINT timer register map and the tick interval.
//!
//! The kernel reprograms the machine timer on every tick. Reading and writing
//! the memory-mapped registers is the runtime's job; this module computes the
//! addresses and the new compare value from the values read.

use vstd::prelude::*;

verus! {

/// Clock frequency of the simulated target board, in Hz.
pub const FREQ: u32 = 65_000_000;

/// Timer interrupts fire at 100 Hz: one tick every 10 ms.
pub const TICKS_PER_SECOND: u32 = 100;

/// Base address of the core-local interruptor.
pub const CLINT_BASE: u32 = 0x0200_0000;

/// The CLINT registers the kernel uses, identified by name.
pub enum ClintRegister {
    MSIP,
    MTIMECMPLO,
    MTIMECMPHI,
    MTIMELO,
    MTIMEHI,
}

/// Byte offset of a CLINT register from `CLINT_BASE`.
pub open spec fn clint_offset(reg: ClintRegister) -> u32 {
    match reg {
        ClintRegister::MSIP => 0x0000,
        ClintRegister::MTIMECMPLO => 0x4000,
        ClintRegister::MTIMECMPHI => 0x4004,
        ClintRegister::MTIMELO => 0xbff8,
        ClintRegister::MTIMEHI => 0xbffc,
    }
}

/// Absolute address of a CLINT register. The runtime turns this into a
/// pointer; the kernel itself never dereferences it.
pub fn get_clint_register(reg: ClintRegister) -> (addr: u32)
    ensures
        addr == CLINT_BASE + clint_offset(reg),
{
    let off: u32 = match reg {
        ClintRegister::MSIP => 0x0000,
        ClintRegister::MTIMECMPLO => 0x4000,
        ClintRegister::MTIMECMPHI => 0x4004,
        ClintRegister::MTIMELO => 0xbff8,
        ClintRegister::MTIMEHI => 0xbffc,
    };
    CLINT_BASE + off
}

/// The 64-bit machine time held in the MTIMEHI:MTIMELO register pair.
pub open spec fn mtime64(hi: u32, lo: u32) -> int {
    hi * 0x1_0000_0000 + lo
}

/// Next timer deadline: the current machine time plus one tick interval.
///
/// The runtime reads MTIMEHI:MTIMELO, calls this, and writes the returned
/// pair back to MTIMECMPHI:MTIMECMPLO, re-arming the timer for the next tick.
pub fn reset_timers(mtimehi: u32, mtimelo: u32) -> (cmp: (u32, u32))
    requires
        mtime64(mtimehi, mtimelo) + FREQ / TICKS_PER_SECOND <= u64::MAX,
    ensures
        mtime64(cmp.0, cmp.1) == mtime64(mtimehi, mtimelo) + FREQ / TICKS_PER_SECOND,
{
    let interval: u64 = (FREQ / TICKS_PER_SECOND) as u64;
    let hi_part: u64 = (mtimehi as u64) << 32u64;
    assert(hi_part == (mtimehi as u64) * 0x1_0000_0000) by (bit_vector)
        requires hi_part == (mtimehi as u64) << 32u64;
    let mtime: u64 = hi_part + (mtimelo as u64);
    let cmp: u64 = mtime + interval;
    let hi: u32 = #[verifier::truncate] ((cmp >> 32u64) as u32);
    let lo: u32 = #[verifier::truncate] ((cmp & 0xFFFF_FFFFu64) as u32);
    assert((hi as u64) * 0x1_0000_0000 + (lo as u64) == cmp) by (bit_vector)
        requires hi == ((cmp >> 32u64) as u32) && lo == ((cmp & 0xFFFF_FFFFu64) as u32);
    (hi, lo)
}

} // verus!
