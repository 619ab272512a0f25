//! Physical memory protection: computing the configuration byte and address
//! word for one PMP entry. Writing the control registers is privileged and
//! stays with the runtime; this module computes exactly what to write.

use vstd::prelude::*;

verus! {

/// PMP address-matching modes.
#[allow(non_camel_case_types)]
#[derive(Clone, Copy)]
pub enum PMP_MODES {
    /// Top of range: the entry bounds the region below its address.
    TOR,
    /// Naturally aligned four-byte region.
    NA4,
    /// Naturally aligned power-of-two region.
    NAPOT,
}

/// The address-matching bits of a configuration byte.
pub open spec fn mode_mask(mode: PMP_MODES) -> u8 {
    match mode {
        PMP_MODES::TOR => 0x08,
        PMP_MODES::NA4 => 0x10,
        PMP_MODES::NAPOT => 0x18,
    }
}

/// The address-matching bits of a configuration byte.
pub fn get_mode_mask(mode: PMP_MODES) -> (r: u8)
    ensures
        r == mode_mask(mode),
{
    match mode {
        PMP_MODES::TOR => 0x08,
        PMP_MODES::NA4 => 0x10,
        PMP_MODES::NAPOT => 0x18,
    }
}

/// The permission bits of a configuration byte: read is bit 0, write bit 1,
/// execute bit 2.
pub open spec fn perm_mask(read: bool, write: bool, exec: bool) -> u8 {
    ((if read { 1int } else { 0int }) + (if write { 2int } else { 0int })
        + (if exec { 4int } else { 0int })) as u8
}

/// The permission bits of a configuration byte.
pub fn get_perm_mask(read: bool, write: bool, exec: bool) -> (r: u8)
    ensures
        r == perm_mask(read, write, exec),
{
    let mut r: u8 = 0;
    if read {
        r = r + 1;
    }
    if write {
        r = r + 2;
    }
    if exec {
        r = r + 4;
    }
    r
}

/// The value for the PMP address register: a naturally-aligned power-of-two
/// region encodes its address shifted and inverted; a top-of-range entry
/// carries the address as given.
pub fn set_pmp_addr(mode: PMP_MODES, addr: u32) -> (r: u32)
    ensures
        mode is NAPOT ==> r == !(addr >> 3u32),
        !(mode is NAPOT) ==> r == addr,
{
    match mode {
        PMP_MODES::NAPOT => !(addr >> 3u32),
        _ => addr,
    }
}

/// Compute one PMP entry: which configuration register to touch, the new
/// value of that register with this entry's byte replaced, and the value for
/// the entry's address register. `pmpcfg` is the configuration register's
/// current value, read by the runtime, which writes both results back.
pub fn pmp_set(idx: usize, read: bool, write: bool, exec: bool, mode: PMP_MODES, addr: u32,
    pmpcfg: u32) -> (r: (usize, u32, u32))
    requires
        idx < 8,
    ensures
        r.0 == idx / 4,
        ({
            let byte = (perm_mask(read, write, exec) | mode_mask(mode)) as u32;
            let shift = 8 * ((idx % 4) as u32);
            r.1 == (pmpcfg & !(0xFFu32 << shift)) | (byte << shift)
        }),
        mode is NAPOT ==> r.2 == !(addr >> 3u32),
        !(mode is NAPOT) ==> r.2 == addr,
{
    let pmpcfg_idx = idx / 4;
    let sub = (idx % 4) as u32;
    let byte: u32 = (get_perm_mask(read, write, exec) | get_mode_mask(mode)) as u32;
    let shift: u32 = 8 * sub;
    let cleared = pmpcfg & !(0xFFu32 << shift);
    let new_cfg = cleared | (byte << shift);
    let addr_val = set_pmp_addr(mode, addr);
    (pmpcfg_idx, new_cfg, addr_val)
}

} // verus!
