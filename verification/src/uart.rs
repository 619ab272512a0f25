//! The UART, modelled at its register interface. The runtime reads and
//! writes the memory-mapped registers; this module computes the divisor, and
//! decodes and encodes the data-register values, whose top bit signals
//! "no data" on receive and "busy" on transmit.

use vstd::prelude::*;

verus! {

/// UART clock, matching the board's core clock.
pub const UART_FREQ: u32 = 65_000_000;

/// Serial line rate.
pub const BAUD_RATE: u32 = 115_200;

/// The serial device, as the byte stream it carries: bytes queued for
/// transmission and bytes received but not yet read.
#[allow(non_camel_case_types)]
pub struct UartDevice {
    pub tx: Vec<u8>,
    pub rx: Vec<u8>,
    pub configured: bool,
}

impl UartDevice {
    /// Set the line up. The divisor the runtime writes to the divisor
    /// register is the clock rate over the baud rate, less one.
    pub fn configure() -> (r: (UartDevice, u32))
        ensures
            r.0.tx@ =~= Seq::<u8>::empty(),
            r.0.rx@ =~= Seq::<u8>::empty(),
            r.0.configured,
            r.1 == UART_FREQ / BAUD_RATE - 1,
    {
        let dev = UartDevice { tx: Vec::new(), rx: Vec::new(), configured: true };
        (dev, UART_FREQ / BAUD_RATE - 1)
    }

    /// Send one character: queue its byte for the transmit register.
    pub fn uart_write(&mut self, c: char)
        ensures
            final(self).tx@ == old(self).tx@.push(c as u8),
            final(self).rx@ == old(self).rx@,
            final(self).configured == old(self).configured,
    {
        self.tx.push(#[verifier::truncate] (c as u8));
        proof {
            assert(c as u8 == (c as int) as u8);
        }
    }

    /// Decode one read of the receive register and take the byte: the top
    /// bit set means nothing was available, which reads as the NUL
    /// character; otherwise the low byte is the character, and it leaves the
    /// head of the received queue. The register value mirrors the device, so
    /// a read with data present carries the queue's head byte.
    pub fn uart_read(&mut self, rxdata: u32) -> (c: char)
        requires
            rxdata & 0x8000_0000u32 == 0 ==> old(self).rx@.len() > 0
                && old(self).rx@[0] == (rxdata & 0xFFu32) as u8,
        ensures
            rxdata & 0x8000_0000u32 != 0 ==> c == '\0' && *final(self) == *old(self),
            rxdata & 0x8000_0000u32 == 0 ==> c as u32 == rxdata & 0xFFu32
                && final(self).rx@ == old(self).rx@.skip(1)
                && final(self).tx@ == old(self).tx@
                && final(self).configured == old(self).configured,
    {
        if rxdata & 0x8000_0000u32 != 0 {
            '\0'
        } else {
            let b: u8 = (rxdata & 0xFFu32) as u8;
            proof {
                assert(rxdata & 0xFFu32 < 256) by (bit_vector);
            }
            self.rx.remove(0);
            proof {
                assert(self.rx@ =~= old(self).rx@.skip(1));
            }
            let c = b as char;
            proof {
                assert(c as u32 == rxdata & 0xFFu32);
            }
            c
        }
    }
}

/// Whether a read of the transmit register says the line can take a byte:
/// bit 31 clear means ready.
pub fn uart_tx_ready(txdata: u32) -> (r: bool)
    ensures
        r == (txdata & 0x8000_0000u32 == 0),
{
    txdata & 0x8000_0000u32 == 0
}

} // verus!
