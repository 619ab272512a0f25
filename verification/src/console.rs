//! The console: character input and output over the serial device. The
//! device model carries the byte stream; the runtime moves it through the
//! memory-mapped registers.

use vstd::prelude::*;
use crate::uart::UartDevice;

verus! {

/// The console, as the serial device it writes through.
pub struct Console {
    pub uart: UartDevice,
}

impl Console {
    /// Bring the console up over a freshly configured line; the divisor for
    /// the runtime to program comes along.
    pub fn init() -> (r: (Console, u32))
        ensures
            r.0.uart.tx@ =~= Seq::<u8>::empty(),
            r.0.uart.configured,
            r.1 == crate::uart::UART_FREQ / crate::uart::BAUD_RATE - 1,
    {
        let (uart, div) = UartDevice::configure();
        (Console { uart }, div)
    }

    /// Write one character to the console.
    pub fn putc(&mut self, c: char)
        ensures
            final(self).uart.tx@ == old(self).uart.tx@.push(c as u8),
    {
        self.uart.uart_write(c);
    }

    /// Read one character, given the receive register's value: nothing when
    /// the register says no byte was waiting; a read with data present takes
    /// the head byte of the received queue, which the register mirrors.
    pub fn getc(&mut self, rxdata: u32) -> (r: Option<char>)
        requires
            rxdata & 0x8000_0000u32 == 0 ==> old(self).uart.rx@.len() > 0
                && old(self).uart.rx@[0] == (rxdata & 0xFFu32) as u8,
        ensures
            rxdata & 0x8000_0000u32 != 0 ==> r is None && *final(self) == *old(self),
            rxdata & 0x8000_0000u32 == 0 ==> final(self).uart.rx@ == old(self).uart.rx@.skip(1)
                && final(self).uart.tx@ == old(self).uart.tx@,
            rxdata & 0x8000_0000u32 == 0 && rxdata & 0xFFu32 != 0
                ==> (r matches Some(c) && c as u32 == rxdata & 0xFFu32),
            rxdata & 0x8000_0000u32 == 0 && rxdata & 0xFFu32 == 0 ==> r is None,
    {
        let c = self.uart.uart_read(rxdata);
        if c == '\0' {
            None
        } else {
            Some(c)
        }
    }
}

} // verus!
