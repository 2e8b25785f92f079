//! The console: a 16550-compatible serial port, and what stands for it
//! where there is none.

use vstd::prelude::*;

use super::io::PortWrite;

verus! {

/// The port of the first serial line.
pub const COM1_PORT: u16 = 0x3F8;

/// The bit of the line status register that says that the transmit holding
/// register is empty.
pub const LINE_STATUS_TRANSMIT_EMPTY: u8 = 0x20;

/// A sink of bytes.
///
/// The kernel implements this over the serial port; `BufferConsole`
/// implements it over a vector. An implementation promises that the bytes
/// come out in the order in which they were written. Of an implementation
/// that is not verified this promise is taken on trust; such an
/// implementation leaves `output` as it stands here, where it says nothing.
pub trait Console {
    /// All the bytes written so far.
    open spec fn output(&self) -> Seq<u8> {
        arbitrary()
    }

    fn write_byte(&mut self, b: u8)
        ensures
            final(self).output() == old(self).output().push(b),
    ;
}

/// A console that keeps what is written to it.
pub struct BufferConsole {
    bytes: Vec<u8>,
}

impl BufferConsole {
    pub fn new() -> (r: Self)
        ensures
            r.output() == Seq::<u8>::empty(),
    {
        Self { bytes: Vec::new() }
    }

    /// All the bytes written so far.
    pub fn contents(&self) -> (r: &Vec<u8>)
        ensures
            r@ == self.output(),
    {
        &self.bytes
    }
}

impl Console for BufferConsole {
    closed spec fn output(&self) -> Seq<u8> {
        self.bytes@
    }

    fn write_byte(&mut self, b: u8) {
        self.bytes.push(b);
    }
}

/// A serial port, known by the address of its first register.
#[derive(Clone, Copy, Debug, PartialEq, Eq, Structural)]
pub struct Serial {
    pub port: u16,
}

impl Serial {
    pub fn new(port: u16) -> (r: Self)
        ensures
            r.port == port,
    {
        Self { port }
    }

    /// What is written to the port's registers to set it up: interrupts
    /// off; the divisor latch opened, the divisor 3 for 38400 baud written
    /// and the latch closed with eight data bits, no parity and one stop
    /// bit; the queues on and emptied; and the modem lines raised.
    pub fn init_sequence(port: u16) -> (r: [PortWrite; 7])
        requires
            port <= 0xffff - 5,
        ensures
            r[0] == (PortWrite { port: (port + 1) as u16, value: 0x00 }),
            r[1] == (PortWrite { port: (port + 3) as u16, value: 0x80 }),
            r[2] == (PortWrite { port, value: 0x03 }),
            r[3] == (PortWrite { port: (port + 1) as u16, value: 0x00 }),
            r[4] == (PortWrite { port: (port + 3) as u16, value: 0x03 }),
            r[5] == (PortWrite { port: (port + 2) as u16, value: 0xC7 }),
            r[6] == (PortWrite { port: (port + 4) as u16, value: 0x0B }),
    {
        [
            PortWrite::new(port + 1, 0x00),
            PortWrite::new(port + 3, 0x80),
            PortWrite::new(port, 0x03),
            PortWrite::new(port + 1, 0x00),
            PortWrite::new(port + 3, 0x03),
            PortWrite::new(port + 2, 0xC7),
            PortWrite::new(port + 4, 0x0B),
        ]
    }

    /// The port of the line status register.
    pub fn line_status_port(&self) -> (r: u16)
        requires
            self.port <= 0xffff - 5,
        ensures
            r == self.port + 5,
    {
        self.port + 5
    }

    /// Whether the port takes a byte, by the value of its line status
    /// register.
    pub fn can_transmit(line_status: u8) -> (r: bool)
        ensures
            r == (line_status & 0x20 != 0),
    {
        line_status & LINE_STATUS_TRANSMIT_EMPTY != 0
    }
}

} // verus!
