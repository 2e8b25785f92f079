//! Port I/O as data: what is to be written to which port.

use vstd::prelude::*;

verus! {

/// One byte to be written to an I/O port.
#[derive(Clone, Copy, Debug, PartialEq, Eq, Structural)]
pub struct PortWrite {
    pub port: u16,
    pub value: u8,
}

impl PortWrite {
    pub fn new(port: u16, value: u8) -> (r: Self)
        ensures
            r.port == port,
            r.value == value,
    {
        Self { port, value }
    }
}

} // verus!
