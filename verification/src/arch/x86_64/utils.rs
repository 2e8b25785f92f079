//! Values of control and model-specific registers.

use vstd::prelude::*;

use crate::mm::definitions::Frame;

verus! {

/// The two halves in which a model-specific register is written: the high
/// 32 bits and the low 32 bits.
pub fn wrmsr_halves(data: u64) -> (r: (u32, u32))
    ensures
        r.0 == data / 0x1_0000_0000,
        r.1 == data % 0x1_0000_0000,
{
    ((data / 0x1_0000_0000) as u32, (data % 0x1_0000_0000) as u32)
}

/// The value of a model-specific register that was read in two halves.
pub fn rdmsr_value(high: u32, low: u32) -> (r: u64)
    ensures
        r == high * 0x1_0000_0000 + low,
{
    (high as u64) * 0x1_0000_0000 + (low as u64)
}

/// A register that is written in halves and read in halves holds what was
/// written.
pub proof fn law_msr_halves(data: u64)
    ensures
        (data / 0x1_0000_0000) * 0x1_0000_0000 + data % 0x1_0000_0000 == data,
{
}

/// The frame of the root table that the translation base register `cr3`
/// names: its bits 12 to 51.
pub fn frame_of_cr3(cr3: u64) -> (r: Frame)
    ensures
        r@ == (cr3 / 4096) % 0x100_0000_0000,
{
    Frame::new((cr3 / 4096) % 0x100_0000_0000)
}

/// The value of the translation base register that names the root table
/// in `frame`.
pub fn cr3_of_frame(frame: Frame) -> (r: u64)
    requires
        frame@ < 0x100_0000_0000,
    ensures
        r == frame@ * 4096,
        (r / 4096) % 0x100_0000_0000 == frame@,
{
    frame.get_index() * 4096
}

} // verus!
