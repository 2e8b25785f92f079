//! The two legacy interrupt controllers and the interrupt-enable flag.

use vstd::prelude::*;

use super::io::PortWrite;
use super::task::RFLAGS_INTERRUPT_ENABLE;

verus! {

pub const PIC_MASTER_CMD_PORT: u16 = 0x20;

pub const PIC_SLAVE_CMD_PORT: u16 = 0xA0;

pub const PIC_MASTER_DATA_PORT: u16 = 0x21;

pub const PIC_SLAVE_DATA_PORT: u16 = 0xA1;

/// The vector of the first line of the first controller.
pub const PIC_MASTER_VECTOR_BASE: u8 = 0x20;

/// The vector of the first line of the second controller.
pub const PIC_SLAVE_VECTOR_BASE: u8 = 0x28;

/// The command that ends an interrupt.
pub const PIC_END_OF_INTERRUPT: u8 = 0x20;

/// The model-specific register that holds the base of the gs segment while
/// the kernel runs.
pub const MSR_KERNEL_GS_BASE: u32 = 0xC000_0102;

/// Whether the flags `rflags` have interrupts enabled.
pub fn irq_enabled(rflags: u64) -> (r: bool)
    ensures
        r == ((rflags / 0x200) % 2 == 1),
{
    (rflags / RFLAGS_INTERRUPT_ENABLE) % 2 == 1
}

/// What is written to set the two controllers up: all lines masked; each
/// controller told to expect three more words, its vector base, how the two
/// are wired to each other (the second on line 2 of the first), and the
/// 8086 mode; and all lines masked again.
pub fn init_8259a_sequence() -> (r: [PortWrite; 12])
    ensures
        r[0] == (PortWrite { port: 0x21, value: 0xff }),
        r[1] == (PortWrite { port: 0xA1, value: 0xff }),
        r[2] == (PortWrite { port: 0x20, value: 0x11 }),
        r[3] == (PortWrite { port: 0x21, value: 0x20 }),
        r[4] == (PortWrite { port: 0x21, value: 0x04 }),
        r[5] == (PortWrite { port: 0x21, value: 0x01 }),
        r[6] == (PortWrite { port: 0xA0, value: 0x11 }),
        r[7] == (PortWrite { port: 0xA1, value: 0x28 }),
        r[8] == (PortWrite { port: 0xA1, value: 0x02 }),
        r[9] == (PortWrite { port: 0xA1, value: 0x01 }),
        r[10] == (PortWrite { port: 0x21, value: 0xff }),
        r[11] == (PortWrite { port: 0xA1, value: 0xff }),
{
    [
        PortWrite::new(PIC_MASTER_DATA_PORT, 0xff),
        PortWrite::new(PIC_SLAVE_DATA_PORT, 0xff),
        PortWrite::new(PIC_MASTER_CMD_PORT, 0x11),
        PortWrite::new(PIC_MASTER_DATA_PORT, PIC_MASTER_VECTOR_BASE),
        PortWrite::new(PIC_MASTER_DATA_PORT, 0x04),
        PortWrite::new(PIC_MASTER_DATA_PORT, 0x01),
        PortWrite::new(PIC_SLAVE_CMD_PORT, 0x11),
        PortWrite::new(PIC_SLAVE_DATA_PORT, PIC_SLAVE_VECTOR_BASE),
        PortWrite::new(PIC_SLAVE_DATA_PORT, 0x02),
        PortWrite::new(PIC_SLAVE_DATA_PORT, 0x01),
        PortWrite::new(PIC_MASTER_DATA_PORT, 0xff),
        PortWrite::new(PIC_SLAVE_DATA_PORT, 0xff),
    ]
}

/// What is written to let the timer through: on the first controller every
/// line is masked but line 0, the timer's, and line 2, the second
/// controller's; on the second every line is masked.
pub fn enable_external_irq_sequence() -> (r: [PortWrite; 2])
    ensures
        r[0] == (PortWrite { port: 0x21, value: 0xfa }),
        r[1] == (PortWrite { port: 0xA1, value: 0xff }),
{
    [PortWrite::new(PIC_MASTER_DATA_PORT, 0xfa), PortWrite::new(PIC_SLAVE_DATA_PORT, 0xff)]
}

/// What ends the interrupt of line `idx`: the command to the first
/// controller for its own lines 0 to 7, and the command to the second and
/// then to the first for the lines 8 to 15 of the second.
pub open spec fn end_of_interrupt(idx: u8) -> Seq<PortWrite> {
    if idx < 8 {
        seq![PortWrite { port: PIC_MASTER_CMD_PORT, value: PIC_END_OF_INTERRUPT }]
    } else {
        seq![
            PortWrite { port: PIC_SLAVE_CMD_PORT, value: PIC_END_OF_INTERRUPT },
            PortWrite { port: PIC_MASTER_CMD_PORT, value: PIC_END_OF_INTERRUPT },
        ]
    }
}

/// What is written to end the interrupt of line `idx`.
pub fn send_eoi_sequence(idx: u8) -> (r: Vec<PortWrite>)
    ensures
        r@ == end_of_interrupt(idx),
{
    let mut r: Vec<PortWrite> = Vec::new();
    if idx >= 8 {
        r.push(PortWrite::new(PIC_SLAVE_CMD_PORT, PIC_END_OF_INTERRUPT));
    }
    r.push(PortWrite::new(PIC_MASTER_CMD_PORT, PIC_END_OF_INTERRUPT));
    assert(r@ =~= end_of_interrupt(idx));
    r
}

} // verus!
