//! The programmable interval timer.

use vstd::prelude::*;

use super::io::PortWrite;

verus! {

pub const PIT_CMD_PORT: u16 = 0x43;

pub const PIT_DATA_PORT: u16 = 0x40;

/// The frequency of the timer's clock.
pub const PIT_CLOCK_HZ: u64 = 1193182;

/// The frequency at which the timer interrupts.
pub const TICK_HZ: u64 = 100;

/// Channel 0, both bytes of the divisor, rate generator, binary counting.
pub const PIT_RATE_GENERATOR: u8 = 0x36;

/// The divisor that brings a clock of `clock` to `rate` as nearly as a
/// whole divisor can.
pub open spec fn nearest_divisor(clock: int, rate: int) -> int {
    (clock + rate / 2) / rate
}

/// The divisor for the rate `rate` at the clock `clock`, if the rate is
/// not zero and the divisor fits the timer's 16 bits.
pub fn pit_divisor(clock: u64, rate: u64) -> (r: Option<u16>)
    ensures
        r == if rate > 0 && clock + rate / 2 <= u64::MAX && nearest_divisor(
            clock as int,
            rate as int,
        ) <= 0xffff {
            Some(nearest_divisor(clock as int, rate as int) as u16)
        } else {
            None
        },
{
    if rate == 0 || clock > u64::MAX - rate / 2 {
        return None;
    }
    let d = (clock + rate / 2) / rate;
    if d > 0xffff {
        None
    } else {
        Some(d as u16)
    }
}

/// What is written to make the timer interrupt a hundred times a second: the
/// mode, then the low and the high byte of the divisor 11932.
pub fn init_timer_sequence() -> (r: [PortWrite; 3])
    ensures
        nearest_divisor(PIT_CLOCK_HZ as int, TICK_HZ as int) == 11932,
        r[0] == (PortWrite { port: 0x43, value: 0x36 }),
        r[1] == (PortWrite { port: 0x40, value: (11932int % 256) as u8 }),
        r[2] == (PortWrite { port: 0x40, value: (11932int / 256) as u8 }),
{
    let k: u16 = match pit_divisor(PIT_CLOCK_HZ, TICK_HZ) {
        Some(k) => k,
        None => 0,
    };
    [
        PortWrite::new(PIT_CMD_PORT, PIT_RATE_GENERATOR),
        PortWrite::new(PIT_DATA_PORT, (k % 256) as u8),
        PortWrite::new(PIT_DATA_PORT, (k / 256) as u8),
    ]
}

} // verus!
