//! The JC-120's bucket-brigade chorus: the figures its delay is derived from,
//! and the switch that picks between its two modes.
//!
//! An MN3007 is 1024 capacitors in a chain, and a two-phase clock walks a
//! charge packet from each to the next, so a sample put in at one end arrives
//! at the other `N / (2 f_clk)` later: a delay of half the stage count times
//! the clock period. The sheet prints that period as 2.5 to 12 µs, which makes
//! the delay 1.28 ms to 6.144 ms. Times here are whole nanoseconds, which
//! holds every printed figure exactly.

use vstd::prelude::*;

verus! {

/// An MN3007's stage count, from the part.
pub const STAGES: u64 = 1024;

/// The clock period at its fast end, from the sheet's printed 2.5 µs, in
/// nanoseconds.
pub const CLOCK_FAST_PERIOD: u64 = 2_500;

/// The clock period at its slow end, from the sheet's printed 12 µs, in
/// nanoseconds.
pub const CLOCK_SLOW_PERIOD: u64 = 12_000;

/// The shortest delay the clock range gives, `N / (2 f)`, in nanoseconds.
/// Not chosen -- derived: 1.28 ms.
pub const SHORTEST: u64 = STAGES * CLOCK_FAST_PERIOD / 2;

/// The longest delay the clock range gives, in nanoseconds: 6.144 ms.
pub const LONGEST: u64 = STAGES * CLOCK_SLOW_PERIOD / 2;

/// CHORUS: a triangle of 1.2 s, in nanoseconds, and no speed control on the
/// panel in this mode.
pub const CHORUS_PERIOD: u64 = 1_200_000_000;

/// VIBRATO: the oscillator with the panel's Speed reaching it, from its fast
/// end to its slow one, in nanoseconds.
pub const VIBRATO_FAST: u64 = 120_000_000;
pub const VIBRATO_SLOW: u64 = 500_000_000;

/// Which of the two the switch is in. `SW3`, marked VIB / OFF / CHORUS on the
/// panel.
#[derive(Clone, Copy, Debug, PartialEq, Eq, Structural)]
pub enum Mode {
    Chorus,
    Vibrato,
}

impl Default for Mode {
    /// The switch rests on CHORUS.
    fn default() -> (mode: Self)
        ensures
            mode == Mode::Chorus,
    {
        Mode::Chorus
    }
}

} // verus!
