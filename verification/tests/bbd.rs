use lib::dsp::bbd::{Mode, CHORUS_PERIOD, LONGEST, SHORTEST, VIBRATO_FAST, VIBRATO_SLOW};

/// Nanoseconds to seconds.
fn seconds(ns: u64) -> f64 {
    ns as f64 * 1e-9
}

/// The delay range is not a choice. It is 1024 stages and the printed
/// clock, and this is the arithmetic written out so a later edit to either
/// end has to face it.
#[test]
fn the_delay_range_is_what_the_stage_count_and_the_clock_give() {
    assert!(
        (seconds(SHORTEST) - 1.28e-3).abs() < 1e-5,
        "1024 stages at 400 kHz is 1.28 ms, not {}",
        seconds(SHORTEST)
    );
    assert!(
        (seconds(LONGEST) - 6.144e-3).abs() < 1e-5,
        "1024 stages at 83.3 kHz is 6.14 ms, not {}",
        seconds(LONGEST)
    );
}

/// Over half a period the delay travels the whole span, so the pitch shift is
/// span / (period / 2) -- about 0.81 % here.
#[test]
fn a_swept_delay_shifts_the_pitch_by_its_own_rate_of_change() {
    let expected = seconds(LONGEST - SHORTEST) / (seconds(CHORUS_PERIOD) / 2.0);
    assert!(
        (0.006..0.011).contains(&expected),
        "the sheet's numbers give {expected} of pitch shift, which is not a chorus"
    );
}

#[test]
fn the_delays_are_exact_in_nanoseconds() {
    assert_eq!(SHORTEST, 1_280_000);
    assert_eq!(LONGEST, 6_144_000);
    assert_eq!(5 * LONGEST, 24 * SHORTEST);
}

#[test]
fn the_vibrato_period_runs_from_slow_to_fast() {
    assert!(VIBRATO_FAST < VIBRATO_SLOW);
    assert_eq!(VIBRATO_FAST, 120_000_000);
    assert_eq!(VIBRATO_SLOW, 500_000_000);
}

#[test]
fn the_switch_rests_on_chorus() {
    assert_eq!(Mode::default(), Mode::Chorus);
    assert_ne!(Mode::Chorus, Mode::Vibrato);
}
