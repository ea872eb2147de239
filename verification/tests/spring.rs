use lib::dsp::spring::Line;

#[test]
fn a_line_hands_back_each_sample_its_length_later() {
    let mut line = Line::new(3, 0i32);
    assert_eq!(line.len(), 3);
    let out: Vec<i32> = (1..=6).map(|x| line.process(x)).collect();
    assert_eq!(out, vec![0, 0, 0, 1, 2, 3]);
}

#[test]
fn an_empty_line_still_delays_by_one_sample() {
    let mut line = Line::new(0, 0.0f64);
    assert_eq!(line.len(), 1);
    assert_eq!(line.process(0.5), 0.0);
    assert_eq!(line.process(-0.25), 0.5);
}

#[test]
fn a_reset_line_is_silent_and_keeps_its_length() {
    let mut line = Line::new(2, 0u8);
    line.process(7);
    line.process(8);
    line.process(9);
    line.reset(0);
    assert_eq!(line.len(), 2);
    assert_eq!(line.process(1), 0);
    assert_eq!(line.process(2), 0);
    assert_eq!(line.process(3), 1);
}
