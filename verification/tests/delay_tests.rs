use badtv::delay::DelayLine;

#[test]
fn delay_line_delays_by_its_length() {
    let mut line = DelayLine::new(3, 0i32);
    let mut out = Vec::new();
    for x in 1..=7 {
        out.push(line.oldest());
        line.push(x);
    }
    assert_eq!(out, vec![0, 0, 0, 1, 2, 3, 4]);
    assert_eq!(line.len(), 3);
}

#[test]
fn delay_line_of_one() {
    let mut line = DelayLine::new(1, 0.0f32);
    line.push(0.5);
    assert_eq!(line.oldest(), 0.5);
    line.push(-1.0);
    assert_eq!(line.oldest(), -1.0);
}
