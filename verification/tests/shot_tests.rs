use pwatch::shot::ScreenShot;

fn row(s: &ScreenShot, y: u16) -> String {
    let w = s.w as usize;
    let p = y as usize * w;
    s.screen[p..p + w].iter().collect()
}

#[test]
fn shot_plain_text_wraps() {
    let mut s = ScreenShot::new(4, 2);
    s.consume(b"abcdef");
    assert_eq!(row(&s, 0), "abcd");
    assert_eq!(row(&s, 1), "ef  ");
    assert_eq!((s.x, s.y), (2, 1));
}

#[test]
fn shot_goto_moves_cursor() {
    let mut s = ScreenShot::new(6, 3);
    // a cursor-position sequence arrives as three chunks: the opener, the
    // one-based "row;column" arguments, and the terminator
    s.consume(&[27, 91]);
    s.consume(b"2;4");
    s.consume(b"H");
    assert_eq!((s.x, s.y), (3, 1));
    s.consume(b"zz");
    assert_eq!(row(&s, 1), "   zz ");
}

#[test]
fn shot_color_sequences_dropped() {
    let mut s = ScreenShot::new(3, 1);
    s.consume(&[27, 91]);
    s.consume(b"38");
    // the color terminator closes the sequence without output
    s.consume(b"m");
    s.consume(b"ok");
    // a bare color reset is ignored whole
    s.consume(&[27, 91, 48, 109]);
    s.consume(b"!");
    assert_eq!(row(&s, 0), "ok!");
}

#[test]
fn shot_overflow_is_dropped() {
    let mut s = ScreenShot::new(2, 1);
    s.consume(b"abcd");
    assert_eq!(row(&s, 0), "ab");
}

#[test]
fn shot_bad_goto_keeps_cursor() {
    let mut s = ScreenShot::new(4, 2);
    s.consume(&[27, 91]);
    s.consume(b"x;9999999");
    s.consume(b"H");
    assert_eq!((s.x, s.y), (0, 0));
}
