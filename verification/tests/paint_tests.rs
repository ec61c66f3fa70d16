use aurora::canvas::Canvas;
use aurora::colors::{paint_color, screenshot_color};

#[test]
fn reads_screenshot_colors() {
    assert_eq!(screenshot_color("#FF8000"), (255, 128, 0, 255));
    assert_eq!(screenshot_color("  #0a0b0c "), (10, 11, 12, 255));
    assert_eq!(screenshot_color("#+12345"), (0x01, 0x23, 0x45, 255));
    assert_eq!(screenshot_color("Black"), (0, 0, 0, 255));
    assert_eq!(screenshot_color("grey"), (128, 128, 128, 255));
    assert_eq!(screenshot_color("coal"), (0x2E, 0x34, 0x40, 255));
    assert_eq!(screenshot_color("#fff"), (64, 64, 64, 255));
    assert_eq!(screenshot_color("#12345g"), (64, 64, 64, 255));
    assert_eq!(screenshot_color("chartreuse"), (64, 64, 64, 255));
}

#[test]
fn reads_paint_colors() {
    assert_eq!(paint_color("#fff"), (255, 255, 255, 255));
    assert_eq!(paint_color("#000"), (0, 0, 0, 255));
    assert_eq!(paint_color("TRANSPARENT"), (0, 0, 0, 0));
    assert_eq!(paint_color("aurora-cyan"), (0x88, 0xC0, 0xD0, 255));
    assert_eq!(paint_color("rust"), (0xBF, 0x61, 0x6A, 255));
    assert_eq!(paint_color("#d26428"), (0xd2, 0x64, 0x28, 255));
    assert_eq!(paint_color("unknown"), (0x4C, 0x56, 0x6A, 255));
}

const W: (u8, u8, u8, u8) = (255, 255, 255, 255);
const R: (u8, u8, u8, u8) = (255, 0, 0, 255);

fn rows(c: &Canvas) -> Vec<String> {
    (0..c.height())
        .map(|y| (0..c.width()).map(|x| if c.get(x, y) == Some(R) { '#' } else { '.' }).collect())
        .collect()
}

#[test]
fn fills_rectangles_inclusively_and_clips() {
    let mut c = Canvas::new(5, 4, W);
    assert_eq!(c.get(5, 0), None);
    c.draw_rect(1, 1, 2, 1, R);
    assert_eq!(rows(&c), vec![".....", ".###.", ".###.", "....."]);
    let mut d = Canvas::new(3, 3, W);
    d.draw_rect(1, 2, 10, 10, R);
    assert_eq!(rows(&d), vec!["...", "...", ".##"]);
    let mut e = Canvas::new(3, 3, W);
    e.draw_rect(5, 5, 1, 1, R);
    assert_eq!(rows(&e), vec!["...", "...", "..."]);
}

#[test]
fn draws_rectangle_outlines() {
    let mut c = Canvas::new(6, 5, W);
    c.draw_border(1, 1, 3, 2, R);
    assert_eq!(rows(&c), vec!["......", ".####.", ".#..#.", ".####.", "......"]);
    let mut d = Canvas::new(4, 3, W);
    d.draw_border(1, 1, 5, 5, R);
    assert_eq!(rows(&d), vec!["....", ".###", ".#.."]);
}
