use aurora::cells::{
    background_fill_char, border_fill_char, box_fill_char, truncate_label, FrameBuffer,
};

#[test]
fn new_buffer_is_blank() {
    let fb = FrameBuffer::new(3, 2);
    assert_eq!(fb.width(), 3);
    assert_eq!(fb.height(), 2);
    assert_eq!(fb.get(2, 1), Some(' '));
    assert_eq!(fb.get(3, 0), None);
    assert_eq!(fb.get(0, 2), None);
    assert_eq!(fb.to_string(), "\n\n");
}

#[test]
fn sets_cells_inside_the_grid_only() {
    let mut fb = FrameBuffer::new(4, 2);
    fb.set(1, 0, 'x');
    fb.set(3, 1, 'y');
    fb.set(4, 0, 'z');
    fb.set(0, 2, 'z');
    assert_eq!(fb.get(1, 0), Some('x'));
    assert_eq!(fb.to_string(), " x\n   y\n");
}

#[test]
fn draws_labels_cut_at_the_right_edge() {
    let mut fb = FrameBuffer::new(6, 2);
    fb.draw_label_at_cell(2, 1, "hello");
    fb.draw_label_at_cell(0, 5, "gone");
    fb.draw_label_at_cell(9, 0, "gone");
    assert_eq!(fb.to_string(), "\n  hell\n");
}

#[test]
fn truncates_long_labels() {
    assert_eq!(truncate_label("short", 10), "short");
    assert_eq!(truncate_label("exactly", 7), "exactly");
    assert_eq!(truncate_label("a long label", 6), "a long...");
    assert_eq!(truncate_label("", 0), "");
}

#[test]
fn picks_fill_characters() {
    assert_eq!(box_fill_char("html", None), '=');
    assert_eq!(box_fill_char("body", None), ':');
    assert_eq!(box_fill_char("section", None), '+');
    assert_eq!(box_fill_char("h1", None), '#');
    assert_eq!(box_fill_char("p", None), '-');
    assert_eq!(box_fill_char("div", None), 'd');
    assert_eq!(box_fill_char("", None), '?');
    assert_eq!(box_fill_char("div", Some("red")), 'r');
    assert_eq!(box_fill_char("div", Some("")), 'd');
    assert_eq!(box_fill_char("", Some("")), '#');

    assert_eq!(background_fill_char("div", Some("White"), None), ' ');
    assert_eq!(background_fill_char("div", Some("#FFF"), None), ' ');
    assert_eq!(background_fill_char("div", Some("transparent"), None), ' ');
    assert_eq!(background_fill_char("div", Some("blue"), None), 'b');
    assert_eq!(background_fill_char("p", None, None), '-');

    assert_eq!(border_fill_char("div", Some("green"), None), 'G');
    assert_eq!(border_fill_char("div", Some(""), None), '*');
    assert_eq!(border_fill_char("div", None, None), 'D');
    assert_eq!(border_fill_char("p", None, None), '-');
}

fn grid(fb: &FrameBuffer) -> Vec<String> {
    (0..fb.height())
        .map(|y| (0..fb.width()).map(|x| fb.get(x, y).unwrap()).collect())
        .collect()
}

#[test]
fn fills_cell_ranges() {
    let mut fb = FrameBuffer::new(5, 3);
    fb.fill_cells(1, 0, 3, 2, '#');
    assert_eq!(grid(&fb), vec![" ##  ", " ##  ", "     "]);
    fb.fill_cells(4, 2, 99, 99, '*');
    assert_eq!(grid(&fb), vec![" ##  ", " ##  ", "    *"]);
    fb.fill_cells(3, 0, 2, 3, '!');
    assert_eq!(grid(&fb), vec![" ##  ", " ##  ", "    *"]);
}

#[test]
fn draws_cell_outlines() {
    let mut fb = FrameBuffer::new(6, 4);
    fb.draw_outline_cells(1, 0, 4, 2, '+', '-', '|');
    assert_eq!(grid(&fb), vec![" +--+ ", " |  | ", " +--+ ", "      "]);
    let mut clipped = FrameBuffer::new(4, 3);
    clipped.draw_outline_cells(1, 1, 9, 9, '+', '-', '|');
    assert_eq!(grid(&clipped), vec!["    ", " +--", " |  "]);
    let mut none = FrameBuffer::new(3, 3);
    none.draw_outline_cells(2, 2, 1, 1, '+', '-', '|');
    none.draw_outline_cells(3, 0, 4, 1, '+', '-', '|');
    assert_eq!(grid(&none), vec!["   ", "   ", "   "]);
    let mut dot = FrameBuffer::new(3, 3);
    dot.draw_outline_cells(1, 1, 1, 1, '+', '-', '|');
    assert_eq!(grid(&dot), vec!["   ", " + ", "   "]);
}
