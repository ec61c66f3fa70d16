use aurora::atlas::AtlasPacker;

#[test]
fn test_packer() {
    let mut packer = AtlasPacker::new(256, 256);

    let pos1 = packer.pack(16, 16);
    assert!(pos1.is_some());

    let pos2 = packer.pack(16, 16);
    assert!(pos2.is_some());

    assert_eq!(pos1.unwrap().1, pos2.unwrap().1);
}

#[test]
fn packs_left_to_right_then_opens_rows() {
    let mut packer = AtlasPacker::new(40, 30);
    assert_eq!(packer.pack(16, 10), Some((0, 0)));
    assert_eq!(packer.pack(16, 8), Some((16, 0)));
    // Does not fit the rest of the first row: a new row below it.
    assert_eq!(packer.pack(16, 10), Some((0, 10)));
    // A smaller glyph goes back into the first row with room.
    assert_eq!(packer.pack(8, 5), Some((32, 0)));
    // Fits the second row.
    assert_eq!(packer.pack(4, 10), Some((16, 10)));
    // Taller than every row, and no room for a row that tall below.
    assert_eq!(packer.pack(4, 11), None);
    // Wider than what is left in any row: a new row at the bottom.
    assert_eq!(packer.pack(40, 10), Some((0, 20)));
    assert_eq!(packer.pack(1, 1), Some((20, 10)));
    assert_eq!(packer.pack(40, 1), None);
}

#[test]
fn refuses_glyphs_taller_than_the_atlas() {
    let mut packer = AtlasPacker::new(64, 16);
    assert_eq!(packer.pack(8, 17), None);
    assert_eq!(packer.pack(8, 16), Some((0, 0)));
    assert_eq!(packer.pack(8, 1), Some((8, 0)));
}

#[test]
fn placed_rectangles_never_overlap() {
    let mut packer = AtlasPacker::new(50, 50);
    let sizes = [(10u32, 7u32), (20, 9), (15, 7), (30, 3), (9, 9), (11, 12), (50, 5), (3, 3), (25, 10)];
    let mut placed: Vec<(u32, u32, u32, u32)> = Vec::new();
    for (w, h) in sizes {
        if let Some((x, y)) = packer.pack(w, h) {
            for &(px, py, pw, ph) in &placed {
                let apart = x + w <= px || px + pw <= x || y + h <= py || py + ph <= y;
                assert!(apart, "({x},{y},{w},{h}) overlaps ({px},{py},{pw},{ph})");
            }
            placed.push((x, y, w, h));
        }
    }
    assert!(placed.len() >= 6);
}

#[test]
fn packed_glyphs_lie_inside_the_atlas() {
    let mut packer = AtlasPacker::new(64, 64);
    let sizes = [(10u32, 12u32), (30, 8), (25, 12), (60, 20), (5, 5), (40, 10), (64, 9), (7, 30)];
    for (w, h) in sizes {
        if let Some((x, y)) = packer.pack(w, h) {
            assert!(x + w <= 64 && y + h <= 64);
        }
    }
    // A glyph wider than the atlas still opens a row at the left edge.
    let mut narrow = AtlasPacker::new(256, 256);
    assert_eq!(narrow.pack(300, 10), Some((0, 0)));
}
