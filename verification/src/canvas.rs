//! An RGBA pixel canvas for screenshots, with filled rectangles and
//! rectangle outlines.
use vstd::prelude::*;

verus! {

/// One pixel: red, green, blue, alpha.
pub type Rgba = (u8, u8, u8, u8);

/// A `width` by `height` grid of pixels, row by row.
pub struct Canvas {
    width: u32,
    height: u32,
    pixels: Vec<Rgba>,
}

/// Whether pixel (`px`, `py`) lies in the rectangle from (`x`, `y`) to
/// (`x + w`, `y + h`), both ends included, cut at the canvas's last row and column.
pub open spec fn in_rect(cw: int, ch: int, x: int, y: int, w: int, h: int, px: int, py: int) -> bool {
    &&& x <= px <= x + w
    &&& px <= cw - 1
    &&& y <= py <= y + h
    &&& py <= ch - 1
}

/// Whether pixel (`px`, `py`) lies on the outline of that rectangle: on its top
/// or bottom row within its columns, or on its left or right column within
/// its rows, cut at the canvas's last row and column.
pub open spec fn on_outline(cw: int, ch: int, x: int, y: int, w: int, h: int, px: int, py: int) -> bool {
    ||| (py == y || py == y + h) && x <= px <= x + w && px <= cw - 1 && py < ch
    ||| (px == x || px == x + w) && y <= py <= y + h && py <= ch - 1 && px < cw
}

impl Canvas {
    pub closed spec fn width_view(&self) -> int {
        self.width as int
    }

    pub closed spec fn height_view(&self) -> int {
        self.height as int
    }

    /// The pixels, row by row.
    pub closed spec fn pixels_view(&self) -> Seq<Rgba> {
        self.pixels@
    }

    /// As many pixels as the grid has.
    pub closed spec fn wf(&self) -> bool {
        self.pixels@.len() == self.width * self.height
    }

    /// A `width` by `height` canvas filled with `fill`.
    pub fn new(width: u32, height: u32, fill: Rgba) -> (r: Self)
        requires
            width * height <= usize::MAX,
        ensures
            r.wf(),
            r.width_view() == width,
            r.height_view() == height,
            r.pixels_view() == Seq::new((width * height) as nat, |i: int| fill),
    {
        let n: usize = (width as usize) * (height as usize);
        let mut pixels: Vec<Rgba> = Vec::new();
        let mut i: usize = 0;
        while i < n
            invariant
                i <= n,
                pixels@ == Seq::new(i as nat, |k: int| fill),
            decreases n - i,
        {
            pixels.push(fill);
            i = i + 1;
            assert(pixels@ =~= Seq::new(i as nat, |k: int| fill));
        }
        Canvas { width, height, pixels }
    }

    pub fn width(&self) -> (r: u32)
        ensures
            r == self.width_view(),
    {
        self.width
    }

    pub fn height(&self) -> (r: u32)
        ensures
            r == self.height_view(),
    {
        self.height
    }

    /// The pixel at (`x`, `y`), if the canvas has it.
    pub fn get(&self, x: u32, y: u32) -> (r: Option<Rgba>)
        requires
            self.wf(),
        ensures
            r == if x < self.width_view() && y < self.height_view() {
                Some(self.pixels_view()[y * self.width_view() + x])
            } else {
                None::<Rgba>
            },
    {
        if x < self.width && y < self.height {
            let n = self.pixels.len();
            proof {
                assert(y * self.width + x < self.width * self.height) by (nonlinear_arith)
                    requires
                        x < self.width,
                        y < self.height,
                ;
                assert(0 <= y * self.width) by (nonlinear_arith);
            }
            let i = (y as usize) * (self.width as usize) + (x as usize);
            Some(self.pixels[i])
        } else {
            None
        }
    }

    fn put(&mut self, x: u32, y: u32, color: Rgba)
        requires
            old(self).wf(),
            x < old(self).width_view(),
            y < old(self).height_view(),
        ensures
            final(self).wf(),
            final(self).width_view() == old(self).width_view(),
            final(self).height_view() == old(self).height_view(),
            final(self).pixels_view() == old(self).pixels_view().update(y * old(self).width_view() + x, color),
    {
        let n = self.pixels.len();
        proof {
            assert(y * self.width + x < self.width * self.height) by (nonlinear_arith)
                requires
                    x < self.width,
                    y < self.height,
            ;
            assert(0 <= y * self.width) by (nonlinear_arith);
        }
        let i = (y as usize) * (self.width as usize) + (x as usize);
        self.pixels.set(i, color);
    }

    /// Fills the rectangle from (`x`, `y`) to (`x + w`, `y + h`), both ends
    /// included, with `color`; the part past the canvas's last row or column
    /// is left out.
    pub fn draw_rect(&mut self, x: u32, y: u32, w: u32, h: u32, color: Rgba)
        requires
            old(self).wf(),
            old(self).width_view() > 0,
            old(self).height_view() > 0,
            x + w <= u32::MAX,
            y + h <= u32::MAX,
        ensures
            final(self).wf(),
            final(self).width_view() == old(self).width_view(),
            final(self).height_view() == old(self).height_view(),
            forall|px: int, py: int|
                0 <= px < old(self).width_view() && 0 <= py < old(self).height_view()
                    ==> #[trigger] final(self).pixels_view()[py * old(self).width_view() + px] == if in_rect(
                    old(self).width_view(),
                    old(self).height_view(),
                    x as int,
                    y as int,
                    w as int,
                    h as int,
                    px,
                    py,
                ) {
                    color
                } else {
                    old(self).pixels_view()[py * old(self).width_view() + px]
                },
    {
        let ghost cw = self.width as int;
        let ghost chh = self.height as int;
        let ghost p0 = self.pixels@;
        let y_end = if y + h < self.height - 1 { y + h } else { self.height - 1 };
        let x_end = if x + w < self.width - 1 { x + w } else { self.width - 1 };
        let mut py = y;
        while py <= y_end
            invariant
                self.wf(),
                self.width == cw,
                self.height == chh,
                cw > 0,
                chh > 0,
                y <= py,
                y_end < chh,
                x_end < cw,
                y_end as int == if y + h < chh - 1 { y + h } else { chh - 1 },
                x_end as int == if x + w < cw - 1 { x + w } else { cw - 1 },
                py <= y_end + 1 || py == y,
                p0.len() == cw * chh,
                forall|qx: int, qy: int|
                    0 <= qx < cw && 0 <= qy < chh ==> #[trigger] self.pixels@[qy * cw + qx] == if in_rect(
                        cw,
                        chh,
                        x as int,
                        y as int,
                        w as int,
                        h as int,
                        qx,
                        qy,
                    ) && qy < py {
                        color
                    } else {
                        p0[qy * cw + qx]
                    },
            decreases y_end + 1 - py,
        {
            let mut px = x;
            while px <= x_end
                invariant
                    self.wf(),
                    self.width == cw,
                    self.height == chh,
                    cw > 0,
                    chh > 0,
                    y <= py <= y_end,
                    y_end < chh,
                    x_end < cw,
                    y_end as int == if y + h < chh - 1 { y + h } else { chh - 1 },
                    x_end as int == if x + w < cw - 1 { x + w } else { cw - 1 },
                    x <= px,
                    px <= x_end + 1 || px == x,
                    p0.len() == cw * chh,
                    forall|qx: int, qy: int|
                        0 <= qx < cw && 0 <= qy < chh ==> #[trigger] self.pixels@[qy * cw + qx] == if in_rect(
                            cw,
                            chh,
                            x as int,
                            y as int,
                            w as int,
                            h as int,
                            qx,
                            qy,
                        ) && (qy < py || (qy == py && qx < px)) {
                            color
                        } else {
                            p0[qy * cw + qx]
                        },
                decreases x_end + 1 - px,
            {
                let ghost before = self.pixels@;
                self.put(px, py, color);
                assert(self.pixels@ == before.update(py * cw + px, color));
                assert(in_rect(cw, chh, x as int, y as int, w as int, h as int, px as int, py as int));
                proof {
                    assert forall|qx: int, qy: int| 0 <= qx < cw && 0 <= qy < chh implies #[trigger] self.pixels@[qy
                        * cw + qx] == if in_rect(cw, chh, x as int, y as int, w as int, h as int, qx, qy) && (qy < py
                        || (qy == py && qx < px + 1)) {
                        color
                    } else {
                        p0[qy * cw + qx]
                    } by {
                        lemma_cell_index(cw, chh, qx, qy, px as int, py as int);
                        lemma_cell_index(cw, chh, px as int, py as int, px as int, py as int);
                        if qx != px || qy != py {
                            assert(self.pixels@[qy * cw + qx] == before[qy * cw + qx]);
                        }
                    }
                }
                px = px + 1;
            }
            proof {
                assert forall|qx: int, qy: int| 0 <= qx < cw && 0 <= qy < chh implies #[trigger] self.pixels@[qy * cw
                    + qx] == if in_rect(cw, chh, x as int, y as int, w as int, h as int, qx, qy) && qy < py + 1 {
                    color
                } else {
                    p0[qy * cw + qx]
                } by {
                    if qy == py && in_rect(cw, chh, x as int, y as int, w as int, h as int, qx, qy) {
                        assert(qx <= x_end);
                    }
                }
            }
            py = py + 1;
        }
    }

    /// Draws the outline of the rectangle from (`x`, `y`) to (`x + w`,
    /// `y + h`) in `color`: its top and bottom rows and its left and right
    /// columns, each left out where it lies past the canvas.
    pub fn draw_border(&mut self, x: u32, y: u32, w: u32, h: u32, color: Rgba)
        requires
            old(self).wf(),
            old(self).width_view() > 0,
            old(self).height_view() > 0,
            x + w <= u32::MAX,
            y + h <= u32::MAX,
        ensures
            final(self).wf(),
            final(self).width_view() == old(self).width_view(),
            final(self).height_view() == old(self).height_view(),
            forall|px: int, py: int|
                0 <= px < old(self).width_view() && 0 <= py < old(self).height_view()
                    ==> #[trigger] final(self).pixels_view()[py * old(self).width_view() + px] == if on_outline(
                    old(self).width_view(),
                    old(self).height_view(),
                    x as int,
                    y as int,
                    w as int,
                    h as int,
                    px,
                    py,
                ) {
                    color
                } else {
                    old(self).pixels_view()[py * old(self).width_view() + px]
                },
    {
        let ghost cw = self.width as int;
        let ghost chh = self.height as int;
        let ghost p0 = self.pixels@;
        let x_end = if x + w < self.width - 1 { x + w } else { self.width - 1 };
        let y_end = if y + h < self.height - 1 { y + h } else { self.height - 1 };
        let mut px = x;
        while px <= x_end
            invariant
                self.wf(),
                self.width == cw,
                self.height == chh,
                cw > 0,
                chh > 0,
                x_end as int == if x + w < cw - 1 { x + w } else { cw - 1 },
                x + w <= u32::MAX,
                y + h <= u32::MAX,
                x <= px,
                px <= x_end + 1 || px == x,
                p0.len() == cw * chh,
                forall|qx: int, qy: int|
                    0 <= qx < cw && 0 <= qy < chh ==> #[trigger] self.pixels@[qy * cw + qx] == if (qy == y || qy
                        == y + h) && x <= qx < px && qy < chh {
                        color
                    } else {
                        p0[qy * cw + qx]
                    },
            decreases x_end + 1 - px,
        {
            if y < self.height {
                let ghost before = self.pixels@;
                self.put(px, y, color);
                assert(self.pixels@ == before.update((y as int) * cw + (px as int), color));
                proof {
                    lemma_cell_index(cw, chh, px as int, y as int, px as int, y as int);
                    assert forall|qx: int, qy: int| 0 <= qx < cw && 0 <= qy < chh && (qx != px || qy != y) implies #[trigger] self.pixels@[qy * cw + qx] == before[qy * cw + qx] by {
                        lemma_cell_index(cw, chh, qx, qy, px as int, y as int);
                    }
                }
            }
            if y + h < self.height {
                let ghost before = self.pixels@;
                self.put(px, y + h, color);
                assert(self.pixels@ == before.update((y + h) * cw + (px as int), color));
                proof {
                    lemma_cell_index(cw, chh, px as int, y + h, px as int, y + h);
                    assert forall|qx: int, qy: int| 0 <= qx < cw && 0 <= qy < chh && (qx != px || qy != y + h) implies #[trigger] self.pixels@[qy * cw + qx] == before[qy * cw + qx] by {
                        lemma_cell_index(cw, chh, qx, qy, px as int, y + h);
                    }
                }
            }
            px = px + 1;
        }
        let ghost p1 = self.pixels@;
        let mut py = y;
        while py <= y_end
            invariant
                self.wf(),
                self.width == cw,
                self.height == chh,
                cw > 0,
                chh > 0,
                x_end as int == if x + w < cw - 1 { x + w } else { cw - 1 },
                y_end as int == if y + h < chh - 1 { y + h } else { chh - 1 },
                x + w <= u32::MAX,
                y + h <= u32::MAX,
                y <= py,
                py <= y_end + 1 || py == y,
                p1.len() == cw * chh,
                forall|qx: int, qy: int|
                    0 <= qx < cw && 0 <= qy < chh ==> #[trigger] self.pixels@[qy * cw + qx] == if (qx == x || qx
                        == x + w) && y <= qy < py && qx < cw {
                        color
                    } else {
                        p1[qy * cw + qx]
                    },
            decreases y_end + 1 - py,
        {
            if x < self.width {
                let ghost before = self.pixels@;
                self.put(x, py, color);
                assert(self.pixels@ == before.update((py as int) * cw + (x as int), color));
                proof {
                    lemma_cell_index(cw, chh, x as int, py as int, x as int, py as int);
                    assert forall|qx: int, qy: int| 0 <= qx < cw && 0 <= qy < chh && (qx != x || qy != py) implies #[trigger] self.pixels@[qy * cw + qx] == before[qy * cw + qx] by {
                        lemma_cell_index(cw, chh, qx, qy, x as int, py as int);
                    }
                }
            }
            if x + w < self.width {
                let ghost before = self.pixels@;
                self.put(x + w, py, color);
                assert(self.pixels@ == before.update((py as int) * cw + (x + w), color));
                proof {
                    lemma_cell_index(cw, chh, x + w, py as int, x + w, py as int);
                    assert forall|qx: int, qy: int| 0 <= qx < cw && 0 <= qy < chh && (qx != x + w || qy != py) implies #[trigger] self.pixels@[qy * cw + qx] == before[qy * cw + qx] by {
                        lemma_cell_index(cw, chh, qx, qy, x + w, py as int);
                    }
                }
            }
            py = py + 1;
        }
        proof {
            assert forall|qx: int, qy: int| 0 <= qx < cw && 0 <= qy < chh implies #[trigger] self.pixels@[qy * cw
                + qx] == if on_outline(cw, chh, x as int, y as int, w as int, h as int, qx, qy) {
                color
            } else {
                p0[qy * cw + qx]
            } by {
                assert(self.pixels@[qy * cw + qx] == if (qx == x || qx == x + w) && y <= qy < py && qx < cw {
                    color
                } else {
                    p1[qy * cw + qx]
                });
                assert(p1[qy * cw + qx] == if (qy == y || qy == y + h) && x <= qx < px && qy < chh {
                    color
                } else {
                    p0[qy * cw + qx]
                });
            }
        }
    }
}

/// Distinct cells of a grid have distinct indices.
pub(crate) proof fn lemma_cell_index(cw: int, ch: int, qx: int, qy: int, px: int, py: int)
    requires
        0 <= qx < cw,
        0 <= px < cw,
        0 <= qy < ch,
        0 <= py < ch,
    ensures
        (qy * cw + qx == py * cw + px) == (qx == px && qy == py),
        0 <= qy * cw + qx < cw * ch,
{
    assert(0 <= qy * cw + qx < cw * ch) by (nonlinear_arith)
        requires
            0 <= qx < cw,
            0 <= qy < ch,
    ;
    if qy * cw + qx == py * cw + px {
        assert(qx == px && qy == py) by (nonlinear_arith)
            requires
                qy * cw + qx == py * cw + px,
                0 <= qx < cw,
                0 <= px < cw,
        {
            if qy > py {
                assert(qy * cw >= py * cw + cw);
            } else if qy < py {
                assert(py * cw >= qy * cw + cw);
            }
        }
    }
}

} // verus!
