//! A character frame buffer for text-mode painting, and the characters that
//! stand for boxes, backgrounds and borders.
use vstd::prelude::*;
use crate::text::{chars_of, string_of, push_all};
use crate::query::unicode_lower;
use crate::http::lower_text;

verus! {

/// A grid of `width` by `height` character cells, row by row.
#[derive(Debug, PartialEq, Eq)]
pub struct FrameBuffer {
    width: usize,
    height: usize,
    cells: Vec<char>,
}

/// The text without its trailing spaces.
pub open spec fn trim_spaces_end(t: Seq<char>) -> Seq<char>
    decreases t.len(),
{
    if t.len() > 0 && t.last() == ' ' {
        trim_spaces_end(t.drop_last())
    } else {
        t
    }
}

/// The rows of a grid of width `w`, each without trailing spaces and ended by a line feed.
pub open spec fn render_rows(cells: Seq<char>, w: int) -> Seq<char>
    decreases cells.len(),
{
    if w <= 0 || cells.len() == 0 {
        seq![]
    } else {
        let end = if w < cells.len() { w } else { cells.len() as int };
        trim_spaces_end(cells.take(end)) + "\n"@ + render_rows(cells.skip(end), w)
    }
}

/// `value` at cell (x, y), when that cell exists.
pub open spec fn set_cell(cells: Seq<char>, w: int, h: int, x: int, y: int, value: char) -> Seq<char> {
    if x < w && y < h {
        cells.update(y * w + x, value)
    } else {
        cells
    }
}

/// `label` written from cell (x, y) to the right, cut at the right edge.
pub open spec fn write_label(cells: Seq<char>, w: int, h: int, x: int, y: int, label: Seq<char>, k: int) -> Seq<char>
    decreases label.len() - k,
{
    if y >= h || k < 0 || k >= label.len() || x + k >= w {
        cells
    } else {
        write_label(set_cell(cells, w, h, x + k, y, label[k]), w, h, x, y, label, k + 1)
    }
}

impl FrameBuffer {
    /// The cells, row by row.
    pub closed spec fn cells_view(&self) -> Seq<char> {
        self.cells@
    }

    pub closed spec fn width_view(&self) -> int {
        self.width as int
    }

    pub closed spec fn height_view(&self) -> int {
        self.height as int
    }

    /// There is one cell per position.
    pub closed spec fn wf(&self) -> bool {
        self.cells@.len() == self.width * self.height
    }

    /// A blank `width` by `height` grid.
    pub fn new(width: usize, height: usize) -> (r: Self)
        requires
            width * height <= usize::MAX,
        ensures
            r.wf(),
            r.width_view() == width,
            r.height_view() == height,
            r.cells_view() == Seq::new((width * height) as nat, |i: int| ' '),
    {
        let n = width * height;
        let mut cells: Vec<char> = Vec::new();
        let mut i: usize = 0;
        while i < n
            invariant
                i <= n,
                cells@ == Seq::new(i as nat, |k: int| ' '),
            decreases n - i,
        {
            cells.push(' ');
            i = i + 1;
            assert(cells@ =~= Seq::new(i as nat, |k: int| ' '));
        }
        FrameBuffer { width, height, cells }
    }

    /// The grid's width.
    pub fn width(&self) -> (r: usize)
        ensures
            r == self.width_view(),
    {
        self.width
    }

    /// The grid's height.
    pub fn height(&self) -> (r: usize)
        ensures
            r == self.height_view(),
    {
        self.height
    }

    /// The character at cell (x, y).
    pub fn get(&self, x: usize, y: usize) -> (r: Option<char>)
        requires
            self.wf(),
        ensures
            r == if x < self.width_view() && y < self.height_view() {
                Some(self.cells_view()[y * self.width_view() + x])
            } else {
                None::<char>
            },
    {
        let n = self.cells.len();
        if x < self.width && y < self.height {
            proof {
                lemma_cell_index(x as int, y as int, self.width as int, self.height as int);
            }
            Some(self.cells[y * self.width + x])
        } else {
            None
        }
    }

    /// Writes `value` at cell (x, y); outside the grid nothing changes.
    pub fn set(&mut self, x: usize, y: usize, value: char)
        requires
            old(self).wf(),
        ensures
            final(self).wf(),
            final(self).width_view() == old(self).width_view(),
            final(self).height_view() == old(self).height_view(),
            final(self).cells_view() == set_cell(
                old(self).cells_view(),
                old(self).width_view(),
                old(self).height_view(),
                x as int,
                y as int,
                value,
            ),
    {
        let n = self.cells.len();
        if x < self.width && y < self.height {
            proof {
                lemma_cell_index(x as int, y as int, self.width as int, self.height as int);
            }
            let idx = y * self.width + x;
            self.cells.set(idx, value);
        }
    }

    /// Fills the cells from (`x0`, `y0`) up to but not including (`x1`, `y1`)
    /// with `value`, cut at the grid's edges.
    pub fn fill_cells(&mut self, x0: usize, y0: usize, x1: usize, y1: usize, value: char)
        requires
            old(self).wf(),
        ensures
            final(self).wf(),
            final(self).width_view() == old(self).width_view(),
            final(self).height_view() == old(self).height_view(),
            forall|x: int, y: int|
                0 <= x < old(self).width_view() && 0 <= y < old(self).height_view()
                    ==> #[trigger] final(self).cells_view()[y * old(self).width_view() + x] == if x0 <= x < x1 && y0
                    <= y < y1 {
                    value
                } else {
                    old(self).cells_view()[y * old(self).width_view() + x]
                },
    {
        let ghost w = self.width as int;
        let ghost h = self.height as int;
        let ghost c0 = self.cells@;
        let y_end = if y1 < self.height { y1 } else { self.height };
        let x_end = if x1 < self.width { x1 } else { self.width };
        let mut y = y0;
        while y < y_end
            invariant
                self.wf(),
                self.width == w,
                self.height == h,
                y_end <= h,
                x_end <= w,
                y_end as int == if y1 < h { y1 as int } else { h },
                x_end as int == if x1 < w { x1 as int } else { w },
                y0 <= y,
                c0.len() == w * h,
                forall|qx: int, qy: int|
                    0 <= qx < w && 0 <= qy < h ==> #[trigger] self.cells@[qy * w + qx] == if x0 <= qx < x1 && y0 <= qy
                        < y1 && qy < y {
                        value
                    } else {
                        c0[qy * w + qx]
                    },
            decreases y_end - y,
        {
            let mut x = x0;
            while x < x_end
                invariant
                    self.wf(),
                    self.width == w,
                    self.height == h,
                    y0 <= y < y_end,
                    y_end <= h,
                    x_end <= w,
                    y_end as int == if y1 < h { y1 as int } else { h },
                    x_end as int == if x1 < w { x1 as int } else { w },
                    x0 <= x,
                    c0.len() == w * h,
                    forall|qx: int, qy: int|
                        0 <= qx < w && 0 <= qy < h ==> #[trigger] self.cells@[qy * w + qx] == if x0 <= qx < x1 && y0
                            <= qy < y1 && (qy < y || (qy == y && qx < x)) {
                            value
                        } else {
                            c0[qy * w + qx]
                        },
                decreases x_end - x,
            {
                let ghost before = self.cells@;
                self.set(x, y, value);
                proof {
                    crate::canvas::lemma_cell_index(w, h, x as int, y as int, x as int, y as int);
                    assert(self.cells@ == before.update(y * w + x, value));
                    assert forall|qx: int, qy: int| 0 <= qx < w && 0 <= qy < h implies #[trigger] self.cells@[qy * w + qx]
                        == if x0 <= qx < x1 && y0 <= qy < y1 && (qy < y || (qy == y && qx < x + 1)) {
                        value
                    } else {
                        c0[qy * w + qx]
                    } by {
                        crate::canvas::lemma_cell_index(w, h, qx, qy, x as int, y as int);
                    }
                }
                x = x + 1;
            }
            y = y + 1;
        }
    }

    /// Draws a box outline on the cells from (`x0`, `y0`) to (`x1`, `y1`),
    /// both included: `horizontal` along the top and bottom rows, `vertical`
    /// down the left and right columns, `corner` at the corners; rows and
    /// columns past the grid are left out, and nothing is drawn when the
    /// top-left cell is outside the grid or the box is empty.
    pub fn draw_outline_cells(
        &mut self,
        x0: usize,
        y0: usize,
        x1: usize,
        y1: usize,
        corner: char,
        horizontal: char,
        vertical: char,
    )
        requires
            old(self).wf(),
        ensures
            final(self).wf(),
            final(self).width_view() == old(self).width_view(),
            final(self).height_view() == old(self).height_view(),
            forall|x: int, y: int|
                0 <= x < old(self).width_view() && 0 <= y < old(self).height_view()
                    ==> #[trigger] final(self).cells_view()[y * old(self).width_view() + x] == outline_cell(
                    old(self).cells_view()[y * old(self).width_view() + x],
                    old(self).width_view(),
                    old(self).height_view(),
                    x0 as int,
                    y0 as int,
                    x1 as int,
                    y1 as int,
                    corner,
                    horizontal,
                    vertical,
                    x,
                    y,
                ),
    {
        let ghost w = self.width as int;
        let ghost h = self.height as int;
        let ghost c0 = self.cells@;
        if x0 >= self.width || y0 >= self.height || x1 < x0 || y1 < y0 {
            return;
        }
        let x_last = if x1 < self.width - 1 { x1 } else { self.width - 1 };
        let y_last = if y1 < self.height - 1 { y1 } else { self.height - 1 };
        let mut x = x0;
        while x <= x_last
            invariant
                self.wf(),
                self.width == w,
                self.height == h,
                x0 < w,
                y0 < h,
                x_last as int == if x1 < w - 1 { x1 as int } else { w - 1 },
                x0 <= x <= x_last + 1,
                c0.len() == w * h,
                forall|qx: int, qy: int|
                    0 <= qx < w && 0 <= qy < h ==> #[trigger] self.cells@[qy * w + qx] == if (qy == y0 || (qy == y1
                        && y1 < h)) && x0 <= qx < x {
                        horizontal
                    } else {
                        c0[qy * w + qx]
                    },
            decreases x_last + 1 - x,
        {
            let ghost before = self.cells@;
            self.set(x, y0, horizontal);
            proof {
                crate::canvas::lemma_cell_index(w, h, x as int, y0 as int, x as int, y0 as int);
                assert(self.cells@ == before.update(y0 * w + x, horizontal));
            }
            let ghost mid = self.cells@;
            if y1 < self.height {
                self.set(x, y1, horizontal);
                proof {
                    crate::canvas::lemma_cell_index(w, h, x as int, y1 as int, x as int, y1 as int);
                    assert(self.cells@ == mid.update(y1 * w + x, horizontal));
                }
            }
            proof {
                assert forall|qx: int, qy: int| 0 <= qx < w && 0 <= qy < h implies #[trigger] self.cells@[qy * w + qx]
                    == if (qy == y0 || (qy == y1 && y1 < h)) && x0 <= qx < x + 1 {
                    horizontal
                } else {
                    c0[qy * w + qx]
                } by {
                    crate::canvas::lemma_cell_index(w, h, qx, qy, x as int, y0 as int);
                    if y1 < h {
                        crate::canvas::lemma_cell_index(w, h, qx, qy, x as int, y1 as int);
                    }
                }
            }
            x = x + 1;
        }
        let ghost c1 = self.cells@;
        let mut y = y0;
        while y <= y_last
            invariant
                self.wf(),
                self.width == w,
                self.height == h,
                x0 < w,
                y0 < h,
                y_last as int == if y1 < h - 1 { y1 as int } else { h - 1 },
                y0 <= y <= y_last + 1,
                c1.len() == w * h,
                forall|qx: int, qy: int|
                    0 <= qx < w && 0 <= qy < h ==> #[trigger] self.cells@[qy * w + qx] == if (qx == x0 || (qx == x1
                        && x1 < w)) && y0 <= qy < y {
                        vertical
                    } else {
                        c1[qy * w + qx]
                    },
            decreases y_last + 1 - y,
        {
            let ghost before = self.cells@;
            self.set(x0, y, vertical);
            proof {
                crate::canvas::lemma_cell_index(w, h, x0 as int, y as int, x0 as int, y as int);
                assert(self.cells@ == before.update(y * w + x0, vertical));
            }
            let ghost mid = self.cells@;
            if x1 < self.width {
                self.set(x1, y, vertical);
                proof {
                    crate::canvas::lemma_cell_index(w, h, x1 as int, y as int, x1 as int, y as int);
                    assert(self.cells@ == mid.update(y * w + x1, vertical));
                }
            }
            proof {
                assert forall|qx: int, qy: int| 0 <= qx < w && 0 <= qy < h implies #[trigger] self.cells@[qy * w + qx]
                    == if (qx == x0 || (qx == x1 && x1 < w)) && y0 <= qy < y + 1 {
                    vertical
                } else {
                    c1[qy * w + qx]
                } by {
                    crate::canvas::lemma_cell_index(w, h, qx, qy, x0 as int, y as int);
                    if x1 < w {
                        crate::canvas::lemma_cell_index(w, h, qx, qy, x1 as int, y as int);
                    }
                }
            }
            y = y + 1;
        }
        let ghost c2 = self.cells@;
        self.set(x0, y0, corner);
        proof {
            crate::canvas::lemma_cell_index(w, h, x0 as int, y0 as int, x0 as int, y0 as int);
            assert forall|qx: int, qy: int| 0 <= qx < w && 0 <= qy < h implies #[trigger] self.cells@[qy * w + qx]
                == if qx == x0 && qy == y0 { corner } else { c2[qy * w + qx] } by {
                crate::canvas::lemma_cell_index(w, h, qx, qy, x0 as int, y0 as int);
            }
        }
        let ghost d1 = self.cells@;
        if x1 < self.width {
            self.set(x1, y0, corner);
            proof {
                crate::canvas::lemma_cell_index(w, h, x1 as int, y0 as int, x1 as int, y0 as int);
            }
        }
        proof {
            assert forall|qx: int, qy: int| 0 <= qx < w && 0 <= qy < h implies #[trigger] self.cells@[qy * w + qx]
                == if qx == x1 && qy == y0 && x1 < w { corner } else { d1[qy * w + qx] } by {
                if x1 < w {
                    crate::canvas::lemma_cell_index(w, h, qx, qy, x1 as int, y0 as int);
                }
            }
        }
        let ghost d2 = self.cells@;
        if y1 < self.height {
            self.set(x0, y1, corner);
            proof {
                crate::canvas::lemma_cell_index(w, h, x0 as int, y1 as int, x0 as int, y1 as int);
            }
        }
        proof {
            assert forall|qx: int, qy: int| 0 <= qx < w && 0 <= qy < h implies #[trigger] self.cells@[qy * w + qx]
                == if qx == x0 && qy == y1 && y1 < h { corner } else { d2[qy * w + qx] } by {
                if y1 < h {
                    crate::canvas::lemma_cell_index(w, h, qx, qy, x0 as int, y1 as int);
                }
            }
        }
        let ghost d3 = self.cells@;
        if x1 < self.width && y1 < self.height {
            self.set(x1, y1, corner);
            proof {
                crate::canvas::lemma_cell_index(w, h, x1 as int, y1 as int, x1 as int, y1 as int);
            }
        }
        proof {
            assert forall|qx: int, qy: int| 0 <= qx < w && 0 <= qy < h implies #[trigger] self.cells@[qy * w + qx]
                == if qx == x1 && qy == y1 && x1 < w && y1 < h { corner } else { d3[qy * w + qx] } by {
                if x1 < w && y1 < h {
                    crate::canvas::lemma_cell_index(w, h, qx, qy, x1 as int, y1 as int);
                }
            }
        }
        proof {
            assert forall|qx: int, qy: int| 0 <= qx < w && 0 <= qy < h implies #[trigger] self.cells@[qy * w + qx]
                == outline_cell(c0[qy * w + qx], w, h, x0 as int, y0 as int, x1 as int, y1 as int, corner, horizontal, vertical, qx, qy) by {
                assert(d1[qy * w + qx] == if qx == x0 && qy == y0 { corner } else { c2[qy * w + qx] });
                assert(d2[qy * w + qx] == if qx == x1 && qy == y0 && x1 < w { corner } else { d1[qy * w + qx] });
                assert(d3[qy * w + qx] == if qx == x0 && qy == y1 && y1 < h { corner } else { d2[qy * w + qx] });
                assert(c2[qy * w + qx] == if (qx == x0 || (qx == x1 && x1 < w)) && y0 <= qy <= y_last {
                    vertical
                } else {
                    c1[qy * w + qx]
                });
                assert(c1[qy * w + qx] == if (qy == y0 || (qy == y1 && y1 < h)) && x0 <= qx <= x_last {
                    horizontal
                } else {
                    c0[qy * w + qx]
                });
            }
        }
    }

    /// Writes `label` from cell (x, y) to the right, cut at the right edge;
    /// nothing when the row is outside the grid.
    pub fn draw_label_at_cell(&mut self, cell_x: usize, cell_y: usize, label: &str)
        requires
            old(self).wf(),
        ensures
            final(self).wf(),
            final(self).width_view() == old(self).width_view(),
            final(self).height_view() == old(self).height_view(),
            final(self).cells_view() == write_label(
                old(self).cells_view(),
                old(self).width_view(),
                old(self).height_view(),
                cell_x as int,
                cell_y as int,
                label@,
                0,
            ),
    {
        if cell_y >= self.height {
            return;
        }
        let chars = chars_of(label);
        let mut offset: usize = 0;
        while offset < chars.len()
            invariant_except_break
                self.wf(),
                self.width == old(self).width,
                self.height == old(self).height,
                cell_y < self.height,
                chars@ == label@,
                offset <= chars.len(),
                write_label(old(self).cells@, self.width as int, self.height as int, cell_x as int, cell_y as int, label@, 0)
                    == write_label(self.cells@, self.width as int, self.height as int, cell_x as int, cell_y as int, label@, offset as int),
            ensures
                self.wf(),
                self.width == old(self).width,
                self.height == old(self).height,
                self.cells@ == write_label(old(self).cells@, self.width as int, self.height as int, cell_x as int, cell_y as int, label@, 0),
            decreases chars.len() - offset,
        {
            if cell_x >= self.width || offset >= self.width - cell_x {
                break;
            }
            let x = cell_x + offset;
            self.set(x, cell_y, chars[offset]);
            offset = offset + 1;
        }
    }

    /// The grid shown row by row, trailing spaces dropped, each row ended by a line feed.
    pub fn to_string(&self) -> (r: String)
        requires
            self.wf(),
            self.width_view() > 0,
        ensures
            r@ == render_rows(self.cells_view(), self.width_view()),
    {
        let w = self.width;
        let n = self.cells.len();
        let mut out: Vec<char> = Vec::new();
        let mut start: usize = 0;
        assert(self.cells@.skip(0) =~= self.cells@);
        while start < n
            invariant
                w == self.width,
                w > 0,
                n == self.cells@.len(),
                start <= n,
                out@ + render_rows(self.cells@.skip(start as int), w as int) == render_rows(self.cells@, w as int),
            decreases n - start,
        {
            let end = if n - start > w { start + w } else { n };
            let mut e = end;
            while e > start && self.cells[e - 1] == ' '
                invariant
                    start <= e <= end <= n,
                    n == self.cells@.len(),
                    trim_spaces_end(self.cells@.subrange(start as int, end as int)) == trim_spaces_end(
                        self.cells@.subrange(start as int, e as int),
                    ),
                decreases e - start,
            {
                assert(self.cells@.subrange(start as int, e as int).drop_last() =~= self.cells@.subrange(
                    start as int,
                    e - 1,
                ));
                e = e - 1;
            }
            let ghost before = out@;
            let mut k = start;
            while k < e
                invariant
                    start <= k <= e <= n,
                    n == self.cells@.len(),
                    out@ == before + self.cells@.subrange(start as int, k as int),
                decreases e - k,
            {
                out.push(self.cells[k]);
                k = k + 1;
                assert(out@ =~= before + self.cells@.subrange(start as int, k as int));
            }
            out.push('\n');
            proof {
                let rest = self.cells@.skip(start as int);
                assert(rest.take(end - start) =~= self.cells@.subrange(start as int, end as int));
                assert(rest.skip(end - start) =~= self.cells@.skip(end as int));
                assert(e > start ==> self.cells@[e - 1] != ' ');
                assert(trim_spaces_end(self.cells@.subrange(start as int, e as int)) == self.cells@.subrange(
                    start as int,
                    e as int,
                ));
                reveal_strlit("\n");
                assert(out@ + render_rows(self.cells@.skip(end as int), w as int) =~= before + render_rows(
                    rest,
                    w as int,
                ));
            }
            start = end;
        }
        proof {
            assert(self.cells@.skip(start as int) =~= seq![]);
        }
        string_of(out.as_slice())
    }
}

/// A cell of a `w` by `h` grid lies inside the cell list.
proof fn lemma_cell_index(x: int, y: int, w: int, h: int)
    requires
        0 <= x < w,
        0 <= y < h,
    ensures
        0 <= y * w + x < w * h,
        0 <= y * w,
{
    assert(y * w + x < w * h) by (nonlinear_arith)
        requires
            0 <= x < w,
            0 <= y < h,
    ;
    assert(0 <= y * w) by (nonlinear_arith)
        requires
            0 <= y,
            0 <= w,
    ;
}

/// The character of cell (`x`, `y`) after an outline is drawn from (`x0`,
/// `y0`) to (`x1`, `y1`) on a `w` by `h` grid where it was `old`: a corner,
/// else on the left or right column, else on the top or bottom row, else as
/// it was; nothing is drawn when the top-left cell is outside the grid or the
/// box is empty.
pub open spec fn outline_cell(
    old: char,
    w: int,
    h: int,
    x0: int,
    y0: int,
    x1: int,
    y1: int,
    corner: char,
    horizontal: char,
    vertical: char,
    x: int,
    y: int,
) -> char {
    let on_col = x == x0 || (x == x1 && x1 < w);
    let on_row = y == y0 || (y == y1 && y1 < h);
    if x0 >= w || y0 >= h || x1 < x0 || y1 < y0 {
        old
    } else if on_col && on_row {
        corner
    } else if on_col && y0 <= y <= y1 {
        vertical
    } else if on_row && x0 <= x <= x1 {
        horizontal
    } else {
        old
    }
}

/// The first `max` characters, then `...` when something was cut.
pub open spec fn truncated(v: Seq<char>, max: int) -> Seq<char> {
    if v.len() > max {
        v.take(max) + "..."@
    } else {
        v
    }
}

/// At most `max_chars` characters of the label, `...` marking a cut.
pub fn truncate_label(value: &str, max_chars: usize) -> (r: String)
    ensures
        r@ == truncated(value@, max_chars as int),
{
    let cs = chars_of(value);
    let n = if cs.len() < max_chars { cs.len() } else { max_chars };
    let mut out = crate::text::slice_of(cs.as_slice(), 0, n);
    if cs.len() > max_chars {
        crate::text::push_str(&mut out, "...");
    }
    proof {
        if cs.len() <= max_chars {
            assert(cs@.subrange(0, n as int) =~= value@);
        } else {
            assert(cs@.subrange(0, n as int) =~= value@.take(max_chars as int));
        }
    }
    string_of(out.as_slice())
}

/// ASCII lower-case letters in upper case; other characters unchanged.
pub open spec fn ascii_upper(c: char) -> char {
    if 'a' <= c && c <= 'z' {
        ((c as u32) - 32) as char
    } else {
        c
    }
}

fn upper_char(c: char) -> (r: char)
    ensures
        r == ascii_upper(c),
{
    if 'a' <= c && c <= 'z' {
        let b = (c as u32) as u8;
        ((b - 32) as char)
    } else {
        c
    }
}

/// The first character of a text, or `dflt`.
pub open spec fn first_or(t: Seq<char>, dflt: char) -> char {
    if t.len() > 0 {
        t[0]
    } else {
        dflt
    }
}

fn first_char_or(t: &str, dflt: char) -> (r: char)
    ensures
        r == first_or(t@, dflt),
{
    if t.unicode_len() > 0 {
        t.get_char(0)
    } else {
        dflt
    }
}

/// The character that fills a box: the first of its colour, else one chosen by tag.
pub open spec fn box_fill(tag: Seq<char>, color: Option<Seq<char>>) -> char {
    match color {
        Some(c) => first_or(c, first_or(tag, '#')),
        None => if tag == "html"@ {
            '='
        } else if tag == "body"@ {
            ':'
        } else if tag == "section"@ {
            '+'
        } else if tag == "h1"@ {
            '#'
        } else if tag == "p"@ {
            '-'
        } else {
            first_or(tag, '?')
        },
    }
}

/// The character that fills a box of the given tag and colour.
pub fn box_fill_char(tag_name: &str, color: Option<&str>) -> (r: char)
    ensures
        r == box_fill(tag_name@, crate::css::opt_str(color)),
{
    if let Some(c) = color {
        return first_char_or(c, first_char_or(tag_name, '#'));
    }
    let eq = |lit: &str| -> (b: bool)
        ensures
            b == (tag_name@ == lit@),
        { crate::strmap::str_eq(tag_name, lit) };
    if eq("html") {
        '='
    } else if eq("body") {
        ':'
    } else if eq("section") {
        '+'
    } else if eq("h1") {
        '#'
    } else if eq("p") {
        '-'
    } else {
        first_char_or(tag_name, '?')
    }
}

/// The character that fills a background: blank for white or transparent
/// (compared in lower case), else the first of the colour; without a
/// background, the box's fill.
pub open spec fn background_fill(tag: Seq<char>, bg: Option<Seq<char>>, color: Option<Seq<char>>) -> char {
    match bg {
        Some(b) => {
            let low = unicode_lower(b);
            if low == "white"@ || low == "#fff"@ || low == "#ffffff"@ || low == "transparent"@ {
                ' '
            } else {
                first_or(b, ' ')
            }
        },
        None => box_fill(tag, color),
    }
}

/// The character that fills a box's background.
pub fn background_fill_char(tag_name: &str, background_color: Option<&str>, color: Option<&str>) -> (r: char)
    ensures
        r == background_fill(tag_name@, crate::css::opt_str(background_color), crate::css::opt_str(color)),
{
    if let Some(bg) = background_color {
        let bc = chars_of(bg);
        let low = crate::query::to_lowercase(bc.as_slice());
        if crate::text::eq_str(low.as_slice(), "white") || crate::text::eq_str(low.as_slice(), "#fff")
            || crate::text::eq_str(low.as_slice(), "#ffffff") || crate::text::eq_str(
            low.as_slice(),
            "transparent",
        ) {
            return ' ';
        }
        return first_char_or(bg, ' ');
    }
    box_fill_char(tag_name, color)
}

/// The character that draws a border: the first of its colour in upper case
/// (`*` for an empty colour); without one, the box's fill in upper case.
pub open spec fn border_fill(tag: Seq<char>, border: Option<Seq<char>>, color: Option<Seq<char>>) -> char {
    match border {
        Some(b) => if b.len() > 0 {
            ascii_upper(b[0])
        } else {
            '*'
        },
        None => ascii_upper(box_fill(tag, color)),
    }
}

/// The character that draws a box's border.
pub fn border_fill_char(tag_name: &str, border_color: Option<&str>, color: Option<&str>) -> (r: char)
    ensures
        r == border_fill(tag_name@, crate::css::opt_str(border_color), crate::css::opt_str(color)),
{
    if let Some(b) = border_color {
        if b.unicode_len() > 0 {
            return upper_char(b.get_char(0));
        }
        return '*';
    }
    upper_char(box_fill_char(tag_name, color))
}

} // verus!
