//! The glyph atlas texture: row-based packing of glyph rectangles, and the
//! copying of grey-scale glyph bitmaps into the RGBA texture.
use vstd::prelude::*;

verus! {

/// A row of the layout: its top, its height, and how far along it is used.
struct PackRow {
    y: u32,
    height: u32,
    x_cursor: u32,
}

/// Places rectangles into a `width` by `height` area, row by row: a rectangle goes
/// into the first row where it fits, or else into a new row below all others.
pub struct AtlasPacker {
    width: u32,
    height: u32,
    rows: Vec<PackRow>,
    /// Every rectangle handed out, as (x, y, width, height, row).
    issued: Ghost<Seq<(int, int, int, int, int)>>,
}

/// A row by its values: (top, height, used width).
pub type RowView = (int, int, int);

/// Two rectangles (x, y, width, height) share no point.
pub open spec fn disjoint(a: (int, int, int, int), b: (int, int, int, int)) -> bool {
    a.0 + a.2 <= b.0 || b.0 + b.2 <= a.0 || a.1 + a.3 <= b.1 || b.1 + b.3 <= a.1
}

/// The first row from `i` on with room for a `gw` by `gh` rectangle.
pub open spec fn first_fit(rows: Seq<RowView>, i: int, width: int, gw: int, gh: int) -> Option<int>
    decreases rows.len() - i,
{
    if i < 0 || i >= rows.len() {
        None
    } else if rows[i].2 + gw <= width && gh <= rows[i].1 {
        Some(i)
    } else {
        first_fit(rows, i + 1, width, gw, gh)
    }
}

/// The lowest bottom edge of the first `n` rows, 0 when there are none.
pub open spec fn next_row_y(rows: Seq<RowView>, n: int) -> int
    decreases n,
{
    if n <= 0 || n > rows.len() {
        0
    } else {
        let m = next_row_y(rows, n - 1);
        let b = rows[n - 1].0 + rows[n - 1].1;
        if b > m {
            b
        } else {
            m
        }
    }
}

proof fn lemma_next_row_y(rows: Seq<RowView>, n: int)
    requires
        0 <= n <= rows.len(),
    ensures
        forall|i: int| 0 <= i < n ==> #[trigger] rows[i].0 + rows[i].1 <= next_row_y(rows, n),
        next_row_y(rows, n) >= 0,
    decreases n,
{
    if n > 0 {
        lemma_next_row_y(rows, n - 1);
    }
}

/// A rectangle that shares no point with any of a list of pairwise disjoint
/// rectangles keeps the list pairwise disjoint when added to it.
proof fn lemma_push_disjoint(ps: Seq<(int, int, int, int)>, n: (int, int, int, int))
    requires
        forall|a: int, b: int| 0 <= a < b < ps.len() ==> disjoint(#[trigger] ps[a], #[trigger] ps[b]),
        forall|k: int| 0 <= k < ps.len() ==> disjoint(n, #[trigger] ps[k]),
    ensures
        forall|a: int, b: int|
            0 <= a < b < ps.push(n).len() ==> disjoint(#[trigger] ps.push(n)[a], #[trigger] ps.push(n)[b]),
{
    let qs = ps.push(n);
    assert forall|a: int, b: int| 0 <= a < b < qs.len() implies disjoint(#[trigger] qs[a], #[trigger] qs[b]) by {
        if b == ps.len() {
            assert(qs[b] == n);
            assert(qs[a] == ps[a]);
            assert(disjoint(n, ps[a]));
        } else {
            assert(qs[a] == ps[a] && qs[b] == ps[b]);
        }
    }
}

impl AtlasPacker {
    /// The rows, top to bottom as they were opened.
    pub closed spec fn rows_view(&self) -> Seq<RowView> {
        self.rows@.map_values(|r: PackRow| (r.y as int, r.height as int, r.x_cursor as int))
    }

    /// The width of the area.
    pub closed spec fn area_width(&self) -> int {
        self.width as int
    }

    /// The height of the area.
    pub closed spec fn area_height(&self) -> int {
        self.height as int
    }

    /// The rectangles handed out so far, as (x, y, width, height).
    pub closed spec fn placed(&self) -> Seq<(int, int, int, int)> {
        self.issued@.map_values(|q: (int, int, int, int, int)| (q.0, q.1, q.2, q.3))
    }

    /// Rows lie one below the other inside the area, and each handed-out rectangle lies in the
    /// used part of its row.
    pub closed spec fn wf(&self) -> bool {
        let rows = self.rows_view();
        &&& forall|i: int| 0 <= i < rows.len() ==> #[trigger] rows[i].0 + rows[i].1 <= self.height
        &&& forall|i: int, j: int|
            0 <= i < j < rows.len() ==> #[trigger] rows[i].0 + rows[i].1 <= #[trigger] rows[j].0
        &&& forall|k: int|
            0 <= k < self.issued@.len() ==> {
                let q = #[trigger] self.issued@[k];
                &&& 0 <= q.4 < rows.len()
                &&& q.1 == rows[q.4].0
                &&& 0 <= q.3 <= rows[q.4].1
                &&& 0 <= q.0
                &&& q.0 + q.2 <= rows[q.4].2
                &&& 0 <= q.2
                &&& (q.0 + q.2 <= self.width || q.0 == 0)
            }
        &&& forall|a: int, b: int|
            0 <= a < b < self.placed().len() ==> disjoint(#[trigger] self.placed()[a], #[trigger] self.placed()[b])
    }

    /// Any two rectangles that the packer has handed out share no point.
    pub proof fn law_placed_disjoint(&self, a: int, b: int)
        requires
            self.wf(),
            0 <= a < self.placed().len(),
            0 <= b < self.placed().len(),
            a != b,
        ensures
            disjoint(self.placed()[a], self.placed()[b]),
    {
        if a > b {
            let pa = self.placed()[a];
            let pb = self.placed()[b];
            assert(disjoint(pb, pa));
        }
    }

    /// Every rectangle that the packer has handed out lies inside the area,
    /// unless it is wider than the area (such a one starts a row at the left edge).
    pub proof fn law_placed_inside(&self, k: int)
        requires
            self.wf(),
            0 <= k < self.placed().len(),
            self.placed()[k].2 <= self.area_width(),
        ensures
            0 <= self.placed()[k].0,
            self.placed()[k].0 + self.placed()[k].2 <= self.area_width(),
            0 <= self.placed()[k].1,
            self.placed()[k].1 + self.placed()[k].3 <= self.area_height(),
    {
        let q = self.issued@[k];
        assert(self.placed()[k] == (q.0, q.1, q.2, q.3));
        assert(self.rows_view()[q.4].0 == self.rows@[q.4].y);
    }

    /// An empty packer for a `width` by `height` area.
    pub fn new(width: u32, height: u32) -> (r: Self)
        ensures
            r.wf(),
            r.area_width() == width,
            r.area_height() == height,
            r.rows_view() == Seq::<RowView>::empty(),
            r.placed() == Seq::<(int, int, int, int)>::empty(),
    {
        let r = AtlasPacker { width, height, rows: Vec::new(), issued: Ghost(Seq::empty()) };
        assert(r.rows_view() =~= Seq::<RowView>::empty());
        assert(r.placed() =~= Seq::<(int, int, int, int)>::empty());
        r
    }

    /// Places a `glyph_width` by `glyph_height` rectangle and returns its top-left
    /// corner: in the first row with room for it, or else in a new row below all
    /// others; `None` when the new row would not fit in the area's height.
    /// The rectangle shares no point with any rectangle handed out before.
    pub fn pack(&mut self, glyph_width: u32, glyph_height: u32) -> (r: Option<(u32, u32)>)
        requires
            old(self).wf(),
        ensures
            final(self).wf(),
            final(self).area_width() == old(self).area_width(),
            final(self).area_height() == old(self).area_height(),
            match first_fit(old(self).rows_view(), 0, old(self).area_width(), glyph_width as int, glyph_height as int) {
                Some(i) => {
                    let row = old(self).rows_view()[i];
                    &&& r == Some((row.2 as u32, row.0 as u32))
                    &&& final(self).rows_view() == old(self).rows_view().update(i, (row.0, row.1, row.2 + glyph_width))
                },
                None => {
                    let ny = next_row_y(old(self).rows_view(), old(self).rows_view().len() as int);
                    if ny + glyph_height <= old(self).area_height() {
                        &&& r == Some((0u32, ny as u32))
                        &&& final(self).rows_view() == old(self).rows_view().push((ny, glyph_height as int, glyph_width as int))
                    } else {
                        &&& r is None
                        &&& final(self).rows_view() == old(self).rows_view()
                    }
                },
            },
            match r {
                Some(p) => {
                    &&& final(self).placed() == old(self).placed().push(
                        (p.0 as int, p.1 as int, glyph_width as int, glyph_height as int),
                    )
                    &&& forall|k: int|
                        0 <= k < old(self).placed().len() ==> disjoint(
                            (p.0 as int, p.1 as int, glyph_width as int, glyph_height as int),
                            #[trigger] old(self).placed()[k],
                        )
                },
                None => final(self).placed() == old(self).placed(),
            },
            r matches Some(p) ==> p.1 + glyph_height <= old(self).area_height() && (glyph_width
                <= old(self).area_width() ==> p.0 + glyph_width <= old(self).area_width()),
    {
        let ghost rows0 = self.rows_view();
        let ghost iss0 = self.issued@;
        let mut i: usize = 0;
        while i < self.rows.len()
            invariant
                rows0 == self.rows_view(),
                iss0 == self.issued@,
                self.wf(),
                old(self).wf(),
                self.width == old(self).width,
                self.height == old(self).height,
                rows0 == old(self).rows_view(),
                iss0 == old(self).issued@,
                i <= self.rows@.len(),
                first_fit(rows0, 0, self.width as int, glyph_width as int, glyph_height as int)
                    == first_fit(rows0, i as int, self.width as int, glyph_width as int, glyph_height as int),
            decreases self.rows@.len() - i,
        {
            let row = &self.rows[i];
            assert(rows0[i as int] == (row.y as int, row.height as int, row.x_cursor as int));
            if (row.x_cursor as u64) + (glyph_width as u64) <= (self.width as u64)
                && glyph_height <= row.height {
                let x = row.x_cursor;
                let y = row.y;
                let new_row = PackRow { y, height: row.height, x_cursor: x + glyph_width };
                self.rows.set(i, new_row);
                let ghost q = (x as int, y as int, glyph_width as int, glyph_height as int, i as int);
                proof {
                    assert forall|k: int| 0 <= k < iss0.len() implies disjoint(
                        (x as int, y as int, glyph_width as int, glyph_height as int),
                        (iss0[k].0, iss0[k].1, iss0[k].2, iss0[k].3),
                    ) by {
                        let p = iss0[k];
                        if p.4 != i {
                            if p.4 < i {
                                assert(rows0[p.4].0 + rows0[p.4].1 <= rows0[i as int].0);
                            } else {
                                assert(rows0[i as int].0 + rows0[i as int].1 <= rows0[p.4].0);
                            }
                        }
                    }
                    self.issued@ = iss0.push(q);
                    assert(self.rows_view() =~= rows0.update(
                        i as int,
                        (rows0[i as int].0, rows0[i as int].1, rows0[i as int].2 + glyph_width),
                    ));
                    assert(self.placed() =~= old(self).placed().push(
                        (x as int, y as int, glyph_width as int, glyph_height as int),
                    ));
                    assert forall|k: int| 0 <= k < old(self).placed().len() implies disjoint(
                        (x as int, y as int, glyph_width as int, glyph_height as int),
                        #[trigger] old(self).placed()[k],
                    ) by {
                        assert(old(self).placed()[k] == (iss0[k].0, iss0[k].1, iss0[k].2, iss0[k].3));
                    }
                    assert forall|k: int| 0 <= k < self.issued@.len() implies {
                        let q = #[trigger] self.issued@[k];
                        &&& 0 <= q.4 < self.rows_view().len()
                        &&& q.1 == self.rows_view()[q.4].0
                        &&& 0 <= q.3 <= self.rows_view()[q.4].1
                        &&& 0 <= q.0
                        &&& q.0 + q.2 <= self.rows_view()[q.4].2
                        &&& 0 <= q.2
                        &&& (q.0 + q.2 <= self.width || q.0 == 0)
                    } by {
                        if k < iss0.len() {
                            assert(self.issued@[k] == iss0[k]);
                        }
                    }
                    lemma_push_disjoint(old(self).placed(), (x as int, y as int, glyph_width as int, glyph_height as int));
                }
                return Some((x, y));
            }
            i = i + 1;
        }
        let mut next_y: u32 = 0;
        let mut j: usize = 0;
        while j < self.rows.len()
            invariant
                rows0 == self.rows_view(),
                self.wf(),
                j <= self.rows@.len(),
                self.height == old(self).height,
                next_y as int == next_row_y(rows0, j as int),
                next_y <= self.height,
            decreases self.rows@.len() - j,
        {
            proof {
                lemma_next_row_y(rows0, rows0.len() as int);
                assert(rows0[j as int].0 + rows0[j as int].1 <= self.height);
            }
            let b = self.rows[j].y + self.rows[j].height;
            if b > next_y {
                next_y = b;
            }
            j = j + 1;
        }
        if (next_y as u64) + (glyph_height as u64) <= (self.height as u64) {
            proof {
                lemma_next_row_y(rows0, rows0.len() as int);
            }
            self.rows.push(PackRow { y: next_y, height: glyph_height, x_cursor: glyph_width });
            let ghost q = (0int, next_y as int, glyph_width as int, glyph_height as int, rows0.len() as int);
            proof {
                self.issued@ = iss0.push(q);
                assert(self.rows_view() =~= rows0.push(
                    (next_y as int, glyph_height as int, glyph_width as int),
                ));
                assert(self.placed() =~= old(self).placed().push(
                    (0int, next_y as int, glyph_width as int, glyph_height as int),
                ));
                assert forall|k: int| 0 <= k < old(self).placed().len() implies disjoint(
                    (0int, next_y as int, glyph_width as int, glyph_height as int),
                    #[trigger] old(self).placed()[k],
                ) by {
                    assert(old(self).placed()[k] == (iss0[k].0, iss0[k].1, iss0[k].2, iss0[k].3));
                    let p = iss0[k];
                    assert(rows0[p.4].0 + rows0[p.4].1 <= next_y);
                }
                assert forall|k: int| 0 <= k < self.issued@.len() implies {
                    let q = #[trigger] self.issued@[k];
                    &&& 0 <= q.4 < self.rows_view().len()
                    &&& q.1 == self.rows_view()[q.4].0
                    &&& 0 <= q.3 <= self.rows_view()[q.4].1
                    &&& 0 <= q.0
                    &&& q.0 + q.2 <= self.rows_view()[q.4].2
                    &&& 0 <= q.2
                } by {
                    if k < iss0.len() {
                        assert(self.issued@[k] == iss0[k]);
                    }
                }
                lemma_push_disjoint(old(self).placed(), (0int, next_y as int, glyph_width as int, glyph_height as int));
            }
            return Some((0, next_y));
        }
        None
    }
}


// ---------------------------------------------------------------------------
// The RGBA texture.
// ---------------------------------------------------------------------------

/// One glyph pixel copied: the texture bytes of pixel (`ax + col`, `ay + row`)
/// of a `aw` pixels wide texture become white with the bitmap's value at
/// (`col`, `row`) of a `gw` pixels wide bitmap as alpha; nothing when that
/// bitmap value or those four bytes do not exist.
pub open spec fn put_pixel(t: Seq<u8>, aw: int, bm: Seq<u8>, gw: int, ax: int, ay: int, row: int, col: int) -> Seq<u8> {
    let src = row * gw + col;
    let dst = ((ay + row) * aw + ax) * 4 + col * 4;
    if 0 <= src < bm.len() && 0 <= dst && dst + 3 < t.len() {
        t.update(dst, 255u8).update(dst + 1, 255u8).update(dst + 2, 255u8).update(dst + 3, bm[src])
    } else {
        t
    }
}

/// Columns `0 .. c` of bitmap row `row` copied, left to right.
pub open spec fn put_row(t: Seq<u8>, aw: int, bm: Seq<u8>, gw: int, ax: int, ay: int, row: int, c: nat) -> Seq<u8>
    decreases c,
{
    if c == 0 {
        t
    } else {
        put_pixel(put_row(t, aw, bm, gw, ax, ay, row, (c - 1) as nat), aw, bm, gw, ax, ay, row, c - 1)
    }
}

/// Rows `0 .. r` of a `gw` pixels wide bitmap copied, top to bottom.
pub open spec fn put_rows(t: Seq<u8>, aw: int, bm: Seq<u8>, gw: int, ax: int, ay: int, r: nat) -> Seq<u8>
    decreases r,
{
    if r == 0 {
        t
    } else {
        put_row(put_rows(t, aw, bm, gw, ax, ay, (r - 1) as nat), aw, bm, gw, ax, ay, r - 1, gw as nat)
    }
}

/// An atlas texture: `width` by `height` pixels, four bytes (RGBA) each.
pub struct GlyphAtlas {
    pub texture: Vec<u8>,
    pub width: u32,
    pub height: u32,
}

impl GlyphAtlas {
    /// A transparent black texture of `width` by `height` pixels.
    pub fn new(width: u32, height: u32) -> (r: Self)
        requires
            width * height * 4 <= u32::MAX,
        ensures
            r.width == width,
            r.height == height,
            r.texture@ == Seq::new((width * height * 4) as nat, |i: int| 0u8),
    {
        let n: u32 = width * height * 4;
        let mut texture: Vec<u8> = Vec::new();
        let mut i: u32 = 0;
        while i < n
            invariant
                i <= n,
                texture@ == Seq::new(i as nat, |k: int| 0u8),
            decreases n - i,
        {
            texture.push(0u8);
            i = i + 1;
            assert(texture@ =~= Seq::new(i as nat, |k: int| 0u8));
        }
        GlyphAtlas { texture, width, height }
    }

    /// Copies a grey-scale glyph bitmap, `glyph_width` by `glyph_height`
    /// pixels, into the texture with its top-left corner at (`atlas_x`,
    /// `atlas_y`): pixel by pixel in reading order, each pixel white with the
    /// bitmap value as alpha, skipping pixels that fall outside the bitmap or
    /// the texture.
    pub fn blit_glyph(&mut self, bitmap: &[u8], glyph_width: u32, glyph_height: u32, atlas_x: u32, atlas_y: u32)
        requires
            glyph_height > 0 ==> (glyph_height - 1) * glyph_width <= u32::MAX,
            glyph_height > 0 ==> (atlas_y + glyph_height - 1) * old(self).width + atlas_x <= u32::MAX,
        ensures
            final(self).width == old(self).width,
            final(self).height == old(self).height,
            final(self).texture@ == put_rows(
                old(self).texture@,
                old(self).width as int,
                bitmap@,
                glyph_width as int,
                atlas_x as int,
                atlas_y as int,
                glyph_height as nat,
            ),
    {
        let aw = self.width as u64;
        let gw = glyph_width as u64;
        let ghost t0 = self.texture@;
        let mut row: u32 = 0;
        while row < glyph_height
            invariant
                row <= glyph_height,
                self.width == old(self).width,
                self.height == old(self).height,
                aw == self.width,
                gw == glyph_width,
                glyph_height > 0 ==> (glyph_height - 1) * glyph_width <= u32::MAX,
                glyph_height > 0 ==> (atlas_y + glyph_height - 1) * aw + atlas_x <= u32::MAX,
                self.texture@ == put_rows(t0, aw as int, bitmap@, gw as int, atlas_x as int, atlas_y as int, row as nat),
                t0 == old(self).texture@,
            decreases glyph_height - row,
        {
            proof {
                assert(row * gw <= (glyph_height - 1) * gw) by (nonlinear_arith)
                    requires row <= glyph_height - 1;
                assert((atlas_y + row) * aw <= (atlas_y + glyph_height - 1) * aw) by (nonlinear_arith)
                    requires row <= glyph_height - 1;
            }
            let src_offset: u64 = (row as u64) * gw;
            let dst_offset: u64 = (((atlas_y as u64) + (row as u64)) * aw + (atlas_x as u64)) * 4;
            let ghost before_row = self.texture@;
            let mut col: u32 = 0;
            while col < glyph_width
                invariant
                    col <= glyph_width,
                    row < glyph_height,
                    self.width == old(self).width,
                    self.height == old(self).height,
                    aw == self.width,
                    gw == glyph_width,
                    src_offset == row * gw,
                    src_offset <= u32::MAX,
                    dst_offset == ((atlas_y + row) * aw + atlas_x) * 4,
                    dst_offset <= 4 * (u32::MAX as int),
                    self.texture@ == put_row(before_row, aw as int, bitmap@, gw as int, atlas_x as int, atlas_y as int, row as int, col as nat),
                decreases glyph_width - col,
            {
                let src: u64 = src_offset + (col as u64);
                let dst: u64 = dst_offset + (col as u64) * 4;
                if src < bitmap.len() as u64 && dst + 3 < self.texture.len() as u64 {
                    let alpha = bitmap[src as usize];
                    let d = dst as usize;
                    self.texture.set(d, 255u8);
                    self.texture.set(d + 1, 255u8);
                    self.texture.set(d + 2, 255u8);
                    self.texture.set(d + 3, alpha);
                }
                col = col + 1;
            }
            row = row + 1;
        }
    }
}

/// Where the four bytes of glyph pixel (`col`, `row`) start in the texture.
pub open spec fn pixel_start(aw: int, ax: int, ay: int, row: int, col: int) -> int {
    ((ay + row) * aw + ax) * 4 + col * 4
}

proof fn lemma_put_pixel_frame(t: Seq<u8>, aw: int, bm: Seq<u8>, gw: int, ax: int, ay: int, row: int, col: int, i: int)
    requires
        0 <= i < t.len(),
        i < pixel_start(aw, ax, ay, row, col) || i >= pixel_start(aw, ax, ay, row, col) + 4,
    ensures
        put_pixel(t, aw, bm, gw, ax, ay, row, col).len() == t.len(),
        put_pixel(t, aw, bm, gw, ax, ay, row, col)[i] == t[i],
{
}

proof fn lemma_put_row_frame(t: Seq<u8>, aw: int, bm: Seq<u8>, gw: int, ax: int, ay: int, row: int, c: nat, i: int)
    requires
        0 <= i < t.len(),
        forall|k: int| 0 <= k < c ==> i < #[trigger] pixel_start(aw, ax, ay, row, k) || i >= pixel_start(aw, ax, ay, row, k) + 4,
    ensures
        put_row(t, aw, bm, gw, ax, ay, row, c).len() == t.len(),
        put_row(t, aw, bm, gw, ax, ay, row, c)[i] == t[i],
    decreases c,
{
    if c > 0 {
        lemma_put_row_frame(t, aw, bm, gw, ax, ay, row, (c - 1) as nat, i);
        let p = put_row(t, aw, bm, gw, ax, ay, row, (c - 1) as nat);
        assert(i < pixel_start(aw, ax, ay, row, c - 1) || i >= pixel_start(aw, ax, ay, row, c - 1) + 4);
        lemma_put_pixel_frame(p, aw, bm, gw, ax, ay, row, c - 1, i);
    }
}

proof fn lemma_put_rows_frame(t: Seq<u8>, aw: int, bm: Seq<u8>, gw: int, ax: int, ay: int, r: nat, i: int)
    requires
        0 <= i < t.len(),
        gw >= 0,
        forall|row: int, k: int|
            0 <= row < r && 0 <= k < gw ==> i < #[trigger] pixel_start(aw, ax, ay, row, k) || i >= pixel_start(aw, ax, ay, row, k) + 4,
    ensures
        put_rows(t, aw, bm, gw, ax, ay, r).len() == t.len(),
        put_rows(t, aw, bm, gw, ax, ay, r)[i] == t[i],
    decreases r,
{
    if r > 0 {
        lemma_put_rows_frame(t, aw, bm, gw, ax, ay, (r - 1) as nat, i);
        let p = put_rows(t, aw, bm, gw, ax, ay, (r - 1) as nat);
        assert forall|k: int| 0 <= k < gw implies i < #[trigger] pixel_start(aw, ax, ay, r - 1, k) || i
            >= pixel_start(aw, ax, ay, r - 1, k) + 4 by {
            assert(0 <= r - 1 < r);
        }
        lemma_put_row_frame(p, aw, bm, gw, ax, ay, r - 1, gw as nat, i);
    }
}

/// Copying a glyph leaves every texture byte outside the glyph's pixels as it was.
pub proof fn law_blit_frame(t: Seq<u8>, aw: int, bm: Seq<u8>, gw: int, gh: nat, ax: int, ay: int, i: int)
    requires
        0 <= i < t.len(),
        gw >= 0,
        forall|row: int, col: int|
            0 <= row < gh && 0 <= col < gw ==> i < #[trigger] pixel_start(aw, ax, ay, row, col) || i >= pixel_start(
                aw,
                ax,
                ay,
                row,
                col,
            ) + 4,
    ensures
        put_rows(t, aw, bm, gw, ax, ay, gh).len() == t.len(),
        put_rows(t, aw, bm, gw, ax, ay, gh)[i] == t[i],
{
    lemma_put_rows_frame(t, aw, bm, gw, ax, ay, gh, i);
}

/// Two different pixels of a glyph no wider than the texture have disjoint bytes.
proof fn lemma_pixels_apart(aw: int, gw: int, ax: int, ay: int, r1: int, c1: int, r2: int, c2: int)
    requires
        0 <= c1 < gw,
        0 <= c2 < gw,
        gw <= aw,
        r1 != r2 || c1 != c2,
    ensures
        pixel_start(aw, ax, ay, r1, c1) + 4 <= pixel_start(aw, ax, ay, r2, c2) || pixel_start(aw, ax, ay, r2, c2) + 4
            <= pixel_start(aw, ax, ay, r1, c1),
{
    let d = (r1 - r2) * aw + (c1 - c2);
    assert(((ay + r1) * aw + ax) * 4 + c1 * 4 - (((ay + r2) * aw + ax) * 4 + c2 * 4) == 4 * ((r1 - r2) * aw + (c1
        - c2))) by (nonlinear_arith);
    if r1 == r2 {
        assert(d == c1 - c2) by (nonlinear_arith)
            requires
                r1 == r2,
                d == (r1 - r2) * aw + (c1 - c2);
    } else {
        assert(d != 0) by (nonlinear_arith)
            requires
                r1 != r2,
                d == (r1 - r2) * aw + (c1 - c2),
                0 <= c1 < gw,
                0 <= c2 < gw,
                gw <= aw,
        {
            if r1 > r2 {
                assert((r1 - r2) * aw >= aw);
            } else {
                assert((r2 - r1) * aw >= aw);
            }
        }
    }
}

/// Within one row, the columns after `c0` do not touch the bytes of pixel `c0`.
proof fn lemma_put_row_keeps(t: Seq<u8>, aw: int, bm: Seq<u8>, gw: int, ax: int, ay: int, row: int, c0: int, c: nat, i: int)
    requires
        0 <= c0 < c <= gw <= aw,
        pixel_start(aw, ax, ay, row, c0) <= i < pixel_start(aw, ax, ay, row, c0) + 4,
        0 <= i < t.len(),
    ensures
        put_row(t, aw, bm, gw, ax, ay, row, c)[i] == put_row(t, aw, bm, gw, ax, ay, row, (c0 + 1) as nat)[i],
        put_row(t, aw, bm, gw, ax, ay, row, c).len() == t.len(),
    decreases c,
{
    lemma_put_row_len(t, aw, bm, gw, ax, ay, row, c);
    if c > c0 + 1 {
        lemma_put_row_keeps(t, aw, bm, gw, ax, ay, row, c0, (c - 1) as nat, i);
        lemma_pixels_apart(aw, gw, ax, ay, row, c0, row, c - 1);
        let p = put_row(t, aw, bm, gw, ax, ay, row, (c - 1) as nat);
        lemma_put_row_len(t, aw, bm, gw, ax, ay, row, (c - 1) as nat);
        lemma_put_pixel_frame(p, aw, bm, gw, ax, ay, row, c - 1, i);
    }
}

proof fn lemma_put_row_len(t: Seq<u8>, aw: int, bm: Seq<u8>, gw: int, ax: int, ay: int, row: int, c: nat)
    ensures
        put_row(t, aw, bm, gw, ax, ay, row, c).len() == t.len(),
    decreases c,
{
    if c > 0 {
        lemma_put_row_len(t, aw, bm, gw, ax, ay, row, (c - 1) as nat);
    }
}

proof fn lemma_put_rows_len(t: Seq<u8>, aw: int, bm: Seq<u8>, gw: int, ax: int, ay: int, r: nat)
    ensures
        put_rows(t, aw, bm, gw, ax, ay, r).len() == t.len(),
    decreases r,
{
    if r > 0 {
        lemma_put_rows_len(t, aw, bm, gw, ax, ay, (r - 1) as nat);
        lemma_put_row_len(put_rows(t, aw, bm, gw, ax, ay, (r - 1) as nat), aw, bm, gw, ax, ay, r - 1, gw as nat);
    }
}

/// The rows after `r0` do not touch the bytes of a pixel of row `r0`.
proof fn lemma_put_rows_keeps(t: Seq<u8>, aw: int, bm: Seq<u8>, gw: int, ax: int, ay: int, r0: int, c0: int, r: nat, i: int)
    requires
        0 <= r0 < r,
        0 <= c0 < gw <= aw,
        pixel_start(aw, ax, ay, r0, c0) <= i < pixel_start(aw, ax, ay, r0, c0) + 4,
        0 <= i < t.len(),
    ensures
        put_rows(t, aw, bm, gw, ax, ay, r)[i] == put_rows(t, aw, bm, gw, ax, ay, (r0 + 1) as nat)[i],
    decreases r,
{
    if r > r0 + 1 {
        lemma_put_rows_keeps(t, aw, bm, gw, ax, ay, r0, c0, (r - 1) as nat, i);
        let p = put_rows(t, aw, bm, gw, ax, ay, (r - 1) as nat);
        lemma_put_rows_len(t, aw, bm, gw, ax, ay, (r - 1) as nat);
        assert forall|k: int| 0 <= k < gw implies i < #[trigger] pixel_start(aw, ax, ay, r - 1, k) || i
            >= pixel_start(aw, ax, ay, r - 1, k) + 4 by {
            lemma_pixels_apart(aw, gw, ax, ay, r0, c0, r - 1, k);
        }
        lemma_put_row_frame(p, aw, bm, gw, ax, ay, r - 1, gw as nat, i);
    }
}

/// Copying a glyph no wider than the texture makes each of its pixels that
/// exists in both bitmap and texture white, with the bitmap's value as alpha.
pub proof fn law_blit_pixel(t: Seq<u8>, aw: int, bm: Seq<u8>, gw: int, gh: nat, ax: int, ay: int, row: int, col: int)
    requires
        0 <= row < gh,
        0 <= col < gw <= aw,
        row * gw + col < bm.len(),
        0 <= pixel_start(aw, ax, ay, row, col),
        pixel_start(aw, ax, ay, row, col) + 3 < t.len(),
    ensures
        ({
            let out = put_rows(t, aw, bm, gw, ax, ay, gh);
            let d = pixel_start(aw, ax, ay, row, col);
            &&& out[d] == 255u8
            &&& out[d + 1] == 255u8
            &&& out[d + 2] == 255u8
            &&& out[d + 3] == bm[row * gw + col]
        }),
{
    let d = pixel_start(aw, ax, ay, row, col);
    let before_row = put_rows(t, aw, bm, gw, ax, ay, row as nat);
    lemma_put_rows_len(t, aw, bm, gw, ax, ay, row as nat);
    let before_px = put_row(before_row, aw, bm, gw, ax, ay, row, col as nat);
    lemma_put_row_len(before_row, aw, bm, gw, ax, ay, row, col as nat);
    let after_px = put_row(before_row, aw, bm, gw, ax, ay, row, (col + 1) as nat);
    assert(after_px == put_pixel(before_px, aw, bm, gw, ax, ay, row, col));
    assert(((ay + row) * aw + ax) * 4 + col * 4 == d);
    assert forall|k: int| 0 <= k < 4 implies #[trigger] put_rows(t, aw, bm, gw, ax, ay, gh)[d + k] == after_px[d + k] by {
        lemma_put_row_keeps(before_row, aw, bm, gw, ax, ay, row, col, gw as nat, d + k);
        lemma_put_rows_keeps(t, aw, bm, gw, ax, ay, row, col, gh, d + k);
        assert(put_rows(t, aw, bm, gw, ax, ay, (row + 1) as nat) == put_row(before_row, aw, bm, gw, ax, ay, row, gw as nat));
    }
    assert(put_rows(t, aw, bm, gw, ax, ay, gh)[d + 0] == after_px[d + 0]);
    assert(put_rows(t, aw, bm, gw, ax, ay, gh)[d + 1] == after_px[d + 1]);
    assert(put_rows(t, aw, bm, gw, ax, ay, gh)[d + 2] == after_px[d + 2]);
    assert(put_rows(t, aw, bm, gw, ax, ay, gh)[d + 3] == after_px[d + 3]);
}

} // verus!
