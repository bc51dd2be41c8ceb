//! Double-buffered half-block terminal output: each terminal cell shows two
//! vertical pixels (foreground colour on top, background below), and only
//! cells that changed since the last frame are redrawn.

use vstd::prelude::*;
use termray::Framebuffer;
use crate::framebuffer::{fb_get_pixel, fb_pixel};

verus! {

/// A 24-bit colour.
#[derive(Clone, Copy, PartialEq, Eq, Debug, Structural)]
pub struct Rgb {
    pub r: u8,
    pub g: u8,
    pub b: u8,
}

/// Black, the colour of a fresh cell and of pixels outside the framebuffer.
pub open spec fn black() -> Rgb {
    Rgb { r: 0, g: 0, b: 0 }
}

/// One terminal cell: the upper and the lower pixel.
#[derive(Clone, Copy, PartialEq, Eq, Debug, Structural)]
pub struct HalfBlockCell {
    pub top: Rgb,
    pub bottom: Rgb,
}

/// A cell with both halves black.
pub open spec fn blank_cell() -> HalfBlockCell {
    HalfBlockCell { top: black(), bottom: black() }
}

impl Default for HalfBlockCell {
    fn default() -> (c: Self)
        ensures
            c == blank_cell(),
    {
        HalfBlockCell { top: Rgb { r: 0, g: 0, b: 0 }, bottom: Rgb { r: 0, g: 0, b: 0 } }
    }
}

/// Terminal cell `(c, r)` for framebuffer `fb`: pixel rows `2r` and `2r + 1`.
pub open spec fn cell_for(fb: Framebuffer, c: int, r: int) -> HalfBlockCell {
    HalfBlockCell { top: fb_pixel(fb, c, 2 * r), bottom: fb_pixel(fb, c, 2 * r + 1) }
}

/// The front buffer (what the terminal shows) and a back buffer for the
/// next frame, each `cols * rows` cells in row-major order.
pub struct TerminalRenderer {
    front: Vec<HalfBlockCell>,
    back: Vec<HalfBlockCell>,
    cols: usize,
    rows: usize,
}

impl TerminalRenderer {
    /// Buffer sizes match the terminal size.
    pub closed spec fn wf(&self) -> bool {
        &&& self.front@.len() == self.cols * self.rows
        &&& self.back@.len() == self.cols * self.rows
        &&& self.cols * self.rows <= usize::MAX
    }

    /// Number of terminal columns.
    pub closed spec fn spec_cols(&self) -> usize {
        self.cols
    }

    /// Number of terminal rows.
    pub closed spec fn spec_rows(&self) -> usize {
        self.rows
    }

    /// What the terminal shows at cell `(c, r)`.
    pub closed spec fn shown(&self, c: int, r: int) -> HalfBlockCell {
        self.front@[r * self.cols + c]
    }

    /// What the back buffer holds at cell `(c, r)`.
    pub closed spec fn spare(&self, c: int, r: int) -> HalfBlockCell {
        self.back@[r * self.cols + c]
    }

    /// Blank buffers for a `cols` x `rows` terminal.
    pub fn new(cols: usize, rows: usize) -> (t: Self)
        requires
            cols * rows <= usize::MAX,
        ensures
            t.wf(),
            t.spec_cols() == cols,
            t.spec_rows() == rows,
            forall|c: int, r: int| 0 <= c < cols && 0 <= r < rows ==> #[trigger] t.shown(c, r) == blank_cell(),
            forall|c: int, r: int| 0 <= c < cols && 0 <= r < rows ==> #[trigger] t.spare(c, r) == blank_cell(),
    {
        let size = cols * rows;
        let t = TerminalRenderer { front: blank_cells(size), back: blank_cells(size), cols, rows };
        proof {
            assert forall|c: int, r: int| 0 <= c < cols && 0 <= r < rows implies #[trigger] t.shown(c, r) == blank_cell() by {
                crate::grid::lemma_index_in_bounds(c, r, cols as int, rows as int);
                assert(t.front@[r * cols + c] == blank_cell());
            }
            assert forall|c: int, r: int| 0 <= c < cols && 0 <= r < rows implies #[trigger] t.spare(c, r) == blank_cell() by {
                crate::grid::lemma_index_in_bounds(c, r, cols as int, rows as int);
                assert(t.back@[r * cols + c] == blank_cell());
            }
        }
        t
    }

    /// The terminal size as `(cols, rows)`.
    pub fn size(&self) -> (r: (usize, usize))
        ensures
            r == (self.spec_cols(), self.spec_rows()),
    {
        (self.cols, self.rows)
    }

    /// Adopt a new terminal size; on a change both buffers start over blank,
    /// so the next frame redraws every non-black cell.
    pub fn resize(&mut self, cols: usize, rows: usize)
        requires
            old(self).wf(),
            cols * rows <= usize::MAX,
        ensures
            final(self).wf(),
            final(self).spec_cols() == cols,
            final(self).spec_rows() == rows,
            cols == old(self).spec_cols() && rows == old(self).spec_rows() ==> *final(self) == *old(self),
            !(cols == old(self).spec_cols() && rows == old(self).spec_rows()) ==> forall|c: int, r: int|
                0 <= c < cols && 0 <= r < rows ==> #[trigger] final(self).shown(c, r) == blank_cell()
                    && final(self).spare(c, r) == blank_cell(),
    {
        if cols != self.cols || rows != self.rows {
            *self = TerminalRenderer::new(cols, rows);
        }
    }

    /// Take the frame in `fb` (black outside it) and return the cells to redraw, in row-major order, with
    /// their new content: exactly those whose two pixels differ from what
    /// the terminal shows. Afterwards the terminal shows the new frame and
    /// the back buffer holds the previous one.
    pub fn present(&mut self, fb: &Framebuffer) -> (changed: Vec<(usize, usize, HalfBlockCell)>)
        requires
            old(self).wf(),
            2 * old(self).spec_rows() < usize::MAX,
        ensures
            final(self).wf(),
            presented(old(self), *fb, final(self), changed@),
    {
        let ghost f0 = self.front@;
        let ghost cols = self.cols as int;
        let ghost rows0 = self.rows;
        let mut changed: Vec<(usize, usize, HalfBlockCell)> = Vec::new();
        let mut r: usize = 0;
        while r < self.rows
            invariant
                self.wf(),
                cols == self.cols,
                rows0 == self.rows,
                self.front@ == f0,
                    2 * self.rows < usize::MAX,
                0 <= r <= self.rows,
                forall|c: int, rr: int|
                    0 <= c < cols && 0 <= rr < r ==> #[trigger] self.back@[rr * cols + c] == cell_for(*fb, c, rr),
                forall|k: int|
                    0 <= k < changed@.len() ==> {
                        let (c, rr, cell) = #[trigger] changed@[k];
                        &&& c < cols
                        &&& rr < r
                        &&& cell == cell_for(*fb, c as int, rr as int)
                        &&& cell != f0[rr * cols + c]
                    },
                forall|c: int, rr: int|
                    0 <= c < cols && 0 <= rr < r && cell_for(*fb, c, rr) != f0[rr * cols + c]
                        ==> exists|k: int| 0 <= k < changed@.len() && #[trigger] changed@[k] == (c as usize, rr as usize, cell_for(*fb, c, rr)),
                forall|k1: int, k2: int|
                    0 <= k1 < k2 < changed@.len() ==> (#[trigger] changed@[k1]).1 * cols + changed@[k1].0 < (#[trigger] changed@[k2]).1 * cols + changed@[k2].0,
            decreases self.rows - r,
        {
            let pixel_y_top = r * 2;
            let pixel_y_bottom = r * 2 + 1;
            let mut c: usize = 0;
            while c < self.cols
                invariant
                    self.wf(),
                    cols == self.cols,
                    rows0 == self.rows,
                    self.front@ == f0,
                            2 * self.rows < usize::MAX,
                    0 <= r < self.rows,
                    pixel_y_top == 2 * r,
                    pixel_y_bottom == 2 * r + 1,
                    0 <= c <= self.cols,
                    forall|cc: int, rr: int|
                        0 <= cc < cols && 0 <= rr < r ==> #[trigger] self.back@[rr * cols + cc] == cell_for(*fb, cc, rr),
                    forall|cc: int|
                        0 <= cc < c ==> #[trigger] self.back@[r * cols + cc] == cell_for(*fb, cc, r as int),
                    forall|k: int|
                        0 <= k < changed@.len() ==> {
                            let (cc, rr, cell) = #[trigger] changed@[k];
                            &&& cc < cols
                            &&& (rr < r || (rr == r && cc < c))
                            &&& cell == cell_for(*fb, cc as int, rr as int)
                            &&& cell != f0[rr * cols + cc]
                        },
                    forall|cc: int, rr: int|
                        0 <= cc < cols && 0 <= rr && (rr < r || (rr == r && cc < c)) && cell_for(*fb, cc, rr) != f0[rr * cols + cc]
                            ==> exists|k: int| 0 <= k < changed@.len() && #[trigger] changed@[k] == (cc as usize, rr as usize, cell_for(*fb, cc, rr)),
                    forall|k1: int, k2: int|
                        0 <= k1 < k2 < changed@.len() ==> (#[trigger] changed@[k1]).1 * cols + changed@[k1].0 < (#[trigger] changed@[k2]).1 * cols + changed@[k2].0,
                decreases self.cols - c,
            {
                proof {
                    crate::grid::lemma_index_in_bounds(c as int, r as int, cols, self.rows as int);
                }
                let top = fb_get_pixel(fb, c, pixel_y_top);
                let bottom = fb_get_pixel(fb, c, pixel_y_bottom);
                let cell = HalfBlockCell { top, bottom };
                let idx = r * self.cols + c;
                let ghost ch0 = changed@;
                if cell != self.front[idx] {
                    changed.push((c, r, cell));
                }
                proof {
                    assert forall|k1: int, k2: int| 0 <= k1 < k2 < changed@.len() implies (#[trigger] changed@[k1]).1 * cols + changed@[k1].0 < (#[trigger] changed@[k2]).1 * cols + changed@[k2].0 by {
                        if k2 == ch0.len() {
                            assert(changed@[k1] == ch0[k1]);
                            lemma_scan_order(ch0[k1].0 as int, ch0[k1].1 as int, c as int, r as int, cols);
                        } else {
                            assert(changed@[k1] == ch0[k1] && changed@[k2] == ch0[k2]);
                        }
                    }
                    assert forall|cc: int, rr: int|
                        0 <= cc < cols && 0 <= rr && (rr < r || (rr == r && cc < c + 1)) && cell_for(*fb, cc, rr) != f0[rr * cols + cc]
                        implies exists|k: int| 0 <= k < changed@.len() && #[trigger] changed@[k] == (cc as usize, rr as usize, cell_for(*fb, cc, rr)) by {
                        if rr == r && cc == c {
                            assert(changed@[changed@.len() - 1] == (cc as usize, rr as usize, cell_for(*fb, cc, rr)));
                        } else {
                            let k = choose|k: int| 0 <= k < ch0.len() && #[trigger] ch0[k] == (cc as usize, rr as usize, cell_for(*fb, cc, rr));
                            assert(changed@[k] == ch0[k]);
                        }
                    }
                }
                let ghost b0 = self.back@;
                self.back.set(idx, cell);
                proof {
                    assert forall|cc: int, rr: int| 0 <= cc < cols && 0 <= rr < r implies #[trigger] self.back@[rr * cols + cc] == cell_for(*fb, cc, rr) by {
                        crate::grid::lemma_index_injective(cc, rr, c as int, r as int, cols);
                        crate::grid::lemma_index_in_bounds(cc, rr, cols, self.rows as int);
                        assert(self.back@[rr * cols + cc] == b0[rr * cols + cc]);
                    }
                    assert forall|cc: int| 0 <= cc < c + 1 implies #[trigger] self.back@[r * cols + cc] == cell_for(*fb, cc, r as int) by {
                        crate::grid::lemma_index_injective(cc, r as int, c as int, r as int, cols);
                        crate::grid::lemma_index_in_bounds(cc, r as int, cols, self.rows as int);
                        if cc < c {
                            assert(self.back@[r * cols + cc] == b0[r * cols + cc]);
                        }
                    }
                }
                c = c + 1;
            }
            r = r + 1;
        }
        std::mem::swap(&mut self.front, &mut self.back);
        changed
    }
}

/// Row-major order: an earlier cell has a smaller index.
proof fn lemma_scan_order(cc: int, rr: int, c: int, r: int, cols: int)
    requires
        0 <= cc < cols,
        0 <= c < cols,
        0 <= rr,
        rr < r || (rr == r && cc < c),
    ensures
        rr * cols + cc < r * cols + c,
{
    if rr < r {
        assert(rr * cols + cols <= r * cols) by (nonlinear_arith)
            requires
                rr < r,
                0 <= cols,
        ;
    }
}

/// `t` is `t0` after presenting frame `fb`, and `changed` lists, in
/// row-major order and with their new content, exactly the cells whose
/// content differs from what `t0` showed.
pub open spec fn presented(
    t0: &TerminalRenderer,
    fb: Framebuffer,
    t: &TerminalRenderer,
    changed: Seq<(usize, usize, HalfBlockCell)>,
) -> bool {
    &&& t.spec_cols() == t0.spec_cols()
    &&& t.spec_rows() == t0.spec_rows()
    &&& forall|c: int, r: int|
        0 <= c < t0.spec_cols() && 0 <= r < t0.spec_rows() ==> {
            &&& #[trigger] t.shown(c, r) == cell_for(fb, c, r)
            &&& t.spare(c, r) == t0.shown(c, r)
        }
    &&& forall|k: int|
        0 <= k < changed.len() ==> {
            let (c, r, cell) = #[trigger] changed[k];
            &&& c < t0.spec_cols()
            &&& r < t0.spec_rows()
            &&& cell == cell_for(fb, c as int, r as int)
            &&& cell != t0.shown(c as int, r as int)
        }
    &&& forall|c: int, r: int|
        0 <= c < t0.spec_cols() && 0 <= r < t0.spec_rows() && cell_for(fb, c, r) != t0.shown(c, r)
            ==> exists|k: int|
            0 <= k < changed.len() && #[trigger] changed[k] == (c as usize, r as usize, cell_for(fb, c, r))
    &&& forall|k1: int, k2: int|
        0 <= k1 < k2 < changed.len() ==> (#[trigger] changed[k1]).1 * t0.spec_cols() + changed[k1].0
            < (#[trigger] changed[k2]).1 * t0.spec_cols() + changed[k2].0
}

/// Presenting the same frame twice redraws nothing the second time, and
/// leaves the terminal showing that frame.
pub proof fn lemma_present_twice(
    t0: &TerminalRenderer,
    fb: Framebuffer,
    t1: &TerminalRenderer,
    c1: Seq<(usize, usize, HalfBlockCell)>,
    t2: &TerminalRenderer,
    c2: Seq<(usize, usize, HalfBlockCell)>,
)
    requires
        presented(t0, fb, t1, c1),
        presented(t1, fb, t2, c2),
    ensures
        c2.len() == 0,
        forall|c: int, r: int|
            0 <= c < t0.spec_cols() && 0 <= r < t0.spec_rows() ==> #[trigger] t2.shown(c, r) == t1.shown(c, r),
{
    if c2.len() > 0 {
        let (c, r, cell) = c2[0];
        assert(cell == cell_for(fb, c as int, r as int));
        assert(t1.shown(c as int, r as int) == cell_for(fb, c as int, r as int));
    }
}

/// `n` blank cells.
fn blank_cells(n: usize) -> (v: Vec<HalfBlockCell>)
    ensures
        v@.len() == n,
        forall|i: int| 0 <= i < n ==> #[trigger] v@[i] == blank_cell(),
{
    let mut v: Vec<HalfBlockCell> = Vec::new();
    let mut i: usize = 0;
    while i < n
        invariant
            0 <= i <= n,
            v@.len() == i,
            forall|k: int| 0 <= k < i ==> #[trigger] v@[k] == blank_cell(),
        decreases n - i,
    {
        v.push(HalfBlockCell { top: Rgb { r: 0, g: 0, b: 0 }, bottom: Rgb { r: 0, g: 0, b: 0 } });
        i = i + 1;
    }
    v
}

} // verus!
