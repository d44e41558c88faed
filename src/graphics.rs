//! Drawing primitives over a linear 32-bit framebuffer.
use vstd::prelude::*;
use vstd::arithmetic::div_mod::{lemma_fundamental_div_mod, lemma_fundamental_div_mod_converse};
use crate::font::{Font, Glyph};

verus! {

/// 24-bit colours, 0xRRGGBB.
pub const COLOR_BLACK: u32 = 0x000000;
pub const COLOR_WHITE: u32 = 0xFFFFFF;
pub const COLOR_BLUE: u32 = 0x0000FF;
pub const COLOR_RED: u32 = 0xFF0000;
pub const COLOR_GREEN: u32 = 0x00FF00;
pub const COLOR_YELLOW: u32 = 0xFFFF00;

/// A handle on a linear array of 32-bit pixels, `width` per row.
pub struct FrameBuffer<'a> {
    /// The pixels, row after row.
    pub vram: &'a mut [u32],
    pub width: usize,
    pub height: usize,
}

/// Index `k` is the cell at column `col` of row `row` of a `width`-wide
/// buffer exactly when `k / width == row` and `k % width == col`.
proof fn lemma_cell(width: int, k: int, row: int, col: int)
    requires
        width > 0,
        0 <= col < width,
        0 <= k,
    ensures
        (k == row * width + col) <==> (k / width == row && k % width == col),
{
    lemma_fundamental_div_mod(k, width);
    if k == row * width + col {
        lemma_fundamental_div_mod_converse(k, width, row, col);
    }
    assert(k / width * width == width * (k / width)) by (nonlinear_arith);
}

/// Painting the cell (`px`, `py`) of a `width`-wide buffer, as `draw_pixel`
/// does, changes the pixel at index `k` exactly when `k` is that visible cell.
proof fn lemma_paint(
    width: int,
    height: int,
    before: Seq<u32>,
    after: Seq<u32>,
    px: int,
    py: int,
    color: u32,
    k: int,
)
    requires
        0 <= px,
        0 <= py,
        width * height <= before.len(),
        0 <= k < before.len(),
        after == if px < width && py < height {
            before.update(py * width + px, color)
        } else {
            before
        },
    ensures
        after[k] == if px < width && py < height && k / width == py && k % width == px {
            color
        } else {
            before[k]
        },
{
    if px < width && py < height {
        lemma_cell(width, k, py, px);
        assert((py + 1) * width <= height * width) by (nonlinear_arith)
            requires
                0 <= px < width,
                0 <= py < height,
        ;
        assert(py * width + px < width * height) by (nonlinear_arith)
            requires
                0 <= px < width,
                (py + 1) * width <= height * width,
        ;
    }
}

/// Pixel (`c`, `r`) of the glyph is set.
pub open spec fn glyph_bit(glyph: Glyph, r: int, c: int) -> bool {
    (glyph@[r] >> ((7 - c) as u8)) & 1u8 != 0
}

/// `after` differs from `before` only where it holds `color`.
pub open spec fn paints_only(before: Seq<u32>, after: Seq<u32>, color: u32) -> bool {
    &&& after.len() == before.len()
    &&& forall|k: int| 0 <= k < before.len() ==> #[trigger] after[k] == before[k] || after[k] == color
}

/// ASCII code of the upper-case hex digit of `d`.
pub open spec fn hex_digit(d: int) -> u8 {
    if d < 10 {
        (0x30 + d) as u8
    } else {
        (0x41 + d - 10) as u8
    }
}

/// The hex digits of `v`, most significant first, without leading zeros
/// (none at all for 0).
pub open spec fn hex_digits(v: nat) -> Seq<u8>
    decreases v,
{
    if v == 0 {
        Seq::empty()
    } else {
        hex_digits(v / 16).push(hex_digit((v % 16) as int))
    }
}

/// `0x` followed by the upper-case hex digits of `v` ("0x0" for 0).
pub open spec fn hex_text(v: nat) -> Seq<u8> {
    seq![0x30u8, 0x78u8] + if v == 0 {
        seq![0x30u8]
    } else {
        hex_digits(v)
    }
}

/// The ASCII text `0x...` of `val` in upper-case hex.
pub fn format_hex(val: usize) -> (r: Vec<u8>)
    ensures
        r@ == hex_text(val as nat),
{
    let mut out: Vec<u8> = Vec::new();
    out.push(0x30u8);
    out.push(0x78u8);
    if val == 0 {
        out.push(0x30u8);
        assert(out@ =~= hex_text(0));
        return out;
    }
    // Digits, least significant first.
    let mut reversed: Vec<u8> = Vec::new();
    let mut current = val;
    while current > 0
        invariant
            hex_digits(val as nat) == hex_digits(current as nat) + reversed@.reverse(),
        decreases current,
    {
        let digit = (current % 16) as u8;
        let c = if digit < 10 { 0x30u8 + digit } else { 0x41u8 + digit - 10 };
        proof {
            let d = hex_digit((current % 16) as int);
            assert(c == d);
            assert(reversed@.push(c).reverse() =~= seq![c] + reversed@.reverse());
            assert(hex_digits(current as nat) == hex_digits((current / 16) as nat).push(c));
            assert(hex_digits((current / 16) as nat).push(c) + reversed@.reverse() =~= hex_digits(
                (current / 16) as nat,
            ) + (seq![c] + reversed@.reverse()));
        }
        reversed.push(c);
        current = current / 16;
    }
    assert(hex_digits(0) =~= Seq::<u8>::empty());
    assert(hex_digits(val as nat) =~= reversed@.reverse());
    let n = reversed.len();
    let mut i: usize = 0;
    while i < n
        invariant
            n == reversed@.len(),
            i <= n,
            out@ =~= seq![0x30u8, 0x78u8] + reversed@.reverse().subrange(0, i as int),
        decreases n - i,
    {
        out.push(reversed[n - 1 - i]);
        assert(reversed@.reverse().subrange(0, i + 1) =~= reversed@.reverse().subrange(0, i as int).push(
            reversed@[n - 1 - i],
        ));
        i = i + 1;
    }
    assert(reversed@.reverse().subrange(0, n as int) =~= reversed@.reverse());
    out
}

/// Largest coordinate and radius magnitude the circle routine takes: below
/// it, the sums and error terms of the midpoint algorithm fit in 64 bits.
pub const COORD_LIMIT: i64 = 0x0fff_ffff_ffff_ffff;

/// Bound on the distance between a line's end points along each axis: below
/// it, the doubled error term of Bresenham's algorithm fits in 64 bits.
pub const LINE_SPAN_LIMIT: i64 = 0x2000_0000_0000_0000;

/// The points Bresenham's algorithm visits from (`x`, `y`), with error
/// term `err`, on its way to (`tx`, `ty`) over steps of `sx` and `sy`, where
/// `dx` and `dy` are the line's spans (`dy` negated); at most `n` more steps.
pub open spec fn bresenham_from(
    x: int,
    y: int,
    err: int,
    tx: int,
    ty: int,
    dx: int,
    dy: int,
    sx: int,
    sy: int,
    n: nat,
) -> Set<(int, int)>
    decreases n,
{
    if (x == tx && y == ty) || n == 0 {
        set![(x, y)]
    } else {
        let e2 = 2 * err;
        let x2 = if e2 >= dy { x + sx } else { x };
        let err2 = if e2 >= dy { err + dy } else { err };
        let y2 = if e2 <= dx { y + sy } else { y };
        let err3 = if e2 <= dx { err2 + dx } else { err2 };
        set![(x, y)].union(bresenham_from(x2, y2, err3, tx, ty, dx, dy, sx, sy, (n - 1) as nat))
    }
}

/// The points Bresenham's algorithm draws for the line from (`x0`, `y0`) to
/// (`x1`, `y1`); its `|x1 - x0| + |y1 - y0|` steps always suffice.
pub open spec fn line_points(x0: int, y0: int, x1: int, y1: int) -> Set<(int, int)> {
    let dx = if x1 >= x0 { x1 - x0 } else { x0 - x1 };
    let dy = if y1 >= y0 { y0 - y1 } else { y1 - y0 };
    let sx = if x0 < x1 { 1int } else { -1int };
    let sy = if y0 < y1 { 1int } else { -1int };
    bresenham_from(x0, y0, dx + dy, x1, y1, dx, dy, sx, sy, (dx - dy) as nat)
}

/// The steps (`x`, `y`) of the midpoint circle algorithm from (`x`, `y`)
/// with error term `err`, while `x >= y`; each step fills four spans.
pub open spec fn midpoint_steps(x: int, y: int, err: int) -> Set<(int, int)>
    decreases x - y + 2,
{
    if x < y {
        Set::empty()
    } else {
        let y2 = y + 1;
        let x2 = if err <= 0 { x } else { x - 1 };
        let err2 = if err <= 0 { err + 2 * y2 + 1 } else { err - (2 * x2 + 1) };
        set![(x, y)].union(midpoint_steps(x2, y2, err2))
    }
}

impl<'a> FrameBuffer<'a> {
    /// The pixel at index `k` lies on one of the four spans that the
    /// midpoint step (`x`, `y`) fills for the circle centred on (`cx`, `cy`).
    pub open spec fn step_covers(&self, k: int, cx: int, cy: int, x: int, y: int) -> bool {
        ||| self.on_span(k, cx - x, cx + x, cy + y)
        ||| self.on_span(k, cx - x, cx + x, cy - y)
        ||| self.on_span(k, cx - y, cx + y, cy + x)
        ||| self.on_span(k, cx - y, cx + y, cy - x)
    }

    /// The pixel at index `k` lies on a span of one of the midpoint `steps`.
    pub open spec fn disc_covers(&self, k: int, cx: int, cy: int, steps: Set<(int, int)>) -> bool {
        exists|p: (int, int)| #[trigger] steps.contains(p) && self.step_covers(k, cx, cy, p.0, p.1)
    }

    /// The pixel at index `k` is visible and its cell is one of `pts`.
    pub open spec fn cell_in(&self, k: int, pts: Set<(int, int)>) -> bool {
        &&& self.width > 0
        &&& self.row(k) < self.height
        &&& pts.contains((self.col(k), self.row(k)))
    }

    pub open spec fn pixels(&self) -> Seq<u32> {
        self.vram@
    }

    /// Every pixel of the visible `width` x `height` area lies in the buffer.
    pub open spec fn wf(&self) -> bool {
        self.width * self.height <= self.pixels().len() <= usize::MAX
    }

    /// `self` and `other` have the same size and buffer length.
    pub open spec fn same_shape(&self, other: &Self) -> bool {
        &&& self.width == other.width
        &&& self.height == other.height
        &&& self.pixels().len() == other.pixels().len()
    }

    /// Column of the pixel at index `k`.
    pub open spec fn col(&self, k: int) -> int {
        k % self.width as int
    }

    /// Row of the pixel at index `k`.
    pub open spec fn row(&self, k: int) -> int {
        k / self.width as int
    }

    /// The pixel at index `k` is visible and lies in the box of columns
    /// `[x0, x1)` and rows `[y0, y1)`.
    pub open spec fn in_box(&self, k: int, x0: int, y0: int, x1: int, y1: int) -> bool {
        &&& self.width > 0
        &&& x0 <= self.col(k) < x1
        &&& self.col(k) < self.width
        &&& y0 <= self.row(k) < y1
        &&& self.row(k) < self.height
    }

    /// The pixel at index `k` lies on the outline of the `w` x `h` rectangle
    /// at (`x`, `y`).
    pub open spec fn on_outline(&self, k: int, x: int, y: int, w: int, h: int) -> bool {
        ||| self.in_box(k, x, y, x + w, y + 1)
        ||| self.in_box(k, x, y + h - 1, x + w, y + h)
        ||| self.in_box(k, x, y, x + 1, y + h)
        ||| self.in_box(k, x + w - 1, y, x + w, y + h)
    }

    pub fn new(vram: &'a mut [u32], width: usize, height: usize) -> (fb: Self)
        ensures
            fb.pixels() == old(vram)@,
            fb.width == width,
            fb.height == height,
            fb.wf() <==> width * height <= old(vram)@.len(),
    {
        let _len = vram.len();
        FrameBuffer { vram, width, height }
    }

    /// Sets the pixel at (`x`, `y`) when it is visible; does nothing
    /// otherwise.
    pub fn draw_pixel(&mut self, x: usize, y: usize, color: u32)
        requires
            old(self).wf(),
        ensures
            final(self).wf(),
            final(self).same_shape(old(self)),
            final(self).pixels() == if x < old(self).width && y < old(self).height {
                old(self).pixels().update(y * old(self).width + x, color)
            } else {
                old(self).pixels()
            },
    {
        if x < self.width && y < self.height {
            proof {
                assert(y * self.width + x < self.width * self.height) by (nonlinear_arith)
                    requires
                        x < self.width,
                        y < self.height,
                ;
            }
            let idx = y * self.width + x;
            self.vram[idx] = color;
        }
    }

    /// Paints the whole buffer in `color`.
    pub fn clear(&mut self, color: u32)
        ensures
            final(self).wf() == old(self).wf(),
            final(self).same_shape(old(self)),
            final(self).pixels() == Seq::new(old(self).pixels().len(), |k: int| color),
    {
        let n = self.vram.len();
        let mut i: usize = 0;
        while i < n
            invariant
                self.same_shape(old(self)),
                n == self.pixels().len(),
                i <= n,
                forall|k: int| 0 <= k < i ==> #[trigger] self.pixels()[k] == color,
            decreases n - i,
        {
            self.vram[i] = color;
            i = i + 1;
        }
        assert(self.pixels() =~= Seq::new(old(self).pixels().len(), |k: int| color));
    }

    /// Paints the visible part of the `w` x `h` rectangle at (`x`, `y`).
    pub fn fill_rect(&mut self, x: usize, y: usize, w: usize, h: usize, color: u32)
        requires
            old(self).wf(),
        ensures
            final(self).wf(),
            final(self).same_shape(old(self)),
            forall|k: int|
                0 <= k < old(self).pixels().len() ==> #[trigger] final(self).pixels()[k] == if old(
                    self,
                ).in_box(k, x as int, y as int, x + w, y + h) {
                    color
                } else {
                    old(self).pixels()[k]
                },
    {
        let sx = x.saturating_add(w);
        let x_end = if sx < self.width { sx } else { self.width };
        let sy = y.saturating_add(h);
        let y_end = if sy < self.height { sy } else { self.height };
        let ghost old_pixels = self.pixels();
        let mut yy = y;
        while yy < y_end
            invariant
                self.wf(),
                self.same_shape(old(self)),
                old_pixels == old(self).pixels(),
                y <= yy,
                yy <= y_end || yy == y,
                x_end <= self.width,
                y_end <= self.height,
                x_end == x + w || x_end == self.width,
                y_end == y + h || y_end == self.height,
                forall|k: int|
                    0 <= k < old_pixels.len() ==> #[trigger] self.pixels()[k] == if self.in_box(
                        k,
                        x as int,
                        y as int,
                        x_end as int,
                        yy as int,
                    ) {
                        color
                    } else {
                        old_pixels[k]
                    },
            decreases y_end - yy,
        {
            proof {
                assert(yy * self.width + self.width <= self.width * self.height) by (nonlinear_arith)
                    requires
                        yy < self.height,
                ;
            }
            let row_start = yy * self.width;
            let mut xx = x;
            while xx < x_end
                invariant
                    self.wf(),
                    self.same_shape(old(self)),
                    old_pixels == old(self).pixels(),
                    x <= xx,
                    xx <= x_end || xx == x,
                    x_end <= self.width,
                    yy < y_end <= self.height,
                    y <= yy,
                    row_start == yy * self.width,
                    row_start + self.width <= self.width * self.height,
                    forall|k: int|
                        0 <= k < old_pixels.len() ==> #[trigger] self.pixels()[k] == if self.in_box(
                            k,
                            x as int,
                            y as int,
                            x_end as int,
                            yy as int,
                        ) || self.in_box(k, x as int, yy as int, xx as int, yy + 1) {
                            color
                        } else {
                            old_pixels[k]
                        },
                decreases x_end - xx,
            {
                self.vram[row_start + xx] = color;
                proof {
                    assert forall|k: int| 0 <= k < old_pixels.len() implies #[trigger] self.pixels()[k]
                        == if self.in_box(k, x as int, y as int, x_end as int, yy as int) || self.in_box(
                        k,
                        x as int,
                        yy as int,
                        xx + 1,
                        yy + 1,
                    ) {
                        color
                    } else {
                        old_pixels[k]
                    } by {
                        lemma_cell(self.width as int, k, yy as int, xx as int);
                    }
                }
                xx = xx + 1;
            }
            proof {
                assert forall|k: int| 0 <= k < old_pixels.len() implies #[trigger] self.pixels()[k]
                    == if self.in_box(k, x as int, y as int, x_end as int, yy + 1) {
                    color
                } else {
                    old_pixels[k]
                } by {
                    assert(self.in_box(k, x as int, yy as int, xx as int, yy + 1) == (self.in_box(
                        k,
                        x as int,
                        yy as int,
                        x_end as int,
                        yy + 1,
                    )));
                }
            }
            yy = yy + 1;
        }
        proof {
            assert forall|k: int| 0 <= k < old_pixels.len() implies #[trigger] self.pixels()[k] == if old(
                self,
            ).in_box(k, x as int, y as int, x + w, y + h) {
                color
            } else {
                old(self).pixels()[k]
            } by {
                assert(self.in_box(k, x as int, y as int, x_end as int, yy as int) == old(self).in_box(
                    k,
                    x as int,
                    y as int,
                    x + w,
                    y + h,
                ));
            }
        }
    }

    /// Paints the visible part of the outline of the `w` x `h` rectangle at
    /// (`x`, `y`); an empty rectangle paints nothing.
    pub fn stroke_rect(&mut self, x: usize, y: usize, w: usize, h: usize, color: u32)
        requires
            old(self).wf(),
        ensures
            final(self).wf(),
            final(self).same_shape(old(self)),
            forall|k: int|
                0 <= k < old(self).pixels().len() ==> #[trigger] final(self).pixels()[k] == if w > 0
                    && h > 0 && old(self).on_outline(k, x as int, y as int, w as int, h as int) {
                    color
                } else {
                    old(self).pixels()[k]
                },
    {
        if w == 0 || h == 0 {
            return;
        }
        let ghost old_pixels = self.pixels();
        let ghost (xi, yi, wi, hi) = (x as int, y as int, w as int, h as int);
        let sx = x.saturating_add(w);
        let x_end = if sx < self.width { sx } else { self.width };
        let bottom = y.saturating_add(h - 1);
        let mut xx = x;
        while xx < x_end
            invariant
                self.wf(),
                self.same_shape(old(self)),
                old_pixels == old(self).pixels(),
                xi == x && yi == y && wi == w && hi == h && w > 0 && h > 0,
                x <= xx,
                xx <= x_end || xx == x,
                x_end <= self.width,
                x_end == x + w || x_end == self.width,
                bottom == y + h - 1 || (bottom == usize::MAX && y + h - 1 > usize::MAX),
                forall|k: int|
                    0 <= k < old_pixels.len() ==> #[trigger] self.pixels()[k] == if self.in_box(
                        k,
                        xi,
                        yi,
                        xx as int,
                        yi + 1,
                    ) || self.in_box(k, xi, yi + hi - 1, xx as int, yi + hi) {
                        color
                    } else {
                        old_pixels[k]
                    },
            decreases x_end - xx,
        {
            let ghost before = self.pixels();
            self.draw_pixel(xx, y, color);
            let ghost between = self.pixels();
            self.draw_pixel(xx, bottom, color);
            proof {
                assert forall|k: int| 0 <= k < old_pixels.len() implies #[trigger] self.pixels()[k]
                    == if self.in_box(k, xi, yi, xx + 1, yi + 1) || self.in_box(
                    k,
                    xi,
                    yi + hi - 1,
                    xx + 1,
                    yi + hi,
                ) {
                    color
                } else {
                    old_pixels[k]
                } by {
                    lemma_paint(
                        self.width as int,
                        self.height as int,
                        before,
                        between,
                        xx as int,
                        y as int,
                        color,
                        k,
                    );
                    lemma_paint(
                        self.width as int,
                        self.height as int,
                        between,
                        self.pixels(),
                        xx as int,
                        bottom as int,
                        color,
                        k,
                    );
                }
            }
            xx = xx + 1;
        }
        let sy = y.saturating_add(h);
        let y_end = if sy < self.height { sy } else { self.height };
        let right = x.saturating_add(w - 1);
        let mut yy = y;
        while yy < y_end
            invariant
                self.wf(),
                self.same_shape(old(self)),
                old_pixels == old(self).pixels(),
                xi == x && yi == y && wi == w && hi == h && w > 0 && h > 0,
                y <= yy,
                yy <= y_end || yy == y,
                y_end <= self.height,
                y_end == y + h || y_end == self.height,
                x_end == x + w || x_end == self.width,
                xx == x_end || (xx == x && x_end <= x),
                right == x + w - 1 || (right == usize::MAX && x + w - 1 > usize::MAX),
                forall|k: int|
                    0 <= k < old_pixels.len() ==> #[trigger] self.pixels()[k] == if self.in_box(
                        k,
                        xi,
                        yi,
                        xx as int,
                        yi + 1,
                    ) || self.in_box(k, xi, yi + hi - 1, xx as int, yi + hi) || self.in_box(
                        k,
                        xi,
                        yi,
                        xi + 1,
                        yy as int,
                    ) || self.in_box(k, xi + wi - 1, yi, xi + wi, yy as int) {
                        color
                    } else {
                        old_pixels[k]
                    },
            decreases y_end - yy,
        {
            let ghost before = self.pixels();
            self.draw_pixel(x, yy, color);
            let ghost between = self.pixels();
            self.draw_pixel(right, yy, color);
            proof {
                assert forall|k: int| 0 <= k < old_pixels.len() implies #[trigger] self.pixels()[k]
                    == if self.in_box(k, xi, yi, xx as int, yi + 1) || self.in_box(
                    k,
                    xi,
                    yi + hi - 1,
                    xx as int,
                    yi + hi,
                ) || self.in_box(k, xi, yi, xi + 1, yy + 1) || self.in_box(
                    k,
                    xi + wi - 1,
                    yi,
                    xi + wi,
                    yy + 1,
                ) {
                    color
                } else {
                    old_pixels[k]
                } by {
                    lemma_paint(
                        self.width as int,
                        self.height as int,
                        before,
                        between,
                        x as int,
                        yy as int,
                        color,
                        k,
                    );
                    lemma_paint(
                        self.width as int,
                        self.height as int,
                        between,
                        self.pixels(),
                        right as int,
                        yy as int,
                        color,
                        k,
                    );
                }
            }
            yy = yy + 1;
        }
        proof {
            assert forall|k: int| 0 <= k < old_pixels.len() implies #[trigger] self.pixels()[k] == if w > 0
                && h > 0 && old(self).on_outline(k, xi, yi, wi, hi) {
                color
            } else {
                old(self).pixels()[k]
            } by {
                assert(self.in_box(k, xi, yi, xx as int, yi + 1) == self.in_box(k, xi, yi, xi + wi, yi + 1));
                assert(self.in_box(k, xi, yi + hi - 1, xx as int, yi + hi) == self.in_box(
                    k,
                    xi,
                    yi + hi - 1,
                    xi + wi,
                    yi + hi,
                ));
                assert(self.in_box(k, xi, yi, xi + 1, yy as int) == self.in_box(k, xi, yi, xi + 1, yi + hi));
                assert(self.in_box(k, xi + wi - 1, yi, xi + wi, yy as int) == self.in_box(
                    k,
                    xi + wi - 1,
                    yi,
                    xi + wi,
                    yi + hi,
                ));
            }
        }
    }

    /// The pixel at index `k` is a set pixel of `glyph` drawn with its top
    /// left corner at (`x`, `y`).
    pub open spec fn glyph_covers(&self, k: int, x: int, y: int, glyph: Glyph) -> bool {
        &&& self.in_box(k, x, y, x + 8, y + 8)
        &&& glyph_bit(glyph, self.row(k) - y, self.col(k) - x)
    }

    /// Draws the set pixels of `glyph` with its top left corner at (`x`, `y`).
    pub fn draw_glyph(&mut self, x: usize, y: usize, glyph: &Glyph, color: u32)
        requires
            old(self).wf(),
        ensures
            final(self).wf(),
            final(self).same_shape(old(self)),
            forall|k: int|
                0 <= k < old(self).pixels().len() ==> #[trigger] final(self).pixels()[k] == if old(
                    self,
                ).glyph_covers(k, x as int, y as int, *glyph) {
                    color
                } else {
                    old(self).pixels()[k]
                },
    {
        let ghost old_pixels = self.pixels();
        let ghost g = *glyph;
        let mut dy: usize = 0;
        while dy < 8
            invariant
                self.wf(),
                self.same_shape(old(self)),
                old_pixels == old(self).pixels(),
                g == *glyph,
                dy <= 8,
                forall|k: int|
                    0 <= k < old_pixels.len() ==> #[trigger] self.pixels()[k] == if self.glyph_covers(
                        k,
                        x as int,
                        y as int,
                        g,
                    ) && self.row(k) < y + dy {
                        color
                    } else {
                        old_pixels[k]
                    },
            decreases 8 - dy,
        {
            let line = glyph[dy];
            let mut dx: usize = 0;
            while dx < 8
                invariant
                    self.wf(),
                    self.same_shape(old(self)),
                    old_pixels == old(self).pixels(),
                    g == *glyph,
                    dy < 8,
                    dx <= 8,
                    line == g@[dy as int],
                    forall|k: int|
                        0 <= k < old_pixels.len() ==> #[trigger] self.pixels()[k] == if self.glyph_covers(
                            k,
                            x as int,
                            y as int,
                            g,
                        ) && (self.row(k) < y + dy || (self.row(k) == y + dy && self.col(k) < x + dx)) {
                            color
                        } else {
                            old_pixels[k]
                        },
                decreases 8 - dx,
            {
                let ghost before = self.pixels();
                let px = x.saturating_add(dx);
                let py = y.saturating_add(dy);
                let set = (line >> ((7 - dx) as u8)) & 0x01 != 0;
                if set {
                    self.draw_pixel(px, py, color);
                }
                proof {
                    assert forall|k: int| 0 <= k < old_pixels.len() implies #[trigger] self.pixels()[k]
                        == if self.glyph_covers(k, x as int, y as int, g) && (self.row(k) < y + dy || (
                        self.row(k) == y + dy && self.col(k) < x + dx + 1)) {
                        color
                    } else {
                        old_pixels[k]
                    } by {
                        if set {
                            lemma_paint(
                                self.width as int,
                                self.height as int,
                                before,
                                self.pixels(),
                                px as int,
                                py as int,
                                color,
                                k,
                            );
                        }
                    }
                }
                dx = dx + 1;
            }
            dy = dy + 1;
        }
    }

    /// Draws the glyph of `ch` from `font` with its top left corner at
    /// (`x`, `y`); a character the font lacks draws nothing.
    pub fn draw_char(&mut self, font: &Font, x: usize, y: usize, ch: char, color: u32)
        requires
            old(self).wf(),
        ensures
            final(self).wf(),
            final(self).same_shape(old(self)),
            forall|k: int|
                0 <= k < old(self).pixels().len() ==> #[trigger] final(self).pixels()[k] == match font.lookup(
                    ch,
                ) {
                    Some(glyph) => if old(self).glyph_covers(k, x as int, y as int, glyph) {
                        color
                    } else {
                        old(self).pixels()[k]
                    },
                    None => old(self).pixels()[k],
                },
    {
        if let Some(bitmap) = font.glyph(ch) {
            self.draw_glyph(x, y, &bitmap, color);
        }
    }

    /// The pixel at index `k` is a set pixel of the glyph of `ch` drawn at
    /// (`x`, `y`).
    pub open spec fn char_covers(&self, k: int, x: int, y: int, font: &Font, ch: char) -> bool {
        match font.lookup(ch) {
            Some(glyph) => self.glyph_covers(k, x, y, glyph),
            None => false,
        }
    }

    /// The pixel at index `k` is covered by one of the first `n` characters
    /// of `text`, drawn 10 pixels apart from (`x`, `y`).
    pub open spec fn text_covers(&self, k: int, x: int, y: int, font: &Font, text: Seq<char>, n: int) -> bool {
        exists|i: int| 0 <= i < n && #[trigger] self.char_covers(k, x + 10 * i, y, font, text[i])
    }

    /// Draws `text` from `font`, one glyph every 10 pixels (8 of glyph, 2 of
    /// space) to the right of (`x`, `y`).
    pub fn draw_text(&mut self, font: &Font, x: usize, y: usize, text: &str, color: u32)
        requires
            old(self).wf(),
        ensures
            final(self).wf(),
            final(self).same_shape(old(self)),
            paints_only(old(self).pixels(), final(self).pixels(), color),
            forall|k: int|
                0 <= k < old(self).pixels().len() ==> #[trigger] final(self).pixels()[k] == if old(
                    self,
                ).text_covers(k, x as int, y as int, font, text@, text@.len() as int) {
                    color
                } else {
                    old(self).pixels()[k]
                },
    {
        let ghost old_pixels = self.pixels();
        let mut cx = x;
        for ch in it: text.chars()
            invariant
                self.wf(),
                self.same_shape(old(self)),
                old_pixels == old(self).pixels(),
                it.seq() == text@,
                cx == if x + 10 * it.index() <= usize::MAX { x + 10 * it.index() } else { usize::MAX as int },
                paints_only(old_pixels, self.pixels(), color),
                forall|k: int|
                    0 <= k < old_pixels.len() ==> #[trigger] self.pixels()[k] == if old(self).text_covers(
                        k,
                        x as int,
                        y as int,
                        font,
                        text@,
                        it.index() as int,
                    ) {
                        color
                    } else {
                        old_pixels[k]
                    },
        {
            let ghost s0 = *self;
            let ghost n = it.index() as int;
            assert(ch == text@[n]);
            self.draw_char(font, cx, y, ch, color);
            proof {
                assert forall|k: int| 0 <= k < old_pixels.len() implies #[trigger] self.pixels()[k] == if old(self).text_covers(
                    k,
                    x as int,
                    y as int,
                    font,
                    text@,
                    n + 1,
                ) {
                    color
                } else {
                    old_pixels[k]
                } by {
                    let o = old(self);
                    assert(s0.char_covers(k, cx as int, y as int, font, ch) == o.char_covers(
                        k,
                        cx as int,
                        y as int,
                        font,
                        ch,
                    ));
                    if x + 10 * n > usize::MAX {
                        assert(!o.char_covers(k, x + 10 * n, y as int, font, text@[n]));
                        assert(!o.char_covers(k, cx as int, y as int, font, ch));
                    }
                    if old(self).text_covers(k, x as int, y as int, font, text@, n + 1) {
                        let i = choose|i: int| 0 <= i < n + 1 && #[trigger] old(self).char_covers(
                            k,
                            x + 10 * i,
                            y as int,
                            font,
                            text@[i],
                        );
                        if i < n {
                            assert(old(self).text_covers(k, x as int, y as int, font, text@, n));
                        }
                    }
                    if old(self).text_covers(k, x as int, y as int, font, text@, n) {
                        let i = choose|i: int| 0 <= i < n && #[trigger] old(self).char_covers(
                            k,
                            x + 10 * i,
                            y as int,
                            font,
                            text@[i],
                        );
                        assert(old(self).char_covers(k, x + 10 * i, y as int, font, text@[i]));
                    }
                    if old(self).char_covers(k, x + 10 * n, y as int, font, text@[n]) {
                        assert(old(self).text_covers(k, x as int, y as int, font, text@, n + 1));
                    }
                }
            }
            cx = cx.saturating_add(10);
        }
    }

    /// The visible pixel at (`x`, `y`), given as signed coordinates.
    pub open spec fn is_cell(&self, k: int, x: int, y: int) -> bool {
        &&& 0 <= x < self.width
        &&& 0 <= y < self.height
        &&& k == y * self.width + x
    }

    /// Paints the pixel at signed coordinates (`x`, `y`) when it is visible.
    fn plot(&mut self, x: i64, y: i64, color: u32)
        requires
            old(self).wf(),
        ensures
            final(self).wf(),
            final(self).same_shape(old(self)),
            paints_only(old(self).pixels(), final(self).pixels(), color),
            forall|k: int|
                0 <= k < old(self).pixels().len() && #[trigger] old(self).is_cell(k, x as int, y as int)
                    ==> final(self).pixels()[k] == color,
            forall|k: int|
                0 <= k < old(self).pixels().len() && #[trigger] final(self).pixels()[k] != old(self).pixels()[k]
                    ==> old(self).in_box(k, x as int, y as int, x + 1, y + 1),
            forall|k: int|
                0 <= k < old(self).pixels().len() ==> #[trigger] final(self).pixels()[k] == if old(self).in_box(
                    k,
                    x as int,
                    y as int,
                    x + 1,
                    y + 1,
                ) {
                    color
                } else {
                    old(self).pixels()[k]
                },
    {
        if x >= 0 && y >= 0 && (x as u64) < self.width as u64 && (y as u64) < self.height as u64 {
            proof {
                assert(y * self.width + x < self.width * self.height) by (nonlinear_arith)
                    requires
                        0 <= x < self.width,
                        0 <= y < self.height,
                ;
            }
            self.draw_pixel(x as usize, y as usize, color);
            proof {
                assert forall|k: int|
                    0 <= k < old(self).pixels().len() && #[trigger] self.pixels()[k] != old(self).pixels()[k]
                        implies old(self).in_box(k, x as int, y as int, x + 1, y + 1) by {
                    lemma_cell(self.width as int, k, y as int, x as int);
                }
                assert forall|k: int| 0 <= k < old(self).pixels().len() implies #[trigger] self.pixels()[k]
                    == if old(self).in_box(k, x as int, y as int, x + 1, y + 1) {
                    color
                } else {
                    old(self).pixels()[k]
                } by {
                    lemma_cell(self.width as int, k, y as int, x as int);
                }
            }
        }
    }

    /// Draws the line from (`x0`, `y0`) to (`x1`, `y1`) with Bresenham's
    /// algorithm: exactly the visible pixels whose cells are among
    /// `line_points` become `color`. Both visible end points are painted, and
    /// every pixel that changes lies in the end points' bounding box.
    pub fn draw_line(&mut self, x0: isize, y0: isize, x1: isize, y1: isize, color: u32)
        requires
            old(self).wf(),
            -LINE_SPAN_LIMIT < x1 - x0 < LINE_SPAN_LIMIT,
            -LINE_SPAN_LIMIT < y1 - y0 < LINE_SPAN_LIMIT,
        ensures
            final(self).wf(),
            final(self).same_shape(old(self)),
            paints_only(old(self).pixels(), final(self).pixels(), color),
            forall|k: int|
                0 <= k < old(self).pixels().len() && #[trigger] old(self).is_cell(k, x0 as int, y0 as int)
                    ==> final(self).pixels()[k] == color,
            forall|k: int|
                0 <= k < old(self).pixels().len() && #[trigger] old(self).is_cell(k, x1 as int, y1 as int)
                    ==> final(self).pixels()[k] == color,
            forall|k: int|
                0 <= k < old(self).pixels().len() && #[trigger] final(self).pixels()[k] != old(self).pixels()[k]
                    ==> old(self).in_box(
                    k,
                    if x0 <= x1 { x0 as int } else { x1 as int },
                    if y0 <= y1 { y0 as int } else { y1 as int },
                    if x0 <= x1 { x1 + 1 } else { x0 + 1 },
                    if y0 <= y1 { y1 + 1 } else { y0 + 1 },
                ),
            forall|k: int|
                0 <= k < old(self).pixels().len() ==> #[trigger] final(self).pixels()[k] == if old(self).cell_in(
                    k,
                    line_points(x0 as int, y0 as int, x1 as int, y1 as int),
                ) {
                    color
                } else {
                    old(self).pixels()[k]
                },
    {
        let (tx, ty) = (x1 as i64, y1 as i64);
        let mut x = x0 as i64;
        let mut y = y0 as i64;
        let dx: i64 = if tx >= x { tx - x } else { x - tx };
        let sx: i64 = if x < tx { 1 } else { -1 };
        let dy: i64 = if ty >= y { y - ty } else { ty - y };
        let sy: i64 = if y < ty { 1 } else { -1 };
        let mut err: i64 = dx + dy;
        self.plot(x, y, color);
        // Steps taken along x and along y.
        let ghost mut a: int = 0;
        let ghost mut b: int = 0;
        let ghost d = -dy;
        // Points plotted so far, and the steps left to the spec's walk.
        let ghost lp = line_points(x0 as int, y0 as int, x1 as int, y1 as int);
        let ghost mut vis: Set<(int, int)> = set![(x as int, y as int)];
        let ghost mut n: nat = (dx - dy) as nat;
        proof {
            assert(bresenham_from(x as int, y as int, err as int, tx as int, ty as int, dx as int, dy as int, sx as int, sy as int, n).contains((x as int, y as int)));
            assert(lp =~= vis.union(bresenham_from(x as int, y as int, err as int, tx as int, ty as int, dx as int, dy as int, sx as int, sy as int, n)));
            assert forall|k: int| 0 <= k < old(self).pixels().len() implies #[trigger] self.pixels()[k]
                == if old(self).cell_in(k, vis) { color } else { old(self).pixels()[k] } by {
                if self.width > 0 {
                    assert(k % (self.width as int) < self.width);
                }
            }
        }
        assert(err == dx * (1 + b) - d * (1 + a)) by (nonlinear_arith)
            requires
                a == 0,
                b == 0,
                d == -dy,
                err == dx + dy,
        ;
        while !(x == tx && y == ty)
            invariant
                self.wf(),
                self.same_shape(old(self)),
                paints_only(old(self).pixels(), self.pixels(), color),
                forall|k: int|
                    0 <= k < old(self).pixels().len() && #[trigger] old(self).is_cell(k, x0 as int, y0 as int)
                        ==> self.pixels()[k] == color,
                forall|k: int|
                    0 <= k < old(self).pixels().len() && #[trigger] old(self).is_cell(k, x as int, y as int)
                        ==> self.pixels()[k] == color,
                forall|k: int|
                    0 <= k < old(self).pixels().len() && #[trigger] self.pixels()[k] != old(self).pixels()[k]
                        ==> old(self).in_box(
                        k,
                        if x0 <= x1 { x0 as int } else { x1 as int },
                        if y0 <= y1 { y0 as int } else { y1 as int },
                        if x0 <= x1 { x1 + 1 } else { x0 + 1 },
                        if y0 <= y1 { y1 + 1 } else { y0 + 1 },
                    ),
                tx == x1 && ty == y1,
                dx == if x1 >= x0 { x1 - x0 } else { x0 - x1 },
                d == if y1 >= y0 { y1 - y0 } else { y0 - y1 },
                dy == -d,
                sx == if x0 < x1 { 1int } else { -1int },
                sy == if y0 < y1 { 1int } else { -1int },
                0 <= a <= dx < LINE_SPAN_LIMIT,
                0 <= b <= d < LINE_SPAN_LIMIT,
                x == x0 + sx * a,
                y == y0 + sy * b,
                err == dx * (1 + b) - d * (1 + a),
                2 * dy <= err <= 2 * dx,
                lp == line_points(x0 as int, y0 as int, x1 as int, y1 as int),
                lp == vis.union(bresenham_from(x as int, y as int, err as int, tx as int, ty as int, dx as int, dy as int, sx as int, sy as int, n)),
                vis.contains((x as int, y as int)),
                n >= (dx - a) + (d - b),
                forall|k: int|
                    0 <= k < old(self).pixels().len() ==> #[trigger] self.pixels()[k] == if old(self).cell_in(
                        k,
                        vis,
                    ) {
                        color
                    } else {
                        old(self).pixels()[k]
                    },
            decreases (dx - a) + (d - b),
        {
            proof {
                assert(x == tx <==> a == dx) by (nonlinear_arith)
                    requires
                        x == x0 + sx * a,
                        tx == x1,
                        dx == if x1 >= x0 { x1 - x0 } else { x0 - x1 },
                        sx == if x0 < x1 { 1int } else { -1int },
                        0 <= a <= dx,
                ;
                assert(y == ty <==> b == d) by (nonlinear_arith)
                    requires
                        y == y0 + sy * b,
                        ty == y1,
                        d == if y1 >= y0 { y1 - y0 } else { y0 - y1 },
                        sy == if y0 < y1 { 1int } else { -1int },
                        0 <= b <= d,
                ;
            }
            let e2 = err * 2;
            let ghost (a0, b0) = (a, b);
            let ghost (xo, yo, erro) = (x as int, y as int, err as int);
            proof {
                // No coordinate passes its end.
                assert(e2 == 2 * (dx * (1 + b0) - d * (1 + a0)));
                if a0 == dx && b0 < d {
                    assert(dx * (1 + b0) <= dx * d) by (nonlinear_arith)
                        requires
                            dx >= 0,
                            1 + b0 <= d,
                    ;
                    assert(d * (1 + a0) == d + dx * d) by (nonlinear_arith)
                        requires
                            a0 == dx,
                    ;
                    assert(e2 < dy);
                }
                if b0 == d && a0 < dx {
                    assert(d * (1 + a0) <= dx * d) by (nonlinear_arith)
                        requires
                            d >= 0,
                            1 + a0 <= dx,
                    ;
                    assert(dx * (1 + b0) == dx + dx * d) by (nonlinear_arith)
                        requires
                            b0 == d,
                    ;
                    assert(e2 > dx);
                }
            }
            if e2 >= dy {
                err = err + dy;
                x = x + sx;
                proof {
                    a = a + 1;
                }
            }
            if e2 <= dx {
                err = err + dx;
                y = y + sy;
                proof {
                    b = b + 1;
                }
            }
            proof {
                assert(err == dx * (1 + b) - d * (1 + a)) by (nonlinear_arith)
                    requires
                        e2 >= dy ==> a == a0 + 1,
                        e2 < dy ==> a == a0,
                        e2 <= dx ==> b == b0 + 1,
                        e2 > dx ==> b == b0,
                        err == dx * (1 + b0) - d * (1 + a0) + (if e2 >= dy { dy } else { 0 }) + (if e2
                            <= dx {
                            dx
                        } else {
                            0
                        }),
                        dy == -d,
                ;
                assert(x == x0 + sx * a) by (nonlinear_arith)
                    requires
                        a == a0 || a == a0 + 1,
                        a == a0 + 1 ==> x == x0 + sx * a0 + sx,
                        a == a0 ==> x == x0 + sx * a0,
                ;
                assert(y == y0 + sy * b) by (nonlinear_arith)
                    requires
                        b == b0 || b == b0 + 1,
                        b == b0 + 1 ==> y == y0 + sy * b0 + sy,
                        b == b0 ==> y == y0 + sy * b0,
                ;
            }
            let ghost s0 = *self;
            proof {
                assert(sx * a == if sx == 1 { a } else { -a }) by (nonlinear_arith)
                    requires
                        sx == 1 || sx == -1,
                ;
                assert(sy * b == if sy == 1 { b } else { -b }) by (nonlinear_arith)
                    requires
                        sy == 1 || sy == -1,
                ;
            }
            self.plot(x, y, color);
            proof {
                assert forall|k: int|
                    0 <= k < old(self).pixels().len() && #[trigger] old(self).is_cell(
                        k,
                        x as int,
                        y as int,
                    ) implies self.pixels()[k] == color by {
                    assert(s0.is_cell(k, x as int, y as int));
                }
                assert forall|k: int|
                    0 <= k < old(self).pixels().len() && #[trigger] self.pixels()[k] != old(self).pixels()[k]
                        implies old(self).in_box(
                        k,
                        if x0 <= x1 { x0 as int } else { x1 as int },
                        if y0 <= y1 { y0 as int } else { y1 as int },
                        if x0 <= x1 { x1 + 1 } else { x0 + 1 },
                        if y0 <= y1 { y1 + 1 } else { y0 + 1 },
                    ) by {
                    if self.pixels()[k] != s0.pixels()[k] {
                        assert(s0.in_box(k, x as int, y as int, x + 1, y + 1));
                    }
                }
                let bres_old = bresenham_from(xo, yo, erro, tx as int, ty as int, dx as int, dy as int, sx as int, sy as int, n);
                let bres_new = bresenham_from(x as int, y as int, err as int, tx as int, ty as int, dx as int, dy as int, sx as int, sy as int, (n - 1) as nat);
                assert(bres_old == set![(xo, yo)].union(bres_new));
                assert(bres_new.contains((x as int, y as int)));
                let vis_old = vis;
                vis = vis.insert((x as int, y as int));
                n = (n - 1) as nat;
                assert(lp =~= vis.union(bres_new));
                assert forall|k: int| 0 <= k < old(self).pixels().len() implies #[trigger] self.pixels()[k]
                    == if old(self).cell_in(k, vis) { color } else { old(self).pixels()[k] } by {
                    assert(s0.pixels()[k] == if old(self).cell_in(k, vis_old) { color } else { old(self).pixels()[k] });
                    if self.width > 0 {
                        assert(k % (self.width as int) < self.width);
                    }
                }
            }
        }
        proof {
            let bres_end = bresenham_from(x as int, y as int, err as int, tx as int, ty as int, dx as int, dy as int, sx as int, sy as int, n);
            assert(bres_end == set![(x as int, y as int)]);
            assert(lp =~= vis);
        }
    }

    /// The pixel at index `k` lies on the horizontal span of columns
    /// `[x_start, x_end]` in row `yy`.
    pub open spec fn on_span(&self, k: int, x_start: int, x_end: int, yy: int) -> bool {
        self.in_box(k, x_start, yy, x_end + 1, yy + 1)
    }

    /// Paints the visible part of the span of columns `[x_start, x_end]` in
    /// row `yy`.
    fn fill_span(&mut self, x_start: i64, x_end: i64, yy: i64, color: u32)
        requires
            old(self).wf(),
        ensures
            final(self).wf(),
            final(self).same_shape(old(self)),
            forall|k: int|
                0 <= k < old(self).pixels().len() ==> #[trigger] final(self).pixels()[k] == if old(
                    self,
                ).on_span(k, x_start as int, x_end as int, yy as int) {
                    color
                } else {
                    old(self).pixels()[k]
                },
    {
        if yy < 0 || yy as u64 >= self.height as u64 || x_end < 0 || self.width == 0 {
            return;
        }
        let xs: u64 = if x_start < 0 { 0 } else { x_start as u64 };
        let xe: u64 = if (x_end as u64) < self.width as u64 { x_end as u64 + 1 } else { self.width as u64 };
        if xs >= xe {
            return;
        }
        self.fill_rect(xs as usize, yy as usize, (xe - xs) as usize, 1, color);
    }

    /// Paints the four spans that the midpoint circle step at (`x`, `y`)
    /// covers for the circle centred on (`cx`, `cy`).
    fn draw_hline_span(&mut self, cx: i64, cy: i64, x: i64, y: i64, color: u32)
        requires
            old(self).wf(),
            0 <= x,
            0 <= y,
            i64::MIN <= cx - x && cx + x <= i64::MAX,
            i64::MIN <= cx - y && cx + y <= i64::MAX,
            i64::MIN <= cy - x && cy + x <= i64::MAX,
            i64::MIN <= cy - y && cy + y <= i64::MAX,
        ensures
            final(self).wf(),
            final(self).same_shape(old(self)),
            forall|k: int|
                0 <= k < old(self).pixels().len() ==> #[trigger] final(self).pixels()[k] == if {
                    ||| old(self).on_span(k, cx - x, cx + x, cy + y)
                    ||| old(self).on_span(k, cx - x, cx + x, cy - y)
                    ||| old(self).on_span(k, cx - y, cx + y, cy + x)
                    ||| old(self).on_span(k, cx - y, cx + y, cy - x)
                } {
                    color
                } else {
                    old(self).pixels()[k]
                },
    {
        self.fill_span(cx - x, cx + x, cy + y, color);
        self.fill_span(cx - x, cx + x, cy - y, color);
        self.fill_span(cx - y, cx + y, cy + x, color);
        self.fill_span(cx - y, cx + y, cy - x, color);
    }

    /// Fills the disc of `radius` centred on (`cx`, `cy`) with the midpoint
    /// circle algorithm: exactly the visible pixels on the spans of the steps
    /// `midpoint_steps(radius, 0, 0)` become `color`, and a radius of zero or
    /// less draws nothing. The visible centre of a disc is painted, and every
    /// pixel that changes lies in the disc's bounding square.
    pub fn fill_circle(&mut self, cx: isize, cy: isize, radius: isize, color: u32)
        requires
            old(self).wf(),
            -COORD_LIMIT <= cx <= COORD_LIMIT,
            -COORD_LIMIT <= cy <= COORD_LIMIT,
            radius <= COORD_LIMIT,
        ensures
            final(self).wf(),
            final(self).same_shape(old(self)),
            paints_only(old(self).pixels(), final(self).pixels(), color),
            radius <= 0 ==> final(self).pixels() == old(self).pixels(),
            forall|k: int|
                0 <= k < old(self).pixels().len() && #[trigger] final(self).pixels()[k] != old(self).pixels()[k]
                    ==> old(self).in_box(k, cx - radius, cy - radius, cx + radius + 1, cy + radius + 1),
            forall|k: int|
                0 <= k < old(self).pixels().len() && radius > 0 && #[trigger] old(self).is_cell(
                    k,
                    cx as int,
                    cy as int,
                ) ==> final(self).pixels()[k] == color,
            forall|k: int|
                0 <= k < old(self).pixels().len() ==> #[trigger] final(self).pixels()[k] == if radius > 0
                    && old(self).disc_covers(k, cx as int, cy as int, midpoint_steps(radius as int, 0, 0)) {
                    color
                } else {
                    old(self).pixels()[k]
                },
    {
        if radius <= 0 {
            return;
        }
        let ghost all_steps = midpoint_steps(radius as int, 0, 0);
        let ghost mut done: Set<(int, int)> = Set::empty();
        assert(all_steps =~= done.union(all_steps));
        let (cx, cy) = (cx as i64, cy as i64);
        let mut x: i64 = radius as i64;
        let mut y: i64 = 0;
        let mut err: i64 = 0;
        let ghost mut first = true;
        while x >= y
            invariant
                self.wf(),
                self.same_shape(old(self)),
                paints_only(old(self).pixels(), self.pixels(), color),
                -COORD_LIMIT <= cx <= COORD_LIMIT,
                -COORD_LIMIT <= cy <= COORD_LIMIT,
                0 < radius <= COORD_LIMIT,
                0 <= y <= x + 2,
                x <= radius,
                -(2 * radius + 4) <= err <= 2 * radius + 4,
                x >= 0 ==> err <= 2 * radius + 3,
                first ==> x == radius && y == 0,
                forall|k: int|
                    0 <= k < old(self).pixels().len() && #[trigger] self.pixels()[k] != old(self).pixels()[k]
                        ==> old(self).in_box(k, cx - radius, cy - radius, cx + radius + 1, cy + radius + 1),
                !first ==> forall|k: int|
                    0 <= k < old(self).pixels().len() && #[trigger] old(self).is_cell(k, cx as int, cy as int)
                        ==> self.pixels()[k] == color,
                all_steps == midpoint_steps(radius as int, 0, 0),
                all_steps == done.union(midpoint_steps(x as int, y as int, err as int)),
                forall|k: int|
                    0 <= k < old(self).pixels().len() ==> #[trigger] self.pixels()[k] == if old(self).disc_covers(
                        k,
                        cx as int,
                        cy as int,
                        done,
                    ) {
                        color
                    } else {
                        old(self).pixels()[k]
                    },
            decreases x + 2 - y,
        {
            let ghost before = self.pixels();
            let ghost s0 = *self;
            let ghost (xo, yo, erro) = (x as int, y as int, err as int);
            self.draw_hline_span(cx, cy, x, y, color);
            proof {
                assert forall|k: int| 0 <= k < old(self).pixels().len() implies #[trigger] self.pixels()[k]
                    == before[k] || self.pixels()[k] == color by {}
                assert forall|k: int|
                    0 <= k < old(self).pixels().len() && #[trigger] self.pixels()[k] != old(self).pixels()[k]
                        implies old(self).in_box(
                        k,
                        cx - radius,
                        cy - radius,
                        cx + radius + 1,
                        cy + radius + 1,
                    ) by {
                    if before[k] != old(self).pixels()[k] {
                    } else {
                        assert(self.pixels()[k] != before[k]);
                    }
                }
                if first {
                    assert forall|k: int|
                        0 <= k < old(self).pixels().len() && #[trigger] old(self).is_cell(
                            k,
                            cx as int,
                            cy as int,
                        ) implies self.pixels()[k] == color by {
                        let w = self.width as int;
                        lemma_cell(w, k, cy as int, cx as int);
                        assert(before.len() == old(self).pixels().len());
                        assert(old(self).on_span(k, cx - x, cx + x, cy + y));
                    }
                }
            }
            proof {
                first = false;
                let done_old = done;
                done = done.insert((xo, yo));
                assert forall|k: int| 0 <= k < old(self).pixels().len() implies #[trigger] self.pixels()[k]
                    == if old(self).disc_covers(k, cx as int, cy as int, done) {
                    color
                } else {
                    old(self).pixels()[k]
                } by {
                    let o = old(self);
                    assert(s0.step_covers(k, cx as int, cy as int, xo, yo) == o.step_covers(
                        k,
                        cx as int,
                        cy as int,
                        xo,
                        yo,
                    ));
                    if o.disc_covers(k, cx as int, cy as int, done) {
                        let p = choose|p: (int, int)| #[trigger] done.contains(p) && o.step_covers(
                            k,
                            cx as int,
                            cy as int,
                            p.0,
                            p.1,
                        );
                        if p != (xo, yo) {
                            assert(done_old.contains(p));
                        }
                    }
                    if o.disc_covers(k, cx as int, cy as int, done_old) {
                        let p = choose|p: (int, int)| #[trigger] done_old.contains(p) && o.step_covers(
                            k,
                            cx as int,
                            cy as int,
                            p.0,
                            p.1,
                        );
                        assert(done.contains(p));
                    }
                    if o.step_covers(k, cx as int, cy as int, xo, yo) {
                        assert(done.contains((xo, yo)));
                    }
                }
            }
            y = y + 1;
            if err <= 0 {
                err = err + 2 * y + 1;
            } else {
                x = x - 1;
                err = err - (2 * x + 1);
            }
            proof {
                assert(midpoint_steps(xo, yo, erro) == set![(xo, yo)].union(
                    midpoint_steps(x as int, y as int, err as int),
                ));
                assert(all_steps =~= done.union(midpoint_steps(x as int, y as int, err as int)));
            }
        }
        proof {
            assert(midpoint_steps(x as int, y as int, err as int) == Set::<(int, int)>::empty());
            assert(all_steps =~= done);
        }
    }

    /// Draws `val` as `0x` and its upper-case hex digits, one glyph every 10
    /// pixels to the right of (`x`, `y`).
    pub fn draw_hex(&mut self, font: &Font, x: usize, y: usize, val: usize, color: u32)
        requires
            old(self).wf(),
        ensures
            final(self).wf(),
            final(self).same_shape(old(self)),
            paints_only(old(self).pixels(), final(self).pixels(), color),
            forall|k: int|
                0 <= k < old(self).pixels().len() ==> #[trigger] final(self).pixels()[k] == if old(
                    self,
                ).text_covers(
                    k,
                    x as int,
                    y as int,
                    font,
                    hex_text(val as nat).map_values(|b: u8| b as char),
                    hex_text(val as nat).len() as int,
                ) {
                    color
                } else {
                    old(self).pixels()[k]
                },
    {
        let text = format_hex(val);
        let ghost chars = hex_text(val as nat).map_values(|b: u8| b as char);
        let ghost old_pixels = self.pixels();
        let mut cx = x;
        let mut i: usize = 0;
        while i < text.len()
            invariant
                self.wf(),
                self.same_shape(old(self)),
                old_pixels == old(self).pixels(),
                text@ == hex_text(val as nat),
                chars == text@.map_values(|b: u8| b as char),
                i <= text@.len(),
                cx == if x + 10 * i <= usize::MAX { x + 10 * i } else { usize::MAX as int },
                paints_only(old_pixels, self.pixels(), color),
                forall|k: int|
                    0 <= k < old_pixels.len() ==> #[trigger] self.pixels()[k] == if old(self).text_covers(
                        k,
                        x as int,
                        y as int,
                        font,
                        chars,
                        i as int,
                    ) {
                        color
                    } else {
                        old_pixels[k]
                    },
            decreases text@.len() - i,
        {
            let ghost s0 = *self;
            let ghost n = i as int;
            let ch = text[i] as char;
            assert(ch == chars[n]);
            self.draw_char(font, cx, y, ch, color);
            proof {
                assert forall|k: int| 0 <= k < old_pixels.len() implies #[trigger] self.pixels()[k]
                    == if old(self).text_covers(k, x as int, y as int, font, chars, n + 1) {
                    color
                } else {
                    old_pixels[k]
                } by {
                    let o = old(self);
                    assert(s0.char_covers(k, cx as int, y as int, font, ch) == o.char_covers(
                        k,
                        cx as int,
                        y as int,
                        font,
                        ch,
                    ));
                    if x + 10 * n > usize::MAX {
                        assert(!o.char_covers(k, x + 10 * n, y as int, font, chars[n]));
                        assert(!o.char_covers(k, cx as int, y as int, font, ch));
                    }
                    if o.text_covers(k, x as int, y as int, font, chars, n + 1) {
                        let j = choose|j: int| 0 <= j < n + 1 && #[trigger] o.char_covers(
                            k,
                            x + 10 * j,
                            y as int,
                            font,
                            chars[j],
                        );
                        if j < n {
                            assert(o.text_covers(k, x as int, y as int, font, chars, n));
                        }
                    }
                    if o.text_covers(k, x as int, y as int, font, chars, n) {
                        let j = choose|j: int| 0 <= j < n && #[trigger] o.char_covers(
                            k,
                            x + 10 * j,
                            y as int,
                            font,
                            chars[j],
                        );
                        assert(o.char_covers(k, x + 10 * j, y as int, font, chars[j]));
                    }
                    if o.char_covers(k, x + 10 * n, y as int, font, chars[n]) {
                        assert(o.text_covers(k, x as int, y as int, font, chars, n + 1));
                    }
                }
            }
            cx = cx.saturating_add(10);
            i = i + 1;
        }
    }
}

} // verus!
