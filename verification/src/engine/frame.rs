//! The framebuffer and everything that draws into it.
//!
//! A `Frame` owns one RGBA buffer allocated once at the largest size the
//! module will ever render; the live frame is a packed `w * h` region at the
//! front of it. Only the live part is ever touched, so a small frame costs a
//! small fill, and no drawing call can write past the end of it.

use vstd::prelude::*;

verus! {

pub type Rgb = (u8, u8, u8);

pub const MAX_W: usize = 1200;
pub const MAX_H: usize = 1200;
pub const MAX_PIXELS: usize = MAX_W * MAX_H * 4;
/// The smallest side a frame can be given.
pub const MIN_SIDE: usize = 16;
/// The side a frame starts at before the host says otherwise.
pub const START_SIDE: usize = 480;

// ------------------------------------------------------------------ model

/// Byte `i` belongs to the live `fw * fh` region.
pub open spec fn live(fw: int, fh: int, i: int) -> bool {
    0 <= i < fw * fh * 4
}

/// Column of the pixel that byte `i` belongs to.
pub open spec fn px_of(fw: int, i: int) -> int {
    (i / 4) % fw
}

/// Row of the pixel that byte `i` belongs to.
pub open spec fn py_of(fw: int, i: int) -> int {
    (i / 4) / fw
}

/// What a painted pixel holds in channel `k`: the colour, then opaque alpha.
pub open spec fn channel(c: Rgb, k: int) -> u8 {
    if k == 0 {
        c.0
    } else if k == 1 {
        c.1
    } else if k == 2 {
        c.2
    } else {
        255
    }
}

/// `s` with every byte in `region` set to colour `c`, the rest untouched.
pub open spec fn paint(s: Seq<u8>, region: spec_fn(int) -> bool, c: Rgb) -> Seq<u8> {
    Seq::new(s.len(), |i: int| if region(i) { channel(c, i % 4) } else { s[i] })
}

/// Byte `i` is live and its pixel lies in the box `[x, x + w) x [y, y + h)`.
pub open spec fn in_box(fw: int, fh: int, x: int, y: int, w: int, h: int, i: int) -> bool {
    &&& live(fw, fh, i)
    &&& x <= px_of(fw, i) < x + w
    &&& y <= py_of(fw, i) < y + h
}

pub open spec fn box_region(fw: int, fh: int, x: int, y: int, w: int, h: int) -> spec_fn(int) -> bool {
    |i: int| in_box(fw, fh, x, y, w, h, i)
}

// ----------------------------------------------------------- arithmetic

/// Byte `q * 4 + k` of pixel `q = py * fw + px` sits at column `px`, row `py`.
pub proof fn lemma_pixel_coords(fw: int, px: int, py: int, k: int)
    requires
        fw > 0,
        0 <= px < fw,
        0 <= py,
        0 <= k < 4,
    ensures
        ((py * fw + px) * 4 + k) / 4 == py * fw + px,
        ((py * fw + px) * 4 + k) % 4 == k,
        px_of(fw, (py * fw + px) * 4 + k) == px,
        py_of(fw, (py * fw + px) * 4 + k) == py,
{
    let q = py * fw + px;
    assert(q >= 0) by (nonlinear_arith)
        requires
            fw > 0,
            0 <= px,
            0 <= py,
            q == py * fw + px,
    ;
    vstd::arithmetic::div_mod::lemma_fundamental_div_mod_converse(q * 4 + k, 4, q, k);
    vstd::arithmetic::div_mod::lemma_fundamental_div_mod_converse(q, fw, py, px);
}

/// A live byte's pixel lies inside the frame, and the pixel index is
/// recovered from its column and row.
pub proof fn lemma_live_coords(fw: int, fh: int, i: int)
    requires
        fw > 0,
        fh > 0,
        live(fw, fh, i),
    ensures
        0 <= px_of(fw, i) < fw,
        0 <= py_of(fw, i) < fh,
        i / 4 == py_of(fw, i) * fw + px_of(fw, i),
        0 <= i % 4 < 4,
{
    let p = i / 4;
    vstd::arithmetic::div_mod::lemma_fundamental_div_mod(p, fw);
    vstd::arithmetic::div_mod::lemma_mod_bound(p, fw);
    assert(p < fw * fh) by (nonlinear_arith)
        requires
            0 <= i < fw * fh * 4,
            p == i / 4,
    ;
    vstd::arithmetic::div_mod::lemma_div_pos_is_pos(p, fw);
    assert(p / fw < fh) by (nonlinear_arith)
        requires
            0 <= p < fw * fh,
            fw > 0,
            p == fw * (p / fw) + p % fw,
            0 <= p % fw,
    ;
}

// ------------------------------------------------------------------ frame

pub struct Frame {
    buf: Vec<u8>,
    w: usize,
    h: usize,
}

impl Frame {
    /// Width of the live region, in pixels.
    pub closed spec fn fw(&self) -> int {
        self.w as int
    }

    /// Height of the live region, in pixels.
    pub closed spec fn fh(&self) -> int {
        self.h as int
    }

    /// Every byte of the buffer, live or not.
    pub closed spec fn bytes(&self) -> Seq<u8> {
        self.buf@
    }

    /// The buffer has its full size and the live region fits inside it.
    pub open spec fn wf(&self) -> bool {
        &&& self.bytes().len() == MAX_PIXELS
        &&& MIN_SIDE <= self.fw() <= MAX_W
        &&& MIN_SIDE <= self.fh() <= MAX_H
    }

    /// Frame `f2` has the same shape as `self`.
    pub open spec fn same_shape(&self, f2: &Frame) -> bool {
        &&& f2.fw() == self.fw()
        &&& f2.fh() == self.fh()
        &&& f2.bytes().len() == self.bytes().len()
    }

    /// A blank frame at the starting size.
    pub fn new() -> (f: Frame)
        ensures
            f.wf(),
            f.fw() == START_SIDE,
            f.fh() == START_SIDE,
            forall|i: int| 0 <= i < MAX_PIXELS ==> #[trigger] f.bytes()[i] == 0,
    {
        let buf = vec![0u8; MAX_PIXELS];
        Frame { buf, w: START_SIDE, h: START_SIDE }
    }

    /// The whole buffer, live region first; the host reads the pixels here.
    pub fn ptr(&self) -> (b: &[u8])
        ensures
            b@ == self.bytes(),
    {
        self.buf.as_slice()
    }
}

/// The part of a clipped box a row-by-row scan has covered: full rows
/// `[y0, yc)` and, on row `yc`, columns `[x0, xc)`.
pub open spec fn scan_region(fw: int, fh: int, x0: int, x1: int, y0: int, yc: int, xc: int) -> spec_fn(int) -> bool {
    |i: int|
        live(fw, fh, i) && ((y0 <= py_of(fw, i) < yc && x0 <= px_of(fw, i) < x1) || (py_of(fw, i)
            == yc && x0 <= px_of(fw, i) < xc))
}

impl Frame {
    /// Paint the four bytes of the pixel starting at byte `i`.
    fn put(&mut self, i: usize, c: Rgb)
        requires
            old(self).wf(),
            i % 4 == 0,
            i + 4 <= MAX_PIXELS,
        ensures
            final(self).wf(),
            old(self).same_shape(final(self)),
            final(self).bytes() == paint(old(self).bytes(), |j: int| i <= j < i + 4, c),
    {
        let ghost s0 = self.bytes();
        self.buf.set(i, c.0);
        self.buf.set(i + 1, c.1);
        self.buf.set(i + 2, c.2);
        self.buf.set(i + 3, 255);
        assert(self.bytes() =~= paint(s0, |j: int| i <= j < i + 4, c));
    }

    /// Paint every live pixel.
    pub fn fill(&mut self, c: Rgb)
        requires
            old(self).wf(),
        ensures
            final(self).wf(),
            old(self).same_shape(final(self)),
            final(self).bytes() == paint(
                old(self).bytes(),
                |i: int| live(old(self).fw(), old(self).fh(), i),
                c,
            ),
    {
        let ghost s0 = self.bytes();
        let ghost fw = self.fw();
        let ghost fh = self.fh();
        assert(self.w * self.h * 4 <= MAX_PIXELS) by (nonlinear_arith)
            requires
                self.w <= MAX_W,
                self.h <= MAX_H,
        ;
        let n = self.w * self.h * 4;
        let mut i: usize = 0;
        while i < n
            invariant
                self.wf(),
                self.fw() == fw,
                self.fh() == fh,
                n == fw * fh * 4,
                n <= MAX_PIXELS,
                i % 4 == 0,
                i <= n + 3,
                self.bytes() == paint(s0, |j: int| 0 <= j < i, c),
            decreases n - i,
        {
            assert(i + 4 <= n) by {
                assert(n % 4 == 0) by (nonlinear_arith)
                    requires
                        n == fw * fh * 4,
                ;
            }
            self.put(i, c);
            assert(self.bytes() =~= paint(s0, |j: int| 0 <= j < i + 4, c));
            i = i + 4;
        }
        assert(self.bytes() =~= paint(s0, |j: int| live(fw, fh, j), c));
    }
}

/// A row-by-row scan that has covered nothing paints nothing.
proof fn lemma_scan_start(s: Seq<u8>, fw: int, fh: int, x0: int, x1: int, y0: int, c: Rgb)
    ensures
        paint(s, scan_region(fw, fh, x0, x1, y0, y0, x0), c) == s,
{
    assert(paint(s, scan_region(fw, fh, x0, x1, y0, y0, x0), c) =~= s);
}

/// Finishing row `yc` of the scan is the same as starting row `yc + 1`.
proof fn lemma_scan_next_row(s: Seq<u8>, fw: int, fh: int, x0: int, x1: int, y0: int, yc: int, c: Rgb)
    requires
        y0 <= yc,
    ensures
        paint(s, scan_region(fw, fh, x0, x1, y0, yc, x1), c) == paint(
            s,
            scan_region(fw, fh, x0, x1, y0, yc + 1, x0),
            c,
        ),
{
    assert(paint(s, scan_region(fw, fh, x0, x1, y0, yc, x1), c) =~= paint(
        s,
        scan_region(fw, fh, x0, x1, y0, yc + 1, x0),
        c,
    ));
}

/// Painting pixel `(xc, yc)` extends the scan by one column.
proof fn lemma_scan_step(
    s: Seq<u8>,
    t: Seq<u8>,
    fw: int,
    fh: int,
    x0: int,
    x1: int,
    y0: int,
    yc: int,
    xc: int,
    c: Rgb,
)
    requires
        fw > 0,
        fh > 0,
        0 <= x0 <= xc < x1 <= fw,
        0 <= y0 <= yc < fh,
        s.len() >= fw * fh * 4,
        t == paint(
            paint(s, scan_region(fw, fh, x0, x1, y0, yc, xc), c),
            |j: int| (yc * fw + xc) * 4 <= j < (yc * fw + xc) * 4 + 4,
            c,
        ),
    ensures
        t == paint(s, scan_region(fw, fh, x0, x1, y0, yc, xc + 1), c),
{
    let q = yc * fw + xc;
    assert(q < fw * fh) by (nonlinear_arith)
        requires
            0 <= xc < fw,
            0 <= yc < fh,
            q == yc * fw + xc,
    ;
    assert(q >= 0) by (nonlinear_arith)
        requires
            0 <= xc,
            0 <= yc,
            fw > 0,
            q == yc * fw + xc,
    ;
    assert forall|j: int| 0 <= j < t.len() implies #[trigger] t[j] == paint(
        s,
        scan_region(fw, fh, x0, x1, y0, yc, xc + 1),
        c,
    )[j] by {
        if q * 4 <= j < q * 4 + 4 {
            lemma_pixel_coords(fw, xc, yc, j - q * 4);
        } else if live(fw, fh, j) {
            lemma_live_coords(fw, fh, j);
            if px_of(fw, j) == xc && py_of(fw, j) == yc {
                assert(j / 4 == q);
            }
        }
    }
    assert(t =~= paint(s, scan_region(fw, fh, x0, x1, y0, yc, xc + 1), c));
}

/// The clipped box painted by a full scan is the box itself.
proof fn lemma_scan_is_box(
    s: Seq<u8>,
    fw: int,
    fh: int,
    x: int,
    y: int,
    w: int,
    h: int,
    x0: int,
    x1: int,
    y0: int,
    y1: int,
    c: Rgb,
)
    requires
        fw > 0,
        fh > 0,
        x0 == (if x < 0 { 0 } else { x }),
        y0 == (if y < 0 { 0 } else { y }),
        x1 == (if fw < (if x + w < 0 { 0 } else { x + w }) { fw } else { if x + w < 0 { 0 } else { x + w } }),
        y1 == (if fh < (if y + h < 0 { 0 } else { y + h }) { fh } else { if y + h < 0 { 0 } else { y + h } }),
        y0 <= y1,
    ensures
        paint(s, scan_region(fw, fh, x0, x1, y0, y1, x0), c) == paint(s, box_region(fw, fh, x, y, w, h), c),
{
    assert forall|j: int| live(fw, fh, j) implies (#[trigger] scan_region(fw, fh, x0, x1, y0, y1, x0)(j)
        == box_region(fw, fh, x, y, w, h)(j)) by {
        lemma_live_coords(fw, fh, j);
    }
    assert(paint(s, scan_region(fw, fh, x0, x1, y0, y1, x0), c) =~= paint(s, box_region(fw, fh, x, y, w, h), c));
}

/// A box that misses the live region paints nothing.
proof fn lemma_empty_box(s: Seq<u8>, fw: int, fh: int, x: int, y: int, w: int, h: int, c: Rgb)
    requires
        fw > 0,
        fh > 0,
        (w <= 0 || h <= 0 || x + w <= 0 || y + h <= 0 || x >= fw || y >= fh),
    ensures
        paint(s, box_region(fw, fh, x, y, w, h), c) == s,
{
    assert forall|j: int| live(fw, fh, j) implies !(#[trigger] box_region(fw, fh, x, y, w, h)(j)) by {
        lemma_live_coords(fw, fh, j);
    }
    assert(paint(s, box_region(fw, fh, x, y, w, h), c) =~= s);
}

impl Frame {
    /// Paint the box `[x, x + w) x [y, y + h)`, clipped to the live region.
    pub fn rect(&mut self, x: i32, y: i32, w: i32, h: i32, c: Rgb)
        requires
            old(self).wf(),
            w > 0 && h > 0 ==> x + w <= i32::MAX && y + h <= i32::MAX,
        ensures
            final(self).wf(),
            old(self).same_shape(final(self)),
            final(self).bytes() == paint(
                old(self).bytes(),
                box_region(old(self).fw(), old(self).fh(), x as int, y as int, w as int, h as int),
                c,
            ),
    {
        let ghost s0 = self.bytes();
        let ghost gfw = self.fw();
        let ghost gfh = self.fh();
        if w <= 0 || h <= 0 {
            proof { lemma_empty_box(s0, gfw, gfh, x as int, y as int, w as int, h as int, c); }
            return;
        }
        let fw = self.w;
        let fh = self.h;
        let x0: usize = if x < 0 { 0 } else { x as usize };
        let y0: usize = if y < 0 { 0 } else { y as usize };
        let xe: i32 = x + w;
        let ye: i32 = y + h;
        let xe: usize = if xe < 0 { 0 } else { xe as usize };
        let ye: usize = if ye < 0 { 0 } else { ye as usize };
        let x1: usize = if fw < xe { fw } else { xe };
        let y1: usize = if fh < ye { fh } else { ye };
        if x0 >= x1 || y0 >= y1 {
            proof { lemma_empty_box(s0, gfw, gfh, x as int, y as int, w as int, h as int, c); }
            return;
        }
        proof { lemma_scan_start(s0, gfw, gfh, x0 as int, x1 as int, y0 as int, c); }
        let mut py = y0;
        while py < y1
            invariant
                self.wf(),
                self.fw() == gfw,
                self.fh() == gfh,
                fw == gfw,
                fh == gfh,
                x0 < x1 <= fw,
                y0 <= py <= y1,
                y1 <= fh,
                s0.len() == MAX_PIXELS,
                self.bytes() == paint(s0, scan_region(gfw, gfh, x0 as int, x1 as int, y0 as int, py as int, x0 as int), c),
            decreases y1 - py,
        {
            assert(py * fw * 4 + fw * 4 <= fw * fh * 4) by (nonlinear_arith)
                requires
                    py < fh,
            ;
            assert(fw * fh * 4 <= MAX_PIXELS) by (nonlinear_arith)
                requires
                    fw <= MAX_W,
                    fh <= MAX_H,
            ;
            let row = py * fw * 4;
            let mut px = x0;
            while px < x1
                invariant
                    self.wf(),
                    self.fw() == gfw,
                    self.fh() == gfh,
                    fw == gfw,
                    fh == gfh,
                    x0 <= px <= x1,
                    x1 <= fw,
                    y0 <= py < y1,
                    y1 <= fh,
                    row == py * fw * 4,
                    row + fw * 4 <= MAX_PIXELS,
                    s0.len() == MAX_PIXELS,
                    fw * fh * 4 <= MAX_PIXELS,
                    self.bytes() == paint(s0, scan_region(gfw, gfh, x0 as int, x1 as int, y0 as int, py as int, px as int), c),
                decreases x1 - px,
            {
                let i = row + px * 4;
                assert(i == (py * fw + px) * 4) by (nonlinear_arith)
                    requires
                        i == row + px * 4,
                        row == py * fw * 4,
                ;
                self.put(i, c);
                proof {
                    lemma_scan_step(s0, self.bytes(), gfw, gfh, x0 as int, x1 as int, y0 as int, py as int, px as int, c);
                }
                px = px + 1;
            }
            proof { lemma_scan_next_row(s0, gfw, gfh, x0 as int, x1 as int, y0 as int, py as int, c); }
            py = py + 1;
        }
        proof {
            lemma_scan_is_box(s0, gfw, gfh, x as int, y as int, w as int, h as int, x0 as int, x1 as int, y0 as int, y1 as int, c);
        }
    }
}

/// Painting `a` and then `b` in one colour paints their union.
pub proof fn lemma_paint_union(s: Seq<u8>, a: spec_fn(int) -> bool, b: spec_fn(int) -> bool, c: Rgb)
    ensures
        paint(paint(s, a, c), b, c) == paint(s, |i: int| a(i) || b(i), c),
{
    assert(paint(paint(s, a, c), b, c) =~= paint(s, |i: int| a(i) || b(i), c));
}

/// Painting a region that holds no live byte of an `fw * fh` frame changes nothing
/// there, so two regions that agree on live bytes paint alike.
pub proof fn lemma_paint_same_live(s: Seq<u8>, a: spec_fn(int) -> bool, b: spec_fn(int) -> bool, c: Rgb)
    requires
        forall|i: int| 0 <= i < s.len() ==> (#[trigger] a(i) <==> b(i)),
    ensures
        paint(s, a, c) == paint(s, b, c),
{
    assert(paint(s, a, c) =~= paint(s, b, c));
}

/// Byte `i` is live and its pixel lies within distance `r` of `(cx, cy)`.
pub open spec fn in_disc(fw: int, fh: int, cx: int, cy: int, r: int, i: int) -> bool {
    &&& live(fw, fh, i)
    &&& r > 0
    &&& (px_of(fw, i) - cx) * (px_of(fw, i) - cx) + (py_of(fw, i) - cy) * (py_of(fw, i) - cy) <= r * r
}

pub open spec fn disc_region(fw: int, fh: int, cx: int, cy: int, r: int) -> spec_fn(int) -> bool {
    |i: int| in_disc(fw, fh, cx, cy, r, i)
}

/// The rows of the disc above row `cy + dy`.
pub open spec fn disc_rows(fw: int, fh: int, cx: int, cy: int, r: int, dy: int) -> spec_fn(int) -> bool {
    |i: int| in_disc(fw, fh, cx, cy, r, i) && py_of(fw, i) < cy + dy
}

/// The span a row of the disc reaches: walking `dx` in from `r` until the
/// point is inside the circle finds exactly the columns inside it.
proof fn lemma_disc_span(dx: int, dy: int, r: int, d: int)
    requires
        0 <= dx <= r,
        -r <= dy <= r,
        dx * dx + dy * dy <= r * r,
        forall|e: int| dx < e <= r ==> #[trigger] (e * e) + dy * dy > r * r,
    ensures
        (d * d + dy * dy <= r * r) <==> (-dx <= d <= dx),
{
    if -dx <= d <= dx {
        assert(d * d <= dx * dx) by (nonlinear_arith)
            requires
                -dx <= d <= dx,
        ;
    } else if d > dx {
        if d <= r {
            assert(d * d + dy * dy > r * r);
        } else {
            assert(d * d > r * r) by (nonlinear_arith)
                requires
                    d > r,
                    r >= 0,
            ;
            assert(dy * dy >= 0) by (nonlinear_arith);
        }
    } else {
        let e = -d;
        assert(e * e == d * d) by (nonlinear_arith)
            requires
                e == -d,
        ;
        if e <= r {
            assert(e * e + dy * dy > r * r);
        } else {
            assert(e * e > r * r) by (nonlinear_arith)
                requires
                    e > r,
                    r >= 0,
            ;
            assert(dy * dy >= 0) by (nonlinear_arith);
        }
    }
}

impl Frame {
    /// A filled disc: every pixel within distance `r` of the centre. Found
    /// row by row without a square root, walking in from the edge.
    pub fn disc(&mut self, cx: i32, cy: i32, r: i32, c: Rgb)
        requires
            old(self).wf(),
            r > 0 ==> r <= 32767 && cx - r >= i32::MIN && cx + r < i32::MAX && cy - r >= i32::MIN
                && cy + r <= i32::MAX,
        ensures
            final(self).wf(),
            old(self).same_shape(final(self)),
            final(self).bytes() == paint(
                old(self).bytes(),
                disc_region(old(self).fw(), old(self).fh(), cx as int, cy as int, r as int),
                c,
            ),
    {
        let ghost s0 = self.bytes();
        let ghost fw = self.fw();
        let ghost fh = self.fh();
        if r <= 0 {
            assert(self.bytes() =~= paint(s0, disc_region(fw, fh, cx as int, cy as int, r as int), c));
            return;
        }
        assert(r * r <= i32::MAX) by (nonlinear_arith)
            requires
                0 < r <= 32767,
        ;
        let rr = r * r;
        let mut dy: i32 = -r;
        assert(self.bytes() =~= paint(s0, disc_rows(fw, fh, cx as int, cy as int, r as int, dy as int), c)) by {
            assert forall|i: int| live(fw, fh, i) implies !#[trigger] disc_rows(fw, fh, cx as int, cy as int, r as int, dy as int)(i) by {
                lemma_live_coords(fw, fh, i);
                let yy = py_of(fw, i) - cy;
                if yy < -r {
                    assert(yy * yy > r * r) by (nonlinear_arith)
                        requires
                            yy < -r,
                            r > 0,
                    ;
                    let xx = px_of(fw, i) - cx;
                    assert(xx * xx >= 0) by (nonlinear_arith);
                }
            }
        }
        while dy <= r
            invariant
                self.wf(),
                self.fw() == fw,
                self.fh() == fh,
                s0.len() == MAX_PIXELS,
                0 < r <= 32767,
                rr == r * r,
                -r <= dy <= r + 1,
                cx - r >= i32::MIN,
                cx + r < i32::MAX,
                cy - r >= i32::MIN,
                cy + r <= i32::MAX,
                self.bytes() == paint(s0, disc_rows(fw, fh, cx as int, cy as int, r as int, dy as int), c),
            decreases r + 1 - dy,
        {
            let py = cy + dy;
            if py < 0 || py >= self.h as i32 {
                proof {
                    assert forall|i: int| 0 <= i < s0.len() implies (disc_rows(fw, fh, cx as int, cy as int, r as int, dy as int)(i)
                        <==> #[trigger] disc_rows(fw, fh, cx as int, cy as int, r as int, dy + 1)(i)) by {
                        if live(fw, fh, i) {
                            lemma_live_coords(fw, fh, i);
                        }
                    }
                    lemma_paint_same_live(
                        s0,
                        disc_rows(fw, fh, cx as int, cy as int, r as int, dy as int),
                        disc_rows(fw, fh, cx as int, cy as int, r as int, dy + 1),
                        c,
                    );
                }
            } else {
                assert(r * r + r * r <= i32::MAX) by (nonlinear_arith)
                    requires
                        0 < r <= 32767,
                ;
                assert(0 <= dy * dy <= r * r) by (nonlinear_arith)
                    requires
                        -r <= dy <= r,
                ;
                let mut dx = r;
                assert(0 <= dx * dx <= r * r) by (nonlinear_arith)
                    requires
                        dx == r,
                        r > 0,
                ;
                while dx > 0 && dx * dx + dy * dy > rr
                    invariant
                        0 <= dx <= r,
                        0 < r <= 32767,
                        -r <= dy <= r,
                        rr == r * r,
                        0 <= dy * dy <= r * r,
                        0 <= dx * dx <= r * r,
                        r * r + r * r <= i32::MAX,
                        forall|e: int| dx < e <= r ==> #[trigger] (e * e) + dy * dy > r * r,
                    decreases dx,
                {
                    dx = dx - 1;
                    assert(0 <= dx * dx <= r * r) by (nonlinear_arith)
                        requires
                            0 <= dx <= r,
                    ;
                }
                assert(dx * dx + dy * dy <= r * r);
                self.rect(cx - dx, py, dx * 2 + 1, 1, c);
                proof {
                    let a = disc_rows(fw, fh, cx as int, cy as int, r as int, dy as int);
                    let b = box_region(fw, fh, (cx - dx) as int, py as int, (dx * 2 + 1) as int, 1);
                    lemma_paint_union(s0, a, b, c);
                    assert forall|i: int| 0 <= i < s0.len() implies ((a(i) || b(i))
                        <==> #[trigger] disc_rows(fw, fh, cx as int, cy as int, r as int, dy + 1)(i)) by {
                        if live(fw, fh, i) {
                            lemma_live_coords(fw, fh, i);
                            lemma_disc_span(dx as int, dy as int, r as int, px_of(fw, i) - cx);
                        }
                    }
                    lemma_paint_same_live(
                        s0,
                        |i: int| a(i) || b(i),
                        disc_rows(fw, fh, cx as int, cy as int, r as int, dy + 1),
                        c,
                    );
                }
            }
            dy = dy + 1;
        }
        proof {
            assert forall|i: int| 0 <= i < s0.len() implies (disc_rows(fw, fh, cx as int, cy as int, r as int, dy as int)(i)
                <==> #[trigger] disc_region(fw, fh, cx as int, cy as int, r as int)(i)) by {
                if live(fw, fh, i) {
                    lemma_live_coords(fw, fh, i);
                    let yy = py_of(fw, i) - cy;
                    if yy > r {
                        assert(yy * yy > r * r) by (nonlinear_arith)
                            requires
                                yy > r,
                                r > 0,
                        ;
                        let xx = px_of(fw, i) - cx;
                        assert(xx * xx >= 0) by (nonlinear_arith);
                    }
                }
            }
            lemma_paint_same_live(
                s0,
                disc_rows(fw, fh, cx as int, cy as int, r as int, dy as int),
                disc_region(fw, fh, cx as int, cy as int, r as int),
                c,
            );
        }
    }
}

/// What `dim` leaves in byte `i`: colour channels of live pixels scaled by
/// `amount / 255` (truncated to a byte, as the channel store does); alpha and
/// the bytes past the live region untouched.
pub open spec fn dimmed(s: Seq<u8>, fw: int, fh: int, amount: int) -> Seq<u8> {
    Seq::new(
        s.len(),
        |i: int|
            if live(fw, fh, i) && i % 4 != 3 {
                ((s[i] * amount) / 255) as u8
            } else {
                s[i]
            },
    )
}

// ---------------------------------------------------------------- numerals

/// The five rows of the 3x5 glyph for digit `d`, top first; bit 2 is the
/// left column.
pub open spec fn glyph_rows(d: int) -> (u8, u8, u8, u8, u8) {
    if d == 0 {
        (0b111, 0b101, 0b101, 0b101, 0b111)
    } else if d == 1 {
        (0b010, 0b110, 0b010, 0b010, 0b111)
    } else if d == 2 {
        (0b111, 0b001, 0b111, 0b100, 0b111)
    } else if d == 3 {
        (0b111, 0b001, 0b111, 0b001, 0b111)
    } else if d == 4 {
        (0b101, 0b101, 0b111, 0b001, 0b001)
    } else if d == 5 {
        (0b111, 0b100, 0b111, 0b001, 0b111)
    } else if d == 6 {
        (0b111, 0b100, 0b111, 0b101, 0b111)
    } else if d == 7 {
        (0b111, 0b001, 0b001, 0b001, 0b001)
    } else if d == 8 {
        (0b111, 0b101, 0b111, 0b101, 0b111)
    } else {
        (0b111, 0b101, 0b111, 0b001, 0b111)
    }
}

/// Row `row` of the glyph for digit `d`.
pub open spec fn glyph(d: int, row: int) -> u8 {
    let g = glyph_rows(d);
    if row == 0 {
        g.0
    } else if row == 1 {
        g.1
    } else if row == 2 {
        g.2
    } else if row == 3 {
        g.3
    } else {
        g.4
    }
}

/// Cell `(row, col)` of the glyph for digit `d` is lit.
pub open spec fn glyph_set(d: int, row: int, col: int) -> bool {
    glyph(d, row) & (1u8 << ((2 - col) as u8)) != 0
}

/// The seven segments of digit `d` as a seven-segment display lights them:
/// top, upper left, upper right, middle, lower left, lower right, bottom.
pub open spec fn segments(d: int) -> (bool, bool, bool, bool, bool, bool, bool) {
    let top = d != 1 && d != 4;
    let upper_left = d == 0 || d == 4 || d == 5 || d == 6 || d == 8 || d == 9;
    let upper_right = d != 5 && d != 6;
    let middle = d != 0 && d != 1 && d != 7;
    let lower_left = d == 0 || d == 2 || d == 6 || d == 8;
    let lower_right = d != 2;
    let bottom = d != 1 && d != 4 && d != 7;
    (top, upper_left, upper_right, middle, lower_left, lower_right, bottom)
}

/// Cell `(row, col)` of a 3x5 figure showing the segments `g`: the top,
/// middle and bottom rows carry the horizontal segments, the outer columns
/// the vertical ones, and a corner is lit by any segment that meets it.
pub open spec fn segment_cell(g: (bool, bool, bool, bool, bool, bool, bool), row: int, col: int) -> bool {
    let (a, f, b, m, e, c, d) = g;
    if row == 0 {
        if col == 1 { a } else if col == 0 { a || f } else { a || b }
    } else if row == 1 {
        if col == 1 { false } else if col == 0 { f } else { b }
    } else if row == 2 {
        if col == 1 { m } else if col == 0 { m || f || e } else { m || b || c }
    } else if row == 3 {
        if col == 1 { false } else if col == 0 { e } else { c }
    } else {
        if col == 1 { d } else if col == 0 { d || e } else { d || c }
    }
}

proof fn lemma_glyph_bits(g: u8)
    requires
        g < 8,
    ensures
        (g & (1u8 << 2u8) != 0) == (g >= 4),
        (g & (1u8 << 1u8) != 0) == (g % 4 >= 2),
        (g & (1u8 << 0u8) != 0) == (g % 2 == 1),
{
    assert((g & (1u8 << 2u8) != 0) == (g >= 4)) by (bit_vector)
        requires
            g < 8,
    ;
    assert((g & (1u8 << 1u8) != 0) == (g % 4 >= 2)) by (bit_vector)
        requires
            g < 8,
    ;
    assert((g & (1u8 << 0u8) != 0) == (g % 2 == 1)) by (bit_vector)
        requires
            g < 8,
    ;
}

/// The font draws every digit but 1 as its seven-segment figure, and 1 as a
/// stem with a flag at its top left and a foot across the bottom. So no two
/// digits look alike: a 9 is never an 8.
pub proof fn lemma_glyphs_are_digits(d: int, row: int, col: int)
    requires
        0 <= d < 10,
        0 <= row < 5,
        0 <= col < 3,
    ensures
        d != 1 ==> (glyph_set(d, row, col) == segment_cell(segments(d), row, col)),
        d == 1 ==> (glyph_set(d, row, col) == (col == 1 || (row == 1 && col == 0) || row == 4)),
{
    lemma_glyph_bits(glyph(d, row));
    assert(((2 - col) as u8) == 2u8 || ((2 - col) as u8) == 1u8 || ((2 - col) as u8) == 0u8);
}

/// No two digits share a glyph.
pub proof fn lemma_glyphs_distinct(d: int, e: int)
    requires
        0 <= d < 10,
        0 <= e < 10,
        d != e,
    ensures
        exists|row: int, col: int| 0 <= row < 5 && 0 <= col < 3 && #[trigger] glyph_set(d, row, col) != glyph_set(e, row, col),
{
    assert forall|row: int, col: int| 0 <= row < 5 && 0 <= col < 3 implies #[trigger] glyph_set(d, row, col) == (if d
        == 1 {
        col == 1 || (row == 1 && col == 0) || row == 4
    } else {
        segment_cell(segments(d), row, col)
    }) && glyph_set(e, row, col) == (if e == 1 {
        col == 1 || (row == 1 && col == 0) || row == 4
    } else {
        segment_cell(segments(e), row, col)
    }) by {
        lemma_glyphs_are_digits(d, row, col);
        lemma_glyphs_are_digits(e, row, col);
    }
    // some cell tells each pair apart
    assert(glyph_set(d, 0, 0) != glyph_set(e, 0, 0) || glyph_set(d, 0, 1) != glyph_set(e, 0, 1) || glyph_set(d, 0, 2)
        != glyph_set(e, 0, 2) || glyph_set(d, 1, 0) != glyph_set(e, 1, 0) || glyph_set(d, 1, 2) != glyph_set(e, 1, 2)
        || glyph_set(d, 2, 0) != glyph_set(e, 2, 0) || glyph_set(d, 2, 1) != glyph_set(e, 2, 1) || glyph_set(d, 3, 0)
        != glyph_set(e, 3, 0) || glyph_set(d, 3, 2) != glyph_set(e, 3, 2) || glyph_set(d, 4, 0) != glyph_set(e, 4, 0)
        || glyph_set(d, 4, 1) != glyph_set(e, 4, 1));
}

/// Byte `i` lies in a lit cell of the glyph for `d`, drawn at `(x, y)` with
/// cells `scale` pixels square; only cells before index `k` (row-major) count.
pub open spec fn in_glyph_upto(fw: int, fh: int, x: int, y: int, d: int, scale: int, k: int, i: int) -> bool {
    exists|row: int, col: int|
        #![trigger glyph_set(d, row, col)]
        0 <= row < 5 && 0 <= col < 3 && row * 3 + col < k && glyph_set(d, row, col) && in_box(
            fw,
            fh,
            x + col * scale,
            y + row * scale,
            scale,
            scale,
            i,
        )
}

/// Byte `i` lies in a lit cell of the glyph for digit `d`.
pub open spec fn in_glyph(fw: int, fh: int, x: int, y: int, d: int, scale: int, i: int) -> bool {
    in_glyph_upto(fw, fh, x, y, d, scale, 15, i)
}

pub open spec fn glyph_region(fw: int, fh: int, x: int, y: int, d: int, scale: int) -> spec_fn(int) -> bool {
    |i: int| in_glyph(fw, fh, x, y, d, scale, i)
}

/// Every cell of a glyph drawn at `(x, y)` can be placed without overflow.
pub open spec fn digit_fits(x: int, y: int, scale: int) -> bool {
    &&& i32::MIN <= 4 * scale <= i32::MAX
    &&& i32::MIN <= x + 2 * scale
    &&& x + 3 * scale <= i32::MAX
    &&& i32::MIN <= y + 4 * scale
    &&& y + 5 * scale <= i32::MAX
}

fn glyph_rows_of(d: u32) -> (g: (u8, u8, u8, u8, u8))
    requires
        d < 10,
    ensures
        g == glyph_rows(d as int),
{
    if d == 0 {
        (0b111, 0b101, 0b101, 0b101, 0b111)
    } else if d == 1 {
        (0b010, 0b110, 0b010, 0b010, 0b111)
    } else if d == 2 {
        (0b111, 0b001, 0b111, 0b100, 0b111)
    } else if d == 3 {
        (0b111, 0b001, 0b111, 0b001, 0b111)
    } else if d == 4 {
        (0b101, 0b101, 0b111, 0b001, 0b001)
    } else if d == 5 {
        (0b111, 0b100, 0b111, 0b001, 0b111)
    } else if d == 6 {
        (0b111, 0b100, 0b111, 0b101, 0b111)
    } else if d == 7 {
        (0b111, 0b001, 0b001, 0b001, 0b001)
    } else if d == 8 {
        (0b111, 0b101, 0b111, 0b101, 0b111)
    } else {
        (0b111, 0b101, 0b111, 0b001, 0b111)
    }
}

impl Frame {
    /// Darken the live frame: every colour channel becomes
    /// `channel * amount / 255`.
    pub fn dim(&mut self, amount: u16)
        requires
            old(self).wf(),
            255 * amount <= u16::MAX,
        ensures
            final(self).wf(),
            old(self).same_shape(final(self)),
            final(self).bytes() == dimmed(old(self).bytes(), old(self).fw(), old(self).fh(), amount as int),
    {
        let ghost s0 = self.bytes();
        let ghost fw = self.fw();
        let ghost fh = self.fh();
        assert(self.w * self.h * 4 <= MAX_PIXELS) by (nonlinear_arith)
            requires
                self.w <= MAX_W,
                self.h <= MAX_H,
        ;
        let n = self.w * self.h * 4;
        assert(n % 4 == 0) by (nonlinear_arith)
            requires
                n == fw * fh * 4,
        ;
        let mut i: usize = 0;
        while i < n
            invariant
                self.wf(),
                self.fw() == fw,
                self.fh() == fh,
                s0.len() == MAX_PIXELS,
                n == fw * fh * 4,
                n % 4 == 0,
                n <= MAX_PIXELS,
                i % 4 == 0,
                i <= n,
                255 * amount <= u16::MAX,
                self.bytes() == Seq::new(
                    s0.len(),
                    |j: int|
                        if j < i && j % 4 != 3 {
                            ((s0[j] * amount) / 255) as u8
                        } else {
                            s0[j]
                        },
                ),
            decreases n - i,
        {
            let b0 = self.buf[i];
            let b1 = self.buf[i + 1];
            let b2 = self.buf[i + 2];
            assert(b0 as u16 * amount <= u16::MAX) by (nonlinear_arith)
                requires
                    b0 <= 255,
                    255 * amount <= u16::MAX,
            ;
            assert(b1 as u16 * amount <= u16::MAX) by (nonlinear_arith)
                requires
                    b1 <= 255,
                    255 * amount <= u16::MAX,
            ;
            assert(b2 as u16 * amount <= u16::MAX) by (nonlinear_arith)
                requires
                    b2 <= 255,
                    255 * amount <= u16::MAX,
            ;
            self.buf.set(i, ((b0 as u16 * amount) / 255) as u8);
            self.buf.set(i + 1, ((b1 as u16 * amount) / 255) as u8);
            self.buf.set(i + 2, ((b2 as u16 * amount) / 255) as u8);
            i = i + 4;
            assert(self.bytes() =~= Seq::new(
                s0.len(),
                |j: int|
                    if j < i && j % 4 != 3 {
                        ((s0[j] * amount) / 255) as u8
                    } else {
                        s0[j]
                    },
            ));
        }
        assert(self.bytes() =~= dimmed(s0, fw, fh, amount as int));
    }

    /// One 3x5 digit (`d % 10`) at integer scale, each lit cell a
    /// `scale`-pixel square.
    pub fn digit(&mut self, x: i32, y: i32, d: u32, scale: i32, c: Rgb)
        requires
            old(self).wf(),
            digit_fits(x as int, y as int, scale as int),
        ensures
            final(self).wf(),
            old(self).same_shape(final(self)),
            final(self).bytes() == paint(
                old(self).bytes(),
                glyph_region(old(self).fw(), old(self).fh(), x as int, y as int, (d % 10) as int, scale as int),
                c,
            ),
    {
        let ghost s0 = self.bytes();
        let ghost fw = self.fw();
        let ghost fh = self.fh();
        let ghost dd = (d % 10) as int;
        let g = glyph_rows_of(d % 10);
        assert(self.bytes() =~= paint(s0, |i: int| in_glyph_upto(fw, fh, x as int, y as int, dd, scale as int, 0, i), c));
        let mut row: i32 = 0;
        while row < 5
            invariant
                self.wf(),
                self.fw() == fw,
                self.fh() == fh,
                0 <= row <= 5,
                dd == (d % 10) as int,
                g == glyph_rows(dd),
                digit_fits(x as int, y as int, scale as int),
                self.bytes() == paint(s0, |i: int| in_glyph_upto(fw, fh, x as int, y as int, dd, scale as int, row * 3, i), c),
            decreases 5 - row,
        {
            let bits: u8 = if row == 0 {
                g.0
            } else if row == 1 {
                g.1
            } else if row == 2 {
                g.2
            } else if row == 3 {
                g.3
            } else {
                g.4
            };
            assert(bits == glyph(dd, row as int));
            let mut col: i32 = 0;
            while col < 3
                invariant
                    self.wf(),
                    self.fw() == fw,
                    self.fh() == fh,
                    0 <= row < 5,
                    0 <= col <= 3,
                    bits == glyph(dd, row as int),
                    digit_fits(x as int, y as int, scale as int),
                    self.bytes() == paint(s0, |i: int| in_glyph_upto(fw, fh, x as int, y as int, dd, scale as int, row * 3 + col, i), c),
                decreases 3 - col,
            {
                let ghost k = row * 3 + col;
                let ghost prev = |i: int| in_glyph_upto(fw, fh, x as int, y as int, dd, scale as int, k, i);
                let ghost next = |i: int| in_glyph_upto(fw, fh, x as int, y as int, dd, scale as int, k + 1, i);
                assert(0 <= row * scale <= 4 * scale || 4 * scale <= row * scale <= 0) by (nonlinear_arith)
                    requires
                        0 <= row < 5,
                ;
                assert(0 <= col * scale <= 2 * scale || 2 * scale <= col * scale <= 0) by (nonlinear_arith)
                    requires
                        0 <= col < 3,
                ;
                assert((col + 1) * scale == col * scale + scale) by (nonlinear_arith);
                assert((row + 1) * scale == row * scale + scale) by (nonlinear_arith);
                assert(3 * scale <= 2 * scale || 3 * scale == 2 * scale + scale);
                if bits & (1u8 << ((2 - col) as u8)) != 0 {
                    assert(glyph_set(dd, row as int, col as int));
                    let cx = x + col * scale;
                    let cy = y + row * scale;
                    self.rect(cx, cy, scale, scale, c);
                    proof {
                        let b = box_region(fw, fh, cx as int, cy as int, scale as int, scale as int);
                        lemma_paint_union(s0, prev, b, c);
                        assert forall|i: int| 0 <= i < s0.len() implies ((prev(i) || b(i)) <==> #[trigger] next(i)) by {
                            if b(i) {
                                assert(glyph_set(dd, row as int, col as int));
                            }
                            if next(i) && !prev(i) {
                                let (r2, c2) = choose|r2: int, c2: int|
                                    #![trigger glyph_set(dd, r2, c2)]
                                    0 <= r2 < 5 && 0 <= c2 < 3 && r2 * 3 + c2 < k + 1 && glyph_set(dd, r2, c2) && in_box(
                                        fw,
                                        fh,
                                        x + c2 * scale,
                                        y + r2 * scale,
                                        scale as int,
                                        scale as int,
                                        i,
                                    );
                                assert(r2 == row && c2 == col);
                            }
                        }
                        lemma_paint_same_live(s0, |i: int| prev(i) || b(i), next, c);
                    }
                } else {
                    proof {
                        assert(!glyph_set(dd, row as int, col as int));
                        assert forall|i: int| 0 <= i < s0.len() implies (#[trigger] prev(i) <==> next(i)) by {
                            if next(i) && !prev(i) {
                                let (r2, c2) = choose|r2: int, c2: int|
                                    #![trigger glyph_set(dd, r2, c2)]
                                    0 <= r2 < 5 && 0 <= c2 < 3 && r2 * 3 + c2 < k + 1 && glyph_set(dd, r2, c2) && in_box(
                                        fw,
                                        fh,
                                        x + c2 * scale,
                                        y + r2 * scale,
                                        scale as int,
                                        scale as int,
                                        i,
                                    );
                                assert(r2 == row && c2 == col);
                            }
                        }
                        lemma_paint_same_live(s0, prev, next, c);
                    }
                }
                col = col + 1;
            }
            row = row + 1;
        }
    }
}

/// The decimal digits of `n`, most significant first; zero is the single
/// digit 0.
pub open spec fn decimal(n: nat) -> Seq<u32>
    decreases n,
{
    if n < 10 {
        seq![n as u32]
    } else {
        decimal(n / 10).push((n % 10) as u32)
    }
}

pub open spec fn pow10(k: nat) -> nat
    decreases k,
{
    if k == 0 {
        1
    } else {
        10 * pow10((k - 1) as nat)
    }
}

/// Every digit is below ten, and a number below `10^k` has at most `k`.
pub proof fn lemma_decimal(n: nat, k: nat)
    requires
        k >= 1,
        n < pow10(k),
    ensures
        1 <= decimal(n).len() <= k,
        forall|i: int| 0 <= i < decimal(n).len() ==> #[trigger] decimal(n)[i] < 10,
    decreases n,
{
    if n >= 10 {
        assert(k >= 2) by {
            if k == 1 {
                assert(pow10(1) == 10) by {
                    assert(pow10(0) == 1);
                }
            }
        }
        assert(n / 10 < pow10((k - 1) as nat)) by (nonlinear_arith)
            requires
                n < pow10(k),
                pow10(k) == 10 * pow10((k - 1) as nat),
        ;
        lemma_decimal(n / 10, (k - 1) as nat);
        assert forall|i: int| 0 <= i < decimal(n).len() implies #[trigger] decimal(n)[i] < 10 by {
            if i < decimal(n / 10).len() {
                assert(decimal(n)[i] == decimal(n / 10)[i]);
            }
        }
    }
}

/// The number a string of decimal digits reads as, most significant first.
pub open spec fn digits_value(ds: Seq<u32>) -> nat
    decreases ds.len(),
{
    if ds.len() == 0 {
        0
    } else {
        digits_value(ds.drop_last()) * 10 + ds.last() as nat
    }
}

/// The digits `number` draws spell `n`: read back they give `n`, each is a
/// single digit, and there is no leading zero (0 itself is one zero).
pub proof fn lemma_decimal_spells(n: nat)
    ensures
        digits_value(decimal(n)) == n,
        decimal(n).len() >= 1,
        forall|i: int| 0 <= i < decimal(n).len() ==> #[trigger] decimal(n)[i] < 10,
        decimal(n)[0] != 0 || n == 0,
    decreases n,
{
    if n >= 10 {
        lemma_decimal_spells(n / 10);
        let ds = decimal(n);
        assert(ds.drop_last() =~= decimal(n / 10));
        assert forall|i: int| 0 <= i < ds.len() implies #[trigger] ds[i] < 10 by {
            if i < ds.len() - 1 {
                assert(ds[i] == decimal(n / 10)[i]);
            }
        }
        assert(ds[0] == decimal(n / 10)[0]);
        assert(n / 10 > 0);
        assert(ds.last() == (n % 10) as u32);
        assert(digits_value(ds) == digits_value(decimal(n / 10)) * 10 + (n % 10));
        assert((n / 10) * 10 + n % 10 == n);
    } else {
        assert(decimal(n).drop_last() =~= Seq::<u32>::empty());
        assert(digits_value(Seq::<u32>::empty()) == 0);
        assert(digits_value(decimal(n)) == digits_value(decimal(n).drop_last()) * 10 + decimal(n).last() as nat);
    }
}

/// A `u32` has at most ten decimal digits.
pub proof fn lemma_decimal_u32(n: u32)
    ensures
        1 <= decimal(n as nat).len() <= 10,
        forall|i: int| 0 <= i < decimal(n as nat).len() ==> #[trigger] decimal(n as nat)[i] < 10,
{
    assert(pow10(10) == 10000000000) by {
        reveal_with_fuel(pow10, 11);
    }
    lemma_decimal(n as nat, 10);
}

/// Byte `i` lies in one of the first `k` digits of `n`, digit `j` drawn
/// `4 * j * scale` pixels right of `x`.
pub open spec fn in_number_upto(fw: int, fh: int, x: int, y: int, n: nat, scale: int, k: int, i: int) -> bool {
    exists|j: int|
        #![trigger decimal(n)[j]]
        0 <= j < k && j < decimal(n).len() && in_glyph(
            fw,
            fh,
            x + 4 * j * scale,
            y,
            decimal(n)[j] as int,
            scale,
            i,
        )
}

pub open spec fn number_region(fw: int, fh: int, x: int, y: int, n: nat, scale: int) -> spec_fn(int) -> bool {
    |i: int| in_number_upto(fw, fh, x, y, n, scale, decimal(n).len() as int, i)
}

/// Every digit of `n` can be placed without overflow.
pub open spec fn number_fits(x: int, y: int, n: nat, scale: int) -> bool {
    forall|j: int|
        0 <= j < decimal(n).len() ==> i32::MIN <= #[trigger] (4 * j * scale) <= i32::MAX && digit_fits(
            x + 4 * j * scale,
            y,
            scale,
        )
}

impl Frame {
    /// `n` in decimal, most significant digit at `x`, each digit four cells
    /// to the right of the one before.
    pub fn number(&mut self, x: i32, y: i32, n: u32, scale: i32, c: Rgb)
        requires
            old(self).wf(),
            number_fits(x as int, y as int, n as nat, scale as int),
        ensures
            final(self).wf(),
            old(self).same_shape(final(self)),
            final(self).bytes() == paint(
                old(self).bytes(),
                number_region(old(self).fw(), old(self).fh(), x as int, y as int, n as nat, scale as int),
                c,
            ),
    {
        let ghost s0 = self.bytes();
        let ghost fw = self.fw();
        let ghost fh = self.fh();
        let ghost ds = decimal(n as nat);
        proof { lemma_decimal_u32(n); }
        if n < 10 {
            assert(0 * scale == 0) by (nonlinear_arith);
            assert(4 * 0 * scale == 0) by (nonlinear_arith);
            assert(ds[0] == n);
            assert(digit_fits(x as int, y as int, scale as int));
            self.digit(x, y, n, scale, c);
            proof {
                assert forall|i: int| 0 <= i < s0.len() implies (glyph_region(fw, fh, x as int, y as int, (n % 10) as int, scale as int)(i)
                    <==> #[trigger] number_region(fw, fh, x as int, y as int, n as nat, scale as int)(i)) by {
                    if number_region(fw, fh, x as int, y as int, n as nat, scale as int)(i) {
                        let j = choose|j: int|
                            #![trigger decimal(n as nat)[j]]
                            0 <= j < ds.len() && j < decimal(n as nat).len() && in_glyph(
                                fw,
                                fh,
                                x + 4 * j * scale,
                                y as int,
                                decimal(n as nat)[j] as int,
                                scale as int,
                                i,
                            );
                        assert(j == 0);
                    }
                    if glyph_region(fw, fh, x as int, y as int, (n % 10) as int, scale as int)(i) {
                        assert(decimal(n as nat)[0] == n);
                    }
                }
                lemma_paint_same_live(
                    s0,
                    glyph_region(fw, fh, x as int, y as int, (n % 10) as int, scale as int),
                    number_region(fw, fh, x as int, y as int, n as nat, scale as int),
                    c,
                );
            }
            return;
        }
        let mut digits: [u32; 10] = [0u32; 10];
        let mut count: usize = 0;
        let mut v = n;
        while v > 0 && count < 10
            invariant
                0 <= count <= 10,
                v > 0 ==> count + decimal(v as nat).len() == ds.len(),
                v == 0 ==> count == ds.len(),
                ds.len() <= 10,
                ds == decimal(n as nat),
                v > 0 ==> ds =~= decimal(v as nat) + digits@.subrange(0, count as int).reverse(),
                v == 0 ==> ds =~= digits@.subrange(0, count as int).reverse(),
            decreases v,
        {
            proof { lemma_decimal_u32(v); }
            let ghost before = digits@.subrange(0, count as int);
            digits[count] = v % 10;
            let ghost after = digits@.subrange(0, count as int + 1);
            assert(after =~= before.push(v % 10));
            assert(after.reverse() =~= seq![v % 10] + before.reverse());
            if v >= 10 {
                assert(decimal(v as nat) == decimal((v / 10) as nat).push((v % 10) as u32));
                assert(decimal(v as nat) + before.reverse() =~= decimal((v / 10) as nat) + after.reverse());
            } else {
                assert(decimal(v as nat) == seq![v]);
            }
            v = v / 10;
            count = count + 1;
        }
        assert(count == ds.len());
        assert(forall|j: int| 0 <= j < count ==> #[trigger] ds[j] == digits@[count - 1 - j]);
        assert(self.bytes() =~= paint(s0, |i: int| in_number_upto(fw, fh, x as int, y as int, n as nat, scale as int, 0, i), c));
        let mut i: usize = 0;
        while i < count
            invariant
                self.wf(),
                self.fw() == fw,
                self.fh() == fh,
                0 <= i <= count,
                count == ds.len(),
                count <= 10,
                ds == decimal(n as nat),
                forall|j: int| 0 <= j < count ==> #[trigger] ds[j] == digits@[count - 1 - j],
                forall|j: int| 0 <= j < ds.len() ==> #[trigger] ds[j] < 10,
                number_fits(x as int, y as int, n as nat, scale as int),
                self.bytes() == paint(s0, |b: int| in_number_upto(fw, fh, x as int, y as int, n as nat, scale as int, i as int, b), c),
            decreases count - i,
        {
            let d = digits[count - 1 - i];
            assert(d == ds[i as int]);
            assert(i32::MIN <= 4 * (i as int) * scale <= i32::MAX);
            assert(4 * (i as int) * scale == (i as int) * scale * 4) by (nonlinear_arith);
            assert(i32::MIN <= (i as int) * scale <= i32::MAX) by (nonlinear_arith)
                requires
                    i32::MIN <= (i as int) * scale * 4 <= i32::MAX,
            ;
            assert(digit_fits(x + 4 * (i as int) * scale, y as int, scale as int));
            assert(i32::MIN <= x + 4 * (i as int) * scale <= i32::MAX) by {
                if scale < 0 {
                    assert(4 * (i as int) * scale <= 0) by (nonlinear_arith)
                        requires
                            scale < 0,
                            i >= 0,
                    ;
                } else {
                    assert(4 * (i as int) * scale >= 0) by (nonlinear_arith)
                        requires
                            scale >= 0,
                            i >= 0,
                    ;
                }
            }
            let dx = x + i as i32 * scale * 4;
            assert(dx == x + 4 * (i as int) * scale);
            self.digit(dx, y, d, scale, c);
            proof {
                let prev = |b: int| in_number_upto(fw, fh, x as int, y as int, n as nat, scale as int, i as int, b);
                let next = |b: int| in_number_upto(fw, fh, x as int, y as int, n as nat, scale as int, i + 1, b);
                let g = glyph_region(fw, fh, dx as int, y as int, (d % 10) as int, scale as int);
                lemma_paint_union(s0, prev, g, c);
                assert forall|b: int| 0 <= b < s0.len() implies ((prev(b) || g(b)) <==> #[trigger] next(b)) by {
                    if g(b) {
                        assert(ds[i as int] == d);
                    }
                    if next(b) && !prev(b) {
                        let j = choose|j: int|
                            #![trigger decimal(n as nat)[j]]
                            0 <= j < i + 1 && j < decimal(n as nat).len() && in_glyph(
                                fw,
                                fh,
                                x + 4 * j * scale,
                                y as int,
                                decimal(n as nat)[j] as int,
                                scale as int,
                                b,
                            );
                        assert(j == i);
                    }
                }
                lemma_paint_same_live(s0, |b: int| prev(b) || g(b), next, c);
            }
            i = i + 1;
        }
    }
}

/// The first `k` digits of `n` drawn over `s` one `digit` call at a time,
/// digit `j` at `x + 4 * j * scale`.
pub open spec fn digits_drawn(
    s: Seq<u8>,
    fw: int,
    fh: int,
    x: int,
    y: int,
    n: nat,
    scale: int,
    c: Rgb,
    k: int,
) -> Seq<u8>
    decreases k,
{
    if k <= 0 {
        s
    } else {
        paint(
            digits_drawn(s, fw, fh, x, y, n, scale, c, k - 1),
            glyph_region(fw, fh, x + 4 * (k - 1) * scale, y, decimal(n)[k - 1] as int % 10, scale),
            c,
        )
    }
}

proof fn lemma_digits_drawn(s: Seq<u8>, fw: int, fh: int, x: int, y: int, n: u32, scale: int, c: Rgb, k: int)
    requires
        0 <= k <= decimal(n as nat).len(),
    ensures
        digits_drawn(s, fw, fh, x, y, n as nat, scale, c, k) == paint(
            s,
            |b: int| in_number_upto(fw, fh, x, y, n as nat, scale, k, b),
            c,
        ),
    decreases k,
{
    lemma_decimal_u32(n);
    let ds = decimal(n as nat);
    if k == 0 {
        assert(paint(s, |b: int| in_number_upto(fw, fh, x, y, n as nat, scale, 0, b), c) =~= s);
    } else {
        lemma_digits_drawn(s, fw, fh, x, y, n, scale, c, k - 1);
        let prev = |b: int| in_number_upto(fw, fh, x, y, n as nat, scale, k - 1, b);
        let next = |b: int| in_number_upto(fw, fh, x, y, n as nat, scale, k, b);
        let g = glyph_region(fw, fh, x + 4 * (k - 1) * scale, y, ds[k - 1] as int % 10, scale);
        lemma_paint_union(s, prev, g, c);
        assert(ds[k - 1] < 10);
        assert forall|b: int| 0 <= b < s.len() implies ((prev(b) || g(b)) <==> #[trigger] next(b)) by {
            if g(b) {
                assert(ds[k - 1] as int % 10 == ds[k - 1]);
                assert(in_glyph(fw, fh, x + 4 * (k - 1) * scale, y, decimal(n as nat)[k - 1] as int, scale, b));
            }
            if next(b) && !prev(b) {
                let j = choose|j: int|
                    #![trigger decimal(n as nat)[j]]
                    0 <= j < k && j < decimal(n as nat).len() && in_glyph(
                        fw,
                        fh,
                        x + 4 * j * scale,
                        y,
                        decimal(n as nat)[j] as int,
                        scale,
                        b,
                    );
                assert(j == k - 1);
            }
        }
        lemma_paint_same_live(s, |b: int| prev(b) || g(b), next, c);
    }
}

/// `number` draws what drawing each decimal digit of `n` with `digit`, most
/// significant first, four cells apart, would draw: every digit shown, none
/// dropped.
pub proof fn lemma_number_is_its_digits(s: Seq<u8>, fw: int, fh: int, x: int, y: int, n: u32, scale: int, c: Rgb)
    ensures
        paint(s, number_region(fw, fh, x, y, n as nat, scale), c) == digits_drawn(
            s,
            fw,
            fh,
            x,
            y,
            n as nat,
            scale,
            c,
            decimal(n as nat).len() as int,
        ),
{
    lemma_decimal_u32(n);
    lemma_digits_drawn(s, fw, fh, x, y, n, scale, c, decimal(n as nat).len() as int);
    assert(number_region(fw, fh, x, y, n as nat, scale) =~= (|b: int|
        in_number_upto(fw, fh, x, y, n as nat, scale, decimal(n as nat).len() as int, b)));
}

/// Drawing stays inside the live region: painting any region made of live
/// bytes leaves every byte past the live frame as it was.
pub proof fn lemma_paint_stays_live(s: Seq<u8>, region: spec_fn(int) -> bool, fw: int, fh: int, c: Rgb)
    requires
        forall|i: int| #[trigger] region(i) ==> live(fw, fh, i),
    ensures
        forall|i: int| 0 <= i && fw * fh * 4 <= i < s.len() ==> #[trigger] paint(s, region, c)[i] == s[i],
{
    assert forall|i: int| 0 <= i && fw * fh * 4 <= i < s.len() implies #[trigger] paint(s, region, c)[i] == s[i] by {
        if region(i) {
            assert(live(fw, fh, i));
        }
    }
}

/// Each shape the frame draws is made of live bytes only.
pub proof fn lemma_shapes_are_live(fw: int, fh: int, x: int, y: int, w: int, h: int, d: int, n: nat)
    ensures
        forall|i: int| #[trigger] box_region(fw, fh, x, y, w, h)(i) ==> live(fw, fh, i),
        forall|i: int| #[trigger] disc_region(fw, fh, x, y, w)(i) ==> live(fw, fh, i),
        forall|i: int| #[trigger] glyph_region(fw, fh, x, y, d, w)(i) ==> live(fw, fh, i),
        forall|i: int| #[trigger] number_region(fw, fh, x, y, n, w)(i) ==> live(fw, fh, i),
{
}

/// Width of the live region.
pub fn width(fb: &Frame) -> (w: usize)
    ensures
        w == fb.fw(),
{
    fb.w
}

/// Height of the live region.
pub fn height(fb: &Frame) -> (h: usize)
    ensures
        h == fb.fh(),
{
    fb.h
}

/// `v` clamped into `[MIN_SIDE, max]`.
pub open spec fn clamp_side(v: int, max: int) -> int {
    if v < MIN_SIDE {
        MIN_SIDE as int
    } else if v > max {
        max
    } else {
        v
    }
}

/// Resize the live region. Clamped to the buffer the frame owns, so a wrong
/// number from the host can never walk off the end. The pixels stay as they
/// are; the next draw covers them.
pub fn set_size(fb: &mut Frame, w: usize, h: usize)
    requires
        old(fb).wf(),
    ensures
        final(fb).wf(),
        final(fb).fw() == clamp_side(w as int, MAX_W as int),
        final(fb).fh() == clamp_side(h as int, MAX_H as int),
        final(fb).bytes() == old(fb).bytes(),
{
    let w = if w < MIN_SIDE {
        MIN_SIDE
    } else if w > MAX_W {
        MAX_W
    } else {
        w
    };
    let h = if h < MIN_SIDE {
        MIN_SIDE
    } else if h > MAX_H {
        MAX_H
    } else {
        h
    };
    fb.w = w;
    fb.h = h;
}

} // verus!

verus! {

// ---------------------------------------------------------------- helpers

/// The value `hash` computes: multiply, fold the high bits down, multiply,
/// fold again, all modulo 2^32.
pub open spec fn hash_spec(n: u32) -> u32 {
    let a = ((n as nat * 2654435761nat) % 0x1_0000_0000) as u32;
    let b = a ^ (a >> 15u32);
    let m = ((b as nat * 2246822519nat) % 0x1_0000_0000) as u32;
    m ^ (m >> 13u32)
}

/// Cheap deterministic hash, for scattering things that must look scattered
/// and then stay put.
pub fn hash(n: u32) -> (h: u32)
    ensures
        h == hash_spec(n),
{
    let mut x = n.wrapping_mul(2654435761);
    x ^= x >> 15u32;
    x = x.wrapping_mul(2246822519);
    x ^= x >> 13u32;
    x
}

/// `hash` sends no two numbers to the same value: every step of it (an odd
/// multiply, a shift-and-xor) can be undone, so it is a bijection on u32
/// and distinct inputs scatter to distinct values.
pub proof fn lemma_hash_injective(x: u32, y: u32)
    requires
        hash_spec(x) == hash_spec(y),
    ensures
        x == y,
{
    let ax = ((x as nat * 2654435761nat) % 0x1_0000_0000) as u32;
    let ay = ((y as nat * 2654435761nat) % 0x1_0000_0000) as u32;
    let bx = ax ^ (ax >> 15u32);
    let by = ay ^ (ay >> 15u32);
    let mx = ((bx as nat * 2246822519nat) % 0x1_0000_0000) as u32;
    let my = ((by as nat * 2246822519nat) % 0x1_0000_0000) as u32;
    assert(mx == my) by (bit_vector)
        requires
            mx ^ (mx >> 13u32) == my ^ (my >> 13u32),
    ;
    assert(bx == by) by (bit_vector)
        requires
            ((bx as nat * 2246822519nat) % 0x1_0000_0000) as u32 == ((by as nat * 2246822519nat) % 0x1_0000_0000) as u32,
    ;
    assert(ax == ay) by (bit_vector)
        requires
            ax ^ (ax >> 15u32) == ay ^ (ay >> 15u32),
    ;
    assert(x == y) by (bit_vector)
        requires
            ((x as nat * 2654435761nat) % 0x1_0000_0000) as u32 == ((y as nat * 2654435761nat) % 0x1_0000_0000) as u32,
    ;
}

/// The point `t / 255` of the way from `a` to `b`, rounded toward `a`.
pub open spec fn lerp_spec(a: int, b: int, t: int) -> int {
    if b >= a {
        a + (b - a) * t / 255
    } else {
        a - (a - b) * t / 255
    }
}

/// Linear interpolation on colour channels: `t` runs from 0 (all `a`) to
/// 255 (all `b`).
pub fn lerp(a: u8, b: u8, t: u32) -> (r: u8)
    requires
        t <= 255,
    ensures
        r == lerp_spec(a as int, b as int, t as int),
{
    if b >= a {
        let d = (b - a) as u32;
        assert(d * t <= 255 * 255) by (nonlinear_arith)
            requires
                d <= 255,
                t <= 255,
        ;
        assert(d * t / 255 <= d) by (nonlinear_arith)
            requires
                t <= 255,
        ;
        (a as u32 + d * t / 255) as u8
    } else {
        let d = (a - b) as u32;
        assert(d * t <= 255 * 255) by (nonlinear_arith)
            requires
                d <= 255,
                t <= 255,
        ;
        assert(d * t / 255 <= d) by (nonlinear_arith)
            requires
                t <= 255,
        ;
        (a as u32 - d * t / 255) as u8
    }
}

/// Interpolation starts at `a`, ends at `b`, and never leaves the range
/// between them.
pub proof fn lemma_lerp_ends(a: u8, b: u8, t: u32)
    requires
        t <= 255,
    ensures
        lerp_spec(a as int, b as int, 0) == a,
        lerp_spec(a as int, b as int, 255) == b,
        (a <= b ==> a <= lerp_spec(a as int, b as int, t as int) <= b),
        (b <= a ==> b <= lerp_spec(a as int, b as int, t as int) <= a),
{
    assert((b - a) * 255 / 255 == b - a) by (nonlinear_arith);
    assert((a - b) * 255 / 255 == a - b) by (nonlinear_arith);
    assert((b - a) * 0 / 255 == 0) by (nonlinear_arith);
    assert((a - b) * 0 / 255 == 0) by (nonlinear_arith);
    if a <= b {
        assert(0 <= (b - a) * t / 255 <= b - a) by (nonlinear_arith)
            requires
                a <= b,
                0 <= t <= 255,
        ;
    } else {
        assert(0 <= (a - b) * t / 255 <= a - b) by (nonlinear_arith)
            requires
                b <= a,
                0 <= t <= 255,
        ;
    }
}

} // verus!
