//! Screen captures.
//!
//! [`Screen`] is a raw RGBA-ish snapshot of (a region of) the root window plus
//! the geometry it covers. The OCR detector and the renderer's adaptive
//! contrast both read from it. A capture holds server-native pixel data; on the
//! little-endian systems mole targets that is BGRX/BGRA, which
//! [`Screen::pixel`] accounts for.

use vstd::arithmetic::div_mod::lemma_fundamental_div_mod_converse;
use vstd::prelude::*;

use crate::config::Rgba;
use crate::error::{Error, Result};
use crate::geometry::{greater, max_i32, Point, Rect};

verus! {

/// A captured rectangle of the screen.
pub struct Screen {
    bounds: Rect,
    /// Pixel data, row-major, `stride` bytes per row.
    data: Vec<u8>,
    stride: usize,
    /// Bytes per pixel as reported by the server (usually 4).
    bpp: usize,
}

/// Row and column of cell `y * w + x` in rows of `w` cells.
pub(crate) proof fn lemma_cell(w: int, x: int, y: int)
    requires
        0 <= x < w,
        0 <= y,
    ensures
        (y * w + x) / w == y,
        (y * w + x) % w == x,
        0 <= y * w + x,
{
    lemma_fundamental_div_mod_converse(y * w + x, w, y, x);
    assert(0 <= y * w) by (nonlinear_arith)
        requires
            0 <= y,
            0 < w,
    ;
}

/// Cell `y * w + x` is one of the `w * h` cells.
pub(crate) proof fn lemma_cell_bound(w: int, h: int, x: int, y: int)
    requires
        0 <= x < w,
        0 <= y < h,
    ensures
        0 <= y * w + x < w * h,
{
    assert(0 <= y * w + x < w * h) by (nonlinear_arith)
        requires
            0 <= x < w,
            0 <= y < h,
    ;
}

/// How many probes a side of `len` pixels gets at most every `step` pixels.
pub open spec fn probes(len: int, step: int) -> int {
    (len - 1) / step + 1
}

/// The distance between probes on a side of `len` pixels: an eighth of it.
pub open spec fn probe_step(len: int) -> int {
    greater(len / 8, 1)
}

/// A side gets at most 15 probes, however long it is.
proof fn lemma_probes(len: int)
    requires
        len > 0,
    ensures
        1 <= probes(len, probe_step(len)) <= 15,
        probe_step(len) >= 1,
        (probes(len, probe_step(len)) - 1) * probe_step(len) <= len - 1,
{
    let k = probe_step(len);
    let q = (len - 1) / k;
    assert(0 <= q && q <= 14 && q * k <= len - 1) by (nonlinear_arith)
        requires
            q == (len - 1) / k,
            k >= 1,
            len >= 1,
            len - 1 < 15 * k,
    ;
}

impl Screen {
    /// The rectangle that the capture covers.
    pub closed spec fn area(self) -> Rect {
        self.bounds
    }

    /// The raw bytes.
    pub closed spec fn bytes(self) -> Seq<u8> {
        self.data@
    }

    /// Bytes from one row to the next.
    pub closed spec fn row_len(self) -> nat {
        self.stride as nat
    }

    /// Bytes from one pixel to the next.
    pub closed spec fn pixel_len(self) -> nat {
        self.bpp as nat
    }

    /// Columns of the capture.
    pub open spec fn cols(self) -> int {
        greater(self.area().width as int, 0)
    }

    /// Rows of the capture.
    pub open spec fn rows(self) -> int {
        greater(self.area().height as int, 0)
    }

    /// Where the bytes of the pixel in column `x` of row `y` start.
    pub open spec fn at(self, x: int, y: int) -> int {
        y * self.row_len() + x * self.pixel_len()
    }

    /// Channel `c` (red, green, blue) of the pixel in column `x` of row `y`, and
    /// 0 where the bytes end before it. Server-native little-endian data is B, G,
    /// R, X.
    pub open spec fn channel(self, x: int, y: int, c: int) -> u8 {
        if self.at(x, y) + 2 < self.bytes().len() {
            self.bytes()[self.at(x, y) + 2 - c]
        } else {
            0
        }
    }

    /// Channel `c` (red, green, blue) at the absolute position `(px, py)`, and 0
    /// outside the capture or where a whole pixel is no longer there.
    pub open spec fn color(self, px: int, py: int, c: int) -> u8 {
        let x = px - self.area().x;
        let y = py - self.area().y;
        if 0 <= x < self.area().width && 0 <= y < self.area().height && self.at(x, y) + 3
            < self.bytes().len() {
            self.bytes()[self.at(x, y) + 2 - c]
        } else {
            0
        }
    }

    /// Channel `c` summed over the first `n` probes of row `py`, from column `x0`
    /// on, `step` apart.
    pub open spec fn line_total(self, c: int, x0: int, py: int, step: int, n: nat) -> int
        decreases n,
    {
        if n == 0 {
            0
        } else {
            self.line_total(c, x0, py, step, (n - 1) as nat) + self.color(
                x0 + (n - 1) * step,
                py,
                c,
            )
        }
    }

    /// Channel `c` summed over the first `rows` rows of probes of `part`.
    pub open spec fn grid_total(self, c: int, part: Rect, rows: nat) -> int
        decreases rows,
    {
        let sx = probe_step(part.width as int);
        let sy = probe_step(part.height as int);
        if rows == 0 {
            0
        } else {
            self.grid_total(c, part, (rows - 1) as nat) + self.line_total(
                c,
                part.x as int,
                part.y + (rows - 1) * sy,
                sx,
                probes(part.width as int, sx) as nat,
            )
        }
    }

    /// The mean of channel `c` over the probe grid of `part`, rounded down.
    pub open spec fn grid_mean(self, c: int, part: Rect) -> int {
        let nx = probes(part.width as int, probe_step(part.width as int));
        let ny = probes(part.height as int, probe_step(part.height as int));
        self.grid_total(c, part, ny as nat) / (nx * ny)
    }

    /// The region to ask the server for ("only capture the visible zones
    /// needed"): `region` clamped to the root window.
    pub fn capture_region(root: Rect, region: Rect) -> (r: Result<Rect>)
        ensures
            match r {
                Ok(part) => region.cut(root) == Some(part),
                Err(e) => region.cut(root) is None && e is X11 && e->X11_0@
                    == "capture region is off-screen"@,
            },
    {
        match region.clamp_to(root) {
            Some(part) => Ok(part),
            None => Err(Error::x11("capture region is off-screen")),
        }
    }

    /// The capture made of the bytes that the server returned for `region`: a
    /// depth of 24 or 32 is 4 bytes per pixel, in rows without padding.
    pub fn from_image(region: Rect, data: Vec<u8>) -> (s: Screen)
        requires
            0 <= region.width,
            4 * region.width <= usize::MAX,
        ensures
            s.area() == region,
            s.bytes() == data@,
            s.row_len() == 4 * region.width,
            s.pixel_len() == 4,
    {
        let bpp: usize = 4;
        Screen { bounds: region, data, stride: region.width as usize * bpp, bpp }
    }

    /// Construct a screen from raw bytes. Used by tests and by callers that
    /// already hold pixel data.
    pub fn from_raw(bounds: Rect, data: Vec<u8>, stride: usize, bpp: usize) -> (s: Screen)
        ensures
            s.area() == bounds,
            s.bytes() == data@,
            s.row_len() == stride,
            s.pixel_len() == bpp,
    {
        Screen { bounds, data, stride, bpp }
    }

    pub fn bounds(&self) -> (r: Rect)
        ensures
            r == self.area(),
    {
        self.bounds
    }

    pub fn width(&self) -> (w: i32)
        ensures
            w == self.area().width,
    {
        self.bounds.width
    }

    pub fn height(&self) -> (h: i32)
        ensures
            h == self.area().height,
    {
        self.bounds.height
    }

    /// Raw pixel bytes, for handing to OCR or other consumers.
    pub fn data(&self) -> (d: &[u8])
        ensures
            d@ == self.bytes(),
    {
        self.data.as_slice()
    }

    /// Where the pixel in column `x` of row `y` starts, in a type that always
    /// holds it.
    fn offset(&self, x: u32, y: u32) -> (o: u128)
        ensures
            o == self.at(x as int, y as int),
            o <= 0x1_0000_0000_0000_0000 * 0x1_0000_0000 * 2,
    {
        let s = self.stride as u128;
        let b = self.bpp as u128;
        assert(0 <= y * s <= 0x1_0000_0000_0000_0000 * 0x1_0000_0000) by (nonlinear_arith)
            requires
                0 <= y <= 0x1_0000_0000,
                0 <= s <= 0x1_0000_0000_0000_0000,
        ;
        assert(0 <= x * b <= 0x1_0000_0000_0000_0000 * 0x1_0000_0000) by (nonlinear_arith)
            requires
                0 <= x <= 0x1_0000_0000,
                0 <= b <= 0x1_0000_0000_0000_0000,
        ;
        y as u128 * s + x as u128 * b
    }

    /// The capture as a tight, top-to-bottom, 3-bytes-per-pixel **RGB** buffer,
    /// the form OCR (and PPM) want. Converts from the server-native BGRX layout
    /// in a single pass over the raw bytes.
    pub fn to_rgb(&self) -> (out: Vec<u8>)
        ensures
            out@.len() == self.cols() * self.rows() * 3,
            forall|x: int, y: int, c: int|
                0 <= x < self.cols() && 0 <= y < self.rows() && 0 <= c < 3 ==> out@[(y
                    * self.cols() + x) * 3 + c] == #[trigger] self.channel(x, y, c),
    {
        let w = max_i32(self.bounds.width, 0) as u32;
        let h = max_i32(self.bounds.height, 0) as u32;
        let mut out: Vec<u8> = Vec::new();
        let mut y: u32 = 0;
        assert(0 * w == 0) by (nonlinear_arith);
        while y < h
            invariant
                y <= h,
                w == self.cols(),
                h == self.rows(),
                out@.len() == (y * w) * 3,
                forall|p: int, c: int|
                    0 <= p < y * w && 0 <= c < 3 ==> #[trigger] out@[p * 3 + c] == self.channel(
                        p % (w as int),
                        p / (w as int),
                        c,
                    ),
            decreases h - y,
        {
            let mut x: u32 = 0;
            while x < w
                invariant
                    x <= w,
                    y < h,
                    w == self.cols(),
                    h == self.rows(),
                    out@.len() == (y * w + x) * 3,
                    forall|p: int, c: int|
                        0 <= p < y * w + x && 0 <= c < 3 ==> #[trigger] out@[p * 3 + c]
                            == self.channel(p % (w as int), p / (w as int), c),
                decreases w - x,
            {
                let off = self.offset(x, y);
                let ghost n = y * w + x;
                let ghost before = out@;
                proof {
                    lemma_cell(w as int, x as int, y as int);
                }
                if off + 2 < self.data.len() as u128 {
                    let o = off as usize;
                    out.push(self.data[o + 2]);  // R
                    out.push(self.data[o + 1]);  // G
                    out.push(self.data[o]);  // B
                } else {
                    out.push(0);
                    out.push(0);
                    out.push(0);
                }
                assert forall|p: int, c: int| 0 <= p < n + 1 && 0 <= c < 3 implies #[trigger] out@[p
                    * 3 + c] == self.channel(p % (w as int), p / (w as int), c) by {
                    if p < n {
                        assert(out@[p * 3 + c] == before[p * 3 + c]);
                    }
                }
                x += 1;
            }
            assert((y + 1) * w == y * w + w) by (nonlinear_arith);
            y += 1;
        }
        assert(h * w == w * h) by (nonlinear_arith);
        assert forall|x: int, y: int, c: int|
            0 <= x < self.cols() && 0 <= y < self.rows() && 0 <= c < 3 implies out@[(y * self.cols()
            + x) * 3 + c] == #[trigger] self.channel(x, y, c) by {
            lemma_cell(w as int, x, y);
            lemma_cell_bound(w as int, h as int, x, y);
        }
        out
    }

    /// Colour at absolute screen coordinate `p`, or opaque black if out of range
    /// (callers sampling for contrast don't want to handle `Option`).
    pub fn pixel(&self, p: Point) -> (c: Rgba)
        ensures
            c.r() == self.color(p.x as int, p.y as int, 0),
            c.g() == self.color(p.x as int, p.y as int, 1),
            c.b() == self.color(p.x as int, p.y as int, 2),
            c.a() == 255,
    {
        self.probe(p.x as i64, p.y as i64)
    }

    /// Average colour over `rect`, sub-sampled for speed. Drives the renderer's
    /// adaptive text-contrast decision.
    pub fn average_color(&self, rect: Rect) -> (c: Rgba)
        ensures
            match rect.cut(self.area()) {
                Some(part) => c.r() == self.grid_mean(0, part) && c.g() == self.grid_mean(1, part)
                    && c.b() == self.grid_mean(2, part),
                None => c.r() == 128 && c.g() == 128 && c.b() == 128,
            },
            c.a() == 255,
    {
        let part = match rect.clamp_to(self.bounds) {
            Some(part) => part,
            None => {
                return Rgba::new(128, 128, 128, 255);
            },
        };
        // Sample on a coarse grid: a handful of probes regardless of size.
        let step_x = max_i32(part.width / 8, 1);
        let step_y = max_i32(part.height / 8, 1);
        let nx = (part.width - 1) / step_x + 1;
        let ny = (part.height - 1) / step_y + 1;
        proof {
            lemma_probes(part.width as int);
            lemma_probes(part.height as int);
        }
        let mut sr: u64 = 0;
        let mut sg: u64 = 0;
        let mut sb: u64 = 0;
        let mut i: i32 = 0;
        while i < ny
            invariant
                0 <= i <= ny <= 15,
                1 <= nx <= 15,
                part.width >= 1,
                part.height >= 1,
                step_x == probe_step(part.width as int),
                step_y == probe_step(part.height as int),
                step_x >= 1,
                step_y >= 1,
                nx == probes(part.width as int, step_x as int),
                (nx - 1) * step_x <= part.width - 1,
                (ny - 1) * step_y <= part.height - 1,
                rect.cut(self.bounds) == Some(part),
                sr == self.grid_total(0, part, i as nat),
                sg == self.grid_total(1, part, i as nat),
                sb == self.grid_total(2, part, i as nat),
                sr <= i * 4000,
                sg <= i * 4000,
                sb <= i * 4000,
            decreases ny - i,
        {
            assert(0 <= i * step_y && i * step_y <= (ny - 1) * step_y) by (nonlinear_arith)
                requires
                    0 <= i <= ny - 1,
                    step_y >= 1,
            ;
            let y = part.y as i64 + i as i64 * step_y as i64;
            let ghost pr = sr;
            let ghost pg = sg;
            let ghost pb = sb;
            let mut j: i32 = 0;
            while j < nx
                invariant
                    0 <= j <= nx <= 15,
                    part.width >= 1,
                    step_x >= 1,
                    (nx - 1) * step_x <= part.width - 1,
                    part.y <= y < part.end_y(),
                    rect.cut(self.bounds) == Some(part),
                    pr <= 60000,
                    pg <= 60000,
                    pb <= 60000,
                    sr == pr + self.line_total(0, part.x as int, y as int, step_x as int, j as nat),
                    sg == pg + self.line_total(1, part.x as int, y as int, step_x as int, j as nat),
                    sb == pb + self.line_total(2, part.x as int, y as int, step_x as int, j as nat),
                    sr <= pr + j * 255,
                    sg <= pg + j * 255,
                    sb <= pb + j * 255,
                decreases nx - j,
            {
                assert(0 <= j * step_x && j * step_x <= (nx - 1) * step_x) by (nonlinear_arith)
                    requires
                        0 <= j <= nx - 1,
                        step_x >= 1,
                ;
                let x = part.x as i64 + j as i64 * step_x as i64;
                let c = self.probe(x, y);
                sr += c.0[0] as u64;
                sg += c.0[1] as u64;
                sb += c.0[2] as u64;
                j += 1;
            }
            i += 1;
        }
        assert(1 <= nx * ny <= 225 && ny * nx == nx * ny) by (nonlinear_arith)
            requires
                1 <= nx <= 15,
                1 <= ny <= 15,
        ;
        let n = nx as u64 * ny as u64;
        proof {
            self.lemma_total(0, part, ny as nat);
            self.lemma_total(1, part, ny as nat);
            self.lemma_total(2, part, ny as nat);
            lemma_mean(sr as int, (nx * ny) as int);
            lemma_mean(sg as int, (nx * ny) as int);
            lemma_mean(sb as int, (nx * ny) as int);
        }
        Rgba::new((sr / n) as u8, (sg / n) as u8, (sb / n) as u8, 255)
    }

    /// [`Screen::pixel`] at a position that may lie just beyond the range of a
    /// [`Point`].
    pub(crate) fn probe(&self, x: i64, y: i64) -> (c: Rgba)
        requires
            -0x1_0000_0000 <= x <= 0x1_0000_0000,
            -0x1_0000_0000 <= y <= 0x1_0000_0000,
        ensures
            c.r() == self.color(x as int, y as int, 0),
            c.g() == self.color(x as int, y as int, 1),
            c.b() == self.color(x as int, y as int, 2),
            c.a() == 255,
    {
        let lx = x - self.bounds.x as i64;
        let ly = y - self.bounds.y as i64;
        if lx < 0 || ly < 0 || lx >= self.bounds.width as i64 || ly >= self.bounds.height as i64 {
            return Rgba::new(0, 0, 0, 255);
        }
        let off = self.offset(lx as u32, ly as u32);
        if off + 3 >= self.data.len() as u128 {
            return Rgba::new(0, 0, 0, 255);
        }
        // Server-native little-endian data is B, G, R, X.
        let o = off as usize;
        let b = self.data[o];
        let g = self.data[o + 1];
        let r = self.data[o + 2];
        Rgba::new(r, g, b, 255)
    }

    proof fn lemma_line_total(self, c: int, x0: int, py: int, step: int, n: nat)
        ensures
            0 <= self.line_total(c, x0, py, step, n) <= 255 * n,
        decreases n,
    {
        if n > 0 {
            self.lemma_line_total(c, x0, py, step, (n - 1) as nat);
        }
    }

    proof fn lemma_total(self, c: int, part: Rect, rows: nat)
        requires
            part.width >= 1,
        ensures
            0 <= self.grid_total(c, part, rows) <= 255 * (rows * probes(
                part.width as int,
                probe_step(part.width as int),
            )),
        decreases rows,
    {
        let nx = probes(part.width as int, probe_step(part.width as int));
        lemma_probes(part.width as int);
        if rows > 0 {
            self.lemma_total(c, part, (rows - 1) as nat);
            self.lemma_line_total(
                c,
                part.x as int,
                part.y + (rows - 1) * probe_step(part.height as int),
                probe_step(part.width as int),
                nx as nat,
            );
            assert(rows * nx == (rows - 1) * nx + nx) by (nonlinear_arith);
        } else {
            assert(0 * nx == 0) by (nonlinear_arith);
        }
    }
}

/// The mean of `n` bytes is a byte.
proof fn lemma_mean(sum: int, n: int)
    requires
        n >= 1,
        0 <= sum <= 255 * n,
    ensures
        0 <= sum / n <= 255,
{
    assert(0 <= sum / n <= 255) by (nonlinear_arith)
        requires
            n >= 1,
            0 <= sum <= 255 * n,
    ;
}

// --- Laws -----------------------------------------------------------------

/// The tight buffer holds what [`Screen::pixel`] reads, wherever the whole pixel
/// was captured.
pub proof fn law_rgb_is_the_pixels(s: Screen, x: int, y: int, c: int)
    requires
        0 <= x < s.cols(),
        0 <= y < s.rows(),
        0 <= c < 3,
        s.at(x, y) + 3 < s.bytes().len(),
    ensures
        s.channel(x, y, c) == s.color(s.area().x + x, s.area().y + y, c),
{
}

/// The average over a region of one colour is that colour.
pub proof fn law_average_of_solid_is_that_color(s: Screen, part: Rect, c: int, v: u8)
    requires
        part.width > 0,
        part.height > 0,
        forall|x: int, y: int| part.covers(x, y) ==> #[trigger] s.color(x, y, c) == v,
    ensures
        s.grid_mean(c, part) == v,
{
    let nx = probes(part.width as int, probe_step(part.width as int));
    let ny = probes(part.height as int, probe_step(part.height as int));
    lemma_probes(part.width as int);
    lemma_probes(part.height as int);
    lemma_solid_grid(s, part, c, v, ny as nat);
    assert(nx * ny >= 1) by (nonlinear_arith)
        requires
            nx >= 1,
            ny >= 1,
    ;
    assert((v * (ny * nx)) / (nx * ny) == v) by (nonlinear_arith)
        requires
            nx * ny >= 1,
            v >= 0,
    ;
}

/// An average lies between the least and the greatest of what it is taken over.
pub proof fn law_an_average_lies_between_its_samples(s: Screen, part: Rect, c: int, lo: int, hi: int)
    requires
        part.width > 0,
        part.height > 0,
        forall|x: int, y: int| part.covers(x, y) ==> lo <= #[trigger] s.color(x, y, c) <= hi,
    ensures
        lo <= s.grid_mean(c, part) <= hi,
{
    let sx = probe_step(part.width as int);
    let sy = probe_step(part.height as int);
    lemma_probes(part.width as int);
    lemma_probes(part.height as int);
    let nx = probes(part.width as int, sx);
    let ny = probes(part.height as int, sy);
    lemma_bounded_grid(s, part, c, lo, hi, ny as nat);
    let total = s.grid_total(c, part, ny as nat);
    let n = nx * ny;
    assert(ny * nx == n) by (nonlinear_arith)
        requires
            n == nx * ny,
    ;
    assert(n >= 1) by (nonlinear_arith)
        requires
            n == nx * ny,
            nx >= 1,
            ny >= 1,
    ;
    assert(lo <= total / n && total / n <= hi) by (nonlinear_arith)
        requires
            n >= 1,
            lo * n <= total,
            total <= hi * n,
    ;
}

proof fn lemma_bounded_line(s: Screen, part: Rect, c: int, lo: int, hi: int, py: int, n: nat)
    requires
        part.width > 0,
        part.y <= py < part.end_y(),
        n <= probes(part.width as int, probe_step(part.width as int)),
        forall|x: int, y: int| part.covers(x, y) ==> lo <= #[trigger] s.color(x, y, c) <= hi,
    ensures
        lo * n <= s.line_total(c, part.x as int, py, probe_step(part.width as int), n) <= hi * n,
    decreases n,
{
    let step = probe_step(part.width as int);
    if n > 0 {
        lemma_bounded_line(s, part, c, lo, hi, py, (n - 1) as nat);
        lemma_probes(part.width as int);
        let last = probes(part.width as int, step) - 1;
        assert(0 <= (n - 1) * step && (n - 1) * step <= last * step) by (nonlinear_arith)
            requires
                0 <= n - 1 <= last,
                step >= 1,
        ;
        assert(part.covers(part.x + (n - 1) * step, py));
        assert(lo * n == lo * (n - 1) + lo && hi * n == hi * (n - 1) + hi) by (nonlinear_arith);
    } else {
        assert(lo * 0 == 0 && hi * 0 == 0) by (nonlinear_arith);
    }
}

proof fn lemma_bounded_grid(s: Screen, part: Rect, c: int, lo: int, hi: int, rows: nat)
    requires
        part.width > 0,
        part.height > 0,
        rows <= probes(part.height as int, probe_step(part.height as int)),
        forall|x: int, y: int| part.covers(x, y) ==> lo <= #[trigger] s.color(x, y, c) <= hi,
    ensures
        ({
            let n = rows * probes(part.width as int, probe_step(part.width as int));
            lo * n <= s.grid_total(c, part, rows) <= hi * n
        }),
    decreases rows,
{
    let nx = probes(part.width as int, probe_step(part.width as int));
    lemma_probes(part.width as int);
    if rows > 0 {
        lemma_bounded_grid(s, part, c, lo, hi, (rows - 1) as nat);
        lemma_probes(part.height as int);
        let sy = probe_step(part.height as int);
        let last = probes(part.height as int, sy) - 1;
        assert(0 <= (rows - 1) * sy && (rows - 1) * sy <= last * sy) by (nonlinear_arith)
            requires
                0 <= rows - 1 <= last,
                sy >= 1,
        ;
        lemma_bounded_line(s, part, c, lo, hi, part.y + (rows - 1) * sy, nx as nat);
        assert(rows * nx == (rows - 1) * nx + nx) by (nonlinear_arith);
        assert(lo * (rows * nx) == lo * ((rows - 1) * nx) + lo * nx && hi * (rows * nx) == hi * ((
        rows - 1) * nx) + hi * nx) by (nonlinear_arith)
            requires
                rows * nx == (rows - 1) * nx + nx,
        ;
    } else {
        assert(0 * nx == 0 && lo * 0 == 0 && hi * 0 == 0) by (nonlinear_arith);
    }
}

proof fn lemma_solid_line(s: Screen, part: Rect, c: int, v: u8, py: int, n: nat)
    requires
        part.width > 0,
        part.y <= py < part.end_y(),
        n <= probes(part.width as int, probe_step(part.width as int)),
        forall|x: int, y: int| part.covers(x, y) ==> #[trigger] s.color(x, y, c) == v,
    ensures
        s.line_total(c, part.x as int, py, probe_step(part.width as int), n) == v * n,
    decreases n,
{
    let step = probe_step(part.width as int);
    let nx = probes(part.width as int, step);
    lemma_probes(part.width as int);
    if n > 0 {
        lemma_solid_line(s, part, c, v, py, (n - 1) as nat);
        assert(0 <= (n - 1) * step && (n - 1) * step <= (nx - 1) * step) by (nonlinear_arith)
            requires
                1 <= n <= nx,
                step >= 1,
        ;
        assert(part.covers(part.x + (n - 1) * step, py));
        assert(v * n == v * (n - 1) + v) by (nonlinear_arith);
    } else {
        assert(v * 0 == 0);
    }
}

proof fn lemma_solid_grid(s: Screen, part: Rect, c: int, v: u8, rows: nat)
    requires
        part.width > 0,
        part.height > 0,
        rows <= probes(part.height as int, probe_step(part.height as int)),
        forall|x: int, y: int| part.covers(x, y) ==> #[trigger] s.color(x, y, c) == v,
    ensures
        s.grid_total(c, part, rows) == v * (rows * probes(
            part.width as int,
            probe_step(part.width as int),
        )),
    decreases rows,
{
    let sy = probe_step(part.height as int);
    let nx = probes(part.width as int, probe_step(part.width as int));
    let ny = probes(part.height as int, sy);
    lemma_probes(part.width as int);
    lemma_probes(part.height as int);
    if rows > 0 {
        lemma_solid_grid(s, part, c, v, (rows - 1) as nat);
        assert(0 <= (rows - 1) * sy && (rows - 1) * sy <= (ny - 1) * sy) by (nonlinear_arith)
            requires
                1 <= rows <= ny,
                sy >= 1,
        ;
        lemma_solid_line(s, part, c, v, part.y + (rows - 1) * sy, nx as nat);
        assert(v * (rows * nx) == v * ((rows - 1) * nx) + v * nx) by (nonlinear_arith);
    } else {
        assert(v * (0 * nx) == 0) by (nonlinear_arith);
    }
}

/// A pixel is read where it stands: `row_len` bytes further for each row and
/// `pixel_len` for each column, blue, then green, then red. Outside the capture, and
/// where its bytes have ended, it is black.
pub proof fn law_pixels_are_read_where_they_stand(s: Screen, px: int, py: int)
    ensures
        ({
            let x = px - s.area().x;
            let y = py - s.area().y;
            let at = y * s.row_len() + x * s.pixel_len();
            let there = 0 <= x < s.area().width && 0 <= y < s.area().height && at + 3
                < s.bytes().len();
            &&& there ==> s.color(px, py, 0) == s.bytes()[at + 2] && s.color(px, py, 1)
                == s.bytes()[at + 1] && s.color(px, py, 2) == s.bytes()[at]
            &&& !there ==> s.color(px, py, 0) == 0 && s.color(px, py, 1) == 0 && s.color(px, py, 2)
                == 0
        }),
{
}

/// The same for the tight buffer, which needs a pixel's three colours only.
pub proof fn law_the_buffer_is_read_where_it_stands(s: Screen, x: int, y: int)
    requires
        0 <= x,
        0 <= y,
    ensures
        ({
            let at = y * s.row_len() + x * s.pixel_len();
            &&& at + 2 < s.bytes().len() ==> s.channel(x, y, 0) == s.bytes()[at + 2] && s.channel(
                x,
                y,
                1,
            ) == s.bytes()[at + 1] && s.channel(x, y, 2) == s.bytes()[at]
            &&& at + 2 >= s.bytes().len() ==> s.channel(x, y, 0) == 0 && s.channel(x, y, 1) == 0
                && s.channel(x, y, 2) == 0
        }),
        s.cols() == if s.area().width > 0 {
            s.area().width as int
        } else {
            0
        },
        s.rows() == if s.area().height > 0 {
            s.area().height as int
        } else {
            0
        },
{
}

/// Column `i` and row `j` of the probe grid meet at `(px, py)`.
pub open spec fn probed(part: Rect, i: int, j: int, px: int, py: int) -> bool {
    &&& 0 <= i
    &&& 0 <= j
    &&& px == part.x + i * (if part.width >= 16 {
        part.width as int / 8
    } else {
        1
    })
    &&& py == part.y + j * (if part.height >= 16 {
        part.height as int / 8
    } else {
        1
    })
    &&& px < part.x + part.width
    &&& py < part.y + part.height
}

/// Every probe of an average counts, and counts once: the probes stand an eighth of
/// a side apart (on every pixel of a short side), and where two captures differ at
/// one of them alone, their totals differ by just that.
pub proof fn law_every_probe_counts_once(
    s: Screen,
    t: Screen,
    part: Rect,
    c: int,
    i: int,
    j: int,
    px: int,
    py: int,
)
    requires
        part.width > 0,
        part.height > 0,
        probed(part, i, j, px, py),
        forall|x: int, y: int|
            part.covers(x, y) && !(x == px && y == py) ==> #[trigger] t.color(x, y, c) == s.color(
                x,
                y,
                c,
            ),
    ensures
        ({
            let ny = probes(part.height as int, probe_step(part.height as int)) as nat;
            t.grid_total(c, part, ny) - s.grid_total(c, part, ny) == t.color(px, py, c) - s.color(
                px,
                py,
                c,
            )
        }),
{
    let sx = probe_step(part.width as int);
    let sy = probe_step(part.height as int);
    let nx = probes(part.width as int, sx);
    let ny = probes(part.height as int, sy);
    lemma_probes(part.width as int);
    lemma_probes(part.height as int);
    lemma_last_probe(part.width as int, i);
    lemma_last_probe(part.height as int, j);
    lemma_grid_delta(s, t, part, c, i, j, ny as nat);
}

/// A probe before the end of a side is one of its probes.
proof fn lemma_last_probe(len: int, i: int)
    requires
        len > 0,
        0 <= i,
        i * (if len >= 16 {
            len / 8
        } else {
            1
        }) < len,
    ensures
        probe_step(len) == if len >= 16 {
            len / 8
        } else {
            1int
        },
        i < probes(len, probe_step(len)),
{
    let step = probe_step(len);
    let n = probes(len, step);
    assert(i < n) by (nonlinear_arith)
        requires
            n == (len - 1) / step + 1,
            i * step <= len - 1,
            step >= 1,
            i >= 0,
    ;
}

proof fn lemma_line_delta(s: Screen, t: Screen, part: Rect, c: int, i: int, py: int, hit: bool, px: int, y: int, n: nat)
    requires
        part.width > 0,
        part.y <= y < part.end_y(),
        0 <= i,
        px == part.x + i * probe_step(part.width as int),
        hit <==> y == py,
        n <= probes(part.width as int, probe_step(part.width as int)),
        forall|x: int, y: int|
            part.covers(x, y) && !(x == px && y == py) ==> #[trigger] t.color(x, y, c) == s.color(
                x,
                y,
                c,
            ),
    ensures
        t.line_total(c, part.x as int, y, probe_step(part.width as int), n) - s.line_total(
            c,
            part.x as int,
            y,
            probe_step(part.width as int),
            n,
        ) == if hit && i < n {
            t.color(px, py, c) - s.color(px, py, c)
        } else {
            0
        },
    decreases n,
{
    let step = probe_step(part.width as int);
    if n > 0 {
        lemma_line_delta(s, t, part, c, i, py, hit, px, y, (n - 1) as nat);
        lemma_probes(part.width as int);
        let last = probes(part.width as int, step) - 1;
        let x = part.x + (n - 1) * step;
        assert(0 <= (n - 1) * step && (n - 1) * step <= last * step) by (nonlinear_arith)
            requires
                0 <= n - 1 <= last,
                step >= 1,
        ;
        assert(part.covers(x, y));
        if x == px {
            assert(i == n - 1) by (nonlinear_arith)
                requires
                    i * step == (n - 1) * step,
                    step >= 1,
            ;
        }
        if i == n - 1 {
            assert(x == px);
        }
    }
}

proof fn lemma_grid_delta(s: Screen, t: Screen, part: Rect, c: int, i: int, j: int, rows: nat)
    requires
        part.width > 0,
        part.height > 0,
        0 <= i < probes(part.width as int, probe_step(part.width as int)),
        0 <= j,
        rows <= probes(part.height as int, probe_step(part.height as int)),
        ({
            let px = part.x + i * probe_step(part.width as int);
            let py = part.y + j * probe_step(part.height as int);
            forall|x: int, y: int|
                part.covers(x, y) && !(x == px && y == py) ==> #[trigger] t.color(x, y, c)
                    == s.color(x, y, c)
        }),
    ensures
        ({
            let px = part.x + i * probe_step(part.width as int);
            let py = part.y + j * probe_step(part.height as int);
            t.grid_total(c, part, rows) - s.grid_total(c, part, rows) == if j < rows {
                t.color(px, py, c) - s.color(px, py, c)
            } else {
                0
            }
        }),
    decreases rows,
{
    let sx = probe_step(part.width as int);
    let sy = probe_step(part.height as int);
    let px = part.x + i * sx;
    let py = part.y + j * sy;
    if rows > 0 {
        lemma_grid_delta(s, t, part, c, i, j, (rows - 1) as nat);
        lemma_probes(part.height as int);
        let last = probes(part.height as int, sy) - 1;
        let y = part.y + (rows - 1) * sy;
        assert(0 <= (rows - 1) * sy && (rows - 1) * sy <= last * sy) by (nonlinear_arith)
            requires
                0 <= rows - 1 <= last,
                sy >= 1,
        ;
        if y == py {
            assert(j == rows - 1) by (nonlinear_arith)
                requires
                    j * sy == (rows - 1) * sy,
                    sy >= 1,
            ;
        }
        lemma_line_delta(
            s,
            t,
            part,
            c,
            i,
            py,
            y == py,
            px,
            y,
            probes(part.width as int, sx) as nat,
        );
    }
}

/// The average is the total of the probes over their number, rounded down.
pub proof fn law_an_average_is_total_over_number(s: Screen, part: Rect, c: int)
    requires
        part.width > 0,
        part.height > 0,
    ensures
        ({
            let nx = probes(part.width as int, probe_step(part.width as int));
            let ny = probes(part.height as int, probe_step(part.height as int));
            let total = s.grid_total(c, part, ny as nat);
            let n = nx * ny;
            &&& n >= 1
            &&& n * s.grid_mean(c, part) <= total < n * s.grid_mean(c, part) + n
        }),
{
    lemma_probes(part.width as int);
    lemma_probes(part.height as int);
    let nx = probes(part.width as int, probe_step(part.width as int));
    let ny = probes(part.height as int, probe_step(part.height as int));
    let total = s.grid_total(c, part, ny as nat);
    let n = nx * ny;
    assert(n >= 1) by (nonlinear_arith)
        requires
            n == nx * ny,
            nx >= 1,
            ny >= 1,
    ;
    assert(n * (total / n) <= total < n * (total / n) + n) by (nonlinear_arith)
        requires
            n >= 1,
    ;
}

} // verus!
