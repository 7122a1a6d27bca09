//! Icon / button detection: hint things you can click that have no text.
//!
//! OCR finds text, but a lot of clickable UI is icon-only — toolbar buttons,
//! tab favicons, the window controls, a hamburger menu. Those carry no glyphs
//! for Tesseract to read, so they'd be unreachable with text hints alone.
//!
//! This finds them cheaply from the pixels, no extra processes: lay a fine grid
//! over the screen, mark each cell that holds an *edge* (a real spread between
//! its lightest and darkest pixel — flat background is ignored), cluster the
//! marked cells into connected blobs, and keep the blobs that look like an icon
//! — roughly icon-sized, compact, and not sitting on text we already hinted. It
//! is heuristic and deliberately conservative: a handful of stray hints on a
//! busy image is a fair price for being able to click the toolbar.

use vstd::prelude::*;
use vstd::set_lib::{lemma_int_range, lemma_len_subset, set_int_range};

use crate::capture::{lemma_cell, lemma_cell_bound};
use crate::detect::ocr::phrase::{shape, shapes};
use crate::detect::ocr::shared_area;
use crate::detect::Element;
use crate::geometry::{fits_i32, greater, lesser, max_i32, Rect};

verus! {

/// Side length (px) of a detection cell. Small enough to resolve a ~16px icon,
/// big enough that the whole-screen pass stays cheap.
pub const CELL: i64 = 8;

/// Minimum spread between the lightest and darkest pixel in a cell for it to
/// count as holding an edge (0..=765 over summed RGB). Shrugs off gradients and
/// anti-aliasing on a flat fill.
pub const EDGE_SPREAD: i32 = 90;

/// Icon bounding box must be at least this wide/tall (px) — below it is a single
/// glyph or speck, not a control.
pub const MIN_ICON: i32 = 16;

/// …and at most this wide/tall (px) — above it is an image or a text block.
pub const MAX_ICON: i32 = 80;

/// Hard cap on icon hints, so a pathological screen can't bury everything.
pub const MAX_ICONS: usize = 200;

// --- Edges ----------------------------------------------------------------

/// How many cells `len` pixels are cut into: at least one, and no cell for a
/// remainder.
pub open spec fn cells_along(len: int) -> int {
    greater(len / CELL as int, 1)
}

/// The image that icons are looked for in: tight RGB, `w`×`h` pixels.
pub struct Image {
    pub rgb: Seq<u8>,
    pub w: int,
    pub h: int,
}

impl Image {
    pub open spec fn cols(self) -> int {
        cells_along(self.w)
    }

    pub open spec fn rows(self) -> int {
        cells_along(self.h)
    }

    /// Pixel `(x, y)` is sampled for the cell in column `cx` of row `cy`: every
    /// other pixel of the cell, on both axes, that the image has.
    pub open spec fn sampled(self, cx: int, cy: int, x: int, y: int) -> bool {
        &&& cx * CELL <= x < lesser((cx + 1) * CELL, self.w)
        &&& cy * CELL <= y < lesser((cy + 1) * CELL, self.h)
        &&& x % 2 == 0
        &&& y % 2 == 0
        &&& (y * self.w + x) * 3 + 2 < self.rgb.len()
    }

    /// Red, green and blue of pixel `(x, y)`, added up.
    pub open spec fn brightness(self, x: int, y: int) -> int {
        let i = (y * self.w + x) * 3;
        self.rgb[i] + self.rgb[i + 1] + self.rgb[i + 2]
    }

    /// The cell holds an edge: two of its samples differ enough in brightness.
    pub open spec fn edge(self, cx: int, cy: int) -> bool {
        exists|x1: int, y1: int, x2: int, y2: int|
            #![trigger self.sampled(cx, cy, x1, y1), self.sampled(cx, cy, x2, y2)]
            self.sampled(cx, cy, x1, y1) && self.sampled(cx, cy, x2, y2) && self.brightness(x1, y1)
                - self.brightness(x2, y2) >= EDGE_SPREAD
    }

    /// The grid of edge cells, row by row.
    pub open spec fn edges(self) -> Seq<bool> {
        Seq::new(
            (self.cols() * self.rows()) as nat,
            |i: int| self.edge(i % self.cols(), i / self.cols()),
        )
    }
}

/// Whether the cell in column `cx` of row `cy` holds an edge.
fn cell_edge(rgb: &[u8], width: i32, height: i32, cx: i64, cy: i64) -> (r: bool)
    requires
        0 < width,
        0 < height,
        0 <= cx < cells_along(width as int),
        0 <= cy < cells_along(height as int),
    ensures
        r == (Image { rgb: rgb@, w: width as int, h: height as int }).edge(cx as int, cy as int),
{
    let ghost image = Image { rgb: rgb@, w: width as int, h: height as int };
    let w = width as i64;
    let x0 = cx * CELL;
    let y0 = cy * CELL;
    let x1 = if x0 + CELL < w {
        x0 + CELL
    } else {
        w
    };
    let y1 = if y0 + CELL < height as i64 {
        y0 + CELL
    } else {
        height as i64
    };
    let mut lo: i32 = 0;
    let mut hi: i32 = 0;
    let mut any = false;
    let ghost mut lx: int = 0;
    let ghost mut ly: int = 0;
    let ghost mut hx: int = 0;
    let ghost mut hy: int = 0;
    let mut y = y0;
    while y < y1
        invariant
            image == (Image { rgb: rgb@, w: width as int, h: height as int }),
            w == width,
            0 < width,
            0 < height,
            x0 == cx * CELL,
            y0 == cy * CELL,
            0 <= cx < 0x1000_0000,
            0 <= cy < 0x1000_0000,
            x1 == lesser((cx + 1) * CELL, width as int),
            y1 == lesser((cy + 1) * CELL, height as int),
            x0 < x1,
            y0 <= y <= y1 + 1,
            y % 2 == 0,
            0 <= lo <= 765,
            0 <= hi <= 765,
            any ==> image.sampled(cx as int, cy as int, lx, ly) && image.brightness(lx, ly) == lo,
            any ==> image.sampled(cx as int, cy as int, hx, hy) && image.brightness(hx, hy) == hi,
            forall|px: int, py: int|
                #![trigger image.sampled(cx as int, cy as int, px, py)]
                image.sampled(cx as int, cy as int, px, py) && py < y ==> any && lo
                    <= image.brightness(px, py) <= hi,
        decreases y1 + 2 - y,
    {
        let mut x = x0;
        while x < x1
            invariant
                image == (Image { rgb: rgb@, w: width as int, h: height as int }),
                w == width,
                0 < width,
                0 < height,
                x0 == cx * CELL,
                y0 == cy * CELL,
                0 <= cx < 0x1000_0000,
                0 <= cy < 0x1000_0000,
                x1 == lesser((cx + 1) * CELL, width as int),
                y1 == lesser((cy + 1) * CELL, height as int),
                y0 <= y < y1,
                y % 2 == 0,
                x0 <= x <= x1 + 1,
                x % 2 == 0,
                0 <= lo <= 765,
                0 <= hi <= 765,
                any ==> image.sampled(cx as int, cy as int, lx, ly) && image.brightness(lx, ly)
                    == lo,
                any ==> image.sampled(cx as int, cy as int, hx, hy) && image.brightness(hx, hy)
                    == hi,
                forall|px: int, py: int|
                    #![trigger image.sampled(cx as int, cy as int, px, py)]
                    image.sampled(cx as int, cy as int, px, py) && (py < y || (py == y && px < x))
                        ==> any && lo <= image.brightness(px, py) <= hi,
            decreases x1 + 2 - x,
        {
            assert(0 <= y * w && y * w <= 0x8000_0000 * 0x8000_0000) by (nonlinear_arith)
                requires
                    0 <= y <= 0x8000_0000,
                    0 <= w <= 0x8000_0000,
            ;
            let i = (y as u128 * w as u128 + x as u128) * 3;
            assert(i == (y * w + x) * 3);
            if i + 2 < rgb.len() as u128 {
                let i = i as usize;
                let lum = rgb[i] as i32 + rgb[i + 1] as i32 + rgb[i + 2] as i32;
                assert(image.sampled(cx as int, cy as int, x as int, y as int));
                assert(image.brightness(x as int, y as int) == lum);
                if !any || lum < lo {
                    lo = lum;
                    proof {
                        lx = x as int;
                        ly = y as int;
                    }
                }
                if !any || lum > hi {
                    hi = lum;
                    proof {
                        hx = x as int;
                        hy = y as int;
                    }
                }
                any = true;
            }
            proof {
                assert forall|px: int, py: int|
                    #![trigger image.sampled(cx as int, cy as int, px, py)]
                    image.sampled(cx as int, cy as int, px, py) && (py < y || (py == y && px < x
                        + 2)) implies any && lo <= image.brightness(px, py) <= hi by {
                    if py == y && px >= x {
                        assert(px == x);
                    }
                }
            }
            x += 2;
        }
        proof {
            assert forall|px: int, py: int|
                #![trigger image.sampled(cx as int, cy as int, px, py)]
                image.sampled(cx as int, cy as int, px, py) && py < y + 2 implies any && lo
                <= image.brightness(px, py) <= hi by {
                if py >= y {
                    assert(py == y);
                }
            }
        }
        y += 2;
    }
    if any && hi - lo >= EDGE_SPREAD {
        assert(image.sampled(cx as int, cy as int, hx, hy) && image.sampled(
            cx as int,
            cy as int,
            lx,
            ly,
        ));
        true
    } else {
        proof {
            if image.edge(cx as int, cy as int) {
                let (ax, ay, bx, by) = choose|ax: int, ay: int, bx: int, by: int|
                    #![trigger image.sampled(cx as int, cy as int, ax, ay), image.sampled(cx as int, cy as int, bx, by)]
                    image.sampled(cx as int, cy as int, ax, ay) && image.sampled(
                        cx as int,
                        cy as int,
                        bx,
                        by,
                    ) && image.brightness(ax, ay) - image.brightness(bx, by) >= EDGE_SPREAD;
                assert(false);
            }
        }
        false
    }
}

/// Mark every grid cell that holds an edge.
fn edge_cells(rgb: &[u8], width: i32, height: i32, cols: i64, rows: i64) -> (cells: Vec<bool>)
    requires
        0 < width,
        0 < height,
        cols == cells_along(width as int),
        rows == cells_along(height as int),
    ensures
        cells@ == (Image { rgb: rgb@, w: width as int, h: height as int }).edges(),
{
    let ghost image = Image { rgb: rgb@, w: width as int, h: height as int };
    let mut cells: Vec<bool> = Vec::new();
    let mut cy: i64 = 0;
    assert(0 * cols == 0) by (nonlinear_arith);
    while cy < rows
        invariant
            image == (Image { rgb: rgb@, w: width as int, h: height as int }),
            0 < width,
            0 < height,
            cols == cells_along(width as int),
            rows == cells_along(height as int),
            0 <= cy <= rows,
            cells@.len() == cy * cols,
            forall|i: int|
                0 <= i < cells@.len() ==> #[trigger] cells@[i] == image.edge(
                    i % image.cols(),
                    i / image.cols(),
                ),
        decreases rows - cy,
    {
        let mut cx: i64 = 0;
        while cx < cols
            invariant
                image == (Image { rgb: rgb@, w: width as int, h: height as int }),
                0 < width,
                0 < height,
                cols == cells_along(width as int),
                rows == cells_along(height as int),
                0 <= cy < rows,
                0 <= cx <= cols,
                cells@.len() == cy * cols + cx,
                forall|i: int|
                    0 <= i < cells@.len() ==> #[trigger] cells@[i] == image.edge(
                        i % image.cols(),
                        i / image.cols(),
                    ),
            decreases cols - cx,
        {
            proof {
                lemma_cell(cols as int, cx as int, cy as int);
            }
            cells.push(cell_edge(rgb, width, height, cx, cy));
            cx += 1;
        }
        assert((cy + 1) * cols == cy * cols + cols) by (nonlinear_arith);
        cy += 1;
    }
    assert(rows * cols == cols * rows) by (nonlinear_arith);
    assert(cells@ == image.edges());
    cells
}

// --- Blobs ----------------------------------------------------------------

/// A grid of cells, row by row; the marked ones cluster into blobs.
pub struct Grid {
    pub marks: Seq<bool>,
    pub cols: int,
    pub rows: int,
}

impl Grid {
    pub open spec fn sound(self) -> bool {
        &&& 0 < self.cols
        &&& 0 < self.rows
        &&& self.marks.len() == self.cols * self.rows
    }

    pub open spec fn x(self, i: int) -> int {
        i % self.cols
    }

    pub open spec fn y(self, i: int) -> int {
        i / self.cols
    }

    /// Cell `i` is on the grid and marked.
    pub open spec fn marked(self, i: int) -> bool {
        0 <= i < self.marks.len() && self.marks[i]
    }

    /// Cells `a` and `b` share a side.
    pub open spec fn touch(self, a: int, b: int) -> bool {
        ||| self.y(a) == self.y(b) && (self.x(a) - self.x(b) == 1 || self.x(b) - self.x(a) == 1)
        ||| self.x(a) == self.x(b) && (self.y(a) - self.y(b) == 1 || self.y(b) - self.y(a) == 1)
    }

    /// `path` leads over marked cells, each touching the next.
    pub open spec fn leads(self, path: Seq<int>) -> bool {
        &&& path.len() > 0
        &&& forall|k: int| 0 <= k < path.len() ==> self.marked(#[trigger] path[k])
        &&& forall|k: int| 0 < k < path.len() ==> self.touch(path[k - 1], #[trigger] path[k])
    }

    /// Some path leads from `a` to `b`.
    pub open spec fn connected(self, a: int, b: int) -> bool {
        exists|path: Seq<int>| #[trigger]
            self.leads(path) && path[0] == a && path[path.len() - 1] == b
    }

    /// The blob of cell `a`: everything a path leads to.
    pub open spec fn blob(self, a: int) -> Set<int> {
        set_int_range(0, self.marks.len() as int).filter(|b: int| self.connected(a, b))
    }

    /// `b` is the bounding box of the blob of cell `a`, with its number of cells.
    pub open spec fn bounds(self, b: Blob, a: int) -> bool {
        &&& b.cells == self.blob(a).len()
        &&& forall|i: int| #[trigger]
            self.blob(a).contains(i) ==> b.x0 <= self.x(i) <= b.x1 && b.y0 <= self.y(i) <= b.y1
        &&& exists|i: int| #[trigger] self.blob(a).contains(i) && self.x(i) == b.x0
        &&& exists|i: int| #[trigger] self.blob(a).contains(i) && self.x(i) == b.x1
        &&& exists|i: int| #[trigger] self.blob(a).contains(i) && self.y(i) == b.y0
        &&& exists|i: int| #[trigger] self.blob(a).contains(i) && self.y(i) == b.y1
    }

    /// Cell `a` is the first cell of its blob.
    pub open spec fn leader(self, a: int) -> bool {
        self.marked(a) && forall|i: int| 0 <= i < a ==> !#[trigger] self.connected(a, i)
    }

    /// The first cells of the blobs that start before cell `n`, in order.
    pub open spec fn leaders(self, n: int) -> Seq<int>
        decreases n,
    {
        if n <= 0 {
            Seq::empty()
        } else if self.leader(n - 1) {
            self.leaders(n - 1).push(n - 1)
        } else {
            self.leaders(n - 1)
        }
    }
}

/// A blob's bounding box in cell coordinates, plus the cell count it actually
/// covers (for the fill ratio).
#[derive(Debug, Clone, Copy, PartialEq, Eq, Structural)]
pub struct Blob {
    pub x0: i64,
    pub y0: i64,
    pub x1: i64,
    pub y1: i64,
    pub cells: i64,
}

proof fn lemma_touch_symmetric(g: Grid, a: int, b: int)
    requires
        g.touch(a, b),
    ensures
        g.touch(b, a),
{
}

proof fn lemma_connected_self(g: Grid, a: int)
    requires
        g.marked(a),
    ensures
        g.connected(a, a),
{
    let path = seq![a];
    assert(g.leads(path));
}

/// A path can be walked one cell further.
proof fn lemma_connected_step(g: Grid, a: int, b: int, c: int)
    requires
        g.connected(a, b),
        g.marked(c),
        g.touch(b, c),
    ensures
        g.connected(a, c),
{
    let path = choose|path: Seq<int>| #[trigger]
        g.leads(path) && path[0] == a && path[path.len() - 1] == b;
    let more = path.push(c);
    assert forall|k: int| 0 <= k < more.len() implies g.marked(#[trigger] more[k]) by {
        if k < path.len() {
            assert(more[k] == path[k]);
        }
    }
    assert forall|k: int| 0 < k < more.len() implies g.touch(more[k - 1], #[trigger] more[k]) by {
        if k < path.len() {
            assert(more[k] == path[k]);
            assert(more[k - 1] == path[k - 1]);
        }
    }
    assert(g.leads(more));
    assert(more[0] == a && more[more.len() - 1] == c);
}

/// A set of cells that no marked neighbour leaves holds every cell that a path
/// leads to from inside.
proof fn lemma_closed(g: Grid, s: Set<int>, path: Seq<int>)
    requires
        g.leads(path),
        s.contains(path[0]),
        forall|a: int, b: int|
            #[trigger] s.contains(a) && g.marked(b) && #[trigger] g.touch(a, b) ==> s.contains(b),
    ensures
        s.contains(path[path.len() - 1]),
    decreases path.len(),
{
    if path.len() > 1 {
        let t = path.drop_last();
        assert forall|k: int| 0 <= k < t.len() implies g.marked(#[trigger] t[k]) by {
            assert(t[k] == path[k]);
        }
        assert forall|k: int| 0 < k < t.len() implies g.touch(t[k - 1], #[trigger] t[k]) by {
            assert(t[k] == path[k]);
            assert(t[k - 1] == path[k - 1]);
        }
        lemma_closed(g, s, t);
        let n = path.len() - 1;
        assert(t[t.len() - 1] == path[n - 1]);
        assert(g.marked(path[n]));
        assert(g.touch(path[n - 1], path[n]));
    }
}

/// Connection goes both ways.
proof fn lemma_connected_symmetric(g: Grid, a: int, b: int)
    requires
        g.connected(a, b),
    ensures
        g.connected(b, a),
{
    let path = choose|path: Seq<int>| #[trigger]
        g.leads(path) && path[0] == a && path[path.len() - 1] == b;
    let back = path.reverse();
    assert forall|k: int| 0 <= k < back.len() implies g.marked(#[trigger] back[k]) by {
        assert(back[k] == path[path.len() - 1 - k]);
    }
    assert forall|k: int| 0 < k < back.len() implies g.touch(back[k - 1], #[trigger] back[k]) by {
        let j = path.len() - k;
        assert(back[k] == path[j - 1]);
        assert(back[k - 1] == path[j]);
        assert(g.touch(path[j - 1], path[j]));
    }
    assert(g.leads(back));
}

/// Connected cells are connected to the same cells.
proof fn lemma_connected_transitive(g: Grid, a: int, b: int, c: int)
    requires
        g.connected(a, b),
        g.connected(b, c),
    ensures
        g.connected(a, c),
{
    let path = choose|path: Seq<int>| #[trigger]
        g.leads(path) && path[0] == b && path[path.len() - 1] == c;
    let s = Set::new(|i: int| g.connected(a, i));
    assert forall|i: int, j: int|
        #[trigger] s.contains(i) && g.marked(j) && #[trigger] g.touch(i, j) implies s.contains(
        j,
    ) by {
        lemma_connected_step(g, a, i, j);
    }
    lemma_closed(g, s, path);
}

/// How a flood from `start` stands: `visited` cells are done with, the cells on
/// the `stack` are waiting, and exactly those are seen besides the cells that
/// were seen before.
spec fn flooding(
    g: Grid,
    before: Seq<bool>,
    start: int,
    seen: Seq<bool>,
    stack: Seq<usize>,
    visited: Set<int>,
) -> bool {
    &&& before.len() == g.marks.len()
    &&& seen.len() == g.marks.len()
    &&& forall|i: int|
        0 <= i < seen.len() ==> (#[trigger] seen[i] <==> before[i] || visited.contains(i)
            || waiting(stack, i))
    &&& forall|k: int|
        0 <= k < stack.len() ==> ({
            let i = #[trigger] stack[k] as int;
            g.marked(i) && g.connected(start, i) && !before[i] && !visited.contains(i)
        })
    &&& forall|j: int, k: int| 0 <= j < k < stack.len() ==> #[trigger] stack[j] != #[trigger] stack[k]
    &&& forall|i: int| #[trigger]
        visited.contains(i) ==> g.marked(i) && g.connected(start, i) && !before[i]
    &&& visited.finite()
    &&& visited.contains(start) || waiting(stack, start)
}

/// Cell `i` is on the stack.
spec fn waiting(stack: Seq<usize>, i: int) -> bool {
    exists|k: int| 0 <= k < stack.len() && #[trigger] stack[k] == i
}

/// Every marked neighbour of a visited cell has been seen.
spec fn spread(g: Grid, seen: Seq<bool>, visited: Set<int>) -> bool {
    forall|a: int, b: int|
        #[trigger] visited.contains(a) && g.marked(b) && #[trigger] g.touch(a, b) ==> seen[b]
}

/// The seen cells are marked, and no marked neighbour leaves them.
spec fn closed(g: Grid, seen: Seq<bool>) -> bool {
    &&& seen.len() == g.marks.len()
    &&& forall|a: int| 0 <= a < seen.len() && #[trigger] seen[a] ==> g.marked(a)
    &&& forall|a: int, b: int|
        0 <= a < seen.len() && seen[a] && g.marked(b) && #[trigger] g.touch(a, b) ==> seen[b]
}

/// Put the cell at `(nx, ny)` on the stack if it is there, marked and not seen
/// yet.
fn reach(
    edges: &Vec<bool>,
    seen: &mut Vec<bool>,
    stack: &mut Vec<usize>,
    cols: i64,
    rows: i64,
    nx: i64,
    ny: i64,
    Ghost(before): Ghost<Seq<bool>>,
    Ghost(start): Ghost<int>,
    Ghost(visited): Ghost<Set<int>>,
    Ghost(from): Ghost<int>,
)
    requires
        (Grid { marks: edges@, cols: cols as int, rows: rows as int }).sound(),
        cols <= 0x1000_0000,
        rows <= 0x1000_0000,
        -1 <= nx <= cols,
        -1 <= ny <= rows,
        flooding(
            Grid { marks: edges@, cols: cols as int, rows: rows as int },
            before,
            start,
            old(seen)@,
            old(stack)@,
            visited,
        ),
        visited.contains(from),
        ({
            let g = Grid { marks: edges@, cols: cols as int, rows: rows as int };
            ||| g.y(from) == ny && (g.x(from) - nx == 1 || nx - g.x(from) == 1)
            ||| g.x(from) == nx && (g.y(from) - ny == 1 || ny - g.y(from) == 1)
        }),
    ensures
        flooding(
            Grid { marks: edges@, cols: cols as int, rows: rows as int },
            before,
            start,
            final(seen)@,
            final(stack)@,
            visited,
        ),
        forall|i: int|
            0 <= i < old(seen)@.len() && #[trigger] old(seen)@[i] ==> final(seen)@[i],
        neighbour_seen(
            Grid { marks: edges@, cols: cols as int, rows: rows as int },
            final(seen)@,
            nx as int,
            ny as int,
        ),
{
    let ghost g = Grid { marks: edges@, cols: cols as int, rows: rows as int };
    if nx < 0 || ny < 0 || nx >= cols || ny >= rows {
        return;
    }
    proof {
        lemma_cell(cols as int, nx as int, ny as int);
        lemma_cell_bound(cols as int, rows as int, nx as int, ny as int);
    }
    assert(ny * cols <= 0x1000_0000 * 0x1000_0000) by (nonlinear_arith)
        requires
            0 <= ny <= 0x1000_0000,
            0 <= cols <= 0x1000_0000,
    ;
    let len = edges.len();
    let n = (ny * cols + nx) as usize;
    if edges[n] && !seen[n] {
        let ghost was = seen@;
        let ghost piled = stack@;
        seen.set(n, true);
        stack.push(n);
        proof {
            lemma_connected_step(g, start, from, n as int);
            assert(!waiting(piled, n as int));
            assert forall|i: int| 0 <= i < seen@.len() implies (#[trigger] seen@[i] <==> before[i]
                || visited.contains(i) || waiting(stack@, i)) by {
                if i == n {
                    assert(stack@[piled.len() as int] == i);
                } else {
                    assert(seen@[i] == was[i]);
                    if waiting(stack@, i) {
                        let k = choose|k: int| 0 <= k < stack@.len() && #[trigger] stack@[k] == i;
                        assert(piled[k] == i);
                    }
                    if waiting(piled, i) {
                        let k = choose|k: int| 0 <= k < piled.len() && #[trigger] piled[k] == i;
                        assert(stack@[k] == i);
                    }
                }
            }
            assert forall|k: int| 0 <= k < stack@.len() implies ({
                let i = #[trigger] stack@[k] as int;
                g.marked(i) && g.connected(start, i) && !before[i] && !visited.contains(i)
            }) by {
                if k < piled.len() {
                    assert(stack@[k] == piled[k]);
                } else {
                    assert(!was[n as int]);
                }
            }
            assert forall|j: int, k: int|
                0 <= j < k < stack@.len() implies #[trigger] stack@[j] != #[trigger] stack@[k] by {
                assert(stack@[j] == piled[j]);
                if k < piled.len() {
                    assert(stack@[k] == piled[k]);
                } else if piled[j] == n {
                    assert(waiting(piled, n as int));
                }
            }
            if waiting(piled, start) {
                let k = choose|k: int| 0 <= k < piled.len() && #[trigger] piled[k] == start;
                assert(stack@[k] == start);
            }
        }
    }
}

/// Popping a cell moves it from the stack to the visited cells.
proof fn lemma_pop(
    g: Grid,
    before: Seq<bool>,
    start: int,
    seen: Seq<bool>,
    piled: Seq<usize>,
    done: Set<int>,
)
    requires
        flooding(g, before, start, seen, piled, done),
        piled.len() > 0,
    ensures
        flooding(g, before, start, seen, piled.drop_last(), done.insert(piled.last() as int)),
        !done.contains(piled.last() as int),
{
    let i = piled.last() as int;
    let stack = piled.drop_last();
    let visited = done.insert(i);
    assert(piled[piled.len() - 1] == i);
    assert forall|j: int| 0 <= j < seen.len() implies (#[trigger] seen[j] <==> before[j]
        || visited.contains(j) || waiting(stack, j)) by {
        if waiting(piled, j) && j != i {
            let k = choose|k: int| 0 <= k < piled.len() && #[trigger] piled[k] == j;
            assert(stack[k] == j);
        }
        if waiting(stack, j) {
            let k = choose|k: int| 0 <= k < stack.len() && #[trigger] stack[k] == j;
            assert(piled[k] == j);
        }
        if visited.contains(j) && j == i {
            assert(waiting(piled, j));
        }
    }
    assert forall|k: int| 0 <= k < stack.len() implies ({
        let j = #[trigger] stack[k] as int;
        g.marked(j) && g.connected(start, j) && !before[j] && !visited.contains(j)
    }) by {
        assert(stack[k] == piled[k]);
        assert(piled[k] != piled[piled.len() - 1]);
    }
    assert forall|j: int, k: int| 0 <= j < k < stack.len() implies #[trigger] stack[j]
        != #[trigger] stack[k] by {
        assert(stack[j] == piled[j] && stack[k] == piled[k]);
    }
    if waiting(piled, start) && start != i {
        let k = choose|k: int| 0 <= k < piled.len() && #[trigger] piled[k] == start;
        assert(stack[k] == start);
    }
}

/// Once the four neighbours of cell `i` have been looked at, one after the other,
/// it counts as visited.
proof fn lemma_spread(
    g: Grid,
    seen0: Seq<bool>,
    seen1: Seq<bool>,
    seen2: Seq<bool>,
    seen3: Seq<bool>,
    seen4: Seq<bool>,
    done: Set<int>,
    i: int,
)
    requires
        g.sound(),
        seen0.len() == g.marks.len(),
        seen1.len() == seen0.len(),
        seen2.len() == seen0.len(),
        seen3.len() == seen0.len(),
        spread(g, seen0, done),
        forall|j: int| 0 <= j < seen0.len() && #[trigger] seen0[j] ==> seen1[j],
        forall|j: int| 0 <= j < seen1.len() && #[trigger] seen1[j] ==> seen2[j],
        forall|j: int| 0 <= j < seen2.len() && #[trigger] seen2[j] ==> seen3[j],
        forall|j: int| 0 <= j < seen3.len() && #[trigger] seen3[j] ==> seen4[j],
        neighbour_seen(g, seen1, g.x(i) - 1, g.y(i)),
        neighbour_seen(g, seen2, g.x(i) + 1, g.y(i)),
        neighbour_seen(g, seen3, g.x(i), g.y(i) - 1),
        neighbour_seen(g, seen4, g.x(i), g.y(i) + 1),
    ensures
        spread(g, seen4, done.insert(i)),
{
    assert forall|a: int, b: int|
        #[trigger] done.insert(i).contains(a) && g.marked(b) && #[trigger] g.touch(
            a,
            b,
        ) implies seen4[b] by {
        if a != i {
            assert(done.contains(a));
            assert(seen0[b]);
            assert(seen1[b]);
            assert(seen2[b]);
            assert(seen3[b]);
        } else {
            lemma_row_col(b, g.cols, g.rows);
            if g.y(b) == g.y(i) && g.x(b) == g.x(i) - 1 {
                assert(seen1[b]);
                assert(seen2[b]);
                assert(seen3[b]);
            } else if g.y(b) == g.y(i) && g.x(b) == g.x(i) + 1 {
                assert(seen2[b]);
                assert(seen3[b]);
            } else if g.x(b) == g.x(i) && g.y(b) == g.y(i) - 1 {
                assert(seen3[b]);
            }
        }
    }
}

/// The cell in column `x` of row `y` has been seen, if it is there and marked.
spec fn neighbour_seen(g: Grid, seen: Seq<bool>, x: int, y: int) -> bool {
    0 <= x < g.cols && 0 <= y < g.rows && g.marks[y * g.cols + x] ==> seen[y * g.cols + x]
}

/// Flood-fill the blob of `start`, marking its cells as seen.
#[verifier::rlimit(40)]
fn flood(edges: &Vec<bool>, seen: &mut Vec<bool>, cols: i64, rows: i64, start: usize) -> (b: Blob)
    requires
        (Grid { marks: edges@, cols: cols as int, rows: rows as int }).sound(),
        cols <= 0x1000_0000,
        rows <= 0x1000_0000,
        (Grid { marks: edges@, cols: cols as int, rows: rows as int }).marked(start as int),
        closed(Grid { marks: edges@, cols: cols as int, rows: rows as int }, old(seen)@),
        !old(seen)@[start as int],
    ensures
        (Grid { marks: edges@, cols: cols as int, rows: rows as int }).bounds(b, start as int),
        final(seen)@.len() == old(seen)@.len(),
        forall|i: int|
            0 <= i < old(seen)@.len() ==> (#[trigger] final(seen)@[i] <==> old(seen)@[i] || (Grid {
                marks: edges@,
                cols: cols as int,
                rows: rows as int,
            }).connected(start as int, i)),
{
    let ghost g = Grid { marks: edges@, cols: cols as int, rows: rows as int };
    let ghost before = seen@;
    let ghost n = g.marks.len() as int;
    let ghost s = start as int;
    assert(cols * rows <= 0x1000_0000 * 0x1000_0000) by (nonlinear_arith)
        requires
            0 <= cols <= 0x1000_0000,
            0 <= rows <= 0x1000_0000,
    ;
    let mut stack: Vec<usize> = Vec::new();
    seen.set(start, true);
    stack.push(start);
    let mut x0 = (start as i64) % cols;
    let mut y0 = (start as i64) / cols;
    let mut x1 = x0;
    let mut y1 = y0;
    let mut cells: i64 = 0;
    let ghost mut visited: Set<int> = Set::empty();
    let ghost mut wx0 = s;
    let ghost mut wx1 = s;
    let ghost mut wy0 = s;
    let ghost mut wy1 = s;
    proof {
        lemma_connected_self(g, s);
        assert(stack@[0] == s);
        assert(waiting(stack@, s));
        assert forall|i: int| 0 <= i < seen@.len() implies (#[trigger] seen@[i] <==> before[i]
            || visited.contains(i) || waiting(stack@, i)) by {
            if waiting(stack@, i) {
                assert(i == s);
            }
        }
        assert(spread(g, seen@, visited));
        lemma_int_range(0, n);
    }
    while stack.len() > 0
        invariant
            g == (Grid { marks: edges@, cols: cols as int, rows: rows as int }),
            g.sound(),
            0 < cols <= 0x1000_0000,
            0 < rows <= 0x1000_0000,
            n == g.marks.len(),
            n <= 0x1000_0000 * 0x1000_0000,
            s == start,
            flooding(g, before, s, seen@, stack@, visited),
            spread(g, seen@, visited),
            cells == visited.len(),
            forall|i: int| #[trigger]
                visited.contains(i) ==> x0 <= g.x(i) <= x1 && y0 <= g.y(i) <= y1,
            visited.contains(wx0) || wx0 == s,
            visited.contains(wx1) || wx1 == s,
            visited.contains(wy0) || wy0 == s,
            visited.contains(wy1) || wy1 == s,
            g.x(wx0) == x0,
            g.x(wx1) == x1,
            g.y(wy0) == y0,
            g.y(wy1) == y1,
        decreases n - visited.len(),
    {
        let ghost piled = stack@;
        let ghost done = visited;
        let idx = stack[stack.len() - 1];
        stack.pop();
        assert(stack@ == piled.drop_last());
        let ghost i = idx as int;
        proof {
            assert(piled[piled.len() - 1] == idx);
            visited = done.insert(i);
            lemma_pop(g, before, s, seen@, piled, done);
            // There are no more visited cells than cells.
            assert(visited.subset_of(set_int_range(0, n)));
            lemma_int_range(0, n);
            lemma_len_subset(visited, set_int_range(0, n));
        }
        let cx = (idx as i64) % cols;
        let cy = (idx as i64) / cols;
        proof {
            assert(0 <= cy < rows) by (nonlinear_arith)
                requires
                    cy == idx as int / (cols as int),
                    0 <= idx < cols * rows,
                    cols > 0,
            ;
            if cx < x0 {
                wx0 = i;
            }
            if cx > x1 {
                wx1 = i;
            }
            if cy < y0 {
                wy0 = i;
            }
            if cy > y1 {
                wy1 = i;
            }
        }
        if cx < x0 {
            x0 = cx;
        }
        if cx > x1 {
            x1 = cx;
        }
        if cy < y0 {
            y0 = cy;
        }
        if cy > y1 {
            y1 = cy;
        }
        cells += 1;
        let ghost seen0 = seen@;
        let ghost b0 = before;
        reach(edges, seen, &mut stack, cols, rows, cx - 1, cy, Ghost(b0), Ghost(s), Ghost(visited), Ghost(i));
        let ghost seen1 = seen@;
        reach(edges, seen, &mut stack, cols, rows, cx + 1, cy, Ghost(b0), Ghost(s), Ghost(visited), Ghost(i));
        let ghost seen2 = seen@;
        reach(edges, seen, &mut stack, cols, rows, cx, cy - 1, Ghost(b0), Ghost(s), Ghost(visited), Ghost(i));
        let ghost seen3 = seen@;
        reach(edges, seen, &mut stack, cols, rows, cx, cy + 1, Ghost(b0), Ghost(s), Ghost(visited), Ghost(i));
        proof {
            lemma_spread(g, seen0, seen1, seen2, seen3, seen@, done, i);
        }
    }
    proof {
        assert(stack@.len() == 0);
        assert forall|j: int| !waiting(stack@, j) by {}
        // Nothing leaves the visited cells, so they are the whole blob.
        assert forall|a: int, b: int|
            #[trigger] visited.contains(a) && g.marked(b) && #[trigger] g.touch(
                a,
                b,
            ) implies visited.contains(b) by {
            assert(seen@[b]);
            if before[b] {
                lemma_touch_symmetric(g, a, b);
                assert(g.touch(b, a));
                assert(before[a]);
            }
        }
        assert forall|j: int| g.connected(s, j) implies visited.contains(j) by {
            let path = choose|path: Seq<int>| #[trigger]
                g.leads(path) && path[0] == s && path[path.len() - 1] == j;
            lemma_closed(g, visited, path);
        }
        assert(visited =~= g.blob(s)) by {
            assert forall|j: int| visited.contains(j) <==> g.blob(s).contains(j) by {
                if g.connected(s, j) {
                    assert(visited.contains(j));
                }
            }
        }
        assert(g.blob(s).contains(wx0) && g.blob(s).contains(wx1));
        assert(g.blob(s).contains(wy0) && g.blob(s).contains(wy1));
    }
    Blob { x0, y0, x1, y1, cells }
}

/// A cell on the grid is the one in its column and row.
proof fn lemma_row_col(i: int, cols: int, rows: int)
    requires
        0 < cols,
        0 < rows,
        0 <= i < cols * rows,
    ensures
        i == (i / cols) * cols + i % cols,
        0 <= i / cols < rows,
        0 <= i % cols < cols,
{
    assert(i == (i / cols) * cols + i % cols && 0 <= i / cols < rows && 0 <= i % cols < cols)
        by (nonlinear_arith)
        requires
            0 < cols,
            0 < rows,
            0 <= i < cols * rows,
    ;
}

/// Some marked cell before `n` is connected to `i`.
spec fn reached(g: Grid, n: int, i: int) -> bool {
    exists|j: int| 0 <= j < n && g.marked(j) && #[trigger] g.connected(j, i)
}

/// Both ends of a path are marked.
proof fn lemma_connected_marked(g: Grid, a: int, b: int)
    requires
        g.connected(a, b),
    ensures
        g.marked(a),
        g.marked(b),
{
    let path = choose|path: Seq<int>| #[trigger]
        g.leads(path) && path[0] == a && path[path.len() - 1] == b;
    assert(g.marked(path[0]));
    assert(g.marked(path[path.len() - 1]));
}

/// Flood-fill the edge grid into 4-connected blobs, returning each one's box, in
/// the order of their first cells.
pub fn connected_blobs(edges: &Vec<bool>, cols: i64, rows: i64) -> (blobs: Vec<Blob>)
    requires
        (Grid { marks: edges@, cols: cols as int, rows: rows as int }).sound(),
        cols <= 0x1000_0000,
        rows <= 0x1000_0000,
    ensures
        ({
            let g = Grid { marks: edges@, cols: cols as int, rows: rows as int };
            let leaders = g.leaders(g.marks.len() as int);
            &&& blobs@.len() == leaders.len()
            &&& forall|k: int|
                0 <= k < blobs@.len() ==> g.bounds(#[trigger] blobs@[k], leaders[k])
        }),
{
    let ghost g = Grid { marks: edges@, cols: cols as int, rows: rows as int };
    let mut seen: Vec<bool> = Vec::new();
    let mut i: usize = 0;
    while i < edges.len()
        invariant
            i <= edges@.len(),
            seen@.len() == i,
            forall|j: int| 0 <= j < i ==> !#[trigger] seen@[j],
        decreases edges@.len() - i,
    {
        seen.push(false);
        i += 1;
    }
    let mut blobs: Vec<Blob> = Vec::new();
    let mut start: usize = 0;
    while start < edges.len()
        invariant
            g == (Grid { marks: edges@, cols: cols as int, rows: rows as int }),
            g.sound(),
            cols <= 0x1000_0000,
            rows <= 0x1000_0000,
            start <= edges@.len(),
            seen@.len() == edges@.len(),
            forall|i: int|
                0 <= i < seen@.len() ==> (#[trigger] seen@[i] <==> reached(g, start as int, i)),
            blobs@.len() == g.leaders(start as int).len(),
            forall|k: int|
                0 <= k < blobs@.len() ==> g.bounds(
                    #[trigger] blobs@[k],
                    g.leaders(start as int)[k],
                ),
        decreases edges@.len() - start,
    {
        let ghost s = start as int;
        let ghost old_seen = seen@;
        proof {
            assert(closed(g, seen@)) by {
                assert forall|a: int| 0 <= a < seen@.len() && #[trigger] seen@[a] implies g.marked(
                    a,
                ) by {
                    let j = choose|j: int| 0 <= j < s && g.marked(j) && #[trigger] g.connected(j, a);
                    lemma_connected_marked(g, j, a);
                }
                assert forall|a: int, b: int|
                    0 <= a < seen@.len() && seen@[a] && g.marked(b) && #[trigger] g.touch(
                        a,
                        b,
                    ) implies seen@[b] by {
                    let j = choose|j: int| 0 <= j < s && g.marked(j) && #[trigger] g.connected(j, a);
                    lemma_connected_step(g, j, a, b);
                }
            }
        }
        if edges[start] && !seen[start] {
            let b = flood(edges, &mut seen, cols, rows, start);
            proof {
                assert(g.leader(s)) by {
                    assert forall|i: int| 0 <= i < s implies !#[trigger] g.connected(s, i) by {
                        if g.connected(s, i) {
                            lemma_connected_marked(g, s, i);
                            lemma_connected_symmetric(g, s, i);
                            assert(reached(g, s, s));
                        }
                    }
                }
                assert forall|i: int| 0 <= i < seen@.len() implies (#[trigger] seen@[i] <==> reached(
                    g,
                    s + 1,
                    i,
                )) by {
                    if old_seen[i] {
                        let j = choose|j: int|
                            0 <= j < s && g.marked(j) && #[trigger] g.connected(j, i);
                        assert(g.connected(j, i));
                    } else if g.connected(s, i) {
                    } else if reached(g, s + 1, i) {
                        let j = choose|j: int|
                            0 <= j < s + 1 && g.marked(j) && #[trigger] g.connected(j, i);
                        assert(j < s);
                        assert(reached(g, s, i));
                    }
                }
            }
            blobs.push(b);
        } else {
            proof {
                assert(!g.leader(s)) by {
                    if edges@[s] {
                        assert(seen@[s]);
                        let j = choose|j: int|
                            0 <= j < s && g.marked(j) && #[trigger] g.connected(j, s);
                        lemma_connected_symmetric(g, j, s);
                        assert(g.connected(s, j));
                    }
                }
                assert forall|i: int| 0 <= i < seen@.len() implies (#[trigger] seen@[i] <==> reached(
                    g,
                    s + 1,
                    i,
                )) by {
                    if seen@[i] {
                        let j = choose|j: int|
                            0 <= j < s && g.marked(j) && #[trigger] g.connected(j, i);
                        assert(g.connected(j, i));
                    } else if reached(g, s + 1, i) {
                        let j = choose|j: int|
                            0 <= j < s + 1 && g.marked(j) && #[trigger] g.connected(j, i);
                        if j == s {
                            assert(seen@[s]);
                            let m = choose|m: int|
                                0 <= m < s && g.marked(m) && #[trigger] g.connected(m, s);
                            lemma_connected_transitive(g, m, s, i);
                            assert(reached(g, s, i));
                        } else {
                            assert(reached(g, s, i));
                        }
                    }
                }
            }
        }
        start += 1;
    }
    blobs
}

// --- Icons ----------------------------------------------------------------

/// How many cells of columns `[x0, x1)` in row `y` meet `p`.
pub open spec fn count_row(p: spec_fn(int, int) -> bool, y: int, x0: int, x1: int) -> int
    decreases x1 - x0,
{
    if x1 <= x0 {
        0
    } else {
        count_row(p, y, x0, x1 - 1) + if p(x1 - 1, y) {
            1int
        } else {
            0int
        }
    }
}

/// How many cells of columns `[x0, x1)` in rows `[y0, y1)` meet `p`.
pub open spec fn count_in(p: spec_fn(int, int) -> bool, x0: int, x1: int, y0: int, y1: int) -> int
    decreases y1 - y0,
{
    if y1 <= y0 {
        0
    } else {
        count_in(p, x0, x1, y0, y1 - 1) + count_row(p, y1 - 1, x0, x1)
    }
}

impl Grid {
    /// The box lies on the grid.
    pub open spec fn has_box(self, b: Blob) -> bool {
        0 <= b.x0 <= b.x1 < self.cols && 0 <= b.y0 <= b.y1 < self.rows
    }

    /// Cell `(x, y)` is on the grid but not in the box `b`.
    pub open spec fn beside(self, b: Blob, x: int, y: int) -> bool {
        &&& x < b.x0 || x > b.x1 || y < b.y0 || y > b.y1
        &&& 0 <= x < self.cols
        &&& 0 <= y < self.rows
    }

    /// How many cells lie in the one-cell ring just outside the box `b`.
    pub open spec fn ring(self, b: Blob) -> int {
        count_in(
            |x: int, y: int| self.beside(b, x, y),
            b.x0 - 1,
            b.x1 + 2,
            b.y0 - 1,
            b.y1 + 2,
        )
    }

    /// How many of them are marked.
    pub open spec fn busy_ring(self, b: Blob) -> int {
        count_in(
            |x: int, y: int| self.beside(b, x, y) && self.marks[y * self.cols + x],
            b.x0 - 1,
            b.x1 + 2,
            b.y0 - 1,
            b.y1 + 2,
        )
    }

    /// The bounding box of the blob of cell `a`.
    pub open spec fn blob_of(self, a: int) -> Blob {
        choose|b: Blob| self.bounds(b, a)
    }

    /// The bounding boxes of all the blobs, in the order of their first cells.
    pub open spec fn blobs(self) -> Seq<Blob> {
        self.leaders(self.marks.len() as int).map_values(|a: int| self.blob_of(a))
    }
}

/// A blob has one bounding box.
proof fn lemma_bounds_unique(g: Grid, b: Blob, a: int)
    requires
        g.bounds(b, a),
    ensures
        g.blob_of(a) == b,
{
    let c = g.blob_of(a);
    assert(g.bounds(c, a));
}

/// A bounding box lies on the grid.
proof fn lemma_bounds_on_grid(g: Grid, b: Blob, a: int)
    requires
        g.sound(),
        g.bounds(b, a),
    ensures
        g.has_box(b),
{
    let i = choose|i: int| #[trigger] g.blob(a).contains(i) && g.x(i) == b.x0;
    let j = choose|j: int| #[trigger] g.blob(a).contains(j) && g.x(j) == b.x1;
    let k = choose|k: int| #[trigger] g.blob(a).contains(k) && g.y(k) == b.y0;
    let l = choose|l: int| #[trigger] g.blob(a).contains(l) && g.y(l) == b.y1;
    lemma_row_col(i, g.cols, g.rows);
    lemma_row_col(j, g.cols, g.rows);
    lemma_row_col(k, g.cols, g.rows);
    lemma_row_col(l, g.cols, g.rows);
}

/// The pixels that the box of a blob covers, in absolute coordinates.
pub open spec fn blob_rect(b: Blob, region: Rect) -> Rect {
    Rect {
        x: (region.x + b.x0 * CELL) as i32,
        y: (region.y + b.y0 * CELL) as i32,
        width: ((b.x1 - b.x0 + 1) * CELL) as i32,
        height: ((b.y1 - b.y0 + 1) * CELL) as i32,
    }
}

/// A pixel box is plausibly an icon: within the size band, at least `min_size` on
/// each side, and the longer side at most 3.2 times the shorter.
pub open spec fn icon_sized(w: int, h: int, min_size: int) -> bool {
    &&& greater(MIN_ICON as int, min_size) <= w <= MAX_ICON
    &&& greater(MIN_ICON as int, min_size) <= h <= MAX_ICON
    &&& 5 * greater(w, h) <= 16 * lesser(w, h)
}

/// More than 35 percent of `rect` lies on an already-hinted text box.
pub open spec fn on_text(rect: Rect, text: Seq<Element>) -> bool {
    exists|i: int|
        0 <= i < text.len() && 20 * shared_area(rect, (#[trigger] text[i]).rect) > 7 * greater(
            rect.surface(),
            1,
        )
}

/// The blob looks like an icon: icon-sized, filling at least 30 percent of its
/// box, at most 22 percent of the ring around it busy, and not on text.
pub open spec fn icon_like(g: Grid, b: Blob, region: Rect, text: Seq<Element>, min_size: int) -> bool {
    &&& icon_sized((b.x1 - b.x0 + 1) * CELL, (b.y1 - b.y0 + 1) * CELL, min_size)
    &&& 10 * b.cells >= 3 * ((b.x1 - b.x0 + 1) * (b.y1 - b.y0 + 1))
    &&& 50 * g.busy_ring(b) <= 11 * g.ring(b)
    &&& !on_text(blob_rect(b, region), text)
}

/// The first [`MAX_ICONS`] items of `s`.
pub open spec fn capped<T>(s: Seq<T>) -> Seq<T> {
    if s.len() <= MAX_ICONS {
        s
    } else {
        s.take(MAX_ICONS as int)
    }
}

/// What is found in an image of positive size.
pub open spec fn icons_in(image: Image, region: Rect, text: Seq<Element>, min_size: int) -> Seq<Rect> {
    let g = Grid { marks: image.edges(), cols: image.cols(), rows: image.rows() };
    capped(g.blobs().filter(|b: Blob| icon_like(g, b, region, text, min_size))).map_values(
        |b: Blob| blob_rect(b, region),
    )
}

/// An icon is hinted without a text.
pub open spec fn icon_shape(r: Rect) -> (Rect, Seq<char>) {
    (r, Seq::empty())
}

proof fn lemma_count_row(p: spec_fn(int, int) -> bool, y: int, x0: int, x1: int)
    requires
        x0 <= x1,
    ensures
        0 <= count_row(p, y, x0, x1) <= x1 - x0,
    decreases x1 - x0,
{
    if x1 > x0 {
        lemma_count_row(p, y, x0, x1 - 1);
    }
}

/// How much of the one-cell ring just outside the box holds an edge: the busy
/// cells and all of them. Few are busy for a control surrounded by padding, many
/// for a fragment buried in text.
fn ring_busy_fraction(edges: &Vec<bool>, cols: i64, rows: i64, b: &Blob) -> (f: (i64, i64))
    requires
        (Grid { marks: edges@, cols: cols as int, rows: rows as int }).sound(),
        cols <= 0x1000_0000,
        rows <= 0x1000_0000,
        (Grid { marks: edges@, cols: cols as int, rows: rows as int }).has_box(*b),
    ensures
        f.0 == (Grid { marks: edges@, cols: cols as int, rows: rows as int }).busy_ring(*b),
        f.1 == (Grid { marks: edges@, cols: cols as int, rows: rows as int }).ring(*b),
        0 <= f.0 <= 0x1000_0000_0000_0000,
        0 <= f.1 <= 0x1000_0000_0000_0000,
{
    let ghost g = Grid { marks: edges@, cols: cols as int, rows: rows as int };
    let ghost pt = |x: int, y: int| g.beside(*b, x, y);
    let ghost pb = |x: int, y: int| g.beside(*b, x, y) && g.marks[y * g.cols + x];
    let len = edges.len();
    let mut busy: i64 = 0;
    let mut total: i64 = 0;
    let x0 = b.x0 - 1;
    let x1 = b.x1 + 2;
    let y0 = b.y0 - 1;
    let y1 = b.y1 + 2;
    let mut cy = y0;
    while cy < y1
        invariant
            g == (Grid { marks: edges@, cols: cols as int, rows: rows as int }),
            g.sound(),
            g.has_box(*b),
            cols <= 0x1000_0000,
            rows <= 0x1000_0000,
            len == edges@.len(),
            pt == (|x: int, y: int| g.beside(*b, x, y)),
            pb == (|x: int, y: int| g.beside(*b, x, y) && g.marks[y * g.cols + x]),
            x0 == b.x0 - 1,
            x1 == b.x1 + 2,
            y0 == b.y0 - 1,
            y1 == b.y1 + 2,
            y0 <= cy <= y1,
            total == count_in(pt, x0 as int, x1 as int, y0 as int, cy as int),
            busy == count_in(pb, x0 as int, x1 as int, y0 as int, cy as int),
            0 <= total <= (cy - y0) * 0x2000_0000,
            0 <= busy <= (cy - y0) * 0x2000_0000,
        decreases y1 - cy,
    {
        let ghost t0 = total;
        let ghost b0 = busy;
        let mut cx = x0;
        while cx < x1
            invariant
                g == (Grid { marks: edges@, cols: cols as int, rows: rows as int }),
                g.sound(),
                g.has_box(*b),
                cols <= 0x1000_0000,
                rows <= 0x1000_0000,
                len == edges@.len(),
                pt == (|x: int, y: int| g.beside(*b, x, y)),
                pb == (|x: int, y: int| g.beside(*b, x, y) && g.marks[y * g.cols + x]),
                x0 == b.x0 - 1,
                x1 == b.x1 + 2,
                x0 <= cx <= x1,
                -1 <= cy <= rows,
                0 <= t0 <= 0x1000_0002 * 0x2000_0000,
                0 <= b0 <= 0x1000_0002 * 0x2000_0000,
                total == t0 + count_row(pt, cy as int, x0 as int, cx as int),
                busy == b0 + count_row(pb, cy as int, x0 as int, cx as int),
                t0 <= total <= t0 + (cx - x0),
                b0 <= busy <= b0 + (cx - x0),
            decreases x1 - cx,
        {
            // Only the cells on the ring, not the interior.
            let on_ring = cx < b.x0 || cx > b.x1 || cy < b.y0 || cy > b.y1;
            if on_ring && cx >= 0 && cy >= 0 && cx < cols && cy < rows {
                proof {
                    lemma_cell_bound(cols as int, rows as int, cx as int, cy as int);
                    assert(cy * cols <= 0x1000_0000 * 0x1000_0000) by (nonlinear_arith)
                        requires
                            0 <= cy <= 0x1000_0000,
                            0 <= cols <= 0x1000_0000,
                    ;
                }
                total += 1;
                if edges[(cy * cols + cx) as usize] {
                    busy += 1;
                }
            }
            cx += 1;
        }
        cy += 1;
    }
    (busy, total)
}

/// Whether a pixel rect is plausibly an icon: within the size band, not too
/// elongated, and at least `min_size` on each side.
fn icon_shaped(w: i64, h: i64, min_size: i32) -> (r: bool)
    ensures
        r == icon_sized(w as int, h as int, min_size as int),
{
    let least = max_i32(MIN_ICON, min_size) as i64;
    if w < least || h < least {
        return false;
    }
    if w > MAX_ICON as i64 || h > MAX_ICON as i64 {
        return false;
    }
    if w >= h {
        5 * w <= 16 * h
    } else {
        5 * h <= 16 * w
    }
}

/// Whether `rect` sits mostly on top of an already-hinted text box.
fn overlaps_text(rect: Rect, text: &[Element]) -> (r: bool)
    ensures
        r == on_text(rect, text@),
{
    let own = rect.area() as i128;
    let area = if own > 1 {
        own
    } else {
        1
    };
    let mut i: usize = 0;
    while i < text.len()
        invariant
            i <= text@.len(),
            area == greater(rect.surface(), 1),
            area <= 0x8000_0000_0000_0000,
            forall|j: int|
                0 <= j < i ==> 20 * shared_area(rect, (#[trigger] text@[j]).rect) <= 7 * greater(
                    rect.surface(),
                    1,
                ),
        decreases text@.len() - i,
    {
        let inter = match rect.clamp_to(text[i].rect) {
            Some(part) => part.area() as i128,
            None => 0,
        };
        if 20 * inter > 7 * area {
            assert(20 * shared_area(rect, text@[i as int].rect) > 7 * greater(rect.surface(), 1));
            return true;
        }
        i += 1;
    }
    false
}

/// Whether a blob looks like an icon.
fn looks_like_icon(
    edges: &Vec<bool>,
    cols: i64,
    rows: i64,
    b: &Blob,
    rect: Rect,
    text: &[Element],
    min_size: i32,
    Ghost(region): Ghost<Rect>,
) -> (r: bool)
    requires
        (Grid { marks: edges@, cols: cols as int, rows: rows as int }).sound(),
        cols <= 0x1000_0000,
        rows <= 0x1000_0000,
        (Grid { marks: edges@, cols: cols as int, rows: rows as int }).has_box(*b),
        rect == blob_rect(*b, region),
        0 <= b.cells <= 0x0100_0000_0000_0000,
    ensures
        r == icon_like(
            Grid { marks: edges@, cols: cols as int, rows: rows as int },
            *b,
            region,
            text@,
            min_size as int,
        ),
{
    let w = b.x1 - b.x0 + 1;
    let h = b.y1 - b.y0 + 1;
    if !icon_shaped(w * CELL, h * CELL, min_size) {
        return false;
    }
    assert(w <= 10 && h <= 10);
    assert(0 <= w * h <= 100) by (nonlinear_arith)
        requires
            0 <= w <= 10,
            0 <= h <= 10,
    ;
    if 10 * b.cells < 3 * (w * h) {
        return false;
    }
    let (busy, total) = ring_busy_fraction(edges, cols, rows, b);
    if 50 * (busy as i128) > 11 * (total as i128) {
        return false;  // embedded in text / dense UI, not a standalone icon
    }
    !overlaps_text(rect, text)
}

/// Stopping at the cap, or at the end, leaves the capped list.
proof fn lemma_capped(blobs: Seq<Blob>, like: spec_fn(Blob) -> bool, i: int, n: nat)
    requires
        0 <= i <= blobs.len(),
        blobs.take(i).filter(like).len() == n,
        n <= MAX_ICONS,
        i == blobs.len() || n == MAX_ICONS,
    ensures
        capped(blobs.filter(like)) == blobs.take(i).filter(like),
{
    let all = blobs.filter(like);
    let some = blobs.take(i).filter(like);
    let rest = blobs.skip(i);
    assert(blobs == blobs.take(i) + rest);
    Seq::filter_distributes_over_add(blobs.take(i), rest, like);
    if i == blobs.len() {
        assert(blobs.take(i) == blobs);
    } else {
        assert(all.take(MAX_ICONS as int) == some);
        if all.len() == MAX_ICONS {
            assert(all == some);
        }
    }
}

/// Find icon-like clickable regions in `rgb` (tight RGB, `width`×`height`), in
/// absolute coordinates offset by `region`'s origin, excluding anything that
/// overlaps the already-detected `text` boxes.
#[verifier::rlimit(40)]
pub fn detect(
    rgb: &[u8],
    width: i32,
    height: i32,
    region: Rect,
    text: &[Element],
    min_size: i32,
) -> (r: Vec<Element>)
    requires
        fits_i32(region.x + width),
        fits_i32(region.y + height),
    ensures
        width <= 0 || height <= 0 ==> r@.len() == 0,
        width > 0 && height > 0 ==> shapes(r@) == icons_in(
            Image { rgb: rgb@, w: width as int, h: height as int },
            region,
            text@,
            min_size as int,
        ).map_values(|r: Rect| icon_shape(r)),
{
    let mut icons: Vec<Element> = Vec::new();
    if width <= 0 || height <= 0 {
        return icons;
    }
    let cols = if width as i64 / CELL > 1 {
        width as i64 / CELL
    } else {
        1
    };
    let rows = if height as i64 / CELL > 1 {
        height as i64 / CELL
    } else {
        1
    };
    let ghost image = Image { rgb: rgb@, w: width as int, h: height as int };
    assert(0 < cols * rows <= 0x1000_0000 * 0x1000_0000) by (nonlinear_arith)
        requires
            0 < cols <= 0x1000_0000,
            0 < rows <= 0x1000_0000,
    ;
    let edges = edge_cells(rgb, width, height, cols, rows);
    let ghost g = Grid { marks: edges@, cols: cols as int, rows: rows as int };
    let blobs = connected_blobs(&edges, cols, rows);
    let ghost like = |b: Blob| icon_like(g, b, region, text@, min_size as int);
    let ghost to_shape = |b: Blob| icon_shape(blob_rect(b, region));
    proof {
        let leaders = g.leaders(g.marks.len() as int);
        assert forall|k: int| 0 <= k < blobs@.len() implies #[trigger] blobs@[k] == g.blobs()[k] by {
            lemma_bounds_unique(g, blobs@[k], leaders[k]);
        }
        assert(blobs@ == g.blobs());
    }
    let mut i: usize = 0;
    proof {
        assert(blobs@.take(0).filter(like).len() == 0) by {
            reveal(Seq::filter);
        }
        assert(shapes(icons@) == blobs@.take(0).filter(like).map_values(to_shape));
    }
    while i < blobs.len() && icons.len() < MAX_ICONS
        invariant
            fits_i32(region.x + width),
            fits_i32(region.y + height),
            0 < width,
            0 < height,
            cols == cells_along(width as int),
            rows == cells_along(height as int),
            g == (Grid { marks: edges@, cols: cols as int, rows: rows as int }),
            g.sound(),
            g.marks.len() <= 0x1000_0000 * 0x1000_0000,
            like == (|b: Blob| icon_like(g, b, region, text@, min_size as int)),
            to_shape == (|b: Blob| icon_shape(blob_rect(b, region))),
            i <= blobs@.len(),
            blobs@ == g.blobs(),
            blobs@.len() == g.leaders(g.marks.len() as int).len(),
            forall|k: int|
                0 <= k < blobs@.len() ==> g.bounds(
                    #[trigger] blobs@[k],
                    g.leaders(g.marks.len() as int)[k],
                ),
            icons@.len() <= MAX_ICONS,
            shapes(icons@) == blobs@.take(i as int).filter(like).map_values(to_shape),
        decreases blobs@.len() - i,
    {
        let b = blobs[i];
        let ghost a = g.leaders(g.marks.len() as int)[i as int];
        let ghost kept = blobs@.take(i as int).filter(like);
        proof {
            reveal(Seq::filter);
            lemma_bounds_on_grid(g, b, a);
            lemma_int_range(0, g.marks.len() as int);
            lemma_len_subset(g.blob(a), set_int_range(0, g.marks.len() as int));
            assert(blobs@.take(i + 1).drop_last() == blobs@.take(i as int));
            assert(blobs@.take(i + 1).last() == b);
        }
        // Cell-space box -> absolute pixel rect.
        let rect = Rect::new(
            (region.x as i64 + b.x0 * CELL) as i32,
            (region.y as i64 + b.y0 * CELL) as i32,
            ((b.x1 - b.x0 + 1) * CELL) as i32,
            ((b.y1 - b.y0 + 1) * CELL) as i32,
        );
        if looks_like_icon(&edges, cols, rows, &b, rect, text, min_size, Ghost(region)) {
            let ghost before = icons@;
            let e = Element::new(rect, "");
            proof {
                reveal_strlit("");
                assert(e.text@ == Seq::<char>::empty());
            }
            icons.push(e);
            proof {
                assert(shapes(icons@) == shapes(before).push(shape(e)));
                assert(kept.push(b).map_values(to_shape) == kept.map_values(to_shape).push(
                    to_shape(b),
                ));
            }
        }
        i += 1;
    }
    proof {
        assert(shapes(icons@).len() == icons@.len());
        lemma_capped(blobs@, like, i as int, icons@.len());
        let some = blobs@.take(i as int).filter(like);
        let rects = some.map_values(|b: Blob| blob_rect(b, region));
        assert(rects.map_values(|r: Rect| icon_shape(r)) == some.map_values(to_shape));
    }
    icons
}

// --- Laws -----------------------------------------------------------------

/// A flat background holds no icon: where all pixels are about equally bright,
/// nothing is found.
pub proof fn law_a_flat_image_has_no_icons(
    image: Image,
    region: Rect,
    text: Seq<Element>,
    min_size: int,
    low: int,
)
    requires
        image.w > 0,
        image.h > 0,
        forall|x: int, y: int|
            0 <= x < image.w && 0 <= y < image.h ==> low <= #[trigger] image.brightness(x, y) < low
                + EDGE_SPREAD,
    ensures
        icons_in(image, region, text, min_size).len() == 0,
{
    let g = Grid { marks: image.edges(), cols: image.cols(), rows: image.rows() };
    assert forall|i: int| 0 <= i < g.marks.len() implies !#[trigger] g.marks[i] by {
        let cx = i % image.cols();
        let cy = i / image.cols();
        assert(cx >= 0 && cy >= 0) by (nonlinear_arith)
            requires
                cx == i % image.cols(),
                cy == i / image.cols(),
                image.cols() >= 1,
                i >= 0,
        ;
        if image.edge(cx, cy) {
            let (ax, ay, bx, by) = choose|ax: int, ay: int, bx: int, by: int|
                #![trigger image.sampled(cx, cy, ax, ay), image.sampled(cx, cy, bx, by)]
                image.sampled(cx, cy, ax, ay) && image.sampled(cx, cy, bx, by) && image.brightness(
                    ax,
                    ay,
                ) - image.brightness(bx, by) >= EDGE_SPREAD;
            assert(false);
        }
    }
    lemma_no_leaders(g, g.marks.len() as int);
    let like = |b: Blob| icon_like(g, b, region, text, min_size);
    assert(g.blobs().len() == 0);
    g.blobs().lemma_filter_len(like);
}

proof fn lemma_no_leaders(g: Grid, n: int)
    requires
        n <= g.marks.len(),
        forall|i: int| 0 <= i < g.marks.len() ==> !#[trigger] g.marks[i],
    ensures
        g.leaders(n).len() == 0,
    decreases n,
{
    if n > 0 {
        lemma_no_leaders(g, n - 1);
        assert(!g.marks[n - 1]);
    }
}

/// Whatever is found is icon-sized, does not sit on hinted text, and there are
/// never more finds than the cap.
pub proof fn law_icons_are_icon_sized_and_off_text(
    image: Image,
    region: Rect,
    text: Seq<Element>,
    min_size: int,
    i: int,
)
    requires
        0 <= i < icons_in(image, region, text, min_size).len(),
    ensures
        icon_sized(
            icons_in(image, region, text, min_size)[i].width as int,
            icons_in(image, region, text, min_size)[i].height as int,
            min_size,
        ),
        !on_text(icons_in(image, region, text, min_size)[i], text),
        icons_in(image, region, text, min_size).len() <= MAX_ICONS,
{
    let g = Grid { marks: image.edges(), cols: image.cols(), rows: image.rows() };
    let like = |b: Blob| icon_like(g, b, region, text, min_size);
    let all = g.blobs().filter(like);
    g.blobs().lemma_filter_pred(like, i);
    let b = capped(all)[i];
    assert(b == all[i]);
    assert(like(b));
    assert(icons_in(image, region, text, min_size)[i] == blob_rect(b, region));
}

/// No cell is in two blobs.
pub proof fn law_blobs_do_not_share_cells(g: Grid, a: int, b: int, i: int)
    requires
        g.leader(a),
        g.leader(b),
        a != b,
    ensures
        !(g.blob(a).contains(i) && g.blob(b).contains(i)),
{
    if g.connected(a, i) && g.connected(b, i) {
        lemma_connected_symmetric(g, b, i);
        lemma_connected_transitive(g, a, i, b);
        lemma_connected_symmetric(g, a, b);
        if a < b {
            assert(!g.connected(b, a));
        } else {
            assert(!g.connected(a, b));
        }
    }
}

/// A box is icon-sized exactly if both its sides lie between 16 and 80 pixels, and
/// above the configured minimum, and the longer is at most 3.2 times the shorter.
/// Which of them is the longer does not matter.
pub proof fn law_icons_may_lie_or_stand(w: int, h: int, min_size: int)
    ensures
        icon_sized(w, h, min_size) == icon_sized(h, w, min_size),
        icon_sized(w, h, min_size) <==> {
            &&& 16 <= w <= 80 && 16 <= h <= 80
            &&& min_size <= w && min_size <= h
            &&& 10 * w <= 32 * h && 10 * h <= 32 * w
        },
{
}

/// A side is cut into cells of 8 pixels, whole ones only, unless it is shorter than
/// one.
pub proof fn law_cells_are_eight_pixels(len: int)
    requires
        len > 0,
    ensures
        len >= 8 ==> 8 * cells_along(len) <= len < 8 * (cells_along(len) + 1),
        len < 8 ==> cells_along(len) == 1,
{
}

/// Pixel `(x, y)` is one of those that are looked at: every other one, on both axes,
/// that the image has.
pub open spec fn looked_at(image: Image, x: int, y: int) -> bool {
    &&& 0 <= x < image.w && 0 <= y < image.h
    &&& x % 2 == 0 && y % 2 == 0
    &&& (y * image.w + x) * 3 + 2 < image.rgb.len()
}

/// The light of a pixel: its red, green and blue together.
pub open spec fn light_at(image: Image, x: int, y: int) -> int {
    image.rgb[(y * image.w + x) * 3] + image.rgb[(y * image.w + x) * 3 + 1] + image.rgb[(y * image.w
        + x) * 3 + 2]
}

/// A cell holds an edge exactly if two of its pixels that are looked at differ in
/// light by 90 or more.
pub proof fn law_an_edge_is_a_spread_of_light(image: Image, cx: int, cy: int)
    requires
        0 <= cx,
        0 <= cy,
    ensures
        image.edge(cx, cy) <==> exists|x1: int, y1: int, x2: int, y2: int|
            #![trigger looked_at(image, x1, y1), looked_at(image, x2, y2)]
            looked_at(image, x1, y1) && looked_at(image, x2, y2) && x1 / 8 == cx && x2 / 8 == cx && y1
                / 8 == cy && y2 / 8 == cy && light_at(image, x1, y1) - light_at(image, x2, y2) >= 90,
{
    assert forall|x: int, y: int| #[trigger] image.sampled(cx, cy, x, y) <==> looked_at(image, x, y) && x
        / 8 == cx && y / 8 == cy by {}
    if image.edge(cx, cy) {
        let (x1, y1, x2, y2) = choose|x1: int, y1: int, x2: int, y2: int|
            #![trigger image.sampled(cx, cy, x1, y1), image.sampled(cx, cy, x2, y2)]
            image.sampled(cx, cy, x1, y1) && image.sampled(cx, cy, x2, y2) && image.brightness(x1, y1)
                - image.brightness(x2, y2) >= EDGE_SPREAD;
        assert(looked_at(image, x1, y1) && looked_at(image, x2, y2));
    }
    if exists|x1: int, y1: int, x2: int, y2: int|
        #![trigger looked_at(image, x1, y1), looked_at(image, x2, y2)]
        looked_at(image, x1, y1) && looked_at(image, x2, y2) && x1 / 8 == cx && x2 / 8 == cx && y1 / 8
            == cy && y2 / 8 == cy && light_at(image, x1, y1) - light_at(image, x2, y2) >= 90 {
        let (x1, y1, x2, y2) = choose|x1: int, y1: int, x2: int, y2: int|
            #![trigger looked_at(image, x1, y1), looked_at(image, x2, y2)]
            looked_at(image, x1, y1) && looked_at(image, x2, y2) && x1 / 8 == cx && x2 / 8 == cx && y1
                / 8 == cy && y2 / 8 == cy && light_at(image, x1, y1) - light_at(image, x2, y2) >= 90;
        assert(image.sampled(cx, cy, x1, y1) && image.sampled(cx, cy, x2, y2));
    }
}

/// The marks of an image are its edges, row by row: cell `(cx, cy)` has its mark
/// where its row and column say.
pub proof fn law_marks_are_the_edges_row_by_row(image: Image, cx: int, cy: int)
    requires
        0 <= cx < image.cols(),
        0 <= cy < image.rows(),
    ensures
        image.edges().len() == cells_along(image.w) * cells_along(image.h),
        0 <= cy * image.cols() + cx < image.edges().len(),
        image.edges()[cy * image.cols() + cx] == image.edge(cx, cy),
{
    lemma_cell(image.cols(), cx, cy);
    lemma_cell_bound(image.cols(), image.rows(), cx, cy);
}

/// Cells touch exactly if they share a side: one step apart on one axis, level on the
/// other.
pub proof fn law_cells_touch_along_a_side(g: Grid, ax: int, ay: int, bx: int, by: int)
    requires
        0 <= ax < g.cols,
        0 <= bx < g.cols,
        0 <= ay,
        0 <= by,
    ensures
        g.touch(ay * g.cols + ax, by * g.cols + bx) <==> (ay == by && (ax == bx + 1 || bx == ax + 1))
            || (ax == bx && (ay == by + 1 || by == ay + 1)),
{
    lemma_cell(g.cols, ax, ay);
    lemma_cell(g.cols, bx, by);
}

/// Every marked cell is in the blob of some first cell, together with exactly the
/// cells that a way over touching marked cells leads to.
pub proof fn law_every_marked_cell_is_in_a_blob(g: Grid, i: int)
    requires
        g.marked(i),
    ensures
        exists|a: int| #[trigger] g.leader(a) && a <= i && g.blob(a).contains(i),
    decreases i,
{
    lemma_connected_self(g, i);
    if g.leader(i) {
        assert(g.blob(i).contains(i));
    } else {
        let j = choose|j: int| 0 <= j < i && #[trigger] g.connected(i, j);
        lemma_connected_marked(g, i, j);
        law_every_marked_cell_is_in_a_blob(g, j);
        let a = choose|a: int| #[trigger] g.leader(a) && a <= j && g.blob(a).contains(j);
        lemma_connected_symmetric(g, i, j);
        lemma_connected_transitive(g, a, j, i);
        assert(g.leader(a) && a <= i && g.blob(a).contains(i));
    }
}

/// Touching marked cells are in the same blob.
pub proof fn law_touching_cells_share_a_blob(g: Grid, a: int, i: int, j: int)
    requires
        g.blob(a).contains(i),
        g.marked(j),
        g.touch(i, j),
    ensures
        g.blob(a).contains(j),
{
    lemma_connected_step(g, a, i, j);
}

/// The blobs are numbered by their first cells: each first cell once, in order.
pub proof fn law_first_cells_are_listed_in_order(g: Grid, n: int, a: int)
    requires
        n >= 0,
    ensures
        g.leaders(n).contains(a) <==> 0 <= a < n && g.leader(a),
        forall|i: int, j: int| 0 <= i < j < g.leaders(n).len() ==> g.leaders(n)[i] < g.leaders(n)[j],
    decreases n,
{
    if n > 0 {
        law_first_cells_are_listed_in_order(g, n - 1, a);
        let before = g.leaders(n - 1);
        let all = g.leaders(n);
        if all.contains(a) {
            let i = choose|i: int| 0 <= i < all.len() && all[i] == a;
            if i < before.len() {
                assert(before[i] == a);
            }
        }
        if before.contains(a) {
            let i = choose|i: int| 0 <= i < before.len() && before[i] == a;
            assert(all[i] == a);
        }
        if a == n - 1 && g.leader(a) {
            assert(all[before.len() as int] == a);
        }
        assert forall|i: int, j: int| 0 <= i < j < all.len() implies all[i] < all[j] by {
            if j < before.len() {
                assert(before[i] < before[j]);
            } else {
                assert(all[i] == before[i]);
                assert(before.contains(before[i]));
                law_first_cells_are_listed_in_order(g, n - 1, before[i]);
            }
        }
    }
}

/// The box of a blob is the least around its cells, and counts them.
pub proof fn law_a_blob_box_is_the_least_around_its_cells(g: Grid, b: Blob, a: int, i: int)
    requires
        g.bounds(b, a),
        g.cols > 0,
    ensures
        g.blob(a).contains(i) ==> b.x0 <= i % g.cols <= b.x1 && b.y0 <= i / g.cols <= b.y1,
        exists|k: int| #[trigger] g.blob(a).contains(k) && k % g.cols == b.x0,
        exists|k: int| #[trigger] g.blob(a).contains(k) && k % g.cols == b.x1,
        exists|k: int| #[trigger] g.blob(a).contains(k) && k / g.cols == b.y0,
        exists|k: int| #[trigger] g.blob(a).contains(k) && k / g.cols == b.y1,
        b.cells == g.blob(a).len(),
{
    let l = choose|k: int| #[trigger] g.blob(a).contains(k) && g.x(k) == b.x0;
    assert(g.blob(a).contains(l) && l % g.cols == b.x0);
    let r = choose|k: int| #[trigger] g.blob(a).contains(k) && g.x(k) == b.x1;
    assert(g.blob(a).contains(r) && r % g.cols == b.x1);
    let t = choose|k: int| #[trigger] g.blob(a).contains(k) && g.y(k) == b.y0;
    assert(g.blob(a).contains(t) && t / g.cols == b.y0);
    let u = choose|k: int| #[trigger] g.blob(a).contains(k) && g.y(k) == b.y1;
    assert(g.blob(a).contains(u) && u / g.cols == b.y1);
}

/// The cells of columns `[x0, x1)` in rows `[y0, y1)` that meet `p`.
spec fn cells_in(p: spec_fn(int, int) -> bool, x0: int, x1: int, y0: int, y1: int) -> Set<(int, int)> {
    Set::new(|c: (int, int)| x0 <= c.0 < x1 && y0 <= c.1 < y1 && p(c.0, c.1))
}

spec fn cells_of_row(p: spec_fn(int, int) -> bool, y: int, x0: int, x1: int) -> Set<(int, int)> {
    Set::new(|c: (int, int)| c.1 == y && x0 <= c.0 < x1 && p(c.0, c.1))
}

proof fn lemma_cells_of_row(
    p: spec_fn(int, int) -> bool,
    before: Set<(int, int)>,
    y: int,
    x0: int,
    x1: int,
)
    requires
        before.finite(),
        forall|c: (int, int)| #[trigger] before.contains(c) ==> c.1 != y,
    ensures
        before.union(cells_of_row(p, y, x0, x1)).finite(),
        before.union(cells_of_row(p, y, x0, x1)).len() == before.len() + count_row(p, y, x0, x1),
    decreases x1 - x0,
{
    let all = before.union(cells_of_row(p, y, x0, x1));
    if x1 <= x0 {
        assert(all =~= before);
    } else {
        lemma_cells_of_row(p, before, y, x0, x1 - 1);
        let less = before.union(cells_of_row(p, y, x0, x1 - 1));
        let c = (x1 - 1, y);
        if p(x1 - 1, y) {
            assert(all =~= less.insert(c));
            assert(!less.contains(c));
        } else {
            assert forall|q: (int, int)| all.contains(q) implies less.contains(q) by {
                if q.0 == x1 - 1 && q.1 == y {
                    assert(!p(q.0, q.1));
                }
            }
            assert(all =~= less);
        }
    }
}

proof fn lemma_cells_in(p: spec_fn(int, int) -> bool, x0: int, x1: int, y0: int, y1: int)
    ensures
        cells_in(p, x0, x1, y0, y1).finite(),
        cells_in(p, x0, x1, y0, y1).len() == count_in(p, x0, x1, y0, y1),
    decreases y1 - y0,
{
    let all = cells_in(p, x0, x1, y0, y1);
    if y1 <= y0 {
        assert(all =~= Set::empty());
    } else {
        let before = cells_in(p, x0, x1, y0, y1 - 1);
        lemma_cells_in(p, x0, x1, y0, y1 - 1);
        lemma_cells_of_row(p, before, y1 - 1, x0, x1);
        assert(all =~= before.union(cells_of_row(p, y1 - 1, x0, x1)));
    }
}

/// The cells of the grid right around a box: at most one step off it, and not in it.
pub open spec fn around(g: Grid, b: Blob) -> Set<(int, int)> {
    Set::new(
        |c: (int, int)|
            0 <= c.0 < g.cols && 0 <= c.1 < g.rows && b.x0 - 1 <= c.0 <= b.x1 + 1 && b.y0 - 1 <= c.1
                <= b.y1 + 1 && !(b.x0 <= c.0 <= b.x1 && b.y0 <= c.1 <= b.y1),
    )
}

/// The ring of a box is counted cell by cell, and so are the marked cells in it.
pub proof fn law_the_ring_is_the_cells_around_a_box(g: Grid, b: Blob)
    ensures
        around(g, b).finite(),
        g.ring(b) == around(g, b).len(),
        g.busy_ring(b) == around(g, b).intersect(
            Set::new(|c: (int, int)| g.marks[c.1 * g.cols + c.0]),
        ).len(),
{
    let free = |x: int, y: int| g.beside(b, x, y);
    let busy = |x: int, y: int| g.beside(b, x, y) && g.marks[y * g.cols + x];
    lemma_cells_in(free, b.x0 - 1, b.x1 + 2, b.y0 - 1, b.y1 + 2);
    lemma_cells_in(busy, b.x0 - 1, b.x1 + 2, b.y0 - 1, b.y1 + 2);
    assert(around(g, b) =~= cells_in(free, b.x0 - 1, b.x1 + 2, b.y0 - 1, b.y1 + 2));
    assert(around(g, b).intersect(Set::new(|c: (int, int)| g.marks[c.1 * g.cols + c.0]))
        =~= cells_in(busy, b.x0 - 1, b.x1 + 2, b.y0 - 1, b.y1 + 2));
}

/// A box is on text exactly if one text box shares more than 35 percent of it.
pub proof fn law_text_hides_an_icon_by_its_share(rect: Rect, text: Seq<Element>)
    requires
        rect.surface() >= 1,
    ensures
        on_text(rect, text) <==> exists|i: int|
            0 <= i < text.len() && 100 * shared_area(rect, (#[trigger] text[i]).rect) > 35
                * rect.surface(),
{
    if on_text(rect, text) {
        let i = choose|i: int|
            0 <= i < text.len() && 20 * shared_area(rect, (#[trigger] text[i]).rect) > 7 * greater(
                rect.surface(),
                1,
            );
        assert(100 * shared_area(rect, text[i].rect) > 35 * rect.surface());
    }
    if exists|i: int|
        0 <= i < text.len() && 100 * shared_area(rect, (#[trigger] text[i]).rect) > 35
            * rect.surface() {
        let i = choose|i: int|
            0 <= i < text.len() && 100 * shared_area(rect, (#[trigger] text[i]).rect) > 35
                * rect.surface();
        assert(20 * shared_area(rect, text[i].rect) > 7 * greater(rect.surface(), 1));
    }
}

/// The blob with box `b` in grid `g` looks like an icon, standing or lying: 16 to 80
/// pixels and at least `min_size` on both sides, neither side more than 3.2 times the
/// other, at least 30 percent of its box filled, at most 22 percent of the ring around
/// it busy, and off the text.
pub open spec fn passes(g: Grid, b: Blob, region: Rect, text: Seq<Element>, min_size: int) -> bool {
    let w = 8 * (b.x1 - b.x0 + 1);
    let h = 8 * (b.y1 - b.y0 + 1);
    &&& 16 <= w <= 80 && 16 <= h <= 80
    &&& min_size <= w && min_size <= h
    &&& 10 * w <= 32 * h && 10 * h <= 32 * w
    &&& 100 * b.cells >= 30 * ((b.x1 - b.x0 + 1) * (b.y1 - b.y0 + 1))
    &&& 100 * g.busy_ring(b) <= 22 * g.ring(b)
    &&& !on_text(blob_rect(b, region), text)
}

/// Every blob that looks like an icon is found, unless there are 200 before it, and
/// nothing else is: an icon is the box of such a blob, in whole cells of 8 pixels,
/// counted from the corner of the region.
pub proof fn law_icons_are_the_blobs_that_look_like_one(
    image: Image,
    region: Rect,
    text: Seq<Element>,
    min_size: int,
    b: Blob,
    a: int,
    r: Rect,
)
    ensures
        ({
            let g = Grid { marks: image.edges(), cols: image.cols(), rows: image.rows() };
            let found = icons_in(image, region, text, min_size);
            &&& found.len() < 200 && g.marked(a) && g.leader(a) && g.bounds(b, a) && passes(
                g,
                b,
                region,
                text,
                min_size,
            ) ==> found.contains(blob_rect(b, region))
            &&& found.contains(r) ==> exists|c: Blob| #[trigger]
                passes(g, c, region, text, min_size) && g.blobs().contains(c) && r == blob_rect(
                    c,
                    region,
                )
            &&& found.len() <= 200
        }),
{
    let g = Grid { marks: image.edges(), cols: image.cols(), rows: image.rows() };
    let like = |b: Blob| icon_like(g, b, region, text, min_size);
    let blobs = g.blobs();
    let all = blobs.filter(like);
    let found = icons_in(image, region, text, min_size);
    assert forall|c: Blob| #[trigger] passes(g, c, region, text, min_size) <==> like(c) by {
        assert((c.x1 - c.x0 + 1) * CELL == 8 * (c.x1 - c.x0 + 1));
        assert((c.y1 - c.y0 + 1) * CELL == 8 * (c.y1 - c.y0 + 1));
    }
    assert(found.len() == capped(all).len());
    if found.len() < 200 && g.marked(a) && g.leader(a) && g.bounds(b, a) && passes(
        g,
        b,
        region,
        text,
        min_size,
    ) {
        let n = g.marks.len() as int;
        law_first_cells_are_listed_in_order(g, n, a);
        let k = choose|k: int| 0 <= k < g.leaders(n).len() && g.leaders(n)[k] == a;
        lemma_bounds_unique(g, b, a);
        assert(blobs[k] == b);
        blobs.lemma_filter_contains(like, k);
        let i = choose|i: int| 0 <= i < all.len() && all[i] == b;
        assert(capped(all) == all);
        assert(found[i] == blob_rect(b, region));
    }
    if found.contains(r) {
        let i = choose|i: int| 0 <= i < found.len() && found[i] == r;
        let c = capped(all)[i];
        assert(c == all[i]);
        blobs.lemma_filter_pred(like, i);
        assert(all.contains(c));
        blobs.lemma_filter_contains_rev(like, c);
        assert(passes(g, c, region, text, min_size) && blobs.contains(c));
    }
}

/// The pixels of a blob's box start 8 pixels further for each cell, and it is 8 pixels
/// wide and high for each cell of its box.
pub proof fn law_boxes_of_blobs_are_whole_cells(b: Blob, region: Rect)
    requires
        fits_i32(region.x + 8 * b.x0),
        fits_i32(region.y + 8 * b.y0),
        fits_i32(8 * (b.x1 - b.x0 + 1)),
        fits_i32(8 * (b.y1 - b.y0 + 1)),
    ensures
        blob_rect(b, region).x == region.x + 8 * b.x0,
        blob_rect(b, region).y == region.y + 8 * b.y0,
        blob_rect(b, region).width == 8 * (b.x1 - b.x0 + 1),
        blob_rect(b, region).height == 8 * (b.y1 - b.y0 + 1),
{
}

/// A blob holds no more than it must: any set of cells that holds its first cell, and
/// with each cell every marked one that touches it, holds the whole blob.
pub proof fn law_a_blob_is_the_least_that_is_closed(g: Grid, a: int, s: Set<int>, i: int)
    requires
        s.contains(a),
        forall|p: int, q: int|
            #[trigger] s.contains(p) && g.marked(q) && #[trigger] g.touch(p, q) ==> s.contains(q),
        g.blob(a).contains(i),
    ensures
        s.contains(i),
        g.marked(i),
{
    let path = choose|path: Seq<int>| #[trigger]
        g.leads(path) && path[0] == a && path[path.len() - 1] == i;
    lemma_closed(g, s, path);
    lemma_connected_marked(g, a, i);
}

/// A cell is marked exactly if it is on the grid and its mark is set.
pub proof fn law_marks_are_read_where_they_stand(g: Grid, i: int)
    ensures
        g.marked(i) <==> 0 <= i < g.marks.len() && g.marks[i],
        icon_shape(Rect { x: 0, y: 0, width: 0, height: 0 }).1.len() == 0,
{
}

/// An icon is hinted at its own box, without a text.
pub proof fn law_icons_have_no_text(r: Rect)
    ensures
        icon_shape(r).0 == r,
        icon_shape(r).1.len() == 0,
{
}

} // verus!
