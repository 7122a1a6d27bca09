//! Incremental OCR cache: re-read only the regions of the screen that changed.
//!
//! The daemon is long-lived and most hints land on a screen that barely changed
//! since the last one, so re-OCRing everything every time is wasteful. The cache
//! keeps the whole-screen pixels from the last scan (the baseline) plus the flat
//! list of words found. On the next scan it diffs against the baseline at the
//! granularity of small **cells**, clusters the changed cells' rows into tight
//! horizontal **bands**, and asks the detector to re-OCR only those bands. The
//! freshly read words are spliced in: words inside a re-read band are replaced,
//! everything outside is kept. A hint on a static screen reads nothing.
//!
//! Two deliberate choices keep it stable on a real desktop:
//!
//! * **Locality, not an exact hash.** A cell counts as changed only when a real
//!   fraction of its pixels differ, and the screen is only re-read when more than
//!   a couple of cells changed. A ticking clock or a blinking text caret is one
//!   or two cells and is ignored; a scroll or a typed-out line is many and is
//!   caught. (An exact hash made every flicker re-OCR a whole region.)
//! * **Tight bands.** Only the changed rows (plus a margin for text that straddles
//!   a boundary) are re-read, not the whole strip. A chat message appearing near
//!   the bottom of the screen re-reads a thin band, not half the display.
//!
//! On a cold scan (or after a resize/reload) there is no baseline, so the work is
//! the whole screen, split into `tiles` overlapping bands for parallelism, one
//! per monitor, so a band never spans the void beside a shorter head in a multi-head
//! bounding box (those undefined pixels destroy recognition of the whole band).

use vstd::prelude::*;

use super::phrase::Word;
use super::tsv::word_shapes;
use super::{band_count, bands_of, div_up, pairs, plan_bands};
use crate::geometry::{greater, lesser, Rect};

verus! {

/// Side length (px) of a change-detection cell.
pub const CELL: i64 = 96;

/// A cell counts as changed when more than this many of its pixels differ: a
/// twentieth of them. High enough to shrug off a caret or sub-pixel antialiasing
/// within the cell.
pub const CELL_CHANGE: u32 = 460;

/// The screen is re-read only when more than this many cells changed. Absorbs a
/// couple of independent noise sources (a clock *and* a caret).
pub const NOISE_CELLS: u128 = 2;

/// Pixels added above and below a changed run, so a line of text that straddles
/// the edge of the changed area is fully inside the re-read band.
pub const BAND_MARGIN: i64 = 64;

/// A change band is split for parallelism only when it is taller than this many
/// pixels (a full scroll), whatever the number of tiles: four cells.
pub const MIN_CHUNK: i64 = 384;

/// A rectangular region to OCR, in capture-local coordinates (the top-left of the
/// captured region is the origin). A band never spans more than one monitor, so
/// Tesseract is never handed an image wider or taller than the real content in it.
/// The area beyond a shorter monitor in a multi-head bounding box holds
/// undefined pixels that wreck recognition of everything else in the same image.
#[derive(Debug, Clone, Copy, PartialEq, Eq, Structural)]
pub struct Band {
    pub x0: i32,
    pub y0: i32,
    pub w: i32,
    pub h: i32,
}

impl Band {
    /// Position `(x, y)` lies in the band.
    pub open spec fn holds(self, x: int, y: int) -> bool {
        self.x0 <= x < self.x0 + self.w && self.y0 <= y < self.y0 + self.h
    }

    /// The band covers whole rows of `region` and no others.
    pub open spec fn within(self, region: Rect) -> bool {
        &&& self.x0 == region.x
        &&& self.w == region.width
        &&& region.y <= self.y0
        &&& 0 < self.h
        &&& self.y0 + self.h <= region.end_y()
    }

    /// Whether a position falls inside this band (used to decide which cached
    /// words a re-read replaces).
    pub(crate) fn contains(&self, x: i64, y: i64) -> (b: bool)
        ensures
            b == self.holds(x as int, y as int),
    {
        x >= self.x0 as i64 && x < self.x0 as i64 + self.w as i64 && y >= self.y0 as i64 && y
            < self.y0 as i64 + self.h as i64
    }
}

// --- What changed ---------------------------------------------------------

/// Some rectangle of `regions` covers pixel `(x, y)`.
pub open spec fn covered_by(x: int, y: int, regions: Seq<Rect>) -> bool {
    exists|i: int| 0 <= i < regions.len() && (#[trigger] regions[i]).covers(x, y)
}

/// Some band of `bands` holds position `(x, y)`.
pub open spec fn held_by(x: int, y: int, bands: Seq<Band>) -> bool {
    exists|i: int| 0 <= i < bands.len() && (#[trigger] bands[i]).holds(x, y)
}

/// Two captures of a `w`×`h` screen, tight RGB, and the monitors that show it.
pub struct Diff {
    pub now: Seq<u8>,
    pub base: Seq<u8>,
    pub w: int,
    pub h: int,
    pub regions: Seq<Rect>,
}

impl Diff {
    /// Pixel `(x, y)` is not the same in both captures.
    pub open spec fn differs(self, x: int, y: int) -> bool {
        let i = (y * self.w + x) * 3;
        self.now[i] != self.base[i] || self.now[i + 1] != self.base[i + 1] || self.now[i + 2]
            != self.base[i + 2]
    }

    /// Pixel `(x, y)` differs and a monitor covers it. The void beside a shorter
    /// head is never read, so it differs every frame; it does not count.
    pub open spec fn counts(self, x: int, y: int) -> bool {
        self.differs(x, y) && covered_by(x, y, self.regions)
    }

    /// How many pixels of row `y` count, in columns `[x0, x1)`.
    pub open spec fn row_count(self, y: int, x0: int, x1: int) -> int
        decreases x1 - x0,
    {
        if x1 <= x0 {
            0
        } else {
            self.row_count(y, x0, x1 - 1) + if self.counts(x1 - 1, y) {
                1int
            } else {
                0int
            }
        }
    }

    /// How many pixels count in columns `[x0, x1)` of rows `[y0, y1)`.
    pub open spec fn area_count(self, x0: int, x1: int, y0: int, y1: int) -> int
        decreases y1 - y0,
    {
        if y1 <= y0 {
            0
        } else {
            self.area_count(x0, x1, y0, y1 - 1) + self.row_count(y1 - 1, x0, x1)
        }
    }

    /// Columns of cells.
    pub open spec fn cols(self) -> int {
        div_up(self.w, CELL as int)
    }

    /// Rows of cells.
    pub open spec fn rows(self) -> int {
        div_up(self.h, CELL as int)
    }

    /// The cell in column `c` of row `r` changed.
    pub open spec fn hot(self, r: int, c: int) -> bool {
        self.area_count(
            c * CELL,
            lesser((c + 1) * CELL, self.w),
            r * CELL,
            lesser((r + 1) * CELL, self.h),
        ) > CELL_CHANGE
    }

    /// How many cells of row `r` changed, in columns `[c0, c1)`.
    pub open spec fn hits(self, r: int, c0: int, c1: int) -> int
        decreases c1 - c0,
    {
        if c1 <= c0 {
            0
        } else {
            self.hits(r, c0, c1 - 1) + if self.hot(r, c1 - 1) {
                1int
            } else {
                0int
            }
        }
    }

    /// How many cells of `region` changed in row `r`.
    pub open spec fn region_hits(self, region: Rect, r: int) -> int {
        self.hits(
            r,
            first_cell(region.x as int, self.cols()),
            end_cell(region.x as int, region.end_x(), self.cols()),
        )
    }

    /// How many cells of `region` changed in its rows up to `r`.
    pub open spec fn hits_up_to(self, region: Rect, r: int) -> int
        decreases r - first_cell(region.y as int, self.rows()),
    {
        if r <= first_cell(region.y as int, self.rows()) {
            0
        } else {
            self.hits_up_to(region, r - 1) + self.region_hits(region, r - 1)
        }
    }

    /// The first row of cells of `region`.
    pub open spec fn top_row(self, region: Rect) -> int {
        first_cell(region.y as int, self.rows())
    }

    /// The row of cells below the last one of `region`.
    pub open spec fn end_row(self, region: Rect) -> int {
        end_cell(region.y as int, region.end_y(), self.rows())
    }

    /// How many cells changed in the first `n` monitors. A cell that several
    /// monitors cover counts for each.
    pub open spec fn total(self, n: nat) -> int
        decreases n,
    {
        if n == 0 {
            0
        } else {
            self.total((n - 1) as nat) + self.hits_up_to(
                self.regions[n - 1],
                self.end_row(self.regions[n - 1]),
            )
        }
    }

    /// The runs `[start, end)` of consecutive changed rows of cells of `region`,
    /// looking at its rows up to `r`.
    pub open spec fn runs(self, region: Rect, r: int) -> Seq<(int, int)>
        decreases r - self.top_row(region),
    {
        if r <= self.top_row(region) {
            Seq::empty()
        } else {
            let before = self.runs(region, r - 1);
            if self.region_hits(region, r - 1) == 0 {
                before
            } else if before.len() > 0 && before.last().1 == r - 1 {
                before.drop_last().push((before.last().0, r))
            } else {
                before.push((r - 1, r))
            }
        }
    }

    /// The bands to re-read on one monitor: its runs, padded by the margin and
    /// clipped to the monitor.
    pub open spec fn region_bands(self, region: Rect) -> Seq<Band> {
        self.runs(region, self.end_row(region)).map_values(|run: (int, int)| run_band(region, run))
    }

    /// The bands to re-read on the first `n` monitors.
    pub open spec fn bands_up_to(self, n: nat) -> Seq<Band>
        decreases n,
    {
        if n == 0 {
            Seq::empty()
        } else {
            self.bands_up_to((n - 1) as nat) + self.region_bands(self.regions[n - 1])
        }
    }

    /// The bands to re-read: none if only noise moved.
    pub open spec fn bands(self) -> Seq<Band> {
        if self.w <= 0 || self.h <= 0 || self.total(self.regions.len()) <= NOISE_CELLS {
            Seq::empty()
        } else {
            self.bands_up_to(self.regions.len())
        }
    }

    /// The captures hold a whole screen and the monitors lie on it.
    pub open spec fn sound(self) -> bool {
        &&& 0 < self.w <= i32::MAX
        &&& 0 < self.h <= i32::MAX
        &&& self.now.len() == self.base.len()
        &&& self.now.len() >= self.w * self.h * 3
        &&& inside(self.regions, self.w, self.h)
    }
}

/// Every rectangle of `regions` has pixels, all of them on a `w`×`h` screen.
pub open spec fn inside(regions: Seq<Rect>, w: int, h: int) -> bool {
    forall|i: int|
        0 <= i < regions.len() ==> 0 <= (#[trigger] regions[i]).x && 0 <= regions[i].y && 0
            < regions[i].width && 0 < regions[i].height && regions[i].end_x() <= w
            && regions[i].end_y() <= h
}

/// The first of `count` cells that pixel `lo` and those behind it touch.
pub open spec fn first_cell(lo: int, count: int) -> int {
    lesser(greater(lo, 0) / CELL as int, count)
}

/// The cell behind the last of `count` cells that pixels `[lo, hi)` touch.
pub open spec fn end_cell(lo: int, hi: int, count: int) -> int {
    greater(lesser(div_up(greater(hi, 0), CELL as int), count), first_cell(lo, count))
}

/// The top of the band around a run of rows of cells.
pub open spec fn run_top(region: Rect, run: (int, int)) -> int {
    greater(run.0 * CELL - BAND_MARGIN, region.y as int)
}

/// The bottom of the band around a run of rows of cells.
pub open spec fn run_bottom(region: Rect, run: (int, int)) -> int {
    lesser(run.1 * CELL + BAND_MARGIN, region.end_y())
}

/// The band around a run of rows of cells.
pub open spec fn run_band(region: Rect, run: (int, int)) -> Band {
    Band {
        x0: region.x,
        y0: run_top(region, run) as i32,
        w: region.width,
        h: (run_bottom(region, run) - run_top(region, run)) as i32,
    }
}

// --- Splitting ------------------------------------------------------------

/// How tall a change band may be before it is split.
pub open spec fn chunk_of(height: int, tiles: int) -> int {
    greater(height / greater(tiles, 1), MIN_CHUNK as int)
}

/// The height of a piece without its overlap, when `h` rows are split into
/// pieces of about `chunk` rows.
pub open spec fn piece_base(h: int, chunk: int) -> int {
    div_up(h, div_up(h, chunk))
}

/// The first row of piece `i` of a band.
pub open spec fn piece_top(band: Band, base: int, overlap: int, i: int) -> int {
    greater(
        band.y0 + i * base - if i > 0 {
            overlap
        } else {
            0
        },
        band.y0 as int,
    )
}

/// The row below piece `i` of a band.
pub open spec fn piece_bottom(band: Band, base: int, overlap: int, i: int) -> int {
    lesser(band.y0 + (i + 1) * base + overlap, band.y0 + band.h)
}

/// Piece `i` of a band.
pub open spec fn piece(band: Band, base: int, overlap: int, i: int) -> Band {
    Band {
        x0: band.x0,
        y0: piece_top(band, base, overlap, i) as i32,
        w: band.w,
        h: (piece_bottom(band, base, overlap, i) - piece_top(band, base, overlap, i)) as i32,
    }
}

/// A band taller than `chunk`, split into overlapping pieces; a band that is not
/// is left as it is.
pub open spec fn pieces(band: Band, chunk: int, overlap: int) -> Seq<Band> {
    if band.h <= chunk {
        seq![band]
    } else {
        let base = piece_base(band.h as int, chunk);
        Seq::new(div_up(band.h as int, base) as nat, |i: int| piece(band, base, overlap, i))
    }
}

/// Every band of `bands` split, in order.
pub open spec fn all_pieces(bands: Seq<Band>, chunk: int, overlap: int) -> Seq<Band>
    decreases bands.len(),
{
    if bands.len() == 0 {
        Seq::empty()
    } else {
        all_pieces(bands.drop_last(), chunk, overlap) + pieces(bands.last(), chunk, overlap)
    }
}

/// The overlapping strips of one monitor.
pub open spec fn tiled(region: Rect, tiles: int, overlap: int) -> Seq<Band> {
    bands_of(region.height as int, tiles, overlap).map_values(
        |p: (int, int)|
            Band { x0: region.x, y0: (region.y + p.0) as i32, w: region.width, h: p.1 as i32 },
    )
}

/// The strips of all the monitors, one after the other.
pub open spec fn all_tiled(regions: Seq<Rect>, tiles: int, overlap: int) -> Seq<Band>
    decreases regions.len(),
{
    if regions.len() == 0 {
        Seq::empty()
    } else {
        all_tiled(regions.drop_last(), tiles, overlap) + tiled(regions.last(), tiles, overlap)
    }
}

// --- Adopting -------------------------------------------------------------

/// Byte `i` of a capture with rows of `stride` bytes lies in `band`, in a row
/// segment that both a baseline and a capture of `limit` bytes hold as a whole.
pub open spec fn adopts(band: Band, stride: int, limit: int, i: int) -> bool {
    let x0 = greater(band.x0 as int, 0) * 3;
    let xend = lesser(greater(band.x0 + band.w, 0) * 3, stride);
    &&& stride > 0
    &&& x0 <= i % stride < xend
    &&& greater(band.y0 as int, 0) <= i / stride < greater(band.y0 + band.h, 0)
    &&& (i / stride) * stride + xend <= limit
}

/// The baseline once `band` has been read from the capture `rgb`.
pub open spec fn adopted(prev: Seq<u8>, rgb: Seq<u8>, band: Band, stride: int) -> Seq<u8> {
    Seq::new(
        prev.len(),
        |i: int|
            if adopts(band, stride, lesser(prev.len() as int, rgb.len() as int), i) {
                rgb[i]
            } else {
                prev[i]
            },
    )
}

/// The centre of `w` lies outside `band`, for a capture that starts at `origin`.
pub open spec fn outlives(w: Word, band: Band, origin: (int, int)) -> bool {
    !band.holds(w.rect.mid_x() - origin.0, w.rect.mid_y() - origin.1)
}

/// The cached words after `band` was read again and gave `fresh`: those outside
/// the band are kept, those inside are replaced.
pub open spec fn spliced(words: Seq<Word>, band: Band, fresh: Seq<Word>, origin: (int, int)) -> Seq<
    Word,
> {
    words.filter(|w: Word| outlives(w, band, origin)) + fresh
}

/// The cached words after the first `n` of `bands` were read again, each giving
/// its entry of `fresh`.
pub open spec fn spliced_all(
    words: Seq<Word>,
    bands: Seq<Band>,
    fresh: Seq<Seq<Word>>,
    origin: (int, int),
    n: nat,
) -> Seq<Word>
    decreases n,
{
    if n == 0 {
        words
    } else {
        spliced(
            spliced_all(words, bands, fresh, origin, (n - 1) as nat),
            bands[n - 1],
            fresh[n - 1],
            origin,
        )
    }
}

/// Incremental OCR cache for one screen size. Not thread-safe on its own.
pub struct ScanCache {
    pub width: i32,
    pub height: i32,
    pub tiles: usize,
    pub overlap: i32,
    /// The physical monitor rectangles (capture-local). OCR bands are confined to
    /// these so a band never covers a phantom region of the root bounding box.
    /// Empty means "treat the whole capture as one screen" (single-head default).
    pub monitors: Vec<Rect>,
    /// Whole-screen RGB at the last scan: the baseline bands diff against.
    pub prev: Vec<u8>,
    /// Whether something of the screen has been read: the baseline shows what it
    /// looked like then.
    pub have_prev: bool,
    /// Whether the baseline was dropped, and nothing has been planned since.
    pub dropped: bool,
    /// The bands that were planned and have not been spliced in since.
    pub unread: Vec<Band>,
    /// All words currently believed on screen, in absolute coordinates.
    pub words: Vec<Word>,
}

/// The parts of `monitors` that lie on `screen`.
pub open spec fn visible_parts(monitors: Seq<Rect>, screen: Rect) -> Seq<Rect>
    decreases monitors.len(),
{
    if monitors.len() == 0 {
        Seq::empty()
    } else {
        let before = visible_parts(monitors.drop_last(), screen);
        match monitors.last().cut(screen) {
            Some(part) => before.push(part),
            None => before,
        }
    }
}

/// The rectangles to plan bands within: the visible parts of the monitors, or the
/// whole capture if there are none.
pub open spec fn regions_of(monitors: Seq<Rect>, width: i32, height: i32) -> Seq<Rect> {
    let screen = Rect { x: 0, y: 0, width, height };
    if visible_parts(monitors, screen).len() == 0 {
        seq![screen]
    } else {
        visible_parts(monitors, screen)
    }
}

/// `len` bytes hold the pixels of a `width`×`height` screen.
pub open spec fn holds_screen(len: int, width: int, height: int) -> bool {
    width > 0 && height > 0 ==> len >= width * height * 3
}

/// `b` covers whole rows of one of `regions` and nothing else.
pub open spec fn fits(b: Band, regions: Seq<Rect>) -> bool {
    exists|k: int| 0 <= k < regions.len() && b.within(#[trigger] regions[k])
}

/// Every one of `bands` covers whole rows of one of `regions` and nothing else.
pub open spec fn confined(bands: Seq<Band>, regions: Seq<Rect>) -> bool {
    forall|i: int| 0 <= i < bands.len() ==> fits(#[trigger] bands[i], regions)
}

/// `b` and `region` share a row and a column.
pub open spec fn meets(b: Band, region: Rect) -> bool {
    &&& greater(b.x0 as int, region.x as int) < lesser(b.x0 + b.w, region.end_x())
    &&& greater(b.y0 as int, region.y as int) < lesser(b.y0 + b.h, region.end_y())
}

/// The rows of `region` that `b` has.
pub open spec fn rows_of(b: Band, region: Rect) -> Band {
    let y0 = greater(b.y0 as int, region.y as int);
    Band {
        x0: region.x,
        y0: y0 as i32,
        w: region.width,
        h: (lesser(b.y0 + b.h, region.end_y()) - y0) as i32,
    }
}

/// The rows that `b` has of each of `regions` it meets.
pub open spec fn cut_up(b: Band, regions: Seq<Rect>) -> Seq<Band>
    decreases regions.len(),
{
    if regions.len() == 0 {
        Seq::empty()
    } else {
        let before = cut_up(b, regions.drop_last());
        if meets(b, regions.last()) {
            before.push(rows_of(b, regions.last()))
        } else {
            before
        }
    }
}

/// `b` where it stays on one monitor, and else what it has of each: the layout
/// has changed since it was planned.
pub open spec fn refit(b: Band, regions: Seq<Rect>) -> Seq<Band> {
    if fits(b, regions) {
        seq![b]
    } else {
        cut_up(b, regions)
    }
}

/// Every band of `bands` fitted to the monitors, in order.
pub open spec fn refit_all(bands: Seq<Band>, regions: Seq<Rect>) -> Seq<Band>
    decreases bands.len(),
{
    if bands.len() == 0 {
        Seq::empty()
    } else {
        refit_all(bands.drop_last(), regions) + refit(bands.last(), regions)
    }
}

/// `b` lies in one of `bands`, on the same monitor.
pub open spec fn part_of(b: Band, bands: Seq<Band>) -> bool {
    exists|i: int|
        0 <= i < bands.len() && (#[trigger] bands[i]).x0 == b.x0 && bands[i].w == b.w && bands[i].y0
            <= b.y0 && b.y0 + b.h <= bands[i].y0 + bands[i].h
}

/// The bands of `waiting` that `bands` do not read anyway.
pub open spec fn left_over(waiting: Seq<Band>, bands: Seq<Band>) -> Seq<Band> {
    waiting.filter(|b: Band| !part_of(b, bands))
}

/// What is to be read: the bands around what changed, and those that have been
/// waiting and that these do not hold.
pub open spec fn planned(d: Diff, unread: Seq<Band>, chunk: int, overlap: int) -> Seq<Band> {
    all_pieces(d.bands(), chunk, overlap) + left_over(refit_all(unread, d.regions), d.bands())
}

/// The bands of `unread` that are left once those of `read` were spliced in.
pub open spec fn still_unread(unread: Seq<Band>, read: Seq<Band>) -> Seq<Band>
    decreases read.len(),
{
    if read.len() == 0 {
        unread
    } else {
        still_unread(unread, read.drop_last()).filter(|b: Band| b != read.last())
    }
}

impl ScanCache {
    /// The cache was made for scans like this one.
    pub open spec fn same_grid(self, width: int, height: int, tiles: int, overlap: int) -> bool {
        &&& self.width == width
        &&& self.height == height
        &&& self.tiles == tiles
        &&& self.overlap == overlap
    }

    /// There is a baseline to compare a capture of `len` bytes with, and the capture
    /// holds a whole screen.
    pub open spec fn warm(self, len: int, width: int, height: int, tiles: int, overlap: int) -> bool {
        &&& self.have_prev
        &&& self.prev@.len() == len
        &&& self.same_grid(width, height, tiles, overlap)
        &&& holds_screen(len, width, height)
    }

    /// What changed since the baseline.
    pub open spec fn diff(self, rgb: Seq<u8>, width: i32, height: i32) -> Diff {
        Diff {
            now: rgb,
            base: self.prev@,
            w: width as int,
            h: height as int,
            regions: regions_of(self.monitors@, width, height),
        }
    }

    /// The bands that are planned for a capture `rgb`.
    pub open spec fn next_plan(
        self,
        rgb: Seq<u8>,
        width: i32,
        height: i32,
        tiles: usize,
        overlap: i32,
    ) -> Seq<Band> {
        if self.warm(rgb.len() as int, width as int, height as int, tiles as int, overlap as int) {
            planned(
                self.diff(rgb, width, height),
                self.unread@,
                chunk_of(height as int, tiles as int),
                overlap as int,
            )
        } else {
            all_tiled(
                regions_of(self.monitors@, width, height),
                tiles as int,
                overlap as int,
            )
        }
    }

    /// `after` is the cache once it has planned for a capture `rgb`. The planned
    /// bands wait to be read; where there is a baseline, it and the words stay as
    /// they are.
    pub open spec fn becomes(
        self,
        after: ScanCache,
        rgb: Seq<u8>,
        width: i32,
        height: i32,
        tiles: usize,
        overlap: i32,
    ) -> bool {
        let warm = self.warm(
            rgb.len() as int,
            width as int,
            height as int,
            tiles as int,
            overlap as int,
        );
        &&& after.same_grid(width as int, height as int, tiles as int, overlap as int)
        &&& after.monitors == self.monitors
        &&& after.have_prev == warm
        &&& !after.dropped
        &&& after.unread@ == self.next_plan(rgb, width, height, tiles, overlap)
        &&& if warm {
            after.prev == self.prev && after.words == self.words
        } else {
            &&& after.words@.len() == 0
            &&& after.prev@ == if self.prev@.len() == rgb.len() {
                self.prev@
            } else {
                Seq::new(rgb.len(), |i: int| 0u8)
            }
        }
    }

    /// The cache without its baseline.
    pub open spec fn without_baseline(self) -> ScanCache {
        ScanCache { have_prev: false, dropped: true, ..self }
    }

    pub fn new() -> (c: Self)
        ensures
            c.width == 0,
            c.height == 0,
            c.tiles == 0,
            c.overlap == 0,
            c.monitors@.len() == 0,
            c.prev@.len() == 0,
            !c.have_prev,
            !c.dropped,
            c.unread@.len() == 0,
            c.words@.len() == 0,
    {
        ScanCache {
            width: 0,
            height: 0,
            tiles: 0,
            overlap: 0,
            monitors: Vec::new(),
            prev: Vec::new(),
            have_prev: false,
            dropped: false,
            unread: Vec::new(),
            words: Vec::new(),
        }
    }

    /// Set the physical monitor rectangles (capture-local) that OCR bands must
    /// stay within. Called once by the daemon after it learns the display layout.
    pub fn set_monitors(&mut self, monitors: Vec<Rect>)
        ensures
            *final(self) == (ScanCache { monitors, ..*old(self) }),
    {
        self.monitors = monitors;
    }

    /// Drop the baseline, forcing a full re-scan next time (e.g. after a config
    /// reload that changes OCR parameters).
    pub fn invalidate(&mut self)
        ensures
            *final(self) == old(self).without_baseline(),
    {
        self.have_prev = false;
        self.dropped = true;
    }
}

/// The visible parts of the monitors have pixels and lie on the screen.
proof fn lemma_parts_inside(monitors: Seq<Rect>, screen: Rect)
    requires
        screen.x == 0,
        screen.y == 0,
    ensures
        inside(visible_parts(monitors, screen), screen.width as int, screen.height as int),
    decreases monitors.len(),
{
    if monitors.len() > 0 {
        lemma_parts_inside(monitors.drop_last(), screen);
    }
}

/// The regions to plan within have pixels and lie on the screen.
proof fn lemma_regions_inside(monitors: Seq<Rect>, width: i32, height: i32)
    ensures
        width > 0 && height > 0 ==> inside(
            regions_of(monitors, width, height),
            width as int,
            height as int,
        ),
        regions_of(monitors, width, height).len() > 0,
        width <= 0 || height <= 0 ==> regions_of(monitors, width, height) == seq![
            Rect { x: 0, y: 0, width, height },
        ],
{
    let screen = Rect { x: 0, y: 0, width, height };
    lemma_parts_inside(monitors, screen);
    if width <= 0 || height <= 0 {
        let parts = visible_parts(monitors, screen);
        if parts.len() > 0 {
            assert(parts[0].end_x() <= width);
            assert(parts[0].end_y() <= height);
        }
    }
}

/// Whether pixel `(x, y)` lies inside any monitor rectangle.
fn covered(x: i64, y: i64, regions: &Vec<Rect>) -> (b: bool)
    ensures
        b == covered_by(x as int, y as int, regions@),
{
    let mut i: usize = 0;
    while i < regions.len()
        invariant
            i <= regions@.len(),
            forall|j: int| 0 <= j < i ==> !(#[trigger] regions@[j]).covers(x as int, y as int),
        decreases regions@.len() - i,
    {
        let r = &regions[i];
        if x >= r.x as i64 && x < r.right_wide() && y >= r.y as i64 && y < r.bottom_wide() {
            assert(regions@[i as int].covers(x as int, y as int));
            return true;
        }
        i += 1;
    }
    false
}

/// The half-open cell-index range `[a, b)` of the grid covering pixel range
/// `[lo, hi)`, clamped to `[0, count)`.
fn cell_span(lo: i64, hi: i64, count: i64) -> (s: (i64, i64))
    requires
        0 <= count,
        lo <= 0x1_0000_0000,
        hi <= 0x1_0000_0000,
    ensures
        s.0 == first_cell(lo as int, count as int),
        s.1 == end_cell(lo as int, hi as int, count as int),
        0 <= s.0 <= s.1 <= count,
{
    let from = if lo > 0 {
        lo / CELL
    } else {
        0
    };
    let a = if from < count {
        from
    } else {
        count
    };
    let to = if hi > 0 {
        (hi + (CELL - 1)) / CELL
    } else {
        0
    };
    let b = if to < count {
        to
    } else {
        count
    };
    (a, if b > a {
        b
    } else {
        a
    })
}

/// Where the bytes of pixel `(x, y)` start in a tight buffer of `len` bytes.
fn pixel_index(x: usize, y: usize, w: usize, len: usize) -> (i: usize)
    requires
        (y * w + x) * 3 + 2 < len,
    ensures
        i == (y * w + x) * 3,
{
    assert(0 <= y * w) by (nonlinear_arith);
    (y * w + x) * 3
}

/// Whether the cell in column `c` of row `r` changed.
fn cell_hot(
    rgb: &[u8],
    prev: &Vec<u8>,
    w: i64,
    h: i64,
    regions: &Vec<Rect>,
    r: i64,
    c: i64,
) -> (b: bool)
    requires
        (Diff { now: rgb@, base: prev@, w: w as int, h: h as int, regions: regions@ }).sound(),
        0 <= r < div_up(h as int, CELL as int),
        0 <= c < div_up(w as int, CELL as int),
    ensures
        b == (Diff { now: rgb@, base: prev@, w: w as int, h: h as int, regions: regions@ }).hot(
            r as int,
            c as int,
        ),
{
    let ghost d = Diff { now: rgb@, base: prev@, w: w as int, h: h as int, regions: regions@ };
    let len = rgb.len();
    let x0 = c * CELL;
    let x1 = if x0 + CELL < w {
        x0 + CELL
    } else {
        w
    };
    let y0 = r * CELL;
    let y1 = if y0 + CELL < h {
        y0 + CELL
    } else {
        h
    };
    let mut n: u32 = 0;
    let mut y = y0;
    while y < y1
        invariant
            d == (Diff { now: rgb@, base: prev@, w: w as int, h: h as int, regions: regions@ }),
            d.sound(),
            len == rgb@.len(),
            0 <= x0 < x1 <= w,
            x1 <= x0 + 96,
            0 <= y0 <= y <= y1 <= h,
            y1 <= y0 + 96,
            n == d.area_count(x0 as int, x1 as int, y0 as int, y as int),
            n <= (y - y0) * 96,
        decreases y1 - y,
    {
        let ghost before = n;
        let mut x = x0;
        while x < x1
            invariant
                d == (Diff { now: rgb@, base: prev@, w: w as int, h: h as int, regions: regions@ }),
                d.sound(),
                len == rgb@.len(),
                0 <= x0 <= x <= x1 <= w,
                x1 <= x0 + 96,
                0 <= y < h,
                before <= 9216,
                n == before + d.row_count(y as int, x0 as int, x as int),
                n <= before + (x - x0),
            decreases x1 - x,
        {
            proof {
                crate::capture::lemma_cell_bound(w as int, h as int, x as int, y as int);
                assert((y * w + x) * 3 + 2 < w * h * 3);
            }
            let i = pixel_index(x as usize, y as usize, w as usize, len);
            if (rgb[i] != prev[i] || rgb[i + 1] != prev[i + 1] || rgb[i + 2] != prev[i + 2])
                && covered(x, y, regions) {
                n += 1;
            }
            x += 1;
        }
        y += 1;
    }
    n > CELL_CHANGE
}

/// How many cells changed in columns `[c0, c1)` of row `r`.
fn row_hits(
    rgb: &[u8],
    prev: &Vec<u8>,
    w: i64,
    h: i64,
    regions: &Vec<Rect>,
    r: i64,
    c0: i64,
    c1: i64,
) -> (n: i64)
    requires
        (Diff { now: rgb@, base: prev@, w: w as int, h: h as int, regions: regions@ }).sound(),
        0 <= r < div_up(h as int, CELL as int),
        0 <= c0 <= c1 <= div_up(w as int, CELL as int),
    ensures
        n == (Diff { now: rgb@, base: prev@, w: w as int, h: h as int, regions: regions@ }).hits(
            r as int,
            c0 as int,
            c1 as int,
        ),
        0 <= n <= c1 - c0,
{
    let ghost d = Diff { now: rgb@, base: prev@, w: w as int, h: h as int, regions: regions@ };
    let mut n: i64 = 0;
    let mut c = c0;
    while c < c1
        invariant
            d == (Diff { now: rgb@, base: prev@, w: w as int, h: h as int, regions: regions@ }),
            d.sound(),
            0 <= r < div_up(h as int, CELL as int),
            0 <= c0 <= c <= c1 <= div_up(w as int, CELL as int),
            n == d.hits(r as int, c0 as int, c as int),
            0 <= n <= c - c0,
        decreases c1 - c,
    {
        if cell_hot(rgb, prev, w, h, regions, r, c) {
            n += 1;
        }
        c += 1;
    }
    n
}

/// Look at the cells of one monitor: how many changed, and the bands around
/// them, the changed cell-rows clustered into vertical runs.
fn region_scan(
    rgb: &[u8],
    prev: &Vec<u8>,
    w: i64,
    h: i64,
    regions: &Vec<Rect>,
    k: usize,
) -> (s: (u128, Vec<Band>))
    requires
        (Diff { now: rgb@, base: prev@, w: w as int, h: h as int, regions: regions@ }).sound(),
        k < regions@.len(),
    ensures
        ({
            let d = Diff { now: rgb@, base: prev@, w: w as int, h: h as int, regions: regions@ };
            &&& s.0 == d.hits_up_to(regions@[k as int], d.end_row(regions@[k as int]))
            &&& s.0 <= 0x1_0000_0000_0000_0000
            &&& s.1@ == d.region_bands(regions@[k as int])
        }),
{
    let ghost d = Diff { now: rgb@, base: prev@, w: w as int, h: h as int, regions: regions@ };
    let region = regions[k];
    let cols = (w + (CELL - 1)) / CELL;
    let rows = (h + (CELL - 1)) / CELL;
    let (c0, c1) = cell_span(region.x as i64, region.right_wide(), cols);
    let (r0, r1) = cell_span(region.y as i64, region.bottom_wide(), rows);
    let mut total: u128 = 0;
    let mut bands: Vec<Band> = Vec::new();
    let ghost mut done: Seq<(int, int)> = Seq::empty();
    let ghost to_band = |run: (int, int)| run_band(region, run);
    // The first row of the run that is still growing, if there is one.
    let mut open = false;
    let mut start: i64 = 0;
    let mut r = r0;
    assert(bands@ == done.map_values(to_band));
    while r < r1
        invariant
            d == (Diff { now: rgb@, base: prev@, w: w as int, h: h as int, regions: regions@ }),
            d.sound(),
            k < regions@.len(),
            region == regions@[k as int],
            to_band == (|run: (int, int)| run_band(region, run)),
            rows == d.rows(),
            cols == d.cols(),
            0 <= c0 <= c1 <= cols <= 0x1_0000_0000,
            c0 == first_cell(region.x as int, cols as int),
            c1 == end_cell(region.x as int, region.end_x(), cols as int),
            r0 == d.top_row(region),
            r1 == d.end_row(region),
            0 <= r0 <= r <= r1 <= rows <= 0x8000_0000,
            total == d.hits_up_to(region, r as int),
            total <= (r - r0) * 0x1_0000_0000,
            open ==> r0 <= start < r && d.runs(region, r as int) == done.push(
                (start as int, r as int),
            ),
            !open ==> d.runs(region, r as int) == done && (done.len() > 0 ==> done.last().1 < r),
            bands@ == done.map_values(to_band),
        decreases r1 - r,
    {
        let n = row_hits(rgb, prev, w, h, regions, r, c0, c1);
        assert(n == d.region_hits(region, r as int));
        total = total + n as u128;
        if n > 0 {
            proof {
                if open {
                    assert(done.push((start as int, r as int)).drop_last() == done);
                }
            }
            if !open {
                open = true;
                start = r;
            }
        } else if open {
            open = false;
            let ghost before = done;
            bands.push(band_around(region, start, r, h));
            proof {
                done = done.push((start as int, r as int));
                assert(done.map_values(to_band) == before.map_values(to_band).push(
                    run_band(region, (start as int, r as int)),
                ));
            }
        }
        r += 1;
    }
    if open {
        let ghost before = done;
        bands.push(band_around(region, start, r, h));
        proof {
            done = done.push((start as int, r as int));
            assert(done.map_values(to_band) == before.map_values(to_band).push(
                run_band(region, (start as int, r as int)),
            ));
        }
    }
    (total, bands)
}

/// The band around the run of cell-rows `[start, end)` of a monitor.
fn band_around(region: Rect, start: i64, end: i64, h: i64) -> (b: Band)
    requires
        0 <= region.y,
        region.end_y() <= h <= i32::MAX,
        first_cell(region.y as int, div_up(h as int, CELL as int)) <= start < end,
        end <= end_cell(region.y as int, region.end_y(), div_up(h as int, CELL as int)),
        0 < region.height,
    ensures
        b == run_band(region, (start as int, end as int)),
{
    let top = start * CELL - BAND_MARGIN;
    let y0 = if top > region.y as i64 {
        top
    } else {
        region.y as i64
    };
    let bottom = end * CELL + BAND_MARGIN;
    let y1 = if bottom < region.bottom_wide() {
        bottom
    } else {
        region.bottom_wide()
    };
    Band { x0: region.x, y0: y0 as i32, w: region.width, h: (y1 - y0) as i32 }
}

/// Bands to re-read: within each monitor, the changed cell-rows clustered into
/// vertical runs (padded by [`BAND_MARGIN`], clipped to the monitor). Cells
/// outside every monitor are ignored: that void is where a multi-head root
/// holds the ever-changing undefined pixels that must never trip a re-read.
/// Empty if only noise (≤ [`NOISE_CELLS`] cells across all monitors) moved.
fn changed_bands(rgb: &[u8], prev: &Vec<u8>, width: i32, height: i32, regions: &Vec<Rect>) -> (r: Vec<
    Band,
>)
    requires
        width > 0 && height > 0 ==> (Diff {
            now: rgb@,
            base: prev@,
            w: width as int,
            h: height as int,
            regions: regions@,
        }).sound(),
    ensures
        r@ == (Diff {
            now: rgb@,
            base: prev@,
            w: width as int,
            h: height as int,
            regions: regions@,
        }).bands(),
{
    let ghost d = Diff {
        now: rgb@,
        base: prev@,
        w: width as int,
        h: height as int,
        regions: regions@,
    };
    let mut bands: Vec<Band> = Vec::new();
    if width <= 0 || height <= 0 {
        return bands;
    }
    let mut total: u128 = 0;
    let mut i: usize = 0;
    while i < regions.len()
        invariant
            d == (Diff {
                now: rgb@,
                base: prev@,
                w: width as int,
                h: height as int,
                regions: regions@,
            }),
            d.sound(),
            i <= regions@.len(),
            total == d.total(i as nat),
            total <= i * 0x1_0000_0000_0000_0000,
            bands@ == d.bands_up_to(i as nat),
        decreases regions@.len() - i,
    {
        let (n, mut more) = region_scan(rgb, prev, width as i64, height as i64, regions, i);
        assert(i * 0x1_0000_0000_0000_0000 + 0x1_0000_0000_0000_0000
            <= 0x1_0000_0000_0000_0000 * 0x1_0000_0000_0000_0000);
        total = total + n;
        bands.append(&mut more);
        i += 1;
    }
    if total <= NOISE_CELLS {
        return Vec::new();
    }
    bands
}

/// Pieces are no taller than the band, and there is one for every row of it.
proof fn lemma_pieces(h: int, chunk: int, i: int)
    requires
        0 < chunk < h,
        0 <= i,
    ensures
        1 <= piece_base(h, chunk) <= h,
        i < div_up(h, piece_base(h, chunk)) <==> i * piece_base(h, chunk) < h,
        piece_base(h, chunk) <= chunk,
{
    let n = div_up(h, chunk);
    assert(1 <= n && n <= h && n * chunk >= h) by (nonlinear_arith)
        requires
            n == (h + chunk - 1) / chunk,
            0 < chunk < h,
    ;
    let base = div_up(h, n);
    assert(1 <= base && base <= h && (base - 1) * n < h) by (nonlinear_arith)
        requires
            base == (h + n - 1) / n,
            1 <= n <= h,
    ;
    if base > chunk {
        assert(chunk * n <= (base - 1) * n) by (nonlinear_arith)
            requires
                base - 1 >= chunk,
                n >= 1,
        ;
        assert(chunk * n == n * chunk) by (nonlinear_arith);
    }
    let m = div_up(h, base);
    assert(i < m <==> i * base < h) by (nonlinear_arith)
        requires
            m == (h + base - 1) / base,
            base >= 1,
            h >= 1,
            i >= 0,
    ;
}

/// Split a band taller than `chunk` into overlapping pieces (in `y` only, keeping
/// its monitor width) so a large change still OCRs in parallel rather than as one
/// giant image.
fn split_band(band: Band, chunk: i64, overlap: i32) -> (r: Vec<Band>)
    requires
        chunk > 0,
        overlap >= 0,
        band.y0 + band.h <= i32::MAX,
    ensures
        r@ == pieces(band, chunk as int, overlap as int),
{
    let mut bands: Vec<Band> = Vec::new();
    let h = band.h as i64;
    if h <= chunk {
        bands.push(band);
        assert(bands@ == seq![band]);
        return bands;
    }
    proof {
        lemma_pieces(h as int, chunk as int, 0);
    }
    let n = (h + chunk - 1) / chunk;
    proof {
        assert(1 <= n && n <= h) by (nonlinear_arith)
            requires
                n == (h + chunk - 1) / (chunk as int),
                0 < chunk < h,
        ;
    }
    let base = (h + n - 1) / n;
    let ghost all = pieces(band, chunk as int, overlap as int);
    let y0 = band.y0 as i64;
    let mut i: i64 = 0;
    let mut at: i64 = 0;
    assert(0 * base == 0) by (nonlinear_arith);
    while at < h
        invariant
            0 < chunk < h,
            overlap >= 0,
            h == band.h,
            y0 == band.y0,
            y0 + h <= i32::MAX,
            base == piece_base(h as int, chunk as int),
            1 <= base <= h,
            0 <= i <= at,
            at == i * base,
            at <= h + base,
            all == pieces(band, chunk as int, overlap as int),
            all.len() == div_up(h as int, base as int),
            i <= all.len(),
            bands@ == all.take(i as int),
            at >= h ==> i == all.len(),
        decreases (if at < h {
                h - at
            } else {
                0
            }),
    {
        proof {
            lemma_pieces(h as int, chunk as int, i as int);
            lemma_pieces(h as int, chunk as int, i + 1);
            assert((i + 1) * base == i * base + base) by (nonlinear_arith);
        }
        let lead = if i > 0 {
            overlap as i64
        } else {
            0
        };
        let s = if at > lead {
            y0 + at - lead
        } else {
            y0
        };
        let e = if at + base + (overlap as i64) < h {
            y0 + at + base + overlap as i64
        } else {
            y0 + h
        };
        let ghost before = bands@;
        bands.push(Band { x0: band.x0, y0: s as i32, w: band.w, h: (e - s) as i32 });
        proof {
            assert(all[i as int] == piece(band, base as int, overlap as int, i as int));
            assert(all.take(i + 1) == all.take(i as int).push(all[i as int]));
        }
        at = at + base;
        i = i + 1;
    }
    assert(all.take(i as int) == all);
    bands
}

/// Tile one monitor rectangle into `tiles` overlapping horizontal bands (full
/// monitor width), so a cold scan reads each head independently and in parallel.
fn tile_region(region: Rect, tiles: usize, overlap: i32) -> (r: Vec<Band>)
    requires
        overlap >= 0,
        0 <= region.y,
        region.end_y() <= i32::MAX,
    ensures
        r@ == tiled(region, tiles as int, overlap as int),
{
    let strips = plan_bands(region.height, tiles, overlap);
    let ghost all = tiled(region, tiles as int, overlap as int);
    assert(pairs(strips@).len() == strips@.len());
    let mut bands: Vec<Band> = Vec::new();
    let mut i: usize = 0;
    while i < strips.len()
        invariant
            i <= strips@.len(),
            overlap >= 0,
            0 <= region.y,
            region.end_y() <= i32::MAX,
            pairs(strips@) == bands_of(region.height as int, tiles as int, overlap as int),
            pairs(strips@).len() == strips@.len(),
            all == tiled(region, tiles as int, overlap as int),
            bands@ == all.take(i as int),
        decreases strips@.len() - i,
    {
        let (y0, h) = strips[i];
        proof {
            assert(pairs(strips@)[i as int] == (y0 as int, h as int));
            if region.height > 0 {
                super::lemma_count(region.height as int, tiles as int, i as int);
            }
            super::law_bands_lie_inside(
                region.height as int,
                tiles as int,
                overlap as int,
                i as int,
            );
            assert(all.take(i + 1) == all.take(i as int).push(all[i as int]));
        }
        bands.push(Band { x0: region.x, y0: region.y + y0, w: region.width, h });
        i += 1;
    }
    assert(all.take(i as int) == all);
    bands
}

/// Adopt `band` of the capture `rgb` into the baseline, row segment by row
/// segment (the band is only as wide as its monitor, not the whole capture).
fn adopt(prev: &mut Vec<u8>, rgb: &[u8], band: Band, width: i32)
    ensures
        final(prev)@ == adopted(old(prev)@, rgb@, band, greater(width as int, 0) * 3),
{
    let stride: u64 = if width > 0 {
        width as u64 * 3
    } else {
        0
    };
    let x0: u64 = if band.x0 > 0 {
        band.x0 as u64 * 3
    } else {
        0
    };
    let right = band.x0 as i64 + band.w as i64;
    let want: u64 = if right > 0 {
        right as u64 * 3
    } else {
        0
    };
    let xend = if want < stride {
        want
    } else {
        stride
    };
    let limit: usize = if prev.len() <= rgb.len() {
        prev.len()
    } else {
        rgb.len()
    };
    let ghost given = prev@;
    let ghost goal = adopted(given, rgb@, band, stride as int);
    if x0 >= xend {
        assert(prev@ == goal);
        return;
    }
    let below = band.y0 as i64 + band.h as i64;
    let y1: u64 = if below > 0 {
        below as u64
    } else {
        0
    };
    let mut y: u64 = if band.y0 > 0 {
        band.y0 as u64
    } else {
        0
    };
    while y < y1
        invariant
            stride == greater(width as int, 0) * 3,
            x0 == greater(band.x0 as int, 0) * 3,
            xend == lesser(greater(band.x0 + band.w, 0) * 3, stride as int),
            x0 < xend <= stride <= 0x2_0000_0000,
            limit == lesser(given.len() as int, rgb@.len() as int),
            greater(band.y0 as int, 0) <= y,
            y1 == greater(band.y0 + band.h, 0),
            y1 <= 0x1_0000_0000,
            goal == adopted(given, rgb@, band, stride as int),
            prev@.len() == given.len(),
            forall|i: int|
                #![trigger prev@[i]]
                0 <= i < given.len() ==> prev@[i] == if i / (stride as int) < y {
                    goal[i]
                } else {
                    given[i]
                },
        decreases y1 - y,
    {
        assert(0 <= y * stride <= 0x1_0000_0000 * 0x2_0000_0000) by (nonlinear_arith)
            requires
                0 <= y <= 0x1_0000_0000,
                0 <= stride <= 0x2_0000_0000,
        ;
        let base = y as u128 * stride as u128;
        if base + xend as u128 <= limit as u128 {
            let s = (base + x0 as u128) as usize;
            let e = (base + xend as u128) as usize;
            let mut j = s;
            while j < e
                invariant
                    stride == greater(width as int, 0) * 3,
                    x0 == greater(band.x0 as int, 0) * 3,
                    xend == lesser(greater(band.x0 + band.w, 0) * 3, stride as int),
                    x0 < xend <= stride,
                    limit == lesser(given.len() as int, rgb@.len() as int),
                    greater(band.y0 as int, 0) <= y < y1,
                    y1 == greater(band.y0 + band.h, 0),
                    base == y * stride,
                    s == base + x0,
                    e == base + xend,
                    s <= j <= e <= limit,
                    goal == adopted(given, rgb@, band, stride as int),
                    prev@.len() == given.len(),
                    forall|i: int|
                        #![trigger prev@[i]]
                        0 <= i < given.len() ==> prev@[i] == if i / (stride as int) < y || (s <= i
                            < j) {
                            goal[i]
                        } else {
                            given[i]
                        },
                decreases e - j,
            {
                let ghost before = prev@;
                proof {
                    crate::capture::lemma_cell(stride as int, j - base, y as int);
                }
                prev.set(j, rgb[j]);
                proof {
                    assert(adopts(band, stride as int, limit as int, j as int));
                    assert forall|i: int|
                        #![trigger prev@[i]]
                        0 <= i < given.len() implies prev@[i] == if i / (stride as int) < y || (s
                        <= i < j + 1) {
                        goal[i]
                    } else {
                        given[i]
                    } by {
                        if i != j {
                            assert(prev@[i] == before[i]);
                        }
                    }
                }
                j += 1;
            }
            proof {
                assert forall|i: int|
                    #![trigger prev@[i]]
                    0 <= i < given.len() implies prev@[i] == if i / (stride as int) < y + 1 {
                    goal[i]
                } else {
                    given[i]
                } by {
                    lemma_row_of(i, stride as int, y as int);
                    if s <= i < e {
                        crate::capture::lemma_cell(stride as int, i - base, y as int);
                    }
                }
            }
        } else {
            proof {
                assert forall|i: int|
                    #![trigger prev@[i]]
                    0 <= i < given.len() implies prev@[i] == if i / (stride as int) < y + 1 {
                    goal[i]
                } else {
                    given[i]
                } by {
                    lemma_row_of(i, stride as int, y as int);
                }
            }
        }
        y += 1;
    }
    assert forall|i: int| 0 <= i < given.len() implies prev@[i] == goal[i] by {}
    assert(prev@ == goal);
}

/// Byte `i` lies in row `y` of rows of `stride` bytes exactly if it is that many
/// bytes in.
proof fn lemma_row_of(i: int, stride: int, y: int)
    requires
        stride > 0,
    ensures
        i / stride == y <==> y * stride <= i < y * stride + stride,
        i / stride == y ==> i == y * stride + i % stride,
{
    assert((i / stride == y <==> y * stride <= i < y * stride + stride) && (i / stride == y ==> i
        == y * stride + i % stride)) by (nonlinear_arith)
        requires
            stride > 0,
    ;
}

impl ScanCache {
    /// The monitor rectangles to plan bands within, clamped to the capture. Falls
    /// back to the whole capture when none are known, so single-head behaves
    /// exactly the same.
    fn regions(&self) -> (r: Vec<Rect>)
        ensures
            r@ == regions_of(self.monitors@, self.width, self.height),
    {
        let screen = Rect::new(0, 0, self.width, self.height);
        let mut r: Vec<Rect> = Vec::new();
        let mut i: usize = 0;
        while i < self.monitors.len()
            invariant
                i <= self.monitors@.len(),
                r@ == visible_parts(self.monitors@.take(i as int), screen),
            decreases self.monitors@.len() - i,
        {
            assert(self.monitors@.take(i + 1).drop_last() == self.monitors@.take(i as int));
            if let Some(part) = self.monitors[i].clamp_to(screen) {
                r.push(part);
            }
            i += 1;
        }
        assert(self.monitors@.take(i as int) == self.monitors@);
        if r.len() == 0 {
            r.push(screen);
            assert(r@ == seq![screen]);
        }
        r
    }

    /// Start over when the screen or the tiling is not what it was.
    fn ensure_grid(&mut self, width: i32, height: i32, tiles: usize, overlap: i32)
        ensures
            final(self).same_grid(width as int, height as int, tiles as int, overlap as int),
            final(self).monitors == old(self).monitors,
            final(self).prev == old(self).prev,
            old(self).same_grid(width as int, height as int, tiles as int, overlap as int)
                ==> *final(self) == *old(self),
            !old(self).same_grid(width as int, height as int, tiles as int, overlap as int)
                ==> !final(self).have_prev && final(self).words@.len() == 0,
    {
        if self.width == width && self.height == height && self.tiles == tiles && self.overlap
            == overlap {
            return;
        }
        self.width = width;
        self.height = height;
        self.tiles = tiles;
        self.overlap = overlap;
        self.have_prev = false;
        self.words = Vec::new();
    }

    /// Decide which bands to OCR for the capture `rgb`. Cold scans return the
    /// whole screen as `tiles` overlapping bands; warm scans return tight bands
    /// around what changed, or nothing if only noise moved.
    ///
    /// Planning does **not** touch the baseline: each band is adopted only when
    /// it is actually [`splice`](ScanCache::splice)d back in. So a scan that is
    /// aborted before its bands are read leaves the baseline (and the cached
    /// words) untouched, and those regions are simply re-planned next time rather
    /// than going stale: what was planned and not spliced in comes back, even if
    /// too little of it differs from the baseline to be read again by itself.
    pub fn plan(&mut self, rgb: &[u8], width: i32, height: i32, tiles: usize, overlap: i32) -> (r:
        Vec<Band>)
        requires
            overlap >= 0,
        ensures
            r@ == old(self).next_plan(rgb@, width, height, tiles, overlap),
            old(self).becomes(*final(self), rgb@, width, height, tiles, overlap),
    {
        self.ensure_grid(width, height, tiles, overlap);
        if self.prev.len() != rgb.len() {
            self.prev = zeros(rgb.len());
            self.have_prev = false;
            self.words = Vec::new();
        }
        self.dropped = false;
        let regions = self.regions();
        proof {
            lemma_regions_inside(self.monitors@, width, height);
        }
        if self.have_prev && whole_screen(rgb.len(), width, height) {
            // Only split a change band for parallelism when it is genuinely large
            // (a full scroll), not for an ordinary localised edit.
            let share = if height > 0 {
                (height as u128 / (if tiles > 0 {
                    tiles as u128
                } else {
                    1
                })) as i64
            } else {
                0
            };
            let chunk = if share > MIN_CHUNK {
                share
            } else {
                MIN_CHUNK
            };
            proof {
                lemma_chunk(height as int, tiles as int);
            }
            let changed = changed_bands(rgb, &self.prev, width, height, &regions);
            let ghost d = self.diff(rgb@, width, height);
            proof {
                if width > 0 && height > 0 {
                    lemma_bands_within(d);
                }
            }
            let mut bands = split_all(&changed, chunk, overlap);
            let mut rest = not_part_of(&fit_all(&self.unread, &regions), &changed);
            bands.append(&mut rest);
            self.unread = bands;
        } else {
            self.have_prev = false;
            self.words = Vec::new();
            // A cold scan tiles every monitor independently, so no band ever spans
            // the gap between two heads or the void beside a shorter one.
            self.unread = tile_all(&regions, tiles, overlap);
        }
        copy_bands(&self.unread)
    }

    /// Replace the words inside a re-read `band` with the freshly OCR'd ones,
    /// keeping every word outside it, and adopt the band's pixels into the
    /// baseline now that it has actually been read. `origin` is the capture's
    /// screen-space top left (so band coordinates line up with the absolute word
    /// boxes); `rgb` is the capture the band was OCR'd from.
    pub fn splice(&mut self, rgb: &[u8], origin: (i32, i32), band: Band, new_words: Vec<Word>)
        ensures
            final(self).same_grid(
                old(self).width as int,
                old(self).height as int,
                old(self).tiles as int,
                old(self).overlap as int,
            ),
            final(self).monitors == old(self).monitors,
            final(self).have_prev == (old(self).have_prev || !old(self).dropped),
            final(self).dropped == old(self).dropped,
            final(self).unread@ == old(self).unread@.filter(|b: Band| b != band),
            final(self).prev@ == adopted(
                old(self).prev@,
                rgb@,
                band,
                greater(old(self).width as int, 0) * 3,
            ),
            final(self).words@ == spliced(
                old(self).words@,
                band,
                new_words@,
                (origin.0 as int, origin.1 as int),
            ),
    {
        // Only spliced bands move the baseline, so an aborted scan (whose bands
        // never reach here) re-reads them later.
        let width = self.width;
        adopt(&mut self.prev, rgb, band, width);
        self.unread = without(&self.unread, band);
        // A band that was planned before the baseline was dropped brings none back.
        if !self.dropped {
            self.have_prev = true;
        }
        // Replace the cached words that lay inside the band; keep the rest.
        let mut kept: Vec<Word> = Vec::new();
        let mut words: Vec<Word> = Vec::new();
        words.append(&mut self.words);
        let ghost given = words@;
        let ghost stays = |w: Word| outlives(w, band, (origin.0 as int, origin.1 as int));
        proof {
            reveal(Seq::filter);
        }
        for w in it: words
            invariant
                it.seq() == given,
                stays == (|w: Word| outlives(w, band, (origin.0 as int, origin.1 as int))),
                kept@ == given.take(it.index() as int).filter(stays),
        {
            let ghost k = it.index() as int;
            proof {
                reveal(Seq::filter);
                assert(given.take(k + 1).drop_last() == given.take(k));
                assert(given.take(k + 1).last() == w);
            }
            let x = w.rect.x as i64 + (w.rect.width / 2) as i64 - origin.0 as i64;
            let y = w.rect.y as i64 + (w.rect.height / 2) as i64 - origin.1 as i64;
            if !band.contains(x, y) {
                kept.push(w);
            }
        }
        assert(given.take(given.len() as int) == given);
        let mut fresh = new_words;
        kept.append(&mut fresh);
        self.words = kept;
    }

    /// Every word currently cached.
    pub fn all_words(&self) -> (r: Vec<Word>)
        ensures
            word_shapes(r@) == word_shapes(self.words@),
    {
        let mut r: Vec<Word> = Vec::new();
        let mut i: usize = 0;
        while i < self.words.len()
            invariant
                i <= self.words@.len(),
                word_shapes(r@) == word_shapes(self.words@).take(i as int),
            decreases self.words@.len() - i,
        {
            let ghost before = r@;
            let w = self.words[i].duplicate();
            let ghost shown = (w.rect, w.text@);
            r.push(w);
            assert(word_shapes(r@) == word_shapes(before).push(shown));
            assert(word_shapes(r@) == word_shapes(self.words@).take(i + 1));
            i += 1;
        }
        r
    }
}

impl Default for ScanCache {
    fn default() -> (c: Self)
        ensures
            c.width == 0,
            c.height == 0,
            c.tiles == 0,
            c.overlap == 0,
            c.monitors@.len() == 0,
            c.prev@.len() == 0,
            !c.have_prev,
            !c.dropped,
            c.unread@.len() == 0,
            c.words@.len() == 0,
    {
        Self::new()
    }
}

/// Whether `len` bytes hold the pixels of a `width`×`height` screen.
fn whole_screen(len: usize, width: i32, height: i32) -> (b: bool)
    ensures
        b == holds_screen(len as int, width as int, height as int),
{
    if width <= 0 || height <= 0 {
        return true;
    }
    assert(0 <= width * height <= i32::MAX * i32::MAX) by (nonlinear_arith)
        requires
            0 <= width <= i32::MAX,
            0 <= height <= i32::MAX,
    ;
    len as u128 >= width as u128 * height as u128 * 3
}

/// Fit `b` to the monitors.
fn fit(b: Band, regions: &Vec<Rect>) -> (r: Vec<Band>)
    ensures
        r@ == refit(b, regions@),
{
    let mut r: Vec<Band> = Vec::new();
    let left = b.x0 as i64;
    let right = b.x0 as i64 + b.w as i64;
    let top = b.y0 as i64;
    let bottom = b.y0 as i64 + b.h as i64;
    let mut i: usize = 0;
    while i < regions.len()
        invariant
            i <= regions@.len(),
            left == b.x0,
            right == b.x0 + b.w,
            top == b.y0,
            bottom == b.y0 + b.h,
            forall|k: int| 0 <= k < i ==> !b.within(#[trigger] regions@[k]),
            r@ == cut_up(b, regions@.take(i as int)),
        decreases regions@.len() - i,
    {
        let region = regions[i];
        let x1 = region.right_wide();
        let y1 = region.bottom_wide();
        if b.x0 == region.x && b.w == region.width && region.y as i64 <= top && b.h > 0 && bottom
            <= y1 {
            assert(b.within(regions@[i as int]));
            let mut one: Vec<Band> = Vec::new();
            one.push(b);
            assert(one@ == seq![b]);
            return one;
        }
        assert(regions@.take(i + 1).drop_last() == regions@.take(i as int));
        assert(regions@.take(i + 1).last() == region);
        let x_from = if left >= region.x as i64 {
            left
        } else {
            region.x as i64
        };
        let x_to = if right <= x1 {
            right
        } else {
            x1
        };
        let y_from = if top >= region.y as i64 {
            top
        } else {
            region.y as i64
        };
        let y_to = if bottom <= y1 {
            bottom
        } else {
            y1
        };
        if x_from < x_to && y_from < y_to {
            r.push(
                Band { x0: region.x, y0: y_from as i32, w: region.width, h: (y_to - y_from) as i32 },
            );
        }
        i += 1;
    }
    assert(regions@.take(i as int) == regions@);
    r
}

/// Fit every band of `bands` to the monitors.
fn fit_all(bands: &Vec<Band>, regions: &Vec<Rect>) -> (r: Vec<Band>)
    ensures
        r@ == refit_all(bands@, regions@),
{
    let mut r: Vec<Band> = Vec::new();
    let mut i: usize = 0;
    while i < bands.len()
        invariant
            i <= bands@.len(),
            r@ == refit_all(bands@.take(i as int), regions@),
        decreases bands@.len() - i,
    {
        assert(bands@.take(i + 1).drop_last() == bands@.take(i as int));
        let mut more = fit(bands[i], regions);
        r.append(&mut more);
        i += 1;
    }
    assert(bands@.take(i as int) == bands@);
    r
}

/// Whether `b` lies in one of `bands`, on the same monitor.
fn is_part_of(b: Band, bands: &Vec<Band>) -> (r: bool)
    ensures
        r == part_of(b, bands@),
{
    let mut i: usize = 0;
    while i < bands.len()
        invariant
            i <= bands@.len(),
            forall|k: int|
                0 <= k < i ==> !((#[trigger] bands@[k]).x0 == b.x0 && bands@[k].w == b.w
                    && bands@[k].y0 <= b.y0 && b.y0 + b.h <= bands@[k].y0 + bands@[k].h),
        decreases bands@.len() - i,
    {
        let d = bands[i];
        if d.x0 == b.x0 && d.w == b.w && d.y0 <= b.y0 && b.y0 as i64 + b.h as i64 <= d.y0 as i64
            + d.h as i64 {
            assert(bands@[i as int] == d);
            return true;
        }
        i += 1;
    }
    false
}

/// The bands of `waiting` that lie in none of `bands`.
fn not_part_of(waiting: &Vec<Band>, bands: &Vec<Band>) -> (r: Vec<Band>)
    ensures
        r@ == left_over(waiting@, bands@),
{
    let ghost alone = |b: Band| !part_of(b, bands@);
    let mut r: Vec<Band> = Vec::new();
    let mut i: usize = 0;
    proof {
        reveal(Seq::filter);
    }
    while i < waiting.len()
        invariant
            i <= waiting@.len(),
            alone == (|b: Band| !part_of(b, bands@)),
            r@ == waiting@.take(i as int).filter(alone),
        decreases waiting@.len() - i,
    {
        proof {
            reveal(Seq::filter);
            assert(waiting@.take(i + 1).drop_last() == waiting@.take(i as int));
        }
        if !is_part_of(waiting[i], bands) {
            r.push(waiting[i]);
        }
        i += 1;
    }
    assert(waiting@.take(i as int) == waiting@);
    r
}

/// A copy of `bands`.
fn copy_bands(bands: &Vec<Band>) -> (r: Vec<Band>)
    ensures
        r@ == bands@,
{
    let mut r: Vec<Band> = Vec::new();
    let mut i: usize = 0;
    while i < bands.len()
        invariant
            i <= bands@.len(),
            r@ == bands@.take(i as int),
        decreases bands@.len() - i,
    {
        r.push(bands[i]);
        assert(r@ == bands@.take(i + 1));
        i += 1;
    }
    assert(bands@.take(i as int) == bands@);
    r
}

/// `bands` without every occurrence of `band`.
fn without(bands: &Vec<Band>, band: Band) -> (r: Vec<Band>)
    ensures
        r@ == bands@.filter(|b: Band| b != band),
{
    let ghost other = |b: Band| b != band;
    let mut r: Vec<Band> = Vec::new();
    let mut i: usize = 0;
    proof {
        reveal(Seq::filter);
    }
    while i < bands.len()
        invariant
            i <= bands@.len(),
            other == (|b: Band| b != band),
            r@ == bands@.take(i as int).filter(other),
        decreases bands@.len() - i,
    {
        proof {
            reveal(Seq::filter);
            assert(bands@.take(i + 1).drop_last() == bands@.take(i as int));
        }
        if bands[i] != band {
            r.push(bands[i]);
        }
        i += 1;
    }
    assert(bands@.take(i as int) == bands@);
    r
}

/// `n` zero bytes.
fn zeros(n: usize) -> (v: Vec<u8>)
    ensures
        v@ == Seq::new(n as nat, |i: int| 0u8),
{
    let mut v: Vec<u8> = Vec::new();
    let mut i: usize = 0;
    while i < n
        invariant
            i <= n,
            v@ == Seq::new(i as nat, |i: int| 0u8),
        decreases n - i,
    {
        v.push(0);
        assert(v@ == Seq::new((i + 1) as nat, |i: int| 0u8));
        i += 1;
    }
    v
}

proof fn lemma_chunk(height: int, tiles: int)
    ensures
        height > 0 ==> 0 <= height / greater(tiles, 1) <= height,
        height <= 0 ==> height / greater(tiles, 1) <= 0,
{
    let t = greater(tiles, 1);
    assert((height > 0 ==> 0 <= height / t <= height) && (height <= 0 ==> height / t <= 0))
        by (nonlinear_arith)
        requires
            t >= 1,
    ;
}

/// Split every band of `bands`.
fn split_all(bands: &Vec<Band>, chunk: i64, overlap: i32) -> (r: Vec<Band>)
    requires
        chunk > 0,
        overlap >= 0,
        forall|i: int|
            0 <= i < bands@.len() ==> (#[trigger] bands@[i]).y0 + bands@[i].h <= i32::MAX,
    ensures
        r@ == all_pieces(bands@, chunk as int, overlap as int),
{
    let mut r: Vec<Band> = Vec::new();
    let mut i: usize = 0;
    while i < bands.len()
        invariant
            i <= bands@.len(),
            chunk > 0,
            overlap >= 0,
            forall|i: int|
                0 <= i < bands@.len() ==> (#[trigger] bands@[i]).y0 + bands@[i].h <= i32::MAX,
            r@ == all_pieces(bands@.take(i as int), chunk as int, overlap as int),
        decreases bands@.len() - i,
    {
        assert(bands@.take(i + 1).drop_last() == bands@.take(i as int));
        let mut more = split_band(bands[i], chunk, overlap);
        r.append(&mut more);
        i += 1;
    }
    assert(bands@.take(i as int) == bands@);
    r
}

/// Tile every monitor of `regions`.
fn tile_all(regions: &Vec<Rect>, tiles: usize, overlap: i32) -> (r: Vec<Band>)
    requires
        overlap >= 0,
        forall|i: int|
            0 <= i < regions@.len() ==> 0 <= (#[trigger] regions@[i]).y && regions@[i].end_y()
                <= i32::MAX,
    ensures
        r@ == all_tiled(regions@, tiles as int, overlap as int),
{
    let mut r: Vec<Band> = Vec::new();
    let mut i: usize = 0;
    while i < regions.len()
        invariant
            i <= regions@.len(),
            overlap >= 0,
            forall|i: int|
                0 <= i < regions@.len() ==> 0 <= (#[trigger] regions@[i]).y && regions@[i].end_y()
                    <= i32::MAX,
            r@ == all_tiled(regions@.take(i as int), tiles as int, overlap as int),
        decreases regions@.len() - i,
    {
        assert(regions@.take(i + 1).drop_last() == regions@.take(i as int));
        let mut more = tile_region(regions[i], tiles, overlap);
        r.append(&mut more);
        i += 1;
    }
    assert(regions@.take(i as int) == regions@);
    r
}

/// Every run lies within the rows of cells of its monitor.
proof fn lemma_runs(d: Diff, region: Rect, r: int)
    requires
        r <= d.end_row(region),
    ensures
        forall|i: int|
            0 <= i < d.runs(region, r).len() ==> d.top_row(region) <= (
            #[trigger] d.runs(region, r)[i]).0 < d.runs(region, r)[i].1 <= r,
    decreases r - d.top_row(region),
{
    if r > d.top_row(region) {
        lemma_runs(d, region, r - 1);
        let before = d.runs(region, r - 1);
        let all = d.runs(region, r);
        assert forall|i: int| 0 <= i < all.len() implies d.top_row(region) <= (
        #[trigger] all[i]).0 < all[i].1 <= r by {
            if i < before.len() {
                assert(d.top_row(region) <= before[i].0 < before[i].1 <= r - 1);
            }
        }
    }
}

/// The band around a run lies within its monitor.
proof fn lemma_run_band(d: Diff, region: Rect, run: (int, int))
    requires
        0 < d.h <= i32::MAX,
        0 <= region.y,
        0 < region.height,
        region.end_y() <= d.h,
        d.top_row(region) <= run.0 < run.1 <= d.end_row(region),
    ensures
        run_band(region, run).within(region),
        run_band(region, run).y0 == run_top(region, run),
        run_band(region, run).y0 + run_band(region, run).h == run_bottom(region, run),
{
}

/// Every band to re-read lies within one monitor.
proof fn lemma_bands_within(d: Diff)
    requires
        d.sound(),
    ensures
        forall|i: int|
            0 <= i < d.bands().len() ==> exists|k: int|
                0 <= k < d.regions.len() && (#[trigger] d.bands()[i]).within(
                    #[trigger] d.regions[k],
                ),
        forall|i: int|
            0 <= i < d.bands().len() ==> (#[trigger] d.bands()[i]).y0 + d.bands()[i].h <= i32::MAX,
{
    lemma_bands_up_to(d, d.regions.len());
}

proof fn lemma_bands_up_to(d: Diff, n: nat)
    requires
        d.sound(),
        n <= d.regions.len(),
    ensures
        forall|i: int|
            0 <= i < d.bands_up_to(n).len() ==> exists|k: int|
                0 <= k < d.regions.len() && (#[trigger] d.bands_up_to(n)[i]).within(
                    #[trigger] d.regions[k],
                ),
    decreases n,
{
    if n > 0 {
        lemma_bands_up_to(d, (n - 1) as nat);
        let region = d.regions[n - 1];
        let before = d.bands_up_to((n - 1) as nat);
        let all = d.bands_up_to(n);
        lemma_runs(d, region, d.end_row(region));
        assert forall|i: int| 0 <= i < all.len() implies exists|k: int|
            0 <= k < d.regions.len() && (#[trigger] all[i]).within(#[trigger] d.regions[k]) by {
            if i < before.len() {
                assert(all[i] == before[i]);
            } else {
                let run = d.runs(region, d.end_row(region))[i - before.len()];
                lemma_run_band(d, region, run);
                assert(all[i] == run_band(region, run));
                assert(all[i].within(d.regions[n - 1]));
            }
        }
    }
}

// --- Laws -----------------------------------------------------------------

/// Counting over fewer differences gives no more, cell by cell.
proof fn lemma_row_count_le(a: Diff, b: Diff, y: int, x0: int, x1: int)
    requires
        forall|x: int| x0 <= x < x1 && #[trigger] a.counts(x, y) ==> b.counts(x, y),
    ensures
        0 <= a.row_count(y, x0, x1) <= b.row_count(y, x0, x1),
    decreases x1 - x0,
{
    if x1 > x0 {
        lemma_row_count_le(a, b, y, x0, x1 - 1);
    }
}

proof fn lemma_area_count_le(a: Diff, b: Diff, x0: int, x1: int, y0: int, y1: int)
    requires
        forall|x: int, y: int|
            x0 <= x < x1 && y0 <= y < y1 && #[trigger] a.counts(x, y) ==> b.counts(x, y),
    ensures
        0 <= a.area_count(x0, x1, y0, y1) <= b.area_count(x0, x1, y0, y1),
    decreases y1 - y0,
{
    if y1 > y0 {
        lemma_area_count_le(a, b, x0, x1, y0, y1 - 1);
        lemma_row_count_le(a, b, y1 - 1, x0, x1);
    }
}

/// An area in which nothing counts has count 0.
proof fn lemma_row_count_zero(d: Diff, y: int, x0: int, x1: int)
    requires
        forall|x: int| x0 <= x < x1 ==> !#[trigger] d.counts(x, y),
    ensures
        d.row_count(y, x0, x1) == 0,
    decreases x1 - x0,
{
    if x1 > x0 {
        lemma_row_count_zero(d, y, x0, x1 - 1);
    }
}

proof fn lemma_area_count_zero(d: Diff, x0: int, x1: int, y0: int, y1: int)
    requires
        forall|x: int, y: int| x0 <= x < x1 && y0 <= y < y1 ==> !#[trigger] d.counts(x, y),
    ensures
        d.area_count(x0, x1, y0, y1) == 0,
    decreases y1 - y0,
{
    if y1 > y0 {
        lemma_area_count_zero(d, x0, x1, y0, y1 - 1);
        lemma_row_count_zero(d, y1 - 1, x0, x1);
    }
}

proof fn lemma_hits_zero(d: Diff, r: int, c0: int, c1: int)
    requires
        forall|c: int| c0 <= c < c1 ==> !#[trigger] d.hot(r, c),
    ensures
        d.hits(r, c0, c1) == 0,
    decreases c1 - c0,
{
    if c1 > c0 {
        lemma_hits_zero(d, r, c0, c1 - 1);
    }
}

proof fn lemma_hits_positive(d: Diff, r: int, c0: int, c1: int, c: int)
    requires
        c0 <= c < c1,
        d.hot(r, c),
    ensures
        d.hits(r, c0, c1) > 0,
    decreases c1 - c0,
{
    if c < c1 - 1 {
        lemma_hits_positive(d, r, c0, c1 - 1, c);
    } else {
        lemma_hits_nonnegative(d, r, c0, c1 - 1);
    }
}

proof fn lemma_hits_nonnegative(d: Diff, r: int, c0: int, c1: int)
    ensures
        d.hits(r, c0, c1) >= 0,
    decreases c1 - c0,
{
    if c1 > c0 {
        lemma_hits_nonnegative(d, r, c0, c1 - 1);
    }
}

proof fn lemma_hits_up_to_zero(d: Diff, region: Rect, r: int)
    requires
        0 <= region.x,
        0 <= region.y,
        r <= d.end_row(region),
        forall|r: int, c: int| 0 <= r < d.rows() && 0 <= c < d.cols() ==> !#[trigger] d.hot(r, c),
    ensures
        d.hits_up_to(region, r) == 0,
    decreases r - d.top_row(region),
{
    if r > d.top_row(region) {
        lemma_hits_up_to_zero(d, region, r - 1);
        let c0 = first_cell(region.x as int, d.cols());
        let c1 = end_cell(region.x as int, region.end_x(), d.cols());
        assert(r - 1 < d.rows());
        lemma_hits_zero(d, r - 1, c0, c1);
    }
}

proof fn lemma_total_zero(d: Diff, n: nat)
    requires
        n <= d.regions.len(),
        inside(d.regions, d.w, d.h),
        forall|r: int, c: int| 0 <= r < d.rows() && 0 <= c < d.cols() ==> !#[trigger] d.hot(r, c),
    ensures
        d.total(n) == 0,
    decreases n,
{
    if n > 0 {
        lemma_total_zero(d, (n - 1) as nat);
        let region = d.regions[n - 1];
        lemma_hits_up_to_zero(d, region, d.end_row(region));
    }
}

/// A screen on which no pixel of any monitor differs from the baseline has nothing
/// to read again, whatever happened in the void that no monitor covers.
pub proof fn law_unchanged_monitors_read_nothing(d: Diff)
    requires
        d.sound(),
        forall|x: int, y: int|
            0 <= x < d.w && 0 <= y < d.h && covered_by(x, y, d.regions) ==> !#[trigger] d.differs(
                x,
                y,
            ),
    ensures
        d.bands() == Seq::<Band>::empty(),
{
    assert forall|r: int, c: int| 0 <= r < d.rows() && 0 <= c < d.cols() implies !#[trigger] d.hot(
        r,
        c,
    ) by {
        lemma_area_count_zero(
            d,
            c * CELL,
            lesser((c + 1) * CELL, d.w),
            r * CELL,
            lesser((r + 1) * CELL, d.h),
        );
    }
    lemma_total_zero(d, d.regions.len());
}

/// A change that leaves no cell with more than a twentieth of its pixels changed
/// has nothing read again, however many cells it touches.
pub proof fn law_faint_changes_read_nothing(d: Diff)
    requires
        d.sound(),
        forall|r: int, c: int|
            0 <= r < d.rows() && 0 <= c < d.cols() ==> !#[trigger] d.hot(r, c),
    ensures
        d.bands() == Seq::<Band>::empty(),
{
    lemma_total_zero(d, d.regions.len());
}

/// A cached word whose centre lies in none of the bands that are read again is
/// still cached afterwards: what was shown before the reading was done stays
/// true.
pub proof fn law_words_outside_the_bands_stay(
    words: Seq<Word>,
    bands: Seq<Band>,
    fresh: Seq<Seq<Word>>,
    origin: (int, int),
    n: nat,
    w: Word,
)
    requires
        n <= bands.len(),
        words.contains(w),
        forall|k: int| 0 <= k < bands.len() ==> outlives(w, #[trigger] bands[k], origin),
    ensures
        spliced_all(words, bands, fresh, origin, n).contains(w),
    decreases n,
{
    if n > 0 {
        let before = spliced_all(words, bands, fresh, origin, (n - 1) as nat);
        law_words_outside_the_bands_stay(words, bands, fresh, origin, (n - 1) as nat, w);
        let kept = |v: Word| outlives(v, bands[n - 1], origin);
        let at = choose|k: int| 0 <= k < before.len() && before[k] == w;
        before.lemma_filter_contains(kept, at);
        let left = before.filter(kept);
        let k = choose|k: int| 0 <= k < left.len() && left[k] == w;
        assert((left + fresh[n - 1])[k] == w);
    }
}

/// Reading bands again leaves no stale word in them: a word that is cached
/// afterwards was either read just now, or was cached before and lies in none of
/// the bands.
pub proof fn law_no_stale_word_stays(
    words: Seq<Word>,
    bands: Seq<Band>,
    fresh: Seq<Seq<Word>>,
    origin: (int, int),
    n: nat,
    w: Word,
)
    requires
        n <= bands.len(),
        spliced_all(words, bands, fresh, origin, n).contains(w),
    ensures
        (exists|k: int| 0 <= k < n && (#[trigger] fresh[k]).contains(w)) || (words.contains(w)
            && forall|k: int| 0 <= k < n ==> outlives(w, #[trigger] bands[k], origin)),
    decreases n,
{
    if n > 0 {
        let before = spliced_all(words, bands, fresh, origin, (n - 1) as nat);
        let kept = |v: Word| outlives(v, bands[n - 1], origin);
        let left = before.filter(kept);
        let all = left + fresh[n - 1];
        let k = choose|k: int| 0 <= k < all.len() && all[k] == w;
        if k < left.len() {
            assert(left[k] == w);
            assert(left.contains(w));
            before.lemma_filter_contains_rev(kept, w);
            before.lemma_filter_pred(kept, k);
            law_no_stale_word_stays(words, bands, fresh, origin, (n - 1) as nat, w);
        } else {
            assert(fresh[n - 1][k - left.len()] == w);
            assert(fresh[n - 1].contains(w));
        }
    }
}

/// A piece of text no higher than the overlap, wherever it is in a band, is seen
/// as a whole by one of the pieces that the band is split into; in particular
/// every row is in one of them. And every piece lies within the band.
pub proof fn law_pieces_cover_the_band(band: Band, chunk: int, overlap: int, top: int, bottom: int)
    requires
        chunk > 0,
        overlap >= 0,
        band.y0 <= top < bottom <= band.y0 + band.h,
        bottom - top <= greater(overlap, 1),
        band.y0 + band.h <= i32::MAX,
    ensures
        exists|i: int|
            0 <= i < pieces(band, chunk, overlap).len() && ({
                let p = #[trigger] pieces(band, chunk, overlap)[i];
                p.y0 <= top && bottom <= p.y0 + p.h
            }),
        forall|i: int|
            0 <= i < pieces(band, chunk, overlap).len() ==> ({
                let p = #[trigger] pieces(band, chunk, overlap)[i];
                &&& p.x0 == band.x0
                &&& p.w == band.w
                &&& band.y0 <= p.y0
                &&& 0 < p.h
                &&& p.y0 + p.h <= band.y0 + band.h
            }),
{
    let y = top;
    let all = pieces(band, chunk, overlap);
    if band.h <= chunk {
        assert(all[0] == band);
    } else {
        let h = band.h as int;
        let base = piece_base(h, chunk);
        let i = (y - band.y0) / base;
        lemma_pieces(h, chunk, 0);
        assert(0 <= i && i * base <= y - band.y0 && y - band.y0 < (i + 1) * base) by (nonlinear_arith)
            requires
                i == (y - band.y0) / base,
                y - band.y0 >= 0,
                base >= 1,
        ;
        lemma_pieces(h, chunk, i);
        assert(all[i].y0 <= top && bottom <= all[i].y0 + all[i].h);
        assert forall|i: int| 0 <= i < all.len() implies ({
            let p = #[trigger] all[i];
            &&& p.x0 == band.x0
            &&& p.w == band.w
            &&& band.y0 <= p.y0
            &&& 0 < p.h
            &&& p.y0 + p.h <= band.y0 + band.h
        }) by {
            lemma_pieces(h, chunk, i);
            assert((i + 1) * base == i * base + base && i * base >= 0) by (nonlinear_arith)
                requires
                    i >= 0,
                    base >= 1,
            ;
        }
    }
}

/// `p` is a piece of one of `bands`.
spec fn piece_of(p: Band, bands: Seq<Band>, chunk: int, overlap: int) -> bool {
    exists|k: int, j: int|
        0 <= k < bands.len() && 0 <= j < pieces(bands[k], chunk, overlap).len() && p == #[trigger] pieces(
            bands[k],
            chunk,
            overlap,
        )[j]
}

/// Where a piece comes from, and where the pieces of a band are.
proof fn lemma_all_pieces(bands: Seq<Band>, chunk: int, overlap: int)
    ensures
        forall|i: int|
            0 <= i < all_pieces(bands, chunk, overlap).len() ==> piece_of(
                #[trigger] all_pieces(bands, chunk, overlap)[i],
                bands,
                chunk,
                overlap,
            ),
        forall|k: int, j: int|
            0 <= k < bands.len() && 0 <= j < pieces(bands[k], chunk, overlap).len()
                ==> all_pieces(bands, chunk, overlap).contains(
                #[trigger] pieces(bands[k], chunk, overlap)[j],
            ),
    decreases bands.len(),
{
    if bands.len() > 0 {
        let t = bands.drop_last();
        lemma_all_pieces(t, chunk, overlap);
        let before = all_pieces(t, chunk, overlap);
        let last = pieces(bands.last(), chunk, overlap);
        let all = all_pieces(bands, chunk, overlap);
        assert forall|i: int| 0 <= i < all.len() implies piece_of(
            #[trigger] all[i],
            bands,
            chunk,
            overlap,
        ) by {
            if i < before.len() {
                assert(all[i] == before[i]);
                assert(piece_of(before[i], t, chunk, overlap));
                let (k, j) = choose|k: int, j: int|
                    0 <= k < t.len() && 0 <= j < pieces(t[k], chunk, overlap).len() && before[i]
                        == #[trigger] pieces(t[k], chunk, overlap)[j];
                assert(t[k] == bands[k]);
                assert(all[i] == pieces(bands[k], chunk, overlap)[j]);
            } else {
                assert(all[i] == pieces(bands[bands.len() - 1], chunk, overlap)[i - before.len()]);
            }
        }
        assert forall|k: int, j: int|
            0 <= k < bands.len() && 0 <= j < pieces(
                bands[k],
                chunk,
                overlap,
            ).len() implies all.contains(#[trigger] pieces(bands[k], chunk, overlap)[j]) by {
            if k < t.len() {
                assert(t[k] == bands[k]);
                assert(before.contains(pieces(t[k], chunk, overlap)[j]));
                let m = choose|m: int|
                    0 <= m < before.len() && before[m] == pieces(t[k], chunk, overlap)[j];
                assert(all[m] == before[m]);
            } else {
                assert(all[before.len() + j] == last[j]);
            }
        }
    }
}

/// `p` is a strip of one of `regions`.
spec fn strip_of(p: Band, regions: Seq<Rect>, tiles: int, overlap: int) -> bool {
    exists|k: int, j: int|
        0 <= k < regions.len() && 0 <= j < tiled(regions[k], tiles, overlap).len() && p == #[trigger] tiled(
            regions[k],
            tiles,
            overlap,
        )[j]
}

/// Where a strip comes from, and where the strips of a monitor are.
proof fn lemma_all_tiled(regions: Seq<Rect>, tiles: int, overlap: int)
    ensures
        forall|i: int|
            0 <= i < all_tiled(regions, tiles, overlap).len() ==> strip_of(
                #[trigger] all_tiled(regions, tiles, overlap)[i],
                regions,
                tiles,
                overlap,
            ),
        forall|k: int, j: int|
            0 <= k < regions.len() && 0 <= j < tiled(regions[k], tiles, overlap).len()
                ==> all_tiled(regions, tiles, overlap).contains(
                #[trigger] tiled(regions[k], tiles, overlap)[j],
            ),
    decreases regions.len(),
{
    if regions.len() > 0 {
        let t = regions.drop_last();
        lemma_all_tiled(t, tiles, overlap);
        let before = all_tiled(t, tiles, overlap);
        let last = tiled(regions.last(), tiles, overlap);
        let all = all_tiled(regions, tiles, overlap);
        assert forall|i: int| 0 <= i < all.len() implies strip_of(
            #[trigger] all[i],
            regions,
            tiles,
            overlap,
        ) by {
            if i < before.len() {
                assert(all[i] == before[i]);
                assert(strip_of(before[i], t, tiles, overlap));
                let (k, j) = choose|k: int, j: int|
                    0 <= k < t.len() && 0 <= j < tiled(t[k], tiles, overlap).len() && before[i]
                        == #[trigger] tiled(t[k], tiles, overlap)[j];
                assert(t[k] == regions[k]);
                assert(all[i] == tiled(regions[k], tiles, overlap)[j]);
            } else {
                assert(all[i] == tiled(regions[regions.len() - 1], tiles, overlap)[i
                    - before.len()]);
            }
        }
        assert forall|k: int, j: int|
            0 <= k < regions.len() && 0 <= j < tiled(
                regions[k],
                tiles,
                overlap,
            ).len() implies all.contains(#[trigger] tiled(regions[k], tiles, overlap)[j]) by {
            if k < t.len() {
                assert(t[k] == regions[k]);
                assert(before.contains(tiled(t[k], tiles, overlap)[j]));
                let m = choose|m: int|
                    0 <= m < before.len() && before[m] == tiled(t[k], tiles, overlap)[j];
                assert(all[m] == before[m]);
            } else {
                assert(all[before.len() + j] == last[j]);
            }
        }
    }
}

/// A band of a cold scan never leaves its monitor: it is as wide as one monitor
/// and lies within its height.
pub proof fn law_cold_bands_stay_on_one_monitor(
    regions: Seq<Rect>,
    w: int,
    h: int,
    tiles: int,
    overlap: int,
    i: int,
)
    requires
        inside(regions, w, h),
        h <= i32::MAX,
        overlap >= 0,
        0 <= i < all_tiled(regions, tiles, overlap).len(),
    ensures
        exists|k: int|
            0 <= k < regions.len() && all_tiled(regions, tiles, overlap)[i].within(
                #[trigger] regions[k],
            ),
{
    lemma_all_tiled(regions, tiles, overlap);
    let all = all_tiled(regions, tiles, overlap);
    assert(strip_of(all[i], regions, tiles, overlap));
    let (k, j) = choose|k: int, j: int|
        0 <= k < regions.len() && 0 <= j < tiled(regions[k], tiles, overlap).len() && all[i]
            == #[trigger] tiled(regions[k], tiles, overlap)[j];
    let height = regions[k].height as int;
    super::lemma_count(height, tiles, j);
    super::law_bands_lie_inside(height, tiles, overlap, j);
    assert(all[i].within(regions[k]));
}

/// A band to re-read never leaves its monitor, split or not.
pub proof fn law_change_bands_stay_on_one_monitor(d: Diff, chunk: int, overlap: int, i: int)
    requires
        d.sound(),
        chunk > 0,
        overlap >= 0,
        0 <= i < all_pieces(d.bands(), chunk, overlap).len(),
    ensures
        exists|k: int|
            0 <= k < d.regions.len() && all_pieces(d.bands(), chunk, overlap)[i].within(
                #[trigger] d.regions[k],
            ),
{
    let bands = d.bands();
    let all = all_pieces(bands, chunk, overlap);
    lemma_all_pieces(bands, chunk, overlap);
    lemma_bands_within(d);
    assert(piece_of(all[i], bands, chunk, overlap));
    let (m, j) = choose|m: int, j: int|
        0 <= m < bands.len() && 0 <= j < pieces(bands[m], chunk, overlap).len() && all[i]
            == #[trigger] pieces(bands[m], chunk, overlap)[j];
    let k = choose|k: int| 0 <= k < d.regions.len() && bands[m].within(#[trigger] d.regions[k]);
    law_pieces_cover_the_band(bands[m], chunk, overlap, bands[m].y0 as int, bands[m].y0 + 1);
    assert(all[i].within(d.regions[k]));
}

/// A cold scan leaves out no pixel of any monitor.
pub proof fn law_a_cold_scan_covers_every_monitor(
    regions: Seq<Rect>,
    w: int,
    h: int,
    tiles: int,
    overlap: int,
    x: int,
    y: int,
)
    requires
        inside(regions, w, h),
        h <= i32::MAX,
        overlap >= 0,
        covered_by(x, y, regions),
    ensures
        exists|i: int|
            0 <= i < all_tiled(regions, tiles, overlap).len() && (#[trigger] all_tiled(
                regions,
                tiles,
                overlap,
            )[i]).holds(x, y),
{
    let k = choose|k: int| 0 <= k < regions.len() && (#[trigger] regions[k]).covers(x, y);
    let region = regions[k];
    let height = region.height as int;
    let top = y - region.y;
    super::law_a_line_on_a_cut_is_whole_in_one_band(height, tiles, overlap, top, top + 1);
    let j = choose|j: int|
        0 <= j < band_count(height, tiles) && ({
            let (y0, h) = #[trigger] bands_of(height, tiles, overlap)[j];
            y0 <= top && top + 1 <= y0 + h
        });
    super::law_bands_lie_inside(height, tiles, overlap, j);
    let b = tiled(region, tiles, overlap)[j];
    assert(b.holds(x, y));
    lemma_all_tiled(regions, tiles, overlap);
    let all = all_tiled(regions, tiles, overlap);
    assert(all.contains(tiled(regions[k], tiles, overlap)[j]));
    let i = choose|i: int| 0 <= i < all.len() && all[i] == b;
    assert(all[i].holds(x, y));
}

/// The run that a changed row of cells belongs to.
proof fn lemma_run_of(d: Diff, region: Rect, r: int, row: int)
    requires
        d.top_row(region) <= row < r,
        d.region_hits(region, row) != 0,
    ensures
        exists|i: int|
            0 <= i < d.runs(region, r).len() && (#[trigger] d.runs(region, r)[i]).0 <= row
                < d.runs(region, r)[i].1,
    decreases r - d.top_row(region),
{
    let before = d.runs(region, r - 1);
    let all = d.runs(region, r);
    if row < r - 1 {
        lemma_run_of(d, region, r - 1, row);
        let i = choose|i: int|
            0 <= i < before.len() && (#[trigger] before[i]).0 <= row < before[i].1;
        assert(all[i].0 <= row < all[i].1);
    } else {
        assert(all.last().0 <= row < all.last().1) by {
            if before.len() > 0 && before.last().1 == r - 1 {
                lemma_runs_start(d, region, r - 1);
            }
        }
    }
}

/// Every run starts before it ends.
proof fn lemma_runs_start(d: Diff, region: Rect, r: int)
    ensures
        forall|i: int|
            0 <= i < d.runs(region, r).len() ==> (#[trigger] d.runs(region, r)[i]).0
                < d.runs(region, r)[i].1,
    decreases r - d.top_row(region),
{
    if r > d.top_row(region) {
        lemma_runs_start(d, region, r - 1);
        let before = d.runs(region, r - 1);
        let all = d.runs(region, r);
        assert forall|i: int| 0 <= i < all.len() implies (#[trigger] all[i]).0 < all[i].1 by {
            if i < before.len() {
                assert(before[i].0 < before[i].1);
            }
        }
    }
}

proof fn lemma_region_band_at(d: Diff, n: nat, k: int, j: int)
    requires
        0 <= k < n <= d.regions.len(),
        0 <= j < d.region_bands(d.regions[k]).len(),
    ensures
        d.bands_up_to(n).contains(d.region_bands(d.regions[k])[j]),
    decreases n,
{
    let before = d.bands_up_to((n - 1) as nat);
    let all = d.bands_up_to(n);
    let b = d.region_bands(d.regions[k])[j];
    if k < n - 1 {
        lemma_region_band_at(d, (n - 1) as nat, k, j);
        let i = choose|i: int| 0 <= i < before.len() && before[i] == b;
        assert(all[i] == b);
    } else {
        assert(all[before.len() + j] == b);
    }
}

/// Unless only noise moved, everything that a monitor shows of a changed cell is
/// read again.
pub proof fn law_changed_cells_are_read_again(
    d: Diff,
    chunk: int,
    overlap: int,
    x: int,
    y: int,
)
    requires
        d.sound(),
        chunk > 0,
        overlap >= 0,
        d.total(d.regions.len()) > NOISE_CELLS,
        covered_by(x, y, d.regions),
        d.hot(y / CELL as int, x / CELL as int),
    ensures
        exists|i: int|
            0 <= i < all_pieces(d.bands(), chunk, overlap).len() && (#[trigger] all_pieces(
                d.bands(),
                chunk,
                overlap,
            )[i]).holds(x, y),
{
    let k = choose|k: int| 0 <= k < d.regions.len() && (#[trigger] d.regions[k]).covers(x, y);
    let region = d.regions[k];
    let r = y / CELL as int;
    let c = x / CELL as int;
    let c0 = first_cell(region.x as int, d.cols());
    let c1 = end_cell(region.x as int, region.end_x(), d.cols());
    assert(c0 <= c < c1);
    assert(d.top_row(region) <= r < d.end_row(region));
    lemma_hits_positive(d, r, c0, c1, c);
    lemma_run_of(d, region, d.end_row(region), r);
    let runs = d.runs(region, d.end_row(region));
    let j = choose|j: int| 0 <= j < runs.len() && (#[trigger] runs[j]).0 <= r < runs[j].1;
    lemma_runs(d, region, d.end_row(region));
    lemma_run_band(d, region, runs[j]);
    let b = d.region_bands(region)[j];
    assert(b == run_band(region, runs[j]));
    assert(b.holds(x, y));
    lemma_region_band_at(d, d.regions.len(), k, j);
    let bands = d.bands();
    let m = choose|m: int| 0 <= m < bands.len() && bands[m] == b;
    law_pieces_cover_the_band(b, chunk, overlap, y, y + 1);
    let q = choose|q: int|
        0 <= q < pieces(b, chunk, overlap).len() && ({
            let p = #[trigger] pieces(b, chunk, overlap)[q];
            p.y0 <= y < p.y0 + p.h
        });
    lemma_all_pieces(bands, chunk, overlap);
    let all = all_pieces(bands, chunk, overlap);
    assert(all.contains(pieces(bands[m], chunk, overlap)[q]));
    let i = choose|i: int| 0 <= i < all.len() && all[i] == pieces(b, chunk, overlap)[q];
    assert(all[i].holds(x, y));
}

/// Splicing a band adopts exactly its pixels: inside the band the baseline
/// becomes the capture, and outside nothing moves.
pub proof fn law_splicing_adopts_exactly_the_band(
    prev: Seq<u8>,
    rgb: Seq<u8>,
    band: Band,
    w: int,
    h: int,
    x: int,
    y: int,
    c: int,
)
    requires
        w > 0,
        h > 0,
        prev.len() == rgb.len(),
        rgb.len() >= w * h * 3,
        0 <= x < w,
        0 <= y < h,
        0 <= c < 3,
    ensures
        0 <= (y * w + x) * 3 + c < rgb.len(),
        adopted(prev, rgb, band, w * 3)[(y * w + x) * 3 + c] == if band.holds(x, y) {
            rgb[(y * w + x) * 3 + c]
        } else {
            prev[(y * w + x) * 3 + c]
        },
{
    let stride = w * 3;
    let i = (y * w + x) * 3 + c;
    crate::capture::lemma_cell_bound(w, h, x, y);
    assert(i == y * stride + (x * 3 + c)) by (nonlinear_arith)
        requires
            i == (y * w + x) * 3 + c,
            stride == w * 3,
    ;
    crate::capture::lemma_cell(stride, x * 3 + c, y);
    if band.holds(x, y) {
        let xend = lesser(greater(band.x0 + band.w, 0) * 3, stride);
        assert(y * stride + stride <= h * stride) by (nonlinear_arith)
            requires
                y + 1 <= h,
                stride >= 1,
        ;
        assert(h * stride == w * h * 3) by (nonlinear_arith)
            requires
                stride == w * 3,
        ;
        assert(y * stride + xend <= rgb.len());
        assert(adopts(band, stride, rgb.len() as int, i));
    } else {
        assert(!adopts(band, stride, rgb.len() as int, i));
    }
}

/// The baseline once the first `n` of `bands` have been read.
pub open spec fn adopted_all(prev: Seq<u8>, rgb: Seq<u8>, bands: Seq<Band>, w: int, n: nat) -> Seq<u8>
    decreases n,
{
    if n == 0 {
        prev
    } else {
        adopted(adopted_all(prev, rgb, bands, w, (n - 1) as nat), rgb, bands[n - 1], w * 3)
    }
}

/// After reading `n` bands, a pixel that one of them holds is the capture's, and
/// every pixel is the capture's or the old baseline's.
proof fn lemma_adopted_all(
    prev: Seq<u8>,
    rgb: Seq<u8>,
    bands: Seq<Band>,
    w: int,
    h: int,
    n: nat,
    x: int,
    y: int,
    c: int,
)
    requires
        w > 0,
        h > 0,
        prev.len() == rgb.len(),
        rgb.len() >= w * h * 3,
        0 <= x < w,
        0 <= y < h,
        0 <= c < 3,
        n <= bands.len(),
    ensures
        adopted_all(prev, rgb, bands, w, n).len() == prev.len(),
        0 <= (y * w + x) * 3 + c < rgb.len(),
        ({
            let i = (y * w + x) * 3 + c;
            let now = adopted_all(prev, rgb, bands, w, n)[i];
            &&& now == rgb[i] || now == prev[i]
            &&& (exists|k: int| 0 <= k < n && (#[trigger] bands[k]).holds(x, y)) ==> now == rgb[i]
        }),
    decreases n,
{
    crate::capture::lemma_cell_bound(w, h, x, y);
    if n > 0 {
        lemma_adopted_all(prev, rgb, bands, w, h, (n - 1) as nat, x, y, c);
        let before = adopted_all(prev, rgb, bands, w, (n - 1) as nat);
        law_splicing_adopts_exactly_the_band(before, rgb, bands[n - 1], w, h, x, y, c);
        if exists|k: int| 0 <= k < n && (#[trigger] bands[k]).holds(x, y) {
            let k = choose|k: int| 0 <= k < n && (#[trigger] bands[k]).holds(x, y);
            if k < n - 1 {
                assert(bands[k].holds(x, y));
            }
        }
    }
}

/// What is left unread is what was unread and was not read.
proof fn lemma_still_unread(unread: Seq<Band>, read: Seq<Band>, b: Band)
    ensures
        still_unread(unread, read).contains(b) <==> unread.contains(b) && !read.contains(b),
    decreases read.len(),
{
    if read.len() > 0 {
        let rest = read.drop_last();
        let before = still_unread(unread, rest);
        let other = |v: Band| v != read.last();
        let after = before.filter(other);
        lemma_still_unread(unread, rest, b);
        if after.contains(b) {
            before.lemma_filter_contains_rev(other, b);
            let k = choose|k: int| 0 <= k < after.len() && after[k] == b;
            before.lemma_filter_pred(other, k);
            if read.contains(b) {
                let j = choose|j: int| 0 <= j < read.len() && read[j] == b;
                assert(rest[j] == b);
            }
        }
        if before.contains(b) && b != read.last() {
            let k = choose|k: int| 0 <= k < before.len() && before[k] == b;
            before.lemma_filter_contains(other, k);
        }
        if rest.contains(b) {
            let j = choose|j: int| 0 <= j < rest.len() && rest[j] == b;
            assert(read[j] == b);
        }
        assert(read[read.len() - 1] == read.last());
    }
}

/// A band that meets the monitors is cut up into all that they show of it, and
/// every part stays on one of them.
proof fn lemma_cut_up(b: Band, regions: Seq<Rect>)
    ensures
        confined(cut_up(b, regions), regions),
        forall|x: int, y: int|
            #![trigger held_by(x, y, cut_up(b, regions))]
            b.holds(x, y) && covered_by(x, y, regions) ==> held_by(x, y, cut_up(b, regions)),
    decreases regions.len(),
{
    let all = cut_up(b, regions);
    if regions.len() > 0 {
        let rest = regions.drop_last();
        let last = regions.last();
        let e = regions.len() - 1;
        let before = cut_up(b, rest);
        lemma_cut_up(b, rest);
        assert forall|i: int| 0 <= i < all.len() implies fits(#[trigger] all[i], regions) by {
            if i < before.len() {
                assert(all[i] == before[i]);
                assert(fits(before[i], rest));
                let k = choose|k: int| 0 <= k < rest.len() && before[i].within(#[trigger] rest[k]);
                assert(all[i].within(regions[k]));
            } else {
                assert(all[i] == rows_of(b, last));
                assert(all[i].within(regions[e]));
            }
        }
        assert forall|x: int, y: int|
            #![trigger held_by(x, y, cut_up(b, regions))]
            b.holds(x, y) && covered_by(x, y, regions) implies held_by(x, y, all) by {
            let k = choose|k: int| 0 <= k < regions.len() && (#[trigger] regions[k]).covers(x, y);
            if k < e {
                assert(rest[k].covers(x, y));
                assert(held_by(x, y, before));
                let j = choose|j: int| 0 <= j < before.len() && (#[trigger] before[j]).holds(x, y);
                assert(all[j].holds(x, y));
            } else {
                assert(meets(b, last));
                assert(rows_of(b, last).holds(x, y));
                assert(all[before.len() as int].holds(x, y));
            }
        }
    }
}

/// Fitting bands to the monitors loses nothing that they show.
proof fn lemma_refit_all(bands: Seq<Band>, regions: Seq<Rect>)
    ensures
        confined(refit_all(bands, regions), regions),
        forall|x: int, y: int|
            #![trigger held_by(x, y, refit_all(bands, regions))]
            held_by(x, y, bands) && covered_by(x, y, regions) ==> held_by(
                x,
                y,
                refit_all(bands, regions),
            ),
        confined(bands, regions) ==> refit_all(bands, regions) == bands,
    decreases bands.len(),
{
    let all = refit_all(bands, regions);
    if bands.len() > 0 {
        let rest = bands.drop_last();
        let last = bands.last();
        let e = bands.len() - 1;
        let before = refit_all(rest, regions);
        let more = refit(last, regions);
        lemma_refit_all(rest, regions);
        lemma_cut_up(last, regions);
        assert forall|i: int| 0 <= i < all.len() implies fits(#[trigger] all[i], regions) by {
            if i < before.len() {
                assert(all[i] == before[i]);
            } else {
                assert(all[i] == more[i - before.len()]);
            }
        }
        assert forall|x: int, y: int|
            #![trigger held_by(x, y, refit_all(bands, regions))]
            held_by(x, y, bands) && covered_by(x, y, regions) implies held_by(x, y, all) by {
            let k = choose|k: int| 0 <= k < bands.len() && (#[trigger] bands[k]).holds(x, y);
            if k < e {
                assert(rest[k].holds(x, y));
                assert(held_by(x, y, before));
                let j = choose|j: int| 0 <= j < before.len() && (#[trigger] before[j]).holds(x, y);
                assert(all[j].holds(x, y));
            } else {
                assert(held_by(x, y, more)) by {
                    if fits(last, regions) {
                        assert(more[0].holds(x, y));
                    } else {
                        assert(held_by(x, y, cut_up(last, regions)));
                    }
                }
                let j = choose|j: int| 0 <= j < more.len() && (#[trigger] more[j]).holds(x, y);
                assert(all[before.len() + j].holds(x, y));
            }
        }
        if confined(bands, regions) {
            assert forall|i: int| 0 <= i < rest.len() implies fits(#[trigger] rest[i], regions) by {
                assert(rest[i] == bands[i]);
            }
            assert(fits(bands[e], regions));
            assert(more == seq![last]);
            assert(all =~= bands);
        }
    } else {
        assert(all =~= bands);
    }
}

/// Every pixel of a change band is in one of the pieces it is split into.
proof fn lemma_pieces_hold(d: Diff, chunk: int, overlap: int, m: int, x: int, y: int)
    requires
        d.sound(),
        chunk > 0,
        overlap >= 0,
        0 <= m < d.bands().len(),
        d.bands()[m].holds(x, y),
    ensures
        held_by(x, y, all_pieces(d.bands(), chunk, overlap)),
{
    let bands = d.bands();
    let all = all_pieces(bands, chunk, overlap);
    lemma_bands_within(d);
    law_pieces_cover_the_band(bands[m], chunk, overlap, y, y + 1);
    let q = choose|q: int|
        0 <= q < pieces(bands[m], chunk, overlap).len() && ({
            let p = #[trigger] pieces(bands[m], chunk, overlap)[q];
            p.y0 <= y && y + 1 <= p.y0 + p.h
        });
    lemma_all_pieces(bands, chunk, overlap);
    assert(all.contains(pieces(bands[m], chunk, overlap)[q]));
    let i = choose|i: int| 0 <= i < all.len() && all[i] == pieces(bands[m], chunk, overlap)[q];
    assert(all[i].holds(x, y));
}

/// What was planned and not spliced in is planned again, in every state and
/// whatever the screen shows by then, however little of it changed and even if the
/// monitors were rearranged: the next plan holds every pixel of every monitor that
/// an unread band holds.
pub proof fn law_unread_pixels_are_planned_again(
    c: ScanCache,
    rgb: Seq<u8>,
    width: i32,
    height: i32,
    tiles: usize,
    overlap: i32,
    x: int,
    y: int,
)
    requires
        width > 0,
        height > 0,
        overlap >= 0,
        covered_by(x, y, regions_of(c.monitors@, width, height)),
        held_by(x, y, c.unread@),
    ensures
        held_by(x, y, c.next_plan(rgb, width, height, tiles, overlap)),
{
    let plan = c.next_plan(rgb, width, height, tiles, overlap);
    let regions = regions_of(c.monitors@, width, height);
    lemma_regions_inside(c.monitors@, width, height);
    if c.warm(rgb.len() as int, width as int, height as int, tiles as int, overlap as int) {
        let d = c.diff(rgb, width, height);
        let chunk = chunk_of(height as int, tiles as int);
        let fresh = all_pieces(d.bands(), chunk, overlap as int);
        let waiting = refit_all(c.unread@, regions);
        let rest = left_over(waiting, d.bands());
        lemma_refit_all(c.unread@, regions);
        assert(held_by(x, y, refit_all(c.unread@, regions)));
        let i = choose|i: int| 0 <= i < waiting.len() && (#[trigger] waiting[i]).holds(x, y);
        if part_of(waiting[i], d.bands()) {
            let m = choose|m: int|
                0 <= m < d.bands().len() && (#[trigger] d.bands()[m]).x0 == waiting[i].x0
                    && d.bands()[m].w == waiting[i].w && d.bands()[m].y0 <= waiting[i].y0
                    && waiting[i].y0 + waiting[i].h <= d.bands()[m].y0 + d.bands()[m].h;
            lemma_pieces_hold(d, chunk, overlap as int, m, x, y);
            let k = choose|k: int| 0 <= k < fresh.len() && (#[trigger] fresh[k]).holds(x, y);
            assert(plan[k].holds(x, y));
        } else {
            waiting.lemma_filter_contains(|b: Band| !part_of(b, d.bands()), i);
            let k = choose|k: int| 0 <= k < rest.len() && rest[k] == waiting[i];
            assert(plan[fresh.len() + k].holds(x, y));
        }
    } else {
        law_a_cold_scan_covers_every_monitor(
            regions,
            width as int,
            height as int,
            tiles as int,
            overlap as int,
            x,
            y,
        );
        let k = choose|k: int| 0 <= k < plan.len() && (#[trigger] plan[k]).holds(x, y);
        assert(plan[k].holds(x, y));
    }
}

/// A cold scan that was cut short is taken up where it stopped: after the bands
/// of `read` were spliced in, the next plan covers every pixel of every monitor
/// that none of them holds, whatever the screen shows by then.
pub proof fn law_an_interrupted_scan_is_taken_up_again(
    c: ScanCache,
    read: Seq<Band>,
    rgb: Seq<u8>,
    width: i32,
    height: i32,
    tiles: usize,
    overlap: i32,
    x: int,
    y: int,
)
    requires
        width > 0,
        height > 0,
        overlap >= 0,
        c.unread@ == still_unread(
            all_tiled(regions_of(c.monitors@, width, height), tiles as int, overlap as int),
            read,
        ),
        covered_by(x, y, regions_of(c.monitors@, width, height)),
        !held_by(x, y, read),
    ensures
        held_by(x, y, c.next_plan(rgb, width, height, tiles, overlap)),
{
    let regions = regions_of(c.monitors@, width, height);
    let strips = all_tiled(regions, tiles as int, overlap as int);
    lemma_regions_inside(c.monitors@, width, height);
    law_a_cold_scan_covers_every_monitor(
        regions,
        width as int,
        height as int,
        tiles as int,
        overlap as int,
        x,
        y,
    );
    let i = choose|i: int| 0 <= i < strips.len() && (#[trigger] strips[i]).holds(x, y);
    let b = strips[i];
    assert(!read.contains(b)) by {
        if read.contains(b) {
            let j = choose|j: int| 0 <= j < read.len() && read[j] == b;
            assert(read[j].holds(x, y));
        }
    }
    lemma_still_unread(strips, read, b);
    let k = choose|k: int| 0 <= k < c.unread@.len() && c.unread@[k] == b;
    assert(c.unread@[k].holds(x, y));
    law_unread_pixels_are_planned_again(c, rgb, width, height, tiles, overlap, x, y);
}

/// In every state, cold or warm and whatever the monitors were before, no planned
/// band leaves its monitor: it is as wide as one monitor and lies within its
/// height.
pub proof fn law_planned_bands_stay_on_one_monitor(
    c: ScanCache,
    rgb: Seq<u8>,
    width: i32,
    height: i32,
    tiles: usize,
    overlap: i32,
)
    requires
        width > 0,
        height > 0,
        overlap >= 0,
    ensures
        confined(
            c.next_plan(rgb, width, height, tiles, overlap),
            regions_of(c.monitors@, width, height),
        ),
{
    let plan = c.next_plan(rgb, width, height, tiles, overlap);
    let regions = regions_of(c.monitors@, width, height);
    lemma_regions_inside(c.monitors@, width, height);
    assert forall|i: int| 0 <= i < plan.len() implies fits(#[trigger] plan[i], regions) by {
        if c.warm(rgb.len() as int, width as int, height as int, tiles as int, overlap as int) {
            let d = c.diff(rgb, width, height);
            let chunk = chunk_of(height as int, tiles as int);
            let fresh = all_pieces(d.bands(), chunk, overlap as int);
            let waiting = refit_all(c.unread@, regions);
            if i < fresh.len() {
                law_change_bands_stay_on_one_monitor(d, chunk, overlap as int, i);
                assert(plan[i] == fresh[i]);
            } else {
                lemma_refit_all(c.unread@, regions);
                let rest = left_over(waiting, d.bands());
                assert(plan[i] == rest[i - fresh.len()]);
                assert(rest.contains(plan[i]));
                waiting.lemma_filter_contains_rev(|b: Band| !part_of(b, d.bands()), plan[i]);
                let k = choose|k: int| 0 <= k < waiting.len() && waiting[k] == plan[i];
                assert(fits(waiting[k], regions));
            }
        } else {
            law_cold_bands_stay_on_one_monitor(
                regions,
                width as int,
                height as int,
                tiles as int,
                overlap as int,
                i,
            );
        }
    }
}

proof fn lemma_filter_all(bands: Seq<Band>, pred: spec_fn(Band) -> bool)
    requires
        forall|i: int| 0 <= i < bands.len() ==> pred(#[trigger] bands[i]),
    ensures
        bands.filter(pred) == bands,
    decreases bands.len(),
{
    reveal(Seq::filter);
    if bands.len() > 0 {
        let rest = bands.drop_last();
        assert forall|i: int| 0 <= i < rest.len() implies pred(#[trigger] rest[i]) by {
            assert(rest[i] == bands[i]);
        }
        lemma_filter_all(rest, pred);
        assert(pred(bands[bands.len() - 1]));
        assert(rest.push(bands.last()) =~= bands);
    }
}

proof fn lemma_filter_none(bands: Seq<Band>, pred: spec_fn(Band) -> bool)
    requires
        forall|i: int| 0 <= i < bands.len() ==> !pred(#[trigger] bands[i]),
    ensures
        bands.filter(pred) == Seq::<Band>::empty(),
    decreases bands.len(),
{
    reveal(Seq::filter);
    if bands.len() > 0 {
        let rest = bands.drop_last();
        assert forall|i: int| 0 <= i < rest.len() implies !pred(#[trigger] rest[i]) by {
            assert(rest[i] == bands[i]);
        }
        lemma_filter_none(rest, pred);
        assert(!pred(bands[bands.len() - 1]));
    }
}

/// Planning alone adopts nothing: planning the same pixels twice, with nothing
/// spliced in between, gives the same bands, and where there is a baseline the
/// words stay.
pub proof fn law_planning_twice_gives_the_same_bands(
    c: ScanCache,
    after: ScanCache,
    rgb: Seq<u8>,
    width: i32,
    height: i32,
    tiles: usize,
    overlap: i32,
)
    requires
        overlap >= 0,
        c.becomes(after, rgb, width, height, tiles, overlap),
    ensures
        after.next_plan(rgb, width, height, tiles, overlap) == c.next_plan(
            rgb,
            width,
            height,
            tiles,
            overlap,
        ),
        c.warm(rgb.len() as int, width as int, height as int, tiles as int, overlap as int) ==> {
            &&& after.warm(
                rgb.len() as int,
                width as int,
                height as int,
                tiles as int,
                overlap as int,
            )
            &&& after.words@ == c.words@
        },
{
    if c.warm(rgb.len() as int, width as int, height as int, tiles as int, overlap as int) {
        let d = c.diff(rgb, width, height);
        assert(after.diff(rgb, width, height) == d);
        let chunk = chunk_of(height as int, tiles as int);
        let bands = d.bands();
        let fresh = all_pieces(bands, chunk, overlap as int);
        let waiting = refit_all(c.unread@, d.regions);
        let alone = |b: Band| !part_of(b, bands);
        let rest = left_over(waiting, bands);
        lemma_regions_inside(c.monitors@, width, height);
        lemma_refit_all(c.unread@, d.regions);
        assert forall|i: int| 0 <= i < fresh.len() implies fits(#[trigger] fresh[i], d.regions)
            && !alone(fresh[i]) by {
            if width > 0 && height > 0 {
                law_change_bands_stay_on_one_monitor(d, chunk, overlap as int, i);
                lemma_all_pieces(bands, chunk, overlap as int);
                assert(piece_of(fresh[i], bands, chunk, overlap as int));
                let (m, j) = choose|m: int, j: int|
                    0 <= m < bands.len() && 0 <= j < pieces(bands[m], chunk, overlap as int).len()
                        && fresh[i] == #[trigger] pieces(bands[m], chunk, overlap as int)[j];
                lemma_bands_within(d);
                law_pieces_cover_the_band(
                    bands[m],
                    chunk,
                    overlap as int,
                    bands[m].y0 as int,
                    bands[m].y0 + 1,
                );
                assert(part_of(fresh[i], bands)) by {
                    assert(bands[m].x0 == fresh[i].x0);
                }
            } else {
                assert(bands == Seq::<Band>::empty());
                assert(fresh == Seq::<Band>::empty());
            }
        }
        assert forall|i: int| 0 <= i < rest.len() implies fits(#[trigger] rest[i], d.regions)
            && alone(rest[i]) by {
            waiting.lemma_filter_pred(alone, i);
            assert(rest.contains(rest[i]));
            waiting.lemma_filter_contains_rev(alone, rest[i]);
            let k = choose|k: int| 0 <= k < waiting.len() && waiting[k] == rest[i];
            assert(fits(waiting[k], d.regions));
        }
        let all = fresh + rest;
        assert(confined(all, d.regions)) by {
            assert forall|i: int| 0 <= i < all.len() implies fits(#[trigger] all[i], d.regions) by {
                if i < fresh.len() {
                    assert(all[i] == fresh[i]);
                } else {
                    assert(all[i] == rest[i - fresh.len()]);
                }
            }
        }
        lemma_refit_all(all, d.regions);
        lemma_filter_none(fresh, alone);
        lemma_filter_all(rest, alone);
        Seq::filter_distributes_over_add(fresh, rest, alone);
        assert(left_over(all, bands) =~= rest);
    }
}

/// Where the same pixels count, the same cells changed.
proof fn lemma_same_hot(a: Diff, b: Diff)
    requires
        a.w == b.w,
        a.h == b.h,
        a.w > 0,
        a.h > 0,
        forall|x: int, y: int|
            0 <= x < a.w && 0 <= y < a.h ==> #[trigger] a.counts(x, y) == b.counts(x, y),
    ensures
        forall|r: int, c: int|
            0 <= r < a.rows() && 0 <= c < a.cols() ==> #[trigger] a.hot(r, c) == b.hot(r, c),
{
    assert forall|r: int, c: int| 0 <= r < a.rows() && 0 <= c < a.cols() implies #[trigger] a.hot(r, c)
        == b.hot(r, c) by {
        let x0 = c * CELL;
        let x1 = lesser((c + 1) * CELL, a.w);
        let y0 = r * CELL;
        let y1 = lesser((r + 1) * CELL, a.h);
        assert forall|x: int, y: int| 0 <= x < a.w && 0 <= y < a.h implies #[trigger] b.counts(x, y)
            == a.counts(x, y) by {
            assert(a.counts(x, y) == b.counts(x, y));
        }
        lemma_area_count_le(a, b, x0, x1, y0, y1);
        lemma_area_count_le(b, a, x0, x1, y0, y1);
    }
}

/// Where the same cells changed, the same rows of a monitor changed.
proof fn lemma_same_runs(a: Diff, b: Diff, region: Rect, r: int)
    requires
        a.w == b.w,
        a.h == b.h,
        0 < a.w,
        0 <= region.x,
        0 <= region.y,
        r <= a.end_row(region),
        forall|r: int, c: int|
            0 <= r < a.rows() && 0 <= c < a.cols() ==> #[trigger] a.hot(r, c) == b.hot(r, c),
    ensures
        a.runs(region, r) == b.runs(region, r),
    decreases r - a.top_row(region),
{
    if r > a.top_row(region) {
        lemma_same_runs(a, b, region, r - 1);
        let c0 = first_cell(region.x as int, a.cols());
        let c1 = end_cell(region.x as int, region.end_x(), a.cols());
        assert(r - 1 < a.rows());
        assert forall|r: int, c: int|
            0 <= r < a.rows() && 0 <= c < a.cols() && #[trigger] b.hot(r, c) implies a.hot(r, c) by {
            assert(a.hot(r, c) == b.hot(r, c));
        }
        lemma_hits_le(a, b, r - 1, c0, c1);
        lemma_hits_le(b, a, r - 1, c0, c1);
    }
}

proof fn lemma_same_bands(a: Diff, b: Diff, n: nat)
    requires
        a.w == b.w,
        a.h == b.h,
        0 < a.w,
        a.regions == b.regions,
        n <= a.regions.len(),
        inside(a.regions, a.w, a.h),
        forall|r: int, c: int|
            0 <= r < a.rows() && 0 <= c < a.cols() ==> #[trigger] a.hot(r, c) == b.hot(r, c),
    ensures
        a.bands_up_to(n) == b.bands_up_to(n),
    decreases n,
{
    if n > 0 {
        lemma_same_bands(a, b, (n - 1) as nat);
        let region = a.regions[n - 1];
        lemma_same_runs(a, b, region, a.end_row(region));
        assert(a.region_bands(region) =~= b.region_bands(region));
    }
}

/// Only what a monitor shows matters: two captures that agree on every pixel that
/// some monitor covers are planned alike, in every state.
pub proof fn law_only_covered_pixels_matter(
    c: ScanCache,
    one: Seq<u8>,
    other: Seq<u8>,
    width: i32,
    height: i32,
    tiles: usize,
    overlap: i32,
)
    requires
        one.len() == other.len(),
        forall|x: int, y: int, b: int|
            0 <= x < width && 0 <= y < height && 0 <= b < 3 && covered_by(
                x,
                y,
                regions_of(c.monitors@, width, height),
            ) ==> #[trigger] one[(y * width + x) * 3 + b] == other[(y * width + x) * 3 + b],
    ensures
        c.next_plan(one, width, height, tiles, overlap) == c.next_plan(
            other,
            width,
            height,
            tiles,
            overlap,
        ),
{
    if c.warm(one.len() as int, width as int, height as int, tiles as int, overlap as int) {
        let a = c.diff(one, width, height);
        let b = c.diff(other, width, height);
        if width > 0 && height > 0 {
            lemma_regions_inside(c.monitors@, width, height);
            assert forall|x: int, y: int| 0 <= x < a.w && 0 <= y < a.h implies #[trigger] a.counts(
                x,
                y,
            ) == b.counts(x, y) by {
                if covered_by(x, y, a.regions) {
                    let i = (y * width + x) * 3;
                    assert(one[(y * width + x) * 3 + 0] == other[(y * width + x) * 3 + 0]);
                    assert(one[(y * width + x) * 3 + 1] == other[(y * width + x) * 3 + 1]);
                    assert(one[(y * width + x) * 3 + 2] == other[(y * width + x) * 3 + 2]);
                    assert(a.differs(x, y) == b.differs(x, y));
                }
            }
            lemma_same_hot(a, b);
            assert forall|r: int, c: int|
                0 <= r < a.rows() && 0 <= c < a.cols() && #[trigger] b.hot(r, c) implies a.hot(r, c) by {
                assert(a.hot(r, c) == b.hot(r, c));
            }
            lemma_total_le(a, b, a.regions.len());
            lemma_total_le(b, a, a.regions.len());
            lemma_same_bands(a, b, a.regions.len());
        }
        assert(a.bands() == b.bands());
    }
}

/// Dropping the baseline makes the next plan that of a fresh cache with the same
/// monitors, the whole screen, even if the capture equals what was last read. It
/// leaves the words alone, and doing it twice is doing it once.
pub proof fn law_dropping_the_baseline_starts_afresh(
    c: ScanCache,
    fresh: ScanCache,
    rgb: Seq<u8>,
    width: i32,
    height: i32,
    tiles: usize,
    overlap: i32,
)
    requires
        !fresh.have_prev,
        fresh.monitors@ == c.monitors@,
    ensures
        c.without_baseline().next_plan(rgb, width, height, tiles, overlap) == fresh.next_plan(
            rgb,
            width,
            height,
            tiles,
            overlap,
        ),
        c.without_baseline().next_plan(rgb, width, height, tiles, overlap) == all_tiled(
            regions_of(c.monitors@, width, height),
            tiles as int,
            overlap as int,
        ),
        c.without_baseline().words == c.words,
        c.without_baseline().without_baseline() == c.without_baseline(),
{
}

/// No piece of a band is higher than a chunk and its overlaps.
pub proof fn law_pieces_are_no_higher_than_a_chunk(band: Band, chunk: int, overlap: int, i: int)
    requires
        chunk > 0,
        overlap >= 0,
        0 <= i < pieces(band, chunk, overlap).len(),
        band.y0 + band.h <= i32::MAX,
    ensures
        pieces(band, chunk, overlap)[i].h <= chunk + 2 * overlap,
{
    if band.h > chunk {
        let h = band.h as int;
        let base = piece_base(h, chunk);
        lemma_pieces(h, chunk, i);
        assert((i + 1) * base == i * base + base && i * base >= 0) by (nonlinear_arith)
            requires
                i >= 0,
                base >= 1,
        ;
    }
}

/// Once every one of `unread` was read, none is left.
proof fn lemma_none_unread(unread: Seq<Band>, read: Seq<Band>)
    requires
        forall|k: int| 0 <= k < unread.len() ==> read.contains(#[trigger] unread[k]),
    ensures
        still_unread(unread, read) == Seq::<Band>::empty(),
{
    let left = still_unread(unread, read);
    if left.len() > 0 {
        lemma_still_unread(unread, read, left[0]);
        assert(left.contains(left[0]));
        let k = choose|k: int| 0 <= k < unread.len() && unread[k] == left[0];
        assert(read.contains(unread[k]));
    }
    assert(left =~= Seq::<Band>::empty());
}

/// Once every band of a cold scan has been read and spliced in, another scan of
/// the same pixels reads nothing.
pub proof fn law_a_full_scan_settles_the_cache(
    prev: Seq<u8>,
    rgb: Seq<u8>,
    regions: Seq<Rect>,
    w: int,
    h: int,
    tiles: int,
    chunk: int,
    overlap: int,
)
    requires
        0 < w <= i32::MAX,
        0 < h <= i32::MAX,
        prev.len() == rgb.len(),
        rgb.len() >= w * h * 3,
        inside(regions, w, h),
        overlap >= 0,
    ensures
        ({
            let bands = all_tiled(regions, tiles, overlap);
            let base = adopted_all(prev, rgb, bands, w, bands.len());
            let unread = still_unread(bands, bands);
            planned(Diff { now: rgb, base, w, h, regions }, unread, chunk, overlap) == Seq::<
                Band,
            >::empty()
        }),
{
    let bands = all_tiled(regions, tiles, overlap);
    let base = adopted_all(prev, rgb, bands, w, bands.len());
    let d = Diff { now: rgb, base, w, h, regions };
    lemma_none_unread(bands, bands);
    lemma_adopted_len(prev, rgb, bands, w, bands.len());
    assert forall|x: int, y: int|
        0 <= x < w && 0 <= y < h && covered_by(x, y, regions) implies !#[trigger] d.differs(
        x,
        y,
    ) by {
        law_a_cold_scan_covers_every_monitor(regions, w, h, tiles, overlap, x, y);
        let k = choose|k: int| 0 <= k < bands.len() && (#[trigger] bands[k]).holds(x, y);
        assert(bands[k].holds(x, y));
        lemma_adopted_all(prev, rgb, bands, w, h, bands.len(), x, y, 0);
        lemma_adopted_all(prev, rgb, bands, w, h, bands.len(), x, y, 1);
        lemma_adopted_all(prev, rgb, bands, w, h, bands.len(), x, y, 2);
    }
    law_unchanged_monitors_read_nothing(d);
    lemma_nothing_planned(d, chunk, overlap);
}

/// Without a change and without a waiting band, nothing is planned.
proof fn lemma_nothing_planned(d: Diff, chunk: int, overlap: int)
    requires
        d.bands() == Seq::<Band>::empty(),
    ensures
        planned(d, Seq::empty(), chunk, overlap) == Seq::<Band>::empty(),
{
    lemma_filter_none(Seq::empty(), |b: Band| !part_of(b, d.bands()));
    assert(planned(d, Seq::empty(), chunk, overlap) =~= Seq::<Band>::empty());
}

proof fn lemma_adopted_len(prev: Seq<u8>, rgb: Seq<u8>, bands: Seq<Band>, w: int, n: nat)
    ensures
        adopted_all(prev, rgb, bands, w, n).len() == prev.len(),
    decreases n,
{
    if n > 0 {
        lemma_adopted_len(prev, rgb, bands, w, (n - 1) as nat);
    }
}

/// Where fewer pixels count, no more cells changed.
proof fn lemma_total_le(a: Diff, b: Diff, n: nat)
    requires
        a.w == b.w,
        a.h == b.h,
        a.regions == b.regions,
        n <= a.regions.len(),
        inside(a.regions, a.w, a.h),
        forall|r: int, c: int|
            0 <= r < a.rows() && 0 <= c < a.cols() && #[trigger] a.hot(r, c) ==> b.hot(r, c),
    ensures
        a.total(n) <= b.total(n),
    decreases n,
{
    if n > 0 {
        lemma_total_le(a, b, (n - 1) as nat);
        let region = a.regions[n - 1];
        lemma_hits_up_to_le(a, b, region, a.end_row(region));
    }
}

proof fn lemma_hits_up_to_le(a: Diff, b: Diff, region: Rect, r: int)
    requires
        a.w == b.w,
        a.h == b.h,
        0 < a.w,
        0 <= region.x,
        0 <= region.y,
        r <= a.end_row(region),
        forall|r: int, c: int|
            0 <= r < a.rows() && 0 <= c < a.cols() && #[trigger] a.hot(r, c) ==> b.hot(r, c),
    ensures
        a.hits_up_to(region, r) <= b.hits_up_to(region, r),
    decreases r - a.top_row(region),
{
    if r > a.top_row(region) {
        lemma_hits_up_to_le(a, b, region, r - 1);
        let c0 = first_cell(region.x as int, a.cols());
        let c1 = end_cell(region.x as int, region.end_x(), a.cols());
        assert(r - 1 < a.rows());
        lemma_hits_le(a, b, r - 1, c0, c1);
    }
}

proof fn lemma_hits_le(a: Diff, b: Diff, r: int, c0: int, c1: int)
    requires
        0 <= c0,
        c1 <= a.cols(),
        0 <= r < a.rows(),
        forall|r: int, c: int|
            0 <= r < a.rows() && 0 <= c < a.cols() && #[trigger] a.hot(r, c) ==> b.hot(r, c),
    ensures
        a.hits(r, c0, c1) <= b.hits(r, c0, c1),
    decreases c1 - c0,
{
    if c1 > c0 {
        lemma_hits_le(a, b, r, c0, c1 - 1);
        if a.hot(r, c1 - 1) {
            assert(b.hot(r, c1 - 1));
        }
    }
}

/// Once every band that a scan asked for has been read and spliced in, another
/// scan of the same pixels reads nothing.
pub proof fn law_rereading_settles_the_cache(d: Diff, waiting: Seq<Band>, chunk: int, overlap: int)
    requires
        d.sound(),
        chunk > 0,
        overlap >= 0,
    ensures
        ({
            let bands = planned(d, waiting, chunk, overlap);
            let base = adopted_all(d.base, d.now, bands, d.w, bands.len());
            let unread = still_unread(bands, bands);
            planned(Diff { base, ..d }, unread, chunk, overlap) == Seq::<Band>::empty()
        }),
{
    let fresh = all_pieces(d.bands(), chunk, overlap);
    let bands = planned(d, waiting, chunk, overlap);
    let base = adopted_all(d.base, d.now, bands, d.w, bands.len());
    let e = Diff { base, ..d };
    lemma_none_unread(bands, bands);
    lemma_adopted_len(d.base, d.now, bands, d.w, bands.len());
    let noise = d.total(d.regions.len()) <= NOISE_CELLS;
    assert forall|x: int, y: int| 0 <= x < d.w && 0 <= y < d.h && #[trigger] e.counts(
        x,
        y,
    ) implies d.counts(x, y) && (noise || !d.hot(y / CELL as int, x / CELL as int)) by {
        lemma_adopted_all(d.base, d.now, bands, d.w, d.h, bands.len(), x, y, 0);
        lemma_adopted_all(d.base, d.now, bands, d.w, d.h, bands.len(), x, y, 1);
        lemma_adopted_all(d.base, d.now, bands, d.w, d.h, bands.len(), x, y, 2);
        if !noise && d.hot(y / CELL as int, x / CELL as int) {
            law_changed_cells_are_read_again(d, chunk, overlap, x, y);
            let k = choose|k: int| 0 <= k < fresh.len() && (#[trigger] fresh[k]).holds(x, y);
            assert(bands[k].holds(x, y));
            assert(false);
        }
    }
    assert forall|r: int, c: int|
        0 <= r < e.rows() && 0 <= c < e.cols() && #[trigger] e.hot(r, c) implies noise && d.hot(
        r,
        c,
    ) by {
        let x0 = c * CELL;
        let x1 = lesser((c + 1) * CELL, d.w);
        let y0 = r * CELL;
        let y1 = lesser((r + 1) * CELL, d.h);
        lemma_area_count_le(e, d, x0, x1, y0, y1);
        if !noise {
            assert forall|x: int, y: int| x0 <= x < x1 && y0 <= y < y1 implies !#[trigger] e.counts(
                x,
                y,
            ) by {
                assert(y / CELL as int == r && x / CELL as int == c);
            }
            lemma_area_count_zero(e, x0, x1, y0, y1);
        }
    }
    if noise {
        lemma_total_le(e, d, e.regions.len());
    } else {
        lemma_total_zero(e, e.regions.len());
    }
    assert(e.bands() == Seq::<Band>::empty());
    lemma_nothing_planned(e, chunk, overlap);
}

/// Pixel `(x, y)` looks different: its red, its green or its blue is not what it was.
pub open spec fn looks_different(d: Diff, x: int, y: int) -> bool {
    exists|c: int|
        0 <= c < 3 && #[trigger] d.now[(y * d.w + x) * 3 + c] != d.base[(y * d.w + x) * 3 + c]
}

/// A pixel has changed exactly if any of its three colours has, and that counts
/// exactly if a monitor shows it.
pub proof fn law_a_pixel_changes_with_any_of_its_colours(d: Diff, x: int, y: int)
    ensures
        d.differs(x, y) <==> looks_different(d, x, y),
        d.counts(x, y) <==> looks_different(d, x, y) && exists|k: int|
            0 <= k < d.regions.len() && (#[trigger] d.regions[k]).x <= x && x < d.regions[k].x
                + d.regions[k].width && d.regions[k].y <= y && y < d.regions[k].y
                + d.regions[k].height,
{
    let i = (y * d.w + x) * 3;
    if d.differs(x, y) {
        if d.now[i] != d.base[i] {
            assert(d.now[(y * d.w + x) * 3 + 0] != d.base[(y * d.w + x) * 3 + 0]);
        } else if d.now[i + 1] != d.base[i + 1] {
            assert(d.now[(y * d.w + x) * 3 + 1] != d.base[(y * d.w + x) * 3 + 1]);
        } else {
            assert(d.now[(y * d.w + x) * 3 + 2] != d.base[(y * d.w + x) * 3 + 2]);
        }
    }
    if covered_by(x, y, d.regions) {
        let k = choose|k: int| 0 <= k < d.regions.len() && (#[trigger] d.regions[k]).covers(x, y);
        assert(d.regions[k].x <= x);
    }
    if exists|k: int|
        0 <= k < d.regions.len() && (#[trigger] d.regions[k]).x <= x && x < d.regions[k].x
            + d.regions[k].width && d.regions[k].y <= y && y < d.regions[k].y + d.regions[k].height {
        let k = choose|k: int|
            0 <= k < d.regions.len() && (#[trigger] d.regions[k]).x <= x && x < d.regions[k].x
                + d.regions[k].width && d.regions[k].y <= y && y < d.regions[k].y
                + d.regions[k].height;
        assert(d.regions[k].covers(x, y));
    }
}

/// The pixels of the cell in column `c` of row `r`, 96 by 96 of them as far as the
/// screen goes, that look different and that a monitor shows.
pub open spec fn changed_in_cell(d: Diff, r: int, c: int) -> Set<(int, int)> {
    Set::new(
        |p: (int, int)|
            96 * c <= p.0 < 96 * (c + 1) && p.0 < d.w && 96 * r <= p.1 < 96 * (r + 1) && p.1 < d.h
                && looks_different(d, p.0, p.1) && covered_by(p.0, p.1, d.regions),
    )
}

/// A cell has changed exactly if more than 460 of its pixels have, a twentieth of
/// them.
pub proof fn law_a_cell_changes_with_its_pixels(d: Diff, r: int, c: int)
    requires
        0 <= r,
        0 <= c,
    ensures
        changed_in_cell(d, r, c).finite(),
        d.hot(r, c) <==> changed_in_cell(d, r, c).len() > 460,
{
    let x0 = c * CELL;
    let x1 = lesser((c + 1) * CELL, d.w);
    let y0 = r * CELL;
    let y1 = lesser((r + 1) * CELL, d.h);
    lemma_area_set(d, x0, x1, y0, y1);
    assert forall|p: (int, int)| changed_in_cell(d, r, c).contains(p) <==> area_set(
        d,
        x0,
        x1,
        y0,
        y1,
    ).contains(p) by {
        law_a_pixel_changes_with_any_of_its_colours(d, p.0, p.1);
    }
    assert(changed_in_cell(d, r, c) =~= area_set(d, x0, x1, y0, y1));
}

/// The pixels that count in columns `[x0, x1)` of rows `[y0, y1)`.
spec fn area_set(d: Diff, x0: int, x1: int, y0: int, y1: int) -> Set<(int, int)> {
    Set::new(|p: (int, int)| x0 <= p.0 < x1 && y0 <= p.1 < y1 && d.counts(p.0, p.1))
}

proof fn lemma_area_set(d: Diff, x0: int, x1: int, y0: int, y1: int)
    ensures
        area_set(d, x0, x1, y0, y1).finite(),
        area_set(d, x0, x1, y0, y1).len() == d.area_count(x0, x1, y0, y1),
    decreases y1 - y0,
{
    let all = area_set(d, x0, x1, y0, y1);
    if y1 <= y0 {
        assert(all =~= Set::empty());
    } else {
        let before = area_set(d, x0, x1, y0, y1 - 1);
        lemma_area_set(d, x0, x1, y0, y1 - 1);
        lemma_row_set(d, before, y1 - 1, x0, x1);
        assert(all =~= before.union(row_set(d, y1 - 1, x0, x1)));
    }
}

/// The pixels that count in columns `[x0, x1)` of row `y`.
spec fn row_set(d: Diff, y: int, x0: int, x1: int) -> Set<(int, int)> {
    Set::new(|p: (int, int)| p.1 == y && x0 <= p.0 < x1 && d.counts(p.0, p.1))
}

/// A row adds its pixels to those of the rows before it.
proof fn lemma_row_set(d: Diff, before: Set<(int, int)>, y: int, x0: int, x1: int)
    requires
        before.finite(),
        forall|p: (int, int)| #[trigger] before.contains(p) ==> p.1 != y,
    ensures
        before.union(row_set(d, y, x0, x1)).finite(),
        before.union(row_set(d, y, x0, x1)).len() == before.len() + d.row_count(y, x0, x1),
    decreases x1 - x0,
{
    let all = before.union(row_set(d, y, x0, x1));
    if x1 <= x0 {
        assert(all =~= before);
    } else {
        lemma_row_set(d, before, y, x0, x1 - 1);
        let less = before.union(row_set(d, y, x0, x1 - 1));
        let p = (x1 - 1, y);
        if d.counts(x1 - 1, y) {
            assert(all =~= less.insert(p));
            assert(!less.contains(p));
        } else {
            assert forall|q: (int, int)| all.contains(q) implies less.contains(q) by {
                if q.0 == x1 - 1 && q.1 == y {
                    assert(!d.counts(q.0, q.1));
                }
            }
            assert(all =~= less);
        }
    }
}

/// 1 if the cell `a` is in row `r` and columns `[c0, c1)`, and else 0.
spec fn in_row(a: (int, int), r: int, c0: int, c1: int) -> int {
    if a.0 == r && c0 <= a.1 < c1 {
        1
    } else {
        0
    }
}

/// 1 if the cell `a` is in the rows of `region` up to `r`, and in its columns.
spec fn in_rows(d: Diff, a: (int, int), region: Rect, r: int) -> int {
    if d.top_row(region) <= a.0 < r && first_cell(region.x as int, d.cols()) <= a.1 < end_cell(
        region.x as int,
        region.end_x(),
        d.cols(),
    ) {
        1
    } else {
        0
    }
}

/// 1 if the cell `a` is in one of the first `n` monitors.
spec fn in_some(d: Diff, a: (int, int), n: nat) -> int
    decreases n,
{
    if n == 0 {
        0
    } else if in_rows(d, a, d.regions[n - 1], d.end_row(d.regions[n - 1])) == 1 {
        1
    } else {
        in_some(d, a, (n - 1) as nat)
    }
}

proof fn lemma_three_in_row(d: Diff, a: (int, int), b: (int, int), c: (int, int), r: int, c0: int, c1: int)
    requires
        a != b,
        a != c,
        b != c,
        d.hot(a.0, a.1),
        d.hot(b.0, b.1),
        d.hot(c.0, c.1),
    ensures
        d.hits(r, c0, c1) >= in_row(a, r, c0, c1) + in_row(b, r, c0, c1) + in_row(c, r, c0, c1),
    decreases c1 - c0,
{
    if c1 > c0 {
        lemma_three_in_row(d, a, b, c, r, c0, c1 - 1);
    }
}

proof fn lemma_three_in_rows(d: Diff, a: (int, int), b: (int, int), c: (int, int), region: Rect, r: int)
    requires
        a != b,
        a != c,
        b != c,
        d.hot(a.0, a.1),
        d.hot(b.0, b.1),
        d.hot(c.0, c.1),
    ensures
        d.hits_up_to(region, r) >= in_rows(d, a, region, r) + in_rows(d, b, region, r) + in_rows(
            d,
            c,
            region,
            r,
        ),
    decreases r - d.top_row(region),
{
    if r > d.top_row(region) {
        lemma_three_in_rows(d, a, b, c, region, r - 1);
        lemma_three_in_row(
            d,
            a,
            b,
            c,
            r - 1,
            first_cell(region.x as int, d.cols()),
            end_cell(region.x as int, region.end_x(), d.cols()),
        );
    }
}

proof fn lemma_three_in_some(d: Diff, a: (int, int), b: (int, int), c: (int, int), n: nat)
    requires
        a != b,
        a != c,
        b != c,
        d.hot(a.0, a.1),
        d.hot(b.0, b.1),
        d.hot(c.0, c.1),
        n <= d.regions.len(),
    ensures
        d.total(n) >= in_some(d, a, n) + in_some(d, b, n) + in_some(d, c, n),
    decreases n,
{
    if n > 0 {
        lemma_three_in_some(d, a, b, c, (n - 1) as nat);
        let region = d.regions[n - 1];
        lemma_three_in_rows(d, a, b, c, region, d.end_row(region));
        let m = (n - 1) as nat;
        lemma_in_some_bounds(d, a, m);
        lemma_in_some_bounds(d, b, m);
        lemma_in_some_bounds(d, c, m);
        assert(in_some(d, a, n) <= in_some(d, a, m) + in_rows(d, a, region, d.end_row(region)));
        assert(in_some(d, b, n) <= in_some(d, b, m) + in_rows(d, b, region, d.end_row(region)));
        assert(in_some(d, c, n) <= in_some(d, c, m) + in_rows(d, c, region, d.end_row(region)));
    }
}

proof fn lemma_in_some_bounds(d: Diff, a: (int, int), n: nat)
    ensures
        0 <= in_some(d, a, n) <= 1,
    decreases n,
{
    if n > 0 {
        lemma_in_some_bounds(d, a, (n - 1) as nat);
    }
}

/// A changed cell is a cell of some monitor.
proof fn lemma_hot_is_somewhere(d: Diff, a: (int, int))
    requires
        d.sound(),
        0 <= a.0,
        0 <= a.1,
        changed_in_cell(d, a.0, a.1).len() > 460,
    ensures
        in_some(d, a, d.regions.len()) == 1,
{
    let all = changed_in_cell(d, a.0, a.1);
    law_a_cell_changes_with_its_pixels(d, a.0, a.1);
    if forall|p: (int, int)| !all.contains(p) {
        assert(all =~= Set::empty());
    }
    let p = choose|p: (int, int)| all.contains(p);
    assert(all.contains(p));
    let k = choose|k: int| 0 <= k < d.regions.len() && (#[trigger] d.regions[k]).covers(p.0, p.1);
    let region = d.regions[k];
    assert(p.1 / 96 == a.0 && p.0 / 96 == a.1);
    assert(in_rows(d, a, region, d.end_row(region)) == 1);
    lemma_in_some(d, a, k, d.regions.len());
}

proof fn lemma_in_some(d: Diff, a: (int, int), k: int, n: nat)
    requires
        0 <= k < n <= d.regions.len(),
        in_rows(d, a, d.regions[k], d.end_row(d.regions[k])) == 1,
    ensures
        in_some(d, a, n) == 1,
    decreases n,
{
    if k < n - 1 {
        lemma_in_some(d, a, k, (n - 1) as nat);
    }
}

/// Three changed cells are no noise: where in each of three cells more than 460
/// pixels that a monitor shows look different, in whichever colour, everything that
/// the monitors show of those cells is read again.
pub proof fn law_three_changed_cells_are_read_again(
    d: Diff,
    a: (int, int),
    b: (int, int),
    c: (int, int),
    chunk: int,
    overlap: int,
    x: int,
    y: int,
)
    requires
        d.sound(),
        chunk > 0,
        overlap >= 0,
        0 <= a.0 && 0 <= a.1 && 0 <= b.0 && 0 <= b.1 && 0 <= c.0 && 0 <= c.1,
        a != b,
        a != c,
        b != c,
        changed_in_cell(d, a.0, a.1).len() > 460,
        changed_in_cell(d, b.0, b.1).len() > 460,
        changed_in_cell(d, c.0, c.1).len() > 460,
        covered_by(x, y, d.regions),
        (y / 96, x / 96) == a || (y / 96, x / 96) == b || (y / 96, x / 96) == c,
    ensures
        held_by(x, y, all_pieces(d.bands(), chunk, overlap)),
{
    law_a_cell_changes_with_its_pixels(d, a.0, a.1);
    law_a_cell_changes_with_its_pixels(d, b.0, b.1);
    law_a_cell_changes_with_its_pixels(d, c.0, c.1);
    lemma_hot_is_somewhere(d, a);
    lemma_hot_is_somewhere(d, b);
    lemma_hot_is_somewhere(d, c);
    lemma_three_in_some(d, a, b, c, d.regions.len());
    law_changed_cells_are_read_again(d, chunk, overlap, x, y);
}

proof fn lemma_two_in_row(d: Diff, a: (int, int), b: (int, int), r: int, c0: int, c1: int)
    requires
        0 <= r < d.rows(),
        0 <= c0,
        c1 <= d.cols(),
        forall|r: int, c: int|
            0 <= r < d.rows() && 0 <= c < d.cols() && #[trigger] d.hot(r, c) ==> (r, c) == a || (
            r,
            c,
        ) == b,
    ensures
        d.hits(r, c0, c1) <= in_row(a, r, c0, c1) + in_row(b, r, c0, c1),
    decreases c1 - c0,
{
    if c1 > c0 {
        lemma_two_in_row(d, a, b, r, c0, c1 - 1);
        if d.hot(r, c1 - 1) {
            assert((r, c1 - 1) == a || (r, c1 - 1) == b);
        }
    }
}

proof fn lemma_two_in_rows(d: Diff, a: (int, int), b: (int, int), region: Rect, r: int)
    requires
        0 < d.w,
        0 < d.h,
        0 <= region.x,
        0 <= region.y,
        r <= d.end_row(region),
        forall|r: int, c: int|
            0 <= r < d.rows() && 0 <= c < d.cols() && #[trigger] d.hot(r, c) ==> (r, c) == a || (
            r,
            c,
        ) == b,
    ensures
        d.hits_up_to(region, r) <= in_rows(d, a, region, r) + in_rows(d, b, region, r),
    decreases r - d.top_row(region),
{
    if r > d.top_row(region) {
        lemma_two_in_rows(d, a, b, region, r - 1);
        let c0 = first_cell(region.x as int, d.cols());
        let c1 = end_cell(region.x as int, region.end_x(), d.cols());
        lemma_two_in_row(d, a, b, r - 1, c0, c1);
    }
}

/// Two changed cells are noise: on a single monitor, a clock and a caret that change
/// no other cell are not read again.
pub proof fn law_two_changed_cells_are_noise(d: Diff, a: (int, int), b: (int, int))
    requires
        d.sound(),
        d.regions.len() == 1,
        forall|r: int, c: int|
            0 <= r && 0 <= c && (#[trigger] changed_in_cell(d, r, c)).len() > 460 ==> (r, c) == a || (
            r,
            c,
        ) == b,
    ensures
        d.bands() == Seq::<Band>::empty(),
{
    assert forall|r: int, c: int| 0 <= r < d.rows() && 0 <= c < d.cols() && #[trigger] d.hot(r, c) implies (
    r, c) == a || (r, c) == b by {
        law_a_cell_changes_with_its_pixels(d, r, c);
    }
    let region = d.regions[0];
    lemma_two_in_rows(d, a, b, region, d.end_row(region));
    assert(d.total(0) == 0);
    assert(d.total(1) <= 2);
}

proof fn lemma_run_rows_changed(d: Diff, region: Rect, r: int)
    requires
        r <= d.end_row(region),
    ensures
        forall|i: int, row: int|
            0 <= i < d.runs(region, r).len() && d.runs(region, r)[i].0 <= row < d.runs(region, r)[i].1
                ==> #[trigger] d.region_hits(region, row) != 0 && #[trigger] d.runs(region, r)[i]
                == d.runs(region, r)[i],
    decreases r - d.top_row(region),
{
    if r > d.top_row(region) {
        lemma_run_rows_changed(d, region, r - 1);
        lemma_runs(d, region, r - 1);
        let before = d.runs(region, r - 1);
        let all = d.runs(region, r);
        assert forall|i: int, row: int|
            0 <= i < all.len() && all[i].0 <= row < all[i].1 implies #[trigger] d.region_hits(
            region,
            row,
        ) != 0 && #[trigger] all[i] == all[i] by {
            if i < before.len() && row < before[i].1 && before[i].0 <= row {
                assert(before[i] == before[i]);
                assert(d.region_hits(region, row) != 0);
            }
        }
    }
}

proof fn lemma_some_hit(d: Diff, r: int, c0: int, c1: int)
    requires
        d.hits(r, c0, c1) != 0,
    ensures
        exists|c: int| c0 <= c < c1 && #[trigger] d.hot(r, c),
    decreases c1 - c0,
{
    if c1 > c0 && !d.hot(r, c1 - 1) {
        lemma_some_hit(d, r, c0, c1 - 1);
        let c = choose|c: int| c0 <= c < c1 - 1 && #[trigger] d.hot(r, c);
        assert(c0 <= c < c1 && d.hot(r, c));
    } else if c1 > c0 {
        assert(c0 <= c1 - 1 < c1 && d.hot(r, c1 - 1));
    }
}

/// Only what changed is read again: every row of a band around a change lies in a row
/// of cells in which one has changed, or within 64 pixels of it.
pub proof fn law_bands_lie_close_around_what_changed(d: Diff, i: int, y: int)
    requires
        d.sound(),
        0 <= i < d.bands().len(),
        d.bands()[i].y0 <= y < d.bands()[i].y0 + d.bands()[i].h,
    ensures
        exists|r: int, c: int| #[trigger]
            d.hot(r, c) && 0 <= r && 0 <= c && 96 * r - 64 <= y < 96 * (r + 1) + 64,
{
    lemma_close_bands(d, d.regions.len(), i, y);
}

proof fn lemma_close_bands(d: Diff, n: nat, i: int, y: int)
    requires
        d.sound(),
        n <= d.regions.len(),
        0 <= i < d.bands_up_to(n).len(),
        d.bands_up_to(n)[i].y0 <= y < d.bands_up_to(n)[i].y0 + d.bands_up_to(n)[i].h,
    ensures
        exists|r: int, c: int| #[trigger]
            d.hot(r, c) && 0 <= r && 0 <= c && 96 * r - 64 <= y < 96 * (r + 1) + 64,
    decreases n,
{
    let before = d.bands_up_to((n - 1) as nat);
    let all = d.bands_up_to(n);
    if i < before.len() {
        assert(all[i] == before[i]);
        lemma_close_bands(d, (n - 1) as nat, i, y);
    } else {
        let region = d.regions[n - 1];
        let end = d.end_row(region);
        let runs = d.runs(region, end);
        let run = runs[i - before.len()];
        lemma_runs(d, region, end);
        lemma_run_rows_changed(d, region, end);
        lemma_run_band(d, region, run);
        assert(all[i] == run_band(region, run));
        let near = y / 96;
        let r = if near < run.0 {
            run.0
        } else if near >= run.1 {
            run.1 - 1
        } else {
            near
        };
        assert(run.0 <= r < run.1);
        assert(runs[i - before.len()] == run);
        assert(d.region_hits(region, r) != 0);
        let c0 = first_cell(region.x as int, d.cols());
        let c1 = end_cell(region.x as int, region.end_x(), d.cols());
        lemma_some_hit(d, r, c0, c1);
        let c = choose|c: int| c0 <= c < c1 && #[trigger] d.hot(r, c);
        assert(d.hot(r, c));
    }
}

/// What is planned within is what the monitors show of the capture: the pixels on it
/// that some monitor covers, or all of them where no monitor shows any.
pub proof fn law_regions_are_what_the_monitors_show(
    monitors: Seq<Rect>,
    width: i32,
    height: i32,
    x: int,
    y: int,
)
    ensures
        ({
            let screen = Rect { x: 0, y: 0, width, height };
            let some = exists|k: int, u: int, v: int|
                0 <= k < monitors.len() && #[trigger] monitors[k].covers(u, v) && screen.covers(u, v);
            covered_by(x, y, regions_of(monitors, width, height)) <==> screen.covers(x, y) && (!some
                || exists|k: int| 0 <= k < monitors.len() && (#[trigger] monitors[k]).covers(x, y))
        }),
{
    let screen = Rect { x: 0, y: 0, width, height };
    let parts = visible_parts(monitors, screen);
    lemma_visible_parts(monitors, screen, x, y);
    lemma_some_part(monitors, screen);
    if parts.len() == 0 {
        assert(seq![screen][0] == screen);
        if screen.covers(x, y) {
            assert(regions_of(monitors, width, height)[0].covers(x, y));
        }
    }
}

proof fn lemma_visible_parts(monitors: Seq<Rect>, screen: Rect, x: int, y: int)
    ensures
        covered_by(x, y, visible_parts(monitors, screen)) <==> screen.covers(x, y) && exists|k: int|
            0 <= k < monitors.len() && (#[trigger] monitors[k]).covers(x, y),
    decreases monitors.len(),
{
    if monitors.len() > 0 {
        let rest = monitors.drop_last();
        let last = monitors.last();
        let e = monitors.len() - 1;
        let before = visible_parts(rest, screen);
        let all = visible_parts(monitors, screen);
        lemma_visible_parts(rest, screen, x, y);
        crate::geometry::law_clamp_keeps_the_common_pixels(last, screen, x, y);
        if covered_by(x, y, all) {
            let i = choose|i: int| 0 <= i < all.len() && (#[trigger] all[i]).covers(x, y);
            if i < before.len() {
                assert(before[i].covers(x, y));
                let k = choose|k: int| 0 <= k < rest.len() && (#[trigger] rest[k]).covers(x, y);
                assert(monitors[k].covers(x, y));
            } else {
                assert(monitors[e].covers(x, y));
            }
        }
        if screen.covers(x, y) && exists|k: int|
            0 <= k < monitors.len() && (#[trigger] monitors[k]).covers(x, y) {
            let k = choose|k: int| 0 <= k < monitors.len() && (#[trigger] monitors[k]).covers(x, y);
            if k < e {
                assert(rest[k].covers(x, y));
                let i = choose|i: int| 0 <= i < before.len() && (#[trigger] before[i]).covers(x, y);
                assert(all[i].covers(x, y));
            } else {
                assert(all[before.len() as int].covers(x, y));
            }
        }
    }
}

/// Some monitor shows something exactly if there is a visible part.
proof fn lemma_some_part(monitors: Seq<Rect>, screen: Rect)
    requires
        screen.x == 0,
        screen.y == 0,
    ensures
        visible_parts(monitors, screen).len() > 0 <==> exists|k: int, u: int, v: int|
            0 <= k < monitors.len() && #[trigger] monitors[k].covers(u, v) && screen.covers(u, v),
{
    let parts = visible_parts(monitors, screen);
    lemma_parts_inside(monitors, screen);
    if parts.len() > 0 {
        let (u, v) = (parts[0].x as int, parts[0].y as int);
        assert(parts[0].covers(u, v));
        lemma_visible_parts(monitors, screen, u, v);
        let k = choose|k: int| 0 <= k < monitors.len() && (#[trigger] monitors[k]).covers(u, v);
        assert(monitors[k].covers(u, v) && screen.covers(u, v));
    }
    if exists|k: int, u: int, v: int|
        0 <= k < monitors.len() && #[trigger] monitors[k].covers(u, v) && screen.covers(u, v) {
        let (k, u, v) = choose|k: int, u: int, v: int|
            0 <= k < monitors.len() && #[trigger] monitors[k].covers(u, v) && screen.covers(u, v);
        lemma_visible_parts(monitors, screen, u, v);
        assert(covered_by(u, v, parts));
    }
}

/// A change is read in one piece unless it is higher than 384 pixels, or than its
/// share of a higher screen.
pub proof fn law_ordinary_changes_are_read_in_one_piece(band: Band, height: int, tiles: int, overlap: int)
    requires
        tiles >= 1,
        height >= 0,
    ensures
        band.h <= 384 || band.h <= height / tiles ==> pieces(
            band,
            chunk_of(height, tiles),
            overlap,
        ) == seq![band],
        chunk_of(height, tiles) == 384 || chunk_of(height, tiles) == height / tiles,
{
}

/// A capture of another size, another tiling or another length than before, or one
/// after nothing was read, is planned as a whole.
pub proof fn law_a_screen_that_was_not_read_is_planned_as_a_whole(
    c: ScanCache,
    rgb: Seq<u8>,
    width: i32,
    height: i32,
    tiles: usize,
    overlap: i32,
)
    requires
        !c.have_prev || c.width != width || c.height != height || c.tiles != tiles || c.overlap
            != overlap || c.prev@.len() != rgb.len(),
    ensures
        c.next_plan(rgb, width, height, tiles, overlap) == all_tiled(
            regions_of(c.monitors@, width, height),
            tiles as int,
            overlap as int,
        ),
{
}

/// A cached word is replaced exactly if the middle of its box, counted from the
/// corner of the capture, lies in the band.
pub proof fn law_a_word_is_replaced_if_its_middle_is_in_the_band(w: Word, band: Band, origin: (int, int))
    ensures
        ({
            let x = w.rect.mid_x() - origin.0;
            let y = w.rect.mid_y() - origin.1;
            !outlives(w, band, origin) <==> band.x0 <= x < band.x0 + band.w && band.y0 <= y < band.y0
                + band.h
        }),
{
}

/// On each monitor a cold scan reads a line of text no higher than the overlap as a
/// whole, in at least one strip.
pub proof fn law_a_cold_scan_cuts_no_line(
    regions: Seq<Rect>,
    w: int,
    h: int,
    tiles: int,
    overlap: int,
    k: int,
    top: int,
    bottom: int,
)
    requires
        inside(regions, w, h),
        h <= i32::MAX,
        overlap >= 0,
        0 <= k < regions.len(),
        regions[k].y <= top < bottom <= regions[k].y + regions[k].height,
        bottom - top <= overlap,
    ensures
        exists|i: int|
            0 <= i < all_tiled(regions, tiles, overlap).len() && ({
                let b = #[trigger] all_tiled(regions, tiles, overlap)[i];
                b.x0 == regions[k].x && b.w == regions[k].width && b.y0 <= top && bottom <= b.y0
                    + b.h
            }),
{
    let region = regions[k];
    let height = region.height as int;
    super::law_a_line_on_a_cut_is_whole_in_one_band(
        height,
        tiles,
        overlap,
        top - region.y,
        bottom - region.y,
    );
    let j = choose|j: int|
        0 <= j < band_count(height, tiles) && ({
            let (y0, h) = #[trigger] bands_of(height, tiles, overlap)[j];
            y0 <= top - region.y && bottom - region.y <= y0 + h
        });
    super::law_bands_lie_inside(height, tiles, overlap, j);
    let b = tiled(region, tiles, overlap)[j];
    lemma_all_tiled(regions, tiles, overlap);
    let all = all_tiled(regions, tiles, overlap);
    assert(all.contains(tiled(regions[k], tiles, overlap)[j]));
    let i = choose|i: int| 0 <= i < all.len() && all[i] == b;
    assert(all[i] == b);
}

/// A warm scan compares the capture with the baseline, on the monitors as they are
/// now.
pub proof fn law_a_capture_is_compared_with_the_baseline(c: ScanCache, rgb: Seq<u8>, width: i32, height: i32)
    ensures
        c.diff(rgb, width, height).now == rgb,
        c.diff(rgb, width, height).base == c.prev@,
        c.diff(rgb, width, height).w == width,
        c.diff(rgb, width, height).h == height,
        c.diff(rgb, width, height).regions == regions_of(c.monitors@, width, height),
{
}

/// What has changed in three cells or more is in the next plan, whatever else is
/// waiting to be read.
pub proof fn law_a_real_change_is_in_the_next_plan(
    c: ScanCache,
    rgb: Seq<u8>,
    width: i32,
    height: i32,
    tiles: usize,
    overlap: i32,
    p: (int, int),
    q: (int, int),
    r: (int, int),
    x: int,
    y: int,
)
    requires
        width > 0,
        height > 0,
        overlap >= 0,
        0 <= p.0 && 0 <= p.1 && 0 <= q.0 && 0 <= q.1 && 0 <= r.0 && 0 <= r.1,
        p != q,
        p != r,
        q != r,
        changed_in_cell(c.diff(rgb, width, height), p.0, p.1).len() > 460,
        changed_in_cell(c.diff(rgb, width, height), q.0, q.1).len() > 460,
        changed_in_cell(c.diff(rgb, width, height), r.0, r.1).len() > 460,
        covered_by(x, y, regions_of(c.monitors@, width, height)),
        (y / 96, x / 96) == p || (y / 96, x / 96) == q || (y / 96, x / 96) == r,
    ensures
        held_by(x, y, c.next_plan(rgb, width, height, tiles, overlap)),
{
    let plan = c.next_plan(rgb, width, height, tiles, overlap);
    let regions = regions_of(c.monitors@, width, height);
    lemma_regions_inside(c.monitors@, width, height);
    if c.warm(rgb.len() as int, width as int, height as int, tiles as int, overlap as int) {
        let d = c.diff(rgb, width, height);
        let chunk = chunk_of(height as int, tiles as int);
        let fresh = all_pieces(d.bands(), chunk, overlap as int);
        law_three_changed_cells_are_read_again(d, p, q, r, chunk, overlap as int, x, y);
        let k = choose|k: int| 0 <= k < fresh.len() && (#[trigger] fresh[k]).holds(x, y);
        assert(plan[k].holds(x, y));
    } else {
        law_a_cold_scan_covers_every_monitor(
            regions,
            width as int,
            height as int,
            tiles as int,
            overlap as int,
            x,
            y,
        );
        let k = choose|k: int| 0 <= k < plan.len() && (#[trigger] plan[k]).holds(x, y);
        assert(plan[k].holds(x, y));
    }
}

/// A screen that shows what was read last, with nothing left to read, is not read
/// again.
pub proof fn law_a_static_screen_is_not_read_again(
    c: ScanCache,
    rgb: Seq<u8>,
    width: i32,
    height: i32,
    tiles: usize,
    overlap: i32,
)
    requires
        width > 0,
        height > 0,
        c.warm(rgb.len() as int, width as int, height as int, tiles as int, overlap as int),
        c.unread@.len() == 0,
        forall|x: int, y: int|
            0 <= x < width && 0 <= y < height && covered_by(
                x,
                y,
                regions_of(c.monitors@, width, height),
            ) ==> !#[trigger] looks_different(c.diff(rgb, width, height), x, y),
    ensures
        c.next_plan(rgb, width, height, tiles, overlap).len() == 0,
{
    let d = c.diff(rgb, width, height);
    lemma_regions_inside(c.monitors@, width, height);
    assert forall|x: int, y: int|
        0 <= x < d.w && 0 <= y < d.h && covered_by(x, y, d.regions) implies !#[trigger] d.differs(
        x,
        y,
    ) by {
        law_a_pixel_changes_with_any_of_its_colours(d, x, y);
        assert(!looks_different(d, x, y));
    }
    law_unchanged_monitors_read_nothing(d);
    assert(c.unread@ =~= Seq::<Band>::empty());
    lemma_nothing_planned(d, chunk_of(height as int, tiles as int), overlap as int);
}

/// A baseline can be compared with exactly if one was read, of a capture as long as
/// this one, on a screen of this size and with this tiling.
pub proof fn law_a_baseline_is_for_its_own_screen(
    c: ScanCache,
    len: int,
    width: int,
    height: int,
    tiles: int,
    overlap: int,
)
    ensures
        c.warm(len, width, height, tiles, overlap) <==> {
            &&& c.have_prev
            &&& c.prev@.len() == len
            &&& c.width == width && c.height == height
            &&& c.tiles == tiles && c.overlap == overlap
            &&& width > 0 && height > 0 ==> len >= 3 * (width * height)
        },
        c.without_baseline().have_prev == false,
        c.without_baseline().monitors == c.monitors,
        c.without_baseline().prev == c.prev,
{
}

/// A pixel is in a band exactly if it is as far in, from its corner, as it is wide and
/// high.
pub proof fn law_a_band_holds_its_columns_and_rows(b: Band, dx: int, dy: int)
    ensures
        b.holds(b.x0 + dx, b.y0 + dy) <==> 0 <= dx < b.w && 0 <= dy < b.h,
{
}

/// Text around a change is read with it: unless only noise moved, everything that a
/// monitor shows within 64 pixels above or below a changed cell of its own is read
/// again, over the whole width of the monitor.
pub proof fn law_text_around_a_change_is_read_with_it(
    d: Diff,
    chunk: int,
    overlap: int,
    k: int,
    cx: int,
    cy: int,
    x: int,
    y: int,
)
    requires
        d.sound(),
        chunk > 0,
        overlap >= 0,
        d.total(d.regions.len()) > 2,
        0 <= k < d.regions.len(),
        d.regions[k].covers(cx, cy),
        d.hot(cy / 96, cx / 96),
        d.regions[k].covers(x, y),
        96 * (cy / 96) - 64 <= y < 96 * (cy / 96 + 1) + 64,
    ensures
        held_by(x, y, all_pieces(d.bands(), chunk, overlap)),
{
    let region = d.regions[k];
    let r = cy / 96;
    let c = cx / 96;
    let c0 = first_cell(region.x as int, d.cols());
    let c1 = end_cell(region.x as int, region.end_x(), d.cols());
    assert(c0 <= c < c1);
    assert(d.top_row(region) <= r < d.end_row(region));
    lemma_hits_positive(d, r, c0, c1, c);
    lemma_run_of(d, region, d.end_row(region), r);
    let runs = d.runs(region, d.end_row(region));
    let j = choose|j: int| 0 <= j < runs.len() && (#[trigger] runs[j]).0 <= r < runs[j].1;
    lemma_runs(d, region, d.end_row(region));
    lemma_run_band(d, region, runs[j]);
    let b = d.region_bands(region)[j];
    assert(b == run_band(region, runs[j]));
    assert(b.holds(x, y));
    lemma_region_band_at(d, d.regions.len(), k, j);
    let bands = d.bands();
    let m = choose|m: int| 0 <= m < bands.len() && bands[m] == b;
    lemma_pieces_hold(d, chunk, overlap, m, x, y);
}

} // verus!
