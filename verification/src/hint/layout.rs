//! Hint box placement with anti-overlap.
//!
//! Each detected element gets a small label box anchored at its top-left corner.
//! When boxes would collide (dense UIs, lists), [`place_hints`] nudges later
//! boxes to nearby free positions so labels stay readable. The point the cursor
//! ultimately jumps to is the *start* of the element's text (its left edge,
//! vertically centred), not the phrase centre: a phrase target spans a whole
//! line, and its midpoint can land in a gap between words or past the clickable
//! part. The first glyphs are where you actually want to click.
//!
//! Drag selection ([`place_drag_hints`]) is different: each phrase gets *two*
//! hints, one on the first glyph and one just past the last, so you can pick the
//! start of one phrase and the end of another and drag-select everything between:
//! a whole sentence, copied to the clipboard.

use vstd::prelude::*;

use crate::detect::Element;
use crate::geometry::{fits_i32, greater, half, lesser, max_i32, min_i32, Point, Rect};
use crate::text::to_chars;

verus! {

/// A label box ready to be rendered.
#[derive(Debug, Clone)]
pub struct HintBox {
    /// Index into the element list (and into the label list).
    pub index: usize,
    pub label: String,
    /// Where the label box is drawn.
    pub rect: Rect,
    /// Where the pointer should land when this hint is chosen.
    pub target: Point,
}

/// The pixel sizes of the label font, rounded up to whole pixels.
#[derive(Debug, Clone, Copy, PartialEq, Eq, Structural)]
pub struct Metrics {
    /// Advance of one character: about 0.62 em for monospace digits and letters.
    pub advance: i32,
    /// Height of a line: one em.
    pub line: i32,
}

/// Horizontal and vertical padding of a label box, both sides together.
pub const PAD_X: i32 = 8;

pub const PAD_Y: i32 = 4;

/// No label box is smaller than this, on either axis.
pub const MIN_BOX: i32 = 8;

impl Metrics {
    /// Width of the box for a label of `len` characters.
    pub open spec fn box_width(self, len: nat) -> int {
        greater(len * self.advance + PAD_X, MIN_BOX as int)
    }

    /// Height of every box.
    pub open spec fn box_height(self) -> int {
        greater(self.line + PAD_Y, MIN_BOX as int)
    }

    /// Every one of `names` has a box whose sides an `i32` can hold.
    pub open spec fn fits_names(self, names: Seq<Seq<char>>) -> bool {
        &&& fits_i32(self.box_height())
        &&& forall|i: int|
            0 <= i < names.len() ==> fits_i32(self.box_width((#[trigger] names[i]).len()))
    }

    /// Every label of `labels` has a box whose sides an `i32` can hold.
    pub open spec fn fits(self, labels: Seq<String>) -> bool {
        &&& fits_i32(self.box_height())
        &&& forall|i: int|
            0 <= i < labels.len() ==> fits_i32(self.box_width((#[trigger] labels[i])@.len()))
    }
}

/// A request to place one label: where its box prefers to sit (`anchor`, its
/// top-left) and where the pointer should land when it's chosen (`target`).
pub struct Anchor {
    pub anchor: Point,
    pub target: Point,
}

/// How far into a box its text start lies.
pub open spec fn inset(rect: Rect) -> int {
    lesser(half(rect.height as int), half(rect.width as int))
}

/// The text start of `rect` is a [`Point`].
pub open spec fn has_text_start(rect: Rect) -> bool {
    fits_i32(rect.x + inset(rect)) && fits_i32(rect.mid_y())
}

/// Both drag points of `rect` are [`Point`]s.
pub open spec fn has_drag_points(rect: Rect) -> bool {
    &&& fits_i32(rect.x - margin(rect))
    &&& fits_i32(rect.end_x())
    &&& fits_i32(rect.end_x() + margin(rect))
    &&& fits_i32(rect.mid_y())
}

/// The overshoot of a drag: half the line height, between 3 and 14 pixels.
pub open spec fn margin(rect: Rect) -> int {
    greater(3, lesser(14, half(rect.height as int)))
}

/// The anchor of an element that is jumped to.
pub open spec fn jump_anchor(rect: Rect) -> Anchor {
    Anchor {
        anchor: Point { x: rect.x, y: rect.y },
        target: Point { x: (rect.x + inset(rect)) as i32, y: rect.mid_y() as i32 },
    }
}

/// The anchor of the start of a drag: just left of the first glyph.
pub open spec fn drag_from_anchor(rect: Rect) -> Anchor {
    Anchor {
        anchor: Point { x: rect.x, y: rect.y },
        target: Point { x: (rect.x - margin(rect)) as i32, y: rect.mid_y() as i32 },
    }
}

/// The anchor of the end of a drag: just past the last glyph.
pub open spec fn drag_to_anchor(rect: Rect) -> Anchor {
    Anchor {
        anchor: Point { x: rect.end_x() as i32, y: rect.y },
        target: Point { x: (rect.end_x() + margin(rect)) as i32, y: rect.mid_y() as i32 },
    }
}

/// One anchor per element.
pub open spec fn jump_anchors(elements: Seq<Element>) -> Seq<Anchor> {
    Seq::new(elements.len(), |i: int| jump_anchor(elements[i].rect))
}

/// Two anchors per element: its start, then its end.
pub open spec fn drag_anchors(elements: Seq<Element>) -> Seq<Anchor> {
    Seq::new(
        2 * elements.len(),
        |i: int|
            if i % 2 == 0 {
                drag_from_anchor(elements[i / 2].rect)
            } else {
                drag_to_anchor(elements[i / 2].rect)
            },
    )
}

/// Candidate offsets (in boxes plus gap) tried, in order, when the preferred
/// spot is taken. Down first (lists grow downward), then a small grid around.
pub open spec fn offsets() -> Seq<(int, int)> {
    seq![(0, 0), (0, 1), (1, 0), (1, 1), (0, -1), (-1, 0), (0, 2), (2, 0), (1, -1), (-1, 1)]
}

/// What a label box is placed among: its size, the gap it keeps, the screen it
/// stays on and the boxes that are already there.
pub struct Site {
    pub w: int,
    pub h: int,
    pub gap: int,
    pub screen: Rect,
    pub taken: Seq<Rect>,
}

impl Site {
    /// The left edge of candidate `k` for a box anchored at `base`.
    pub open spec fn slot_x(self, base: Point, k: int) -> int {
        base.x + offsets()[k].0 * (self.w + self.gap)
    }

    /// The top edge of candidate `k`.
    pub open spec fn slot_y(self, base: Point, k: int) -> int {
        base.y + offsets()[k].1 * (self.h + self.gap)
    }

    /// Candidate `k` is a [`Rect`] and lies on the screen as a whole.
    pub open spec fn on_screen(self, base: Point, k: int) -> bool {
        &&& fits_i32(self.slot_x(base, k))
        &&& fits_i32(self.slot_y(base, k))
        &&& self.screen.x <= self.slot_x(base, k)
        &&& self.slot_x(base, k) + self.w <= self.screen.end_x()
        &&& self.screen.y <= self.slot_y(base, k)
        &&& self.slot_y(base, k) + self.h <= self.screen.end_y()
    }

    /// Candidate `k` as a rectangle.
    pub open spec fn slot(self, base: Point, k: int) -> Rect {
        Rect {
            x: self.slot_x(base, k) as i32,
            y: self.slot_y(base, k) as i32,
            width: self.w as i32,
            height: self.h as i32,
        }
    }

    /// No box that is already there comes within the gap of `rect`.
    pub open spec fn clear(self, rect: Rect) -> bool {
        forall|j: int| 0 <= j < self.taken.len() ==> !(#[trigger] self.taken[j]).near(rect, self.gap)
    }

    /// Candidate `k` is on the screen and keeps its distance.
    pub open spec fn free(self, base: Point, k: int) -> bool {
        self.on_screen(base, k) && self.clear(self.slot(base, k))
    }

    /// Where the box goes when every candidate is taken: over its anchor, cut to
    /// the screen, or in the screen's corner if nothing of it would be visible.
    pub open spec fn fallback(self, base: Point) -> Rect {
        let r = Rect { x: base.x, y: base.y, width: self.w as i32, height: self.h as i32 };
        match r.cut(self.screen) {
            Some(part) => part,
            None => Rect {
                x: self.screen.x,
                y: self.screen.y,
                width: self.w as i32,
                height: self.h as i32,
            },
        }
    }

    /// The first free candidate from `k` on, or else the fallback.
    pub open spec fn pick_from(self, base: Point, k: int) -> Rect
        decreases offsets().len() - k,
    {
        if k < 0 || k >= offsets().len() {
            self.fallback(base)
        } else if self.free(base, k) {
            self.slot(base, k)
        } else {
            self.pick_from(base, k + 1)
        }
    }

    /// Where a box anchored at `base` goes.
    pub open spec fn pick(self, base: Point) -> Rect {
        self.pick_from(base, 0)
    }
}

/// The boxes `existing`, followed by those of the first `n` anchors, each placed
/// among all the boxes before it.
pub open spec fn arranged(
    existing: Seq<Rect>,
    anchors: Seq<Anchor>,
    labels: Seq<String>,
    metrics: Metrics,
    gap: int,
    screen: Rect,
    n: nat,
) -> Seq<Rect>
    decreases n,
{
    if n == 0 {
        existing
    } else {
        let taken = arranged(existing, anchors, labels, metrics, gap, screen, (n - 1) as nat);
        let site = Site {
            w: metrics.box_width(labels[n - 1]@.len()),
            h: metrics.box_height(),
            gap,
            screen,
            taken,
        };
        taken.push(site.pick(anchors[n - 1].anchor))
    }
}

/// The rectangles of `boxes`.
pub open spec fn rects(boxes: Seq<HintBox>) -> Seq<Rect> {
    boxes.map_values(|b: HintBox| b.rect)
}

/// `new` is what laying out `anchors` with `labels` around `existing` gives.
pub open spec fn laid_out(
    new: Seq<HintBox>,
    existing: Seq<HintBox>,
    anchors: Seq<Anchor>,
    labels: Seq<String>,
    metrics: Metrics,
    gap: int,
    screen: Rect,
) -> bool {
    let all = arranged(rects(existing), anchors, labels, metrics, gap, screen, anchors.len());
    &&& new.len() == anchors.len()
    &&& all.len() == existing.len() + new.len()
    &&& forall|i: int|
        0 <= i < new.len() ==> {
            let b = #[trigger] new[i];
            &&& b.index == existing.len() + i
            &&& b.label@ == labels[i]@
            &&& b.rect == all[existing.len() + i]
            &&& b.target == anchors[i].target
        }
}

/// Candidate offset `k`.
fn offset(k: usize) -> (o: (i64, i64))
    requires
        k < offsets().len(),
    ensures
        o.0 == offsets()[k as int].0,
        o.1 == offsets()[k as int].1,
        -2 <= o.0 <= 2,
        -2 <= o.1 <= 2,
{
    if k == 0 {
        (0, 0)
    } else if k == 1 {
        (0, 1)
    } else if k == 2 {
        (1, 0)
    } else if k == 3 {
        (1, 1)
    } else if k == 4 {
        (0, -1)
    } else if k == 5 {
        (-1, 0)
    } else if k == 6 {
        (0, 2)
    } else if k == 7 {
        (2, 0)
    } else if k == 8 {
        (1, -1)
    } else {
        (-1, 1)
    }
}

/// The point to jump to for an element: the start of its text, the left edge,
/// vertically centred, nudged in by about half a line height so it lands on the
/// first glyph rather than the very edge (or a gap before it).
fn text_start(rect: Rect) -> (p: Point)
    requires
        has_text_start(rect),
    ensures
        p == jump_anchor(rect).target,
{
    let inset = min_i32(rect.height / 2, rect.width / 2);
    Point::new(rect.x + inset, rect.y + rect.height / 2)
}

/// Horizontal margin (px) by which a drag press/release overshoots the text box,
/// scaled to the line height (≈ half a character) and clamped. The OCR box hugs
/// the ink, so a press *on* the left edge lands inside the first glyph and the
/// selection starts at the second character; nudging out by this margin puts the
/// press in the gap just before the first glyph (and the release just past the
/// last), so the whole phrase (first letter included) is selected.
fn drag_margin(rect: Rect) -> (m: i32)
    ensures
        m == margin(rect),
{
    max_i32(3, min_i32(14, rect.height / 2))
}

/// Where a drag selection should *begin* for a phrase: just left of the first
/// glyph, vertically centred (see [`drag_margin`]).
fn drag_start(rect: Rect) -> (p: Point)
    requires
        has_drag_points(rect),
    ensures
        p == drag_from_anchor(rect).target,
{
    Point::new(rect.x - drag_margin(rect), rect.y + rect.height / 2)
}

/// Where a drag selection should *end* for a phrase: just past the last glyph,
/// vertically centred, so the release sits after the final character and the
/// whole phrase is selected.
fn drag_end(rect: Rect) -> (p: Point)
    requires
        has_drag_points(rect),
    ensures
        p == drag_to_anchor(rect).target,
{
    Point::new(rect.right() + drag_margin(rect), rect.y + rect.height / 2)
}

/// Estimate the pixel size of a label box for a monospace-ish font.
fn box_size(label: &String, metrics: Metrics) -> (s: (i32, i32))
    requires
        fits_i32(metrics.box_width(label@.len())),
        fits_i32(metrics.box_height()),
    ensures
        s.0 == metrics.box_width(label@.len()),
        s.1 == metrics.box_height(),
{
    let chars = to_chars(label.as_str());
    let n = chars.len();
    let h = max_i32_wide(metrics.line as i64 + PAD_Y as i64);
    if metrics.advance <= 0 || n == 0 {
        assert(n * metrics.advance <= 0) by (nonlinear_arith)
            requires
                metrics.advance <= 0 || n == 0,
                n >= 0,
        ;
        if metrics.advance == 0 || n == 0 {
            assert(n * metrics.advance == 0) by (nonlinear_arith)
                requires
                    metrics.advance == 0 || n == 0,
            ;
        }
        return (MIN_BOX, h);
    }
    assert(n <= n * metrics.advance) by (nonlinear_arith)
        requires
            metrics.advance >= 1,
            n >= 0,
    ;
    (max_i32_wide(n as i64 * metrics.advance as i64 + PAD_X as i64), h)
}

/// The larger of `v` and [`MIN_BOX`], for a `v` that is not too large.
fn max_i32_wide(v: i64) -> (r: i32)
    requires
        v <= i32::MAX,
    ensures
        r == greater(v as int, MIN_BOX as int),
{
    if v >= MIN_BOX as i64 {
        v as i32
    } else {
        MIN_BOX
    }
}

/// Place a hint box for every (element, label) pair, avoiding overlaps where it
/// can. `min_gap` is the minimum spacing enforced between boxes.
pub fn place_hints(
    elements: &[Element],
    labels: &[String],
    metrics: Metrics,
    min_gap: i32,
    screen: Rect,
) -> (r: Vec<HintBox>)
    requires
        elements@.len() == labels@.len(),
        forall|i: int| 0 <= i < elements@.len() ==> has_text_start((#[trigger] elements@[i]).rect),
        metrics.fits(labels@),
    ensures
        laid_out(
            r@,
            Seq::empty(),
            jump_anchors(elements@),
            labels@,
            metrics,
            min_gap as int,
            screen,
        ),
{
    let none: Vec<HintBox> = Vec::new();
    let r = place_hints_avoiding(elements, labels, metrics, min_gap, screen, none.as_slice());
    assert(none@ =~= Seq::<HintBox>::empty());
    r
}

/// Like [`place_hints`], but lay the new boxes out *around* `existing` ones
/// without moving them, used when late-arriving (background-OCR'd) hints are
/// added to an overlay that's already up. Returns only the newly placed boxes;
/// their `index` continues after `existing`.
pub fn place_hints_avoiding(
    elements: &[Element],
    labels: &[String],
    metrics: Metrics,
    min_gap: i32,
    screen: Rect,
    existing: &[HintBox],
) -> (r: Vec<HintBox>)
    requires
        elements@.len() == labels@.len(),
        forall|i: int| 0 <= i < elements@.len() ==> has_text_start((#[trigger] elements@[i]).rect),
        metrics.fits(labels@),
    ensures
        laid_out(
            r@,
            existing@,
            jump_anchors(elements@),
            labels@,
            metrics,
            min_gap as int,
            screen,
        ),
{
    let mut anchors: Vec<Anchor> = Vec::new();
    let mut i: usize = 0;
    while i < elements.len()
        invariant
            i <= elements@.len(),
            forall|i: int|
                0 <= i < elements@.len() ==> has_text_start((#[trigger] elements@[i]).rect),
            anchors@ == jump_anchors(elements@).take(i as int),
        decreases elements@.len() - i,
    {
        let rect = elements[i].rect;
        anchors.push(Anchor { anchor: Point::new(rect.x, rect.y), target: text_start(rect) });
        assert(anchors@ == jump_anchors(elements@).take(i + 1));
        i += 1;
    }
    assert(anchors@ == jump_anchors(elements@));
    place_anchors(&anchors, labels, metrics, min_gap, screen, existing)
}

/// Place drag-selection hints: two per phrase, one on its first glyph and one
/// just past its last. Picking the start of one phrase and the end of another
/// then drag-selects the whole span between them. `labels` must hold one label
/// per hint, i.e. `2 * elements.len()`, in the order start₀, end₀, start₁, …
pub fn place_drag_hints(
    elements: &[Element],
    labels: &[String],
    metrics: Metrics,
    min_gap: i32,
    screen: Rect,
) -> (r: Vec<HintBox>)
    requires
        labels@.len() == 2 * elements@.len(),
        forall|i: int| 0 <= i < elements@.len() ==> has_drag_points((#[trigger] elements@[i]).rect),
        metrics.fits(labels@),
    ensures
        laid_out(
            r@,
            Seq::empty(),
            drag_anchors(elements@),
            labels@,
            metrics,
            min_gap as int,
            screen,
        ),
{
    let mut anchors: Vec<Anchor> = Vec::new();
    let mut i: usize = 0;
    while i < elements.len()
        invariant
            i <= elements@.len(),
            forall|i: int|
                0 <= i < elements@.len() ==> has_drag_points((#[trigger] elements@[i]).rect),
            anchors@ == drag_anchors(elements@).take(2 * i),
        decreases elements@.len() - i,
    {
        let rect = elements[i].rect;
        // Start hint hugs the left edge; end hint sits at the right edge.
        anchors.push(Anchor { anchor: Point::new(rect.x, rect.y), target: drag_start(rect) });
        anchors.push(Anchor { anchor: Point::new(rect.right(), rect.y), target: drag_end(rect) });
        assert(anchors@ == drag_anchors(elements@).take(2 * (i + 1)));
        i += 1;
    }
    assert(anchors@ == drag_anchors(elements@));
    let none: Vec<HintBox> = Vec::new();
    let r = place_anchors(&anchors, labels, metrics, min_gap, screen, none.as_slice());
    assert(none@ =~= Seq::<HintBox>::empty());
    r
}

/// Lay out one label box per [`Anchor`], nudging around `existing` boxes and the
/// ones placed so far to avoid overlaps. Returns only the newly placed boxes;
/// their `index` continues after `existing`.
fn place_anchors(
    anchors: &Vec<Anchor>,
    labels: &[String],
    metrics: Metrics,
    min_gap: i32,
    screen: Rect,
    existing: &[HintBox],
) -> (r: Vec<HintBox>)
    requires
        anchors@.len() == labels@.len(),
        metrics.fits(labels@),
    ensures
        laid_out(r@, existing@, anchors@, labels@, metrics, min_gap as int, screen),
{
    let mut taken: Vec<Rect> = Vec::new();
    let mut e: usize = 0;
    while e < existing.len()
        invariant
            e <= existing@.len(),
            taken@ == rects(existing@).take(e as int),
        decreases existing@.len() - e,
    {
        taken.push(existing[e].rect);
        assert(taken@ == rects(existing@).take(e + 1));
        e += 1;
    }
    assert(taken@ == rects(existing@));

    let mut placed: Vec<HintBox> = Vec::new();
    let mut i: usize = 0;
    while i < anchors.len()
        invariant
            i <= anchors@.len(),
            anchors@.len() == labels@.len(),
            metrics.fits(labels@),
            placed@.len() == i,
            taken@.len() == existing@.len() + i,
            taken@ == arranged(
                rects(existing@),
                anchors@,
                labels@,
                metrics,
                min_gap as int,
                screen,
                i as nat,
            ),
            forall|j: int|
                0 <= j < i ==> {
                    let b = #[trigger] placed@[j];
                    &&& b.index == existing@.len() + j
                    &&& b.label@ == labels@[j]@
                    &&& b.rect == taken@[existing@.len() + j]
                    &&& b.target == anchors@[j].target
                },
        decreases anchors@.len() - i,
    {
        let (w, h) = box_size(&labels[i], metrics);
        let rect = place_box(anchors[i].anchor, w, h, min_gap, screen, &taken);
        let index = taken.len();
        placed.push(HintBox { index, label: labels[i].clone(), rect, target: anchors[i].target });
        taken.push(rect);
        i += 1;
    }
    placed
}

/// Find the spot for one box of size `w`×`h` anchored at `base`.
fn place_box(base: Point, w: i32, h: i32, min_gap: i32, screen: Rect, taken: &Vec<Rect>) -> (r: Rect)
    requires
        w > 0,
        h > 0,
    ensures
        r == (Site { w: w as int, h: h as int, gap: min_gap as int, screen, taken: taken@ }).pick(
            base,
        ),
{
    let ghost site = Site {
        w: w as int,
        h: h as int,
        gap: min_gap as int,
        screen,
        taken: taken@,
    };
    let mut k: usize = 0;
    while k < 10
        invariant
            k <= 10,
            w > 0,
            h > 0,
            site == (Site { w: w as int, h: h as int, gap: min_gap as int, screen, taken: taken@ }),
            site.pick(base) == site.pick_from(base, k as int),
        decreases 10 - k,
    {
        let (dx, dy) = offset(k);
        let step_x = w as i64 + min_gap as i64;
        let step_y = h as i64 + min_gap as i64;
        assert(-0x1_0000_0000 * 2 <= dx * step_x <= 0x1_0000_0000 * 2) by (nonlinear_arith)
            requires
                -2 <= dx <= 2,
                -0x1_0000_0000 <= step_x <= 0x1_0000_0000,
        ;
        assert(-0x1_0000_0000 * 2 <= dy * step_y <= 0x1_0000_0000 * 2) by (nonlinear_arith)
            requires
                -2 <= dy <= 2,
                -0x1_0000_0000 <= step_y <= 0x1_0000_0000,
        ;
        let x = base.x as i64 + dx * step_x;
        let y = base.y as i64 + dy * step_y;
        assert(x == site.slot_x(base, k as int));
        assert(y == site.slot_y(base, k as int));
        let inside = screen.x as i64 <= x && x + w as i64 <= screen.right_wide() && screen.y as i64
            <= y && y + h as i64 <= screen.bottom_wide() && x <= i32::MAX as i64 && y
            <= i32::MAX as i64;
        assert(inside == site.on_screen(base, k as int));
        // Partly off-screen at this offset: try the next one.
        if inside {
            let cand = Rect::new(x as i32, y as i32, w, h);
            assert(cand == site.slot(base, k as int));
            if !collides(taken, &cand, min_gap) {
                return cand;
            }
            proof {
                let j = choose|j: int|
                    0 <= j < taken@.len() && (#[trigger] taken@[j]).near(cand, min_gap as int);
                assert(site.taken[j].near(cand, site.gap));
            }
        }
        assert(!site.free(base, k as int));
        assert(site.pick_from(base, k as int) == site.pick_from(base, k + 1));
        k += 1;
    }
    // Everything collided: fall back to the on-screen clamped base.
    match Rect::new(base.x, base.y, w, h).clamp_to(screen) {
        Some(part) => part,
        None => Rect::new(screen.x, screen.y, w, h),
    }
}

/// Whether some box of `taken` comes within `gap` of `cand`.
fn collides(taken: &Vec<Rect>, cand: &Rect, gap: i32) -> (b: bool)
    ensures
        b == exists|j: int| 0 <= j < taken@.len() && (#[trigger] taken@[j]).near(*cand, gap as int),
{
    let mut j: usize = 0;
    while j < taken.len()
        invariant
            j <= taken@.len(),
            forall|i: int| 0 <= i < j ==> !(#[trigger] taken@[i]).near(*cand, gap as int),
        decreases taken@.len() - j,
    {
        if taken[j].intersects_with_gap(cand, gap) {
            return true;
        }
        j += 1;
    }
    false
}

// --- Laws -----------------------------------------------------------------

/// Picking from candidate `k` on gives the first free one, or the fallback if
/// none is free.
proof fn lemma_pick(site: Site, base: Point, k: int)
    requires
        0 <= k <= offsets().len(),
    ensures
        ({
            let r = site.pick_from(base, k);
            ||| exists|j: int|
                k <= j < offsets().len() && #[trigger] site.free(base, j) && r == site.slot(base, j)
                    && forall|i: int| k <= i < j ==> !#[trigger] site.free(base, i)
            ||| r == site.fallback(base) && forall|i: int|
                k <= i < offsets().len() ==> !#[trigger] site.free(base, i)
        }),
    decreases offsets().len() - k,
{
    if k < offsets().len() && !site.free(base, k) {
        lemma_pick(site, base, k + 1);
    }
}

/// A box whose preferred spot is free sits exactly there.
pub proof fn law_a_free_anchor_is_used(site: Site, base: Point)
    requires
        site.free(base, 0),
    ensures
        site.pick(base) == site.slot(base, 0),
        site.slot_x(base, 0) == base.x,
        site.slot_y(base, 0) == base.y,
{
    assert(offsets()[0] == (0int, 0int));
    assert(0 * (site.w + site.gap) == 0 && 0 * (site.h + site.gap) == 0) by (nonlinear_arith);
}

/// As long as one of the candidate spots is free, the box lands on a free spot:
/// wholly on the screen and at least the gap away from every earlier box.
pub proof fn law_boxes_keep_their_distance(site: Site, base: Point, k: int)
    requires
        0 < site.w <= i32::MAX,
        0 < site.h <= i32::MAX,
        0 <= k < offsets().len(),
        site.free(base, k),
    ensures
        site.clear(site.pick(base)),
        site.pick(base).cut(site.screen) == Some(site.pick(base)),
        site.pick(base).width == site.w,
        site.pick(base).height == site.h,
{
    lemma_pick(site, base, 0);
}

/// A box that is no larger than the screen always ends up wholly on the screen.
pub proof fn law_boxes_stay_on_screen(site: Site, base: Point)
    requires
        0 < site.w <= site.screen.width,
        0 < site.h <= site.screen.height,
    ensures
        site.pick(base).cut(site.screen) == Some(site.pick(base)),
{
    lemma_pick(site, base, 0);
}

/// Placing more boxes moves none of the boxes that are already there, whether
/// they were given or placed before.
pub proof fn law_placed_boxes_never_move(
    existing: Seq<Rect>,
    anchors: Seq<Anchor>,
    labels: Seq<String>,
    metrics: Metrics,
    gap: int,
    screen: Rect,
    n: nat,
    m: nat,
)
    requires
        n <= m,
    ensures
        arranged(existing, anchors, labels, metrics, gap, screen, m).len() == existing.len() + m,
        arranged(existing, anchors, labels, metrics, gap, screen, m).take(
            (existing.len() + n) as int,
        ) == arranged(existing, anchors, labels, metrics, gap, screen, n),
    decreases m,
{
    let all = arranged(existing, anchors, labels, metrics, gap, screen, m);
    if m > n {
        let before = arranged(existing, anchors, labels, metrics, gap, screen, (m - 1) as nat);
        law_placed_boxes_never_move(
            existing,
            anchors,
            labels,
            metrics,
            gap,
            screen,
            n,
            (m - 1) as nat,
        );
        assert(all.take((existing.len() + n) as int) == before.take((existing.len() + n) as int));
    } else if m > 0 {
        law_placed_boxes_never_move(
            existing,
            anchors,
            labels,
            metrics,
            gap,
            screen,
            (n - 1) as nat,
            (m - 1) as nat,
        );
        assert(all.take((existing.len() + n) as int) == all);
    } else {
        assert(all.take((existing.len() + n) as int) == all);
    }
}

/// The two ends of a drag lie outside the text box, left and right of it, at the
/// same height: the whole phrase is selected.
pub proof fn law_a_drag_spans_the_whole_phrase(rect: Rect)
    requires
        has_drag_points(rect),
    ensures
        drag_from_anchor(rect).target.x < rect.x,
        rect.end_x() < drag_to_anchor(rect).target.x,
        drag_from_anchor(rect).target.y == drag_to_anchor(rect).target.y,
{
}

/// The jump target of a box of positive size lies inside the box.
pub proof fn law_the_jump_target_lies_in_the_box(rect: Rect)
    requires
        rect.width > 0,
        rect.height > 0,
        has_text_start(rect),
    ensures
        rect.covers(jump_anchor(rect).target.x as int, jump_anchor(rect).target.y as int),
{
}

/// A label box grows by one advance for each character, from its padding on, and
/// every box is one line and its padding high; none is smaller than 8 pixels.
pub proof fn law_boxes_are_as_large_as_their_labels(m: Metrics, n: nat)
    ensures
        m.box_width(0) == 8,
        m.advance >= 0 ==> m.box_width(n + 1) - m.box_width(n) == m.advance,
        m.advance < 0 ==> m.box_width(n) == 8,
        m.line >= 4 ==> m.box_height() == m.line + 4,
        m.line < 4 ==> m.box_height() == 8,
{
    let a = m.advance as int;
    assert(0 * a == 0) by (nonlinear_arith);
    assert((n + 1) * a == n * a + a) by (nonlinear_arith);
    assert(a >= 0 ==> n * a >= 0) by (nonlinear_arith)
        requires
            n >= 0,
    ;
    assert(a < 0 ==> n * a <= 0) by (nonlinear_arith)
        requires
            n >= 0,
    ;
}

/// Each hint belongs to its element: it carries the element's label and number, and
/// leads to the start of its text, on the middle row, half a line height in but no
/// further than the middle of the box.
pub proof fn law_each_hint_leads_to_its_element(
    new: Seq<HintBox>,
    existing: Seq<HintBox>,
    elements: Seq<Element>,
    labels: Seq<String>,
    metrics: Metrics,
    gap: int,
    screen: Rect,
    i: int,
)
    requires
        laid_out(new, existing, jump_anchors(elements), labels, metrics, gap, screen),
        0 <= i < elements.len(),
        has_text_start(elements[i].rect),
        elements[i].rect.width >= 0,
        elements[i].rect.height >= 0,
    ensures
        new.len() == elements.len(),
        new[i].label@ == labels[i]@,
        new[i].index == existing.len() + i,
        ({
            let r = elements[i].rect;
            let dx = new[i].target.x - r.x;
            let dy = new[i].target.y - r.y;
            &&& 0 <= 2 * dx <= r.height && 2 * dx <= r.width
            &&& 2 * dx + 1 >= r.height || 2 * dx + 1 >= r.width
            &&& 2 * dy <= r.height <= 2 * dy + 1
        }),
{
}

/// A phrase to drag over has two hints, its start and its end: the first leads just
/// left of the text and the second just right of it, both on the middle row and as
/// far off as half a line, but at least 3 and at most 14 pixels.
pub proof fn law_each_phrase_has_a_start_and_an_end(
    new: Seq<HintBox>,
    existing: Seq<HintBox>,
    elements: Seq<Element>,
    labels: Seq<String>,
    metrics: Metrics,
    gap: int,
    screen: Rect,
    i: int,
)
    requires
        laid_out(new, existing, drag_anchors(elements), labels, metrics, gap, screen),
        0 <= i < elements.len(),
        has_drag_points(elements[i].rect),
        elements[i].rect.height >= 0,
    ensures
        new.len() == 2 * elements.len(),
        new[2 * i].label@ == labels[2 * i]@,
        new[2 * i + 1].label@ == labels[2 * i + 1]@,
        ({
            let r = elements[i].rect;
            let off = r.x - new[2 * i].target.x;
            let dy = new[2 * i].target.y - r.y;
            &&& new[2 * i + 1].target.x - (r.x + r.width) == off
            &&& new[2 * i + 1].target.y == new[2 * i].target.y
            &&& 3 <= off <= 14
            &&& 6 <= r.height <= 29 ==> 2 * off <= r.height <= 2 * off + 1
            &&& r.height < 6 ==> off == 3
            &&& r.height > 29 ==> off == 14
            &&& 2 * dy <= r.height <= 2 * dy + 1
        }),
{
    let a = drag_anchors(elements);
    assert(a[2 * i] == drag_from_anchor(elements[i].rect));
    assert(a[2 * i + 1] == drag_to_anchor(elements[i].rect));
    assert(new[2 * i].target == a[2 * i].target);
    assert(new[2 * i + 1].target == a[2 * i + 1].target);
}

/// Box `b` would keep its distance from all of `boxes`.
pub open spec fn keeps_distance(b: Rect, boxes: Seq<Rect>, gap: int) -> bool {
    forall|j: int| 0 <= j < boxes.len() ==> !(#[trigger] boxes[j]).near(b, gap)
}

/// A box of `w`×`h` pixels at `(x, y)` lies on the screen as a whole.
pub open spec fn wholly_on(screen: Rect, x: int, y: int, w: int, h: int) -> bool {
    &&& screen.x <= x && x + w <= screen.x + screen.width
    &&& screen.y <= y && y + h <= screen.y + screen.height
    &&& fits_i32(x) && fits_i32(y)
}

/// One of the places that are tried for a box, in whole boxes and gaps off its
/// anchor: there, up to two below or right of it, one above or left, and the
/// corners of these but the upper left.
pub open spec fn tried(dx: int, dy: int) -> bool {
    ||| (dx == 0 && -1 <= dy <= 2)
    ||| (dy == 0 && -1 <= dx <= 2)
    ||| (dx == 1 && (dy == 1 || dy == -1))
    ||| (dx == -1 && dy == 1)
}

/// Every box is laid out around all the boxes before it, those that were there and
/// those that came first: it sits on its anchor if that is free; it comes too close
/// to another one, or leaves the screen, only if every place that is tried for it
/// would.
pub proof fn law_boxes_avoid_the_boxes_before_them(
    new: Seq<HintBox>,
    existing: Seq<HintBox>,
    anchors: Seq<Anchor>,
    labels: Seq<String>,
    metrics: Metrics,
    gap: int,
    screen: Rect,
    i: int,
)
    requires
        laid_out(new, existing, anchors, labels, metrics, gap, screen),
        0 <= i < new.len(),
        metrics.fits(labels),
        labels.len() == anchors.len(),
    ensures
        ({
            let w = metrics.box_width(labels[i]@.len());
            let h = metrics.box_height();
            let taken = rects(existing) + rects(new.take(i));
            let base = anchors[i].anchor;
            let r = new[i].rect;
            let here = Rect { x: base.x, y: base.y, width: w as i32, height: h as i32 };
            let fits = r.width == w && r.height == h && wholly_on(
                screen,
                r.x as int,
                r.y as int,
                w,
                h,
            ) && keeps_distance(r, taken, gap);
            &&& wholly_on(screen, base.x as int, base.y as int, w, h) && keeps_distance(
                here,
                taken,
                gap,
            ) ==> r == here
            &&& !fits ==> forall|dx: int, dy: int| #[trigger]
                tried(dx, dy) ==> {
                    let x = base.x + dx * (w + gap);
                    let y = base.y + dy * (h + gap);
                    !wholly_on(screen, x, y, w, h) || !keeps_distance(
                        Rect { x: x as i32, y: y as i32, width: w as i32, height: h as i32 },
                        taken,
                        gap,
                    )
                }
        }),
{
    let n = anchors.len();
    let old = rects(existing);
    let w = metrics.box_width(labels[i]@.len());
    let h = metrics.box_height();
    let base = anchors[i].anchor;
    let all = arranged(old, anchors, labels, metrics, gap, screen, n);
    let before = arranged(old, anchors, labels, metrics, gap, screen, i as nat);
    let after = arranged(old, anchors, labels, metrics, gap, screen, (i + 1) as nat);
    law_placed_boxes_never_move(old, anchors, labels, metrics, gap, screen, (i + 1) as nat, n);
    law_placed_boxes_never_move(old, anchors, labels, metrics, gap, screen, i as nat, n);
    law_placed_boxes_never_move(old, anchors, labels, metrics, gap, screen, 0, n);
    let taken = old + rects(new.take(i));
    assert(before =~= taken) by {
        assert(before == all.take((old.len() + i) as int));
        assert(all.take(old.len() as int) == old);
        assert forall|j: int| 0 <= j < before.len() implies before[j] == taken[j] by {
            if j < old.len() {
                assert(all.take(old.len() as int)[j] == all[j]);
            } else {
                assert(new[j - old.len()].rect == all[j]);
                assert(rects(new.take(i))[j - old.len()] == new[j - old.len()].rect);
            }
        }
    }
    let site = Site { w, h, gap, screen, taken: before };
    assert(after == before.push(site.pick(base)));
    assert(all.take((old.len() + i + 1) as int) == after);
    let r = new[i].rect;
    assert(r == site.pick(base)) by {
        assert(all.take((old.len() + i + 1) as int)[old.len() + i] == all[old.len() + i]);
    }
    assert forall|k: int| 0 <= k < offsets().len() implies {
        let (dx, dy) = #[trigger] offsets()[k];
        site.free(base, k) <==> wholly_on(
            screen,
            base.x + dx * (w + gap),
            base.y + dy * (h + gap),
            w,
            h,
        ) && keeps_distance(site.slot(base, k), taken, gap)
    } by {
        let (dx, dy) = offsets()[k];
        let slot = site.slot(base, k);
        assert(site.taken == taken);
        assert(site.clear(slot) == keeps_distance(slot, taken, gap)) by {
            if keeps_distance(slot, taken, gap) {
                assert forall|j: int| 0 <= j < site.taken.len() implies !(
                #[trigger] site.taken[j]).near(slot, site.gap) by {
                    assert(!taken[j].near(slot, gap));
                }
            }
            if site.clear(slot) {
                assert forall|j: int| 0 <= j < taken.len() implies !(#[trigger] taken[j]).near(
                    slot,
                    gap,
                ) by {
                    assert(!site.taken[j].near(slot, site.gap));
                }
            }
        }
        assert(site.slot_x(base, k) == base.x + dx * (w + gap));
        assert(site.slot_y(base, k) == base.y + dy * (h + gap));
        assert(site.on_screen(base, k) == wholly_on(
            screen,
            base.x + dx * (w + gap),
            base.y + dy * (h + gap),
            w,
            h,
        ));
    }
    lemma_pick(site, base, 0);
    assert(0 * (w + gap) == 0 && 0 * (h + gap) == 0) by (nonlinear_arith);
    assert(offsets()[0] == (0int, 0int));
    if site.free(base, 0) {
        law_a_free_anchor_is_used(site, base);
    }
    if exists|k: int| 0 <= k < offsets().len() && #[trigger] site.free(base, k) {
        let k = choose|k: int| 0 <= k < offsets().len() && #[trigger] site.free(base, k);
        assert(exists|j: int|
            0 <= j < offsets().len() && #[trigger] site.free(base, j) && r == site.slot(base, j));
        let j = choose|j: int|
            0 <= j < offsets().len() && #[trigger] site.free(base, j) && r == site.slot(base, j);
        assert(offsets()[j] == offsets()[j]);
    }
    assert forall|dx: int, dy: int| #[trigger] tried(dx, dy) implies exists|k: int|
        0 <= k < offsets().len() && #[trigger] offsets()[k] == (dx, dy) by {
        assert(offsets()[0] == (0int, 0int));
        assert(offsets()[1] == (0int, 1int));
        assert(offsets()[2] == (1int, 0int));
        assert(offsets()[3] == (1int, 1int));
        assert(offsets()[4] == (0int, -1int));
        assert(offsets()[5] == (-1int, 0int));
        assert(offsets()[6] == (0int, 2int));
        assert(offsets()[7] == (2int, 0int));
        assert(offsets()[8] == (1int, -1int));
        assert(offsets()[9] == (-1int, 1int));
    }
}

/// The boxes that keep others away are those that are drawn.
pub proof fn law_boxes_are_where_they_are_drawn(boxes: Seq<HintBox>, i: int)
    requires
        0 <= i < boxes.len(),
    ensures
        rects(boxes).len() == boxes.len(),
        rects(boxes)[i] == boxes[i].rect,
{
}

/// The places around an anchor are tried in a fixed order, below first since lists
/// grow downward, and the first free one is taken: a box sits in a place only if none
/// that comes before it is free.
pub proof fn law_the_first_free_place_is_taken(site: Site, base: Point, k: int)
    requires
        0 <= k < 10,
        site.free(base, k),
        forall|j: int| 0 <= j < k ==> !#[trigger] site.free(base, j),
    ensures
        offsets().len() == 10,
        offsets()[0] == (0int, 0int) && offsets()[1] == (0int, 1int) && offsets()[2] == (1int, 0int),
        offsets()[3] == (1int, 1int) && offsets()[4] == (0int, -1int) && offsets()[5] == (
            -1int,
            0int,
        ),
        offsets()[6] == (0int, 2int) && offsets()[7] == (2int, 0int) && offsets()[8] == (1int, -1int),
        offsets()[9] == (-1int, 1int),
        ({
            let (dx, dy) = offsets()[k];
            let r = site.pick(base);
            &&& r.x == base.x + dx * (site.w + site.gap)
            &&& r.y == base.y + dy * (site.h + site.gap)
        }),
{
    lemma_pick(site, base, 0);
    let r = site.pick(base);
    assert(exists|j: int|
        0 <= j < offsets().len() && #[trigger] site.free(base, j) && r == site.slot(base, j)
            && forall|i: int| 0 <= i < j ==> !#[trigger] site.free(base, i));
    let j = choose|j: int|
        0 <= j < offsets().len() && #[trigger] site.free(base, j) && r == site.slot(base, j)
            && forall|i: int| 0 <= i < j ==> !#[trigger] site.free(base, i);
    assert(j == k) by {
        if j < k {
            assert(!site.free(base, j));
        }
        if k < j {
            assert(!site.free(base, k));
        }
    }
}

/// A box for which no place is free sits on its anchor all the same, cut to the
/// screen; or in the screen's corner, if nothing of it would be seen there.
pub proof fn law_a_box_without_room_sits_on_its_anchor(site: Site, base: Point)
    requires
        forall|k: int| 0 <= k < 10 ==> !#[trigger] site.free(base, k),
        0 < site.w <= i32::MAX,
        0 < site.h <= i32::MAX,
    ensures
        ({
            let here = Rect { x: base.x, y: base.y, width: site.w as i32, height: site.h as i32 };
            let r = site.pick(base);
            &&& here.cut(site.screen) matches Some(part) ==> r == part
            &&& here.cut(site.screen) is None ==> r.x == site.screen.x && r.y == site.screen.y
                && r.width == site.w && r.height == site.h
        }),
{
    lemma_pick(site, base, 0);
}

} // verus!
