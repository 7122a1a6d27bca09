//! Small, dependency-free geometry primitives shared across modules.
//!
//! Detection, the hint layout pass and the renderer all speak in terms of
//! [`Rect`] and [`Point`], so they live here in one place. Contracts are stated
//! over mathematical integers: a predicate such as [`Rect::intersects`] is exact
//! even where an edge of the rectangle would not fit in an `i32`.

use vstd::prelude::*;

verus! {

/// `v` is representable as an `i32`.
pub open spec fn fits_i32(v: int) -> bool {
    i32::MIN <= v <= i32::MAX
}

/// The smaller of two integers.
pub open spec fn lesser(a: int, b: int) -> int {
    if a <= b {
        a
    } else {
        b
    }
}

/// The larger of two integers.
pub open spec fn greater(a: int, b: int) -> int {
    if a >= b {
        a
    } else {
        b
    }
}

/// `a / b` rounded towards zero, for a positive divisor.
pub open spec fn quotient(a: int, b: int) -> int {
    if a >= 0 {
        a / b
    } else {
        -((-a) / b)
    }
}

/// Half of `v`, rounded towards zero.
pub open spec fn half(v: int) -> int {
    quotient(v, 2)
}

/// The smaller of two `i32`s.
pub fn min_i32(a: i32, b: i32) -> (r: i32)
    ensures
        r == lesser(a as int, b as int),
{
    if a <= b {
        a
    } else {
        b
    }
}

/// The larger of two `i32`s.
pub fn max_i32(a: i32, b: i32) -> (r: i32)
    ensures
        r == greater(a as int, b as int),
{
    if a >= b {
        a
    } else {
        b
    }
}

/// An integer point in screen coordinates (origin top-left).
#[derive(Debug, Clone, Copy, PartialEq, Eq, Structural)]
pub struct Point {
    pub x: i32,
    pub y: i32,
}

impl Point {
    pub fn new(x: i32, y: i32) -> (p: Self)
        ensures
            p.x == x,
            p.y == y,
    {
        Point { x, y }
    }
}

/// An axis-aligned rectangle in screen coordinates.
///
/// Width and height are kept non-negative by construction helpers; callers that
/// build a `Rect` directly are trusted to respect that.
#[derive(Debug, Clone, Copy, PartialEq, Eq, Structural)]
pub struct Rect {
    pub x: i32,
    pub y: i32,
    pub width: i32,
    pub height: i32,
}

impl Rect {
    /// The column just past the right edge.
    pub open spec fn end_x(self) -> int {
        self.x + self.width
    }

    /// The row just past the bottom edge.
    pub open spec fn end_y(self) -> int {
        self.y + self.height
    }

    /// The column of the centre, with the half-width rounded towards zero.
    pub open spec fn mid_x(self) -> int {
        self.x + half(self.width as int)
    }

    /// The row of the centre, with the half-height rounded towards zero.
    pub open spec fn mid_y(self) -> int {
        self.y + half(self.height as int)
    }

    /// The centre can be written as a [`Point`].
    pub open spec fn has_center(self) -> bool {
        fits_i32(self.mid_x()) && fits_i32(self.mid_y())
    }

    /// The area, counting a negative side as zero.
    pub open spec fn surface(self) -> int {
        greater(self.width as int, 0) * greater(self.height as int, 0)
    }

    /// Pixel `(x, y)` lies in the rectangle: inclusive of the top-left edge,
    /// exclusive of the bottom-right edge.
    pub open spec fn covers(self, x: int, y: int) -> bool {
        self.x <= x < self.end_x() && self.y <= y < self.end_y()
    }

    /// The two rectangles come closer than `gap` pixels on both axes.
    pub open spec fn near(self, other: Rect, gap: int) -> bool {
        &&& self.x - gap < other.end_x()
        &&& other.x < self.end_x() + gap
        &&& self.y - gap < other.end_y()
        &&& other.y < self.end_y() + gap
    }

    /// The rectangle has no pixels.
    pub open spec fn empty(self) -> bool {
        self.width <= 0 || self.height <= 0
    }

    /// The two rectangles share a pixel. An empty one shares none.
    pub open spec fn overlaps(self, other: Rect) -> bool {
        self.near(other, 0) && !self.empty() && !other.empty()
    }

    /// The part of `self` inside `bounds` is not empty.
    pub open spec fn visible_in(self, bounds: Rect) -> bool {
        &&& greater(self.x as int, bounds.x as int) < lesser(self.end_x(), bounds.end_x())
        &&& greater(self.y as int, bounds.y as int) < lesser(self.end_y(), bounds.end_y())
    }

    /// `part` is exactly the common part of `self` and `bounds`.
    pub open spec fn cut_is(self, bounds: Rect, part: Rect) -> bool {
        &&& part.x == greater(self.x as int, bounds.x as int)
        &&& part.y == greater(self.y as int, bounds.y as int)
        &&& part.end_x() == lesser(self.end_x(), bounds.end_x())
        &&& part.end_y() == lesser(self.end_y(), bounds.end_y())
    }

    /// The common part of `self` and `bounds`, if it is not empty.
    pub open spec fn cut(self, bounds: Rect) -> Option<Rect> {
        if self.visible_in(bounds) {
            let x0 = greater(self.x as int, bounds.x as int);
            let y0 = greater(self.y as int, bounds.y as int);
            Some(
                Rect {
                    x: x0 as i32,
                    y: y0 as i32,
                    width: (lesser(self.end_x(), bounds.end_x()) - x0) as i32,
                    height: (lesser(self.end_y(), bounds.end_y()) - y0) as i32,
                },
            )
        } else {
            None
        }
    }

    /// The bounding box of `self` and `other` can be written as a [`Rect`].
    pub open spec fn has_union(self, other: Rect) -> bool {
        &&& fits_i32(
            greater(self.end_x(), other.end_x()) - lesser(self.x as int, other.x as int),
        )
        &&& fits_i32(
            greater(self.end_y(), other.end_y()) - lesser(self.y as int, other.y as int),
        )
    }

    /// The bounding box of `self` and `other`.
    pub open spec fn hull(self, other: Rect) -> Rect {
        let x0 = lesser(self.x as int, other.x as int);
        let y0 = lesser(self.y as int, other.y as int);
        Rect {
            x: x0 as i32,
            y: y0 as i32,
            width: (greater(self.end_x(), other.end_x()) - x0) as i32,
            height: (greater(self.end_y(), other.end_y()) - y0) as i32,
        }
    }

    pub fn new(x: i32, y: i32, width: i32, height: i32) -> (r: Self)
        ensures
            r.x == x,
            r.y == y,
            r.width == width,
            r.height == height,
    {
        Rect { x, y, width, height }
    }

    /// The point a click should target: the rectangle's centre.
    pub fn center(&self) -> (p: Point)
        requires
            self.has_center(),
        ensures
            p.x == self.mid_x(),
            p.y == self.mid_y(),
    {
        Point::new(self.x + self.width / 2, self.y + self.height / 2)
    }

    pub fn right(&self) -> (r: i32)
        requires
            fits_i32(self.end_x()),
        ensures
            r == self.end_x(),
    {
        self.x + self.width
    }

    pub fn bottom(&self) -> (r: i32)
        requires
            fits_i32(self.end_y()),
        ensures
            r == self.end_y(),
    {
        self.y + self.height
    }

    /// The right edge in a type that always holds it.
    pub(crate) fn right_wide(&self) -> (r: i64)
        ensures
            r == self.end_x(),
    {
        self.x as i64 + self.width as i64
    }

    /// The bottom edge in a type that always holds it.
    pub(crate) fn bottom_wide(&self) -> (r: i64)
        ensures
            r == self.end_y(),
    {
        self.y as i64 + self.height as i64
    }

    pub fn area(&self) -> (a: i64)
        ensures
            a == self.surface(),
            0 <= a <= i32::MAX * i32::MAX,
    {
        let w = max_i32(self.width, 0) as i64;
        let h = max_i32(self.height, 0) as i64;
        assert(0 <= w * h <= i32::MAX * i32::MAX) by (nonlinear_arith)
            requires
                0 <= w <= i32::MAX,
                0 <= h <= i32::MAX,
        ;
        w * h
    }

    /// True when the two rectangles share any interior area. An empty rectangle
    /// has none.
    pub fn intersects(&self, other: &Rect) -> (b: bool)
        ensures
            b == self.overlaps(*other),
    {
        self.width > 0 && self.height > 0 && other.width > 0 && other.height > 0
            && self.intersects_with_gap(other, 0)
    }

    /// Same as [`Rect::intersects`] but treats rectangles within `gap` pixels of
    /// each other as overlapping. Used by the hint anti-overlap pass. It compares
    /// edges alone, so even at a gap of 0 an empty rectangle that lies within
    /// another one counts as overlapping it.
    pub fn intersects_with_gap(&self, other: &Rect, gap: i32) -> (b: bool)
        ensures
            b == self.near(*other, gap as int),
    {
        let g = gap as i64;
        self.x as i64 - g < other.right_wide() && (other.x as i64) < self.right_wide() + g
            && self.y as i64 - g < other.bottom_wide() && (other.y as i64) < self.bottom_wide() + g
    }

    /// True when `p` lies inside the rectangle (inclusive of the top-left edge,
    /// exclusive of the bottom-right edge).
    pub fn contains(&self, p: Point) -> (b: bool)
        ensures
            b == self.covers(p.x as int, p.y as int),
    {
        p.x >= self.x && (p.x as i64) < self.right_wide() && p.y >= self.y && (p.y as i64)
            < self.bottom_wide()
    }

    /// The smallest rectangle that contains both `self` and `other`. Used to
    /// merge the word boxes of a phrase into one hint target.
    pub fn union(&self, other: &Rect) -> (u: Rect)
        requires
            self.has_union(*other),
        ensures
            u == self.hull(*other),
            u.x == lesser(self.x as int, other.x as int),
            u.y == lesser(self.y as int, other.y as int),
            u.end_x() == greater(self.end_x(), other.end_x()),
            u.end_y() == greater(self.end_y(), other.end_y()),
    {
        let x0 = min_i32(self.x, other.x);
        let y0 = min_i32(self.y, other.y);
        let x1 = max_i64(self.right_wide(), other.right_wide());
        let y1 = max_i64(self.bottom_wide(), other.bottom_wide());
        Rect::new(x0, y0, (x1 - x0 as i64) as i32, (y1 - y0 as i64) as i32)
    }

    /// Clamp this rectangle to the bounds of `screen`, returning `None` if the
    /// result would be empty (fully off-screen).
    pub fn clamp_to(&self, screen: Rect) -> (r: Option<Rect>)
        ensures
            r == self.cut(screen),
            r is Some <==> self.visible_in(screen),
            r matches Some(part) ==> self.cut_is(screen, part),
    {
        let x0 = max_i32(self.x, screen.x);
        let y0 = max_i32(self.y, screen.y);
        let x1 = min_i64(self.right_wide(), screen.right_wide());
        let y1 = min_i64(self.bottom_wide(), screen.bottom_wide());
        if x1 > x0 as i64 && y1 > y0 as i64 {
            Some(Rect::new(x0, y0, (x1 - x0 as i64) as i32, (y1 - y0 as i64) as i32))
        } else {
            None
        }
    }
}

fn min_i64(a: i64, b: i64) -> (r: i64)
    ensures
        r == lesser(a as int, b as int),
{
    if a <= b {
        a
    } else {
        b
    }
}

fn max_i64(a: i64, b: i64) -> (r: i64)
    ensures
        r == greater(a as int, b as int),
{
    if a >= b {
        a
    } else {
        b
    }
}

// --- Laws -----------------------------------------------------------------

/// The bounding box does not depend on the order of its two rectangles.
pub proof fn law_union_is_commutative(a: Rect, b: Rect)
    ensures
        a.hull(b) == b.hull(a),
{
}

/// The bounding box of a rectangle with itself is that rectangle.
pub proof fn law_union_is_idempotent(a: Rect)
    ensures
        a.hull(a) == a,
{
}

/// The bounding box covers every pixel of both rectangles, and it is the least
/// rectangle that does: any rectangle around both is around it.
pub proof fn law_union_is_the_least_cover(a: Rect, b: Rect)
    requires
        a.has_union(b),
    ensures
        forall|x: int, y: int| a.covers(x, y) || b.covers(x, y) ==> #[trigger] a.hull(b).covers(x, y),
        forall|c: Rect|
            #![trigger c.end_x()]
            c.x <= a.x && c.x <= b.x && c.y <= a.y && c.y <= b.y && a.end_x() <= c.end_x()
                && b.end_x() <= c.end_x() && a.end_y() <= c.end_y() && b.end_y() <= c.end_y()
                ==> c.x <= a.hull(b).x && c.y <= a.hull(b).y && a.hull(b).end_x() <= c.end_x()
                && a.hull(b).end_y() <= c.end_y(),
{
}

/// Clamping keeps exactly the pixels that lie in both the rectangle and the
/// screen.
pub proof fn law_clamp_keeps_the_common_pixels(a: Rect, screen: Rect, x: int, y: int)
    ensures
        match a.cut(screen) {
            Some(part) => part.covers(x, y) <==> a.covers(x, y) && screen.covers(x, y),
            None => !(a.covers(x, y) && screen.covers(x, y)),
        },
{
}

/// Clamping twice to the same screen changes nothing more.
pub proof fn law_clamp_is_idempotent(a: Rect, screen: Rect)
    ensures
        a.cut(screen) matches Some(part) ==> part.cut(screen) == Some(part),
{
}

/// Whether two rectangles collide, at any gap, does not depend on the side it is
/// asked from.
pub proof fn law_near_is_symmetric(a: Rect, b: Rect, gap: int)
    ensures
        a.near(b, gap) == b.near(a, gap),
{
}

/// Rectangles that come within a gap also come within every larger gap.
pub proof fn law_near_grows_with_the_gap(a: Rect, b: Rect, gap: int, wider: int)
    requires
        a.near(b, gap),
        gap <= wider,
    ensures
        a.near(b, wider),
{
}

/// Two rectangles intersect exactly when some pixel lies in both, which is exactly
/// when clamping one to the other leaves something. On rectangles with pixels it is
/// to come within a gap of 0.
pub proof fn law_intersection_is_a_common_part(a: Rect, b: Rect)
    ensures
        a.overlaps(b) <==> a.cut(b) is Some,
        a.overlaps(b) <==> exists|x: int, y: int| #[trigger] a.covers(x, y) && b.covers(x, y),
        !a.empty() && !b.empty() ==> a.overlaps(b) == a.near(b, 0),
{
    if a.overlaps(b) {
        let x = greater(a.x as int, b.x as int);
        let y = greater(a.y as int, b.y as int);
        assert(a.covers(x, y) && b.covers(x, y));
    }
}

/// A rectangle covers the pixels from its corner on, `width` columns and `height`
/// rows of them, and its far edges lie just behind the last ones.
pub proof fn law_a_rectangle_covers_its_columns_and_rows(r: Rect, dx: int, dy: int)
    ensures
        r.covers(r.x + dx, r.y + dy) <==> 0 <= dx < r.width && 0 <= dy < r.height,
        r.end_x() - r.x == r.width,
        r.end_y() - r.y == r.height,
        r.empty() <==> forall|x: int, y: int| !#[trigger] r.covers(x, y),
{
    if !r.empty() {
        assert(r.covers(r.x as int, r.y as int));
    }
}

/// The centre has as many columns on its left as on its right, give or take one,
/// and as many rows above as below; the odd one lies right and below.
pub proof fn law_the_centre_is_in_the_middle(r: Rect)
    requires
        r.width >= 0,
        r.height >= 0,
    ensures
        0 <= (r.x + r.width - r.mid_x()) - (r.mid_x() - r.x) <= 1,
        0 <= (r.y + r.height - r.mid_y()) - (r.mid_y() - r.y) <= 1,
{
}

/// Rounding towards zero: what is left over has the sign of the number and is less
/// than the divisor.
pub proof fn law_quotients_round_towards_zero(a: int, b: int)
    requires
        b > 0,
    ensures
        a >= 0 ==> 0 <= a - b * quotient(a, b) < b,
        a <= 0 ==> -b < a - b * quotient(a, b) <= 0,
        quotient(-a, b) == -quotient(a, b),
        half(a) == quotient(a, 2),
{
    assert(a >= 0 ==> 0 <= a - b * (a / b) < b) by (nonlinear_arith)
        requires
            b > 0,
    ;
    assert(a < 0 ==> 0 <= -a - b * ((-a) / b) < b) by (nonlinear_arith)
        requires
            b > 0,
    ;
    assert(a < 0 ==> b * (-((-a) / b)) == -(b * ((-a) / b))) by (nonlinear_arith);
    if a == 0 {
        assert(0int / b == 0) by (nonlinear_arith)
            requires
                b > 0,
        ;
    }
}

/// Cutting a rectangle in two, by a column or by a row, splits its area; a single
/// pixel has area 1 and an empty rectangle none.
pub proof fn law_areas_add_up(r: Rect, left: Rect, right: Rect, top: Rect, bottom: Rect)
    requires
        r.width >= 0,
        r.height >= 0,
        left.width >= 0,
        right.width >= 0,
        left.width + right.width == r.width,
        left.height == r.height,
        right.height == r.height,
        top.height >= 0,
        bottom.height >= 0,
        top.height + bottom.height == r.height,
        top.width == r.width,
        bottom.width == r.width,
    ensures
        r.surface() == left.surface() + right.surface(),
        r.surface() == top.surface() + bottom.surface(),
        r.width == 1 && r.height == 1 ==> r.surface() == 1,
        r.empty() ==> r.surface() == 0,
{
    let (a, b) = (left.width as int, right.width as int);
    let (c, d) = (top.height as int, bottom.height as int);
    let (w, h) = (r.width as int, r.height as int);
    assert((a + b) * h == a * h + b * h) by (nonlinear_arith);
    assert(w * (c + d) == w * c + w * d) by (nonlinear_arith);
    assert(w == 0 || h == 0 ==> w * h == 0) by (nonlinear_arith);
}

/// A rectangle with a negative side is as good as empty.
pub proof fn law_negative_sides_have_no_area(r: Rect)
    requires
        r.width < 0 || r.height < 0,
    ensures
        r.surface() == 0,
{
    let (w, h) = (greater(r.width as int, 0), greater(r.height as int, 0));
    assert(w == 0 || h == 0 ==> w * h == 0) by (nonlinear_arith);
}

/// Two rectangles come within `gap` pixels exactly if fewer than `gap` columns and
/// fewer than `gap` rows lie between them; overlap counts as a negative distance.
pub proof fn law_near_is_a_distance(a: Rect, b: Rect, gap: int)
    ensures
        a.near(b, gap) <==> {
            &&& b.x - (a.x + a.width) < gap
            &&& a.x - (b.x + b.width) < gap
            &&& b.y - (a.y + a.height) < gap
            &&& a.y - (b.y + b.height) < gap
        },
{
}

/// The lesser of two numbers is one of them and above neither; the greater is the
/// other one.
pub proof fn law_lesser_and_greater(a: int, b: int)
    ensures
        lesser(a, b) <= a && lesser(a, b) <= b,
        lesser(a, b) == a || lesser(a, b) == b,
        greater(a, b) >= a && greater(a, b) >= b,
        lesser(a, b) + greater(a, b) == a + b,
{
}

/// What is representable is what lies between the least and the greatest `i32`.
pub proof fn law_fitting_an_i32(v: int)
    ensures
        fits_i32(v) <==> v == v as i32,
{
}

} // verus!
