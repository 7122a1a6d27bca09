//! Synthetic pointer control.
//!
//! A pointer action is a list of steps: moves, button presses and releases, and
//! the pauses that apps need to tell them apart. Whoever drives the display
//! performs them in order.

use vstd::prelude::*;

use crate::geometry::{fits_i32, greater, half, lesser, Point, Rect};

verus! {

/// A mouse button, numbered as X expects.
#[derive(Debug, Clone, Copy, PartialEq, Eq, Structural)]
pub enum Button {
    Left,
    Middle,
    Right,
}

/// One step of a pointer action.
#[derive(Debug, Clone, Copy, PartialEq, Eq, Structural)]
pub enum PointerStep {
    /// Teleport the pointer to an absolute screen position.
    MoveTo(Point),
    Press(Button),
    Release(Button),
    /// Wait this many milliseconds.
    Pause(u32),
}

impl Button {
    pub open spec fn number(self) -> u8 {
        match self {
            Button::Left => 1,
            Button::Middle => 2,
            Button::Right => 3,
        }
    }

    pub fn code(self) -> (c: u8)
        ensures
            c == self.number(),
    {
        match self {
            Button::Left => 1,
            Button::Middle => 2,
            Button::Right => 3,
        }
    }
}

/// `v` moved into `[lo, hi]`.
pub open spec fn clamped(v: int, lo: int, hi: int) -> int {
    greater(lo, lesser(v, hi))
}

/// The point of `bounds` closest to `(x, y)`.
pub open spec fn nearest(x: int, y: int, bounds: Rect) -> Point {
    Point {
        x: clamped(x, bounds.x as int, bounds.end_x() - 1) as i32,
        y: clamped(y, bounds.y as int, bounds.end_y() - 1) as i32,
    }
}

/// One click.
pub open spec fn one_click(button: Button) -> Seq<PointerStep> {
    seq![PointerStep::Press(button), PointerStep::Release(button), PointerStep::Pause(20)]
}

/// `n` clicks.
pub open spec fn clicks(button: Button, n: nat) -> Seq<PointerStep>
    decreases n,
{
    if n == 0 {
        Seq::empty()
    } else {
        clicks(button, (n - 1) as nat) + one_click(button)
    }
}

/// The point halfway between two points, rounded towards zero.
pub open spec fn midpoint(a: Point, b: Point) -> Point {
    Point { x: half(a.x + b.x) as i32, y: half(a.y + b.y) as i32 }
}

/// The steps of a drag: press at `from`, move to `to`, release.
pub open spec fn drag_steps(from: Point, to: Point, button: Button) -> Seq<PointerStep> {
    seq![
        PointerStep::MoveTo(from),
        PointerStep::Pause(30),
        PointerStep::Press(button),
        PointerStep::Pause(30),
        PointerStep::MoveTo(midpoint(from, to)),
        PointerStep::Pause(20),
        PointerStep::MoveTo(to),
        PointerStep::Pause(30),
        PointerStep::Release(button),
    ]
}

/// The position of `bounds` closest to `p`: where the pointer is sent for `p`.
pub fn clamp(p: Point, bounds: Rect) -> (r: Point)
    requires
        bounds.width > 0,
        bounds.height > 0,
        fits_i32(bounds.end_x()),
        fits_i32(bounds.end_y()),
    ensures
        r == nearest(p.x as int, p.y as int, bounds),
        bounds.covers(r.x as int, r.y as int),
{
    clamp_wide(p.x as i64, p.y as i64, bounds)
}

/// Where a relative move by `(dx, dy)` from `from` ends.
pub fn move_relative(from: Point, dx: i32, dy: i32, bounds: Rect) -> (r: Point)
    requires
        bounds.width > 0,
        bounds.height > 0,
        fits_i32(bounds.end_x()),
        fits_i32(bounds.end_y()),
    ensures
        r == nearest(from.x + dx, from.y + dy, bounds),
        bounds.covers(r.x as int, r.y as int),
{
    clamp_wide(from.x as i64 + dx as i64, from.y as i64 + dy as i64, bounds)
}

fn clamp_wide(x: i64, y: i64, bounds: Rect) -> (r: Point)
    requires
        bounds.width > 0,
        bounds.height > 0,
        fits_i32(bounds.end_x()),
        fits_i32(bounds.end_y()),
        -0x1_0000_0000 <= x <= 0x1_0000_0000,
        -0x1_0000_0000 <= y <= 0x1_0000_0000,
    ensures
        r == nearest(x as int, y as int, bounds),
        bounds.covers(r.x as int, r.y as int),
{
    let right = bounds.right_wide() - 1;
    let bottom = bounds.bottom_wide() - 1;
    let cx = if x > right {
        right
    } else {
        x
    };
    let cy = if y > bottom {
        bottom
    } else {
        y
    };
    Point::new(
        (if cx < bounds.x as i64 {
            bounds.x as i64
        } else {
            cx
        }) as i32,
        (if cy < bounds.y as i64 {
            bounds.y as i64
        } else {
            cy
        }) as i32,
    )
}

/// Press and release `button` `count` times in place (`count = 2` is a
/// double-click), with a short gap so consecutive clicks register as distinct
/// events. A count of 0 still clicks once.
pub fn click(button: Button, count: u32) -> (steps: Vec<PointerStep>)
    ensures
        steps@ == clicks(button, greater(count as int, 1) as nat),
{
    let n = if count > 0 {
        count
    } else {
        1
    };
    let mut steps: Vec<PointerStep> = Vec::new();
    let mut i: u32 = 0;
    while i < n
        invariant
            i <= n,
            steps@ == clicks(button, i as nat),
        decreases n - i,
    {
        let ghost before = steps@;
        steps.push(PointerStep::Press(button));
        steps.push(PointerStep::Release(button));
        steps.push(PointerStep::Pause(20));
        assert(steps@ == before + one_click(button));
        i += 1;
    }
    steps
}

/// Press at `from`, move to `to`, release: a click-drag selection. The move is
/// made in a couple of steps; some apps only start a selection once they see
/// motion after the press.
pub fn drag(from: Point, to: Point, button: Button) -> (steps: Vec<PointerStep>)
    ensures
        steps@ == drag_steps(from, to, button),
{
    let mid = Point::new(
        ((from.x as i64 + to.x as i64) / 2) as i32,
        ((from.y as i64 + to.y as i64) / 2) as i32,
    );
    let mut steps: Vec<PointerStep> = Vec::new();
    steps.push(PointerStep::MoveTo(from));
    steps.push(PointerStep::Pause(30));
    steps.push(PointerStep::Press(button));
    steps.push(PointerStep::Pause(30));
    steps.push(PointerStep::MoveTo(mid));
    steps.push(PointerStep::Pause(20));
    steps.push(PointerStep::MoveTo(to));
    steps.push(PointerStep::Pause(30));
    steps.push(PointerStep::Release(button));
    assert(steps@ == drag_steps(from, to, button));
    steps
}

// --- Laws -----------------------------------------------------------------

/// How many steps of `s` press, less how many release, `button`.
pub open spec fn pressed(s: Seq<PointerStep>, button: Button) -> int
    decreases s.len(),
{
    if s.len() == 0 {
        0
    } else {
        pressed(s.drop_last(), button) + if s.last() == PointerStep::Press(button) {
            1int
        } else if s.last() == PointerStep::Release(button) {
            -1int
        } else {
            0int
        }
    }
}

/// A click never leaves a button down.
pub proof fn law_a_click_leaves_no_button_down(button: Button, other: Button, n: nat)
    ensures
        pressed(clicks(button, n), other) == 0,
        clicks(button, n).len() == 3 * n,
    decreases n,
{
    if n > 0 {
        law_a_click_leaves_no_button_down(button, other, (n - 1) as nat);
        let before = clicks(button, (n - 1) as nat);
        let s1 = before.push(PointerStep::Press(button));
        let s2 = s1.push(PointerStep::Release(button));
        let s3 = s2.push(PointerStep::Pause(20));
        assert(clicks(button, n) == s3);
        assert(s3.drop_last() == s2 && s2.drop_last() == s1 && s1.drop_last() == before);
        assert(pressed(s2, other) == pressed(before, other)) by {
            assert(pressed(s1, other) == pressed(before, other) + if button == other {
                1int
            } else {
                0int
            });
        }
    }
}

/// A drag never leaves a button down.
pub proof fn law_a_drag_leaves_no_button_down(from: Point, to: Point, button: Button, other: Button)
    ensures
        pressed(drag_steps(from, to, button), other) == 0,
{
    reveal_with_fuel(pressed, 11);
    let s = drag_steps(from, to, button);
    assert(s.drop_last().last() == PointerStep::Pause(30));
    assert(s.drop_last().drop_last().last() == PointerStep::MoveTo(to));
    assert(s.drop_last().drop_last().drop_last().last() == PointerStep::Pause(20));
    assert(s.take(5).last() == PointerStep::MoveTo(midpoint(from, to)));
    assert(s.take(4).last() == PointerStep::Pause(30));
    assert(s.take(3).last() == PointerStep::Press(button));
    assert(s.take(2).last() == PointerStep::Pause(30));
    assert(s.take(1).last() == PointerStep::MoveTo(from));
    assert(s.drop_last() == s.take(8) && s.take(8).drop_last() == s.take(7)
        && s.take(7).drop_last() == s.take(6) && s.take(6).drop_last() == s.take(5));
    assert(s.take(5).drop_last() == s.take(4) && s.take(4).drop_last() == s.take(3)
        && s.take(3).drop_last() == s.take(2) && s.take(2).drop_last() == s.take(1)
        && s.take(1).drop_last() == s.take(0));
}

/// A position on the screen is where the pointer is sent for it, and any other
/// position is pulled onto the screen.
pub proof fn law_the_pointer_stays_on_screen(x: int, y: int, bounds: Rect)
    requires
        bounds.width > 0,
        bounds.height > 0,
        bounds.end_x() <= i32::MAX,
        bounds.end_y() <= i32::MAX,
    ensures
        bounds.covers(nearest(x, y, bounds).x as int, nearest(x, y, bounds).y as int),
        bounds.covers(x, y) ==> nearest(x, y, bounds).x == x && nearest(x, y, bounds).y == y,
{
}

/// How many steps of `s` press `button`.
pub open spec fn presses(s: Seq<PointerStep>, button: Button) -> int
    decreases s.len(),
{
    if s.len() == 0 {
        0
    } else {
        presses(s.drop_last(), button) + if s.last() == PointerStep::Press(button) {
            1int
        } else {
            0int
        }
    }
}

/// Where the pointer is after the steps of `s`, starting from `from`.
pub open spec fn pointer_after(s: Seq<PointerStep>, from: Point) -> Point
    decreases s.len(),
{
    if s.len() == 0 {
        from
    } else {
        match s.last() {
            PointerStep::MoveTo(p) => p,
            _ => pointer_after(s.drop_last(), from),
        }
    }
}

/// A click that is asked for `n` times happens `n` times: click `k` is a press of
/// the button, directly followed by its release and a pause, and nothing else
/// happens; in particular nothing moves and no other button is touched.
pub proof fn law_every_click_is_a_press_and_a_release(button: Button, n: nat)
    ensures
        clicks(button, n).len() == 3 * n,
        forall|k: int| 0 <= k < n ==> #[trigger] clicks(button, n)[3 * k] == PointerStep::Press(button),
        forall|k: int|
            0 <= k < n ==> #[trigger] clicks(button, n)[3 * k + 1] == PointerStep::Release(button),
        forall|k: int| 0 <= k < n ==> #[trigger] clicks(button, n)[3 * k + 2] == PointerStep::Pause(20),
        presses(clicks(button, n), button) == n,
        forall|other: Button|
            other != button ==> #[trigger] presses(clicks(button, n), other) == 0,
    decreases n,
{
    if n > 0 {
        let before = clicks(button, (n - 1) as nat);
        let all = clicks(button, n);
        law_every_click_is_a_press_and_a_release(button, (n - 1) as nat);
        let s1 = before.push(PointerStep::Press(button));
        let s2 = s1.push(PointerStep::Release(button));
        let s3 = s2.push(PointerStep::Pause(20));
        assert(all == s3);
        assert(s3.drop_last() == s2 && s2.drop_last() == s1 && s1.drop_last() == before);
        assert(presses(s1, button) == n);
        assert(presses(s2, button) == n);
        assert forall|other: Button| other != button implies #[trigger] presses(all, other) == 0 by {
            assert(presses(before, other) == 0);
            assert(presses(s1, other) == 0);
            assert(presses(s2, other) == 0);
        }
        assert forall|k: int| 0 <= k < n implies #[trigger] all[3 * k] == PointerStep::Press(button) by {
            if k < n - 1 {
                assert(all[3 * k] == before[3 * k]);
            }
        }
        assert forall|k: int| 0 <= k < n implies #[trigger] all[3 * k + 1] == PointerStep::Release(
            button,
        ) by {
            if k < n - 1 {
                assert(all[3 * k + 1] == before[3 * k + 1]);
            }
        }
        assert forall|k: int| 0 <= k < n implies #[trigger] all[3 * k + 2] == PointerStep::Pause(20) by {
            if k < n - 1 {
                assert(all[3 * k + 2] == before[3 * k + 2]);
            }
        }
    }
}

/// A drag presses its button once, and no other: where it starts, after the pointer
/// was moved there; and releases it at the very end, where it goes.
pub proof fn law_a_drag_goes_from_its_start_to_its_end(
    from: Point,
    to: Point,
    button: Button,
    at: Point,
)
    ensures
        ({
            let s = drag_steps(from, to, button);
            &&& presses(s, button) == 1
            &&& forall|other: Button| other != button ==> #[trigger] presses(s, other) == 0
            &&& s.last() == PointerStep::Release(button)
            &&& pointer_after(s, at) == to
            &&& exists|k: int|
                0 <= k < s.len() - 1 && #[trigger] s[k] == PointerStep::Press(button)
                    && pointer_after(s.take(k), at) == from
        }),
{
    let s = drag_steps(from, to, button);
    let t = seq![PointerStep::MoveTo(from), PointerStep::Pause(30)];
    assert(s.take(2) == t);
    assert(t.drop_last() == seq![PointerStep::MoveTo(from)]);
    assert(pointer_after(t.drop_last(), at) == from);
    assert(pointer_after(t, at) == from);
    assert(s[2] == PointerStep::Press(button));
    let d1 = s.drop_last();
    let d2 = d1.drop_last();
    let d3 = d2.drop_last();
    let d4 = d3.drop_last();
    let d5 = d4.drop_last();
    let d6 = d5.drop_last();
    let d7 = d6.drop_last();
    assert(d7 == t);
    let d8 = d7.drop_last();
    let d9 = d8.drop_last();
    assert(d9.len() == 0);
    assert(pointer_after(d2, at) == to);
    assert(pointer_after(d1, at) == to);
    assert forall|b: Button| #[trigger] presses(s, b) == if b == button {
        1int
    } else {
        0int
    } by {
        assert(presses(d9, b) == 0);
        assert(presses(d8, b) == 0);
        assert(presses(d7, b) == 0);
        assert(presses(d6, b) == if b == button {
            1int
        } else {
            0int
        });
        assert(presses(d5, b) == presses(d6, b));
        assert(presses(d4, b) == presses(d5, b));
        assert(presses(d3, b) == presses(d4, b));
        assert(presses(d2, b) == presses(d3, b));
        assert(presses(d1, b) == presses(d2, b));
    }
}

/// On its way a drag passes halfway between its ends, so that apps see motion.
pub proof fn law_a_drag_moves_by_the_middle(from: Point, to: Point, button: Button)
    ensures
        ({
            let mid = midpoint(from, to);
            &&& drag_steps(from, to, button).contains(PointerStep::MoveTo(mid))
            &&& -1 <= (mid.x - from.x) - (to.x - mid.x) <= 1
            &&& -1 <= (mid.y - from.y) - (to.y - mid.y) <= 1
        }),
{
    let s = drag_steps(from, to, button);
    assert(s[4] == PointerStep::MoveTo(midpoint(from, to)));
}

/// A position beyond an edge is pulled to that edge, on each axis by itself.
pub proof fn law_positions_are_pulled_to_the_nearest_edge(x: int, y: int, bounds: Rect)
    requires
        bounds.width > 0,
        bounds.height > 0,
        bounds.x + bounds.width <= i32::MAX,
        bounds.y + bounds.height <= i32::MAX,
    ensures
        x < bounds.x ==> nearest(x, y, bounds).x == bounds.x,
        x >= bounds.x + bounds.width ==> nearest(x, y, bounds).x == bounds.x + bounds.width - 1,
        bounds.x <= x < bounds.x + bounds.width ==> nearest(x, y, bounds).x == x,
        y < bounds.y ==> nearest(x, y, bounds).y == bounds.y,
        y >= bounds.y + bounds.height ==> nearest(x, y, bounds).y == bounds.y + bounds.height - 1,
        bounds.y <= y < bounds.y + bounds.height ==> nearest(x, y, bounds).y == y,
{
}

/// Buttons are numbered from the left, from 1 on.
pub proof fn law_buttons_are_numbered_from_the_left(b: Button)
    ensures
        1 <= b.number() <= 3,
        b is Left <==> b.number() == 1,
        b is Right <==> b.number() == 3,
{
}

} // verus!
