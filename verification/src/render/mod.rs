//! Overlay rendering: which hints are drawn, in which colours, over what.
//!
//! Drawing itself happens on an in-memory ARGB32 surface whose raw bytes are
//! uploaded to the overlay window. This module decides everything about a frame
//! that is not drawing: the opaque desktop backdrop behind the hints, the hints
//! that are still consistent with what was typed, and the colours of each box.

pub mod palette;

use vstd::prelude::*;

use crate::capture::{lemma_cell_bound, Screen};
use crate::config::{Hints, Rgba};
use crate::geometry::{greater, Rect};
use crate::hint::HintBox;
use crate::text::{begins, starts_with};
use palette::{adapted, adaptive_background, contrasting_text, is_light};

verus! {

/// A finished frame: premultiplied ARGB32 pixels plus the row stride.
#[derive(Debug, Clone)]
pub struct Frame {
    pub data: Vec<u8>,
    pub stride: usize,
    pub width: i32,
    pub height: i32,
}

/// The boxes that are drawn while `typed` is typed, by index, from `boxes[..n]`:
/// those whose label starts with it.
pub open spec fn drawn(boxes: Seq<HintBox>, typed: Seq<char>, n: nat) -> Seq<int>
    decreases n,
{
    if n == 0 {
        Seq::empty()
    } else {
        let before = drawn(boxes, typed, (n - 1) as nat);
        if begins(boxes[n - 1].label@, typed) {
            before.push(n - 1)
        } else {
            before
        }
    }
}

/// The hints that are still consistent with `typed`, by index, in order. Boxes
/// whose label does not start with `typed` are skipped, which is the visual side
/// of progressive matching.
pub fn visible_boxes(boxes: &[HintBox], typed: &str) -> (r: Vec<usize>)
    ensures
        r@.map_values(|i: usize| i as int) == drawn(boxes@, typed@, boxes@.len()),
{
    let mut r: Vec<usize> = Vec::new();
    let mut i: usize = 0;
    assert(r@.map_values(|i: usize| i as int) == drawn(boxes@, typed@, 0));
    while i < boxes.len()
        invariant
            i <= boxes@.len(),
            r@.map_values(|i: usize| i as int) == drawn(boxes@, typed@, i as nat),
        decreases boxes@.len() - i,
    {
        if starts_with(boxes[i].label.as_str(), typed) {
            let ghost before = r@;
            r.push(i);
            assert(r@.map_values(|i: usize| i as int) == before.map_values(
                |i: usize| i as int,
            ).push(i as int));
        }
        i += 1;
    }
    r
}

/// `fill` is the fill of a box with `behind` behind it: an in-progress match gets
/// the "matched" colour; otherwise the normal background, nudged for contrast.
pub open spec fn box_fill(style: Hints, typed: Seq<char>, behind: Rgba, fill: Rgba) -> bool {
    if typed.len() > 0 {
        fill == style.matched
    } else {
        adapted(style.background, behind, fill)
    }
}

/// The mean colour of `screen` behind `rect`.
pub open spec fn is_behind(screen: Screen, rect: Rect, c: Rgba) -> bool {
    match rect.cut(screen.area()) {
        Some(part) => c.r() == screen.grid_mean(0, part) && c.g() == screen.grid_mean(1, part)
            && c.b() == screen.grid_mean(2, part),
        None => c.r() == 128 && c.g() == 128 && c.b() == 128,
    }
}

/// The fill and the text colour of a box at `rect` while `typed` is typed.
pub fn box_colors(style: &Hints, rect: Rect, typed: &str, screen: &Screen) -> (r: (Rgba, Rgba))
    ensures
        exists|behind: Rgba| #[trigger]
            is_behind(*screen, rect, behind) && box_fill(*style, typed@, behind, r.0),
        r.1 == if is_light(r.0) {
            style.foreground
        } else {
            style.foreground_dark
        },
{
    let behind = screen.average_color(rect);
    let fill = if !typed.is_empty() {
        style.matched
    } else {
        adaptive_background(style.background, behind)
    };
    let ink = contrasting_text(fill, style.foreground, style.foreground_dark);
    assert(is_behind(*screen, rect, behind) && box_fill(*style, typed@, behind, fill));
    (fill, ink)
}

/// Byte `c` (blue, green, red, alpha) of pixel `(x, y)` of the backdrop: the
/// capture, dimmed, where it reaches; black elsewhere; opaque everywhere.
pub open spec fn backdrop_byte(screen: Screen, dim: Seq<u8>, x: int, y: int, c: int) -> u8 {
    if c == 3 {
        255
    } else if x < screen.cols() && y < screen.rows() {
        dim[screen.channel(x, y, 2 - c) as int]
    } else {
        0
    }
}

/// The bytes of an opaque ARGB32 surface made from the captured screen, to paint
/// behind the hints. `stride` is the number of bytes per row; entry `v` of `dim`
/// is what a channel of value `v` is darkened to so the labels stand out. Any
/// overlay area not covered by the capture is left opaque black.
///
/// Painting the captured screen as an opaque backdrop is what lets the overlay
/// work with no compositor: leaving it transparent only shows the desktop when a
/// compositor is running to blend the alpha.
pub fn screen_backdrop(width: i32, height: i32, stride: usize, screen: &Screen, dim: &[u8]) -> (buf:
    Vec<u8>)
    requires
        dim@.len() == 256,
        4 * greater(width as int, 0) <= stride,
    ensures
        buf@.len() == stride * greater(height as int, 0),
        forall|x: int, y: int, c: int|
            0 <= x < width && 0 <= y < height && 0 <= c < 4 ==> buf@[y * stride + x * 4 + c]
                == #[trigger] backdrop_byte(*screen, dim@, x, y, c),
        forall|y: int, j: int|
            #![trigger buf@[y * stride + j]]
            0 <= y < height && 4 * greater(width as int, 0) <= j < stride ==> buf@[y * stride + j]
                == 0,
{
    let sw: usize = if screen.width() > 0 {
        screen.width() as usize
    } else {
        0
    };
    let sh: usize = if screen.height() > 0 {
        screen.height() as usize
    } else {
        0
    };
    let w: usize = if width > 0 {
        width as usize
    } else {
        0
    };
    let h: usize = if height > 0 {
        height as usize
    } else {
        0
    };
    // A tight, top-to-bottom R,G,B buffer in the screen's own size.
    let rgb = screen.to_rgb();
    let len = rgb.len();
    let mut buf: Vec<u8> = Vec::new();
    let mut y: usize = 0;
    assert(stride * 0 == 0) by (nonlinear_arith);
    while y < h
        invariant
            y <= h,
            h == greater(height as int, 0),
            w == greater(width as int, 0),
            4 * w <= stride,
            dim@.len() == 256,
            sw == screen.cols(),
            sh == screen.rows(),
            len == rgb@.len(),
            rgb@.len() == screen.cols() * screen.rows() * 3,
            forall|x: int, y: int, c: int|
                0 <= x < screen.cols() && 0 <= y < screen.rows() && 0 <= c < 3 ==> rgb@[(y
                    * screen.cols() + x) * 3 + c] == #[trigger] screen.channel(x, y, c),
            buf@.len() == y * stride,
            forall|x: int, v: int, c: int|
                0 <= x < w && 0 <= v < y && 0 <= c < 4 ==> buf@[v * stride + x * 4 + c]
                    == #[trigger] backdrop_byte(*screen, dim@, x, v, c),
            forall|v: int, j: int|
                #![trigger buf@[v * stride + j]]
                0 <= v < y && 4 * w <= j < stride ==> buf@[v * stride + j] == 0,
        decreases h - y,
    {
        let ghost before = buf@;
        let mut x: usize = 0;
        while x < w
            invariant
                x <= w,
                y < h,
                h == greater(height as int, 0),
                w == greater(width as int, 0),
                4 * w <= stride,
                dim@.len() == 256,
                sw == screen.cols(),
                sh == screen.rows(),
                len == rgb@.len(),
                rgb@.len() == screen.cols() * screen.rows() * 3,
                forall|x: int, y: int, c: int|
                    0 <= x < screen.cols() && 0 <= y < screen.rows() && 0 <= c < 3 ==> rgb@[(y
                        * screen.cols() + x) * 3 + c] == #[trigger] screen.channel(x, y, c),
                before.len() == y * stride,
                buf@.len() == y * stride + x * 4,
                buf@.take(before.len() as int) == before,
                forall|p: int, c: int|
                    0 <= p < x && 0 <= c < 4 ==> buf@[y * stride + p * 4 + c]
                        == #[trigger] backdrop_byte(*screen, dim@, p, y as int, c),
            decreases w - x,
        {
            let ghost so_far = buf@;
            if y < sh && x < sw {
                proof {
                    lemma_cell_bound(sw as int, sh as int, x as int, y as int);
                    assert(0 <= y * sw) by (nonlinear_arith);
                    assert(rgb@[(y * sw + x) * 3 + 2] == screen.channel(x as int, y as int, 2));
                    assert(rgb@[(y * sw + x) * 3 + 1] == screen.channel(x as int, y as int, 1));
                    assert(rgb@[(y * sw + x) * 3 + 0] == screen.channel(x as int, y as int, 0));
                }
                let s = (y * sw + x) * 3;
                // ARGB32 is little-endian B,G,R,A; alpha is 255 so the
                // premultiplied and straight forms coincide.
                buf.push(dim[rgb[s + 2] as usize]);  // B
                buf.push(dim[rgb[s + 1] as usize]);  // G
                buf.push(dim[rgb[s] as usize]);  // R
            } else {
                buf.push(0);
                buf.push(0);
                buf.push(0);
            }
            buf.push(255);  // opaque
            proof {
                assert(buf@.take(before.len() as int) == before) by {
                    assert(0 <= y * stride) by (nonlinear_arith);
                    assert(so_far.take(before.len() as int) == before);
                    assert(buf@.take(before.len() as int) == so_far.take(before.len() as int));
                }
                assert forall|p: int, c: int| 0 <= p < x + 1 && 0 <= c < 4 implies buf@[y * stride
                    + p * 4 + c] == #[trigger] backdrop_byte(*screen, dim@, p, y as int, c) by {
                    if p < x {
                        assert(buf@[y * stride + p * 4 + c] == so_far[y * stride + p * 4 + c]);
                    }
                }
            }
            x += 1;
        }
        let ghost painted = buf@;
        let mut j: usize = 4 * w;
        while j < stride
            invariant
                4 * w <= j <= stride,
                before.len() == y * stride,
                painted.len() == y * stride + 4 * w,
                buf@.len() == y * stride + j,
                buf@.take(painted.len() as int) == painted,
                forall|i: int|
                    #![trigger buf@[y * stride + i]]
                    4 * w <= i < j ==> buf@[y * stride + i] == 0,
            decreases stride - j,
        {
            let ghost so_far = buf@;
            buf.push(0);
            proof {
                assert(0 <= y * stride) by (nonlinear_arith);
                assert(buf@.take(painted.len() as int) == so_far.take(painted.len() as int));
                assert forall|i: int|
                    #![trigger buf@[y * stride + i]]
                    4 * w <= i < j + 1 implies buf@[y * stride + i] == 0 by {
                    if i < j {
                        assert(buf@[y * stride + i] == so_far[y * stride + i]);
                    }
                }
            }
            j += 1;
        }
        proof {
            assert((y + 1) * stride == y * stride + stride) by (nonlinear_arith);
            assert(0 <= y * stride) by (nonlinear_arith);
            assert forall|x: int, v: int, c: int|
                0 <= x < w && 0 <= v < y + 1 && 0 <= c < 4 implies buf@[v * stride + x * 4 + c]
                == #[trigger] backdrop_byte(*screen, dim@, x, v, c) by {
                let i = v * stride + x * 4 + c;
                if v < y {
                    lemma_earlier(v, x * 4 + c, y as int, stride as int);
                    assert(painted[i] == painted.take(before.len() as int)[i]);
                    assert(painted[i] == before[i]);
                }
                lemma_earlier(v, x * 4 + c, y + 1, stride as int);
                assert(buf@[i] == buf@.take(painted.len() as int)[i]);
                assert(buf@[i] == painted[i]);
            }
            assert forall|v: int, j: int|
                #![trigger buf@[v * stride + j]]
                0 <= v < y + 1 && 4 * w <= j < stride implies buf@[v * stride + j] == 0 by {
                if v < y {
                    let i = v * stride + j;
                    lemma_earlier(v, j, y as int, stride as int);
                    assert(painted[i] == painted.take(before.len() as int)[i]);
                    assert(painted[i] == before[i]);
                    assert(buf@[i] == buf@.take(painted.len() as int)[i]);
                    assert(before[v * stride + j] == 0);
                }
            }
        }
        y += 1;
    }
    assert(h * stride == stride * h) by (nonlinear_arith);
    buf
}

/// A byte of an earlier row comes before row `y`.
proof fn lemma_earlier(v: int, j: int, y: int, stride: int)
    requires
        0 <= v < y,
        0 <= j < stride,
    ensures
        0 <= v * stride + j < y * stride,
{
    assert(0 <= v * stride + j < y * stride) by (nonlinear_arith)
        requires
            0 <= v < y,
            0 <= j < stride,
    ;
}

// --- Laws -----------------------------------------------------------------

/// Typing on only ever hides hints.
pub proof fn law_typing_narrows_the_visible_hints(
    boxes: Seq<HintBox>,
    typed: Seq<char>,
    c: char,
    i: int,
)
    requires
        drawn(boxes, typed.push(c), boxes.len()).contains(i),
    ensures
        drawn(boxes, typed, boxes.len()).contains(i),
{
    law_a_hint_is_drawn_if_its_label_starts_as_typed(boxes, typed, boxes.len(), i);
    law_a_hint_is_drawn_if_its_label_starts_as_typed(boxes, typed.push(c), boxes.len(), i);
    let label = boxes[i].label@;
    assert(label.take(typed.len() as int) == label.take((typed.len() + 1) as int).drop_last());
    assert(typed.push(c).drop_last() == typed);
}

/// A box is drawn exactly if its label starts with what was typed.
pub proof fn law_a_hint_is_drawn_if_its_label_starts_as_typed(boxes: Seq<HintBox>, typed: Seq<char>, n: nat, i: int)
    requires
        n <= boxes.len(),
    ensures
        drawn(boxes, typed, n).contains(i) <==> 0 <= i < n && begins(boxes[i].label@, typed),
    decreases n,
{
    if n > 0 {
        law_a_hint_is_drawn_if_its_label_starts_as_typed(boxes, typed, (n - 1) as nat, i);
        let before = drawn(boxes, typed, (n - 1) as nat);
        let all = drawn(boxes, typed, n);
        if before.contains(i) {
            let k = choose|k: int| 0 <= k < before.len() && before[k] == i;
            assert(all[k] == i);
        }
        if begins(boxes[n - 1].label@, typed) {
            assert(all[all.len() - 1] == n - 1);
            if all.contains(i) && i != n - 1 {
                let k = choose|k: int| 0 <= k < all.len() && all[k] == i;
                assert(before[k] == i);
            }
        }
    }
}

/// The hints that are drawn come in their own order, each of them once.
pub proof fn law_hints_are_drawn_in_order(boxes: Seq<HintBox>, typed: Seq<char>, n: nat, i: int, j: int)
    requires
        n <= boxes.len(),
        0 <= i < j < drawn(boxes, typed, n).len(),
    ensures
        0 <= drawn(boxes, typed, n)[i] < drawn(boxes, typed, n)[j] < n,
    decreases n,
{
    let before = drawn(boxes, typed, (n - 1) as nat);
    let all = drawn(boxes, typed, n);
    if j < before.len() {
        law_hints_are_drawn_in_order(boxes, typed, (n - 1) as nat, i, j);
        assert(all[i] == before[i] && all[j] == before[j]);
    } else {
        assert(all[j] == n - 1);
        assert(all[i] == before[i]);
        assert(before.contains(before[i]));
        law_a_hint_is_drawn_if_its_label_starts_as_typed(boxes, typed, (n - 1) as nat, before[i]);
    }
}

/// As soon as something is typed, the hints that are left show the colour of a
/// match; before that, the configured colour, adapted to what is behind it.
pub proof fn law_a_match_in_progress_shows(style: Hints, typed: Seq<char>, behind: Rgba, fill: Rgba)
    requires
        box_fill(style, typed, behind, fill),
    ensures
        typed.len() > 0 ==> fill == style.matched,
        typed.len() == 0 ==> adapted(style.background, behind, fill),
{
}

/// What is behind a box is the mean of what the capture shows there; a box off the
/// capture has medium grey behind it.
pub proof fn law_what_is_behind_a_box_is_sampled_there(screen: Screen, rect: Rect, c: Rgba)
    requires
        is_behind(screen, rect, c),
    ensures
        rect.cut(screen.area()) matches Some(part) ==> c.0@[0] == screen.grid_mean(0, part)
            && c.0@[1] == screen.grid_mean(1, part) && c.0@[2] == screen.grid_mean(2, part),
        rect.cut(screen.area()) is None ==> c.0@[0] == 128 && c.0@[1] == 128 && c.0@[2] == 128,
{
}

/// The backdrop shows the capture, darkened, blue first: where no channel is
/// darkened it is the capture itself. Beyond the capture it is black, and nowhere
/// does anything shine through.
pub proof fn law_the_backdrop_is_the_darkened_capture(
    screen: Screen,
    dim: Seq<u8>,
    x: int,
    y: int,
    c: int,
)
    requires
        dim.len() == 256,
        0 <= x,
        0 <= y,
        0 <= c < 4,
    ensures
        c == 3 ==> backdrop_byte(screen, dim, x, y, c) == 255,
        c < 3 && x < screen.cols() && y < screen.rows() ==> backdrop_byte(screen, dim, x, y, c)
            == dim[screen.channel(x, y, 2 - c) as int],
        c < 3 && !(x < screen.cols() && y < screen.rows()) ==> backdrop_byte(screen, dim, x, y, c)
            == 0,
        c < 3 && x < screen.cols() && y < screen.rows() && (forall|v: int|
            0 <= v < 256 ==> #[trigger] dim[v] == v) ==> backdrop_byte(screen, dim, x, y, c)
            == screen.channel(x, y, 2 - c),
{
}

} // verus!
