//! The transparent fullscreen overlay window.
//!
//! Callers draw into a buffer (see [`crate::render`]); this module packs it into
//! upload requests, picks the visual of the window, and turns the events that
//! arrive while it is up into inputs.

use vstd::prelude::*;

use super::connection::{decoded, KeyInput, Keymap};
use super::grab::is_shifted;
use crate::error::{Error, Result};
use crate::geometry::{greater, lesser, Point};

verus! {

/// An input event delivered while the overlay is up.
#[derive(Debug, Clone, Copy, PartialEq, Eq, Structural)]
pub enum OverlayInput {
    Key(KeyInput),
    /// A mouse button was pressed somewhere on the overlay.
    Click(Point),
}

/// An event as it comes from the server.
#[derive(Debug, Clone, Copy, PartialEq, Eq, Structural)]
pub enum OverlayEvent {
    KeyPress { keycode: u8, state: u16 },
    ButtonPress { x: i16, y: i16 },
    /// Anything else.
    Other,
}

/// What an event means as an input; uninteresting events mean nothing.
pub open spec fn input_of(keymap: Keymap, event: OverlayEvent) -> Option<OverlayInput> {
    match event {
        OverlayEvent::KeyPress { keycode, state } => Some(
            OverlayInput::Key(decoded(keymap.symbol(keycode as int, 0), state % 2 == 1)),
        ),
        OverlayEvent::ButtonPress { x, y } => Some(
            OverlayInput::Click(Point { x: x as i32, y: y as i32 }),
        ),
        OverlayEvent::Other => None,
    }
}

/// The input that an event is, if it is one.
pub fn read_input(keymap: &Keymap, event: OverlayEvent) -> (r: Option<OverlayInput>)
    ensures
        r == input_of(*keymap, event),
{
    match event {
        OverlayEvent::KeyPress { keycode, state } => Some(
            OverlayInput::Key(keymap.decode_key(keycode, is_shifted(state))),
        ),
        OverlayEvent::ButtonPress { x, y } => Some(
            OverlayInput::Click(Point::new(x as i32, y as i32)),
        ),
        OverlayEvent::Other => None,
    }
}

/// A colour depth of the screen and its visuals, by id.
#[derive(Debug, Clone)]
pub struct Depth {
    pub depth: u8,
    pub visuals: Vec<u32>,
}

/// The first depth of 32 bits among `depths[i..]`.
pub open spec fn deep(depths: Seq<Depth>, i: int) -> Option<Depth>
    decreases depths.len() - i,
{
    if i < 0 || i >= depths.len() {
        None
    } else if depths[i].depth == 32 {
        Some(depths[i])
    } else {
        deep(depths, i + 1)
    }
}

/// Find a 32-bit (ARGB) visual on the screen, returning `(depth, visual_id)`: the
/// first visual of the first such depth.
pub fn find_argb_visual(depths: &[Depth]) -> (r: Option<(u8, u32)>)
    ensures
        r == match deep(depths@, 0) {
            Some(d) => if d.visuals@.len() > 0 {
                Some((32u8, d.visuals@[0]))
            } else {
                None
            },
            None => None,
        },
{
    let mut i: usize = 0;
    while i < depths.len()
        invariant
            i <= depths@.len(),
            deep(depths@, 0) == deep(depths@, i as int),
        decreases depths@.len() - i,
    {
        if depths[i].depth == 32 {
            return if depths[i].visuals.len() > 0 {
                Some((32, depths[i].visuals[0]))
            } else {
                None
            };
        }
        i += 1;
    }
    None
}

/// The visual that the overlay is created with.
pub fn choose_visual(depths: &[Depth]) -> (r: Result<(u8, u32)>)
    ensures
        match r {
            Ok(v) => deep(depths@, 0) matches Some(d) && d.visuals@.len() > 0 && v == (
                32u8,
                d.visuals@[0],
            ),
            Err(e) => e is Render && e->Render_0@ == "no 32-bit ARGB visual available"@ && (deep(
                depths@,
                0,
            ) matches Some(d) ==> d.visuals@.len() == 0),
        },
{
    match find_argb_visual(depths) {
        Some(v) => Ok(v),
        None => Err(Error::render("no 32-bit ARGB visual available")),
    }
}

// --- Uploading ------------------------------------------------------------

/// At most about this many bytes of pixels go into one upload request.
pub const REQUEST_BYTES: usize = 262_144;

/// How many rows of `width` pixels go into one request: as many as fit, and at
/// least one.
pub open spec fn rows_per_request(width: int) -> int {
    greater(REQUEST_BYTES as int / (width * 4), 1)
}

/// How many requests `height` rows take.
pub open spec fn request_count(width: int, height: int) -> int {
    (height + rows_per_request(width) - 1) / rows_per_request(width)
}

/// The first row of request `i` and how many rows it has.
pub open spec fn request_at(width: int, height: int, i: int) -> (int, int) {
    let n = rows_per_request(width);
    (i * n, lesser(n, height - i * n))
}

/// The requests, as `(row, rows)`, that upload a frame of `width`×`height`
/// pixels: horizontal bands that stay well under the maximum request size.
pub fn upload_plan(width: u16, height: u16) -> (plan: Vec<(u16, u16)>)
    requires
        width > 0,
    ensures
        plan@.len() == request_count(width as int, height as int),
        forall|i: int|
            0 <= i < plan@.len() ==> ((#[trigger] plan@[i]).0 as int, plan@[i].1 as int)
                == request_at(width as int, height as int, i),
{
    let tight = width as usize * 4;
    let share = REQUEST_BYTES / tight;
    let rows = if share > 0 {
        share
    } else {
        1
    };
    let h = height as usize;
    let mut plan: Vec<(u16, u16)> = Vec::new();
    let mut row: usize = 0;
    let mut i: usize = 0;
    proof {
        lemma_requests(width as int, height as int, 0);
        assert(0 * rows == 0) by (nonlinear_arith);
    }
    while row < h
        invariant
            h == height,
            width > 0,
            rows == rows_per_request(width as int),
            1 <= rows <= REQUEST_BYTES,
            plan@.len() == i,
            row == i * rows,
            i <= row <= h + rows,
            i <= request_count(width as int, height as int),
            row >= h ==> i == request_count(width as int, height as int),
            forall|j: int|
                0 <= j < i ==> ((#[trigger] plan@[j]).0 as int, plan@[j].1 as int) == request_at(
                    width as int,
                    height as int,
                    j,
                ),
        decreases (if row < h {
                h - row
            } else {
                0
            }),
    {
        proof {
            lemma_requests(width as int, height as int, i as int);
            lemma_requests(width as int, height as int, i + 1);
            assert((i + 1) * rows == i * rows + rows) by (nonlinear_arith);
        }
        let n = if rows < h - row {
            rows
        } else {
            h - row
        };
        plan.push((row as u16, n as u16));
        row = row + rows;
        i = i + 1;
    }
    plan
}

proof fn lemma_requests(width: int, height: int, i: int)
    requires
        width > 0,
        height >= 0,
        i >= 0,
    ensures
        i < request_count(width, height) <==> i * rows_per_request(width) < height,
        request_count(width, height) >= 0,
        rows_per_request(width) >= 1,
{
    let n = rows_per_request(width);
    let m = request_count(width, height);
    assert(m >= 0 && (i < m <==> i * n < height)) by (nonlinear_arith)
        requires
            m == (height + n - 1) / n,
            n >= 1,
            height >= 0,
            i >= 0,
    ;
}

/// Rows `[row, row + rows)` of an ARGB32 buffer of `stride` bytes per row, packed
/// tightly at `width` pixels each.
pub fn pack_rows(data: &[u8], stride: usize, width: u16, row: u16, rows: u16) -> (out: Vec<u8>)
    requires
        rows > 0 ==> (row + rows - 1) * stride + width * 4 <= data@.len(),
    ensures
        out@.len() == rows * (width * 4),
        forall|r: int, j: int|
            0 <= r < rows && 0 <= j < width * 4 ==> #[trigger] out@[r * (width * 4) + j]
                == data@[(row + r) * stride + j],
{
    let tight = width as usize * 4;
    let len = data.len();
    let mut out: Vec<u8> = Vec::new();
    let mut r: usize = 0;
    assert(0 * tight == 0) by (nonlinear_arith);
    while r < rows as usize
        invariant
            r <= rows,
            tight == width * 4,
            len == data@.len(),
            rows > 0 ==> (row + rows - 1) * stride + width * 4 <= data@.len(),
            out@.len() == r * tight,
            forall|q: int, j: int|
                0 <= q < r && 0 <= j < tight ==> #[trigger] out@[q * (width * 4) + j] == data@[(row
                    + q) * stride + j],
        decreases rows - r,
    {
        let ghost before = out@;
        proof {
            assert((row + r) * stride <= (row + rows - 1) * stride && 0 <= (row + r) * stride)
                by (nonlinear_arith)
                requires
                    0 <= row + r <= row + rows - 1,
                    stride >= 0,
            ;
        }
        let src = (row as usize + r) * stride;
        let mut j: usize = 0;
        while j < tight
            invariant
                j <= tight,
                tight == width * 4,
                len == data@.len(),
                src == (row + r) * stride,
                src + tight <= len,
                before.len() == r * tight,
                out@.len() == r * tight + j,
                out@.take(before.len() as int) == before,
                forall|i: int|
                    #![trigger out@[r * tight + i]]
                    0 <= i < j ==> out@[r * tight + i] == data@[src + i],
            decreases tight - j,
        {
            let ghost so_far = out@;
            out.push(data[src + j]);
            proof {
                assert(0 <= r * tight) by (nonlinear_arith);
                assert(out@.take(before.len() as int) == so_far.take(before.len() as int));
                assert forall|i: int|
                    #![trigger out@[r * tight + i]]
                    0 <= i < j + 1 implies out@[r * tight + i] == data@[src + i] by {
                    if i < j {
                        assert(out@[r * tight + i] == so_far[r * tight + i]);
                    }
                }
            }
            j += 1;
        }
        proof {
            assert((r + 1) * tight == r * tight + tight) by (nonlinear_arith);
            assert forall|q: int, j: int| 0 <= q < r + 1 && 0 <= j < tight implies #[trigger] out@[q
                * (width * 4) + j] == data@[(row + q) * stride + j] by {
                if q < r {
                    assert(0 <= q * tight + j < r * tight) by (nonlinear_arith)
                        requires
                            0 <= q < r,
                            0 <= j < tight,
                    ;
                    assert(out@[q * tight + j] == out@.take(before.len() as int)[q * tight + j]);
                    assert(before[q * (width * 4) + j] == data@[(row + q) * stride + j]);
                } else {
                    assert(out@[r * tight + j] == data@[src + j]);
                }
            }
        }
        r += 1;
    }
    out
}

// --- Laws -----------------------------------------------------------------

/// The requests of a frame follow one another without a gap, from the first row
/// to the last, and none holds more pixel bytes than the limit unless it is a
/// single row.
pub proof fn law_requests_tile_the_frame(width: int, height: int, i: int)
    requires
        width > 0,
        height >= 0,
        0 <= i < request_count(width, height),
    ensures
        ({
            let (row, rows) = request_at(width, height, i);
            &&& 0 < rows
            &&& rows * (width * 4) <= REQUEST_BYTES || rows == 1
            &&& if i + 1 < request_count(width, height) {
                row + rows == request_at(width, height, i + 1).0
            } else {
                row + rows == height
            }
        }),
        request_at(width, height, 0).0 == 0,
{
    let n = rows_per_request(width);
    lemma_requests(width, height, i);
    lemma_requests(width, height, i + 1);
    assert((i + 1) * n == i * n + n) by (nonlinear_arith);
    let (row, rows) = request_at(width, height, i);
    let tight = width * 4;
    if n > 1 {
        assert(n * tight <= REQUEST_BYTES) by (nonlinear_arith)
            requires
                n == REQUEST_BYTES as int / tight,
                tight >= 1,
        ;
        assert(rows * tight <= n * tight) by (nonlinear_arith)
            requires
                rows <= n,
                tight >= 1,
        ;
    }
    assert(0 * n == 0) by (nonlinear_arith);
}

/// Each request but the last is as large as it may be: one more row would not fit.
pub proof fn law_requests_are_as_large_as_they_may_be(width: int, height: int, i: int)
    requires
        width > 0,
        height >= 0,
        0 <= i,
        i + 1 < request_count(width, height),
    ensures
        (request_at(width, height, i).1 + 1) * (width * 4) > 262_144,
{
    let n = rows_per_request(width);
    lemma_requests(width, height, i);
    lemma_requests(width, height, i + 1);
    assert((i + 1) * n == i * n + n) by (nonlinear_arith);
    let tight = width * 4;
    assert((262_144int / tight + 1) * tight > 262_144) by (nonlinear_arith)
        requires
            tight >= 1,
    ;
    assert((n + 1) * tight >= (262_144int / tight + 1) * tight) by (nonlinear_arith)
        requires
            n >= 262_144int / tight,
            tight >= 1,
    ;
}

/// The depth that is used is the first of 32 bits: it is one of those given, and
/// none before it has 32 bits.
pub proof fn law_the_first_deep_depth_is_used(depths: Seq<Depth>)
    ensures
        match deep(depths, 0) {
            Some(d) => exists|k: int|
                0 <= k < depths.len() && #[trigger] depths[k] == d && d.depth == 32 && forall|j: int|
                    0 <= j < k ==> (#[trigger] depths[j]).depth != 32,
            None => forall|j: int| 0 <= j < depths.len() ==> (#[trigger] depths[j]).depth != 32,
        },
{
    lemma_deep(depths, 0);
}

proof fn lemma_deep(depths: Seq<Depth>, i: int)
    requires
        0 <= i <= depths.len(),
        forall|j: int| 0 <= j < i ==> (#[trigger] depths[j]).depth != 32,
    ensures
        match deep(depths, i) {
            Some(d) => exists|k: int|
                0 <= k < depths.len() && #[trigger] depths[k] == d && d.depth == 32 && forall|j: int|
                    0 <= j < k ==> (#[trigger] depths[j]).depth != 32,
            None => forall|j: int| 0 <= j < depths.len() ==> (#[trigger] depths[j]).depth != 32,
        },
    decreases depths.len() - i,
{
    if i < depths.len() {
        if depths[i].depth == 32 {
            assert(depths[i] == deep(depths, i)->0);
        } else {
            lemma_deep(depths, i + 1);
        }
    }
}

/// A key press is the key it was, a button press is a click where it happened, and
/// anything else is no input.
pub proof fn law_events_are_read_as_what_they_are(keymap: Keymap, event: OverlayEvent)
    ensures
        event matches OverlayEvent::ButtonPress { x, y } ==> input_of(keymap, event) matches Some(
            OverlayInput::Click(p),
        ) && p.x == x && p.y == y,
        event matches OverlayEvent::KeyPress { keycode, state } ==> input_of(keymap, event) == Some(
            OverlayInput::Key(decoded(keymap.symbol(keycode as int, 0), state % 2 == 1)),
        ),
        event is Other ==> input_of(keymap, event) is None,
{
}

} // verus!
