//! Colour helpers for guaranteed hint contrast.
//!
//! Two decisions are made per hint:
//!
//! * which text colour reads best on the hint box, and
//! * whether the hint box itself needs nudging to stand out from whatever is
//!   *behind* it on screen.
//!
//! Luminance is counted in the units of [`Rgba::luminance`].

use vstd::prelude::*;

use crate::config::Rgba;
use crate::geometry::lesser;

verus! {

/// Luminance threshold separating "light" from "dark" backgrounds: 55 percent of
/// white.
pub const MID: u32 = 140_250;

/// Luminances closer than this, 20 percent of white, are hard to tell apart.
pub const CLOSE: u32 = 51_000;

/// What is added to each channel of a dark box that no factor can lighten: 20
/// percent of white.
pub const LIFT: u32 = 51;

/// The colour is a light background.
pub open spec fn is_light(c: Rgba) -> bool {
    c.light() > MID
}

/// How far the luminances of two colours are apart.
pub open spec fn contrast(a: Rgba, b: Rgba) -> int {
    if a.light() >= b.light() {
        a.light() - b.light()
    } else {
        b.light() - a.light()
    }
}

/// A channel pushed away from what is behind it: to 55 percent over light
/// content, to 160 percent over dark content, at most full.
pub open spec fn pushed(c: u8, over_light: bool) -> u8 {
    if over_light {
        (c * 55 / 100) as u8
    } else {
        lesser(c * 8 / 5, 255) as u8
    }
}

/// A channel raised by a fixed step, at most to full.
pub open spec fn lifted(c: u8) -> u8 {
    lesser(c + LIFT, 255) as u8
}

/// Lightening by a factor leaves the channel as it is: it is full, or too small.
pub open spec fn stuck(c: u8) -> bool {
    pushed(c, false) == c
}

/// `c` is the box colour `configured`, left alone where its luminance is distinct
/// from what is `behind` it and else pushed away, its opacity kept. A box over dark
/// content that the factor would leave as it is, such as a black one, has no hue
/// worth keeping and is raised by a fixed step instead.
pub open spec fn adapted(configured: Rgba, behind: Rgba, c: Rgba) -> bool {
    if contrast(configured, behind) >= CLOSE {
        c == configured
    } else if !is_light(behind) && stuck(configured.r()) && stuck(configured.g()) && stuck(
        configured.b(),
    ) {
        c.0@ == seq![
            lifted(configured.r()),
            lifted(configured.g()),
            lifted(configured.b()),
            configured.a(),
        ]
    } else {
        c.0@ == seq![
            pushed(configured.r(), is_light(behind)),
            pushed(configured.g(), is_light(behind)),
            pushed(configured.b(), is_light(behind)),
            configured.a(),
        ]
    }
}

/// Pick the text colour that contrasts the box fill: dark text on a light box,
/// light text on a dark box.
pub fn contrasting_text(box_bg: Rgba, dark_text: Rgba, light_text: Rgba) -> (c: Rgba)
    ensures
        c == if is_light(box_bg) {
            dark_text
        } else {
            light_text
        },
{
    if box_bg.luminance() > MID {
        dark_text
    } else {
        light_text
    }
}

/// If the configured box colour is too close in luminance to what's behind it on
/// screen, push it away (darken a light box over light content, lighten a dark
/// box over dark content) so the box edge stays visible. The hue is preserved,
/// unless there is none to scale.
pub fn adaptive_background(configured: Rgba, behind: Rgba) -> (c: Rgba)
    ensures
        adapted(configured, behind, c),
{
    let own = configured.luminance();
    let other = behind.luminance();
    let diff = if own >= other {
        own - other
    } else {
        other - own
    };
    if diff >= CLOSE {
        return configured;
    }
    let over_light = other > MID;
    if !over_light && push_channel(configured.0[0], false) == configured.0[0] && push_channel(
        configured.0[1],
        false,
    ) == configured.0[1] && push_channel(configured.0[2], false) == configured.0[2] {
        return Rgba::new(
            lift_channel(configured.0[0]),
            lift_channel(configured.0[1]),
            lift_channel(configured.0[2]),
            configured.0[3],
        );
    }
    Rgba::new(
        push_channel(configured.0[0], over_light),
        push_channel(configured.0[1], over_light),
        push_channel(configured.0[2], over_light),
        configured.0[3],
    )
}

fn push_channel(c: u8, over_light: bool) -> (r: u8)
    ensures
        r == pushed(c, over_light),
{
    let v = c as u32;
    if over_light {
        (v * 55 / 100) as u8
    } else if v * 8 / 5 < 255 {
        (v * 8 / 5) as u8
    } else {
        255
    }
}

fn lift_channel(c: u8) -> (r: u8)
    ensures
        r == lifted(c),
{
    if c as u32 + LIFT < 255 {
        (c as u32 + LIFT) as u8
    } else {
        255
    }
}

// --- Laws -----------------------------------------------------------------

/// Pushing a box away never changes its opacity.
pub proof fn law_the_opacity_of_a_box_is_kept(configured: Rgba, behind: Rgba, c: Rgba)
    requires
        adapted(configured, behind, c),
    ensures
        c.a() == configured.a(),
{
}

/// A box over light content of about its own luminance gets darker, and one over
/// dark content of about its own luminance gets lighter.
pub proof fn law_a_close_background_is_pushed_away(configured: Rgba, behind: Rgba, c: Rgba)
    requires
        contrast(configured, behind) < CLOSE,
        adapted(configured, behind, c),
    ensures
        is_light(behind) ==> c.light() < configured.light(),
        !is_light(behind) ==> c.light() > configured.light(),
{
}

/// Light is what is above 55 percent of white: dark text goes on it, light text on
/// anything else.
pub proof fn law_light_is_above_fifty_five_percent(c: Rgba)
    ensures
        is_light(c) <==> 100 * c.light() > 55 * 255_000,
{
}

/// The contrast of two colours is how far their luminances are apart, whichever is
/// the lighter one.
pub proof fn law_contrast_is_a_distance(a: Rgba, b: Rgba)
    ensures
        contrast(a, b) == contrast(b, a),
        contrast(a, b) == a.light() - b.light() || contrast(a, b) == b.light() - a.light(),
        contrast(a, b) >= 0,
{
}

/// A box that differs by a fifth of white from what is behind it is left alone; any
/// other is not.
pub proof fn law_distinct_boxes_are_left_alone(configured: Rgba, behind: Rgba, c: Rgba)
    requires
        adapted(configured, behind, c),
    ensures
        5 * contrast(configured, behind) >= 255_000 ==> c == configured,
        5 * contrast(configured, behind) < 255_000 ==> c.light() != configured.light(),
{
    if contrast(configured, behind) < CLOSE {
        law_a_close_background_is_pushed_away(configured, behind, c);
    }
}

/// Pushing scales every channel by the same factor, rounded down: to 55 percent over
/// light content and to 160 percent over dark content, at most to full.
pub proof fn law_channels_are_scaled_alike(v: u8)
    ensures
        55 * v - 100 < 100 * pushed(v, true) <= 55 * v,
        pushed(v, false) == 255 || (8 * v - 5 < 5 * pushed(v, false) <= 8 * v),
        pushed(v, false) == 255 ==> 8 * v >= 5 * 255,
        lifted(v) == 255 || lifted(v) == v + 51,
        lifted(v) == 255 ==> v >= 204,
{
}

/// Pushing keeps the order of the channels, so the hue of a box that can be scaled
/// stays what it was.
pub proof fn law_channels_keep_their_order(v: u8, w: u8, over_light: bool)
    requires
        v <= w,
    ensures
        pushed(v, over_light) <= pushed(w, over_light),
        lifted(v) <= lifted(w),
{
}

/// A box that is pushed away is scaled, channel by channel, where that moves any
/// of them, and raised by a step where it would move none.
pub proof fn law_boxes_are_scaled_or_raised(configured: Rgba, behind: Rgba, c: Rgba, k: int)
    requires
        adapted(configured, behind, c),
        5 * contrast(configured, behind) < 255_000,
        0 <= k < 3,
    ensures
        is_light(behind) ==> c.0@[k] == pushed(configured.0@[k], true),
        !is_light(behind) ==> {
            let moves = pushed(configured.0@[0], false) != configured.0@[0] || pushed(
                configured.0@[1],
                false,
            ) != configured.0@[1] || pushed(configured.0@[2], false) != configured.0@[2];
            c.0@[k] == if moves {
                pushed(configured.0@[k], false)
            } else {
                lifted(configured.0@[k])
            }
        },
{
}

} // verus!
