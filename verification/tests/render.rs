use mole::capture::Screen;
use mole::config::{Hints, Rgba};
use mole::geometry::{Point, Rect};
use mole::hint::HintBox;
use mole::render::palette::{adaptive_background, contrasting_text};
use mole::render::{box_colors, screen_backdrop, visible_boxes};

#[test]
fn light_box_gets_dark_text() {
    let dark = Rgba::new(0, 0, 0, 255);
    let light = Rgba::new(255, 255, 255, 255);
    let chosen = contrasting_text(Rgba::new(250, 250, 200, 255), dark, light);
    assert_eq!(chosen, dark);
}

#[test]
fn dark_box_gets_light_text() {
    let dark = Rgba::new(0, 0, 0, 255);
    let light = Rgba::new(255, 255, 255, 255);
    let chosen = contrasting_text(Rgba::new(20, 20, 30, 255), dark, light);
    assert_eq!(chosen, light);
}

#[test]
fn distinct_background_is_left_alone() {
    let cfg = Rgba::new(255, 220, 90, 255); // bright yellow
    let behind = Rgba::new(10, 10, 10, 255); // dark
    assert_eq!(adaptive_background(cfg, behind), cfg);
}

#[test]
fn similar_background_is_darkened_over_light_content() {
    let cfg = Rgba::new(240, 240, 240, 255); // light box
    let behind = Rgba::new(230, 230, 230, 255); // light content
    let out = adaptive_background(cfg, behind);
    assert!(out.luminance() < cfg.luminance());
}

#[test]
fn a_close_box_is_pushed_by_fixed_factors() {
    let over_light = adaptive_background(Rgba::new(240, 200, 180, 77), Rgba::new(210, 210, 210, 255));
    assert_eq!(over_light, Rgba::new(132, 110, 99, 77));
    let over_dark = adaptive_background(Rgba::new(10, 20, 200, 77), Rgba::new(20, 20, 20, 255));
    assert_eq!(over_dark, Rgba::new(16, 32, 255, 77));
}

#[test]
fn pushing_agrees_with_real_factors() {
    for v in 0..=255u8 {
        let grey = Rgba::new(v, v, v, 255);
        let out = adaptive_background(grey, grey).0[0];
        let factor = if v as f64 / 255.0 > 0.55 { 0.55 } else { 1.6 };
        let scaled = (v as f64 * factor).clamp(0.0, 255.0) as u8;
        // What cannot be scaled is raised by a step.
        assert_eq!(out, if scaled == v { v + 51 } else { scaled }, "{v}");
    }
}

#[test]
fn a_box_over_dark_content_always_gets_lighter() {
    let black = Rgba::new(0, 0, 0, 255);
    assert_eq!(adaptive_background(black, black), Rgba::new(51, 51, 51, 255));
    assert_eq!(
        adaptive_background(Rgba::new(1, 0, 1, 9), black),
        Rgba::new(52, 51, 52, 9)
    );
    // Full red has nothing to scale either.
    let red = adaptive_background(Rgba::new(255, 0, 0, 255), Rgba::new(100, 100, 100, 255));
    assert_eq!(red, Rgba::new(255, 51, 51, 255));
    for r in (0..=255u8).step_by(5) {
        for g in (0..=255u8).step_by(5) {
            for b in (0..=255u8).step_by(5) {
                let own = Rgba::new(r, g, b, 255);
                let out = adaptive_background(own, own);
                if own.luminance() > 140_250 {
                    assert!(out.luminance() < own.luminance());
                } else {
                    assert!(out.luminance() > own.luminance());
                }
            }
        }
    }
}

fn hint(label: &str) -> HintBox {
    HintBox {
        index: 0,
        label: label.to_string(),
        rect: Rect::new(10, 10, 24, 16),
        target: Point::new(22, 18),
    }
}

#[test]
fn only_matching_hints_are_drawn() {
    let boxes = [hint("aa"), hint("ab"), hint("ba")];
    assert_eq!(visible_boxes(&boxes, ""), vec![0, 1, 2]);
    assert_eq!(visible_boxes(&boxes, "a"), vec![0, 1]);
    assert_eq!(visible_boxes(&boxes, "ab"), vec![1]);
    assert!(visible_boxes(&boxes, "z").is_empty());
}

fn solid_screen(b: u8, g: u8, r: u8) -> Screen {
    let mut data = vec![0u8; 100 * 100 * 4];
    for px in data.chunks_mut(4) {
        px[0] = b;
        px[1] = g;
        px[2] = r;
        px[3] = 255;
    }
    Screen::from_raw(Rect::new(0, 0, 100, 100), data, 100 * 4, 4)
}

#[test]
fn a_match_in_progress_has_its_own_colour() {
    let style = Hints::default();
    let dark = solid_screen(10, 10, 10);
    let rect = Rect::new(10, 10, 24, 16);
    assert_eq!(box_colors(&style, rect, "a", &dark), (style.matched, style.foreground));
    assert_eq!(box_colors(&style, rect, "", &dark), (style.background, style.foreground));
    // Over content as bright as itself the box is darkened, and its text follows.
    let light = solid_screen(200, 220, 230);
    assert_eq!(
        box_colors(&style, rect, "", &light),
        (Rgba::new(140, 121, 49, 230), style.foreground_dark)
    );
}

#[test]
fn backdrop_is_opaque_and_shows_the_screen() {
    // Every pixel must be opaque (so it works without a compositor) and reflect
    // the captured screen, darkened.
    let keep = 1.0 - 0.35f64;
    let dim: Vec<u8> = (0..256).map(|v| (v as f64 * keep) as u8).collect();
    let buf = screen_backdrop(100, 100, 400, &solid_screen(0, 0, 200), &dim);
    assert_eq!(buf.len(), 400 * 100);
    for px in buf.chunks(4) {
        assert_eq!(px[3], 255, "backdrop must be fully opaque");
        // Little-endian ARGB32: red lives in byte 2, dimmed from 200.
        assert!(px[2] > 0 && px[2] < 200, "red should be present but dimmed");
        assert_eq!(px, [0, 0, 130, 255]);
    }
}

#[test]
fn the_backdrop_is_black_beyond_the_capture_and_padded() {
    let dim: Vec<u8> = (0..=255).collect();
    let screen = Screen::from_raw(Rect::new(0, 0, 1, 1), vec![1, 2, 3, 4], 4, 4);
    // Two columns and two rows, with four bytes of padding each.
    let buf = screen_backdrop(2, 2, 12, &screen, &dim);
    assert_eq!(
        buf,
        vec![
            1, 2, 3, 255, 0, 0, 0, 255, 0, 0, 0, 0, //
            0, 0, 0, 255, 0, 0, 0, 255, 0, 0, 0, 0, //
        ]
    );
    assert!(screen_backdrop(-1, 5, 0, &screen, &dim).is_empty());
}
