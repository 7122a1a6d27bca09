use mole::detect::icon::{connected_blobs, detect, Blob};
use mole::detect::Element;
use mole::geometry::Rect;

/// Paint a filled rectangle of bright pixels into a black RGB buffer.
fn fill(rgb: &mut [u8], width: i32, r: Rect) {
    let w = width as usize;
    for y in r.y..r.bottom() {
        for x in r.x..r.right() {
            let i = (y as usize * w + x as usize) * 3;
            if i + 2 < rgb.len() {
                rgb[i] = 255;
                rgb[i + 1] = 255;
                rgb[i + 2] = 255;
            }
        }
    }
}

#[test]
fn finds_an_isolated_icon_sized_blob() {
    let (w, h) = (400, 300);
    let mut rgb = vec![0u8; (w * h * 3) as usize];
    fill(&mut rgb, w, Rect::new(100, 100, 24, 24)); // a 24px "icon"
    let icons = detect(&rgb, w, h, Rect::new(0, 0, w, h), &[], 6);
    assert_eq!(icons.len(), 1);
    let r = icons[0].rect;
    assert!(r.x <= 100 && r.right() >= 124, "box covers the icon");
}

#[test]
fn ignores_a_huge_image_block() {
    let (w, h) = (400, 300);
    let mut rgb = vec![0u8; (w * h * 3) as usize];
    fill(&mut rgb, w, Rect::new(20, 20, 200, 200)); // way bigger than an icon
    assert!(detect(&rgb, w, h, Rect::new(0, 0, w, h), &[], 6).is_empty());
}

#[test]
fn skips_a_blob_sitting_on_hinted_text() {
    let (w, h) = (400, 300);
    let mut rgb = vec![0u8; (w * h * 3) as usize];
    fill(&mut rgb, w, Rect::new(100, 100, 24, 24));
    let text = [Element::new(Rect::new(96, 96, 32, 32), "x")];
    assert!(detect(&rgb, w, h, Rect::new(0, 0, w, h), &text, 6).is_empty());
}

#[test]
fn ignores_a_flat_background() {
    let (w, h) = (200, 200);
    let rgb = vec![30u8; (w * h * 3) as usize]; // uniform — no edges
    assert!(detect(&rgb, w, h, Rect::new(0, 0, w, h), &[], 6).is_empty());
}

#[test]
fn icons_lie_on_the_cell_grid_of_their_region() {
    let (w, h) = (400, 300);
    let mut rgb = vec![0u8; (w * h * 3) as usize];
    fill(&mut rgb, w, Rect::new(100, 100, 24, 24));
    let icons = detect(&rgb, w, h, Rect::new(1000, 2000, w, h), &[], 6);
    assert_eq!(icons.len(), 1);
    // Cells 12..=15 on both axes.
    assert_eq!(icons[0].rect, Rect::new(1096, 2096, 32, 32));
    assert_eq!(icons[0].text, "");
}

#[test]
fn nothing_is_found_in_an_empty_image() {
    assert!(detect(&[], 0, 0, Rect::new(0, 0, 0, 0), &[], 6).is_empty());
    assert!(detect(&[], -5, 100, Rect::new(0, 0, 0, 0), &[], 6).is_empty());
    // A buffer that is shorter than it should be has no edges where it ends.
    assert!(detect(&[], 100, 100, Rect::new(0, 0, 100, 100), &[], 6).is_empty());
}

fn grid(rows: &[&str]) -> (Vec<bool>, i64, i64) {
    let cells = rows
        .iter()
        .flat_map(|r| r.chars().map(|c| c == '#').collect::<Vec<_>>())
        .collect();
    (cells, rows[0].len() as i64, rows.len() as i64)
}

#[test]
fn blobs_are_connected_over_sides_only() {
    let (cells, cols, rows) = grid(&[
        "##..#", //
        "#..#.", //
        "..##.", //
    ]);
    assert_eq!(
        connected_blobs(&cells, cols, rows),
        vec![
            Blob { x0: 0, y0: 0, x1: 1, y1: 1, cells: 3 },
            Blob { x0: 4, y0: 0, x1: 4, y1: 0, cells: 1 },
            Blob { x0: 2, y0: 1, x1: 3, y1: 2, cells: 3 },
        ]
    );
}

#[test]
fn blobs_do_not_wrap_around_the_edge() {
    let (cells, cols, rows) = grid(&[
        "..#", //
        "#..", //
    ]);
    assert_eq!(connected_blobs(&cells, cols, rows).len(), 2);
    let (ring, cols, rows) = grid(&[
        "###", //
        "#.#", //
        "###", //
    ]);
    assert_eq!(
        connected_blobs(&ring, cols, rows),
        vec![Blob { x0: 0, y0: 0, x1: 2, y1: 2, cells: 8 }]
    );
}

/// An image of 400 x 400 with an icon of `w` x `h` pixels, every other pixel
/// bright so that each of its cells holds an edge.
fn speckled(w: i32, h: i32) -> Vec<u8> {
    let mut rgb = vec![0u8; 400 * 400 * 3];
    for y in (160..160 + h).step_by(4) {
        for x in (160..160 + w).step_by(4) {
            fill(&mut rgb, 400, Rect::new(x, y, 1, 1));
        }
    }
    rgb
}

#[test]
fn only_icon_shapes_pass() {
    let found = |w: i32, h: i32, min: i32| {
        detect(&speckled(w, h), 400, 400, Rect::new(0, 0, 400, 400), &[], min).len()
    };
    assert_eq!(found(16, 16, 6), 1);
    assert_eq!(found(8, 16, 6), 0, "too narrow");
    assert_eq!(found(80, 80, 6), 1);
    assert_eq!(found(88, 80, 6), 0, "too wide");
    assert_eq!(found(48, 16, 6), 1, "three times as wide as tall");
    assert_eq!(found(56, 16, 6), 0, "too elongated");
    assert_eq!(found(16, 16, 24), 0, "below the configured size");
}

#[test]
fn a_faint_spread_is_no_edge() {
    let spread = |v: u8| {
        let mut rgb = vec![0u8; 100 * 100 * 3];
        for y in (40..56).step_by(4) {
            for x in (40..56).step_by(4) {
                rgb[(y * 100 + x) * 3] = v;
            }
        }
        detect(&rgb, 100, 100, Rect::new(0, 0, 100, 100), &[], 6).len()
    };
    assert_eq!(spread(89), 0);
    assert_eq!(spread(90), 1);
}

#[test]
fn icons_are_icon_sized_and_off_text() {
    let (w, h) = (400, 300);
    let mut rgb = vec![0u8; (w * h * 3) as usize];
    fill(&mut rgb, w, Rect::new(44, 44, 24, 24));
    fill(&mut rgb, w, Rect::new(204, 44, 24, 24));
    fill(&mut rgb, w, Rect::new(44, 164, 120, 90));
    let text = [Element::new(Rect::new(200, 40, 32, 32), "x")];
    let icons = detect(&rgb, w, h, Rect::new(0, 0, w, h), &text, 6);
    assert_eq!(icons.len(), 1);
    for icon in &icons {
        assert!((16..=80).contains(&icon.rect.width));
        assert!((16..=80).contains(&icon.rect.height));
        assert!(text.iter().all(|t| !t.rect.intersects(&icon.rect)));
    }
}
