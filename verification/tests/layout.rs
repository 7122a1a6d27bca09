use mole::detect::Element;
use mole::geometry::{Point, Rect};
use mole::hint::{
    generate_labels, place_drag_hints, place_hints, place_hints_avoiding, HintBox, Metrics,
};

/// The whole-pixel sizes of a font.
fn metrics(font_size: f64) -> Metrics {
    Metrics {
        advance: (font_size * 0.62).ceil() as i32,
        line: font_size.ceil() as i32,
    }
}

fn elem(x: i32, y: i32, w: i32, h: i32) -> Element {
    Element::new(Rect::new(x, y, w, h), "t")
}

fn no_overlaps(boxes: &[HintBox], gap: i32) -> bool {
    for (i, a) in boxes.iter().enumerate() {
        for (j, b) in boxes.iter().enumerate() {
            if i != j && a.rect.intersects_with_gap(&b.rect, gap) {
                return false;
            }
        }
    }
    true
}

#[test]
fn target_is_the_start_of_the_text_not_the_centre() {
    let els = [elem(100, 100, 400, 20)];
    let labels = vec!["aa".to_string()];
    let boxes = place_hints(&els, &labels, metrics(13.0), 4, Rect::new(0, 0, 1920, 1080));
    // Left edge + half a line height in, vertically centred, near the first
    // glyph, well left of the phrase centre (which would be x=300).
    assert_eq!(boxes[0].target, Point::new(110, 110));
}

#[test]
fn colliding_anchors_are_separated() {
    // Three elements stacked on the exact same spot.
    let els = [
        elem(50, 50, 10, 10),
        elem(50, 50, 10, 10),
        elem(50, 50, 10, 10),
    ];
    let labels: Vec<String> = vec!["aa".into(), "ab".into(), "ac".into()];
    let boxes = place_hints(&els, &labels, metrics(13.0), 4, Rect::new(0, 0, 1920, 1080));
    assert_eq!(boxes.len(), 3);
    assert!(
        no_overlaps(&boxes, 4),
        "boxes should not overlap after layout"
    );
}

#[test]
fn drag_hints_sit_at_both_ends_of_each_phrase() {
    let els = [elem(100, 100, 400, 20)];
    let labels = vec!["aa".to_string(), "ab".to_string()];
    let boxes = place_drag_hints(&els, &labels, metrics(13.0), 4, Rect::new(0, 0, 1920, 1080));
    assert_eq!(boxes.len(), 2, "one start hint and one end hint");
    // Start sits just LEFT of the first glyph (margin = height/2 = 10), so the
    // selection begins before the first character, not inside it.
    assert_eq!(boxes[0].target, Point::new(90, 110));
    // End sits just past the right edge so the release is after the last glyph.
    assert_eq!(boxes[1].target, Point::new(510, 110));
}

#[test]
fn boxes_stay_on_screen() {
    // Element at the far bottom-right corner.
    let els = [elem(1915, 1075, 4, 4)];
    let labels = vec!["aa".to_string()];
    let screen = Rect::new(0, 0, 1920, 1080);
    let boxes = place_hints(&els, &labels, metrics(13.0), 4, screen);
    assert!(boxes[0].rect.clamp_to(screen) == Some(boxes[0].rect));
}

#[test]
fn a_box_is_as_large_as_its_label() {
    let screen = Rect::new(0, 0, 1920, 1080);
    let els = [elem(10, 10, 50, 20), elem(300, 300, 50, 20)];
    let labels = vec!["a".to_string(), "abc".to_string()];
    let boxes = place_hints(&els, &labels, metrics(13.0), 4, screen);
    // 13 px: 9 px per character plus 8, one line plus 4.
    assert_eq!(boxes[0].rect, Rect::new(10, 10, 17, 17));
    assert_eq!(boxes[1].rect, Rect::new(300, 300, 35, 17));
    assert_eq!((boxes[0].index, boxes[1].index), (0, 1));
    assert_eq!((boxes[0].label.as_str(), boxes[1].label.as_str()), ("a", "abc"));
    // Never smaller than 8 pixels on a side.
    let tiny = place_hints(&els[..1], &labels[..1], Metrics { advance: -3, line: 1 }, 4, screen);
    assert_eq!(tiny[0].rect, Rect::new(10, 10, 8, 8));
}

#[test]
fn taken_spots_are_tried_in_order() {
    // Everything on one spot: the boxes are 26 x 17 with a gap of 4, so the
    // offsets are multiples of 30 and 21.
    let screen = Rect::new(0, 0, 1920, 1080);
    let els: Vec<Element> = (0..11).map(|_| elem(500, 500, 10, 10)).collect();
    let labels = generate_labels(&['a', 'b', 'c', 'd'], 11);
    let labels: Vec<String> = labels.iter().map(|l| format!("{l:2}")).collect();
    let boxes = place_hints(&els, &labels, metrics(13.0), 4, screen);
    let spots: Vec<(i32, i32)> = boxes.iter().map(|b| (b.rect.x, b.rect.y)).collect();
    assert_eq!(
        spots,
        vec![
            (500, 500),
            (500, 521),
            (530, 500),
            (530, 521),
            (500, 479),
            (470, 500),
            (500, 542),
            (560, 500),
            (530, 479),
            (470, 521),
            // Everything is taken: back to the anchor.
            (500, 500),
        ]
    );
    assert!(no_overlaps(&boxes[..10], 4));
}

#[test]
fn late_boxes_go_around_existing_ones() {
    let screen = Rect::new(0, 0, 1920, 1080);
    let first = place_hints(
        &[elem(50, 50, 10, 10)],
        &["aa".to_string()],
        metrics(13.0),
        4,
        screen,
    );
    let late = place_hints_avoiding(
        &[elem(50, 50, 10, 10), elem(400, 400, 10, 10)],
        &["ab".to_string(), "ac".to_string()],
        metrics(13.0),
        4,
        screen,
        &first,
    );
    assert_eq!(late.len(), 2, "only the new boxes");
    assert_eq!((late[0].index, late[1].index), (1, 2), "indices continue");
    assert_eq!(late[0].rect, Rect::new(50, 71, 26, 17));
    assert_eq!(late[1].rect, Rect::new(400, 400, 26, 17));
    assert!(!late[0].rect.intersects_with_gap(&first[0].rect, 4));
}

#[test]
fn an_anchor_far_off_screen_falls_back_to_the_corner() {
    let screen = Rect::new(100, 50, 300, 200);
    let boxes = place_hints(
        &[elem(5000, 5000, 10, 10)],
        &["aa".to_string()],
        metrics(13.0),
        4,
        screen,
    );
    assert_eq!(boxes[0].rect, Rect::new(100, 50, 26, 17));
}

#[test]
fn drag_margin_is_half_a_line_within_bounds() {
    let screen = Rect::new(0, 0, 1920, 1080);
    let ends = |h: i32| {
        let b = place_drag_hints(
            &[elem(100, 100, 50, h)],
            &["a".to_string(), "b".to_string()],
            metrics(13.0),
            4,
            screen,
        );
        (100 - b[0].target.x, b[1].target.x - 150)
    };
    assert_eq!(ends(2), (3, 3));
    assert_eq!(ends(10), (5, 5));
    assert_eq!(ends(200), (14, 14));
}

#[test]
fn the_jump_target_lies_in_the_box() {
    let screen = Rect::new(0, 0, 1920, 1080);
    for (w, h) in [(1, 1), (2, 40), (40, 2), (7, 7), (300, 20)] {
        let e = elem(100, 100, w, h);
        let b = place_hints(&[e.clone()], &["a".to_string()], metrics(13.0), 4, screen);
        assert!(e.rect.contains(b[0].target), "{w}x{h}");
    }
}
