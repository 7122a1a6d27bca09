use mole::capture::Screen;
use mole::detect::{finalize, Detector, Element};
use mole::error::{Error, Result};
use mole::geometry::Rect;

fn el(x: i32, y: i32, w: i32, h: i32) -> Element {
    Element::new(Rect::new(x, y, w, h), "t")
}

#[test]
fn finalize_drops_tiny_elements() {
    let screen = Rect::new(0, 0, 1920, 1080);
    let out = finalize(vec![el(100, 100, 4, 4)], 6, screen);
    assert!(out.is_empty(), "below min_size is filtered");
}

#[test]
fn finalize_drops_offscreen_elements() {
    let screen = Rect::new(0, 0, 800, 600);
    let out = finalize(vec![el(2000, 100, 40, 16)], 6, screen);
    assert!(out.is_empty(), "fully off-screen is filtered");
}

#[test]
fn finalize_sorts_into_reading_order() {
    let screen = Rect::new(0, 0, 1920, 1080);
    let out = finalize(vec![el(500, 500, 40, 16), el(10, 10, 40, 16)], 6, screen);
    assert_eq!(out.len(), 2);
    assert_eq!(out[0].rect.x, 10, "top-left comes first");
}

#[test]
fn finalize_is_stable_and_breaks_ties_left_to_right() {
    let screen = Rect::new(0, 0, 1920, 1080);
    let named = |x: i32, t: &str| Element::new(Rect::new(x, 100, 40, 16), t);
    let out = finalize(
        vec![named(300, "c"), named(100, "a1"), named(100, "a2"), named(200, "b")],
        6,
        screen,
    );
    let texts: Vec<&str> = out.iter().map(|e| e.text.as_str()).collect();
    assert_eq!(texts, vec!["a1", "a2", "b", "c"]);
}

#[test]
fn finalize_keeps_the_least_size() {
    let screen = Rect::new(0, 0, 1920, 1080);
    assert_eq!(finalize(vec![el(1, 1, 6, 6)], 6, screen).len(), 1);
    assert_eq!(finalize(vec![el(1, 1, 5, 6)], 6, screen).len(), 0);
    assert_eq!(finalize(vec![el(1, 1, 6, 5)], 6, screen).len(), 0);
    // Partly on screen is enough.
    assert_eq!(finalize(vec![el(-5, -5, 6, 6)], 6, screen).len(), 1);
}

struct Two;

impl Detector for Two {
    fn detect(&self, _screen: &Screen) -> Result<Vec<Element>> {
        Ok(vec![el(0, 0, 10, 10), el(20, 0, 10, 10)])
    }
    fn name(&self) -> &'static str {
        "two"
    }
}

struct Broken;

impl Detector for Broken {
    fn detect(&self, _screen: &Screen) -> Result<Vec<Element>> {
        Err(Error::Ocr("broken".to_string()))
    }
    fn name(&self) -> &'static str {
        "broken"
    }
}

#[test]
fn a_plain_detector_has_nothing_pending() {
    let screen = Screen::from_raw(Rect::new(0, 0, 1, 1), vec![0; 4], 4, 4);
    let scan = Two.detect_split(&screen).unwrap();
    assert_eq!(scan.ready.len(), 2);
    assert!(scan.pending.is_none());
    assert_eq!(Two.detect_phrases(&screen).unwrap().len(), 2);
    assert!(Broken.detect_split(&screen).is_err());
    assert!(Broken.detect_phrases(&screen).is_err());
    assert_eq!(Broken.name(), "broken");
}
