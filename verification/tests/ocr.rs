use mole::config::Config;
use mole::detect::ocr::cache::Band;
use mole::detect::ocr::phrase::{Grouping, Word};
use mole::detect::ocr::{
    dedup_words, mostly_changed, overlap_fraction, plan_bands, ready_words, strip_region,
    threads_per_band, Cancel, OcrDetector,
};
use mole::geometry::Rect;

#[test]
fn bands_cover_the_whole_height_with_overlap() {
    let bands = plan_bands(1000, 4, 80);
    assert_eq!(bands.len(), 4);
    // First strip starts at the top, last reaches the bottom.
    assert_eq!(bands[0].0, 0);
    let (last_y, last_h) = *bands.last().unwrap();
    assert_eq!(last_y + last_h, 1000);
    // Every pixel row is covered by at least one strip.
    for y in 0..1000 {
        assert!(
            bands.iter().any(|&(y0, h)| y >= y0 && y < y0 + h),
            "row {y} is in no strip"
        );
    }
    // Adjacent strips actually overlap.
    assert!(
        bands[0].1 > 1000 / 4,
        "first strip should be grown by overlap"
    );
}

#[test]
fn bands_drop_empties_when_tiles_exceed_height() {
    let bands = plan_bands(3, 8, 80);
    assert!(!bands.is_empty());
    assert!(bands.len() <= 3, "no empty strips past the last useful row");
    let (last_y, last_h) = *bands.last().unwrap();
    assert_eq!(last_y + last_h, 3);
}

#[test]
fn dedup_removes_overlapping_same_text() {
    let words = vec![
        Word::new(Rect::new(10, 10, 40, 12), "File"),
        // Same word seen again in the next strip, shifted a couple px.
        Word::new(Rect::new(11, 11, 40, 12), "File"),
        // Different word at the same spot stays.
        Word::new(Rect::new(10, 10, 40, 12), "Edit"),
        // Same text far away stays.
        Word::new(Rect::new(500, 400, 40, 12), "File"),
    ];
    let out = dedup_words(words);
    assert_eq!(out.len(), 3);
    assert_eq!(out.iter().filter(|w| w.text == "File").count(), 2);
}

/// The overlap as a fraction; nothing overlaps an empty box.
fn fraction(a: Rect, b: Rect) -> f64 {
    let (inter, smaller) = overlap_fraction(a, b);
    if smaller == 0 {
        0.0
    } else {
        inter as f64 / smaller as f64
    }
}

#[test]
fn overlap_fraction_detects_containment() {
    let a = Rect::new(0, 0, 100, 100);
    let b = Rect::new(10, 10, 20, 20); // fully inside a
    assert_eq!(fraction(a, b), 1.0);
    let c = Rect::new(200, 200, 10, 10); // disjoint
    assert_eq!(fraction(a, c), 0.0);
}

#[test]
fn strips_are_exact() {
    assert_eq!(plan_bands(1000, 4, 80), vec![(0, 330), (170, 410), (420, 410), (670, 330)]);
    assert_eq!(plan_bands(3, 8, 0), vec![(0, 1), (1, 1), (2, 1)]);
    assert_eq!(plan_bands(10, 0, 5), vec![(0, 10)]);
    assert!(plan_bands(0, 4, 80).is_empty());
    assert!(plan_bands(-3, 4, 80).is_empty());
}

#[test]
fn a_line_on_a_cut_is_whole_in_one_strip() {
    for tiles in 1..12 {
        let bands = plan_bands(997, tiles, 40);
        assert!(bands.len() <= tiles);
        for top in 0..(997 - 40) {
            assert!(bands.iter().any(|&(y0, h)| y0 <= top && top + 40 <= y0 + h));
        }
    }
}

#[test]
fn dedup_keeps_the_fuller_word_and_needs_more_than_half() {
    // The smaller box comes first but the larger one survives.
    let out = dedup_words(vec![
        Word::new(Rect::new(0, 0, 10, 10), "a"),
        Word::new(Rect::new(0, 0, 10, 20), "a"),
    ]);
    assert_eq!(out.len(), 1);
    assert_eq!(out[0].rect, Rect::new(0, 0, 10, 20));
    // Exactly half of the smaller box is not a repetition; one more row is.
    let pair = |shift: i32| {
        dedup_words(vec![
            Word::new(Rect::new(0, 0, 10, 10), "a"),
            Word::new(Rect::new(0, shift, 10, 10), "a"),
        ])
        .len()
    };
    assert_eq!(pair(5), 2);
    assert_eq!(pair(4), 1);
}

#[test]
fn threads_are_shared_among_the_strips() {
    assert_eq!(threads_per_band(16, 4), 4);
    assert_eq!(threads_per_band(2, 4), 1);
    assert_eq!(threads_per_band(8, 0), 8);
    assert_eq!(threads_per_band(0, 0), 1);
}

fn grouping(heights: usize) -> Grouping {
    Grouping {
        line_tolerance: (0..heights).map(|h| (0.5 * h as f64) as i32).collect(),
        max_word_gap: (0..heights).map(|h| h as i32).collect(),
    }
}

#[test]
fn the_detector_follows_the_configuration() {
    let mut config = Config::default();
    config.ocr.tiles = 0;
    config.ocr.language = "deu".to_string();
    let d = OcrDetector::new(&config, grouping(1));
    assert_eq!(d.name(), "ocr");
    assert_eq!(d.tiles, 1, "at least one strip");
    assert_eq!(d.tesseract.binary, "tesseract");
    assert_eq!(d.tesseract.language, "deu");
    assert_eq!(d.min_element_size, 6);
    assert_eq!(d.min_confidence, config.ocr.min_confidence);
    assert_eq!(d.strips(100), vec![(0, 100)]);
}

#[test]
fn strips_merge_into_phrases_in_reading_order() {
    let d = OcrDetector::new(&Config::default(), grouping(100));
    let words = d.merge(vec![
        vec![
            Word::new(Rect::new(66, 100, 50, 16), "World"),
            Word::new(Rect::new(10, 300, 50, 16), "below"),
        ],
        vec![
            Word::new(Rect::new(10, 100, 50, 16), "Hello"),
            // Seen by both strips.
            Word::new(Rect::new(10, 301, 50, 16), "below"),
            // Too small to hint.
            Word::new(Rect::new(500, 500, 5, 5), "tiny"),
        ],
    ]);
    assert_eq!(words.len(), 4);
    let out = d.elements(words, Rect::new(0, 0, 800, 600));
    let texts: Vec<&str> = out.iter().map(|e| e.text.as_str()).collect();
    assert_eq!(texts, vec!["Hello World", "below"]);
    assert_eq!(out[0].rect, Rect::new(10, 100, 106, 16));
}

#[test]
fn one_pass_takes_the_words_as_they_come() {
    let mut config = Config::default();
    config.ocr.tiles = 1;
    let d = OcrDetector::new(&config, grouping(100));
    let twice = vec![
        Word::new(Rect::new(10, 10, 4, 4), "small"),
        Word::new(Rect::new(10, 10, 40, 12), "File"),
        Word::new(Rect::new(11, 11, 40, 12), "File"),
    ];
    assert_eq!(d.merge(vec![twice.clone()]), twice);
}

#[test]
fn a_strip_lies_below_the_top_of_its_region() {
    assert_eq!(
        strip_region(Rect::new(5, 7, 100, 80), 30, 20),
        Rect::new(5, 37, 100, 20)
    );
}

#[test]
fn half_the_screen_is_the_limit_of_a_localised_change() {
    let band = |h: i32| vec![Band { x0: 0, y0: 0, w: 100, h }];
    assert!(!mostly_changed(&band(50), 100, 100));
    assert!(mostly_changed(&band(51), 100, 100));
    assert!(!mostly_changed(&vec![], 100, 100));
}

#[test]
fn words_outside_the_bands_are_ready() {
    let bands = vec![
        Band { x0: 0, y0: 0, w: 100, h: 20 },
        Band { x0: 0, y0: 60, w: 100, h: 20 },
    ];
    let words = vec![
        Word::new(Rect::new(10, 5, 4, 4), "a"),
        Word::new(Rect::new(10, 40, 4, 4), "b"),
        Word::new(Rect::new(10, 65, 4, 4), "c"),
        Word::new(Rect::new(10, 95, 4, 4), "d"),
    ];
    let ready = ready_words(words, &bands, (0, 0));
    let texts: Vec<&str> = ready.iter().map(|w| w.text.as_str()).collect();
    assert_eq!(texts, vec!["b", "d"]);
}

#[test]
fn abort_then_reset_flips_the_flag() {
    let mut c = Cancel::new();
    assert!(!c.aborted());
    c.abort();
    assert!(c.aborted());
    c.reset();
    assert!(!c.aborted());
}

#[test]
fn unregister_after_abort_is_harmless() {
    let mut c = Cancel::new();
    // An id that was never (or no longer) registered: removing it is a no-op.
    c.abort();
    c.unregister(42);
    assert!(c.aborted());
}

#[test]
fn an_abort_names_every_running_child() {
    let mut c = Cancel::default();
    let (a, now_a) = c.register();
    let (b, now_b) = c.register();
    assert_eq!((a, b), (0, 1));
    assert!(!now_a && !now_b);
    c.unregister(a);
    assert_eq!(c.abort(), vec![b]);
    // A child that starts after the abort has to go at once.
    let (late, now) = c.register();
    assert_eq!(late, 2);
    assert!(now);
}

#[test]
fn dedup_gives_some_of_the_words_largest_first() {
    let words: Vec<Word> = (0..40)
        .map(|i| Word::new(Rect::new((i * 7) % 50, (i * 11) % 40, 5 + i % 9, 5 + i % 4), "w"))
        .collect();
    let kept = dedup_words(words.clone());
    assert!(kept.len() < words.len());
    assert!(kept.windows(2).all(|p| p[0].rect.area() >= p[1].rect.area()));
    let times = |v: &[Word], w: &Word| v.iter().filter(|x| *x == w).count();
    assert!(kept.iter().all(|w| times(&kept, w) <= times(&words, w)));
}
