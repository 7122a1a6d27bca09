use mole::detect::ocr::phrase::{group, Grouping, Word};
use mole::geometry::Rect;

/// A word `height` tall on a given baseline, `width` px wide at `x`.
fn word(x: i32, y: i32, width: i32, height: i32, text: &str) -> Word {
    Word::new(Rect::new(x, y, width, height), text)
}

/// The limits that the two factors give for every text height up to 200 pixels.
fn limits(line_tolerance: f64, max_word_gap: f64) -> Grouping {
    Grouping {
        line_tolerance: (0..200).map(|h| (line_tolerance * h as f64) as i32).collect(),
        max_word_gap: (0..200).map(|h| (max_word_gap * h as f64) as i32).collect(),
    }
}

/// Generous defaults: words within ~one text-height gap join.
fn grouping() -> Grouping {
    limits(0.5, 1.0)
}

#[test]
fn adjacent_words_on_a_line_become_one_phrase() {
    // "Hello" then "World" with a normal space between them.
    let words = vec![
        word(10, 100, 50, 16, "Hello"),
        word(66, 100, 50, 16, "World"),
    ];
    let out = group(words, &grouping());
    assert_eq!(out.len(), 1);
    assert_eq!(out[0].text, "Hello World");
    // Box spans from the first word's left to the second word's right.
    assert_eq!(out[0].rect, Rect::new(10, 100, 106, 16));
}

#[test]
fn a_wide_gap_splits_into_separate_phrases() {
    // Two columns far apart on the same line: a menu bar entry and a clock.
    let words = vec![word(10, 20, 40, 16, "File"), word(900, 20, 60, 16, "12:00")];
    let out = group(words, &grouping());
    assert_eq!(out.len(), 2, "the column gap breaks the phrase");
    assert_eq!(out[0].text, "File");
    assert_eq!(out[1].text, "12:00");
}

#[test]
fn different_lines_never_merge() {
    let words = vec![
        word(10, 100, 50, 16, "top"),
        word(10, 200, 50, 16, "bottom"),
    ];
    let out = group(words, &grouping());
    assert_eq!(out.len(), 2);
    // Reading order: the higher line comes first.
    assert_eq!(out[0].text, "top");
    assert_eq!(out[1].text, "bottom");
}

#[test]
fn slightly_skewed_words_still_share_a_line() {
    // Baselines off by 2px (sub-pixel OCR jitter) on 16px text.
    let words = vec![
        word(10, 100, 40, 16, "a"),
        word(54, 102, 40, 16, "b"),
        word(98, 99, 40, 16, "c"),
    ];
    let out = group(words, &grouping());
    assert_eq!(out.len(), 1);
    assert_eq!(out[0].text, "a b c");
}

#[test]
fn max_word_gap_zero_keeps_words_separate() {
    // With no tolerance for gaps, even a normal space splits words.
    let g = limits(0.5, 0.0);
    let words = vec![
        word(10, 100, 50, 16, "Hello"),
        word(66, 100, 50, 16, "World"),
    ];
    let out = group(words, &g);
    assert_eq!(out.len(), 2);
}

#[test]
fn blank_and_degenerate_words_are_dropped() {
    let words = vec![
        word(10, 100, 50, 16, "   "), // whitespace only
        word(70, 100, 0, 16, "zero"), // zero width
        word(80, 100, 50, 16, "real"),
    ];
    let out = group(words, &grouping());
    assert_eq!(out.len(), 1);
    assert_eq!(out[0].text, "real");
}

#[test]
fn no_words_yields_no_phrases() {
    assert!(group(vec![], &grouping()).is_empty());
}

#[test]
fn the_gap_limit_is_the_text_height() {
    let pair = |gap: i32| {
        group(vec![word(0, 0, 50, 16, "a"), word(50 + gap, 0, 50, 16, "b")], &grouping()).len()
    };
    assert_eq!(pair(16), 1);
    assert_eq!(pair(17), 2);
}

#[test]
fn the_line_limit_is_half_the_lower_text_height() {
    let pair = |dy: i32| {
        group(vec![word(0, 100, 50, 16, "a"), word(55, 100 + dy, 50, 16, "b")], &grouping()).len()
    };
    assert_eq!(pair(8), 1);
    assert_eq!(pair(9), 2);
}

#[test]
fn a_line_is_judged_by_its_mean_centre() {
    // Centres at 108, 114 and 119: the third is 8 from the mean 111, though 11
    // from the first.
    let words = vec![
        word(0, 100, 40, 16, "a"),
        word(45, 106, 40, 16, "b"),
        word(90, 111, 40, 16, "c"),
    ];
    assert_eq!(group(words, &grouping()).len(), 1);
}

#[test]
fn words_are_read_left_to_right_whatever_their_order() {
    let words = vec![
        word(120, 101, 50, 16, "three"),
        word(10, 102, 50, 16, "one"),
        word(65, 100, 50, 16, "two"),
    ];
    let out = group(words, &grouping());
    assert_eq!(out.len(), 1);
    assert_eq!(out[0].text, "one two three");
    assert_eq!(out[0].rect, Rect::new(10, 100, 160, 18));
}

#[test]
fn no_word_is_lost_or_doubled() {
    let mut words = Vec::new();
    for i in 0..60 {
        words.push(word((i * 37) % 500, (i * 53) % 300, 20, 10, &format!("w{i}")));
    }
    let out = group(words, &grouping());
    let mut seen: Vec<String> = out
        .iter()
        .flat_map(|e| e.text.split(' ').map(|s| s.to_string()).collect::<Vec<_>>())
        .collect();
    seen.sort();
    let mut all: Vec<String> = (0..60).map(|i| format!("w{i}")).collect();
    all.sort();
    assert_eq!(seen, all);
}
