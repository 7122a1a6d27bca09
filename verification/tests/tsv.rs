use mole::detect::ocr::phrase::Word;
use mole::detect::ocr::tsv;
use mole::detect::Element;
use mole::geometry::Rect;

const HEADER: &str =
    "level\tpage_num\tblock_num\tpar_num\tline_num\tword_num\tleft\ttop\twidth\theight\tconf\ttext";

/// Which rows are confident enough.
fn confident(text: &str, min_confidence: f32) -> Vec<bool> {
    tsv::confidences(text)
        .iter()
        .map(|c| {
            let conf: f32 = c.parse().unwrap_or(-1.0);
            !(conf < min_confidence)
        })
        .collect()
}

fn parse(text: &str, region: Rect, min_confidence: f32) -> Vec<Word> {
    tsv::parse(text, region, &confident(text, min_confidence))
}

fn parse_tsv(text: &str, region: Rect) -> Vec<Element> {
    tsv::parse_tsv(text, region, &confident(text, 50.0))
}

#[test]
fn keeps_confident_words_and_offsets_to_screen() {
    let tsv = format!(
        "{HEADER}\n\
         1\t1\t0\t0\t0\t0\t0\t0\t1920\t1080\t-1\t\n\
         5\t1\t1\t1\t1\t1\t10\t20\t40\t12\t96\tFile\n\
         5\t1\t1\t1\t1\t2\t60\t20\t40\t12\t30\tlowconf\n\
         5\t1\t1\t1\t1\t3\t120\t20\t10\t12\t99\t   "
    );
    let words = parse(&tsv, Rect::new(100, 200, 1920, 1080), 50.0);
    assert_eq!(words.len(), 1, "only the confident, non-blank word");
    assert_eq!(words[0].text, "File");
    assert_eq!(words[0].rect, Rect::new(110, 220, 40, 12));
}

#[test]
fn confidence_threshold_is_honoured() {
    let tsv = format!("{HEADER}\n5\t1\t1\t1\t1\t1\t10\t20\t40\t12\t40\tmeh");
    assert!(parse(&tsv, Rect::new(0, 0, 100, 100), 50.0).is_empty());
    assert_eq!(parse(&tsv, Rect::new(0, 0, 100, 100), 30.0).len(), 1);
}

#[test]
fn empty_tsv_is_no_words() {
    assert!(parse("", Rect::new(0, 0, 100, 100), 50.0).is_empty());
}

#[test]
fn parses_word_rows_and_offsets_to_screen() {
    let tsv = "level\tpage_num\tblock_num\tpar_num\tline_num\tword_num\tleft\ttop\twidth\theight\tconf\ttext\n\
               1\t1\t0\t0\t0\t0\t0\t0\t1920\t1080\t-1\t\n\
               5\t1\t1\t1\t1\t1\t10\t20\t40\t12\t96\tFile\n\
               5\t1\t1\t1\t1\t2\t60\t20\t40\t12\t30\tlowconf\n\
               5\t1\t1\t1\t1\t3\t120\t20\t10\t12\t99\t   ";
    let els = parse_tsv(tsv, Rect::new(100, 200, 1920, 1080));
    assert_eq!(els.len(), 1, "only the high-confidence non-blank word");
    assert_eq!(els[0].text, "File");
    // Offset by the region origin.
    assert_eq!(els[0].rect, Rect::new(110, 220, 40, 12));
}

#[test]
fn empty_tsv_is_no_elements() {
    assert!(parse_tsv("", Rect::new(0, 0, 100, 100)).is_empty());
}

#[test]
fn columns_are_found_by_name() {
    let tsv = "text\tconf\theight\twidth\ttop\tleft\tlevel\nhi\t90\t4\t3\t2\t1\t5\n";
    let words = parse(tsv, Rect::new(0, 0, 10, 10), 50.0);
    assert_eq!(words.len(), 1);
    assert_eq!(words[0].text, "hi");
    assert_eq!(words[0].rect, Rect::new(1, 2, 3, 4));
}

#[test]
fn a_missing_column_means_no_words() {
    let tsv = "level\tleft\ttop\twidth\theight\ttext\n5\t1\t2\t3\t4\thi\n";
    assert!(parse(tsv, Rect::new(0, 0, 10, 10), 0.0).is_empty());
    assert!(tsv::confidences(tsv).is_empty());
}

#[test]
fn rows_that_do_not_parse_are_skipped() {
    let row = |left: &str, text: &str| {
        format!("{HEADER}\n5\t1\t1\t1\t1\t1\t{left}\t20\t40\t12\t96\t{text}")
    };
    let region = Rect::new(10, 0, 100, 100);
    assert_eq!(parse(&row("+7", "x"), region, 50.0)[0].rect.x, 17);
    assert_eq!(parse(&row("-7", "x"), region, 50.0)[0].rect.x, 3);
    assert!(parse(&row("7.5", "x"), region, 50.0).is_empty());
    assert!(parse(&row("", "x"), region, 50.0).is_empty());
    assert!(parse(&row("2147483648", "x"), region, 50.0).is_empty());
    // A position that no coordinate can hold.
    assert!(parse(&row("2147483647", "x"), region, 50.0).is_empty());
    // A row that is cut short, and one of another level.
    let short = format!("{HEADER}\n5\t1\t1\t1\t1\t1\t7\t20\t40\t12\t96");
    assert!(parse(&short, region, 50.0).is_empty());
    let other = format!("{HEADER}\n4\t1\t1\t1\t1\t1\t7\t20\t40\t12\t96\tx");
    assert!(parse(&other, region, 50.0).is_empty());
}

#[test]
fn texts_are_trimmed_and_lines_may_end_either_way() {
    let tsv = format!("{HEADER}\r\n5\t1\t1\t1\t1\t1\t1\t2\t3\t4\t96.5\t \u{a0}hi there \r\n");
    let words = parse(&tsv, Rect::new(0, 0, 10, 10), 50.0);
    assert_eq!(words.len(), 1);
    assert_eq!(words[0].text, "hi there");
    assert_eq!(tsv::confidences(&tsv), vec!["96.5"]);
}

#[test]
fn an_unreadable_confidence_is_too_low() {
    let tsv = format!("{HEADER}\n5\t1\t1\t1\t1\t1\t1\t2\t3\t4\tnope\thi");
    assert!(parse(&tsv, Rect::new(0, 0, 10, 10), 0.0).is_empty());
}

#[test]
fn a_stricter_threshold_only_drops_words() {
    let mut tsv = HEADER.to_string();
    for i in 0..50 {
        tsv.push_str(&format!("\n5\t1\t1\t1\t1\t1\t{i}\t2\t3\t4\t{}\tw{i}", (i * 7) % 100));
    }
    let region = Rect::new(0, 0, 100, 100);
    let mut last = parse(&tsv, region, 0.0);
    assert_eq!(last.len(), 50);
    for min in [10.0, 40.0, 80.0, 99.0] {
        let words = parse(&tsv, region, min);
        assert!(words.len() < last.len());
        assert!(words.iter().all(|w| last.contains(w)));
        last = words;
    }
}

#[test]
fn words_move_with_the_region() {
    let tsv = format!("{HEADER}\n5\t1\t1\t1\t1\t1\t10\t20\t40\t12\t96\tFile");
    let here = parse(&tsv, Rect::new(0, 0, 100, 100), 50.0);
    let there = parse(&tsv, Rect::new(-300, 70, 100, 100), 50.0);
    assert_eq!(here[0].rect, Rect::new(10, 20, 40, 12));
    assert_eq!(there[0].rect, Rect::new(-290, 90, 40, 12));
    assert_eq!(here[0].text, there[0].text);
}
