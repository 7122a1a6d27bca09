use mole::detect::ocr::cache::{Band, ScanCache, BAND_MARGIN, CELL};
use mole::detect::ocr::phrase::Word;
use mole::geometry::Rect;

const W: i32 = 1000;
const H: i32 = 800;
const TILES: usize = 4;

fn rgb(width: i32, height: i32) -> Vec<u8> {
    let (w, h) = (width as usize, height as usize);
    let mut v = vec![0u8; w * h * 3];
    for (i, b) in v.iter_mut().enumerate() {
        *b = (i % 251) as u8;
    }
    v
}

/// Run a scan: plan the bands and fake an OCR result for each (one word per
/// band, tagged with its y), returning the bands planned.
fn scan(c: &mut ScanCache, buf: &[u8], w: i32, h: i32) -> Vec<Band> {
    let bands = c.plan(buf, w, h, TILES, 20);
    for &b in &bands {
        c.splice(
            buf,
            (0, 0),
            b,
            vec![Word::new(Rect::new(0, b.y0, 5, 5), "x")],
        );
    }
    bands
}

/// Rewrite rows `[y0, y1)` of `buf` so they read as genuinely changed.
fn rewrite_rows(buf: &mut [u8], w: i32, y0: usize, y1: usize) {
    let row = w as usize * 3;
    for b in &mut buf[y0 * row..y1 * row] {
        *b = b.wrapping_add(97);
    }
}

#[test]
fn cold_scan_covers_the_whole_screen_in_tiles() {
    let mut c = ScanCache::new();
    assert_eq!(scan(&mut c, &rgb(W, H), W, H).len(), TILES);
}

#[test]
fn unchanged_screen_reads_nothing() {
    let mut c = ScanCache::new();
    let buf = rgb(W, H);
    scan(&mut c, &buf, W, H);
    assert!(scan(&mut c, &buf, W, H).is_empty());
}

#[test]
fn tiny_localised_change_is_ignored() {
    let mut c = ScanCache::new();
    let buf = rgb(W, H);
    scan(&mut c, &buf, W, H);
    let mut tweaked = buf.clone();
    let row = W as usize * 3;
    for dx in 0..3 {
        tweaked[300 * row + dx * 3] ^= 0xff; // a "caret"
    }
    for y in 600..630 {
        for x in 500..520 {
            tweaked[y * row + x * 3] ^= 0xff; // a "clock digit"
        }
    }
    assert!(scan(&mut c, &tweaked, W, H).is_empty());
}

#[test]
fn a_real_change_reads_only_a_tight_band() {
    let mut c = ScanCache::new();
    let buf = rgb(W, H);
    scan(&mut c, &buf, W, H);
    // Rewrite rows 400..480 (a chat message appearing).
    let mut tweaked = buf.clone();
    rewrite_rows(&mut tweaked, W, 400, 480);
    let bands = c.plan(&tweaked, W, H, TILES, 20);
    assert_eq!(bands.len(), 1, "one contiguous change -> one band");
    // The band is tight: it covers the change plus margin, not the whole screen.
    assert!(bands[0].y0 <= 400 && bands[0].y0 >= 400 - CELL as i32 - BAND_MARGIN as i32);
    assert!(bands[0].h < H / 2, "band much smaller than the screen");
}

#[test]
fn two_far_apart_changes_are_two_bands() {
    let mut c = ScanCache::new();
    let buf = rgb(W, H);
    scan(&mut c, &buf, W, H);
    let mut tweaked = buf.clone();
    rewrite_rows(&mut tweaked, W, 100, 140);
    rewrite_rows(&mut tweaked, W, 600, 640);
    let bands = c.plan(&tweaked, W, H, TILES, 20);
    assert_eq!(bands.len(), 2);
}

#[test]
fn splice_keeps_words_outside_the_band() {
    let mut c = ScanCache::new();
    let buf = rgb(W, H);
    // Cold scan to establish a baseline (only splicing adopts it now).
    let cold = c.plan(&buf, W, H, TILES, 20);
    for &b in &cold {
        c.splice(&buf, (0, 0), b, vec![]);
    }
    // Seed with words at known rows across the screen.
    c.words = vec![
        Word::new(Rect::new(0, 50, 5, 5), "top"),
        Word::new(Rect::new(0, 430, 5, 5), "middle"),
        Word::new(Rect::new(0, 700, 5, 5), "bottom"),
    ];
    // A change at rows 400..460 replaces only "middle".
    let mut tweaked = buf.clone();
    rewrite_rows(&mut tweaked, W, 400, 460);
    let bands = c.plan(&tweaked, W, H, TILES, 20);
    for &b in &bands {
        c.splice(
            &tweaked,
            (0, 0),
            b,
            vec![Word::new(Rect::new(0, 430, 5, 5), "new")],
        );
    }
    let words = c.all_words();
    let texts: Vec<&str> = words.iter().map(|w| w.text.as_str()).collect();
    assert!(texts.contains(&"top") && texts.contains(&"bottom"));
    assert!(texts.contains(&"new") && !texts.contains(&"middle"));
}

#[test]
fn an_unspliced_scan_does_not_adopt_the_baseline() {
    // A scan that plans bands but is aborted before any splice must leave the
    // baseline untouched, so the same change is re-planned next time rather
    // than silently treated as already-read.
    let mut c = ScanCache::new();
    let buf = rgb(W, H);
    scan(&mut c, &buf, W, H); // establish a baseline

    let mut tweaked = buf.clone();
    rewrite_rows(&mut tweaked, W, 400, 480);
    let first = c.plan(&tweaked, W, H, TILES, 20);
    assert_eq!(first.len(), 1, "the change is planned once");
    // Abort: no splice happens. The next plan over the same pixels must still
    // see the change (baseline was not moved).
    let again = c.plan(&tweaked, W, H, TILES, 20);
    assert_eq!(
        again.len(),
        1,
        "an un-spliced change is re-planned, not lost"
    );
}

#[test]
fn resize_forces_a_cold_scan() {
    let mut c = ScanCache::new();
    scan(&mut c, &rgb(W, H), W, H);
    assert_eq!(scan(&mut c, &rgb(1200, 600), 1200, 600).len(), TILES);
}

/// A tall head on the left beside a shorter one on the right, leaving the
/// bottom-right of the bounding box a void no monitor covers.
fn mismatched_heads() -> Vec<Rect> {
    vec![Rect::new(0, 0, 600, 800), Rect::new(600, 0, 400, 500)]
}

/// True when a band reaches into the void beside the shorter monitor: the
/// region (x ≥ 600, y ≥ 500).
fn enters_void(b: &Band) -> bool {
    b.x0 + b.w > 600 && b.y0 + b.h > 500
}

#[test]
fn cold_scan_tiles_each_monitor_and_skips_the_void() {
    let mut c = ScanCache::new();
    c.set_monitors(mismatched_heads());
    let bands = c.plan(&rgb(1000, 800), 1000, 800, TILES, 20);
    // Every band sits within exactly one head (full head width, inside its
    // height), never the full 1000px bounding-box width.
    for b in &bands {
        let in_left = b.x0 == 0 && b.w == 600 && b.y0 + b.h <= 800;
        let in_right = b.x0 == 600 && b.w == 400 && b.y0 + b.h <= 500;
        assert!(in_left || in_right, "band {b:?} escaped its monitor");
        assert!(!enters_void(b), "band {b:?} reaches into the void");
    }
    // Both heads are actually tiled, not just one.
    assert!(bands.iter().any(|b| b.x0 == 0));
    assert!(bands.iter().any(|b| b.x0 == 600));
}

#[test]
fn a_change_below_a_short_monitor_stays_within_the_tall_one() {
    let mut c = ScanCache::new();
    c.set_monitors(mismatched_heads());
    let buf = rgb(1000, 800);
    let cold = c.plan(&buf, 1000, 800, TILES, 20);
    for &b in &cold {
        c.splice(&buf, (0, 0), b, vec![]);
    }
    // A change at rows 600..640, below the short head, so only the tall head
    // covers it. The re-read band must be the tall head's width, never wider.
    let mut tweaked = buf.clone();
    rewrite_rows(&mut tweaked, 1000, 600, 640);
    let bands = c.plan(&tweaked, 1000, 800, TILES, 20);
    assert!(!bands.is_empty(), "the change is re-read");
    for b in &bands {
        assert_eq!(
            (b.x0, b.w),
            (0, 600),
            "band {b:?} not confined to the tall head"
        );
        assert!(!enters_void(b));
    }
}

#[test]
fn churn_in_the_void_alone_triggers_no_re_read() {
    let mut c = ScanCache::new();
    c.set_monitors(mismatched_heads());
    let buf = rgb(1000, 800);
    let cold = c.plan(&buf, 1000, 800, TILES, 20);
    for &b in &cold {
        c.splice(&buf, (0, 0), b, vec![]);
    }
    // Scribble all over the void (x ≥ 600, y ≥ 500), the undefined region the
    // server fills with noise every frame. No monitor covers it, so a scan
    // must ignore it entirely rather than re-OCR a phantom band.
    let mut tweaked = buf.clone();
    let row = 1000usize * 3;
    for y in 500..800 {
        for x in 600..1000 {
            tweaked[y * row + x * 3] ^= 0xff;
        }
    }
    assert!(
        c.plan(&tweaked, 1000, 800, TILES, 20).is_empty(),
        "void churn must not force a re-read"
    );
}

/// A capture of 288 x 192 (3 x 2 cells) that has been read.
fn small() -> (ScanCache, Vec<u8>) {
    let mut c = ScanCache::new();
    let buf = rgb(288, 192);
    scan(&mut c, &buf, 288, 192);
    (c, buf)
}

/// Change the first `n` pixels, row by row, of the cell in column `cx` of row
/// `cy`.
fn touch(buf: &mut [u8], cx: usize, cy: usize, n: usize) {
    for k in 0..n {
        let (x, y) = (cx * 96 + k % 96, cy * 96 + k / 96);
        buf[(y * 288 + x) * 3 + 1] ^= 0x55;
    }
}

#[test]
fn a_cell_changes_beyond_460_pixels_and_a_scan_beyond_two_cells() {
    let (mut c, buf) = small();
    // Three cells, each just at the threshold: nothing.
    let mut quiet = buf.clone();
    for cx in 0..3 {
        touch(&mut quiet, cx, 0, 460);
    }
    assert!(c.plan(&quiet, 288, 192, TILES, 20).is_empty());
    // Two cells beyond it: still noise.
    let mut noise = buf.clone();
    for cx in 0..2 {
        touch(&mut noise, cx, 0, 461);
    }
    assert!(c.plan(&noise, 288, 192, TILES, 20).is_empty());
    // Three cells beyond it: the row of cells and a margin below.
    let mut real = buf.clone();
    for cx in 0..3 {
        touch(&mut real, cx, 0, 461);
    }
    assert_eq!(
        c.plan(&real, 288, 192, TILES, 20),
        vec![Band { x0: 0, y0: 0, w: 288, h: 160 }]
    );
}

#[test]
fn cold_strips_are_exact() {
    let mut c = ScanCache::new();
    assert_eq!(
        c.plan(&rgb(10, 100), 10, 100, 4, 10),
        vec![
            Band { x0: 0, y0: 0, w: 10, h: 35 },
            Band { x0: 0, y0: 15, w: 10, h: 45 },
            Band { x0: 0, y0: 40, w: 10, h: 45 },
            Band { x0: 0, y0: 65, w: 10, h: 35 },
        ]
    );
}

#[test]
fn a_large_change_is_split_into_overlapping_pieces() {
    let mut c = ScanCache::new();
    let buf = rgb(W, H);
    scan(&mut c, &buf, W, H);
    let mut other = buf.clone();
    rewrite_rows(&mut other, W, 0, 800);
    // 800 rows in chunks of at most 384: three pieces of 267 plus the overlap.
    assert_eq!(
        c.plan(&other, W, H, TILES, 20),
        vec![
            Band { x0: 0, y0: 0, w: W, h: 287 },
            Band { x0: 0, y0: 247, w: W, h: 307 },
            Band { x0: 0, y0: 514, w: W, h: 286 },
        ]
    );
}

#[test]
fn rereading_settles_the_cache() {
    let mut c = ScanCache::new();
    let buf = rgb(W, H);
    scan(&mut c, &buf, W, H);
    let mut other = buf.clone();
    rewrite_rows(&mut other, W, 100, 140);
    rewrite_rows(&mut other, W, 600, 700);
    assert!(!scan(&mut c, &other, W, H).is_empty());
    assert!(scan(&mut c, &other, W, H).is_empty());
}

#[test]
fn invalidating_forces_a_cold_scan() {
    let (mut c, buf) = small();
    c.invalidate();
    assert_eq!(c.plan(&buf, 288, 192, TILES, 20).len(), TILES);
    assert!(c.all_words().is_empty());
}

#[test]
fn splicing_moves_only_the_band() {
    let (mut c, buf) = small();
    let mut other = buf.clone();
    for b in other.iter_mut() {
        *b = b.wrapping_add(1);
    }
    let band = Band { x0: 10, y0: 20, w: 30, h: 40 };
    c.splice(&other, (0, 0), band, vec![]);
    for y in 0..192usize {
        for x in 0..288usize {
            let inside = (10..40).contains(&x) && (20..60).contains(&y);
            let i = (y * 288 + x) * 3;
            let expect = if inside { &other } else { &buf };
            assert_eq!(&c.prev[i..i + 3], &expect[i..i + 3]);
        }
    }
}

#[test]
fn splicing_counts_words_from_the_capture_corner() {
    let (mut c, buf) = small();
    c.words = vec![
        Word::new(Rect::new(1010, 2010, 4, 4), "in"),
        Word::new(Rect::new(10, 10, 4, 4), "out"),
    ];
    let band = Band { x0: 0, y0: 0, w: 50, h: 50 };
    c.splice(&buf, (1000, 2000), band, vec![Word::new(Rect::new(0, 0, 1, 1), "new")]);
    let texts: Vec<String> = c.all_words().into_iter().map(|w| w.text).collect();
    assert_eq!(texts, vec!["out", "new"]);
}

#[test]
fn an_empty_screen_has_no_bands() {
    let mut c = ScanCache::default();
    assert!(c.plan(&[], 0, 0, 4, 20).is_empty());
    assert!(c.plan(&[], -5, 10, 4, 20).len() <= 4);
}

#[test]
fn faint_changes_read_nothing() {
    // Every cell of the screen changes, none by more than a twentieth.
    let (mut c, buf) = small();
    let mut faint = buf.clone();
    for cy in 0..2 {
        for cx in 0..3 {
            touch(&mut faint, cx, cy, 460);
        }
    }
    assert!(c.plan(&faint, 288, 192, TILES, 20).is_empty());
}

#[test]
fn rereading_bands_keeps_the_rest_and_leaves_nothing_stale() {
    let (mut c, buf) = small();
    c.words = vec![
        Word::new(Rect::new(10, 10, 4, 4), "old top"),
        Word::new(Rect::new(10, 90, 4, 4), "kept"),
        Word::new(Rect::new(10, 170, 4, 4), "old bottom"),
    ];
    let top = Band { x0: 0, y0: 0, w: 288, h: 50 };
    let bottom = Band { x0: 0, y0: 150, w: 288, h: 42 };
    c.splice(&buf, (0, 0), top, vec![Word::new(Rect::new(10, 12, 4, 4), "new top")]);
    c.splice(&buf, (0, 0), bottom, vec![]);
    let texts: Vec<String> = c.all_words().into_iter().map(|w| w.text).collect();
    assert_eq!(texts, vec!["kept", "new top"]);
}

/// Every pixel of a 1000 x 800 screen in rows `[from, to)` is in some band.
fn covers_rows(bands: &[Band], from: i32, to: i32) -> bool {
    (from..to).all(|y| {
        bands.iter().any(|b| b.x0 == 0 && b.w == W && b.y0 <= y && y < b.y0 + b.h)
    })
}

#[test]
fn an_interrupted_cold_scan_is_taken_up_again() {
    // Read, dropped, and read again in part: the pixels are the same throughout.
    let buf = vec![7u8; 1000 * 800 * 3];
    let mut c = ScanCache::new();
    scan(&mut c, &buf, W, H);
    c.invalidate();
    let bands = c.plan(&buf, W, H, TILES, 20);
    assert_eq!(bands[0], Band { x0: 0, y0: 0, w: W, h: 220 });
    c.splice(&buf, (0, 0), bands[0], vec![Word::new(Rect::new(0, 5, 5, 5), "top")]);
    let again = c.plan(&buf, W, H, TILES, 20);
    assert_eq!(again, bands[1..].to_vec());
    assert!(covers_rows(&again, 220, 800));
    // What was read stays, and once the rest is read nothing is left.
    assert_eq!(c.all_words().len(), 1);
    for b in again {
        c.splice(&buf, (0, 0), b, vec![]);
    }
    assert!(c.plan(&buf, W, H, TILES, 20).is_empty());
    assert_eq!(c.all_words()[0].text, "top");
}

#[test]
fn a_black_screen_is_read_like_any_other() {
    let buf = vec![0u8; 1000 * 800 * 3];
    let mut c = ScanCache::new();
    let bands = c.plan(&buf, W, H, TILES, 20);
    c.splice(&buf, (0, 0), bands[2], vec![]);
    let again = c.plan(&buf, W, H, TILES, 20);
    assert_eq!(again, vec![bands[0], bands[1], bands[3]]);
    // A scan that read nothing at all changes nothing.
    assert_eq!(c.plan(&buf, W, H, TILES, 20), again);
}

#[test]
fn a_change_that_was_read_in_part_is_not_lost_in_the_noise() {
    let (mut c, buf) = small();
    // Three changed cells, one of them read; the other two alone would be noise.
    let mut now = buf.clone();
    for cx in 0..3 {
        touch(&mut now, cx, 0, 461);
    }
    let bands = c.plan(&now, 288, 192, TILES, 20);
    assert_eq!(bands.len(), 1);
    c.splice(&now, (0, 0), Band { x0: 0, y0: 0, w: 96, h: 160 }, vec![]);
    assert_eq!(c.plan(&now, 288, 192, TILES, 20), bands);
}

#[test]
fn a_late_splice_does_not_undo_an_invalidation() {
    let mut c = ScanCache::new();
    let buf = rgb(W, H);
    scan(&mut c, &buf, W, H);
    let mut now = buf.clone();
    rewrite_rows(&mut now, W, 400, 480);
    let bands = c.plan(&now, W, H, TILES, 20);
    c.invalidate();
    c.splice(&now, (0, 0), bands[0], vec![]);
    assert_eq!(c.plan(&now, W, H, TILES, 20).len(), TILES);
}

#[test]
fn a_short_buffer_is_read_as_a_whole_every_time() {
    let mut c = ScanCache::new();
    let bands = c.plan(&[1, 2, 3], W, H, TILES, 20);
    assert_eq!(bands.len(), TILES);
    for b in &bands {
        c.splice(&[1, 2, 3], (0, 0), *b, vec![]);
    }
    assert_eq!(c.plan(&[1, 2, 3], W, H, TILES, 20), bands);
}

#[test]
fn a_line_on_a_cut_of_a_large_change_is_whole_in_one_piece() {
    let mut c = ScanCache::new();
    let buf = rgb(W, H);
    scan(&mut c, &buf, W, H);
    let mut now = buf.clone();
    rewrite_rows(&mut now, W, 0, 800);
    let bands = c.plan(&now, W, H, TILES, 20);
    assert!(bands.len() > 1);
    for top in 0..(800 - 20) {
        assert!(bands.iter().any(|b| b.y0 <= top && top + 20 <= b.y0 + b.h));
    }
}

#[test]
fn another_layout_keeps_the_baseline() {
    let mut c = ScanCache::new();
    let buf = vec![9u8; 3];
    let bands = c.plan(&buf, 1, 1, TILES, 20);
    c.splice(&buf, (0, 0), bands[0], vec![]);
    c.set_monitors(vec![Rect::new(0, 0, 1, 1)]);
    assert!(c.plan(&buf, 1, 1, TILES, 20).is_empty());
}

#[test]
fn waiting_bands_are_fitted_to_another_layout() {
    // Nothing differs from the baseline, so only the waiting bands are planned.
    let mut c = ScanCache::new();
    let buf = vec![0u8; 1000 * 800 * 3];
    let whole = c.plan(&buf, 1000, 800, TILES, 20);
    c.splice(&buf, (0, 0), whole[0], vec![]);
    c.set_monitors(mismatched_heads());
    let bands = c.plan(&buf, 1000, 800, TILES, 20);
    assert_eq!(
        bands,
        vec![
            Band { x0: 0, y0: 180, w: 600, h: 240 },
            Band { x0: 600, y0: 180, w: 400, h: 240 },
            Band { x0: 0, y0: 380, w: 600, h: 240 },
            Band { x0: 600, y0: 380, w: 400, h: 120 },
            Band { x0: 0, y0: 580, w: 600, h: 220 },
        ]
    );
    for &b in &bands {
        c.splice(&buf, (0, 0), b, vec![]);
    }
    assert!(c.plan(&buf, 1000, 800, TILES, 20).is_empty());
}

#[test]
fn waiting_cells_count_towards_the_noise_gate() {
    let (mut c, buf) = small();
    // Three changed cells in the first row are more than noise.
    let mut now = buf.clone();
    for cx in 0..3 {
        touch(&mut now, cx, 0, 461);
    }
    let first = c.plan(&now, 288, 192, TILES, 20);
    assert_eq!(first.len(), 1);
    // The scan is aborted, and one more cell changes in the other row: alone it
    // would be noise.
    touch(&mut now, 0, 1, 461);
    assert_eq!(
        c.plan(&now, 288, 192, TILES, 20),
        vec![Band { x0: 0, y0: 0, w: 288, h: 192 }]
    );
}

#[test]
fn a_partly_read_first_scan_is_planned_by_what_differs() {
    let mut c = ScanCache::new();
    let buf = rgb(W, H);
    let strips = c.plan(&buf, W, H, TILES, 20);
    // Nothing was read: the strips come back as they were.
    assert_eq!(c.plan(&buf, W, H, TILES, 20), strips);
    c.splice(&buf, (0, 0), strips[0], vec![]);
    // Everything below the first strip differs from the empty baseline, and the
    // bands around that hold the other strips.
    let bands = c.plan(&buf, W, H, TILES, 20);
    assert_eq!(bands[0].y0, 128);
    assert!(covers_rows(&bands, 220, 800));
    assert!(strips[1..].iter().all(|s| !bands.contains(s)));
    assert_eq!(c.plan(&buf, W, H, TILES, 20), bands);
}

#[test]
fn only_covered_pixels_matter() {
    let mut c = ScanCache::new();
    c.set_monitors(mismatched_heads());
    let buf = rgb(1000, 800);
    scan(&mut c, &buf, 1000, 800);
    let mut one = buf.clone();
    rewrite_rows(&mut one, 1000, 600, 640);
    let mut other = one.clone();
    for y in 500..800 {
        for x in 600..1000 {
            other[(y * 1000 + x) * 3] ^= 0xff;
        }
    }
    let planned = c.plan(&one, 1000, 800, TILES, 20);
    assert!(!planned.is_empty());
    assert_eq!(c.plan(&other, 1000, 800, TILES, 20), planned);
}

#[test]
fn pieces_are_no_higher_than_a_chunk() {
    let mut c = ScanCache::new();
    let buf = rgb(W, H);
    scan(&mut c, &buf, W, H);
    let mut now = buf.clone();
    rewrite_rows(&mut now, W, 0, 800);
    for b in c.plan(&now, W, H, TILES, 20) {
        assert!(b.h <= 384 + 2 * 20);
    }
}
