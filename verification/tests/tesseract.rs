use mole::capture::Screen;
use mole::detect::ocr::tesseract::{encode_ppm, encode_ppm_band, Exit, Tesseract};
use mole::error::{Error, Result};
use mole::geometry::Rect;

/// Pixel `i`'s RGB, distinct per pixel: `(3i, 3i+1, 3i+2)`.
fn px(i: u8) -> [u8; 3] {
    [i * 3, i * 3 + 1, i * 3 + 2]
}

#[test]
fn encode_crops_a_subrectangle_of_the_buffer() {
    // A 4×2 image, pixels 0..8 left-to-right, top-to-bottom.
    let rgb: Vec<u8> = (0..8u8).flat_map(px).collect();
    // Crop columns [1, 3) over both rows -> a 2×2 band.
    let ppm = encode_ppm_band(&rgb, 4, 1, 0, 2, 2);
    let header = b"P6\n2 2\n255\n";
    assert!(ppm.starts_with(header), "PPM header declares the band size");
    let body = &ppm[header.len()..];
    // Row 0: pixels 1,2 ; row 1: pixels 5,6 — the cropped columns only.
    let expect: Vec<u8> = [1u8, 2, 5, 6].iter().flat_map(|&i| px(i)).collect();
    assert_eq!(body, &expect[..]);
}

#[test]
fn encode_zero_pads_rows_that_fall_off_the_buffer() {
    // Ask for a band taller than the 4×2 buffer: the missing third row must be
    // padded so the emitted image still matches the declared 4×3 size.
    let rgb: Vec<u8> = (0..8u8).flat_map(px).collect();
    let ppm = encode_ppm_band(&rgb, 4, 0, 0, 4, 3);
    let header = b"P6\n4 3\n255\n";
    let body = &ppm[header.len()..];
    assert_eq!(body.len(), 4 * 3 * 3, "exactly width*height*3 bytes");
    assert_eq!(&body[..24], &rgb[..24], "real rows copied verbatim");
    assert!(
        body[24..].iter().all(|&b| b == 0),
        "missing row zero-padded"
    );
}

#[test]
fn rows_outside_the_buffer_are_zero_above_and_below() {
    // Two rows of one pixel: the row above the first is missing.
    let mut expect = b"P6\n1 2\n255\n".to_vec();
    expect.extend([0, 0, 0, 1, 2, 3]);
    assert_eq!(encode_ppm_band(&[1, 2, 3, 4, 5, 6], 1, 0, -1, 1, 2), expect);
    // A row and a half beyond the end.
    let mut expect = b"P6\n1 3\n255\n".to_vec();
    expect.extend([4, 5, 6, 7, 0, 0, 0, 0, 0]);
    assert_eq!(encode_ppm_band(&[1, 2, 3, 4, 5, 6, 7], 1, 0, 1, 1, 3), expect);
}

#[test]
fn a_row_is_copied_from_its_first_column_on() {
    // A 2×2 image: a negative column starts at the first one, and a row that is
    // wider than the image goes on with the next.
    let rgb: Vec<u8> = (1..5u8).flat_map(px).collect();
    let mut expect = b"P6\n3 1\n255\n".to_vec();
    expect.extend([1, 2, 3].iter().flat_map(|&i| px(i)));
    assert_eq!(encode_ppm_band(&rgb, 2, 0, 0, 3, 1), expect);
    assert_eq!(encode_ppm_band(&rgb, 2, -1, 0, 3, 1), expect);
}

#[test]
fn an_empty_band_is_only_a_header() {
    assert_eq!(encode_ppm_band(&[1, 2, 3], 1, 0, 0, 0, 5), b"P6\n0 5\n255\n".to_vec());
    assert_eq!(encode_ppm_band(&[1, 2, 3], 1, 0, 0, -2, -5), b"P6\n-2 -5\n255\n".to_vec());
}

#[test]
fn a_capture_is_encoded_as_rgb() {
    let s = Screen::from_raw(Rect::new(7, 8, 2, 1), vec![1, 2, 3, 0, 4, 5, 6, 0], 8, 4);
    let mut expect = b"P6\n2 1\n255\n".to_vec();
    expect.extend([3, 2, 1, 6, 5, 4]);
    assert_eq!(encode_ppm(&s), expect);
    // The same image as the whole of the tight buffer.
    assert_eq!(encode_ppm_band(&s.to_rgb(), 2, 0, 0, 2, 1), expect);
}

#[test]
fn the_binary_is_called_for_sparse_text() {
    let t = Tesseract::new("tess".to_string(), "eng+deu".to_string());
    assert_eq!(t.args(), vec!["-", "-", "-l", "eng+deu", "--psm", "11", "tsv"]);
    assert_eq!(Tesseract::thread_limit(0), None);
    assert_eq!(Tesseract::thread_limit(12), Some("12".to_string()));
}

fn message<T: std::fmt::Debug>(r: Result<T>) -> String {
    match r {
        Err(Error::Ocr(m)) => m,
        other => panic!("expected an OCR error, got {other:?}"),
    }
}

fn exit(success: bool) -> std::result::Result<Exit, String> {
    Ok(Exit { success, shown: "exit status: 1".to_string() })
}

#[test]
fn a_run_is_worth_its_output() {
    assert_eq!(
        Tesseract::outcome(false, None, exit(true), "caf\u{e9}\t1".as_bytes().to_vec()).unwrap(),
        "caf\u{e9}\t1"
    );
    assert!(Tesseract::may_start(false).is_ok());
}

#[test]
fn each_way_to_fail_has_its_message() {
    let t = Tesseract::new("tess".to_string(), "eng".to_string());
    assert_eq!(message(Tesseract::may_start(true)), "OCR cancelled");
    assert_eq!(message::<()>(Err(t.spawn_error("not found"))), "failed to spawn tess: not found");
    // A cancellation is reported as one, whatever else went wrong.
    assert_eq!(
        message(Tesseract::outcome(true, Some("eof".to_string()), exit(false), vec![])),
        "OCR cancelled"
    );
    assert_eq!(
        message(Tesseract::outcome(false, Some("eof".to_string()), exit(false), vec![])),
        "reading tesseract output: eof"
    );
    assert_eq!(
        message(Tesseract::outcome(false, None, Err("gone".to_string()), vec![])),
        "tesseract failed: gone"
    );
    assert_eq!(
        message(Tesseract::outcome(false, None, exit(false), vec![])),
        "tesseract exited with exit status: 1"
    );
    let bad = vec![b'a', 0xff];
    let said = String::from_utf8(bad.clone()).unwrap_err().to_string();
    assert_eq!(
        message(Tesseract::outcome(false, None, exit(true), bad)),
        format!("tesseract produced non-UTF8 TSV: {said}")
    );
}
