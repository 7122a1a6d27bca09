//! Driving the `tesseract` binary as a subprocess.
//!
//! Rather than link Tesseract's C API, we shell out to the `tesseract` command:
//! the captured frame is piped in as a PPM and word boxes come back as TSV. This
//! keeps the build free of an extra native dependency (the binary is only needed
//! at runtime) and makes the OCR engine trivial to swap later.
//!
//! Pipeline: screenshot → PPM on stdin → `tesseract` → TSV on stdout. This module
//! says how the binary is called, what it is fed, and what to make of how it
//! ended.

use vstd::prelude::*;
use vstd::utf8::{decode_utf8, valid_utf8};

use crate::capture::Screen;
use crate::config::{ascii, ascii_of};
use crate::error::{joined, Error, Result};
use crate::geometry::greater;
use crate::text::{decimal, decimal_text, signed_decimal, signed_text};

verus! {

/// A configured handle to the OCR binary. Cheap to clone/rebuild on config
/// reload; holds no process or connection between runs.
#[derive(Debug, Clone)]
pub struct Tesseract {
    pub binary: String,
    pub language: String,
}

/// How the OCR process ended.
#[derive(Debug, Clone)]
pub struct Exit {
    pub success: bool,
    /// The status in words.
    pub shown: String,
}

/// What `String::from_utf8` of std says about bytes that are not UTF-8.
pub uninterp spec fn utf8_fault(bytes: Seq<u8>) -> Seq<char>;

/// `String::from_utf8` of std: the text that `bytes` encode if they are UTF-8,
/// and else an error whose words are a function of the bytes alone.
#[verifier::external_body]
fn read_utf8(bytes: Vec<u8>) -> (r: std::result::Result<String, String>)
    ensures
        match r {
            Ok(s) => valid_utf8(bytes@) && s@ == decode_utf8(bytes@),
            Err(e) => !valid_utf8(bytes@) && e@ == utf8_fault(bytes@),
        },
{
    String::from_utf8(bytes).map_err(|e| e.to_string())
}

/// The arguments of a run, in order.
pub open spec fn arguments(language: Seq<char>) -> Seq<Seq<char>> {
    seq!["-"@, "-"@, "-l"@, language, "--psm"@, "11"@, "tsv"@]
}

/// What a run is worth: its error message if it was cancelled or failed, in the
/// order in which these are looked at, and else nothing.
pub open spec fn run_fault(
    aborted: bool,
    read_error: Option<Seq<char>>,
    exit: std::result::Result<Exit, String>,
    out: Seq<u8>,
) -> Option<Seq<char>> {
    if aborted {
        Some("OCR cancelled"@)
    } else if read_error is Some {
        Some("reading tesseract output: "@ + read_error->0)
    } else if exit is Err {
        Some("tesseract failed: "@ + exit->Err_0@)
    } else if !exit->Ok_0.success {
        Some("tesseract exited with "@ + exit->Ok_0.shown@)
    } else if !valid_utf8(out) {
        Some("tesseract produced non-UTF8 TSV: "@ + utf8_fault(out))
    } else {
        None
    }
}

impl Tesseract {
    pub fn new(binary: String, language: String) -> (t: Self)
        ensures
            t.binary == binary,
            t.language == language,
    {
        Tesseract { binary, language }
    }

    /// The arguments that the binary is called with. `--psm 11` is "sparse
    /// text": find as much text as possible anywhere on the image, which is what
    /// we want for a whole, busy desktop.
    pub fn args(&self) -> (r: Vec<String>)
        ensures
            r@.map_values(|s: String| s@) == arguments(self.language@),
    {
        let mut r: Vec<String> = Vec::new();
        r.push(String::from_str("-"));
        r.push(String::from_str("-"));
        r.push(String::from_str("-l"));
        r.push(self.language.clone());
        r.push(String::from_str("--psm"));
        r.push(String::from_str("11"));
        r.push(String::from_str("tsv"));
        assert(r@.map_values(|s: String| s@) == arguments(self.language@));
        r
    }

    /// The value of `OMP_THREAD_LIMIT` that caps Tesseract's internal OpenMP
    /// threads (`0` leaves it to Tesseract). When several instances run in
    /// parallel (tiled OCR), capping each one keeps them from oversubscribing the
    /// cores and fighting each other.
    pub fn thread_limit(threads: usize) -> (r: Option<String>)
        ensures
            match r {
                Some(s) => threads > 0 && s@ == decimal(threads as nat),
                None => threads == 0,
            },
    {
        if threads > 0 {
            Some(decimal_text(threads as u64))
        } else {
            None
        }
    }

    /// Whether a run may start: an aborted read returns an error instead.
    pub fn may_start(aborted: bool) -> (r: Result<()>)
        ensures
            match r {
                Ok(_) => !aborted,
                Err(e) => aborted && e is Ocr && e->Ocr_0@ == "OCR cancelled"@,
            },
    {
        if aborted {
            Err(Error::Ocr(String::from_str("OCR cancelled")))
        } else {
            Ok(())
        }
    }

    /// The error of a binary that could not be started because of `e`.
    pub fn spawn_error(&self, e: &str) -> (r: Error)
        ensures
            r is Ocr,
            r->Ocr_0@ == "failed to spawn "@ + self.binary@ + ": "@ + e@,
    {
        let mut m = joined("failed to spawn ", self.binary.as_str());
        m.append(": ");
        m.append(e);
        Error::Ocr(m)
    }

    /// What a run gives, once the process has ended: the TSV that it printed,
    /// unless it was cancelled or failed. A killed child surfaces as the end of
    /// its output plus a signal exit, so a cancellation is looked at first and
    /// reported as one rather than as a spurious OCR failure.
    pub fn outcome(
        aborted: bool,
        read_error: Option<String>,
        exit: std::result::Result<Exit, String>,
        out: Vec<u8>,
    ) -> (r: Result<String>)
        ensures
            ({
                let fault = run_fault(
                    aborted,
                    match read_error {
                        Some(e) => Some(e@),
                        None => None,
                    },
                    exit,
                    out@,
                );
                match r {
                    Ok(tsv) => fault is None && tsv@ == decode_utf8(out@),
                    Err(e) => e is Ocr && fault == Some(e->Ocr_0@),
                }
            }),
    {
        if aborted {
            return Err(Error::Ocr(String::from_str("OCR cancelled")));
        }
        if let Some(e) = read_error {
            return Err(Error::Ocr(joined("reading tesseract output: ", e.as_str())));
        }
        match exit {
            Err(e) => Err(Error::Ocr(joined("tesseract failed: ", e.as_str()))),
            Ok(status) => if !status.success {
                Err(Error::Ocr(joined("tesseract exited with ", status.shown.as_str())))
            } else {
                match read_utf8(out) {
                    Ok(s) => Ok(s),
                    Err(e) => Err(not_utf8(e.as_str())),
                }
            },
        }
    }
}

/// The error of an output that is not UTF-8, where `fault` says why.
pub fn not_utf8(fault: &str) -> (r: Error)
    ensures
        r is Ocr,
        r->Ocr_0@ == "tesseract produced non-UTF8 TSV: "@ + fault@,
{
    Error::Ocr(joined("tesseract produced non-UTF8 TSV: ", fault))
}

// --- PPM ------------------------------------------------------------------

/// The header of a binary PPM of `w`×`h` pixels.
pub open spec fn ppm_header(w: int, h: int) -> Seq<u8> {
    ascii_of("P6\n"@ + signed_decimal(w) + " "@ + signed_decimal(h) + "\n255\n"@)
}

/// Byte `j` of row `y` of the band at `(x0, y0)` of a tight RGB buffer with rows
/// of `stride_w` pixels; 0 in a row above the buffer and where it has ended. The
/// bytes of a row are consecutive from column `x0` on, or from the first one.
pub open spec fn band_byte(rgb: Seq<u8>, stride_w: int, x0: int, y0: int, y: int, j: int) -> u8 {
    let at = (y0 + y) * (greater(stride_w, 0) * 3) + greater(x0, 0) * 3 + j;
    if 0 <= y0 + y && at < rgb.len() {
        rgb[at]
    } else {
        0
    }
}

/// The header of a PPM.
fn write_header(w: i32, h: i32) -> (out: Vec<u8>)
    ensures
        out@ == ppm_header(w as int, h as int),
{
    let mut s = joined("P6\n", signed_text(w).as_str());
    s.append(" ");
    s.append(signed_text(h).as_str());
    s.append("\n255\n");
    ascii(s.as_str())
}

/// Encode the rectangle `[x0, x0 + w) × [y0, y0 + h)` of a tight RGB buffer as a
/// PPM — one band of the screen for tiled OCR. `stride_w` is the full buffer width
/// in pixels; the band is usually narrower (it stays within one monitor), so this
/// copies the cropped columns row by row. `rgb` is the whole-screen buffer from
/// [`Screen::to_rgb`], reused across bands so it is built only once. Rows that
/// fall outside the buffer are zero-padded so the emitted image always matches the
/// declared `w × h` (a malformed PPM would make Tesseract reject the whole band).
pub fn encode_ppm_band(rgb: &[u8], stride_w: i32, x0: i32, y0: i32, w: i32, h: i32) -> (out: Vec<u8>)
    ensures
        ({
            let head = ppm_header(w as int, h as int);
            let row = greater(w as int, 0) * 3;
            let rows = greater(h as int, 0);
            &&& out@.len() == head.len() + rows * row
            &&& out@.take(head.len() as int) == head
            &&& forall|y: int, j: int|
                0 <= y < rows && 0 <= j < row ==> out@[head.len() + y * row + j]
                    == #[trigger] band_byte(rgb@, stride_w as int, x0 as int, y0 as int, y, j)
        }),
{
    let stride: u64 = if stride_w > 0 {
        stride_w as u64 * 3
    } else {
        0
    };
    let xoff: u64 = if x0 > 0 {
        x0 as u64 * 3
    } else {
        0
    };
    let row: u64 = if w > 0 {
        w as u64 * 3
    } else {
        0
    };
    let rows: u64 = if h > 0 {
        h as u64
    } else {
        0
    };
    let mut out = write_header(w, h);
    let ghost head = out@;
    let mut y: u64 = 0;
    assert(0 * row == 0) by (nonlinear_arith);
    while y < rows
        invariant
            y <= rows <= i32::MAX,
            stride == greater(stride_w as int, 0) * 3,
            stride <= 0x2_0000_0000,
            xoff == greater(x0 as int, 0) * 3,
            xoff <= 0x2_0000_0000,
            row == greater(w as int, 0) * 3,
            row <= 0x2_0000_0000,
            out@.len() == head.len() + y * row,
            out@.take(head.len() as int) == head,
            forall|v: int, j: int|
                0 <= v < y && 0 <= j < row ==> out@[head.len() + v * row + j]
                    == #[trigger] band_byte(rgb@, stride_w as int, x0 as int, y0 as int, v, j),
        decreases rows - y,
    {
        let line = y0 as i64 + y as i64;
        let mut j: u64 = 0;
        while j < row
            invariant
                j <= row <= 0x2_0000_0000,
                row == greater(w as int, 0) * 3,
                stride == greater(stride_w as int, 0) * 3,
                stride <= 0x2_0000_0000,
                xoff == greater(x0 as int, 0) * 3,
                xoff <= 0x2_0000_0000,
                line == y0 + y,
                line <= 0x1_0000_0000,
                out@.len() == head.len() + y * row + j,
                out@.take(head.len() as int) == head,
                forall|v: int, i: int|
                    0 <= v < y && 0 <= i < row ==> out@[head.len() + v * row + i]
                        == #[trigger] band_byte(rgb@, stride_w as int, x0 as int, y0 as int, v, i),
                forall|i: int|
                    0 <= i < j ==> out@[head.len() + y * row + i] == #[trigger] band_byte(
                        rgb@,
                        stride_w as int,
                        x0 as int,
                        y0 as int,
                        y as int,
                        i,
                    ),
            decreases row - j,
        {
            let ghost before = out@;
            let byte: u8 = if line >= 0 {
                assert(0 <= line * stride <= 0x1_0000_0000 * 0x2_0000_0000) by (nonlinear_arith)
                    requires
                        0 <= line <= 0x1_0000_0000,
                        0 <= stride <= 0x2_0000_0000,
                ;
                let at = line as u128 * stride as u128 + xoff as u128 + j as u128;
                if at < rgb.len() as u128 {
                    rgb[at as usize]
                } else {
                    0
                }
            } else {
                0
            };
            out.push(byte);
            assert(byte == band_byte(
                rgb@,
                stride_w as int,
                x0 as int,
                y0 as int,
                y as int,
                j as int,
            ));
            proof {
                assert forall|v: int, i: int|
                    0 <= v < y && 0 <= i < row implies out@[head.len() + v * row + i]
                    == #[trigger] band_byte(rgb@, stride_w as int, x0 as int, y0 as int, v, i) by {
                    lemma_before(v, i, y as int, row as int);
                    assert(out@[head.len() + v * row + i] == before[head.len() + v * row + i]);
                }
                assert(out@.take(head.len() as int) == before.take(head.len() as int)) by {
                    assert(0 <= y * row) by (nonlinear_arith)
                        requires
                            0 <= y,
                            0 <= row,
                    ;
                }
            }
            j += 1;
        }
        assert((y + 1) * row == y * row + row) by (nonlinear_arith);
        y += 1;
    }
    out
}

/// A byte of an earlier row comes before the bytes of row `y`.
proof fn lemma_before(v: int, i: int, y: int, row: int)
    requires
        0 <= v < y,
        0 <= i < row,
    ensures
        0 <= v * row + i < y * row,
{
    assert(0 <= v * row + i < y * row) by (nonlinear_arith)
        requires
            0 <= v < y,
            0 <= i < row,
    ;
}

/// Encode a screen capture as a binary PPM (P6) for Tesseract/leptonica.
pub fn encode_ppm(screen: &Screen) -> (out: Vec<u8>)
    ensures
        ({
            let head = ppm_header(screen.area().width as int, screen.area().height as int);
            &&& out@.len() == head.len() + screen.rows() * screen.cols() * 3
            &&& out@.take(head.len() as int) == head
            &&& forall|x: int, y: int, c: int|
                0 <= x < screen.cols() && 0 <= y < screen.rows() && 0 <= c < 3 ==> out@[head.len()
                    + (y * screen.cols() + x) * 3 + c] == #[trigger] screen.color(
                    screen.area().x + x,
                    screen.area().y + y,
                    c,
                )
        }),
{
    let w = screen.width();
    let h = screen.height();
    let left = screen.bounds().x as i64;
    let top = screen.bounds().y as i64;
    let cols: i64 = if w > 0 {
        w as i64
    } else {
        0
    };
    let rows: i64 = if h > 0 {
        h as i64
    } else {
        0
    };
    let mut out = write_header(w, h);
    let ghost head = out@;
    let mut y: i64 = 0;
    assert(0 * cols == 0) by (nonlinear_arith);
    while y < rows
        invariant
            0 <= y <= rows <= i32::MAX,
            0 <= cols <= i32::MAX,
            cols == screen.cols(),
            rows == screen.rows(),
            left == screen.area().x,
            top == screen.area().y,
            out@.len() == head.len() + (y * cols) * 3,
            out@.take(head.len() as int) == head,
            forall|p: int, c: int|
                0 <= p < y * cols && 0 <= c < 3 ==> #[trigger] out@[head.len() + p * 3 + c]
                    == screen.color(left + p % (cols as int), top + p / (cols as int), c),
        decreases rows - y,
    {
        let mut x: i64 = 0;
        while x < cols
            invariant
                0 <= x <= cols <= i32::MAX,
                0 <= y < rows <= i32::MAX,
                cols == screen.cols(),
                left == screen.area().x,
                top == screen.area().y,
                out@.len() == head.len() + (y * cols + x) * 3,
                out@.take(head.len() as int) == head,
                forall|p: int, c: int|
                    0 <= p < y * cols + x && 0 <= c < 3 ==> #[trigger] out@[head.len() + p * 3 + c]
                        == screen.color(left + p % (cols as int), top + p / (cols as int), c),
            decreases cols - x,
        {
            let ghost n = y * cols + x;
            let ghost before = out@;
            let c = screen.probe(left + x, top + y);
            out.push(c.0[0]);  // R
            out.push(c.0[1]);  // G
            out.push(c.0[2]);  // B
            proof {
                crate::capture::lemma_cell(cols as int, x as int, y as int);
                assert forall|p: int, c: int| 0 <= p < n + 1 && 0 <= c < 3 implies #[trigger] out@[head.len()
                    + p * 3 + c] == screen.color(
                    left + p % (cols as int),
                    top + p / (cols as int),
                    c,
                ) by {
                    if p < n {
                        assert(out@[head.len() + p * 3 + c] == before[head.len() + p * 3 + c]);
                    }
                }
                assert(out@.take(head.len() as int) == before.take(head.len() as int));
            }
            x += 1;
        }
        assert((y + 1) * cols == y * cols + cols) by (nonlinear_arith);
        y += 1;
    }
    proof {
        assert(rows * cols == screen.rows() * screen.cols());
        assert(rows * cols == cols * rows) by (nonlinear_arith);
        assert forall|x: int, y: int, c: int|
            0 <= x < screen.cols() && 0 <= y < screen.rows() && 0 <= c < 3 implies out@[head.len()
            + (y * screen.cols() + x) * 3 + c] == #[trigger] screen.color(
            screen.area().x + x,
            screen.area().y + y,
            c,
        ) by {
            crate::capture::lemma_cell(cols as int, x, y);
            crate::capture::lemma_cell_bound(cols as int, rows as int, x, y);
            assert(out@[head.len() + (y * cols + x) * 3 + c] == screen.color(
                left + (y * cols + x) % (cols as int),
                top + (y * cols + x) / (cols as int),
                c,
            ));
        }
    }
    out
}

// --- Laws -----------------------------------------------------------------

/// A run is worth its output exactly if it was not cancelled, could be read to the
/// end, ended well and printed text; and a cancellation is reported as one, whatever
/// else went wrong.
pub proof fn law_a_run_is_worth_its_output_if_nothing_went_wrong(
    aborted: bool,
    read_error: Option<Seq<char>>,
    exit: std::result::Result<Exit, String>,
    out: Seq<u8>,
)
    ensures
        run_fault(aborted, read_error, exit, out) is None <==> {
            &&& !aborted
            &&& read_error is None
            &&& exit matches Ok(e) && e.success
            &&& valid_utf8(out)
        },
        aborted ==> run_fault(aborted, read_error, exit, out) == Some("OCR cancelled"@),
        !aborted && read_error is Some ==> run_fault(aborted, read_error, exit, out) == Some(
            "reading tesseract output: "@ + read_error->0,
        ),
        !aborted && read_error is None && exit is Err ==> run_fault(aborted, read_error, exit, out)
            == Some("tesseract failed: "@ + exit->Err_0@),
        !aborted && read_error is None && exit is Ok && !exit->Ok_0.success ==> run_fault(
            aborted,
            read_error,
            exit,
            out,
        ) == Some("tesseract exited with "@ + exit->Ok_0.shown@),
{
}

/// The image goes in and the table comes out through the standard streams, in the
/// configured language, looking for sparse text.
pub proof fn law_the_language_is_passed_on(language: Seq<char>, other: Seq<char>)
    ensures
        arguments(language).len() == 7,
        arguments(language)[0] == "-"@ && arguments(language)[1] == "-"@,
        arguments(language)[2] == "-l"@ && arguments(language)[3] == language,
        arguments(language)[4] == "--psm"@ && arguments(language)[5] == "11"@,
        arguments(language)[6] == "tsv"@,
        language != other ==> arguments(language) != arguments(other),
{
    if language != other {
        assert(arguments(language)[3] != arguments(other)[3]);
    }
}

/// A band is cut out of the buffer: column `x` and row `y` of it, channel by channel,
/// are column `x0 + x` and row `y0 + y` of the buffer, wherever those are there.
pub proof fn law_a_band_shows_its_part_of_the_buffer(
    rgb: Seq<u8>,
    w: int,
    h: int,
    x0: int,
    y0: int,
    x: int,
    y: int,
    c: int,
)
    requires
        rgb.len() == w * h * 3,
        0 <= x0,
        0 <= x,
        0 <= y0 + y < h,
        x0 + x < w,
        0 <= c < 3,
    ensures
        0 <= ((y0 + y) * w + (x0 + x)) * 3 + c < rgb.len(),
        band_byte(rgb, w, x0, y0, y, x * 3 + c) == rgb[((y0 + y) * w + (x0 + x)) * 3 + c],
{
    let v = y0 + y;
    crate::capture::lemma_cell_bound(w, h, x0 + x, v);
    assert(v * (w * 3) == (v * w) * 3) by (nonlinear_arith);
}

/// Rows above and below the buffer are black.
pub proof fn law_rows_outside_the_buffer_are_black(
    rgb: Seq<u8>,
    w: int,
    h: int,
    x0: int,
    y0: int,
    y: int,
    j: int,
)
    requires
        rgb.len() == w * h * 3,
        w >= 0,
        h >= 0,
        0 <= j,
        y0 + y < 0 || y0 + y >= h,
    ensures
        band_byte(rgb, w, x0, y0, y, j) == 0,
{
    let v = y0 + y;
    if v >= h {
        assert(v * (w * 3) >= w * h * 3) by (nonlinear_arith)
            requires
                v >= h,
                w >= 0,
                h >= 0,
        ;
    }
}

/// The header of an image gives its size, width first.
pub proof fn law_the_header_gives_the_size(w: int, h: int)
    ensures
        ppm_header(w, h) == ascii_of("P6\n"@) + ascii_of(signed_decimal(w)) + ascii_of(" "@)
            + ascii_of(signed_decimal(h)) + ascii_of("\n255\n"@),
{
    assert(ppm_header(w, h) =~= ascii_of("P6\n"@) + ascii_of(signed_decimal(w)) + ascii_of(" "@)
        + ascii_of(signed_decimal(h)) + ascii_of("\n255\n"@));
}

} // verus!
