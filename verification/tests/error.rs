use mole::config::duplicate_character;
use mole::detect::ocr::tesseract::not_utf8;
use mole::error::Error;

#[test]
fn every_error_says_what_went_wrong() {
    let m = || "m".to_string();
    assert_eq!(Error::Config(m()).message(), "configuration error: m");
    assert_eq!(
        Error::ConfigIo { path: "\"/a \\\"b\\\"\"".to_string(), source: "no".to_string() }.message(),
        "could not read config file \"/a \\\"b\\\"\": no"
    );
    assert_eq!(Error::ConfigParse(m()).message(), "could not parse config: m");
    assert_eq!(Error::X11(m()).message(), "X11 error: m");
    assert_eq!(Error::AtSpi(m()).message(), "AT-SPI / D-Bus error: m");
    assert_eq!(Error::Ocr(m()).message(), "OCR error: m");
    assert_eq!(Error::Render(m()).message(), "rendering error: m");
    assert_eq!(Error::NoMatch.message(), "no element matched the typed keys");
    assert_eq!(Error::Cancelled.message(), "the session was cancelled by the user");
    assert_eq!(Error::Ipc(m()).message(), "IPC error: m");
    assert_eq!(Error::Io(m()).message(), "m");
}

#[test]
fn constructors_pick_their_variant() {
    assert!(matches!(Error::x11("a"), Error::X11(m) if m == "a"));
    assert!(matches!(Error::atspi("b"), Error::AtSpi(m) if m == "b"));
    assert!(matches!(Error::render("c"), Error::Render(m) if m == "c"));
}

#[test]
fn errors_around_shown_values_are_exact() {
    assert_eq!(
        duplicate_character("'q'").message(),
        "configuration error: keys.hint_alphabet contains a duplicate character: 'q'"
    );
    assert_eq!(not_utf8("why").message(), "OCR error: tesseract produced non-UTF8 TSV: why");
}
