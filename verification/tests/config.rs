use mole::config::number::{Double, Single};
use mole::config::{Config, Keys, Rgba};
use mole::error::Error;
use mole::hint::generate_labels;

fn double(v: f64) -> Double {
    Double { bits: v.to_bits() }
}

fn fault(config: &Config) -> String {
    match config.validate() {
        Err(Error::Config(m)) => m,
        other => panic!("expected a configuration error, got {other:?}"),
    }
}

#[test]
fn defaults_are_valid() {
    Config::default().validate().unwrap();
}

#[test]
fn duplicate_alphabet_char_is_rejected() {
    let mut config = Config::default();
    config.keys.hint_alphabet = "aab".to_string();
    let err = config.validate().unwrap_err();
    assert!(matches!(err, Error::Config(_)));
    assert_eq!(
        fault(&config),
        "keys.hint_alphabet contains a duplicate character: 'a'"
    );
}

#[test]
fn luminance_orders_black_below_white() {
    assert!(Rgba::new(0, 0, 0, 255).luminance() < Rgba::new(255, 255, 255, 255).luminance());
}

#[test]
fn luminance_has_rec_601_weights() {
    assert_eq!(Rgba::new(255, 255, 255, 0).luminance(), 255_000);
    assert_eq!(Rgba::new(1, 0, 0, 9).luminance(), 299);
    assert_eq!(Rgba::new(0, 1, 0, 9).luminance(), 587);
    assert_eq!(Rgba::new(0, 0, 1, 9).luminance(), 114);
}

#[test]
fn defaults_are_as_documented() {
    let c = Config::default();
    assert_eq!(c.keys.hint_alphabet, "asdfghjkl");
    assert_eq!(Keys::default().move_left, "h");
    assert_eq!(Keys::default().move_down, "j");
    assert_eq!(Keys::default().move_up, "k");
    assert_eq!(Keys::default().move_right, "l");
    assert_eq!((c.movement.step, c.movement.large_step, c.movement.max_step), (24, 160, 600));
    assert_eq!(c.movement.acceleration, double(1.0));
    assert_eq!(c.hints.background, Rgba::new(255, 220, 90, 230));
    assert_eq!(c.hints.foreground, Rgba::new(20, 20, 20, 255));
    assert_eq!(c.hints.foreground_dark, Rgba::new(240, 240, 240, 255));
    assert_eq!(c.hints.matched, Rgba::new(120, 220, 120, 230));
    assert_eq!(c.hints.font_family, "monospace");
    assert_eq!(c.hints.font_size, double(13.0));
    assert_eq!(c.hints.min_gap, 4);
    assert_eq!(c.ocr.binary, "tesseract");
    assert_eq!(c.ocr.language, "eng");
    assert_eq!(c.ocr.min_confidence, Single { bits: 50.0f32.to_bits() });
    assert_eq!(c.ocr.min_element_size, 6);
    assert_eq!(c.ocr.max_word_gap, double(1.0));
    assert_eq!(c.ocr.line_tolerance, double(0.5));
    assert_eq!(c.ocr.tiles, 4);
    assert!(c.ocr.prewarm);
    assert!(c.daemon.socket.is_none());
    assert_eq!(c.hint_alphabet(), "asdfghjkl".chars().collect::<Vec<char>>());
}

#[test]
fn each_fault_has_its_message() {
    let mut c = Config::default();
    c.keys.hint_alphabet = "a".to_string();
    assert_eq!(fault(&c), "keys.hint_alphabet must contain at least 2 characters");

    let mut c = Config::default();
    c.movement.step = 0;
    assert_eq!(fault(&c), "movement steps must be positive");
    let mut c = Config::default();
    c.movement.large_step = -1;
    assert_eq!(fault(&c), "movement steps must be positive");

    let mut c = Config::default();
    c.hints.font_size = double(0.0);
    assert_eq!(fault(&c), "hints.font_size must be positive");

    let mut c = Config::default();
    c.ocr.min_element_size = -1;
    assert_eq!(fault(&c), "ocr.min_element_size must not be negative");

    let mut c = Config::default();
    c.ocr.min_confidence = Single { bits: 100.5f32.to_bits() };
    assert_eq!(fault(&c), "ocr.min_confidence must be between 0 and 100");

    let mut c = Config::default();
    c.ocr.max_word_gap = double(-1.0);
    assert_eq!(fault(&c), "ocr.max_word_gap and ocr.line_tolerance must be positive");
    let mut c = Config::default();
    c.ocr.line_tolerance = double(0.0);
    assert_eq!(fault(&c), "ocr.max_word_gap and ocr.line_tolerance must be positive");
}

#[test]
fn the_first_fault_is_reported() {
    let mut c = Config::default();
    c.keys.hint_alphabet = "xyzy\u{e9}\u{e9}".to_string();
    c.movement.step = 0;
    assert_eq!(fault(&c), "keys.hint_alphabet contains a duplicate character: 'y'");
}

#[test]
fn comparisons_on_bits_agree_with_the_numbers() {
    let values = [
        0.0, -0.0, 1.0, -1.0, 13.0, 5e-324, -5e-324, f64::MAX, f64::MIN, f64::INFINITY,
        f64::NEG_INFINITY, f64::NAN, -f64::NAN, f64::MIN_POSITIVE,
    ];
    for v in values {
        assert_eq!(double(v).is_at_most_zero(), v <= 0.0, "{v}");
    }
    let values = [
        0.0f32, -0.0, 1e-45, -1e-45, 50.0, 99.99999, 100.0, 100.00001, 1e30, -1.0, f32::INFINITY,
        f32::NEG_INFINITY, f32::NAN, -f32::NAN,
    ];
    for v in values {
        let s = Single { bits: v.to_bits() };
        assert_eq!(s.is_percentage(), (0.0..=100.0).contains(&v), "{v}");
    }
}

fn path(xdg: Option<&str>, home: Option<&str>) -> Option<String> {
    Config::default_path(
        xdg.map(|s| s.as_bytes().to_vec()),
        home.map(|s| s.as_bytes().to_vec()),
    )
    .map(|b| String::from_utf8(b).unwrap())
}

#[test]
fn config_path_follows_the_environment() {
    assert_eq!(
        path(Some("/etc/xdg"), Some("/home/u")).unwrap(),
        "/etc/xdg/mole/config.toml"
    );
    // A relative $XDG_CONFIG_HOME is ignored.
    assert_eq!(
        path(Some("xdg"), Some("/home/u")).unwrap(),
        "/home/u/.config/mole/config.toml"
    );
    assert_eq!(path(None, Some("/")).unwrap(), "/.config/mole/config.toml");
    assert_eq!(path(None, Some("")).unwrap(), ".config/mole/config.toml");
    assert_eq!(path(Some(""), None), None);
    assert_eq!(path(None, None), None);
}

#[test]
fn config_path_joins_like_the_path_type() {
    for base in ["/a", "/a/", "/", "/a//"] {
        let expect = std::path::PathBuf::from(base).join("mole").join("config.toml");
        assert_eq!(path(Some(base), None).unwrap(), expect.to_str().unwrap());
    }
    for home in ["/h", "h", "", "/h/"] {
        let expect = std::path::PathBuf::from(home)
            .join(".config")
            .join("mole")
            .join("config.toml");
        assert_eq!(path(None, Some(home)).unwrap(), expect.to_str().unwrap());
    }
}

#[test]
fn a_valid_alphabet_makes_distinct_labels() {
    for alphabet in ["ab", "asdfghjkl", "\u{e9}x1"] {
        let mut c = Config::default();
        c.keys.hint_alphabet = alphabet.to_string();
        c.validate().unwrap();
        let labels = generate_labels(&c.hint_alphabet(), 100);
        let unique: std::collections::HashSet<_> = labels.iter().collect();
        assert_eq!(unique.len(), 100);
    }
}
