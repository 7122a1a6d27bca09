//! Crate-wide error type.
//!
//! Every fallible operation in the library returns [`Result`], so callers can
//! propagate failures with `?` and the binary can render a single, consistent
//! error chain at the top level. What an operating-system or parser error says
//! is held as its text.

use vstd::prelude::*;

verus! {

/// Convenient alias used throughout the crate.
pub type Result<T> = std::result::Result<T, Error>;

/// All the ways mole can fail.
#[derive(Debug)]
pub enum Error {
    Config(String),
    /// The path is held as it is shown: quoted, with special characters escaped.
    ConfigIo { path: String, source: String },
    ConfigParse(String),
    X11(String),
    AtSpi(String),
    Ocr(String),
    Render(String),
    NoMatch,
    Cancelled,
    Ipc(String),
    Io(String),
}

/// What std's `{:?}` writes for a text: quoted, with special characters escaped.
pub uninterp spec fn debug_text(s: Seq<char>) -> Seq<char>;

/// What std's `{:?}` writes for a character: quoted, escaped where special.
pub uninterp spec fn debug_char(c: char) -> Seq<char>;

/// The `Debug` formatting of `str` in std, a function of the text alone.
#[verifier::external_body]
pub(crate) fn quoted(s: &str) -> (r: String)
    ensures
        r@ == debug_text(s@),
{
    format!("{s:?}")
}

/// The `Debug` formatting of `char` in std, a function of the character alone.
#[verifier::external_body]
pub(crate) fn quoted_char(c: char) -> (r: String)
    ensures
        r@ == debug_char(c),
{
    format!("{c:?}")
}

/// `head` followed by `tail`.
pub(crate) fn joined(head: &str, tail: &str) -> (r: String)
    ensures
        r@ == head@ + tail@,
{
    let mut r = String::from_str(head);
    r.append(tail);
    r
}

impl Error {
    /// What the error says.
    pub open spec fn shown(self) -> Seq<char> {
        match self {
            Error::Config(m) => "configuration error: "@ + m@,
            Error::ConfigIo { path, source } => "could not read config file "@ + path@ + ": "@
                + source@,
            Error::ConfigParse(m) => "could not parse config: "@ + m@,
            Error::X11(m) => "X11 error: "@ + m@,
            Error::AtSpi(m) => "AT-SPI / D-Bus error: "@ + m@,
            Error::Ocr(m) => "OCR error: "@ + m@,
            Error::Render(m) => "rendering error: "@ + m@,
            Error::NoMatch => "no element matched the typed keys"@,
            Error::Cancelled => "the session was cancelled by the user"@,
            Error::Ipc(m) => "IPC error: "@ + m@,
            Error::Io(m) => m@,
        }
    }

    /// The text of the error, for logs and replies.
    pub fn message(&self) -> (r: String)
        ensures
            r@ == self.shown(),
    {
        match self {
            Error::Config(m) => joined("configuration error: ", m.as_str()),
            Error::ConfigIo { path, source } => {
                let mut r = joined("could not read config file ", path.as_str());
                r.append(": ");
                r.append(source.as_str());
                r
            },
            Error::ConfigParse(m) => joined("could not parse config: ", m.as_str()),
            Error::X11(m) => joined("X11 error: ", m.as_str()),
            Error::AtSpi(m) => joined("AT-SPI / D-Bus error: ", m.as_str()),
            Error::Ocr(m) => joined("OCR error: ", m.as_str()),
            Error::Render(m) => joined("rendering error: ", m.as_str()),
            Error::NoMatch => String::from_str("no element matched the typed keys"),
            Error::Cancelled => String::from_str("the session was cancelled by the user"),
            Error::Ipc(m) => joined("IPC error: ", m.as_str()),
            Error::Io(m) => m.clone(),
        }
    }

    /// Build an [`Error::X11`] from the text of a failure.
    pub fn x11(e: &str) -> (r: Self)
        ensures
            r matches Error::X11(m) && m@ == e@,
    {
        Error::X11(String::from_str(e))
    }

    /// Build an [`Error::AtSpi`] from the text of a failure.
    pub fn atspi(e: &str) -> (r: Self)
        ensures
            r matches Error::AtSpi(m) && m@ == e@,
    {
        Error::AtSpi(String::from_str(e))
    }

    /// Build an [`Error::Render`] from the text of a failure.
    pub fn render(e: &str) -> (r: Self)
        ensures
            r matches Error::Render(m) && m@ == e@,
    {
        Error::Render(String::from_str(e))
    }
}

// --- Laws -----------------------------------------------------------------

/// An error says what kind it is and then, word for word, what it was given; two of
/// one kind differ in that alone.
pub proof fn law_an_error_says_what_it_was_given(m: String, path: String, source: String)
    ensures
        Error::Config(m).shown() == "configuration error: "@ + m@,
        (Error::ConfigIo { path, source }).shown() == "could not read config file "@ + path@ + ": "@
            + source@,
        Error::ConfigParse(m).shown() == "could not parse config: "@ + m@,
        Error::X11(m).shown() == "X11 error: "@ + m@,
        Error::AtSpi(m).shown() == "AT-SPI / D-Bus error: "@ + m@,
        Error::Ocr(m).shown() == "OCR error: "@ + m@,
        Error::Render(m).shown() == "rendering error: "@ + m@,
        Error::NoMatch.shown() == "no element matched the typed keys"@,
        Error::Cancelled.shown() == "the session was cancelled by the user"@,
        Error::Ipc(m).shown() == "IPC error: "@ + m@,
        Error::Io(m).shown() == m@,
{
}

} // verus!
