//! Configuration: what the user can tune, its defaults and its validation.
//!
//! Every section has a sensible default so a brand-new user can run mole
//! with no config file at all. Reading the file and merging it over the defaults
//! happens outside; [`Config::validate`] decides whether the result can be used.

pub mod number;

use vstd::prelude::*;

use crate::error::{debug_char, joined, quoted_char, Error, Result};
use crate::hint::label::distinct;
use crate::text::to_chars;
use number::{Double, Single};

verus! {

/// An RGBA colour, each channel `0..=255`. Serialised as a 4-element array so
/// the TOML reads `background = [255, 220, 90, 230]`.
#[derive(Debug, Clone, Copy, PartialEq, Eq)]
pub struct Rgba(pub [u8; 4]);

/// Luminance of white, in the units of [`Rgba::luminance`].
pub const FULL_LUMINANCE: u32 = 255_000;

impl Rgba {
    pub open spec fn r(self) -> u8 {
        self.0@[0]
    }

    pub open spec fn g(self) -> u8 {
        self.0@[1]
    }

    pub open spec fn b(self) -> u8 {
        self.0@[2]
    }

    pub open spec fn a(self) -> u8 {
        self.0@[3]
    }

    /// Perceived luminance in `0..=255_000` (Rec. 601 weights, in thousandths).
    pub open spec fn light(self) -> int {
        299 * self.r() + 587 * self.g() + 114 * self.b()
    }

    pub fn new(r: u8, g: u8, b: u8, a: u8) -> (c: Self)
        ensures
            c.0@ == seq![r, g, b, a],
    {
        Rgba([r, g, b, a])
    }

    /// Perceived luminance, `0..=`[`FULL_LUMINANCE`] (Rec. 601 weights). Used to
    /// pick a contrasting text colour over a detected background.
    pub fn luminance(&self) -> (l: u32)
        ensures
            l == self.light(),
            l <= FULL_LUMINANCE,
    {
        299 * self.0[0] as u32 + 587 * self.0[1] as u32 + 114 * self.0[2] as u32
    }
}

/// The complete, validated configuration.
#[derive(Debug, Clone)]
pub struct Config {
    pub keys: Keys,
    pub movement: Movement,
    pub hints: Hints,
    pub ocr: Ocr,
    pub daemon: Daemon,
}

#[derive(Debug, Clone)]
pub struct Keys {
    pub hint_alphabet: String,
    pub move_left: String,
    pub move_down: String,
    pub move_up: String,
    pub move_right: String,
}

#[derive(Debug, Clone, Copy, PartialEq, Eq, Structural)]
pub struct Movement {
    /// Small step (px). Checked when a configuration is validated, and nothing
    /// else: move mode glides, so there are no steps.
    pub step: i32,
    /// Step with Shift held (px). Unused, as `step` is.
    pub large_step: i32,
    /// Above 1, holding a key accelerates; 1 is off.
    pub acceleration: Double,
    /// Ceiling on an accelerated step (px). Unused, as `step` is.
    pub max_step: i32,
}

#[derive(Debug, Clone)]
pub struct Hints {
    pub background: Rgba,
    pub foreground: Rgba,
    pub foreground_dark: Rgba,
    pub matched: Rgba,
    pub font_family: String,
    pub font_size: Double,
    pub min_gap: i32,
}

/// OCR backend tuning. These are the "sensitivity" knobs for how aggressively
/// text is read off the screen and how words are grouped into phrase targets.
#[derive(Debug, Clone)]
pub struct Ocr {
    /// Path/name of the `tesseract` binary.
    pub binary: String,
    /// Recognition language passed to Tesseract (`-l`), e.g. `"eng"`.
    pub language: String,
    /// Minimum Tesseract confidence (`0..=100`) for a word to be kept. Raise it
    /// to drop shaky guesses, lower it to catch faint text.
    pub min_confidence: Single,
    /// Ignore phrase boxes smaller than this many pixels on either axis (noise).
    pub min_element_size: i32,
    /// How readily neighbouring words merge into one phrase target: the maximum
    /// horizontal gap between two words, as a multiple of their text height.
    /// Higher = longer phrases / fewer hints; lower = more, shorter targets.
    pub max_word_gap: Double,
    /// How strict "same line" is: two words share a line when their vertical
    /// centres differ by at most this fraction of their text height.
    pub line_tolerance: Double,
    /// Parallel OCR strips.
    pub tiles: usize,
    /// Keep the OCR cache warm in the background.
    pub prewarm: bool,
}

#[derive(Debug, Clone)]
pub struct Daemon {
    /// Explicit socket path, as its bytes; when `None` the runtime default is
    /// used.
    pub socket: Option<Vec<u8>>,
}

// --- Defaults -------------------------------------------------------------

impl Default for Keys {
    fn default() -> (k: Self)
        ensures
            k.hint_alphabet@ == "asdfghjkl"@,
            k.move_left@ == "h"@,
            k.move_down@ == "j"@,
            k.move_up@ == "k"@,
            k.move_right@ == "l"@,
    {
        Keys {
            hint_alphabet: String::from_str("asdfghjkl"),
            move_left: String::from_str("h"),
            move_down: String::from_str("j"),
            move_up: String::from_str("k"),
            move_right: String::from_str("l"),
        }
    }
}

/// The bits of 1.
pub const ONE: u64 = 0x3ff0_0000_0000_0000;

/// The bits of 0.5.
pub const ONE_HALF: u64 = 0x3fe0_0000_0000_0000;

/// The bits of 13.
pub const THIRTEEN: u64 = 0x402a_0000_0000_0000;

/// The bits of 50.
pub const FIFTY: u32 = 0x4248_0000;

impl Default for Movement {
    fn default() -> (m: Self)
        ensures
            m.step == 24,
            m.large_step == 160,
            m.acceleration == (Double { bits: ONE }),
            m.max_step == 600,
    {
        Movement { step: 24, large_step: 160, acceleration: Double { bits: ONE }, max_step: 600 }
    }
}

impl Default for Hints {
    fn default() -> (h: Self)
        ensures
            h.background.0@ == seq![255u8, 220u8, 90u8, 230u8],
            h.foreground.0@ == seq![20u8, 20u8, 20u8, 255u8],
            h.foreground_dark.0@ == seq![240u8, 240u8, 240u8, 255u8],
            h.matched.0@ == seq![120u8, 220u8, 120u8, 230u8],
            h.font_family@ == "monospace"@,
            h.font_size == (Double { bits: THIRTEEN }),
            h.min_gap == 4,
    {
        Hints {
            background: Rgba::new(255, 220, 90, 230),
            foreground: Rgba::new(20, 20, 20, 255),
            foreground_dark: Rgba::new(240, 240, 240, 255),
            matched: Rgba::new(120, 220, 120, 230),
            font_family: String::from_str("monospace"),
            font_size: Double { bits: THIRTEEN },
            min_gap: 4,
        }
    }
}

impl Default for Ocr {
    fn default() -> (o: Self)
        ensures
            o.binary@ == "tesseract"@,
            o.language@ == "eng"@,
            o.min_confidence == (Single { bits: FIFTY }),
            o.min_element_size == 6,
            o.max_word_gap == (Double { bits: ONE }),
            o.line_tolerance == (Double { bits: ONE_HALF }),
            o.tiles == 4,
            o.prewarm,
    {
        Ocr {
            binary: String::from_str("tesseract"),
            language: String::from_str("eng"),
            min_confidence: Single { bits: FIFTY },
            min_element_size: 6,
            max_word_gap: Double { bits: ONE },
            line_tolerance: Double { bits: ONE_HALF },
            tiles: 4,
            prewarm: true,
        }
    }
}

impl Default for Daemon {
    fn default() -> (d: Self)
        ensures
            d.socket is None,
    {
        Daemon { socket: None }
    }
}

impl Default for Config {
    fn default() -> (c: Self)
        ensures
            c.fault() is None,
            call_ensures(Keys::default, (), c.keys),
            call_ensures(Movement::default, (), c.movement),
            call_ensures(Hints::default, (), c.hints),
            call_ensures(Ocr::default, (), c.ocr),
            call_ensures(Daemon::default, (), c.daemon),
    {
        let c = Config {
            keys: Keys::default(),
            movement: Movement::default(),
            hints: Hints::default(),
            ocr: Ocr::default(),
            daemon: Daemon::default(),
        };
        proof {
            reveal_strlit("asdfghjkl");
            assert(!repeats_at(c.keys.hint_alphabet@, 0));
            assert(first_repeat(c.keys.hint_alphabet@, 0) is None) by {
                reveal_with_fuel(first_repeat, 10);
            }
        }
        c
    }
}

// --- Validation -----------------------------------------------------------

/// The character at `i` occurs earlier in `s` too.
pub open spec fn repeats_at(s: Seq<char>, i: int) -> bool {
    exists|j: int| 0 <= j < i && #[trigger] s[j] == s[i]
}

/// The first character of `s`, from position `i` on, that occurs earlier too.
pub open spec fn first_repeat(s: Seq<char>, i: int) -> Option<char>
    decreases s.len() - i,
{
    if i < 0 || i >= s.len() {
        None
    } else if repeats_at(s, i) {
        Some(s[i])
    } else {
        first_repeat(s, i + 1)
    }
}

impl Config {
    /// What is wrong with the configuration, if anything: the first fault in the
    /// order of the checks.
    pub open spec fn fault(self) -> Option<Seq<char>> {
        let alphabet = self.keys.hint_alphabet@;
        if alphabet.len() < 2 {
            Some("keys.hint_alphabet must contain at least 2 characters"@)
        } else if first_repeat(alphabet, 0) is Some {
            Some(
                "keys.hint_alphabet contains a duplicate character: "@ + debug_char(
                    first_repeat(alphabet, 0)->0,
                ),
            )
        } else if self.movement.step <= 0 || self.movement.large_step <= 0 {
            Some("movement steps must be positive"@)
        } else if self.hints.font_size.at_most_zero() {
            Some("hints.font_size must be positive"@)
        } else if self.ocr.min_element_size < 0 {
            Some("ocr.min_element_size must not be negative"@)
        } else if !self.ocr.min_confidence.percentage() {
            Some("ocr.min_confidence must be between 0 and 100"@)
        } else if self.ocr.max_word_gap.at_most_zero() || self.ocr.line_tolerance.at_most_zero() {
            Some("ocr.max_word_gap and ocr.line_tolerance must be positive"@)
        } else {
            None
        }
    }

    /// Reject configurations that would make the rest of the program misbehave.
    pub fn validate(&self) -> (r: Result<()>)
        ensures
            r is Ok <==> self.fault() is None,
            r matches Err(e) ==> e is Config && Some(e->Config_0@) == self.fault(),
    {
        let alphabet = to_chars(self.keys.hint_alphabet.as_str());
        if alphabet.len() < 2 {
            return Err(
                Error::Config(
                    String::from_str("keys.hint_alphabet must contain at least 2 characters"),
                ),
            );
        }
        if let Some(c) = duplicate(&alphabet) {
            return Err(duplicate_character(quoted_char(c).as_str()));
        }
        if self.movement.step <= 0 || self.movement.large_step <= 0 {
            return Err(Error::Config(String::from_str("movement steps must be positive")));
        }
        if self.hints.font_size.is_at_most_zero() {
            return Err(Error::Config(String::from_str("hints.font_size must be positive")));
        }
        if self.ocr.min_element_size < 0 {
            return Err(
                Error::Config(String::from_str("ocr.min_element_size must not be negative")),
            );
        }
        if !self.ocr.min_confidence.is_percentage() {
            return Err(
                Error::Config(String::from_str("ocr.min_confidence must be between 0 and 100")),
            );
        }
        if self.ocr.max_word_gap.is_at_most_zero() || self.ocr.line_tolerance.is_at_most_zero() {
            return Err(
                Error::Config(
                    String::from_str("ocr.max_word_gap and ocr.line_tolerance must be positive"),
                ),
            );
        }
        Ok(())
    }

    /// The hint alphabet as a `Vec<char>`, ready for label generation.
    pub fn hint_alphabet(&self) -> (v: Vec<char>)
        ensures
            v@ == self.keys.hint_alphabet@,
    {
        to_chars(self.keys.hint_alphabet.as_str())
    }

    /// The conventional config path: `$XDG_CONFIG_HOME/mole/config.toml`,
    /// falling back to `~/.config/mole/config.toml`. `xdg` and `home` are the
    /// values of `$XDG_CONFIG_HOME` and `$HOME`; a relative `$XDG_CONFIG_HOME` is
    /// ignored.
    pub fn default_path(xdg: Option<Vec<u8>>, home: Option<Vec<u8>>) -> (r: Option<Vec<u8>>)
        ensures
            match r {
                Some(path) => config_base(bytes_of(xdg), bytes_of(home)) matches Some(base)
                    && path@ == slashed(slashed(base, mole_name()), config_name()),
                None => config_base(bytes_of(xdg), bytes_of(home)) is None,
            },
    {
        let base = match xdg {
            Some(dir) if dir.len() > 0 && dir[0] == 0x2f => dir,
            _ => match home {
                Some(h) => join(&h, &ascii(".config")),
                None => {
                    return None;
                },
            },
        };
        Some(join(&join(&base, &ascii("mole")), &ascii("config.toml")))
    }
}

/// The fault of an alphabet in which a character, shown as `c`, occurs twice.
pub fn duplicate_character(c: &str) -> (r: Error)
    ensures
        r is Config,
        r->Config_0@ == "keys.hint_alphabet contains a duplicate character: "@ + c@,
{
    Error::Config(joined("keys.hint_alphabet contains a duplicate character: ", c))
}

/// The first character of `alphabet` that occurs before, too.
fn duplicate(alphabet: &Vec<char>) -> (r: Option<char>)
    ensures
        r == first_repeat(alphabet@, 0),
{
    let mut i: usize = 0;
    while i < alphabet.len()
        invariant
            i <= alphabet@.len(),
            first_repeat(alphabet@, 0) == first_repeat(alphabet@, i as int),
        decreases alphabet@.len() - i,
    {
        let mut j: usize = 0;
        while j < i
            invariant
                j <= i < alphabet@.len(),
                forall|k: int| 0 <= k < j ==> #[trigger] alphabet@[k] != alphabet@[i as int],
                first_repeat(alphabet@, 0) == first_repeat(alphabet@, i as int),
            decreases i - j,
        {
            if alphabet[j] == alphabet[i] {
                assert(alphabet@[j as int] == alphabet@[i as int]);
                assert(repeats_at(alphabet@, i as int));
                return Some(alphabet[i]);
            }
            j += 1;
        }
        assert(!repeats_at(alphabet@, i as int));
        i += 1;
    }
    None
}

// --- Paths ----------------------------------------------------------------

/// The bytes that an optional path holds.
pub open spec fn bytes_of(v: Option<Vec<u8>>) -> Option<Seq<u8>> {
    match v {
        Some(b) => Some(b@),
        None => None,
    }
}

/// The bytes of a text that holds ASCII characters only.
pub open spec fn ascii_of(s: Seq<char>) -> Seq<u8> {
    s.map_values(|c: char| c as u8)
}

pub open spec fn mole_name() -> Seq<u8> {
    ascii_of("mole"@)
}

pub open spec fn config_name() -> Seq<u8> {
    ascii_of("config.toml"@)
}

/// `name` below the directory `base`: a slash between them, unless `base` is
/// empty or ends in one.
pub open spec fn slashed(base: Seq<u8>, name: Seq<u8>) -> Seq<u8> {
    if base.len() == 0 || base.last() == 0x2f {
        base + name
    } else {
        base.push(0x2f) + name
    }
}

/// The directory that holds the configuration directories: an absolute
/// `$XDG_CONFIG_HOME`, else `.config` below `$HOME`.
pub open spec fn config_base(xdg: Option<Seq<u8>>, home: Option<Seq<u8>>) -> Option<Seq<u8>> {
    if xdg is Some && xdg->0.len() > 0 && xdg->0[0] == 0x2f {
        xdg
    } else {
        match home {
            Some(h) => Some(slashed(h, ascii_of(".config"@))),
            None => None,
        }
    }
}

/// `name` below the directory `base`.
pub(crate) fn join(base: &Vec<u8>, name: &Vec<u8>) -> (r: Vec<u8>)
    ensures
        r@ == slashed(base@, name@),
{
    let mut r: Vec<u8> = Vec::new();
    extend(&mut r, base);
    if base.len() > 0 && base[base.len() - 1] != 0x2f {
        r.push(0x2f);
    }
    extend(&mut r, name);
    r
}

/// Append the bytes of `tail` to `v`.
pub(crate) fn extend(v: &mut Vec<u8>, tail: &Vec<u8>)
    ensures
        final(v)@ == old(v)@ + tail@,
{
    let mut i: usize = 0;
    while i < tail.len()
        invariant
            i <= tail@.len(),
            v@ == old(v)@ + tail@.take(i as int),
        decreases tail@.len() - i,
    {
        v.push(tail[i]);
        assert(tail@.take(i + 1) == tail@.take(i as int).push(tail@[i as int]));
        i += 1;
    }
    assert(tail@.take(i as int) == tail@);
}

/// The bytes of an ASCII text.
pub(crate) fn ascii(s: &str) -> (r: Vec<u8>)
    ensures
        r@ == ascii_of(s@),
{
    let chars = to_chars(s);
    let mut r: Vec<u8> = Vec::new();
    let mut i: usize = 0;
    while i < chars.len()
        invariant
            i <= chars@.len(),
            chars@ == s@,
            r@ == ascii_of(s@.take(i as int)),
        decreases chars@.len() - i,
    {
        r.push(chars[i] as u8);
        assert(r@ == ascii_of(s@.take(i + 1)));
        i += 1;
    }
    assert(s@.take(i as int) == s@);
    r
}

// --- Laws -----------------------------------------------------------------

/// The alphabet of a valid configuration can be labelled with: it has at least
/// two characters and no duplicates.
pub proof fn law_a_valid_alphabet_makes_labels(c: Config)
    requires
        c.fault() is None,
    ensures
        c.keys.hint_alphabet@.len() >= 2,
        distinct(c.keys.hint_alphabet@),
{
    lemma_no_repeat(c.keys.hint_alphabet@, 0);
}

proof fn lemma_no_repeat(s: Seq<char>, i: int)
    requires
        0 <= i <= s.len(),
        first_repeat(s, i) is None,
    ensures
        forall|j: int, k: int| 0 <= j < k < s.len() && i <= k ==> #[trigger] s[j] != #[trigger] s[k],
    decreases s.len() - i,
{
    if i < s.len() {
        lemma_no_repeat(s, i + 1);
        assert(!repeats_at(s, i));
    }
}

/// A configuration can be used exactly if its alphabet has two or more characters,
/// all of them different, and every number is in its range.
pub proof fn law_a_valid_configuration_is_within_its_ranges(c: Config)
    ensures
        c.fault() is None <==> {
            &&& c.keys.hint_alphabet@.len() >= 2
            &&& forall|i: int, j: int|
                0 <= i < j < c.keys.hint_alphabet@.len() ==> #[trigger] c.keys.hint_alphabet@[i]
                    != #[trigger] c.keys.hint_alphabet@[j]
            &&& c.movement.step > 0
            &&& c.movement.large_step > 0
            &&& !c.hints.font_size.at_most_zero()
            &&& c.ocr.min_element_size >= 0
            &&& c.ocr.min_confidence.percentage()
            &&& !c.ocr.max_word_gap.at_most_zero()
            &&& !c.ocr.line_tolerance.at_most_zero()
        },
{
    let s = c.keys.hint_alphabet@;
    if first_repeat(s, 0) is None {
        lemma_no_repeat(s, 0);
    } else {
        lemma_a_repeat(s, 0);
    }
}

/// The character that is reported as a duplicate occurs twice, and up to its second
/// place nothing else does.
pub proof fn law_the_first_duplicate_is_reported(s: Seq<char>)
    requires
        first_repeat(s, 0) is Some,
    ensures
        exists|i: int, j: int|
            0 <= i < j < s.len() && #[trigger] s[i] == #[trigger] s[j] && s[j] == first_repeat(s, 0)->0
                && forall|a: int, b: int| 0 <= a < b < j ==> #[trigger] s[a] != #[trigger] s[b],
{
    lemma_a_repeat(s, 0);
}

proof fn lemma_a_repeat(s: Seq<char>, k: int)
    requires
        0 <= k <= s.len(),
        first_repeat(s, k) is Some,
        forall|a: int, b: int| 0 <= a < b < k ==> #[trigger] s[a] != #[trigger] s[b],
    ensures
        exists|i: int, j: int|
            0 <= i < j < s.len() && #[trigger] s[i] == #[trigger] s[j] && s[j] == first_repeat(s, k)->0
                && forall|a: int, b: int| 0 <= a < b < j ==> #[trigger] s[a] != #[trigger] s[b],
    decreases s.len() - k,
{
    if repeats_at(s, k) {
        let i = choose|i: int| 0 <= i < k && #[trigger] s[i] == s[k];
        assert(s[i] == s[k]);
    } else {
        assert forall|a: int, b: int| 0 <= a < b < k + 1 implies #[trigger] s[a] != #[trigger] s[b] by {
            if b == k && s[a] == s[b] {
                assert(repeats_at(s, k));
            }
        }
        lemma_a_repeat(s, k + 1);
    }
}

/// The alphabet is looked at before anything else, then the steps, the font, the
/// element size, the confidence and the factors; the first fault is named, and each
/// has its own words.
pub proof fn law_the_first_fault_is_named(c: Config)
    ensures
        ({
            let letters = c.keys.hint_alphabet@.len() >= 2;
            let unique = first_repeat(c.keys.hint_alphabet@, 0) is None;
            let steps = c.movement.step > 0 && c.movement.large_step > 0;
            let font = !c.hints.font_size.at_most_zero();
            let size = c.ocr.min_element_size >= 0;
            let sure = c.ocr.min_confidence.percentage();
            &&& !letters ==> c.fault() == Some(
                "keys.hint_alphabet must contain at least 2 characters"@,
            )
            &&& letters && !unique ==> c.fault() == Some(
                "keys.hint_alphabet contains a duplicate character: "@ + debug_char(
                    first_repeat(c.keys.hint_alphabet@, 0)->0,
                ),
            )
            &&& letters && unique && !steps ==> c.fault() == Some("movement steps must be positive"@)
            &&& letters && unique && steps && !font ==> c.fault() == Some(
                "hints.font_size must be positive"@,
            )
            &&& letters && unique && steps && font && !size ==> c.fault() == Some(
                "ocr.min_element_size must not be negative"@,
            )
            &&& letters && unique && steps && font && size && !sure ==> c.fault() == Some(
                "ocr.min_confidence must be between 0 and 100"@,
            )
            &&& letters && unique && steps && font && size && sure && (
            c.ocr.max_word_gap.at_most_zero() || c.ocr.line_tolerance.at_most_zero()) ==> c.fault()
                == Some("ocr.max_word_gap and ocr.line_tolerance must be positive"@)
        }),
{
}

/// Luminance weighs the channels: a step of red, green or blue counts 299, 587 or
/// 114, opacity counts nothing, and black has none.
pub proof fn law_channels_have_their_weights(c: Rgba, d: Rgba)
    ensures
        c.0@[0] == d.0@[0] && c.0@[1] == d.0@[1] && c.0@[2] == d.0@[2] ==> c.light() == d.light(),
        c.0@[1] == d.0@[1] && c.0@[2] == d.0@[2] ==> c.light() - d.light() == 299 * (c.0@[0]
            - d.0@[0]),
        c.0@[0] == d.0@[0] && c.0@[2] == d.0@[2] ==> c.light() - d.light() == 587 * (c.0@[1]
            - d.0@[1]),
        c.0@[0] == d.0@[0] && c.0@[1] == d.0@[1] ==> c.light() - d.light() == 114 * (c.0@[2]
            - d.0@[2]),
        c.0@[0] == 0 && c.0@[1] == 0 && c.0@[2] == 0 ==> c.light() == 0,
        c.r() == c.0@[0] && c.g() == c.0@[1] && c.b() == c.0@[2] && c.a() == c.0@[3],
{
}

/// A name is put behind a directory with one slash between them, and no second one
/// if the directory already ends in one.
pub proof fn law_names_are_put_behind_their_directory(base: Seq<u8>, name: Seq<u8>)
    ensures
        slashed(base, name).skip(slashed(base, name).len() - name.len()) == name,
        slashed(base, name).take(base.len() as int) == base,
        base.len() > 0 && base.last() != 0x2f ==> slashed(base, name).len() == base.len() + 1
            + name.len() && slashed(base, name)[base.len() as int] == 0x2f,
        base.len() == 0 || base.last() == 0x2f ==> slashed(base, name).len() == base.len()
            + name.len(),
{
    let all = slashed(base, name);
    assert(all.skip(all.len() - name.len()) == name);
    assert(all.take(base.len() as int) == base);
}

/// The configuration is looked for in an absolute `$XDG_CONFIG_HOME`, else below
/// `$HOME`, and nowhere without either.
pub proof fn law_the_configuration_is_found_by_the_environment(
    xdg: Option<Seq<u8>>,
    home: Option<Seq<u8>>,
)
    ensures
        xdg matches Some(x) && x.len() > 0 && x[0] == 0x2f ==> config_base(xdg, home) == xdg,
        !(xdg matches Some(x) && x.len() > 0 && x[0] == 0x2f) ==> match home {
            Some(h) => config_base(xdg, home) == Some(slashed(h, ascii_of(".config"@))),
            None => config_base(xdg, home) is None,
        },
        mole_name() == ascii_of("mole"@),
        config_name() == ascii_of("config.toml"@),
{
}

/// An ASCII text has one byte for each of its characters: the character's number.
pub proof fn law_ascii_is_one_byte_per_character(s: Seq<char>, i: int)
    requires
        0 <= i < s.len(),
    ensures
        ascii_of(s).len() == s.len(),
        '\0' <= s[i] && s[i] <= '~' ==> ascii_of(s)[i] as int == s[i] as int,
{
    assert(ascii_of(s)[i] == s[i] as u8);
}

} // verus!
