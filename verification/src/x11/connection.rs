//! Key lookups and the display's geometry.
//!
//! X grabs and synthetic key events are expressed in keycodes, but humans and
//! config files speak in symbols. [`Keymap`] holds the server's keyboard mapping
//! in both directions, built once at startup.

use std::collections::HashMap;

use vstd::prelude::*;
use vstd::std_specs::hash::*;

use crate::detect::ocr::cache::visible_parts;
use crate::geometry::Rect;

verus! {

broadcast use group_hash_axioms;

/// A decoded key event, abstracted away from raw keycodes.
#[derive(Debug, Clone, Copy, PartialEq, Eq, Structural)]
pub enum KeyInput {
    /// A printable character, plus whether Shift was held. The character is the
    /// key's *unshifted* symbol, so a binding matches the same key with or
    /// without Shift; `shift` is reported separately so it can be used as a
    /// modifier (e.g. large-step movement) on any key, not just letters.
    Char { c: char, shift: bool },
    Escape,
    Backspace,
    Enter,
    /// Arrow keys, so free-move can be steered with them as well as hjkl.
    Left,
    Right,
    Up,
    Down,
    /// Anything we don't special-case.
    Other,
}

/// The server's keyboard mapping in the two forms the rest of the code needs.
#[derive(Debug)]
pub struct Keymap {
    /// Keysym → keycode, for grabs and synthetic input.
    pub forward: HashMap<u32, u8>,
    pub min_keycode: u8,
    pub syms_per: usize,
    /// The raw table, kept for decoding incoming key events.
    pub keysyms: Vec<u32>,
}

/// The first non-zero of the symbols `[at, end)`: what an unmodified key press
/// produces.
pub open spec fn first_symbol(keysyms: Seq<u32>, at: int, end: int) -> Option<u32>
    decreases end - at,
{
    if at >= end || at >= keysyms.len() || at < 0 {
        None
    } else if keysyms[at] != 0 {
        Some(keysyms[at])
    } else {
        first_symbol(keysyms, at + 1, end)
    }
}

/// Symbol → keycode over the first `n` keycodes: the lowest keycode that produces
/// a symbol gets it.
pub open spec fn forward_map(keysyms: Seq<u32>, per: int, min: int, n: nat) -> Map<u32, u8>
    decreases n,
{
    if n == 0 {
        Map::empty()
    } else {
        let before = forward_map(keysyms, per, min, (n - 1) as nat);
        match first_symbol(keysyms, (n - 1) * per, n * per) {
            Some(sym) => if before.dom().contains(sym) {
                before
            } else {
                before.insert(sym, (min + (n - 1)) as u8)
            },
            None => before,
        }
    }
}

/// How many keycodes a table of `len` symbols, `per` each, describes. The last
/// one may be cut short.
pub open spec fn keycodes_in(len: int, per: int) -> int {
    (len + per - 1) / per
}

/// The number of symbols per keycode that the table is read with.
pub open spec fn stride_of(per: int) -> int {
    if per > 0 {
        per
    } else {
        1
    }
}

impl Keymap {
    /// The symbol of `keycode` at shift `level`; 0 where the table has none.
    pub open spec fn symbol(self, keycode: int, level: int) -> u32 {
        let at = (keycode - self.min_keycode) * self.syms_per + level;
        if keycode < self.min_keycode || self.syms_per == 0 || at >= self.keysyms@.len() {
            0
        } else {
            self.keysyms@[at]
        }
    }

    /// Read the server's keyboard mapping: `syms_per` symbols for each keycode
    /// from `min_keycode` on. The first non-zero keysym of each keycode wins the
    /// forward lookup, which is what an unmodified key press produces.
    pub fn load(min_keycode: u8, syms_per: usize, keysyms: Vec<u32>) -> (k: Self)
        requires
            min_keycode + keycodes_in(keysyms@.len() as int, stride_of(syms_per as int)) <= 256,
        ensures
            k.min_keycode == min_keycode,
            k.syms_per == syms_per,
            k.keysyms@ == keysyms@,
            k.forward@ == forward_map(
                keysyms@,
                stride_of(syms_per as int),
                min_keycode as int,
                keycodes_in(keysyms@.len() as int, stride_of(syms_per as int)) as nat,
            ),
    {
        let per = if syms_per > 0 {
            syms_per
        } else {
            1
        };
        let mut forward: HashMap<u32, u8> = HashMap::new();
        let len = keysyms.len();
        let ghost count = keycodes_in(len as int, per as int);
        let mut at: usize = 0;
        let mut n: u16 = 0;
        proof {
            lemma_keycodes(len as int, per as int, 0);
            assert(0 * per == 0) by (nonlinear_arith);
        }
        while at < len
            invariant
                per == stride_of(syms_per as int),
                per >= 1,
                len == keysyms@.len(),
                count == keycodes_in(len as int, per as int),
                min_keycode + count <= 256,
                n <= count,
                n * per >= at,
                at < len ==> at == n * per,
                at == len ==> n == count,
                at <= len,
                forward@ == forward_map(keysyms@, per as int, min_keycode as int, n as nat),
            decreases len - at,
        {
            proof {
                lemma_keycodes(len as int, per as int, n as int);
                lemma_keycodes(len as int, per as int, n + 1);
                assert((n + 1) * per == n * per + per) by (nonlinear_arith);
            }
            let end = if len - at > per {
                at + per
            } else {
                len
            };
            let keycode = (min_keycode as u16 + n) as u8;
            if let Some(sym) = find_symbol(&keysyms, at, end) {
                proof {
                    lemma_first_symbol_end(keysyms@, at as int, end as int, at + per);
                }
                if !forward.contains_key(&sym) {
                    forward.insert(sym, keycode);
                }
            } else {
                proof {
                    lemma_first_symbol_end(keysyms@, at as int, end as int, at + per);
                }
            }
            at = end;
            n += 1;
        }
        Keymap { forward, min_keycode, syms_per, keysyms }
    }

    /// The keysym produced by `keycode` at shift `level` (0 = unshifted).
    pub fn keysym(&self, keycode: u8, level: usize) -> (s: u32)
        ensures
            s == self.symbol(keycode as int, level as int),
    {
        if keycode < self.min_keycode || self.syms_per == 0 {
            return 0;
        }
        let row = (keycode - self.min_keycode) as u128;
        let per = self.syms_per as u128;
        assert(0 <= row * per <= 0xff * 0x1_0000_0000_0000_0000) by (nonlinear_arith)
            requires
                0 <= row <= 0xff,
                0 <= per <= 0x1_0000_0000_0000_0000,
        ;
        let at = row * per + level as u128;
        if at < self.keysyms.len() as u128 {
            self.keysyms[at as usize]
        } else {
            0
        }
    }

    /// Decode a raw key press into a [`KeyInput`].
    ///
    /// The character is read at the *unshifted* level so a binding matches its
    /// key regardless of Shift; `shifted` is carried through on
    /// [`KeyInput::Char`] for callers that treat Shift as a modifier.
    pub fn decode_key(&self, keycode: u8, shifted: bool) -> (k: KeyInput)
        ensures
            k == decoded(self.symbol(keycode as int, 0), shifted),
    {
        let sym = self.keysym(keycode, 0);
        if sym == 0xff1b {
            KeyInput::Escape
        } else if sym == 0xff08 {
            KeyInput::Backspace
        } else if sym == 0xff0d || sym == 0xff8d {
            KeyInput::Enter  // Return, KP_Enter
        } else if sym == 0xff51 {
            KeyInput::Left  // arrow keys
        } else if sym == 0xff52 {
            KeyInput::Up
        } else if sym == 0xff53 {
            KeyInput::Right
        } else if sym == 0xff54 {
            KeyInput::Down
        } else if (0x20 <= sym && sym <= 0x7e) || (0xa0 <= sym && sym <= 0xff) {
            // Latin-1 printable range maps straight to a char.
            KeyInput::Char { c: sym as u8 as char, shift: shifted }
        } else {
            KeyInput::Other
        }
    }

    /// Look up the keycode that currently produces `keysym`, if any.
    pub fn keycode(&self, keysym: u32) -> (k: Option<u8>)
        ensures
            k == if self.forward@.dom().contains(keysym) {
                Some(self.forward@[keysym])
            } else {
                None
            },
    {
        match self.forward.get(&keysym) {
            Some(k) => Some(*k),
            None => None,
        }
    }

    /// Convenience: keycode for a printable ASCII character. For Latin-1
    /// characters the keysym equals the codepoint.
    pub fn keycode_for_char(&self, c: char) -> (k: Option<u8>)
        ensures
            k == if self.forward@.dom().contains(c as u32) {
                Some(self.forward@[c as u32])
            } else {
                None
            },
    {
        self.keycode(keysym_for_char(c))
    }
}

/// What a keysym means: the editing and arrow keys by their codes, the printable
/// Latin-1 range as characters, anything else as [`KeyInput::Other`].
pub open spec fn decoded(sym: u32, shifted: bool) -> KeyInput {
    if sym == 0xff1b {
        KeyInput::Escape
    } else if sym == 0xff08 {
        KeyInput::Backspace
    } else if sym == 0xff0d || sym == 0xff8d {
        KeyInput::Enter
    } else if sym == 0xff51 {
        KeyInput::Left
    } else if sym == 0xff52 {
        KeyInput::Up
    } else if sym == 0xff53 {
        KeyInput::Right
    } else if sym == 0xff54 {
        KeyInput::Down
    } else if 0x20 <= sym <= 0x7e || 0xa0 <= sym <= 0xff {
        KeyInput::Char { c: sym as char, shift: shifted }
    } else {
        KeyInput::Other
    }
}

/// Keycode `i` is described exactly if its symbols start inside the table.
proof fn lemma_keycodes(len: int, per: int, i: int)
    requires
        per >= 1,
        len >= 0,
        i >= 0,
    ensures
        i < keycodes_in(len, per) <==> i * per < len,
        keycodes_in(len, per) >= 0,
{
    let n = keycodes_in(len, per);
    assert(n >= 0 && (i < n <==> i * per < len)) by (nonlinear_arith)
        requires
            n == (len + per - 1) / per,
            per >= 1,
            len >= 0,
            i >= 0,
    ;
}

/// Looking beyond the end of the table changes nothing.
proof fn lemma_first_symbol_end(keysyms: Seq<u32>, at: int, end: int, far: int)
    requires
        0 <= at <= end <= keysyms.len(),
        end == far || (end == keysyms.len() && end <= far),
    ensures
        first_symbol(keysyms, at, end) == first_symbol(keysyms, at, far),
    decreases end - at,
{
    if at < end && keysyms[at] == 0 {
        lemma_first_symbol_end(keysyms, at + 1, end, far);
    }
}

/// The first non-zero of the symbols `[at, end)`.
fn find_symbol(keysyms: &Vec<u32>, at: usize, end: usize) -> (r: Option<u32>)
    requires
        at <= end <= keysyms@.len(),
    ensures
        r == first_symbol(keysyms@, at as int, end as int),
{
    let mut i = at;
    while i < end
        invariant
            at <= i <= end <= keysyms@.len(),
            first_symbol(keysyms@, at as int, end as int) == first_symbol(
                keysyms@,
                i as int,
                end as int,
            ),
        decreases end - i,
    {
        if keysyms[i] != 0 {
            return Some(keysyms[i]);
        }
        i += 1;
    }
    None
}

/// Map a printable character to its X keysym. Latin-1 codepoints map directly;
/// for any other character this is the codepoint too, which is not its keysym.
pub fn keysym_for_char(c: char) -> (s: u32)
    ensures
        s == c as u32,
{
    c as u32
}

/// The full root-window rectangle.
pub fn root_bounds(root_width: u16, root_height: u16) -> (r: Rect)
    ensures
        r == (Rect { x: 0, y: 0, width: root_width as i32, height: root_height as i32 }),
{
    Rect::new(0, 0, root_width as i32, root_height as i32)
}

/// The rectangles of the physically connected monitors, in root coordinates, from
/// what the server reported (`None` if it could not say), clamped to the root.
///
/// On a multi-head setup the root window is the *bounding box* of all
/// monitors, which can hold regions no monitor actually covers, e.g. the
/// area below a shorter monitor sitting beside a taller one. The server
/// returns undefined pixels there, and OCR must not be fed them (a band that
/// spans such a region recognises nothing). This reports the real per-monitor
/// rectangles so OCR can stay inside them.
///
/// Falls back to the whole root if nothing usable was reported, so a single-head
/// display behaves exactly the same.
pub fn monitors(reported: Option<Vec<Rect>>, root: Rect) -> (r: Vec<Rect>)
    ensures
        ({
            let parts = match reported {
                Some(rects) => visible_parts(rects@, root),
                None => Seq::empty(),
            };
            r@ == if parts.len() == 0 {
                seq![root]
            } else {
                parts
            }
        }),
{
    let mut r: Vec<Rect> = Vec::new();
    if let Some(rects) = reported {
        let mut i: usize = 0;
        while i < rects.len()
            invariant
                i <= rects@.len(),
                r@ == visible_parts(rects@.take(i as int), root),
            decreases rects@.len() - i,
        {
            assert(rects@.take(i + 1).drop_last() == rects@.take(i as int));
            if let Some(part) = rects[i].clamp_to(root) {
                r.push(part);
            }
            i += 1;
        }
        assert(rects@.take(i as int) == rects@);
    }
    if r.len() == 0 {
        r.push(root);
        assert(r@ == seq![root]);
    }
    r
}

// --- Laws -----------------------------------------------------------------

/// Shift never changes which key was meant: with and without it, a key decodes
/// to the same input, but for the note that Shift was held.
pub proof fn law_shift_does_not_change_the_key(sym: u32)
    ensures
        match (decoded(sym, true), decoded(sym, false)) {
            (KeyInput::Char { c: a, shift: s }, KeyInput::Char { c: b, shift: t }) => a == b && s
                && !t,
            (a, b) => a == b,
        },
{
}

/// The forward lookup finds a key that produces the symbol: the keycode found
/// for a symbol has it as its first non-zero symbol, and no lower keycode does.
pub proof fn law_forward_lookup_finds_the_first_key(
    keysyms: Seq<u32>,
    per: int,
    min: int,
    n: nat,
    sym: u32,
)
    requires
        0 <= min,
        min + n <= 256,
        forward_map(keysyms, per, min, n).dom().contains(sym),
    ensures
        ({
            let i = forward_map(keysyms, per, min, n)[sym] - min;
            &&& 0 <= i < n
            &&& first_symbol(keysyms, i * per, (i + 1) * per) == Some(sym)
            &&& forall|j: int|
                0 <= j < i ==> #[trigger] first_symbol(keysyms, j * per, (j + 1) * per) != Some(sym)
        }),
    decreases n,
{
    if n > 0 {
        let before = forward_map(keysyms, per, min, (n - 1) as nat);
        if before.dom().contains(sym) {
            law_forward_lookup_finds_the_first_key(keysyms, per, min, (n - 1) as nat, sym);
        } else {
            lemma_no_earlier_key(keysyms, per, min, (n - 1) as nat, sym);
        }
    }
}

proof fn lemma_no_earlier_key(keysyms: Seq<u32>, per: int, min: int, n: nat, sym: u32)
    requires
        !forward_map(keysyms, per, min, n).dom().contains(sym),
    ensures
        forall|j: int|
            0 <= j < n ==> #[trigger] first_symbol(keysyms, j * per, (j + 1) * per) != Some(sym),
    decreases n,
{
    if n > 0 {
        lemma_no_earlier_key(keysyms, per, min, (n - 1) as nat, sym);
    }
}

/// Printable Latin-1 symbols are typed as themselves, and nothing else is typed as
/// a character: what decodes to a character has that character's number.
pub proof fn law_characters_are_their_symbols(sym: u32, shifted: bool)
    ensures
        decoded(sym, shifted) is Char <==> 0x20 <= sym <= 0x7e || 0xa0 <= sym <= 0xff,
        decoded(sym, shifted) matches KeyInput::Char { c, shift } ==> c as u32 == sym && shift
            == shifted,
{
}

/// Each editing and arrow key has its own symbols, which no other key shares.
pub proof fn law_special_keys_have_their_own_symbols(sym: u32, shifted: bool)
    ensures
        decoded(sym, shifted) is Escape <==> sym == 0xff1b,
        decoded(sym, shifted) is Backspace <==> sym == 0xff08,
        decoded(sym, shifted) is Enter <==> sym == 0xff0d || sym == 0xff8d,
        decoded(sym, shifted) is Left <==> sym == 0xff51,
        decoded(sym, shifted) is Up <==> sym == 0xff52,
        decoded(sym, shifted) is Right <==> sym == 0xff53,
        decoded(sym, shifted) is Down <==> sym == 0xff54,
{
}

/// The table holds `syms_per` symbols for each keycode in turn, from the first
/// keycode on: level 0 of the next keycode comes right behind the last level of
/// this one. Outside of the table there is no symbol.
pub proof fn law_symbols_stand_in_rows(k: Keymap, keycode: int, level: int)
    requires
        0 <= level,
        0 <= keycode,
    ensures
        k.syms_per > 0 && level < k.keysyms@.len() ==> k.symbol(k.min_keycode as int, level)
            == k.keysyms@[level],
        keycode >= k.min_keycode && k.syms_per > 0 ==> k.symbol(keycode + 1, level) == k.symbol(
            keycode,
            level + k.syms_per,
        ),
        keycode < k.min_keycode || k.syms_per == 0 ==> k.symbol(keycode, level) == 0,
        k.symbol(keycode, level) == 0 || k.keysyms@.contains(k.symbol(keycode, level)),
        level >= k.keysyms@.len() ==> k.symbol(keycode, level) == 0,
{
    let n = k.syms_per as int;
    let d = keycode - k.min_keycode;
    assert((d + 1) * n == d * n + n) by (nonlinear_arith);
    assert(0 * n == 0) by (nonlinear_arith);
    if keycode >= k.min_keycode && n > 0 {
        assert(d * n >= 0) by (nonlinear_arith)
            requires
                d >= 0,
                n >= 0,
        ;
    }
}

/// Every key that has a symbol of its own can be looked up by it: the lookup knows
/// the first non-zero symbol of each of the first `n` keycodes.
pub proof fn law_every_key_can_be_looked_up(keysyms: Seq<u32>, per: int, min: int, n: nat, i: int)
    requires
        0 <= i < n,
        first_symbol(keysyms, i * per, (i + 1) * per) is Some,
    ensures
        forward_map(keysyms, per, min, n).dom().contains(
            first_symbol(keysyms, i * per, (i + 1) * per)->0,
        ),
    decreases n,
{
    if i < n - 1 {
        law_every_key_can_be_looked_up(keysyms, per, min, (n - 1) as nat, i);
    }
}

/// The first non-zero symbol of a range is in it, is not zero, and has only zeros
/// before it.
pub proof fn law_the_first_symbol_is_the_first(keysyms: Seq<u32>, at: int, end: int)
    requires
        0 <= at,
        end <= keysyms.len(),
    ensures
        match first_symbol(keysyms, at, end) {
            Some(sym) => sym != 0 && exists|k: int|
                at <= k < end && #[trigger] keysyms[k] == sym && forall|j: int|
                    at <= j < k ==> #[trigger] keysyms[j] == 0,
            None => forall|j: int| at <= j < end ==> #[trigger] keysyms[j] == 0,
        },
    decreases end - at,
{
    if at < end {
        if keysyms[at] != 0 {
            assert(keysyms[at] == first_symbol(keysyms, at, end)->0);
        } else {
            law_the_first_symbol_is_the_first(keysyms, at + 1, end);
        }
    }
}

} // verus!
