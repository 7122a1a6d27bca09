//! Global hotkeys.
//!
//! A key combination fires regardless of which window has focus. Each grab is
//! registered four times to stay robust against the Caps-Lock and Num-Lock
//! modifier bits, which X ORs into the event state.
//!
//! In practice most users trigger mole via the daemon's Unix socket from their
//! window manager (`exec mole click`), so this is here for setups that would
//! rather grab the key directly than route through a WM binding.

use vstd::prelude::*;

use super::grab::shift_bits;

verus! {

/// A set of modifier keys, as the bits of an X modifier state.
#[derive(Debug, Clone, Copy, PartialEq, Eq, Structural)]
pub struct Modifiers {
    pub mask: u16,
}

impl Modifiers {
    pub fn bits(&self) -> (b: u16)
        ensures
            b == self.mask,
    {
        self.mask
    }
}

/// A key + modifier combination bound to a named action.
#[derive(Debug, Clone)]
pub struct Hotkey {
    pub keycode: u8,
    pub modifiers: Modifiers,
    pub action: String,
}

/// The Caps Lock bit.
pub const CAPS_LOCK: u16 = 0x02;

/// The Num Lock bit (Mod2).
pub const NUM_LOCK: u16 = 0x10;

/// Shift, Control, Mod1 and Mod4: the modifier bits that are compared.
pub const SIGNIFICANT: u16 = 0x4d;

/// `ModMask::CONTROL` of x11rb as a number: bit 2 of a modifier state.
#[verifier::external_body]
fn control_bits() -> (m: u16)
    ensures
        m == 4,
{
    u16::from(x11rb::protocol::xproto::ModMask::CONTROL)
}

/// `ModMask::M1` of x11rb as a number: bit 3 of a modifier state.
#[verifier::external_body]
fn mod1_bits() -> (m: u16)
    ensures
        m == 8,
{
    u16::from(x11rb::protocol::xproto::ModMask::M1)
}

/// `ModMask::M4` of x11rb as a number: bit 6 of a modifier state.
#[verifier::external_body]
fn mod4_bits() -> (m: u16)
    ensures
        m == 64,
{
    u16::from(x11rb::protocol::xproto::ModMask::M4)
}

/// The set of modifier bits we actually compare against (everything else, like
/// the lock bits, is masked out of incoming events).
pub fn significant_mask() -> (m: u16)
    ensures
        m == SIGNIFICANT,
{
    let s = shift_bits();
    let c = control_bits();
    let a = mod1_bits();
    let w = mod4_bits();
    assert(1u16 | 4u16 | 8u16 | 64u16 == 0x4d) by (bit_vector);
    s | c | a | w
}

/// The modifier masks that a combination is grabbed with: as it is, and with the
/// lock bits that must not matter.
pub open spec fn lock_masks(mods: u16) -> Seq<u16> {
    seq![mods, mods | CAPS_LOCK, mods | NUM_LOCK, mods | 0x12]
}

/// A hotkey fires on keycode `code` in modifier state `state`.
pub open spec fn fires(hk: Hotkey, code: u8, state: u16) -> bool {
    hk.keycode == code && hk.modifiers.mask == state & SIGNIFICANT
}

/// The registered combinations, in order.
#[derive(Debug)]
pub struct HotkeyManager {
    pub bindings: Vec<Hotkey>,
}

impl HotkeyManager {
    pub fn new() -> (m: Self)
        ensures
            m.bindings@.len() == 0,
    {
        HotkeyManager { bindings: Vec::new() }
    }

    /// Remember `hotkey`, and return the modifier masks to grab its key with.
    pub fn register(&mut self, hotkey: Hotkey) -> (masks: Vec<u16>)
        ensures
            final(self).bindings@ == old(self).bindings@.push(hotkey),
            masks@ == lock_masks(hotkey.modifiers.mask),
    {
        let masks = grab_masks(hotkey.modifiers);
        self.bindings.push(hotkey);
        masks
    }

    /// The action of the first registered hotkey that a key press fires, if any.
    /// The lock bits of `state` do not matter.
    pub fn action(&self, keycode: u8, state: u16) -> (r: Option<String>)
        ensures
            match r {
                Some(a) => exists|i: int|
                    0 <= i < self.bindings@.len() && fires(
                        #[trigger] self.bindings@[i],
                        keycode,
                        state,
                    ) && a@ == self.bindings@[i].action@ && forall|j: int|
                        0 <= j < i ==> !fires(#[trigger] self.bindings@[j], keycode, state),
                None => forall|i: int|
                    0 <= i < self.bindings@.len() ==> !fires(
                        #[trigger] self.bindings@[i],
                        keycode,
                        state,
                    ),
            },
    {
        let wanted = state & significant_mask();
        let mut i: usize = 0;
        while i < self.bindings.len()
            invariant
                i <= self.bindings@.len(),
                wanted == state & SIGNIFICANT,
                forall|j: int|
                    0 <= j < i ==> !fires(#[trigger] self.bindings@[j], keycode, state),
            decreases self.bindings@.len() - i,
        {
            let hk = &self.bindings[i];
            if hk.keycode == keycode && hk.modifiers.bits() == wanted {
                let a = hk.action.clone();
                assert(fires(self.bindings@[i as int], keycode, state) && a@
                    == self.bindings@[i as int].action@);
                return Some(a);
            }
            i += 1;
        }
        None
    }
}

/// The four masks a combination is grabbed with.
pub fn grab_masks(modifiers: Modifiers) -> (masks: Vec<u16>)
    ensures
        masks@ == lock_masks(modifiers.mask),
{
    let m = modifiers.bits();
    let mut masks: Vec<u16> = Vec::new();
    masks.push(m);
    masks.push(m | CAPS_LOCK);
    masks.push(m | NUM_LOCK);
    masks.push(m | (CAPS_LOCK | NUM_LOCK));
    assert(0x02u16 | 0x10u16 == 0x12) by (bit_vector);
    assert(masks@ == lock_masks(modifiers.mask));
    masks
}

// --- Laws -----------------------------------------------------------------

/// Caps Lock and Num Lock never keep a hotkey from firing, nor make one fire.
pub proof fn law_locks_do_not_matter(hk: Hotkey, code: u8, state: u16)
    ensures
        fires(hk, code, state | CAPS_LOCK) == fires(hk, code, state),
        fires(hk, code, state | NUM_LOCK) == fires(hk, code, state),
{
    assert((state | 0x02) & 0x4d == state & 0x4d) by (bit_vector);
    assert((state | 0x10) & 0x4d == state & 0x4d) by (bit_vector);
}

/// A hotkey fires on its own key with its own modifiers, and on nothing else: of
/// the state, Shift, Control, Mod1 and Mod4 are compared, and no other bit.
pub proof fn law_a_hotkey_fires_on_its_own_combination(hk: Hotkey, code: u8, state: u16)
    ensures
        fires(hk, code, state) ==> hk.keycode == code,
        fires(hk, code, state) <==> hk.keycode == code && hk.modifiers.mask == state & 0x4d,
        hk.keycode == code && hk.modifiers.mask & 0x4d == hk.modifiers.mask ==> fires(
            hk,
            code,
            hk.modifiers.mask,
        ),
{
}

/// A combination is grabbed once without the locks, once with each and once with
/// both, its own modifiers kept each time.
pub proof fn law_grabs_differ_by_the_locks_alone(mods: u16)
    ensures
        lock_masks(mods).len() == 4,
        forall|lock: u16|
            lock == 0 || lock == 0x02 || lock == 0x10 || lock == 0x12 ==> #[trigger] lock_masks(
                mods,
            ).contains(mods | lock),
        forall|i: int| 0 <= i < 4 ==> (#[trigger] lock_masks(mods)[i]) & 0x4d == mods & 0x4d,
{
    let m = lock_masks(mods);
    assert(mods | 0 == mods) by (bit_vector);
    assert((mods | 0x02) & 0x4d == mods & 0x4d && (mods | 0x10) & 0x4d == mods & 0x4d && (mods | 0x12)
        & 0x4d == mods & 0x4d) by (bit_vector);
    assert forall|lock: u16|
        lock == 0 || lock == 0x02 || lock == 0x10 || lock == 0x12 implies #[trigger] m.contains(
        mods | lock,
    ) by {
        if lock == 0 {
            assert(m[0] == mods | lock);
        } else if lock == 0x02 {
            assert(m[1] == mods | lock);
        } else if lock == 0x10 {
            assert(m[2] == mods | lock);
        } else {
            assert(m[3] == mods | lock);
        }
    }
}

} // verus!
