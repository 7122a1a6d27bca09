//! A bare keyboard grab for free-move mode.
//!
//! Free-move shows nothing of its own: the pointer glides over the *live*
//! desktop and any clicks fall through to the apps beneath. So there is no window
//! and no rendering at all. We simply grab the keyboard on the root window, read
//! the key transitions, and warp the real pointer.

use vstd::prelude::*;

use super::connection::{decoded, KeyInput, Keymap};

verus! {

/// A key going down (`pressed = true`) or coming back up, with X auto-repeat
/// filtered out so a held key reads as one press until it is really released.
#[derive(Debug, Clone, Copy, PartialEq, Eq, Structural)]
pub struct KeyTransition {
    pub input: KeyInput,
    pub pressed: bool,
}

/// One raw key event: `(pressed, keycode, modifier state, time)`.
pub type RawKey = (bool, u8, u16, u32);

/// How often a grab is tried before giving up; another grab may momentarily be in
/// the way.
pub const GRAB_TRIES: u32 = 20;

/// What to do after a grab was answered.
#[derive(Debug, Clone, Copy, PartialEq, Eq, Structural)]
pub enum GrabStep {
    /// The keyboard is ours.
    Granted,
    /// Wait a moment and ask again.
    Retry,
    /// It will not be ours.
    GiveUp,
}

/// `ModMask::SHIFT` of x11rb as a number: bit 0 of a modifier state.
#[verifier::external_body]
pub(crate) fn shift_bits() -> (m: u16)
    ensures
        m == 1,
{
    u16::from(x11rb::protocol::xproto::ModMask::SHIFT)
}

/// `GrabStatus::SUCCESS` of x11rb as a number: the status of a grab that was
/// granted is 0.
#[verifier::external_body]
fn granted_status() -> (s: u8)
    ensures
        s == 0,
{
    u8::from(x11rb::protocol::xproto::GrabStatus::SUCCESS)
}

/// What to do after try number `attempt` (from 0 on) was answered with `status`.
pub fn grab_step(attempt: u32, status: u8) -> (s: GrabStep)
    ensures
        s == if status == 0 {
            GrabStep::Granted
        } else if attempt + 1 < GRAB_TRIES {
            GrabStep::Retry
        } else {
            GrabStep::GiveUp
        },
{
    if status == granted_status() {
        GrabStep::Granted
    } else if attempt < GRAB_TRIES - 1 {
        GrabStep::Retry
    } else {
        GrabStep::GiveUp
    }
}

/// Whether Shift is held in a modifier state.
pub fn is_shifted(state: u16) -> (b: bool)
    ensures
        b == (state % 2 == 1),
{
    let bits = shift_bits();
    assert((state & 1 != 0) == (state % 2 == 1)) by (bit_vector);
    state & bits != 0
}

/// `a` and `b` are a repetition of a held key: a release and a press of the same
/// key at the same time.
pub open spec fn repeats(a: RawKey, b: RawKey) -> bool {
    !a.0 && b.0 && a.1 == b.1 && a.3 == b.3
}

/// The events without the repetitions of held keys, read from the front.
pub open spec fn collapsed(raw: Seq<RawKey>) -> Seq<(bool, u8, u16)>
    decreases raw.len(),
{
    if raw.len() == 0 {
        Seq::empty()
    } else if raw.len() > 1 && repeats(raw[0], raw[1]) {
        collapsed(raw.skip(2))
    } else {
        seq![(raw[0].0, raw[0].1, raw[0].2)] + collapsed(raw.skip(1))
    }
}

/// Collapse X auto-repeat in a queued run of key events: a release immediately
/// followed by a press of the same keycode at the same timestamp is the server
/// repeating a held key, so both are dropped. Returns the surviving transitions
/// as `(pressed, keycode, state)` (time no longer needed).
pub fn collapse_autorepeat(raw: &[RawKey]) -> (out: Vec<(bool, u8, u16)>)
    ensures
        out@ == collapsed(raw@),
{
    let mut out: Vec<(bool, u8, u16)> = Vec::new();
    let mut i: usize = 0;
    assert(raw@.skip(0) == raw@);
    while i < raw.len()
        invariant
            i <= raw@.len(),
            out@ + collapsed(raw@.skip(i as int)) == collapsed(raw@),
        decreases raw@.len() - i,
    {
        let ghost rest = raw@.skip(i as int);
        let (pressed, keycode, state, time) = raw[i];
        assert(rest[0] == raw@[i as int]);
        let mut repeat = false;
        if !pressed && i + 1 < raw.len() {
            let (next_pressed, next_code, _, next_time) = raw[i + 1];
            assert(rest[1] == raw@[i + 1]);
            repeat = next_pressed && next_code == keycode && next_time == time;
        }
        if repeat {
            // Auto-repeat: drop the release and its paired press.
            assert(rest.skip(2) == raw@.skip(i + 2));
            i += 2;
        } else {
            let ghost before = out@;
            out.push((pressed, keycode, state));
            assert(rest.skip(1) == raw@.skip(i + 1));
            assert(out@ + collapsed(raw@.skip(i + 1)) == before + (seq![(pressed, keycode, state)]
                + collapsed(raw@.skip(i + 1))));
            i += 1;
        }
    }
    assert(raw@.skip(i as int).len() == 0);
    assert(out@ + Seq::<(bool, u8, u16)>::empty() == out@);
    out
}

/// What a surviving event means on `keymap`.
pub open spec fn transition(keymap: Keymap, e: (bool, u8, u16)) -> KeyTransition {
    KeyTransition {
        input: decoded(keymap.symbol(e.1 as int, 0), e.2 % 2 == 1),
        pressed: e.0,
    }
}

/// Every key transition in a queued run of events, with X auto-repeat collapsed.
///
/// Without detectable auto-repeat the server fakes a held key as a stream of
/// `Release`+`Press` pairs sharing a timestamp. Those are not real up/down
/// events, so a `Release` immediately followed by a same-key `Press` at the
/// same time is dropped entirely. A held key then yields just its opening
/// press and its closing release, which is exactly the held-state the move
/// loop tracks.
pub fn drain(keymap: &Keymap, raw: &[RawKey]) -> (out: Vec<KeyTransition>)
    ensures
        out@ == collapsed(raw@).map_values(|e: (bool, u8, u16)| transition(*keymap, e)),
{
    let events = collapse_autorepeat(raw);
    let ghost all = events@.map_values(|e: (bool, u8, u16)| transition(*keymap, e));
    let mut out: Vec<KeyTransition> = Vec::new();
    let mut i: usize = 0;
    while i < events.len()
        invariant
            i <= events@.len(),
            all == events@.map_values(|e: (bool, u8, u16)| transition(*keymap, e)),
            out@ == all.take(i as int),
        decreases events@.len() - i,
    {
        let (pressed, keycode, state) = events[i];
        let input = keymap.decode_key(keycode, is_shifted(state));
        out.push(KeyTransition { input, pressed });
        assert(all.take(i + 1) == all.take(i as int).push(all[i as int]));
        i += 1;
    }
    assert(all.take(i as int) == all);
    out
}

// --- Laws -----------------------------------------------------------------

/// `n` repetitions of a held key, each a release and a press at the same time,
/// followed by `tail`.
pub open spec fn held(key: u8, state: u16, times: Seq<u32>, tail: Seq<RawKey>) -> Seq<RawKey>
    decreases times.len(),
{
    if times.len() == 0 {
        tail
    } else {
        seq![(false, key, state, times[0]), (true, key, state, times[0])] + held(
            key,
            state,
            times.drop_first(),
            tail,
        )
    }
}

/// A held key reads as one press until it is really released: however often the
/// server repeats it in between, only the opening press and the closing release
/// remain.
pub proof fn law_a_held_key_is_one_press(
    key: u8,
    state: u16,
    down: u32,
    times: Seq<u32>,
    up: u32,
)
    ensures
        collapsed(
            seq![(true, key, state, down)] + held(key, state, times, seq![(false, key, state, up)]),
        ) == seq![(true, key, state), (false, key, state)],
{
    let tail: Seq<RawKey> = seq![(false, key, state, up)];
    let rest = held(key, state, times, tail);
    let all = seq![(true, key, state, down)] + rest;
    assert(all.skip(1) == rest);
    lemma_held(key, state, times, up);
    assert(collapsed(all) == seq![(true, key, state)] + collapsed(rest));
}

proof fn lemma_held(key: u8, state: u16, times: Seq<u32>, up: u32)
    ensures
        collapsed(held(key, state, times, seq![(false, key, state, up)])) == seq![
            (false, key, state),
        ],
    decreases times.len(),
{
    let tail: Seq<RawKey> = seq![(false, key, state, up)];
    let all = held(key, state, times, tail);
    if times.len() == 0 {
        assert(all.skip(1) == Seq::<RawKey>::empty());
        assert(collapsed(all.skip(1)) == Seq::<(bool, u8, u16)>::empty());
        assert(collapsed(all) == seq![(false, key, state)]);
    } else {
        lemma_held(key, state, times.drop_first(), up);
        assert(all.skip(2) == held(key, state, times.drop_first(), tail));
        assert(repeats(all[0], all[1]));
    }
}

/// Without a repetition nothing is dropped.
pub proof fn law_real_events_survive(raw: Seq<RawKey>)
    requires
        forall|i: int| 0 < i < raw.len() ==> !repeats(raw[i - 1], #[trigger] raw[i]),
    ensures
        collapsed(raw) == raw.map_values(|e: RawKey| (e.0, e.1, e.2)),
    decreases raw.len(),
{
    if raw.len() > 0 {
        let t = raw.skip(1);
        assert forall|i: int| 0 < i < t.len() implies !repeats(t[i - 1], #[trigger] t[i]) by {
            assert(t[i] == raw[i + 1]);
            assert(t[i - 1] == raw[i]);
        }
        law_real_events_survive(t);
        if raw.len() > 1 {
            assert(!repeats(raw[0], raw[1]));
        }
        assert(collapsed(raw) == raw.map_values(|e: RawKey| (e.0, e.1, e.2)));
    }
}

/// Only a release and a press of one key at one time are a repetition: an event
/// that is dropped is half of such a pair, and an event of another key, at another
/// time or the other way round never is.
pub proof fn law_only_held_keys_are_collapsed(a: RawKey, b: RawKey)
    ensures
        repeats(a, b) <==> (a.0, b.0) == (false, true) && a.1 == b.1 && a.3 == b.3,
        collapsed(seq![a, b]).len() == 0 <==> (a.0, b.0) == (false, true) && a.1 == b.1 && a.3 == b.3,
{
    let raw = seq![a, b];
    let last = raw.skip(1);
    assert(last == seq![b]);
    assert(last.skip(1) == Seq::<RawKey>::empty());
    assert(raw.skip(2) == Seq::<RawKey>::empty());
    assert(collapsed(Seq::empty()).len() == 0);
    assert(collapsed(last).len() == 1);
}

/// What goes before and behind a repetition is left alone: taking out a pair gives
/// the same events, as long as nothing before it pairs with its release.
pub proof fn law_a_repetition_leaves_the_rest_alone(first: RawKey, a: RawKey, b: RawKey, rest: Seq<RawKey>)
    requires
        repeats(a, b),
        !repeats(first, a),
    ensures
        collapsed(seq![a, b] + rest) == collapsed(rest),
        collapsed(seq![first, a, b] + rest) == seq![(first.0, first.1, first.2)] + collapsed(rest),
{
    let pair = seq![a, b] + rest;
    assert(pair.skip(2) == rest);
    assert(pair[0] == a && pair[1] == b);
    assert(collapsed(pair) == collapsed(rest));
    let all = seq![first, a, b] + rest;
    assert(all.skip(1) == pair);
    assert(all[0] == first && all[1] == a);
    assert(collapsed(all) == seq![(first.0, first.1, first.2)] + collapsed(pair));
}

/// A surviving event is reported for its own key, as pressed or released as it was,
/// and with Shift if the lowest modifier bit says so.
pub proof fn law_transitions_tell_key_and_direction(keymap: Keymap, e: (bool, u8, u16))
    ensures
        transition(keymap, e).pressed == e.0,
        transition(keymap, e).input == decoded(keymap.symbol(e.1 as int, 0), e.2 % 2 == 1),
{
}

/// An event that does not begin a repetition is reported, and those behind it are
/// read by themselves.
pub proof fn law_events_are_read_from_the_front(first: RawKey, rest: Seq<RawKey>)
    requires
        rest.len() == 0 || !repeats(first, rest[0]),
    ensures
        collapsed(seq![first] + rest) == seq![(first.0, first.1, first.2)] + collapsed(rest),
        collapsed(Seq::empty()).len() == 0,
{
    let all = seq![first] + rest;
    assert(all.skip(1) == rest);
    assert(all[0] == first);
    if rest.len() > 0 {
        assert(all[1] == rest[0]);
    }
}

} // verus!
