//! Background OCR pre-warming.
//!
//! A background thread watches the whole screen for changes and, once the screen
//! settles, re-reads what changed. The effect: by the time the user triggers a
//! hint, the cache is already current, so the on-demand scan finds nothing to
//! re-read and the hints appear almost instantly.
//!
//! It deliberately does nothing while an interaction is active — otherwise it
//! would capture mole's own overlay and cache the hint labels as if they were
//! screen text.
//!
//! All times are in milliseconds.

use vstd::prelude::*;

verus! {

/// Quiet period the screen must hold before we warm, so we don't OCR every frame
/// of an animation or scroll.
pub const DEBOUNCE: u64 = 120;

/// Cap on how long a continuously-changing screen delays a warm, so video or a
/// blinking cursor can't postpone it forever.
pub const MAX_WAIT: u64 = 1200;

/// If nothing has been warmed for this long, treat the next change as a one-off
/// edit and start re-reading it *immediately* (don't wait out the debounce), so a
/// quick change is being scanned before the user can even trigger a hint.
pub const IDLE_REACT: u64 = 700;

/// Whether a change is re-read at once: it comes after a quiet spell, so it is
/// almost always a single deliberate edit.
pub fn reacts_at_once(since_warm: u64) -> (b: bool)
    ensures
        b == (since_warm >= IDLE_REACT),
{
    since_warm >= IDLE_REACT
}

/// Whether to go on waiting for the screen to settle, `waited` after the first
/// change and `quiet` after the last one.
pub fn keeps_waiting(waited: u64, quiet: u64) -> (b: bool)
    ensures
        b == (quiet < DEBOUNCE && waited < MAX_WAIT),
{
    quiet < DEBOUNCE && waited < MAX_WAIT
}

/// Whether to warm now: not while an interaction is active, and only if it is
/// switched on.
pub fn may_warm(interaction_active: bool, enabled: bool) -> (b: bool)
    ensures
        b == (!interaction_active && enabled),
{
    !interaction_active && enabled
}

// --- The order of things --------------------------------------------------

/// Where the pre-warmer stands: what it does next.
#[derive(Debug, Clone, Copy, PartialEq, Eq, Structural)]
pub enum WarmPhase {
    /// Warm once up front so even the first hint is ready.
    Startup,
    /// Block until something on screen changes.
    Watch,
    /// Warm at once: the change comes after a quiet spell.
    React,
    /// Take in further changes until the screen settles.
    Settle,
    /// Warm what the screen has settled to.
    Refresh,
}

/// How what was to be done went.
#[derive(Debug, Clone, Copy, PartialEq, Eq, Structural)]
pub enum WarmEvent {
    /// A warm is over, done or passed over.
    Warmed,
    /// Something changed, so long after the screen was last refreshed.
    Changed { since_warm: u64 },
    /// The screen is being watched, so long after the first change and after the
    /// last one.
    Watched { waited: u64, quiet: u64 },
}

/// The phase after `event`. An event that does not belong to the phase changes
/// nothing.
pub open spec fn phase_after(phase: WarmPhase, event: WarmEvent) -> WarmPhase {
    match (phase, event) {
        (WarmPhase::Startup, WarmEvent::Warmed) => WarmPhase::Watch,
        (WarmPhase::Watch, WarmEvent::Changed { since_warm }) => if since_warm >= IDLE_REACT {
            WarmPhase::React
        } else {
            WarmPhase::Settle
        },
        (WarmPhase::React, WarmEvent::Warmed) => WarmPhase::Settle,
        (WarmPhase::Settle, WarmEvent::Watched { waited, quiet }) => if quiet < DEBOUNCE && waited
            < MAX_WAIT {
            WarmPhase::Settle
        } else {
            WarmPhase::Refresh
        },
        (WarmPhase::Refresh, WarmEvent::Warmed) => WarmPhase::Watch,
        _ => phase,
    }
}

/// The screen is captured and read in this phase.
pub open spec fn reads_in(phase: WarmPhase, interaction_active: bool, enabled: bool) -> bool {
    (phase is Startup || phase is React || phase is Refresh) && !interaction_active && enabled
}

/// What follows on `phase`, given how it went.
pub fn next(phase: WarmPhase, event: WarmEvent) -> (p: WarmPhase)
    ensures
        p == phase_after(phase, event),
{
    match (phase, event) {
        (WarmPhase::Startup, WarmEvent::Warmed) => WarmPhase::Watch,
        (WarmPhase::Watch, WarmEvent::Changed { since_warm }) => if reacts_at_once(since_warm) {
            WarmPhase::React
        } else {
            WarmPhase::Settle
        },
        (WarmPhase::React, WarmEvent::Warmed) => WarmPhase::Settle,
        (WarmPhase::Settle, WarmEvent::Watched { waited, quiet }) => if keeps_waiting(
            waited,
            quiet,
        ) {
            WarmPhase::Settle
        } else {
            WarmPhase::Refresh
        },
        (WarmPhase::Refresh, WarmEvent::Warmed) => WarmPhase::Watch,
        _ => phase,
    }
}

/// Whether the screen is captured and read now.
pub fn reads_now(phase: WarmPhase, interaction_active: bool, enabled: bool) -> (b: bool)
    ensures
        b == reads_in(phase, interaction_active, enabled),
{
    match phase {
        WarmPhase::Startup | WarmPhase::React | WarmPhase::Refresh => may_warm(
            interaction_active,
            enabled,
        ),
        _ => false,
    }
}

// --- Laws -----------------------------------------------------------------

/// Nothing is read while an interaction is active, whatever the phase: a capture
/// would hold mole's own overlay.
pub proof fn law_nothing_is_read_during_an_interaction(phase: WarmPhase, enabled: bool)
    ensures
        !reads_in(phase, true, enabled),
{
}

/// The phase after the first `n` of `events`.
pub open spec fn phase_at(phase: WarmPhase, events: Seq<WarmEvent>, n: nat) -> WarmPhase
    decreases n,
{
    if n == 0 {
        phase
    } else {
        phase_after(phase_at(phase, events, (n - 1) as nat), events[n - 1])
    }
}

/// No change is forgotten: from a change on, whatever happens, the pre-warmer does
/// not go back to watching before it has refreshed.
pub proof fn law_a_change_is_refreshed_before_watching_again(events: Seq<WarmEvent>, n: nat)
    requires
        0 < n <= events.len(),
        events[0] is Changed,
        phase_at(WarmPhase::Watch, events, n) is Watch,
    ensures
        exists|k: nat| 0 < k < n && #[trigger] phase_at(WarmPhase::Watch, events, k) is Refresh,
{
    assert(phase_at(WarmPhase::Watch, events, 0) is Watch);
    lemma_refreshed(events, n);
}

/// Until it has refreshed, the pre-warmer is reacting, settling or about to
/// refresh.
proof fn lemma_refreshed(events: Seq<WarmEvent>, n: nat)
    requires
        0 < n <= events.len(),
        events[0] is Changed,
    ensures
        phase_at(WarmPhase::Watch, events, n) is React || phase_at(WarmPhase::Watch, events, n) is
            Settle || phase_at(WarmPhase::Watch, events, n) is Refresh || exists|k: nat|
            0 < k < n && #[trigger] phase_at(WarmPhase::Watch, events, k) is Refresh,
    decreases n,
{
    if n == 1 {
        assert(phase_at(WarmPhase::Watch, events, 0) is Watch);
    } else {
        let m = (n - 1) as nat;
        lemma_refreshed(events, m);
        let before = phase_at(WarmPhase::Watch, events, m);
        if exists|k: nat| 0 < k < m && #[trigger] phase_at(WarmPhase::Watch, events, k) is Refresh {
            let k = choose|k: nat|
                0 < k < m && #[trigger] phase_at(WarmPhase::Watch, events, k) is Refresh;
            assert(0 < k < n && phase_at(WarmPhase::Watch, events, k) is Refresh);
        } else if before is Refresh {
            assert(0 < m < n && phase_at(WarmPhase::Watch, events, m) is Refresh);
        }
    }
}

/// A screen that settles is refreshed, and so is one that never does, once it has
/// been waited for long enough; not before.
pub proof fn law_a_refresh_waits_for_quiet_but_not_forever(waited: u64, quiet: u64)
    ensures
        phase_after(WarmPhase::Settle, WarmEvent::Watched { waited, quiet }) is Refresh <==> quiet
            >= DEBOUNCE || waited >= MAX_WAIT,
{
}

/// A change is acted on at once exactly if nothing was warmed for 700 milliseconds;
/// either way the screen is then watched until it has settled, and a warm is always
/// followed by what comes next.
pub proof fn law_a_change_after_a_quiet_spell_is_read_at_once(since_warm: u64)
    ensures
        phase_after(WarmPhase::Watch, WarmEvent::Changed { since_warm }) is React <==> since_warm
            >= 700,
        phase_after(WarmPhase::Watch, WarmEvent::Changed { since_warm }) is Settle <==> since_warm
            < 700,
        phase_after(WarmPhase::React, WarmEvent::Warmed) is Settle,
        phase_after(WarmPhase::Startup, WarmEvent::Warmed) is Watch,
        phase_after(WarmPhase::Refresh, WarmEvent::Warmed) is Watch,
{
}

/// The screen is read at the start, on a reaction and on a refresh, whenever
/// pre-warming is switched on and no interaction is active, and at no other time.
pub proof fn law_the_screen_is_read_when_it_may_be(phase: WarmPhase, active: bool, enabled: bool)
    ensures
        reads_in(phase, active, enabled) <==> enabled && !active && phase !is Watch && phase !is
            Settle,
{
}

} // verus!
