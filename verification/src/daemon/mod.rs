//! The background daemon.
//!
//! Running mole as a daemon keeps latency low: the X connection, keysym map
//! and detectors are all set up once, so a trigger only has to capture, detect
//! and draw. Triggers arrive over a Unix socket — the natural fit for i3's
//! `bindsym ... exec mole click`. Interactions run one at a time because they own
//! the keyboard and the overlay.
//!
//! [`Step`] orders what a command asks of the daemon; whoever holds the socket,
//! the configuration and the display performs the steps.

pub mod ipc;
pub mod prewarm;

pub use ipc::Command;

use vstd::prelude::*;

use crate::error::{joined, Error, Result};
use crate::session::Mode;

verus! {

/// What the daemon does next for a command.
#[derive(Debug, Clone, Copy, PartialEq, Eq, Structural)]
pub enum Step {
    /// Read the configuration file.
    LoadConfig,
    /// Put the configuration that was read in the place of the current one.
    SwapConfig,
    /// Drop the cached words: OCR parameters may have changed.
    InvalidateCache,
    /// Take a snapshot of the configuration, so a mid-interaction reload can't
    /// change it, and set up a session.
    OpenSession,
    /// Tell the pre-warmer to hold off while we own the screen, so it doesn't
    /// capture (and cache) our own overlay.
    RaiseFlag,
    /// Kill any read the pre-warmer has in flight, so this hint never waits out a
    /// background OCR for the cache lock.
    AbortPrewarm,
    /// Run a hint interaction.
    RunHint(Mode),
    /// Run free movement.
    RunFreeMove,
    /// Clear the abort, before re-enabling the pre-warmer, so its next read runs.
    ResetPrewarm,
    /// Let the pre-warmer go on.
    LowerFlag,
    /// Reply to the client.
    Reply,
}

/// The first step of a command.
pub open spec fn first_step(c: Command) -> Step {
    match c {
        Command::Ping => Step::Reply,
        Command::Reload => Step::LoadConfig,
        _ => Step::OpenSession,
    }
}

/// The step after `step`, which succeeded or not. A configuration that cannot be
/// read and a session that cannot be opened end the command; an interaction is
/// always wound down, however it went.
pub open spec fn step_after(c: Command, step: Step, ok: bool) -> Step {
    match step {
        Step::LoadConfig => if ok {
            Step::SwapConfig
        } else {
            Step::Reply
        },
        Step::SwapConfig => Step::InvalidateCache,
        Step::InvalidateCache => Step::Reply,
        Step::OpenSession => if ok {
            Step::RaiseFlag
        } else {
            Step::Reply
        },
        Step::RaiseFlag => Step::AbortPrewarm,
        Step::AbortPrewarm => match c {
            Command::Hint(mode) => Step::RunHint(mode),
            _ => Step::RunFreeMove,
        },
        Step::RunHint(_) => Step::ResetPrewarm,
        Step::RunFreeMove => Step::ResetPrewarm,
        Step::ResetPrewarm => Step::LowerFlag,
        Step::LowerFlag => Step::Reply,
        Step::Reply => Step::Reply,
    }
}

/// What a command starts with.
pub fn start(c: Command) -> (s: Step)
    ensures
        s == first_step(c),
{
    match c {
        Command::Ping => Step::Reply,
        Command::Reload => Step::LoadConfig,
        _ => Step::OpenSession,
    }
}

/// What follows on `step`, which succeeded or not.
pub fn next(c: Command, step: Step, ok: bool) -> (s: Step)
    ensures
        s == step_after(c, step, ok),
{
    match step {
        Step::LoadConfig => if ok {
            Step::SwapConfig
        } else {
            Step::Reply
        },
        Step::SwapConfig => Step::InvalidateCache,
        Step::InvalidateCache => Step::Reply,
        Step::OpenSession => if ok {
            Step::RaiseFlag
        } else {
            Step::Reply
        },
        Step::RaiseFlag => Step::AbortPrewarm,
        Step::AbortPrewarm => match c {
            Command::Hint(mode) => Step::RunHint(mode),
            _ => Step::RunFreeMove,
        },
        Step::RunHint(_) => Step::ResetPrewarm,
        Step::RunFreeMove => Step::ResetPrewarm,
        Step::ResetPrewarm => Step::LowerFlag,
        Step::LowerFlag => Step::Reply,
        Step::Reply => Step::Reply,
    }
}

/// How the listening socket is created.
#[derive(Debug, Clone, Copy, PartialEq, Eq, Structural)]
pub enum Bind {
    /// Nothing is in the way.
    Fresh,
    /// A stale socket left by a crash is removed first.
    AfterRemoving,
}

/// Whether the socket can be created at the path shown as `path`: a socket file that nobody listens
/// on is stale and cleared away; one that somebody listens on is another daemon.
pub fn bind_socket(path: &str, exists: bool, answered: bool) -> (r: Result<Bind>)
    ensures
        match r {
            Ok(b) => !(exists && answered) && b == if exists {
                Bind::AfterRemoving
            } else {
                Bind::Fresh
            },
            Err(e) => exists && answered && e is Ipc && e->Ipc_0@
                == "another daemon is already listening on "@ + path@,
        },
{
    if !exists {
        Ok(Bind::Fresh)
    } else if !answered {
        Ok(Bind::AfterRemoving)
    } else {
        Err(Error::Ipc(joined("another daemon is already listening on ", path)))
    }
}

/// The error of a socket that could not be created at the path shown as `path`,
/// because of `e`.
pub fn bind_error(path: &str, e: &str) -> (r: Error)
    ensures
        r is Ipc,
        r->Ipc_0@ == "could not bind "@ + path@ + ": "@ + e@,
{
    let mut m = joined("could not bind ", path);
    m.append(": ");
    m.append(e);
    Error::Ipc(m)
}

/// What a client is told whose trigger was sent while an interaction was on
/// screen: a hint runs one at a time, so such triggers are discarded rather than
/// replayed each as another overlay.
pub fn busy_reply() -> (r: &'static str)
    ensures
        r@ == "busy: a mole interaction was already in progress"@,
{
    "busy: a mole interaction was already in progress"
}

// --- Laws -----------------------------------------------------------------

/// The step after `n` steps of a command, where step `k` succeeded if `ok[k]`.
pub open spec fn step_at(c: Command, ok: spec_fn(nat) -> bool, n: nat) -> Step
    decreases n,
{
    if n == 0 {
        first_step(c)
    } else {
        step_after(c, step_at(c, ok, (n - 1) as nat), ok((n - 1) as nat))
    }
}

/// The pre-warmer is held off, and its read killed, before an interaction runs;
/// afterwards the abort is cleared before it may go on; and then the client gets
/// its reply. That order holds whether the interaction succeeds or not.
pub proof fn law_interactions_are_bracketed(c: Command, ok: spec_fn(nat) -> bool)
    requires
        c is Hint || c is FreeMove,
        ok(0),
    ensures
        step_at(c, ok, 0) is OpenSession,
        step_at(c, ok, 1) is RaiseFlag,
        step_at(c, ok, 2) is AbortPrewarm,
        step_at(c, ok, 3) == match c {
            Command::Hint(mode) => Step::RunHint(mode),
            _ => Step::RunFreeMove,
        },
        step_at(c, ok, 4) is ResetPrewarm,
        step_at(c, ok, 5) is LowerFlag,
        step_at(c, ok, 6) is Reply,
{
    reveal_with_fuel(step_at, 8);
}

/// Reloading swaps the configuration and drops the cached words, in that order;
/// a configuration that cannot be read changes nothing.
pub proof fn law_a_failed_reload_changes_nothing(ok: spec_fn(nat) -> bool)
    ensures
        step_at(Command::Reload, ok, 0) is LoadConfig,
        !ok(0) ==> step_at(Command::Reload, ok, 1) is Reply,
        ok(0) ==> step_at(Command::Reload, ok, 1) is SwapConfig && step_at(Command::Reload, ok, 2) is
            InvalidateCache && step_at(Command::Reload, ok, 3) is Reply,
{
    reveal_with_fuel(step_at, 5);
}

/// A liveness check touches nothing: the reply is all there is to do.
pub proof fn law_ping_only_replies(ok: spec_fn(nat) -> bool, n: nat)
    ensures
        step_at(Command::Ping, ok, n) is Reply,
    decreases n,
{
    if n > 0 {
        law_ping_only_replies(ok, (n - 1) as nat);
    }
}

} // verus!
