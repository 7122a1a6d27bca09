use mole::daemon::ipc::{
    connect_error, read_response, response, socket_path, unknown_command, Command,
};
use mole::daemon::prewarm;
use mole::daemon::prewarm::{
    keeps_waiting, may_warm, reacts_at_once, reads_now, WarmEvent, WarmPhase,
};
use mole::daemon::{bind_error, bind_socket, busy_reply, next, start, Bind, Step};
use mole::error::Error;
use mole::session::Mode;
use mole::x11::Button;

#[test]
fn command_words_roundtrip() {
    for word in [
        "teleport",
        "click",
        "double-click",
        "right-click",
        "drag",
        "move",
        "reload",
        "ping",
    ] {
        let cmd = Command::parse(word).unwrap();
        assert_eq!(cmd.as_word(), word, "roundtrip failed for {word}");
    }
}

#[test]
fn unknown_command_errors() {
    assert!(Command::parse("frobnicate").is_err());
}

#[test]
fn hint_alias_maps_to_teleport() {
    assert_eq!(Command::parse("hint").unwrap(), Command::Hint(Mode::Teleport));
}

#[test]
fn words_are_trimmed_and_case_matters() {
    assert_eq!(Command::parse(" \tping\r\n").unwrap(), Command::Ping);
    for word in ["Ping", "pin", "pings", "", "click click"] {
        match Command::parse(word) {
            Err(Error::Ipc(m)) => assert_eq!(m, format!("unknown command {word:?}")),
            other => panic!("expected an error for {word:?}, got {other:?}"),
        }
    }
    match Command::parse(" \"odd\"\n") {
        Err(Error::Ipc(m)) => assert_eq!(m, "unknown command \"\\\"odd\\\"\""),
        other => panic!("expected an error, got {other:?}"),
    }
}

#[test]
fn an_unknown_word_is_shown_as_given() {
    match unknown_command("'x'") {
        Error::Ipc(m) => assert_eq!(m, "unknown command 'x'"),
        other => panic!("expected an IPC error, got {other:?}"),
    }
}

#[test]
fn clicks_without_a_word_of_their_own_are_sent_as_the_nearest() {
    let click = |button, count| Command::Hint(Mode::Click { button, count });
    assert_eq!(click(Button::Left, 3).as_word(), "click");
    assert_eq!(click(Button::Middle, 2).as_word(), "click");
    assert_eq!(click(Button::Right, 5).as_word(), "right-click");
    assert_eq!(Command::Hint(Mode::Drag { button: Button::Right }).as_word(), "drag");
}

fn socket(configured: Option<&str>, runtime: Option<&str>, uid: u32) -> String {
    let configured = configured.map(|s| s.as_bytes().to_vec());
    let runtime = runtime.map(|s| s.as_bytes().to_vec());
    String::from_utf8(socket_path(&configured, runtime, uid)).unwrap()
}

#[test]
fn the_socket_is_where_it_is_told() {
    assert_eq!(socket(Some("/s"), Some("/run/user/7"), 7), "/s");
    assert_eq!(socket(None, Some("/run/user/7"), 7), "/run/user/7/mouseless.sock");
    assert_eq!(socket(None, Some("/run/user/7/"), 7), "/run/user/7/mouseless.sock");
    assert_eq!(socket(None, None, 0), "/tmp/mouseless-0.sock");
    assert_eq!(socket(None, None, 4294967295), "/tmp/mouseless-4294967295.sock");
}

#[test]
fn replies_say_how_it_went() {
    assert_eq!(response(&Ok(())), "ok");
    assert_eq!(
        response(&Err(Error::X11("gone".to_string()))),
        "err: X11 error: gone"
    );
    assert_eq!(read_response("ok\n").unwrap(), "ok");
    assert_eq!(read_response(" ok \r\n").unwrap(), " ok");
    match read_response("err: no\n") {
        Err(Error::Ipc(m)) => assert_eq!(m, "err: no"),
        other => panic!("expected an error, got {other:?}"),
    }
    assert_eq!(busy_reply(), "busy: a mole interaction was already in progress");
    match connect_error("\"/run/s\"", "refused") {
        Error::Ipc(m) => assert_eq!(
            m,
            "could not connect to daemon at \"/run/s\" (refused); is `mouseless daemon` running?"
        ),
        other => panic!("expected an IPC error, got {other:?}"),
    }
}

#[test]
fn a_stale_socket_is_cleared_and_a_live_one_respected() {
    assert_eq!(bind_socket("/s", false, false).unwrap(), Bind::Fresh);
    assert_eq!(bind_socket("/s", true, false).unwrap(), Bind::AfterRemoving);
    match bind_socket("\"/s\"", true, true) {
        Err(Error::Ipc(m)) => assert_eq!(m, "another daemon is already listening on \"/s\""),
        other => panic!("expected an error, got {other:?}"),
    }
    match bind_error("\"/s\"", "denied") {
        Error::Ipc(m) => assert_eq!(m, "could not bind \"/s\": denied"),
        other => panic!("expected an IPC error, got {other:?}"),
    }
}

/// The steps of a command, `fail` being the one that goes wrong.
fn steps(c: Command, fail: Option<Step>) -> Vec<Step> {
    let mut all = vec![start(c)];
    while all[all.len() - 1] != Step::Reply {
        let step = all[all.len() - 1];
        all.push(next(c, step, Some(step) != fail));
    }
    all
}

#[test]
fn commands_are_steps_in_order() {
    assert_eq!(steps(Command::Ping, None), vec![Step::Reply]);
    assert_eq!(
        steps(Command::Reload, None),
        vec![Step::LoadConfig, Step::SwapConfig, Step::InvalidateCache, Step::Reply]
    );
    assert_eq!(
        steps(Command::Reload, Some(Step::LoadConfig)),
        vec![Step::LoadConfig, Step::Reply]
    );
    let bracketed = |run: Step| {
        vec![
            Step::OpenSession,
            Step::RaiseFlag,
            Step::AbortPrewarm,
            run,
            Step::ResetPrewarm,
            Step::LowerFlag,
            Step::Reply,
        ]
    };
    assert_eq!(steps(Command::FreeMove, None), bracketed(Step::RunFreeMove));
    let hint = Step::RunHint(Mode::Teleport);
    assert_eq!(steps(Command::Hint(Mode::Teleport), None), bracketed(hint));
    // A failed interaction is wound down all the same.
    assert_eq!(steps(Command::Hint(Mode::Teleport), Some(hint)), bracketed(hint));
    assert_eq!(
        steps(Command::FreeMove, Some(Step::OpenSession)),
        vec![Step::OpenSession, Step::Reply]
    );
}

#[test]
fn the_prewarmer_waits_for_quiet_but_not_forever() {
    assert!(keeps_waiting(0, 0));
    assert!(keeps_waiting(1199, 119));
    assert!(!keeps_waiting(500, 120));
    assert!(!keeps_waiting(1200, 0));
    assert!(reacts_at_once(700));
    assert!(!reacts_at_once(699));
    assert!(may_warm(false, true));
    assert!(!may_warm(true, true));
    assert!(!may_warm(false, false));
}

#[test]
fn the_prewarmer_reacts_settles_and_refreshes() {
    let run = |events: &[WarmEvent]| {
        let mut all = vec![WarmPhase::Startup];
        for e in events {
            all.push(prewarm::next(all[all.len() - 1], *e));
        }
        all
    };
    let watched = |waited, quiet| WarmEvent::Watched { waited, quiet };
    assert_eq!(
        run(&[
            WarmEvent::Warmed,
            WarmEvent::Changed { since_warm: 900 },
            WarmEvent::Warmed,
            watched(0, 0),
            watched(300, 119),
            watched(330, 120),
            WarmEvent::Warmed,
        ]),
        vec![
            WarmPhase::Startup,
            WarmPhase::Watch,
            WarmPhase::React,
            WarmPhase::Settle,
            WarmPhase::Settle,
            WarmPhase::Settle,
            WarmPhase::Refresh,
            WarmPhase::Watch,
        ]
    );
    // Soon after a refresh a change waits for quiet, and a screen that never
    // settles is refreshed all the same.
    assert_eq!(
        run(&[
            WarmEvent::Warmed,
            WarmEvent::Changed { since_warm: 10 },
            watched(1200, 0),
        ])[2..],
        [WarmPhase::Settle, WarmPhase::Refresh]
    );
    // Events out of turn change nothing.
    assert_eq!(prewarm::next(WarmPhase::Watch, WarmEvent::Warmed), WarmPhase::Watch);
}

#[test]
fn nothing_is_read_during_an_interaction() {
    let phases = [
        (WarmPhase::Startup, true),
        (WarmPhase::Watch, false),
        (WarmPhase::React, true),
        (WarmPhase::Settle, false),
        (WarmPhase::Refresh, true),
    ];
    for (phase, reads) in phases {
        assert_eq!(reads_now(phase, false, true), reads);
        assert!(!reads_now(phase, true, true));
        assert!(!reads_now(phase, false, false));
    }
}
