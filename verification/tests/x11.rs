use mole::error::Error;
use mole::geometry::{Point, Rect};
use mole::x11::connection::{keysym_for_char, monitors, root_bounds, KeyInput, Keymap};
use mole::x11::grab::{collapse_autorepeat, drain, grab_step, is_shifted, GrabStep, KeyTransition};
use mole::x11::hotkey::{grab_masks, significant_mask, Hotkey, HotkeyManager, Modifiers};
use mole::x11::overlay::{
    choose_visual, find_argb_visual, pack_rows, read_input, upload_plan, Depth, OverlayEvent,
    OverlayInput,
};
use mole::x11::pointer::PointerStep::{MoveTo, Pause, Press, Release};
use mole::x11::pointer::{clamp, click, drag, move_relative, Button, PointerStep};

#[test]
fn ascii_keysym_is_codepoint() {
    assert_eq!(keysym_for_char('a'), 0x61);
    assert_eq!(keysym_for_char('h'), 0x68);
}

#[test]
fn lone_press_and_release_survive() {
    let raw = [(true, 40, 0, 100), (false, 40, 0, 250)];
    assert_eq!(
        collapse_autorepeat(&raw),
        vec![(true, 40, 0), (false, 40, 0)]
    );
}

#[test]
fn a_repeat_pair_is_dropped() {
    // Held key: initial press, then release+press pairs sharing a timestamp,
    // then the real release. Only the opening press and final release remain.
    let raw = [
        (true, 40, 0, 100),  // initial press
        (false, 40, 0, 150), // \ auto-repeat (same time)
        (true, 40, 0, 150),  // /
        (false, 40, 0, 150), // \ auto-repeat
        (true, 40, 0, 150),  // /
        (false, 40, 0, 300), // real release (no following press)
    ];
    assert_eq!(
        collapse_autorepeat(&raw),
        vec![(true, 40, 0), (false, 40, 0)],
        "held key reads as one press until truly released"
    );
}

#[test]
fn a_release_followed_by_a_different_key_is_kept() {
    // Not auto-repeat: different keycode, so the release is real.
    let raw = [(false, 40, 0, 100), (true, 41, 0, 100)];
    assert_eq!(
        collapse_autorepeat(&raw),
        vec![(false, 40, 0), (true, 41, 0)]
    );
}

/// Keycodes 8 to 14, two symbols each.
fn keymap() -> Keymap {
    Keymap::load(
        8,
        2,
        vec![
            0xff1b, 0, // 8: Escape
            0x61, 0x41, // 9: a A
            0, 0x62, // 10: nothing, then b
            0x61, 0, // 11: a again
            0xff0d, 0, // 12: Return
            0xe9, 0xc9, // 13: é É
            0xff52, // 14: Up, cut short
        ],
    )
}

#[test]
fn keys_are_read_at_both_levels() {
    let k = keymap();
    assert_eq!(k.keysym(9, 0), 0x61);
    assert_eq!(k.keysym(9, 1), 0x41);
    assert_eq!(k.keysym(10, 0), 0);
    assert_eq!(k.keysym(14, 1), 0, "beyond the table");
    assert_eq!(k.keysym(7, 0), 0, "below the first keycode");
    assert_eq!(Keymap::load(8, 0, vec![]).keysym(8, 0), 0);
}

#[test]
fn the_lowest_key_wins_the_forward_lookup() {
    let k = keymap();
    assert_eq!(k.keycode_for_char('a'), Some(9));
    assert_eq!(k.keycode_for_char('b'), Some(10), "first non-zero symbol");
    assert_eq!(k.keycode_for_char('A'), None, "not an unmodified symbol");
    assert_eq!(k.keycode(0xff52), Some(14));
    assert_eq!(k.keycode(0x7a), None);
}

#[test]
fn key_presses_are_decoded_unshifted() {
    let k = keymap();
    assert_eq!(k.decode_key(8, false), KeyInput::Escape);
    assert_eq!(k.decode_key(9, false), KeyInput::Char { c: 'a', shift: false });
    assert_eq!(k.decode_key(9, true), KeyInput::Char { c: 'a', shift: true });
    assert_eq!(k.decode_key(10, false), KeyInput::Other);
    assert_eq!(k.decode_key(12, true), KeyInput::Enter);
    assert_eq!(k.decode_key(13, false), KeyInput::Char { c: '\u{e9}', shift: false });
    assert_eq!(k.decode_key(14, false), KeyInput::Up);
    assert_eq!(k.decode_key(200, false), KeyInput::Other);
    let all = Keymap::load(
        0,
        1,
        vec![0xff08, 0xff8d, 0xff51, 0xff53, 0xff54, 0x20, 0x7e, 0x7f, 0x9f, 0xa0, 0xff, 0x100],
    );
    let decoded: Vec<KeyInput> = (0..12).map(|c| all.decode_key(c, false)).collect();
    let plain = |c: char| KeyInput::Char { c, shift: false };
    assert_eq!(
        decoded,
        vec![
            KeyInput::Backspace,
            KeyInput::Enter,
            KeyInput::Left,
            KeyInput::Right,
            KeyInput::Down,
            plain(' '),
            plain('~'),
            KeyInput::Other,
            KeyInput::Other,
            plain('\u{a0}'),
            plain('\u{ff}'),
            KeyInput::Other,
        ]
    );
}

#[test]
fn queued_events_become_transitions() {
    let k = keymap();
    let raw = [(true, 9, 1, 5), (false, 9, 1, 7), (true, 9, 1, 7), (false, 9, 0, 9)];
    assert_eq!(
        drain(&k, &raw),
        vec![
            KeyTransition { input: KeyInput::Char { c: 'a', shift: true }, pressed: true },
            KeyTransition { input: KeyInput::Char { c: 'a', shift: false }, pressed: false },
        ]
    );
}

#[test]
fn shift_is_the_lowest_modifier_bit() {
    assert!(is_shifted(1));
    assert!(is_shifted(0x11));
    assert!(!is_shifted(0x10));
    assert!(!is_shifted(0));
}

#[test]
fn a_grab_is_tried_twenty_times() {
    assert_eq!(grab_step(0, 0), GrabStep::Granted);
    assert_eq!(grab_step(19, 0), GrabStep::Granted);
    assert_eq!(grab_step(0, 1), GrabStep::Retry);
    assert_eq!(grab_step(18, 3), GrabStep::Retry);
    assert_eq!(grab_step(19, 1), GrabStep::GiveUp);
}

#[test]
fn hotkeys_are_grabbed_under_every_lock() {
    assert_eq!(significant_mask(), 0x4d);
    assert_eq!(grab_masks(Modifiers { mask: 0x40 }), vec![0x40, 0x42, 0x50, 0x52]);
    let mut m = HotkeyManager::new();
    let hotkey = |keycode, mask, action: &str| Hotkey {
        keycode,
        modifiers: Modifiers { mask },
        action: action.to_string(),
    };
    assert_eq!(m.register(hotkey(40, 0x04, "click")), vec![0x04, 0x06, 0x14, 0x16]);
    m.register(hotkey(40, 0x40, "move"));
    m.register(hotkey(40, 0x40, "shadowed"));
    assert_eq!(m.action(40, 0x04), Some("click".to_string()));
    assert_eq!(m.action(40, 0x16), Some("click".to_string()), "locks do not matter");
    assert_eq!(m.action(40, 0x40), Some("move".to_string()), "the first one wins");
    assert_eq!(m.action(40, 0x44), None, "another combination");
    assert_eq!(m.action(41, 0x04), None, "another key");
}

#[test]
fn buttons_are_numbered_as_x_expects() {
    assert_eq!(Button::Left.code(), 1);
    assert_eq!(Button::Middle.code(), 2);
    assert_eq!(Button::Right.code(), 3);
}

#[test]
fn the_pointer_stays_on_screen() {
    let root = Rect::new(0, 0, 800, 600);
    assert_eq!(clamp(Point::new(10, 20), root), Point::new(10, 20));
    assert_eq!(clamp(Point::new(-10, 9000), root), Point::new(0, 599));
    assert_eq!(move_relative(Point::new(790, 5), 24, -24, root), Point::new(799, 0));
    assert_eq!(move_relative(Point::new(i32::MAX, 0), i32::MAX, 0, root), Point::new(799, 0));
}

#[test]
fn clicks_and_drags_are_steps() {
    let once: Vec<PointerStep> = vec![Press(Button::Right), Release(Button::Right), Pause(20)];
    assert_eq!(click(Button::Right, 1), once);
    assert_eq!(click(Button::Right, 0), once, "at least once");
    assert_eq!(click(Button::Left, 2).len(), 6);
    assert_eq!(
        drag(Point::new(0, 0), Point::new(11, -5), Button::Left),
        vec![
            MoveTo(Point::new(0, 0)),
            Pause(30),
            Press(Button::Left),
            Pause(30),
            MoveTo(Point::new(5, -2)),
            Pause(20),
            MoveTo(Point::new(11, -5)),
            Pause(30),
            Release(Button::Left),
        ]
    );
}

#[test]
fn monitors_fall_back_to_the_root() {
    let root = root_bounds(1000, 800);
    assert_eq!(root, Rect::new(0, 0, 1000, 800));
    assert_eq!(monitors(None, root), vec![root]);
    assert_eq!(monitors(Some(vec![]), root), vec![root]);
    assert_eq!(monitors(Some(vec![Rect::new(5000, 0, 10, 10)]), root), vec![root]);
    assert_eq!(
        monitors(Some(vec![Rect::new(0, 0, 600, 900), Rect::new(600, 0, 400, 500)]), root),
        vec![Rect::new(0, 0, 600, 800), Rect::new(600, 0, 400, 500)]
    );
}

#[test]
fn overlay_events_become_inputs() {
    let k = keymap();
    assert_eq!(
        read_input(&k, OverlayEvent::KeyPress { keycode: 9, state: 3 }),
        Some(OverlayInput::Key(KeyInput::Char { c: 'a', shift: true }))
    );
    assert_eq!(
        read_input(&k, OverlayEvent::ButtonPress { x: -3, y: 40 }),
        Some(OverlayInput::Click(Point::new(-3, 40)))
    );
    assert_eq!(read_input(&k, OverlayEvent::Other), None);
}

fn depth(depth: u8, visuals: &[u32]) -> Depth {
    Depth { depth, visuals: visuals.to_vec() }
}

#[test]
fn the_first_deep_visual_is_used() {
    assert_eq!(
        find_argb_visual(&[depth(24, &[1]), depth(32, &[7, 8]), depth(32, &[9])]),
        Some((32, 7))
    );
    assert_eq!(find_argb_visual(&[depth(32, &[]), depth(32, &[9])]), None);
    assert_eq!(choose_visual(&[depth(32, &[7])]).unwrap(), (32, 7));
    match choose_visual(&[depth(24, &[1])]) {
        Err(Error::Render(m)) => assert_eq!(m, "no 32-bit ARGB visual available"),
        other => panic!("expected a rendering error, got {other:?}"),
    }
}

#[test]
fn uploads_stay_under_the_request_size() {
    // 1000 pixels are 4000 bytes: 65 rows fit.
    assert_eq!(upload_plan(1000, 150), vec![(0, 65), (65, 65), (130, 20)]);
    assert_eq!(upload_plan(1000, 0), vec![]);
    // The widest row fills a request by itself.
    assert_eq!(upload_plan(65535, 2), vec![(0, 1), (1, 1)]);
    for (width, height) in [(1, 1), (37, 4000), (4480, 1440), (65535, 65535)] {
        let plan = upload_plan(width, height);
        let mut next = 0;
        for (row, rows) in plan {
            assert_eq!(row, next);
            assert!(rows > 0);
            assert!(rows as usize * width as usize * 4 <= 262_144 || rows == 1);
            next = row.wrapping_add(rows);
        }
        assert_eq!(next, height);
    }
}

#[test]
fn rows_are_packed_tightly() {
    // Two pixels per row, with a padding byte pattern behind them.
    let data: Vec<u8> = (0..30).collect();
    let packed = pack_rows(&data, 10, 2, 1, 2);
    assert_eq!(packed, vec![10, 11, 12, 13, 14, 15, 16, 17, 20, 21, 22, 23, 24, 25, 26, 27]);
    assert!(pack_rows(&data, 10, 2, 1, 0).is_empty());
}
