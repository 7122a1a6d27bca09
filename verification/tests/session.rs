use mole::config::Keys;
use mole::detect::Element;
use mole::geometry::{Point, Rect};
use mole::hint::{generate_labels, place_drag_hints, Metrics};
use mole::session::HintEvent::{Finished, Picked, Scanned};
use mole::session::HintPhase::{Act, Done, Hide, Join, Pick, PickEnd, Scan, Show};
use mole::session::{
    act, key_char, FreeMove, HintEvent, HintPhase, HintRun, Late, Mode, MoveEffect, MoveKeys, SelectStep,
    Selection, LABEL_RESERVE,
};
use mole::x11::connection::KeyInput;
use mole::x11::grab::KeyTransition;
use mole::x11::overlay::OverlayInput;
use mole::x11::pointer::PointerStep;
use mole::x11::Button;

const SCREEN: Rect = Rect { x: 0, y: 0, width: 1920, height: 1080 };
const FONT: Metrics = Metrics { advance: 9, line: 13 };

fn elem(x: i32, y: i32) -> Element {
    Element::new(Rect::new(x, y, 60, 20), "t")
}

fn key(c: char) -> OverlayInput {
    OverlayInput::Key(KeyInput::Char { c, shift: false })
}

fn letters() -> Vec<char> {
    "asdf".chars().collect()
}

#[test]
fn typing_a_label_chooses_its_target() {
    let ready: Vec<Element> = (0..5).map(|i| elem(100 * i, 50)).collect();
    for i in 0..5 {
        let mut s = Selection::start(&ready, &letters(), FONT, 4, SCREEN);
        let label = s.boxes()[i].label.clone();
        let mut last = SelectStep::Ignored;
        for c in label.chars() {
            // Capitals count as well: Caps Lock must not get in the way.
            last = s.step(key(c.to_ascii_uppercase()));
        }
        assert_eq!(last, SelectStep::Chosen(Point::new(100 * i as i32 + 10, 60)));
    }
}

#[test]
fn escape_and_clicks_cancel_and_backspace_corrects() {
    let ready: Vec<Element> = (0..3).map(|i| elem(100 * i, 50)).collect();
    let mut s = Selection::start(&ready, &letters(), FONT, 4, SCREEN);
    let first = s.boxes()[0].label.chars().next().unwrap();
    assert_eq!(s.step(key(first)), SelectStep::Repaint);
    assert_eq!(s.typed(), first.to_string());
    assert_eq!(s.step(key('z')), SelectStep::Ignored, "a dead end");
    assert_eq!(s.typed(), first.to_string());
    assert_eq!(s.step(OverlayInput::Key(KeyInput::Backspace)), SelectStep::Repaint);
    assert_eq!(s.typed(), "");
    assert_eq!(s.step(OverlayInput::Key(KeyInput::Backspace)), SelectStep::Repaint);
    assert_eq!(s.step(OverlayInput::Key(KeyInput::Enter)), SelectStep::Ignored);
    assert_eq!(s.step(OverlayInput::Key(KeyInput::Other)), SelectStep::Ignored);
    assert_eq!(s.step(OverlayInput::Key(KeyInput::Escape)), SelectStep::Cancelled);
    assert_eq!(s.step(OverlayInput::Click(Point::new(1, 1))), SelectStep::Cancelled);
}

#[test]
fn late_hints_leave_the_first_ones_alone() {
    let ready: Vec<Element> = (0..3).map(|i| elem(200 * i, 50)).collect();
    let mut s = Selection::start(&ready, &letters(), FONT, 4, SCREEN);
    let before: Vec<(String, Rect)> = s.boxes().iter().map(|b| (b.label.clone(), b.rect)).collect();
    let first = s.boxes()[0].label.chars().next().unwrap();
    s.step(key(first));

    let late: Vec<Element> = (0..4).map(|i| elem(200 * i, 50)).collect();
    assert!(s.add_hints(&late, FONT, 4, SCREEN));
    assert_eq!(s.boxes().len(), 7);
    let after: Vec<(String, Rect)> =
        s.boxes()[..3].iter().map(|b| (b.label.clone(), b.rect)).collect();
    assert_eq!(after, before, "labels and boxes on screen never change");
    assert_eq!(s.typed(), first.to_string(), "the typed keys survive");
    for (i, b) in s.boxes().iter().enumerate() {
        assert_eq!(b.index, i);
    }
    // A late hint is reachable from the keys already typed.
    let want = s.boxes()[5].clone();
    s.step(OverlayInput::Key(KeyInput::Backspace));
    let mut last = SelectStep::Ignored;
    for c in want.label.chars() {
        last = s.step(key(c));
    }
    assert_eq!(last, SelectStep::Chosen(want.target));
}

#[test]
fn the_reserve_is_limited() {
    let ready = [elem(10, 10)];
    let mut s = Selection::start(&ready, &letters(), FONT, 4, SCREEN);
    let late: Vec<Element> = (0..100).map(|i| elem(15 * i, 300)).collect();
    assert!(s.add_hints(&late, FONT, 4, SCREEN));
    assert_eq!(s.boxes().len(), 1 + LABEL_RESERVE);
    assert!(!s.add_hints(&late, FONT, 4, SCREEN), "nothing left to draw from");
    assert!(!s.add_hints(&[], FONT, 4, SCREEN));
    assert_eq!(s.boxes().len(), 1 + LABEL_RESERVE);
}

#[test]
fn late_hints_are_folded_in_once() {
    let mut s = Selection::start(&[elem(10, 10)], &letters(), FONT, 4, SCREEN);
    assert_eq!(s.take_late(Late::Waiting, FONT, 4, SCREEN), (false, true));
    assert_eq!(s.boxes().len(), 1);
    let late = Late::Arrived(vec![elem(300, 300), elem(500, 300)]);
    assert_eq!(s.take_late(late, FONT, 4, SCREEN), (true, false));
    assert_eq!(s.boxes().len(), 3);
    assert_eq!(s.take_late(Late::Failed, FONT, 4, SCREEN), (false, false));
    assert_eq!(s.take_late(Late::Arrived(vec![]), FONT, 4, SCREEN), (false, false));
    assert_eq!(s.boxes().len(), 3);
}

#[test]
fn labels_are_drawn_from_one_pool() {
    let ready: Vec<Element> = (0..3).map(|i| elem(200 * i, 50)).collect();
    let s = Selection::start(&ready, &letters(), FONT, 4, SCREEN);
    let pool = generate_labels(&letters(), 3 + LABEL_RESERVE);
    let shown: Vec<String> = s.boxes().iter().map(|b| b.label.clone()).collect();
    assert_eq!(shown, pool[..3].to_vec());
}

#[test]
fn a_drag_picks_among_both_ends() {
    let els = [elem(100, 100)];
    let labels = generate_labels(&letters(), 2);
    let mut s = Selection::over(place_drag_hints(&els, &labels, FONT, 4, SCREEN));
    assert_eq!(s.step(key('a')), SelectStep::Chosen(Point::new(90, 110)));
    let mut s = Selection::over(place_drag_hints(&els, &labels, FONT, 4, SCREEN));
    assert_eq!(s.step(key('s')), SelectStep::Chosen(Point::new(170, 110)));
}

fn phases(mode: Mode, events: &[HintEvent]) -> Vec<HintPhase> {
    let mut run = HintRun::new(mode);
    let mut all = vec![run.phase];
    for e in events {
        run.advance(*e);
        all.push(run.phase);
    }
    all
}

#[test]
fn the_overlay_is_hidden_before_acting() {
    let p = Point::new(3, 4);
    let click = Mode::Click { button: Button::Left, count: 1 };
    assert_eq!(
        phases(
            click,
            &[
                Scanned { hintable: true },
                Finished,
                Picked(Some(p)),
                Finished,
                Finished,
                Finished
            ]
        ),
        vec![Scan, Show, Pick, Hide, Act, Join, Done]
    );
    let drag = Mode::Drag { button: Button::Left };
    assert_eq!(
        phases(
            drag,
            &[
                Scanned { hintable: true },
                Finished,
                Picked(Some(p)),
                Picked(Some(p)),
                Finished,
                Finished,
                Finished
            ]
        ),
        vec![Scan, Show, Pick, PickEnd, Hide, Act, Join, Done]
    );
    // Nothing to hint: nothing is shown. A cancelled pick: nothing is done.
    assert_eq!(phases(click, &[Scanned { hintable: false }]), vec![Scan, Done]);
    assert_eq!(
        phases(
            drag,
            &[
                Scanned { hintable: true },
                Finished,
                Picked(Some(p)),
                Picked(None),
                Finished,
                Finished
            ]
        ),
        vec![Scan, Show, Pick, PickEnd, Hide, Join, Done]
    );
    // Events out of turn change nothing.
    assert_eq!(phases(click, &[Finished, Picked(Some(p))]), vec![Scan, Scan, Scan]);
}

#[test]
fn modes_are_pointer_steps() {
    let a = Point::new(10, 20);
    let b = Point::new(30, 40);
    assert_eq!(act(Mode::Teleport, &[a]), (vec![PointerStep::MoveTo(a)], false));
    let (steps, copy) = act(Mode::Click { button: Button::Right, count: 2 }, &[a]);
    assert_eq!(steps.len(), 7);
    assert_eq!(steps[0], PointerStep::MoveTo(a));
    assert_eq!(steps[1], PointerStep::Press(Button::Right));
    assert!(!copy);
    let (steps, copy) = act(Mode::Drag { button: Button::Left }, &[a, b]);
    assert_eq!(steps[0], PointerStep::MoveTo(a));
    assert_eq!(steps[4], PointerStep::MoveTo(Point::new(20, 30)));
    assert_eq!(steps[6], PointerStep::MoveTo(b));
    assert_eq!(steps[8], PointerStep::Release(Button::Left));
    assert!(copy, "the selection is copied");
}

#[test]
fn keys_have_names() {
    assert_eq!(key_char("space"), ' ');
    assert_eq!(key_char("h"), 'h');
    assert_eq!(key_char("hjkl"), 'h');
    assert_eq!(key_char("spaces"), 's');
    assert_eq!(key_char(""), '\0');
}

fn free_move() -> FreeMove {
    FreeMove::new(MoveKeys::new(&Keys::default(), "space", "f", "d", "s", "v"))
}

fn change(input: KeyInput, pressed: bool) -> KeyTransition {
    KeyTransition { input, pressed }
}

fn char_key(c: char, pressed: bool) -> KeyTransition {
    change(KeyInput::Char { c, shift: false }, pressed)
}

#[test]
fn held_keys_steer() {
    let mut m = free_move();
    assert_eq!(m.direction(), (0, 0));
    m.apply(char_key('L', true));
    assert_eq!(m.direction(), (1, 0));
    m.apply(change(KeyInput::Down, true));
    assert_eq!(m.direction(), (1, 1));
    m.apply(char_key('h', true));
    assert_eq!(m.direction(), (0, 1), "opposite keys cancel");
    m.apply(char_key('l', false));
    assert_eq!(m.direction(), (-1, 1));
    m.apply(char_key('j', false));
    assert_eq!(m.direction(), (-1, 0));
    m.apply(change(KeyInput::Up, true));
    m.apply(change(KeyInput::Left, false));
    assert_eq!(m.direction(), (0, -1));
    assert!(!m.boosting);
    m.apply(char_key(' ', true));
    assert!(m.boosting);
    m.apply(char_key(' ', false));
    assert!(!m.boosting);
}

#[test]
fn action_keys_fire_once_on_the_press() {
    let mut m = free_move();
    let click = |button, count| MoveEffect::Click { button, count };
    assert_eq!(m.apply(char_key('f', true)), click(Button::Left, 1));
    assert_eq!(m.apply(char_key('f', false)), MoveEffect::Nothing);
    assert_eq!(m.apply(char_key('d', true)), click(Button::Right, 1));
    assert_eq!(m.apply(char_key('s', true)), click(Button::Left, 2));
    assert_eq!(m.apply(char_key('x', true)), MoveEffect::Nothing);
    assert_eq!(m.apply(change(KeyInput::Other, true)), MoveEffect::Nothing);
}

#[test]
fn escape_and_enter_leave_move_mode() {
    let mut m = free_move();
    assert_eq!(m.apply(change(KeyInput::Escape, true)), MoveEffect::Quit);
    assert_eq!(m.apply(change(KeyInput::Escape, false)), MoveEffect::Quit);
    assert_eq!(m.apply(change(KeyInput::Enter, true)), MoveEffect::Quit);
    assert_eq!(m.apply(change(KeyInput::Enter, false)), MoveEffect::Nothing);
    let (effects, quit) = m.apply_all(&[
        change(KeyInput::Escape, true),
        char_key('f', true),
        char_key('l', true),
    ]);
    assert!(quit);
    // Whatever was queued behind it is still taken in.
    assert_eq!(effects.len(), 3);
    assert_eq!(effects[1], MoveEffect::Click { button: Button::Left, count: 1 });
    assert_eq!(m.direction(), (1, 0));
    let (effects, quit) = m.apply_all(&[]);
    assert!(effects.is_empty() && !quit);
}

#[test]
fn a_drag_is_toggled_and_never_left_hanging() {
    let mut m = free_move();
    assert_eq!(m.apply(char_key('v', true)), MoveEffect::StartDrag);
    assert!(m.dragging);
    assert_eq!(m.apply(char_key('v', false)), MoveEffect::Nothing);
    assert_eq!(m.apply(char_key('v', true)), MoveEffect::EndDrag);
    assert!(!m.finish(), "the button is up already");
    m.apply(char_key('v', true));
    assert!(m.finish(), "the button must come up on the way out");
    assert!(!m.dragging);
}

#[test]
fn labels_of_huge_fonts_still_fit() {
    // Two-letter labels whose characters are 2^24 pixels wide.
    let font = Metrics { advance: 0x100_0000, line: i32::MAX - 4 };
    let ready: Vec<Element> = (0..9).map(|i| elem(100 * i, 50)).collect();
    let s = Selection::start(&ready, &['a', 'b'], font, 4, SCREEN);
    assert_eq!(s.boxes().len(), 9);
    assert!(s.boxes().iter().all(|b| b.rect.clamp_to(SCREEN) == Some(b.rect)));
}

#[test]
fn a_drag_starts_with_two_hints_per_phrase() {
    let els = [elem(100, 100), elem(400, 300)];
    let s = Selection::start_drag(&els, &letters(), FONT, 4, SCREEN);
    let labels: Vec<String> = s.boxes().iter().map(|b| b.label.clone()).collect();
    assert_eq!(labels, generate_labels(&letters(), 4));
    let targets: Vec<Point> = s.boxes().iter().map(|b| b.target).collect();
    assert_eq!(
        targets,
        vec![
            Point::new(90, 110),
            Point::new(170, 110),
            Point::new(390, 310),
            Point::new(470, 310)
        ]
    );
    assert_eq!(s.typed(), "");
}
