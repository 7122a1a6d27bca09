//! A single interaction, start to finish.
//!
//! A session wires together capture → detect → label → overlay → input →
//! act. Modes:
//!
//! * [`Mode::Teleport`] — jump the pointer to a hinted element.
//! * [`Mode::Click`] — jump and click (N times / different buttons).
//! * [`Mode::Drag`] — pick two hints and drag between them, copying the
//!   resulting selection to the clipboard.
//!
//! Free pointer movement (hjkl) needs no detection or hints at all.
//!
//! The decisions of a session are state machines over plain events: [`HintRun`]
//! orders the phases of a hint interaction, [`Selection`] is the keystroke loop
//! while hints are up, and [`FreeMove`] tracks the held keys of move mode.
//! Whoever owns the display performs what they ask for and reports back.

use vstd::arithmetic::power::*;
use vstd::arithmetic::power2::{lemma2_to64, lemma_pow2, pow2};
use vstd::prelude::*;
use vstd::slice::slice_subrange;

use crate::config::Keys;
use crate::detect::Element;
use crate::geometry::{fits_i32, lesser, Point, Rect};
use crate::hint::label::{
    alive, labels_for, law_labels_are_short, prefix_free, texts, typing_step,
};
use crate::hint::layout::{
    drag_anchors, has_drag_points, has_text_start, inset, jump_anchors, laid_out, Metrics,
};
use crate::hint::{
    generate_labels, place_drag_hints, place_hints, place_hints_avoiding, HintBox, HintMatcher,
    MatchState,
};
use crate::text::{begins, lowered, same_text, to_chars, to_lower};
use crate::x11::connection::KeyInput;
use crate::x11::grab::KeyTransition;
use crate::x11::overlay::OverlayInput;
use crate::x11::pointer::{
    click, clicks, drag, drag_steps, law_a_drag_goes_from_its_start_to_its_end, pointer_after,
    presses, Button, PointerStep,
};

verus! {

/// Spare labels reserved beyond the immediately-shown hints, so late-arriving
/// (background-OCR'd) hints get stable labels without disturbing the ones the
/// user can already see.
pub const LABEL_RESERVE: usize = 64;

/// What a hint session does once a target is chosen.
#[derive(Debug, Clone, Copy, PartialEq, Eq, Structural)]
pub enum Mode {
    Teleport,
    Click { button: Button, count: u32 },
    Drag { button: Button },
}

// --- Choosing a hint ------------------------------------------------------

/// What to do after an input while hints are up.
#[derive(Debug, Clone, Copy, PartialEq, Eq, Structural)]
pub enum SelectStep {
    /// The user gave up.
    Cancelled,
    /// A hint was chosen: its target.
    Chosen(Point),
    /// The hints that match have changed: draw them again.
    Repaint,
    /// Nothing changed.
    Ignored,
}

/// The labels of `boxes`, in order.
pub open spec fn box_labels(boxes: Seq<HintBox>) -> Seq<Seq<char>> {
    boxes.map_values(|b: HintBox| b.label@)
}

/// What an input leads to, with hints `names` that lead to `targets` up and
/// `typed` typed: `step`, with `after` typed.
pub open spec fn selecting(
    names: Seq<Seq<char>>,
    targets: Seq<HintBox>,
    typed: Seq<char>,
    input: OverlayInput,
    after: Seq<char>,
    step: SelectStep,
) -> bool {
    match input {
        OverlayInput::Click(_) => step is Cancelled && after == typed,
        OverlayInput::Key(KeyInput::Escape) => step is Cancelled && after == typed,
        OverlayInput::Key(KeyInput::Backspace) => step is Repaint && after == if typed.len() > 0 {
            typed.drop_last()
        } else {
            typed
        },
        OverlayInput::Key(KeyInput::Char { c, shift: _ }) => exists|state: MatchState| #[trigger]
            typing_step(names, typed, lowered(c), after, state) && match state {
                MatchState::Selected(i) => step == SelectStep::Chosen(targets[i as int].target),
                MatchState::Pending => step is Repaint,
                MatchState::NoMatch => step is Ignored,
            },
        OverlayInput::Key(_) => step is Ignored && after == typed,
    }
}

/// What a background read has to say.
#[derive(Debug, Clone)]
pub enum Late {
    /// It is not done.
    Waiting,
    /// It found these elements.
    Arrived(Vec<Element>),
    /// It failed, or it has nothing more to say.
    Failed,
}

/// `after` is `before` with hints for the first of the `extra` elements added, as
/// many as the label pool has labels left for: the boxes that were there stay as
/// they are, the new ones are laid out around them with the next labels of the
/// pool, and what has been typed is kept. `more` says whether there are any.
pub open spec fn hints_added(
    before: Selection,
    after: Selection,
    extra: Seq<Element>,
    metrics: Metrics,
    gap: int,
    screen: Rect,
    more: bool,
) -> bool {
    let used = before.shown().len() as int;
    let take = lesser(extra.len() as int, before.pool().len() - used);
    &&& after.pool() == before.pool()
    &&& after.keys() == before.keys()
    &&& more == (take > 0)
    &&& after.shown().len() == used + take
    &&& after.shown().take(used) == before.shown()
    &&& laid_out(
        after.shown().skip(used),
        before.shown(),
        jump_anchors(extra.take(take)),
        before.pool().subrange(used, used + take),
        metrics,
        gap,
        screen,
    )
}

/// The keystroke loop while hints are up: the boxes on screen, the pool their
/// labels are drawn from, and what has been typed.
pub struct Selection {
    boxes: Vec<HintBox>,
    labels: Vec<String>,
    matcher: HintMatcher,
}

impl Selection {
    /// The boxes on screen.
    pub closed spec fn shown(self) -> Seq<HintBox> {
        self.boxes@
    }

    /// The label pool.
    pub closed spec fn pool(self) -> Seq<String> {
        self.labels@
    }

    /// What has been typed.
    pub closed spec fn keys(self) -> Seq<char> {
        self.matcher.keys()
    }

    /// The boxes on screen carry the first labels of the pool, those are what is
    /// matched, and what has been typed can still become one of them.
    pub closed spec fn sound(self) -> bool {
        &&& self.boxes@.len() <= self.labels@.len()
        &&& box_labels(self.boxes@) == texts(self.labels@).take(self.boxes@.len() as int)
        &&& self.matcher.names() == box_labels(self.boxes@)
        &&& self.matcher.keys().len() == 0 || alive(self.matcher.names(), self.matcher.keys())
    }

    /// Choose among `boxes`, all of them up from the start.
    pub fn over(boxes: Vec<HintBox>) -> (s: Self)
        ensures
            s.sound(),
            s.shown() == boxes@,
            s.keys() == Seq::<char>::empty(),
    {
        let mut labels: Vec<String> = Vec::new();
        let mut names: Vec<String> = Vec::new();
        let mut i: usize = 0;
        while i < boxes.len()
            invariant
                i <= boxes@.len(),
                texts(labels@) == box_labels(boxes@).take(i as int),
                texts(names@) == box_labels(boxes@).take(i as int),
            decreases boxes@.len() - i,
        {
            let ghost l0 = labels@;
            let ghost n0 = names@;
            let l = boxes[i].label.clone();
            let n = boxes[i].label.clone();
            labels.push(l);
            names.push(n);
            assert(texts(labels@) == texts(l0).push(l@));
            assert(texts(names@) == texts(n0).push(n@));
            assert(box_labels(boxes@).take(i + 1) == box_labels(boxes@).take(i as int).push(
                boxes@[i as int].label@,
            ));
            i += 1;
        }
        proof {
            assert(box_labels(boxes@).take(i as int) == box_labels(boxes@));
            assert(texts(labels@).len() == labels@.len());
            assert(texts(labels@).take(boxes@.len() as int) == texts(labels@));
        }
        Selection { boxes, labels, matcher: HintMatcher::new(names) }
    }

    /// Choose among the `ready` elements, with a reserve of labels for those that
    /// arrive later. One stable label pool: the ready hints take the first
    /// labels, late hints draw from the reserve, so on-screen labels never change
    /// as more appear.
    pub fn start(
        ready: &[Element],
        alphabet: &[char],
        metrics: Metrics,
        min_gap: i32,
        screen: Rect,
    ) -> (s: Self)
        requires
            alphabet@.len() >= 2,
            ready@.len() + LABEL_RESERVE <= usize::MAX,
            forall|i: int| 0 <= i < ready@.len() ==> has_text_start((#[trigger] ready@[i]).rect),
            metrics.fits_names(labels_for(alphabet@, (ready@.len() + LABEL_RESERVE) as nat)),
        ensures
            s.sound(),
            s.keys() == Seq::<char>::empty(),
            texts(s.pool()) == labels_for(alphabet@, (ready@.len() + LABEL_RESERVE) as nat),
            laid_out(
                s.shown(),
                Seq::empty(),
                jump_anchors(ready@),
                s.pool().take(ready@.len() as int),
                metrics,
                min_gap as int,
                screen,
            ),
    {
        let n = ready.len();
        let labels = generate_labels(alphabet, n + LABEL_RESERVE);
        proof {
            assert(texts(labels@).len() == labels@.len());
            assert forall|i: int| 0 <= i < n implies fits_i32(
                metrics.box_width((#[trigger] labels@.subrange(0, n as int)[i])@.len()),
            ) by {
                assert(texts(labels@)[i] == labels@[i]@);
            }
        }
        let first = slice_subrange(labels.as_slice(), 0, n);
        assert(first@ == labels@.take(n as int));
        let boxes = place_hints(ready, first, metrics, min_gap, screen);
        let names = copy_labels(&boxes);
        proof {
            let b = boxes@;
            assert forall|i: int| 0 <= i < n implies #[trigger] box_labels(b)[i] == texts(labels@)[i] by {
                assert(b[i].label@ == labels@.take(n as int)[i]@);
                assert(texts(labels@)[i] == labels@[i]@);
            }
            assert(box_labels(b) == texts(labels@).take(n as int));
        }
        Selection { boxes, labels, matcher: HintMatcher::new(names) }
    }

    /// Choose one end of a drag among `elements`: two hints per phrase (start and
    /// end), so a whole sentence can be selected by picking its start hint and its
    /// end hint.
    pub fn start_drag(
        elements: &[Element],
        alphabet: &[char],
        metrics: Metrics,
        min_gap: i32,
        screen: Rect,
    ) -> (s: Self)
        requires
            alphabet@.len() >= 2,
            2 * elements@.len() <= usize::MAX,
            forall|i: int|
                0 <= i < elements@.len() ==> has_drag_points((#[trigger] elements@[i]).rect),
            metrics.fits_names(labels_for(alphabet@, 2 * elements@.len())),
        ensures
            s.sound(),
            s.keys() == Seq::<char>::empty(),
            texts(s.pool()) == labels_for(alphabet@, 2 * elements@.len()),
            laid_out(
                s.shown(),
                Seq::empty(),
                drag_anchors(elements@),
                s.pool(),
                metrics,
                min_gap as int,
                screen,
            ),
    {
        let n = 2 * elements.len();
        let labels = generate_labels(alphabet, n);
        proof {
            assert(texts(labels@).len() == labels@.len());
            assert forall|i: int| 0 <= i < n implies fits_i32(
                metrics.box_width((#[trigger] labels@[i])@.len()),
            ) by {
                assert(texts(labels@)[i] == labels@[i]@);
            }
        }
        let boxes = place_drag_hints(elements, labels.as_slice(), metrics, min_gap, screen);
        let names = copy_labels(&boxes);
        proof {
            let b = boxes@;
            assert forall|i: int| 0 <= i < n implies #[trigger] box_labels(b)[i] == texts(labels@)[i] by {
                assert(b[i].label@ == labels@[i]@);
                assert(texts(labels@)[i] == labels@[i]@);
            }
            assert(box_labels(b) == texts(labels@));
            assert(texts(labels@).take(n as int) == texts(labels@));
        }
        Selection { boxes, labels, matcher: HintMatcher::new(names) }
    }

    /// The boxes on screen.
    pub fn boxes(&self) -> (b: &[HintBox])
        ensures
            b@ == self.shown(),
    {
        self.boxes.as_slice()
    }

    /// What has been typed.
    pub fn typed(&self) -> (t: &str)
        ensures
            t@ == self.keys(),
    {
        self.matcher.typed()
    }

    /// Handle one input: a label is typed key by key, Backspace corrects, Escape
    /// or a click cancels, and a dead-end key is ignored.
    pub fn step(&mut self, input: OverlayInput) -> (s: SelectStep)
        requires
            old(self).sound(),
        ensures
            final(self).sound(),
            final(self).shown() == old(self).shown(),
            final(self).pool() == old(self).pool(),
            selecting(
                box_labels(old(self).shown()),
                old(self).shown(),
                old(self).keys(),
                input,
                final(self).keys(),
                s,
            ),
    {
        match input {
            OverlayInput::Click(_) => SelectStep::Cancelled,
            OverlayInput::Key(KeyInput::Escape) => SelectStep::Cancelled,
            OverlayInput::Key(KeyInput::Backspace) => {
                let ghost names = self.matcher.names();
                let ghost typed = self.matcher.keys();
                self.matcher.pop();
                proof {
                    if typed.len() > 0 {
                        lemma_alive_prefix(names, typed, typed.len() - 1);
                        assert(typed.take(typed.len() - 1) == typed.drop_last());
                    }
                }
                SelectStep::Repaint
            },
            OverlayInput::Key(KeyInput::Char { c, shift: _ }) => {
                let ghost names = self.matcher.names();
                let ghost typed = self.matcher.keys();
                let state = self.matcher.push(to_lower(c));
                assert(typing_step(names, typed, lowered(c), self.matcher.keys(), state));
                match state {
                    MatchState::Selected(i) => SelectStep::Chosen(self.boxes[i].target),
                    MatchState::Pending => SelectStep::Repaint,
                    MatchState::NoMatch => SelectStep::Ignored,
                }
            },
            _ => SelectStep::Ignored,
        }
    }

    /// Add late-arriving `extra` hints using reserved labels, as far as they go,
    /// without moving the existing boxes. Existing labels (and any keys already
    /// typed) are preserved. Returns whether there is something new to draw.
    pub fn add_hints(
        &mut self,
        extra: &[Element],
        metrics: Metrics,
        min_gap: i32,
        screen: Rect,
    ) -> (more: bool)
        requires
            old(self).sound(),
            metrics.fits(old(self).pool()),
            forall|i: int| 0 <= i < extra@.len() ==> has_text_start((#[trigger] extra@[i]).rect),
        ensures
            final(self).sound(),
            hints_added(
                *old(self),
                *final(self),
                extra@,
                metrics,
                min_gap as int,
                screen,
                more,
            ),
    {
        let used = self.boxes.len();
        let spare = self.labels.len() - used;
        let take = if extra.len() < spare {
            extra.len()
        } else {
            spare
        };
        let ghost before = self.boxes@;
        let ghost pool = self.labels@;
        let ghost typed = self.matcher.keys();
        let ghost names = self.matcher.names();
        if take == 0 {
            proof {
                assert(self.boxes@.skip(used as int) == Seq::<HintBox>::empty());
                assert(self.boxes@.take(used as int) == self.boxes@);
                assert(jump_anchors(extra@.take(0)).len() == 0);
            }
            return false;
        }
        let some = slice_subrange(extra, 0, take);
        assert(some@ == extra@.take(take as int));
        let fresh = slice_subrange(self.labels.as_slice(), used, used + take);
        let mut new = place_hints_avoiding(
            some,
            fresh,
            metrics,
            min_gap,
            screen,
            self.boxes.as_slice(),
        );
        let ghost added = new@;
        self.boxes.append(&mut new);
        proof {
            assert(self.boxes@ == before + added);
            assert(self.boxes@.take(used as int) == before);
            assert(self.boxes@.skip(used as int) == added);
            let n = (used + take) as int;
            assert(texts(pool).len() == pool.len());
            assert forall|i: int| 0 <= i < n implies #[trigger] box_labels(self.boxes@)[i] == texts(
                pool,
            )[i] by {
                if i < used {
                    assert(self.boxes@[i] == before[i]);
                    assert(box_labels(before)[i] == texts(pool).take(used as int)[i]);
                } else {
                    assert(self.boxes@[i] == added[i - used]);
                    assert(added[i - used].label@ == fresh@[i - used]@);
                }
            }
            assert(box_labels(self.boxes@) == texts(pool).take(n));
        }
        // Rebuild the matcher over the full label set, replaying the typed prefix
        // so an in-progress selection survives the addition.
        let all = copy_labels(&self.boxes);
        let replay = to_chars(self.matcher.typed());
        let mut rebuilt = HintMatcher::new(all);
        let ghost wider = rebuilt.names();
        proof {
            if typed.len() > 0 {
                let i = choose|i: int| 0 <= i < names.len() && begins(#[trigger] names[i], typed);
                assert(wider[i] == names[i]) by {
                    assert(names[i] == texts(pool).take(used as int)[i]);
                    assert(wider[i] == texts(pool).take((used + take) as int)[i]);
                }
                assert(alive(wider, typed));
            }
            assert(typed.take(0) == Seq::<char>::empty());
        }
        let mut k: usize = 0;
        while k < replay.len()
            invariant
                k <= replay@.len(),
                replay@ == typed,
                rebuilt.names() == wider,
                typed.len() > 0 ==> alive(wider, typed),
                rebuilt.keys() == typed.take(k as int),
            decreases replay@.len() - k,
        {
            proof {
                lemma_alive_prefix(wider, typed, k + 1);
                assert(typed.take(k as int).push(typed[k as int]) == typed.take(k + 1));
            }
            let _ = rebuilt.push(replay[k]);
            k += 1;
        }
        assert(typed.take(k as int) == typed);
        self.matcher = rebuilt;
        true
    }

    /// Take note of what the background read has to say: late hints are folded in
    /// once, when they arrive. Returns whether there is something new to draw, and
    /// whether there is still something to wait for.
    pub fn take_late(&mut self, late: Late, metrics: Metrics, min_gap: i32, screen: Rect) -> (r: (
        bool,
        bool,
    ))
        requires
            old(self).sound(),
            metrics.fits(old(self).pool()),
            late matches Late::Arrived(extra) ==> forall|i: int|
                0 <= i < extra@.len() ==> has_text_start((#[trigger] extra@[i]).rect),
        ensures
            final(self).sound(),
            r.1 == (late is Waiting),
            match late {
                Late::Arrived(extra) => hints_added(
                    *old(self),
                    *final(self),
                    extra@,
                    metrics,
                    min_gap as int,
                    screen,
                    r.0,
                ),
                _ => !r.0 && *final(self) == *old(self),
            },
    {
        match late {
            Late::Waiting => (false, true),
            Late::Arrived(extra) => (
                self.add_hints(extra.as_slice(), metrics, min_gap, screen),
                false,
            ),
            Late::Failed => (false, false),
        }
    }
}

/// The labels of `boxes`, copied.
fn copy_labels(boxes: &Vec<HintBox>) -> (v: Vec<String>)
    ensures
        texts(v@) == box_labels(boxes@),
{
    let mut v: Vec<String> = Vec::new();
    let mut i: usize = 0;
    while i < boxes.len()
        invariant
            i <= boxes@.len(),
            texts(v@) == box_labels(boxes@).take(i as int),
        decreases boxes@.len() - i,
    {
        let ghost before = v@;
        let l = boxes[i].label.clone();
        v.push(l);
        assert(texts(v@) == texts(before).push(l@));
        assert(box_labels(boxes@).take(i + 1) == box_labels(boxes@).take(i as int).push(
            boxes@[i as int].label@,
        ));
        i += 1;
    }
    assert(box_labels(boxes@).take(i as int) == box_labels(boxes@));
    v
}

/// A prefix of something that can still become a label can, too.
proof fn lemma_alive_prefix(names: Seq<Seq<char>>, typed: Seq<char>, k: int)
    requires
        0 <= k <= typed.len(),
        alive(names, typed),
    ensures
        alive(names, typed.take(k)),
{
    let i = choose|i: int| 0 <= i < names.len() && begins(#[trigger] names[i], typed);
    assert(names[i].take(k) == names[i].take(typed.len() as int).take(k));
    assert(begins(names[i], typed.take(k)));
}

// --- A hint interaction ---------------------------------------------------

/// Where a hint interaction stands: what is to be done next.
#[derive(Debug, Clone, Copy, PartialEq, Eq, Structural)]
pub enum HintPhase {
    /// Capture the screen and look for targets.
    Scan,
    /// Map the overlay.
    Show,
    /// Let the user choose a hint.
    Pick,
    /// Let the user choose the hint where a drag ends.
    PickEnd,
    /// Unmap the overlay.
    Hide,
    /// Perform the pointer action.
    Act,
    /// Wait for the background re-read, so that it can't race the next one.
    Join,
    /// Nothing: the interaction is over.
    Done,
}

/// How what was to be done went.
#[derive(Debug, Clone, Copy, PartialEq, Eq, Structural)]
pub enum HintEvent {
    /// The scan is over, and there are (or will be) targets to hint, or not.
    Scanned { hintable: bool },
    /// A hint was chosen, or the selection was cancelled.
    Picked(Option<Point>),
    /// The step is done.
    Finished,
}

/// How many targets a mode needs.
pub open spec fn targets_needed(mode: Mode) -> nat {
    match mode {
        Mode::Drag { .. } => 2,
        _ => 1,
    }
}

/// The phase and the targets after `event`.
pub open spec fn hint_next(
    mode: Mode,
    phase: HintPhase,
    targets: Seq<Point>,
    event: HintEvent,
) -> (HintPhase, Seq<Point>) {
    match (phase, event) {
        (HintPhase::Scan, HintEvent::Scanned { hintable }) => (
            if hintable {
                HintPhase::Show
            } else {
                HintPhase::Done
            },
            targets,
        ),
        (HintPhase::Show, HintEvent::Finished) => (HintPhase::Pick, targets),
        (HintPhase::Pick, HintEvent::Picked(Some(p))) => (
            if mode is Drag {
                HintPhase::PickEnd
            } else {
                HintPhase::Hide
            },
            seq![p],
        ),
        (HintPhase::PickEnd, HintEvent::Picked(Some(p))) => (HintPhase::Hide, targets.push(p)),
        (HintPhase::Pick, HintEvent::Picked(None)) => (HintPhase::Hide, Seq::empty()),
        (HintPhase::PickEnd, HintEvent::Picked(None)) => (HintPhase::Hide, Seq::empty()),
        (HintPhase::Hide, HintEvent::Finished) => (
            if targets.len() == 0 {
                HintPhase::Join
            } else {
                HintPhase::Act
            },
            targets,
        ),
        (HintPhase::Act, HintEvent::Finished) => (HintPhase::Join, targets),
        (HintPhase::Join, HintEvent::Finished) => (HintPhase::Done, targets),
        _ => (phase, targets),
    }
}

/// The phases of one hint interaction.
///
/// Targets are chosen while the overlay is up; the overlay is then torn down
/// *before* any synthetic click/drag, so the input lands on the app below
/// rather than on our own window.
#[derive(Debug)]
pub struct HintRun {
    pub mode: Mode,
    pub phase: HintPhase,
    pub targets: Vec<Point>,
}

impl HintRun {
    /// The number of targets is what the phase and the mode ask for.
    pub open spec fn sound(self) -> bool {
        match self.phase {
            HintPhase::Scan | HintPhase::Show | HintPhase::Pick => self.targets@.len() == 0,
            HintPhase::PickEnd => self.mode is Drag && self.targets@.len() == 1,
            HintPhase::Act => self.targets@.len() == targets_needed(self.mode),
            _ => self.targets@.len() == 0 || self.targets@.len() == targets_needed(self.mode),
        }
    }

    pub fn new(mode: Mode) -> (r: Self)
        ensures
            r.sound(),
            r.mode == mode,
            r.phase is Scan,
            r.targets@.len() == 0,
    {
        HintRun { mode, phase: HintPhase::Scan, targets: Vec::new() }
    }

    /// Take note of how the current phase went. An event that does not belong to
    /// the phase changes nothing.
    pub fn advance(&mut self, event: HintEvent)
        requires
            old(self).sound(),
        ensures
            final(self).sound(),
            final(self).mode == old(self).mode,
            (final(self).phase, final(self).targets@) == hint_next(
                old(self).mode,
                old(self).phase,
                old(self).targets@,
                event,
            ),
    {
        match (self.phase, event) {
            (HintPhase::Scan, HintEvent::Scanned { hintable }) => {
                self.phase = if hintable {
                    HintPhase::Show
                } else {
                    HintPhase::Done
                };
            },
            (HintPhase::Show, HintEvent::Finished) => {
                self.phase = HintPhase::Pick;
            },
            (HintPhase::Pick, HintEvent::Picked(Some(p))) => {
                self.targets.push(p);
                assert(self.targets@ == seq![p]);
                self.phase = match self.mode {
                    Mode::Drag { .. } => HintPhase::PickEnd,
                    _ => HintPhase::Hide,
                };
            },
            (HintPhase::PickEnd, HintEvent::Picked(Some(p))) => {
                self.targets.push(p);
                self.phase = HintPhase::Hide;
            },
            (HintPhase::Pick, HintEvent::Picked(None)) => {
                self.targets = Vec::new();
                assert(self.targets@ == Seq::<Point>::empty());
                self.phase = HintPhase::Hide;
            },
            (HintPhase::PickEnd, HintEvent::Picked(None)) => {
                self.targets = Vec::new();
                assert(self.targets@ == Seq::<Point>::empty());
                self.phase = HintPhase::Hide;
            },
            (HintPhase::Hide, HintEvent::Finished) => {
                self.phase = if self.targets.len() == 0 {
                    HintPhase::Join
                } else {
                    HintPhase::Act
                };
            },
            (HintPhase::Act, HintEvent::Finished) => {
                self.phase = HintPhase::Join;
            },
            (HintPhase::Join, HintEvent::Finished) => {
                self.phase = HintPhase::Done;
            },
            _ => {},
        }
    }
}

/// The pointer steps of `mode` on its `targets`.
pub open spec fn action_steps(mode: Mode, targets: Seq<Point>) -> Seq<PointerStep> {
    match mode {
        Mode::Teleport => seq![PointerStep::MoveTo(targets[0])],
        Mode::Click { button, count } => seq![PointerStep::MoveTo(targets[0])] + clicks(
            button,
            crate::geometry::greater(count as int, 1) as nat,
        ),
        Mode::Drag { button } => drag_steps(targets[0], targets[1], button),
    }
}

/// The pointer action for `mode` on the already-chosen `targets`, and whether the
/// resulting selection is copied to the clipboard afterwards.
pub fn act(mode: Mode, targets: &[Point]) -> (r: (Vec<PointerStep>, bool))
    requires
        targets@.len() >= targets_needed(mode),
    ensures
        r.0@ == action_steps(mode, targets@),
        r.1 == (mode is Drag),
{
    match mode {
        Mode::Teleport => {
            let mut steps: Vec<PointerStep> = Vec::new();
            steps.push(PointerStep::MoveTo(targets[0]));
            assert(steps@ == action_steps(mode, targets@));
            (steps, false)
        },
        Mode::Click { button, count } => {
            let mut steps: Vec<PointerStep> = Vec::new();
            steps.push(PointerStep::MoveTo(targets[0]));
            assert(steps@ == seq![PointerStep::MoveTo(targets@[0])]);
            let mut more = click(button, count);
            steps.append(&mut more);
            (steps, false)
        },
        Mode::Drag { button } => (drag(targets[0], targets[1], button), true),
    }
}

// --- Free movement --------------------------------------------------------

/// The character a configured key string maps to.
pub open spec fn key_of(s: Seq<char>) -> char {
    if s == "space"@ {
        ' '
    } else if s.len() > 0 {
        s[0]
    } else {
        '\0'
    }
}

/// The character a configured key string maps to. A few keys have no printable
/// character, so a name is accepted; today that's just `"space"`.
pub fn key_char(s: &str) -> (c: char)
    ensures
        c == key_of(s@),
{
    if same_text(s, "space") {
        ' '
    } else {
        let chars = to_chars(s);
        if chars.len() > 0 {
            chars[0]
        } else {
            '\0'
        }
    }
}

/// The keys of move mode.
#[derive(Debug, Clone, Copy, PartialEq, Eq, Structural)]
pub struct MoveKeys {
    pub left: char,
    pub down: char,
    pub up: char,
    pub right: char,
    pub boost: char,
    pub left_click: char,
    pub right_click: char,
    pub double_click: char,
    pub drag: char,
}

impl MoveKeys {
    /// The configured direction keys, with the given boost and action keys.
    pub fn new(
        keys: &Keys,
        boost: &str,
        left_click: &str,
        right_click: &str,
        double_click: &str,
        drag: &str,
    ) -> (m: Self)
        ensures
            m == (MoveKeys {
                left: key_of(keys.move_left@),
                down: key_of(keys.move_down@),
                up: key_of(keys.move_up@),
                right: key_of(keys.move_right@),
                boost: key_of(boost@),
                left_click: key_of(left_click@),
                right_click: key_of(right_click@),
                double_click: key_of(double_click@),
                drag: key_of(drag@),
            }),
    {
        MoveKeys {
            left: key_char(keys.move_left.as_str()),
            down: key_char(keys.move_down.as_str()),
            up: key_char(keys.move_up.as_str()),
            right: key_char(keys.move_right.as_str()),
            boost: key_char(boost),
            left_click: key_char(left_click),
            right_click: key_char(right_click),
            double_click: key_char(double_click),
            drag: key_char(drag),
        }
    }
}

/// What a key asks for in move mode.
#[derive(Debug, Clone, Copy, PartialEq, Eq, Structural)]
pub enum MoveEffect {
    Nothing,
    /// Leave move mode.
    Quit,
    /// Click where the pointer rests.
    Click { button: Button, count: u32 },
    /// Press the left button: a drag begins.
    StartDrag,
    /// Release the left button and copy the resulting selection to the clipboard.
    EndDrag,
}

/// The held keys of move mode.
#[derive(Debug, Clone, Copy, PartialEq, Eq, Structural)]
pub struct FreeMove {
    pub keys: MoveKeys,
    pub hold_left: bool,
    pub hold_right: bool,
    pub hold_up: bool,
    pub hold_down: bool,
    pub boosting: bool,
    pub dragging: bool,
}

/// What the action keys ask for; a drag key flips a drag on or off.
pub open spec fn action_effect(keys: MoveKeys, c: char, dragging: bool) -> MoveEffect {
    if c == keys.left_click {
        MoveEffect::Click { button: Button::Left, count: 1 }
    } else if c == keys.right_click {
        MoveEffect::Click { button: Button::Right, count: 1 }
    } else if c == keys.double_click {
        MoveEffect::Click { button: Button::Left, count: 2 }
    } else if c == keys.drag {
        if dragging {
            MoveEffect::EndDrag
        } else {
            MoveEffect::StartDrag
        }
    } else {
        MoveEffect::Nothing
    }
}

/// The state and the effect after one key transition. Direction and boost keys
/// track their held state; arrow keys steer alongside the configured letter keys;
/// action keys fire once, on the press.
pub open spec fn moved(m: FreeMove, ev: KeyTransition) -> (FreeMove, MoveEffect) {
    match ev.input {
        KeyInput::Escape => (m, MoveEffect::Quit),
        KeyInput::Enter => (
            m,
            if ev.pressed {
                MoveEffect::Quit
            } else {
                MoveEffect::Nothing
            },
        ),
        KeyInput::Left => (FreeMove { hold_left: ev.pressed, ..m }, MoveEffect::Nothing),
        KeyInput::Right => (FreeMove { hold_right: ev.pressed, ..m }, MoveEffect::Nothing),
        KeyInput::Up => (FreeMove { hold_up: ev.pressed, ..m }, MoveEffect::Nothing),
        KeyInput::Down => (FreeMove { hold_down: ev.pressed, ..m }, MoveEffect::Nothing),
        KeyInput::Char { c, shift: _ } => {
            let lc = lowered(c);
            if lc == m.keys.left {
                (FreeMove { hold_left: ev.pressed, ..m }, MoveEffect::Nothing)
            } else if lc == m.keys.right {
                (FreeMove { hold_right: ev.pressed, ..m }, MoveEffect::Nothing)
            } else if lc == m.keys.up {
                (FreeMove { hold_up: ev.pressed, ..m }, MoveEffect::Nothing)
            } else if lc == m.keys.down {
                (FreeMove { hold_down: ev.pressed, ..m }, MoveEffect::Nothing)
            } else if lc == m.keys.boost {
                (FreeMove { boosting: ev.pressed, ..m }, MoveEffect::Nothing)
            } else if ev.pressed {
                let effect = action_effect(m.keys, lc, m.dragging);
                (
                    FreeMove {
                        dragging: match effect {
                            MoveEffect::StartDrag => true,
                            MoveEffect::EndDrag => false,
                            _ => m.dragging,
                        },
                        ..m
                    },
                    effect,
                )
            } else {
                (m, MoveEffect::Nothing)
            }
        },
        _ => (m, MoveEffect::Nothing),
    }
}

/// The state after the first `n` of `events`.
pub open spec fn moved_all(m: FreeMove, events: Seq<KeyTransition>, n: nat) -> FreeMove
    decreases n,
{
    if n == 0 {
        m
    } else {
        moved(moved_all(m, events, (n - 1) as nat), events[n - 1]).0
    }
}

/// The effects of the first `n` of `events`, one for each.
pub open spec fn effects_of(m: FreeMove, events: Seq<KeyTransition>, n: nat) -> Seq<MoveEffect> {
    Seq::new(n, |i: int| moved(moved_all(m, events, i as nat), events[i]).1)
}

impl FreeMove {
    pub fn new(keys: MoveKeys) -> (m: Self)
        ensures
            m == (FreeMove {
                keys,
                hold_left: false,
                hold_right: false,
                hold_up: false,
                hold_down: false,
                boosting: false,
                dragging: false,
            }),
    {
        FreeMove {
            keys,
            hold_left: false,
            hold_right: false,
            hold_up: false,
            hold_down: false,
            boosting: false,
            dragging: false,
        }
    }

    /// Take in one key transition.
    pub fn apply(&mut self, ev: KeyTransition) -> (effect: MoveEffect)
        ensures
            (*final(self), effect) == moved(*old(self), ev),
    {
        match ev.input {
            KeyInput::Escape => MoveEffect::Quit,
            KeyInput::Enter => if ev.pressed {
                MoveEffect::Quit
            } else {
                MoveEffect::Nothing
            },
            KeyInput::Left => {
                self.hold_left = ev.pressed;
                MoveEffect::Nothing
            },
            KeyInput::Right => {
                self.hold_right = ev.pressed;
                MoveEffect::Nothing
            },
            KeyInput::Up => {
                self.hold_up = ev.pressed;
                MoveEffect::Nothing
            },
            KeyInput::Down => {
                self.hold_down = ev.pressed;
                MoveEffect::Nothing
            },
            KeyInput::Char { c, shift: _ } => {
                let lc = to_lower(c);
                if lc == self.keys.left {
                    self.hold_left = ev.pressed;
                    MoveEffect::Nothing
                } else if lc == self.keys.right {
                    self.hold_right = ev.pressed;
                    MoveEffect::Nothing
                } else if lc == self.keys.up {
                    self.hold_up = ev.pressed;
                    MoveEffect::Nothing
                } else if lc == self.keys.down {
                    self.hold_down = ev.pressed;
                    MoveEffect::Nothing
                } else if lc == self.keys.boost {
                    self.boosting = ev.pressed;
                    MoveEffect::Nothing
                } else if ev.pressed {
                    self.act_on(lc)
                } else {
                    MoveEffect::Nothing
                }
            },
            _ => MoveEffect::Nothing,
        }
    }

    /// Fire the action key `lc`, if it is one.
    fn act_on(&mut self, lc: char) -> (effect: MoveEffect)
        ensures
            effect == action_effect(old(self).keys, lc, old(self).dragging),
            *final(self) == (FreeMove {
                dragging: match effect {
                    MoveEffect::StartDrag => true,
                    MoveEffect::EndDrag => false,
                    _ => old(self).dragging,
                },
                ..*old(self)
            }),
    {
        if lc == self.keys.left_click {
            MoveEffect::Click { button: Button::Left, count: 1 }
        } else if lc == self.keys.right_click {
            MoveEffect::Click { button: Button::Right, count: 1 }
        } else if lc == self.keys.double_click {
            MoveEffect::Click { button: Button::Left, count: 2 }
        } else if lc == self.keys.drag {
            self.toggle_drag()
        } else {
            MoveEffect::Nothing
        }
    }

    /// Flip a left-button drag on or off. Pressing starts it; pressing again
    /// releases and copies the resulting selection to the clipboard.
    fn toggle_drag(&mut self) -> (effect: MoveEffect)
        ensures
            effect == if old(self).dragging {
                MoveEffect::EndDrag
            } else {
                MoveEffect::StartDrag
            },
            *final(self) == (FreeMove { dragging: !old(self).dragging, ..*old(self) }),
    {
        if self.dragging {
            self.dragging = false;
            MoveEffect::EndDrag
        } else {
            self.dragging = true;
            MoveEffect::StartDrag
        }
    }

    /// Take in every queued key transition; returns what each asks for, and
    /// whether any of them leaves move mode.
    pub fn apply_all(&mut self, events: &[KeyTransition]) -> (r: (Vec<MoveEffect>, bool))
        ensures
            *final(self) == moved_all(*old(self), events@, events@.len()),
            r.0@ == effects_of(*old(self), events@, events@.len()),
            r.1 == r.0@.contains(MoveEffect::Quit),
    {
        let mut effects: Vec<MoveEffect> = Vec::new();
        let mut quit = false;
        let mut i: usize = 0;
        assert(effects@ == effects_of(*old(self), events@, 0));
        while i < events.len()
            invariant
                i <= events@.len(),
                *self == moved_all(*old(self), events@, i as nat),
                effects@ == effects_of(*old(self), events@, i as nat),
                quit == effects@.contains(MoveEffect::Quit),
            decreases events@.len() - i,
        {
            let ghost before = effects@;
            let effect = self.apply(events[i]);
            if effect == MoveEffect::Quit {
                quit = true;
            }
            effects.push(effect);
            proof {
                assert(effects@ == effects_of(*old(self), events@, (i + 1) as nat));
                if before.contains(MoveEffect::Quit) {
                    let k = choose|k: int|
                        0 <= k < before.len() && before[k] == MoveEffect::Quit;
                    assert(effects@[k] == MoveEffect::Quit);
                }
                assert(effects@[before.len() as int] == effect);
                if effects@.contains(MoveEffect::Quit) && effect != MoveEffect::Quit {
                    let k = choose|k: int|
                        0 <= k < effects@.len() && effects@[k] == MoveEffect::Quit;
                    assert(before[k] == MoveEffect::Quit);
                }
            }
            i += 1;
        }
        (effects, quit)
    }

    /// The held direction on each axis, each in `{-1, 0, 1}`.
    pub fn direction(&self) -> (d: (i32, i32))
        ensures
            d.0 == (if self.hold_right {
                1int
            } else {
                0
            }) - (if self.hold_left {
                1int
            } else {
                0
            }),
            d.1 == (if self.hold_down {
                1int
            } else {
                0
            }) - (if self.hold_up {
                1int
            } else {
                0
            }),
            -1 <= d.0 <= 1,
            -1 <= d.1 <= 1,
    {
        let right: i32 = if self.hold_right {
            1
        } else {
            0
        };
        let left: i32 = if self.hold_left {
            1
        } else {
            0
        };
        let down: i32 = if self.hold_down {
            1
        } else {
            0
        };
        let up: i32 = if self.hold_up {
            1
        } else {
            0
        };
        (right - left, down - up)
    }

    /// Whether the left button has to be released on the way out: never leave it
    /// stuck down when leaving mid-drag.
    pub fn finish(&mut self) -> (release: bool)
        ensures
            release == old(self).dragging,
            *final(self) == (FreeMove { dragging: false, ..*old(self) }),
    {
        let release = self.dragging;
        self.dragging = false;
        release
    }
}

// --- Laws -----------------------------------------------------------------

/// The overlay is down before any synthetic input: the pointer action follows
/// directly on unmapping the overlay, and on nothing else.
pub proof fn law_the_overlay_is_hidden_before_acting(
    mode: Mode,
    phase: HintPhase,
    targets: Seq<Point>,
    event: HintEvent,
)
    requires
        phase !is Act,
        hint_next(mode, phase, targets, event).0 is Act,
    ensures
        phase is Hide,
        event is Finished,
        targets.len() > 0,
        hint_next(mode, phase, targets, event).1 == targets,
{
}

/// A cancelled selection does nothing to the pointer: from a cancelled pick, the
/// next steps unmap the overlay and wind down.
pub proof fn law_cancelling_moves_nothing(mode: Mode, phase: HintPhase, targets: Seq<Point>)
    requires
        phase is Pick || phase is PickEnd,
    ensures
        ({
            let (p1, t1) = hint_next(mode, phase, targets, HintEvent::Picked(None));
            let (p2, t2) = hint_next(mode, p1, t1, HintEvent::Finished);
            let (p3, t3) = hint_next(mode, p2, t2, HintEvent::Finished);
            p1 is Hide && t1.len() == 0 && p2 is Join && p3 is Done
        }),
{
}

/// Typing the label of a hint, key by key, chooses that hint: with prefix-free
/// labels every key but the last keeps the hints up, and the last one gives the
/// target of exactly that hint.
pub proof fn law_typing_a_label_chooses_its_target(
    boxes: Seq<HintBox>,
    i: int,
    k: int,
    c: char,
    shift: bool,
    after: Seq<char>,
    step: SelectStep,
)
    requires
        prefix_free(box_labels(boxes)),
        boxes.len() <= usize::MAX,
        0 <= i < boxes.len(),
        0 < k <= boxes[i].label@.len(),
        lowered(c) == boxes[i].label@[k - 1],
        selecting(
            box_labels(boxes),
            boxes,
            boxes[i].label@.take(k - 1),
            OverlayInput::Key(KeyInput::Char { c, shift }),
            after,
            step,
        ),
    ensures
        after == boxes[i].label@.take(k),
        k < boxes[i].label@.len() ==> step is Repaint,
        k == boxes[i].label@.len() ==> step == SelectStep::Chosen(boxes[i].target),
{
    let names = box_labels(boxes);
    assert(names[i] == boxes[i].label@);
    let typed = boxes[i].label@.take(k - 1);
    let state = choose|state: MatchState| #[trigger]
        typing_step(names, typed, lowered(c), after, state) && match state {
            MatchState::Selected(i) => step == SelectStep::Chosen(boxes[i as int].target),
            MatchState::Pending => step is Repaint,
            MatchState::NoMatch => step is Ignored,
        };
    crate::hint::label::law_typing_a_label_selects_it(names, i, k, after, state);
}

/// How far a button is down after `effects`: one more for each drag begun, one
/// less for each drag ended.
pub open spec fn button_balance(effects: Seq<MoveEffect>) -> int
    decreases effects.len(),
{
    if effects.len() == 0 {
        0
    } else {
        button_balance(effects.drop_last()) + match effects.last() {
            MoveEffect::StartDrag => 1int,
            MoveEffect::EndDrag => -1int,
            _ => 0int,
        }
    }
}

/// Move mode always knows whether it holds the button: starting with the button
/// up, the presses and releases it asks for balance exactly to the drag state, so
/// releasing on the way out leaves no button down.
pub proof fn law_the_drag_state_is_the_button(m: FreeMove, events: Seq<KeyTransition>, n: nat)
    requires
        !m.dragging,
        n <= events.len(),
    ensures
        button_balance(effects_of(m, events, n)) == if moved_all(m, events, n).dragging {
            1int
        } else {
            0int
        },
    decreases n,
{
    if n > 0 {
        law_the_drag_state_is_the_button(m, events, (n - 1) as nat);
        let all = effects_of(m, events, n);
        assert(all.drop_last() == effects_of(m, events, (n - 1) as nat));
    }
}

proof fn lemma_pow_base(n: nat, l: nat)
    requires
        n >= 2,
    ensures
        pow(n as int, l) >= pow(2, l) >= 1,
    decreases l,
{
    reveal(pow);
    if l > 0 {
        lemma_pow_base(n, (l - 1) as nat);
        assert(n * pow(n as int, (l - 1) as nat) >= 2 * pow(2, (l - 1) as nat)) by (nonlinear_arith)
            requires
                n >= 2,
                pow(n as int, (l - 1) as nat) >= pow(2, (l - 1) as nat) >= 1,
        ;
    }
}

/// Any font of a sane size fits: whatever the alphabet and however many hints,
/// no label is longer than 64 characters, so its box has sides that an `i32`
/// holds as long as a character is no wider than 2^24 pixels.
pub proof fn law_labels_of_sane_fonts_fit(metrics: Metrics, alphabet: Seq<char>, count: nat)
    requires
        alphabet.len() >= 2,
        count <= u64::MAX,
        metrics.advance <= 0x100_0000,
        metrics.line <= i32::MAX - 4,
    ensures
        metrics.fits_names(labels_for(alphabet, count)),
{
    let names = labels_for(alphabet, count);
    lemma_pow_base(alphabet.len(), 64);
    lemma2_to64();
    lemma_pow2(64);
    assert(pow2(64) == 0x1_0000_0000_0000_0000);
    assert forall|i: int| 0 <= i < names.len() implies fits_i32(
        metrics.box_width((#[trigger] names[i]).len()),
    ) by {
        law_labels_are_short(alphabet, count, 64, i);
        let len = names[i].len();
        assert(len * metrics.advance <= 64 * 0x100_0000) by (nonlinear_arith)
            requires
                0 <= len <= 64,
                metrics.advance <= 0x100_0000,
        ;
    }
}

/// No direction is held.
pub open spec fn at_rest(m: FreeMove) -> bool {
    !m.hold_left && !m.hold_right && !m.hold_up && !m.hold_down
}

/// `input` is the key that the character `key` was configured as, whatever the
/// case, or the arrow key `arrow`.
pub open spec fn steers_by(input: KeyInput, key: char, arrow: KeyInput) -> bool {
    input == arrow || (input matches KeyInput::Char { c, shift: _ } && lowered(c) == key)
}

/// Each direction key holds its own direction and no other: from rest, holding the
/// up key (or the up arrow) and nothing else steers up, and likewise for the other
/// three; letting go stops. `held` and `freed` are what is steered by then.
pub proof fn law_each_direction_key_steers_its_own_way(
    m: FreeMove,
    input: KeyInput,
    held: (i32, i32),
    freed: (i32, i32),
)
    requires
        at_rest(m),
        m.keys.left != m.keys.right,
        m.keys.left != m.keys.up,
        m.keys.left != m.keys.down,
        m.keys.right != m.keys.up,
        m.keys.right != m.keys.down,
        m.keys.up != m.keys.down,
        ({
            let down = moved(m, KeyTransition { input, pressed: true }).0;
            let up = moved(down, KeyTransition { input, pressed: false }).0;
            &&& call_ensures(FreeMove::direction, (&down,), held)
            &&& call_ensures(FreeMove::direction, (&up,), freed)
        }),
    ensures
        steers_by(input, m.keys.left, KeyInput::Left) ==> held == (-1i32, 0i32),
        steers_by(input, m.keys.right, KeyInput::Right) ==> held == (1i32, 0i32),
        steers_by(input, m.keys.up, KeyInput::Up) ==> held == (0i32, -1i32),
        steers_by(input, m.keys.down, KeyInput::Down) ==> held == (0i32, 1i32),
        freed == (0i32, 0i32),
{
}

/// The two axes are steered by themselves, and opposite keys cancel out: whatever
/// else is held, pressing a direction key moves the held direction by at most one
/// step its way, on its own axis, and releasing it by at most one step back.
pub proof fn law_a_direction_key_moves_only_its_own_axis(
    m: FreeMove,
    input: KeyInput,
    pressed: bool,
    before: (i32, i32),
    after: (i32, i32),
)
    requires
        m.keys.left != m.keys.right,
        m.keys.left != m.keys.up,
        m.keys.left != m.keys.down,
        m.keys.right != m.keys.up,
        m.keys.right != m.keys.down,
        m.keys.up != m.keys.down,
        call_ensures(FreeMove::direction, (&m,), before),
        call_ensures(FreeMove::direction, (&moved(m, KeyTransition { input, pressed }).0,), after),
    ensures
        steers_by(input, m.keys.left, KeyInput::Left) ==> after.1 == before.1 && after.0 - before.0
            == if pressed == m.hold_left {
            0int
        } else if pressed {
            -1int
        } else {
            1int
        },
        steers_by(input, m.keys.right, KeyInput::Right) ==> after.1 == before.1 && after.0 - before.0
            == if pressed == m.hold_right {
            0int
        } else if pressed {
            1int
        } else {
            -1int
        },
        steers_by(input, m.keys.up, KeyInput::Up) ==> after.0 == before.0 && after.1 - before.1
            == if pressed == m.hold_up {
            0int
        } else if pressed {
            -1int
        } else {
            1int
        },
        steers_by(input, m.keys.down, KeyInput::Down) ==> after.0 == before.0 && after.1 - before.1
            == if pressed == m.hold_down {
            0int
        } else if pressed {
            1int
        } else {
            -1int
        },
        !steers_by(input, m.keys.left, KeyInput::Left) && !steers_by(
            input,
            m.keys.right,
            KeyInput::Right,
        ) && !steers_by(input, m.keys.up, KeyInput::Up) && !steers_by(
            input,
            m.keys.down,
            KeyInput::Down,
        ) ==> after == before,
{
}

/// The character is none of the keys that are held down in move mode.
pub open spec fn is_action(keys: MoveKeys, c: char) -> bool {
    c != keys.left && c != keys.right && c != keys.up && c != keys.down && c != keys.boost
}

/// The action keys do what they are called, once, on the press: where they are
/// distinct, the left-click key clicks once with the left button, the right-click
/// key once with the right, the double-click key twice with the left, and the drag
/// key begins a drag or ends the one under way. Coming up they do nothing, and no
/// other character asks for anything.
pub proof fn law_action_keys_do_what_they_are_called(m: FreeMove, c: char, shift: bool, pressed: bool)
    requires
        m.keys.left_click != m.keys.right_click,
        m.keys.left_click != m.keys.double_click,
        m.keys.left_click != m.keys.drag,
        m.keys.right_click != m.keys.double_click,
        m.keys.right_click != m.keys.drag,
        m.keys.double_click != m.keys.drag,
    ensures
        ({
            let input = KeyInput::Char { c, shift };
            let (after, effect) = moved(m, KeyTransition { input, pressed });
            let key = lowered(c);
            let fires = pressed && is_action(m.keys, key);
            &&& effect == MoveEffect::Click { button: Button::Left, count: 1 } <==> fires && key
                == m.keys.left_click
            &&& effect == MoveEffect::Click { button: Button::Right, count: 1 } <==> fires && key
                == m.keys.right_click
            &&& effect == MoveEffect::Click { button: Button::Left, count: 2 } <==> fires && key
                == m.keys.double_click
            &&& effect is StartDrag <==> fires && key == m.keys.drag && !m.dragging
            &&& effect is EndDrag <==> fires && key == m.keys.drag && m.dragging
            &&& effect !is Quit
            &&& after.dragging == if fires && key == m.keys.drag {
                !m.dragging
            } else {
                m.dragging
            }
            &&& after.keys == m.keys
        }),
{
}

/// The boost lasts as long as its key is held, and no other key touches it.
pub proof fn law_the_boost_is_held(m: FreeMove, input: KeyInput, pressed: bool)
    ensures
        ({
            let after = moved(m, KeyTransition { input, pressed }).0;
            let boosts = input matches KeyInput::Char { c, shift: _ } && lowered(c) == m.keys.boost
                && m.keys.boost != m.keys.left && m.keys.boost != m.keys.right && m.keys.boost
                != m.keys.up && m.keys.boost != m.keys.down;
            after.boosting == if boosts {
                pressed
            } else {
                m.boosting
            }
        }),
{
}

/// Escape leaves move mode, Enter does when it is pressed, and nothing else does.
pub proof fn law_only_escape_and_enter_leave_move_mode(m: FreeMove, ev: KeyTransition)
    ensures
        moved(m, ev).1 is Quit <==> ev.input is Escape || (ev.input is Enter && ev.pressed),
        ev.input is Escape || ev.input is Enter ==> moved(m, ev).0 == m,
{
}

/// Every queued key is taken in, in order: the first one is applied to the state as
/// it is, and the others to what it left.
pub proof fn law_queued_keys_are_taken_in_order(
    m: FreeMove,
    ev: KeyTransition,
    rest: Seq<KeyTransition>,
)
    ensures
        ({
            let all = seq![ev] + rest;
            let (next, effect) = moved(m, ev);
            &&& moved_all(m, all, all.len()) == moved_all(next, rest, rest.len())
            &&& effects_of(m, all, all.len()) == seq![effect] + effects_of(next, rest, rest.len())
        }),
{
    let all = seq![ev] + rest;
    let next = moved(m, ev).0;
    assert forall|k: nat| k <= rest.len() implies #[trigger] moved_all(next, rest, k) == moved_all(
        m,
        all,
        k + 1,
    ) by {
        lemma_one_later(m, ev, rest, k);
    }
    assert(all.len() == rest.len() + 1);
    let one = effects_of(m, all, all.len());
    let two = seq![moved(m, ev).1] + effects_of(next, rest, rest.len());
    assert(one.len() == two.len());
    assert forall|i: int| 0 <= i < one.len() implies one[i] == two[i] by {
        if i == 0 {
            assert(moved_all(m, all, 0) == m);
        } else {
            let k = (i - 1) as nat;
            assert(moved_all(next, rest, k) == moved_all(m, all, k + 1));
            assert(all[i] == rest[i - 1]);
        }
    }
    assert(one == two);
}

proof fn lemma_one_later(m: FreeMove, ev: KeyTransition, rest: Seq<KeyTransition>, k: nat)
    requires
        k <= rest.len(),
    ensures
        moved_all(moved(m, ev).0, rest, k) == moved_all(m, seq![ev] + rest, k + 1),
    decreases k,
{
    let all = seq![ev] + rest;
    if k == 0 {
        assert(moved_all(m, all, 0) == m);
        assert(all[0] == ev);
    } else {
        lemma_one_later(m, ev, rest, (k - 1) as nat);
        assert(all[k as int] == rest[k - 1]);
    }
}

/// A key is named by its first character; the space bar, which has no printable
/// one, by its name.
pub proof fn law_keys_are_named_by_their_first_character(s: Seq<char>)
    ensures
        s == "space"@ ==> key_of(s) == ' ',
        s != "space"@ && s.len() > 0 ==> key_of(s) == s[0],
        s.len() == 0 ==> key_of(s) == '\0',
{
    reveal_strlit("space");
}

/// While hints are up, Escape and a click give up; Backspace takes the last typed
/// key back; a character that no hint goes on with, and any other key, changes
/// nothing.
pub proof fn law_other_inputs_select_nothing(
    names: Seq<Seq<char>>,
    targets: Seq<HintBox>,
    typed: Seq<char>,
    input: OverlayInput,
    after: Seq<char>,
    step: SelectStep,
)
    requires
        selecting(names, targets, typed, input, after, step),
    ensures
        step is Cancelled <==> input is Click || input == OverlayInput::Key(KeyInput::Escape),
        input == OverlayInput::Key(KeyInput::Backspace) ==> step is Repaint && (typed.len() > 0
            ==> after.push(typed.last()) == typed) && (typed.len() == 0 ==> after == typed),
        input matches OverlayInput::Key(KeyInput::Char { c, shift: _ }) ==> {
            let goes_on = exists|i: int, rest: Seq<char>|
                0 <= i < names.len() && names[i] == #[trigger] (typed.push(lowered(c)) + rest)
                    && #[trigger] names[i] == names[i];
            &&& !goes_on ==> step is Ignored && after == typed
            &&& goes_on ==> step !is Ignored && after == typed.push(lowered(c))
        },
        !(input is Click) && !(input matches OverlayInput::Key(KeyInput::Char { c, shift }))
            && input != OverlayInput::Key(KeyInput::Backspace) ==> after == typed && (step is Ignored
            || step is Cancelled),
{
    if let OverlayInput::Key(KeyInput::Char { c, shift: _ }) = input {
        let longer = typed.push(lowered(c));
        if alive(names, longer) {
            let i = choose|i: int| 0 <= i < names.len() && begins(#[trigger] names[i], longer);
            crate::text::law_a_prefix_leaves_a_rest(names[i], longer);
            let rest = choose|rest: Seq<char>| names[i] == #[trigger] (longer + rest);
            assert(names[i] == (typed.push(lowered(c)) + rest) && names[i] == names[i]);
        }
        if exists|i: int, rest: Seq<char>|
            0 <= i < names.len() && names[i] == #[trigger] (typed.push(lowered(c)) + rest)
                && #[trigger] names[i] == names[i] {
            let (i, rest) = choose|i: int, rest: Seq<char>|
                0 <= i < names.len() && names[i] == #[trigger] (typed.push(lowered(c)) + rest)
                    && #[trigger] names[i] == names[i];
            crate::text::law_a_prefix_leaves_a_rest(names[i], longer);
            assert(begins(names[i], longer));
        }
    }
    if typed.len() > 0 {
        assert(typed.drop_last().push(typed.last()) == typed);
    }
}

/// What is chosen is what is acted on: from the first pick on, a teleport or click
/// acts on the hint that was picked, and a drag on its two picks, in the order in
/// which they were made.
pub proof fn law_what_is_picked_is_acted_on(mode: Mode, p: Point, q: Point)
    ensures
        ({
            let (p1, t1) = hint_next(
                mode,
                HintPhase::Pick,
                Seq::empty(),
                HintEvent::Picked(Some(p)),
            );
            let (p2, t2) = hint_next(mode, p1, t1, HintEvent::Picked(Some(q)));
            if mode is Drag {
                &&& p1 is PickEnd
                &&& p2 is Hide
                &&& hint_next(mode, p2, t2, HintEvent::Finished) == (HintPhase::Act, seq![p, q])
            } else {
                &&& p1 is Hide
                &&& hint_next(mode, p1, t1, HintEvent::Finished) == (HintPhase::Act, seq![p])
            }
        }),
{
    assert(seq![p].push(q) == seq![p, q]);
}

/// A scan that found something is shown before anything can be picked; one that
/// found nothing ends the interaction there and then; and the way out of an action
/// waits for the background read.
pub proof fn law_an_interaction_runs_its_course(mode: Mode, targets: Seq<Point>)
    ensures
        hint_next(mode, HintPhase::Scan, targets, HintEvent::Scanned { hintable: false }).0 is Done,
        hint_next(mode, HintPhase::Scan, targets, HintEvent::Scanned { hintable: true }).0 is Show,
        hint_next(mode, HintPhase::Show, targets, HintEvent::Finished) == (HintPhase::Pick, targets),
        hint_next(mode, HintPhase::Act, targets, HintEvent::Finished).0 is Join,
        hint_next(mode, HintPhase::Join, targets, HintEvent::Finished).0 is Done,
        forall|e: HintEvent| (#[trigger] hint_next(mode, HintPhase::Done, targets, e)).0 is Done,
{
}

/// Teleporting moves the pointer onto the target and presses nothing. Clicking
/// moves it there first and then presses the button as often as asked, at least
/// once, without moving on. Dragging presses on the first target and releases on
/// the second.
pub proof fn law_the_action_happens_on_the_target(mode: Mode, targets: Seq<Point>, at: Point)
    requires
        targets.len() >= targets_needed(mode),
    ensures
        ({
            let s = action_steps(mode, targets);
            match mode {
                Mode::Teleport => pointer_after(s, at) == targets[0] && forall|b: Button| #[trigger]
                    presses(s, b) == 0,
                Mode::Click { button, count } => {
                    &&& s[0] == PointerStep::MoveTo(targets[0])
                    &&& s.skip(1) == clicks(
                        button,
                        (if count > 1 {
                            count as nat
                        } else {
                            1
                        }),
                    )
                    &&& s.len() >= 1
                },
                Mode::Drag { button } => {
                    &&& s == drag_steps(targets[0], targets[1], button)
                    &&& pointer_after(s, at) == targets[1]
                    &&& presses(s, button) == 1
                },
            }
        }),
        targets_needed(mode) == if mode is Drag {
            2nat
        } else {
            1nat
        },
{
    let s = action_steps(mode, targets);
    match mode {
        Mode::Teleport => {
            assert(s == seq![PointerStep::MoveTo(targets[0])]);
            assert forall|b: Button| #[trigger] presses(s, b) == 0 by {
                assert(presses(s.drop_last(), b) == 0);
            }
        },
        Mode::Click { button, count } => {
            let n = crate::geometry::greater(count as int, 1) as nat;
            assert(s.skip(1) == clicks(button, n));
        },
        Mode::Drag { button } => {
            law_a_drag_goes_from_its_start_to_its_end(targets[0], targets[1], button, at);
        },
    }
}

/// Late hints change nothing that is on screen: every box that was there is there
/// as it was, the typed keys are kept, and each new box carries the next label of
/// the pool and leads to the text of its own element. There are as many new ones as
/// elements, unless the pool runs out.
pub proof fn law_late_hints_leave_the_first_ones_alone(
    before: Selection,
    after: Selection,
    extra: Seq<Element>,
    metrics: Metrics,
    gap: int,
    screen: Rect,
    more: bool,
)
    requires
        hints_added(before, after, extra, metrics, gap, screen, more),
        before.shown().len() <= before.pool().len(),
        forall|i: int| 0 <= i < extra.len() ==> has_text_start((#[trigger] extra[i]).rect),
    ensures
        after.keys() == before.keys(),
        after.pool() == before.pool(),
        forall|i: int|
            0 <= i < before.shown().len() ==> after.shown()[i] == #[trigger] before.shown()[i],
        after.shown().len() == before.pool().len() || after.shown().len() == before.shown().len()
            + extra.len(),
        after.shown().len() <= before.pool().len(),
        after.shown().len() <= before.shown().len() + extra.len(),
        more <==> after.shown().len() > before.shown().len(),
        forall|i: int|
            before.shown().len() <= i < after.shown().len() ==> {
                let b = #[trigger] after.shown()[i];
                let r = extra[i - before.shown().len()].rect;
                &&& b.label@ == before.pool()[i]@
                &&& b.index == i
                &&& b.target.y == r.mid_y()
                &&& b.target.x == r.x + inset(r)
            },
{
    let used = before.shown().len() as int;
    let old = after.shown().take(used);
    assert forall|i: int| 0 <= i < used implies after.shown()[i] == #[trigger] before.shown()[i] by {
        assert(old[i] == after.shown()[i]);
    }
    let take = lesser(extra.len() as int, before.pool().len() - used);
    let new = after.shown().skip(used);
    assert forall|i: int| used <= i < after.shown().len() implies {
        let b = #[trigger] after.shown()[i];
        let r = extra[i - used].rect;
        &&& b.label@ == before.pool()[i]@
        &&& b.index == i
        &&& b.target.y == r.mid_y()
        &&& b.target.x == r.x + inset(r)
    } by {
        assert(new[i - used] == after.shown()[i]);
        assert(extra.take(take)[i - used] == extra[i - used]);
        assert(has_text_start(extra[i - used].rect));
    }
}

/// What a selection shows carries the first labels of its pool, and 64 labels are kept
/// in reserve.
pub proof fn law_a_selection_shows_the_first_labels_of_its_pool(s: Selection, i: int)
    requires
        s.sound(),
        0 <= i < s.shown().len(),
    ensures
        box_labels(s.shown()).len() == s.shown().len(),
        box_labels(s.shown())[i] == s.shown()[i].label@,
        i < s.pool().len() && s.pool()[i]@ == s.shown()[i].label@,
        LABEL_RESERVE == 64,
{
    let n = s.boxes@.len() as int;
    assert(box_labels(s.boxes@)[i] == s.boxes@[i].label@);
    assert(texts(s.labels@).take(n)[i] == texts(s.labels@)[i]);
    assert(texts(s.labels@)[i] == s.labels@[i]@);
}

/// Keys that mean nothing in move mode do nothing there.
pub proof fn law_other_keys_do_nothing_in_move_mode(m: FreeMove, ev: KeyTransition)
    requires
        ev.input is Other || ev.input is Backspace,
    ensures
        moved(m, ev) == (m, MoveEffect::Nothing),
{
}

/// Each configured key takes the part that its name says.
pub proof fn law_configured_keys_take_their_parts(
    keys: &Keys,
    boost: &str,
    left_click: &str,
    right_click: &str,
    double_click: &str,
    drag: &str,
    m: MoveKeys,
)
    requires
        call_ensures(MoveKeys::new, (keys, boost, left_click, right_click, double_click, drag), m),
    ensures
        m.left == key_of(keys.move_left@),
        m.right == key_of(keys.move_right@),
        m.up == key_of(keys.move_up@),
        m.down == key_of(keys.move_down@),
        m.boost == key_of(boost@),
        m.left_click == key_of(left_click@),
        m.right_click == key_of(right_click@),
        m.double_click == key_of(double_click@),
        m.drag == key_of(drag@),
{
}

} // verus!
