//! Detection: finding hintable targets on screen.
//!
//! mole is OCR-driven. When a hint interaction starts, the screen is captured
//! and read with Tesseract, and the recognised words are grouped into
//! *phrase-level* targets — a run of words separated by spaces, like a line of a
//! menu or a sentence in a document. Every visible piece of text becomes
//! something you can jump to, regardless of whether the app underneath exposes
//! anything to accessibility.
//!
//! The [`Detector`] trait is the seam the rest of the pipeline talks to; it keeps
//! the pipeline testable with fakes and leaves room for a future backend without
//! touching the call sites.

pub mod atspi;
pub mod icon;
pub mod ocr;

use vstd::prelude::*;

use crate::capture::Screen;
use crate::error::Result;
use crate::geometry::Rect;
use crate::order::{
    law_sorted_is_ordered, law_sorted_keeps_the_items, ordered, sort_by_keys, sorted, Rank,
};
use ocr::cache::Band;

verus! {

/// A single detected, hintable target on screen: a phrase of text and the box
/// that bounds it, in absolute screen coordinates.
#[derive(Debug, Clone, PartialEq, Eq)]
pub struct Element {
    /// Bounding box in absolute screen coordinates.
    pub rect: Rect,
    /// The recognised text of the phrase.
    pub text: String,
}

impl Element {
    pub fn new(rect: Rect, text: &str) -> (e: Self)
        ensures
            e.rect == rect,
            e.text@ == text@,
    {
        Element { rect, text: String::from_str(text) }
    }
}

/// The slow remainder of a [`Detector::detect_split`]: the bands of the screen
/// that still have to be read, off the main thread, to get the elements that
/// weren't ready immediately.
#[derive(Debug, Clone)]
pub struct ScanRest {
    pub bands: Vec<Band>,
}

/// A scan split into what's ready now and what still needs work.
#[derive(Debug, Clone)]
pub struct Scan {
    /// Elements available immediately (e.g. from cache) — shown right away.
    pub ready: Vec<Element>,
    /// If present, the rest of the scan to finish in the background; its result
    /// is the *additional* elements to fold in once ready.
    pub pending: Option<ScanRest>,
}

/// A source of hintable elements.
pub trait Detector {
    /// Find all hintable targets visible on `screen`.
    fn detect(&self, screen: &Screen) -> Result<Vec<Element>>;

    /// A short name for logs.
    fn name(&self) -> &'static str;

    /// Like [`Detector::detect`], but split into the part that can be shown
    /// immediately and a background remainder. The default does everything up
    /// front (nothing pending); the OCR backend returns cached words now and the
    /// re-read of changed regions as the pending part.
    fn detect_split(&self, screen: &Screen) -> (r: Result<Scan>)
        default_ensures
            match r {
                Ok(scan) => scan.pending is None && call_ensures(
                    Self::detect,
                    (self, screen),
                    Ok(scan.ready),
                ),
                Err(e) => call_ensures(Self::detect, (self, screen), Err(e)),
            },
    {
        match self.detect(screen) {
            Ok(ready) => Ok(Scan { ready, pending: None }),
            Err(e) => Err(e),
        }
    }

    /// Like [`Detector::detect`], at the granularity of whole phrases, so that a
    /// sentence stays selectable in one drag. The default is what
    /// [`Detector::detect`] finds.
    fn detect_phrases(&self, screen: &Screen) -> (r: Result<Vec<Element>>)
        default_ensures
            call_ensures(Self::detect, (self, screen), r),
    {
        self.detect(screen)
    }
}

/// `e` is worth a hint: at least `min_size` on both axes, and partly on screen.
pub open spec fn hintable(e: Element, min_size: int, screen: Rect) -> bool {
    e.rect.width >= min_size && e.rect.height >= min_size && e.rect.visible_in(screen)
}

/// The rank of an element in reading order: top-to-bottom, then left-to-right.
pub open spec fn element_rank(e: Element) -> Rank {
    (e.rect.mid_y(), e.rect.mid_x())
}

/// Clean, ordered targets: the elements worth a hint, in reading order.
pub open spec fn finalized(elements: Seq<Element>, min_size: int, screen: Rect) -> Seq<Element> {
    sorted(
        elements.filter(|e: Element| hintable(e, min_size, screen)),
        |e: Element| element_rank(e),
    )
}

/// Post-process a raw element list into what the hint pipeline expects: drop
/// boxes that are too small or off-screen, then sort into reading order so the
/// shortest labels land on the top-left targets.
///
/// Kept here (rather than in a single backend) so every present and future
/// [`Detector`] shares one notion of "clean, ordered targets".
pub fn finalize(elements: Vec<Element>, min_size: i32, screen: Rect) -> (r: Vec<Element>)
    ensures
        r@ == finalized(elements@, min_size as int, screen),
{
    let ghost given = elements@;
    let ghost wanted = |e: Element| hintable(e, min_size as int, screen);
    let mut kept: Vec<Element> = Vec::new();
    let mut keys: Vec<(i64, i64)> = Vec::new();
    proof {
        reveal(Seq::filter);
    }
    for e in it: elements
        invariant
            it.seq() == given,
            wanted == (|e: Element| hintable(e, min_size as int, screen)),
            kept@ == given.take(it.index() as int).filter(wanted),
            keys@.len() == kept@.len(),
            forall|j: int|
                0 <= j < kept@.len() ==> element_rank(kept@[j]) == (
                    (#[trigger] keys@[j]).0 as int,
                    keys@[j].1 as int,
                ),
    {
        let ghost k = it.index() as int;
        proof {
            reveal(Seq::filter);
            assert(given.take(k + 1).drop_last() == given.take(k));
            assert(given.take(k + 1).last() == e);
        }
        let r = e.rect;
        if r.width >= min_size && r.height >= min_size && r.clamp_to(screen).is_some() {
            kept.push(e);
            keys.push((r.y as i64 + (r.height / 2) as i64, r.x as i64 + (r.width / 2) as i64));
        }
    }
    assert(given.take(given.len() as int) == given);
    // Reading order: top-to-bottom, then left-to-right.
    sort_by_keys(kept, keys, Ghost(|e: Element| element_rank(e)))
}

// --- Laws -----------------------------------------------------------------

/// What finalizing leaves is exactly the elements worth a hint, each as often as
/// it came, in reading order.
pub proof fn law_finalized_is_the_hintable_in_reading_order(
    elements: Seq<Element>,
    min_size: int,
    screen: Rect,
)
    ensures
        finalized(elements, min_size, screen).to_multiset() == elements.filter(
            |e: Element| hintable(e, min_size, screen),
        ).to_multiset(),
        ordered(finalized(elements, min_size, screen), |e: Element| element_rank(e)),
{
    let kept = elements.filter(|e: Element| hintable(e, min_size, screen));
    let rank = |e: Element| element_rank(e);
    law_sorted_keeps_the_items(kept, rank);
    law_sorted_is_ordered(kept, rank);
}

/// What finalizing leaves is what is large enough on both sides and shares a pixel
/// with the screen, and nothing else.
pub proof fn law_small_and_hidden_elements_are_dropped(
    elements: Seq<Element>,
    min_size: int,
    screen: Rect,
    e: Element,
)
    ensures
        finalized(elements, min_size, screen).contains(e) <==> {
            &&& elements.contains(e)
            &&& e.rect.width >= min_size
            &&& e.rect.height >= min_size
            &&& exists|x: int, y: int| #[trigger] e.rect.covers(x, y) && screen.covers(x, y)
        },
{
    broadcast use vstd::seq_lib::group_to_multiset_ensures;

    let worth = |v: Element| hintable(v, min_size, screen);
    let kept = elements.filter(worth);
    let all = finalized(elements, min_size, screen);
    law_finalized_is_the_hintable_in_reading_order(elements, min_size, screen);
    assert(all.contains(e) <==> kept.contains(e)) by {
        assert(all.to_multiset().count(e) > 0 <==> all.contains(e));
        assert(kept.to_multiset().count(e) > 0 <==> kept.contains(e));
    }
    crate::geometry::law_intersection_is_a_common_part(e.rect, screen);
    if kept.contains(e) {
        let k = choose|k: int| 0 <= k < kept.len() && kept[k] == e;
        elements.lemma_filter_pred(worth, k);
        elements.lemma_filter_contains_rev(worth, e);
    }
    if elements.contains(e) && worth(e) {
        let k = choose|k: int| 0 <= k < elements.len() && elements[k] == e;
        elements.lemma_filter_contains(worth, k);
    }
}

/// Reading order is top to bottom, by the middles of the boxes, and left to right
/// where those are level.
pub proof fn law_reading_order_is_top_to_bottom(
    elements: Seq<Element>,
    min_size: int,
    screen: Rect,
    i: int,
    j: int,
)
    requires
        0 <= i < j < finalized(elements, min_size, screen).len(),
    ensures
        ({
            let a = finalized(elements, min_size, screen)[i].rect;
            let b = finalized(elements, min_size, screen)[j].rect;
            a.mid_y() < b.mid_y() || (a.mid_y() == b.mid_y() && a.mid_x() <= b.mid_x())
        }),
{
    law_finalized_is_the_hintable_in_reading_order(elements, min_size, screen);
    let rank = |e: Element| element_rank(e);
    let all = finalized(elements, min_size, screen);
    assert(!crate::order::before(rank(all[j]), rank(all[i])));
}

} // verus!
