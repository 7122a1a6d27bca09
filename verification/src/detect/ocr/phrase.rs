//! Grouping OCR words into phrase targets.
//!
//! Tesseract gives us one box per *word*. Hinting every single word would bury
//! the screen in labels and make "jump to that menu entry" a multi-hint chore.
//! Instead we merge words that read as a unit (a run of words on the same line,
//! separated by ordinary spacing) into one [`Element`] whose box spans the
//! whole phrase and whose text is the words joined back together.
//!
//! The grouping is purely geometric (it never re-reads pixels), so it is fast
//! and deterministic; no display required.

use vstd::prelude::*;

use crate::detect::Element;
use crate::geometry::{
    greater, half, law_quotients_round_towards_zero, lesser, min_i32, quotient, Rect,
};
use crate::order::{
    before, law_sorted_is_ordered, law_sorted_keeps_the_items, sort_by_keys, sorted, Rank,
};
use crate::text::{to_chars, trim_chars, trimmed};

verus! {

/// A single recognised word: its on-screen box and text. Confidence filtering
/// happens upstream in [`super::tsv`], so every `Word` here is one we trust.
#[derive(Debug, Clone, PartialEq, Eq)]
pub struct Word {
    pub rect: Rect,
    pub text: String,
}

impl Word {
    pub fn new(rect: Rect, text: &str) -> (w: Self)
        ensures
            w.rect == rect,
            w.text@ == text@,
    {
        Word { rect, text: String::from_str(text) }
    }

    /// A word with the same box and the same text.
    pub fn duplicate(&self) -> (w: Self)
        ensures
            w.rect == self.rect,
            w.text@ == self.text@,
    {
        Word { rect: self.rect, text: self.text.clone() }
    }

    /// The word has a text to read and a box to point at.
    pub open spec fn legible(self) -> bool {
        trimmed(self.text@).len() > 0 && self.rect.width > 0 && self.rect.height > 0
    }
}

/// Tunables controlling how aggressively words coalesce into phrases: whole
/// pixels for each text height, rounded down from the `[ocr]` factors.
#[derive(Debug, Clone)]
pub struct Grouping {
    /// Entry `h`: two words share a line when their vertical centres differ by
    /// at most this, for text `h` pixels high (`line_tolerance` times `h`).
    pub line_tolerance: Vec<i32>,
    /// Entry `h`: consecutive words on a line join the same phrase when the gap
    /// between them is at most this, before a word `h` pixels high
    /// (`max_word_gap` times `h`).
    pub max_word_gap: Vec<i32>,
}

impl Grouping {
    /// The limits are there for every text height in `words`.
    pub open spec fn covers(self, words: Seq<Word>) -> bool {
        forall|w: Word|
            #[trigger] words.contains(w) && w.legible() ==> w.rect.height
                < self.line_tolerance@.len() && w.rect.height < self.max_word_gap@.len()
    }
}

/// The box around any two words of `words` is a [`Rect`].
pub open spec fn spannable(words: Seq<Word>) -> bool {
    forall|a: Word, b: Word|
        #[trigger] words.contains(a) && #[trigger] words.contains(b) && a.legible() && b.legible()
            ==> a.rect.has_union(b.rect)
}

/// The rank of a word in reading order: top-to-bottom, then left-to-right.
pub open spec fn reading_rank(w: Word) -> Rank {
    (w.rect.mid_y(), w.rect.mid_x())
}

/// The rank of a word on its line: left-to-right.
pub open spec fn line_rank(w: Word) -> Rank {
    (w.rect.x as int, 0)
}

/// The vertical centres of `line`, added up.
pub open spec fn sum_mid_y(line: Seq<Word>) -> int
    decreases line.len(),
{
    if line.len() == 0 {
        0
    } else {
        sum_mid_y(line.drop_last()) + line.last().rect.mid_y()
    }
}

/// The least of `h` and the heights of `line`.
pub open spec fn least_height(line: Seq<Word>, h: int) -> int
    decreases line.len(),
{
    if line.len() == 0 {
        h
    } else {
        lesser(least_height(line.drop_last(), h), line.last().rect.height as int)
    }
}

/// The line's mean vertical centre.
pub open spec fn mean_y(line: Seq<Word>) -> int {
    quotient(sum_mid_y(line), line.len() as int)
}

/// How far `v` is from zero.
pub open spec fn distance(v: int) -> int {
    if v < 0 {
        -v
    } else {
        v
    }
}

/// `w` belongs to the line built so far.
pub open spec fn shares_line(line: Seq<Word>, w: Word, g: Grouping) -> bool {
    let height = greater(least_height(line, w.rect.height as int), 1);
    distance(w.rect.mid_y() - mean_y(line)) <= g.line_tolerance@[height]
}

/// `w` joins the phrase that ends in `prev`.
pub open spec fn joins(prev: Word, w: Word, g: Grouping) -> bool {
    w.rect.x - prev.rect.end_x() <= g.max_word_gap@[w.rect.height as int]
}

/// `s`, in reading order, split into lines.
pub open spec fn lines_of(s: Seq<Word>, g: Grouping) -> Seq<Seq<Word>>
    decreases s.len(),
{
    if s.len() == 0 {
        Seq::empty()
    } else {
        let before = lines_of(s.drop_last(), g);
        if before.len() > 0 && shares_line(before.last(), s.last(), g) {
            before.drop_last().push(before.last().push(s.last()))
        } else {
            before.push(seq![s.last()])
        }
    }
}

/// A line, left to right, split into phrases on wide gaps.
pub open spec fn phrases_of(line: Seq<Word>, g: Grouping) -> Seq<Seq<Word>>
    decreases line.len(),
{
    if line.len() == 0 {
        Seq::empty()
    } else {
        let before = phrases_of(line.drop_last(), g);
        if before.len() > 0 && joins(before.last().last(), line.last(), g) {
            before.drop_last().push(before.last().push(line.last()))
        } else {
            before.push(seq![line.last()])
        }
    }
}

/// The box around all the words of a phrase.
pub open spec fn span(words: Seq<Word>) -> Rect
    decreases words.len(),
{
    if words.len() <= 1 {
        words[0].rect
    } else {
        span(words.drop_last()).hull(words.last().rect)
    }
}

/// The texts of a phrase, joined with single spaces.
pub open spec fn reading(words: Seq<Word>) -> Seq<char>
    decreases words.len(),
{
    if words.len() == 0 {
        Seq::empty()
    } else if words.len() == 1 {
        words[0].text@
    } else {
        reading(words.drop_last()).push(' ') + words.last().text@
    }
}

/// What an element shows: its box and its text.
pub open spec fn shape(e: Element) -> (Rect, Seq<char>) {
    (e.rect, e.text@)
}

pub open spec fn shapes(v: Seq<Element>) -> Seq<(Rect, Seq<char>)> {
    v.map_values(|e: Element| shape(e))
}

/// The phrases of one line.
pub open spec fn line_shapes(line: Seq<Word>, g: Grouping) -> Seq<(Rect, Seq<char>)> {
    phrases_of(sorted(line, |w: Word| line_rank(w)), g).map_values(
        |p: Seq<Word>| (span(p), reading(p)),
    )
}

/// The phrases of all `lines`, line after line.
pub open spec fn all_shapes(lines: Seq<Seq<Word>>, g: Grouping) -> Seq<(Rect, Seq<char>)>
    decreases lines.len(),
{
    if lines.len() == 0 {
        Seq::empty()
    } else {
        all_shapes(lines.drop_last(), g) + line_shapes(lines.last(), g)
    }
}

/// The words in reading order, without those that cannot be read or pointed at.
pub open spec fn in_order(words: Seq<Word>) -> Seq<Word> {
    sorted(words.filter(|w: Word| w.legible()), |w: Word| reading_rank(w))
}

/// What grouping `words` gives.
pub open spec fn grouped(words: Seq<Word>, g: Grouping) -> Seq<(Rect, Seq<char>)> {
    all_shapes(lines_of(in_order(words), g), g)
}

/// Merge `words` into phrase elements: cluster into lines top-to-bottom, then
/// split each line into phrases wherever a wide horizontal gap (a column break,
/// a separate UI control) interrupts the flow.
pub fn group(words: Vec<Word>, g: &Grouping) -> (out: Vec<Element>)
    requires
        g.covers(words@),
        spannable(words@),
    ensures
        shapes(out@) == grouped(words@, *g),
{
    let ghost given = words@;
    let kept = legible_words(words);
    // Reading order first: top-to-bottom, then left-to-right.
    let ordered = reading_order(kept);
    proof {
        lemma_in_order(given);
        assert forall|i: int| 0 <= i < ordered@.len() implies 0 < (
        #[trigger] ordered@[i]).rect.height < g.line_tolerance@.len() by {
            assert(in_order(given).contains(ordered@[i]));
        }
    }
    // 1. Partition the sorted words into lines.
    let lines = split_into_lines(ordered, g);
    let ghost all = deep(lines@);
    proof {
        lemma_lines_hold(in_order(given), *g);
    }
    // 2. Split each line into phrases on wide gaps, emit one Element per phrase.
    let mut out: Vec<Element> = Vec::new();
    for line in it: lines
        invariant
            all == deep(it.seq()),
            all == lines_of(in_order(given), *g),
            shapes(out@) == all_shapes(all.take(it.index() as int), *g),
            forall|i: int| 0 <= i < all.len() ==> (#[trigger] all[i]).len() > 0,
            forall|i: int, w: Word|
                0 <= i < all.len() && #[trigger] all[i].contains(w) ==> given.contains(w)
                    && w.legible(),
            g.covers(given),
            spannable(given),
    {
        let ghost k = it.index() as int;
        assert(line@ == all[k]);
        let mut more = line_phrases(line, g);
        let ghost before = out@;
        let ghost extra = more@;
        out.append(&mut more);
        proof {
            assert(out@ == before + extra);
            assert(shapes(out@) == shapes(before) + shapes(extra));
            assert(all.take(k + 1).drop_last() == all.take(k));
            assert(all.take(k + 1).last() == all[k]);
        }
    }
    assert(all.take(all.len() as int) == all);
    out
}

/// The words of each line.
spec fn deep(lines: Seq<Vec<Word>>) -> Seq<Seq<Word>> {
    lines.map_values(|l: Vec<Word>| l@)
}

/// Every word in reading order is a legible word that was given.
proof fn lemma_in_order(given: Seq<Word>)
    ensures
        forall|w: Word| #[trigger]
            in_order(given).contains(w) ==> given.contains(w) && w.legible(),
{
    let legible = |w: Word| w.legible();
    let key = |w: Word| reading_rank(w);
    let kept = given.filter(legible);
    law_sorted_keeps_the_items(kept, key);
    broadcast use vstd::seq_lib::group_to_multiset_ensures;

    assert forall|w: Word| #[trigger] in_order(given).contains(w) implies given.contains(w)
        && w.legible() by {
        assert(in_order(given).to_multiset().count(w) > 0);
        assert(kept.contains(w));
        let i = choose|i: int| 0 <= i < kept.len() && kept[i] == w;
        given.lemma_filter_pred(legible, i);
        given.lemma_filter_contains_rev(legible, w);
    }
}

/// Every word of a line is one of the words that were split into lines, and no
/// line is empty.
proof fn lemma_lines_hold(s: Seq<Word>, g: Grouping)
    ensures
        forall|i: int| 0 <= i < lines_of(s, g).len() ==> (#[trigger] lines_of(s, g)[i]).len() > 0,
        forall|i: int, w: Word|
            0 <= i < lines_of(s, g).len() && #[trigger] lines_of(s, g)[i].contains(w)
                ==> s.contains(w),
    decreases s.len(),
{
    let all = lines_of(s, g);
    if s.len() > 0 {
        let t = s.drop_last();
        let before = lines_of(t, g);
        lemma_lines_hold(t, g);
        assert forall|i: int, w: Word|
            0 <= i < all.len() && #[trigger] all[i].contains(w) implies s.contains(w) by {
            let k = choose|k: int| 0 <= k < all[i].len() && all[i][k] == w;
            if w == s.last() {
                assert(s[s.len() - 1] == w);
            } else {
                assert(before[i].contains(w)) by {
                    assert(before[i][k] == w);
                }
                assert(t.contains(w));
                let j = choose|j: int| 0 <= j < t.len() && t[j] == w;
                assert(s[j] == w);
            }
        }
    }
}

/// The words that can be read and pointed at.
fn legible_words(words: Vec<Word>) -> (kept: Vec<Word>)
    ensures
        kept@ == words@.filter(|w: Word| w.legible()),
{
    let ghost given = words@;
    let ghost legible = |w: Word| w.legible();
    let mut kept: Vec<Word> = Vec::new();
    proof {
        reveal(Seq::filter);
    }
    for w in it: words
        invariant
            it.seq() == given,
            legible == (|w: Word| w.legible()),
            kept@ == given.take(it.index() as int).filter(legible),
    {
        let ghost k = it.index() as int;
        proof {
            reveal(Seq::filter);
            assert(given.take(k + 1).drop_last() == given.take(k));
            assert(given.take(k + 1).last() == w);
        }
        let text = trim_chars(&to_chars(w.text.as_str()));
        if text.len() > 0 && w.rect.width > 0 && w.rect.height > 0 {
            kept.push(w);
        }
    }
    assert(given.take(given.len() as int) == given);
    kept
}

/// `words` in reading order.
fn reading_order(words: Vec<Word>) -> (r: Vec<Word>)
    ensures
        r@ == sorted(words@, |w: Word| reading_rank(w)),
{
    let mut keys: Vec<(i64, i64)> = Vec::new();
    let mut i: usize = 0;
    while i < words.len()
        invariant
            i <= words@.len(),
            keys@.len() == i,
            forall|j: int|
                0 <= j < i ==> reading_rank(words@[j]) == (
                    (#[trigger] keys@[j]).0 as int,
                    keys@[j].1 as int,
                ),
        decreases words@.len() - i,
    {
        let r = words[i].rect;
        keys.push((r.y as i64 + (r.height / 2) as i64, r.x as i64 + (r.width / 2) as i64));
        i += 1;
    }
    sort_by_keys(words, keys, Ghost(|w: Word| reading_rank(w)))
}

/// `line` from left to right.
fn left_to_right(line: Vec<Word>) -> (r: Vec<Word>)
    ensures
        r@ == sorted(line@, |w: Word| line_rank(w)),
{
    let mut keys: Vec<(i64, i64)> = Vec::new();
    let mut i: usize = 0;
    while i < line.len()
        invariant
            i <= line@.len(),
            keys@.len() == i,
            forall|j: int|
                0 <= j < i ==> line_rank(line@[j]) == (
                    (#[trigger] keys@[j]).0 as int,
                    keys@[j].1 as int,
                ),
        decreases line@.len() - i,
    {
        keys.push((line[i].rect.x as i64, 0));
        i += 1;
    }
    sort_by_keys(line, keys, Ghost(|w: Word| line_rank(w)))
}

/// Split words in reading order into lines.
fn split_into_lines(words: Vec<Word>, g: &Grouping) -> (lines: Vec<Vec<Word>>)
    requires
        forall|i: int|
            0 <= i < words@.len() ==> 0 < (#[trigger] words@[i]).rect.height
                < g.line_tolerance@.len(),
    ensures
        deep(lines@) == lines_of(words@, *g),
{
    let ghost given = words@;
    let mut done: Vec<Vec<Word>> = Vec::new();
    let mut line: Vec<Word> = Vec::new();
    for w in it: words
        invariant
            it.seq() == given,
            forall|i: int|
                0 <= i < given.len() ==> 0 < (#[trigger] given[i]).rect.height
                    < g.line_tolerance@.len(),
            it.index() == 0 ==> line@.len() == 0 && done@.len() == 0,
            it.index() > 0 ==> line@.len() > 0 && deep(done@).push(line@) == lines_of(
                given.take(it.index() as int),
                *g,
            ),
            forall|i: int| 0 <= i < line@.len() ==> 0 < (#[trigger] line@[i]).rect.height,
    {
        let ghost k = it.index() as int;
        let ghost before = deep(done@);
        let ghost cur = line@;
        proof {
            assert(given.take(k + 1).drop_last() == given.take(k));
            assert(given.take(k + 1).last() == w);
            if k > 0 {
                assert(before.push(cur).last() == cur);
                assert(before.push(cur).drop_last() == before);
            } else {
                assert(given.take(0) == Seq::<Word>::empty());
                assert(lines_of(given.take(k), *g) == Seq::<Seq<Word>>::empty());
            }
        }
        if line.len() > 0 && same_line(&line, &w, g) {
            line.push(w);
            assert(lines_of(given.take(k + 1), *g) == before.push(cur.push(w)));
        } else {
            if line.len() > 0 {
                done.push(line);
                assert(deep(done@) == before.push(cur));
            } else {
                assert(deep(done@) == Seq::<Seq<Word>>::empty());
            }
            line = Vec::new();
            line.push(w);
            assert(line@ == seq![w]);
            assert(lines_of(given.take(k + 1), *g) == deep(done@).push(seq![w]));
        }
    }
    assert(given.take(given.len() as int) == given);
    if line.len() > 0 {
        let ghost before = deep(done@);
        let ghost cur = line@;
        done.push(line);
        assert(deep(done@) == before.push(cur));
    } else {
        assert(deep(done@) == Seq::<Seq<Word>>::empty());
    }
    done
}

/// Whether `w` belongs to the line built so far, judged against the line's mean
/// vertical centre so a slightly skewed row doesn't drift apart.
fn same_line(line: &Vec<Word>, w: &Word, g: &Grouping) -> (r: bool)
    requires
        line@.len() > 0,
        0 < w.rect.height < g.line_tolerance@.len(),
        forall|i: int| 0 <= i < line@.len() ==> 0 < (#[trigger] line@[i]).rect.height,
    ensures
        r == shares_line(line@, *w, *g),
{
    let mut sum: i128 = 0;
    let mut height = w.rect.height;
    let mut i: usize = 0;
    while i < line.len()
        invariant
            i <= line@.len(),
            sum == sum_mid_y(line@.take(i as int)),
            -0x2_0000_0000 * i <= sum <= 0x2_0000_0000 * i,
            height == least_height(line@.take(i as int), w.rect.height as int),
            0 < height <= w.rect.height,
            forall|i: int| 0 <= i < line@.len() ==> 0 < (#[trigger] line@[i]).rect.height,
        decreases line@.len() - i,
    {
        assert(line@.take(i + 1).drop_last() == line@.take(i as int));
        let r = line[i].rect;
        sum = sum + (r.y as i64 + (r.height / 2) as i64) as i128;
        height = min_i32(height, r.height);
        i += 1;
    }
    assert(line@.take(i as int) == line@);
    let n = line.len() as i128;
    let mean = sum / n;
    assert(-0x2_0000_0000 <= mean <= 0x2_0000_0000) by (nonlinear_arith)
        requires
            n >= 1,
            -0x2_0000_0000 * n <= sum <= 0x2_0000_0000 * n,
            mean == (if sum >= 0 {
                sum as int / (n as int)
            } else {
                -((-(sum as int)) / (n as int))
            }),
    ;
    let mid = w.rect.y as i128 + (w.rect.height / 2) as i128;
    let off = if mid >= mean {
        mid - mean
    } else {
        mean - mid
    };
    off <= g.line_tolerance[height as usize] as i128
}

/// The phrases of one line.
fn line_phrases(line: Vec<Word>, g: &Grouping) -> (out: Vec<Element>)
    requires
        line@.len() > 0,
        forall|w: Word| #[trigger]
            line@.contains(w) ==> w.legible() && w.rect.height < g.max_word_gap@.len(),
        spannable(line@),
    ensures
        shapes(out@) == line_shapes(line@, *g),
{
    let ghost given = line@;
    let ghost key = |w: Word| line_rank(w);
    let words = left_to_right(line);
    let ghost all = words@;
    let ghost view = |p: Seq<Word>| (span(p), reading(p));
    proof {
        law_sorted_keeps_the_items(given, key);
        broadcast use vstd::seq_lib::group_to_multiset_ensures;

        assert forall|w: Word| #[trigger] all.contains(w) implies given.contains(w) by {
            assert(all.to_multiset().count(w) > 0);
        }
    }
    let mut out: Vec<Element> = Vec::new();
    let mut phrase: Vec<Word> = Vec::new();
    for w in it: words
        invariant
            it.seq() == all,
            view == (|p: Seq<Word>| (span(p), reading(p))),
            forall|w: Word| #[trigger]
                all.contains(w) ==> w.legible() && w.rect.height < g.max_word_gap@.len(),
            spannable(all),
            it.index() == 0 ==> phrase@.len() == 0 && out@.len() == 0,
            it.index() > 0 ==> {
                let p = phrases_of(all.take(it.index() as int), *g);
                &&& p.len() > 0
                &&& phrase@.len() > 0
                &&& p.last() == phrase@
                &&& shapes(out@) == p.drop_last().map_values(view)
            },
            forall|i: int| 0 <= i < phrase@.len() ==> all.contains(#[trigger] phrase@[i]),
    {
        let ghost k = it.index() as int;
        proof {
            assert(all.take(k + 1).drop_last() == all.take(k));
            assert(all.take(k + 1).last() == w);
            assert(all[k] == w);
            assert(all.contains(w));
            if k == 0 {
                assert(all.take(0) == Seq::<Word>::empty());
            }
        }
        let ghost cur = phrase@;
        let ghost before = phrases_of(all.take(k), *g);
        let ghost after = phrases_of(all.take(k + 1), *g);
        if phrase.len() > 0 {
            let prev = &phrase[phrase.len() - 1];
            let gap = w.rect.x as i64 - prev.rect.right_wide();
            let limit = g.max_word_gap[w.rect.height as usize] as i64;
            if gap > limit {
                let ghost old_out = out@;
                out.push(finish(&phrase));
                phrase = Vec::new();
                proof {
                    assert(before == before.drop_last().push(cur));
                    assert(shapes(out@) == shapes(old_out).push((span(cur), reading(cur))));
                    assert(after == before.push(seq![w]));
                    assert(after.drop_last() == before);
                    assert(before.map_values(view) == before.drop_last().map_values(view).push(
                        view(cur),
                    ));
                }
            } else {
                assert(after == before.drop_last().push(cur.push(w)));
                assert(after.drop_last() == before.drop_last());
            }
        } else {
            assert(after == Seq::<Seq<Word>>::empty().push(seq![w]));
            assert(after.drop_last() == Seq::<Seq<Word>>::empty());
            assert(shapes(out@) == after.drop_last().map_values(view));
        }
        let ghost base = phrase@;
        phrase.push(w);
        proof {
            assert(phrase@ == base.push(w));
            if base.len() == 0 {
                assert(phrase@ == seq![w]);
            }
        }
    }
    assert(all.take(all.len() as int) == all);
    let ghost p = phrases_of(all, *g);
    let ghost cur = phrase@;
    let ghost old_out = out@;
    out.push(finish(&phrase));
    proof {
        assert(p == p.drop_last().push(cur));
        assert(shapes(out@) == shapes(old_out).push((span(cur), reading(cur))));
        assert(p.map_values(view) == p.drop_last().map_values(view).push(view(cur)));
    }
    out
}

/// Collapse a phrase's words into one [`Element`]: the union of their boxes, and
/// their texts joined with single spaces.
fn finish(words: &Vec<Word>) -> (e: Element)
    requires
        words@.len() > 0,
        forall|i: int, j: int|
            0 <= i < words@.len() && 0 <= j < words@.len() ==> (#[trigger] words@[i]).rect.has_union(
                (#[trigger] words@[j]).rect,
            ),
    ensures
        shape(e) == (span(words@), reading(words@)),
{
    let mut rect = words[0].rect;
    let mut text = words[0].text.clone();
    let mut i: usize = 1;
    let ghost mut l: int = 0;
    let ghost mut t: int = 0;
    let ghost mut r: int = 0;
    let ghost mut b: int = 0;
    while i < words.len()
        invariant
            1 <= i <= words@.len(),
            rect == span(words@.take(i as int)),
            text@ == reading(words@.take(i as int)),
            0 <= l < i,
            0 <= t < i,
            0 <= r < i,
            0 <= b < i,
            rect.x == words@[l].rect.x,
            rect.y == words@[t].rect.y,
            rect.end_x() == words@[r].rect.end_x(),
            rect.end_y() == words@[b].rect.end_y(),
            forall|i: int, j: int|
                0 <= i < words@.len() && 0 <= j < words@.len() ==> (
                #[trigger] words@[i]).rect.has_union((#[trigger] words@[j]).rect),
        decreases words@.len() - i,
    {
        let w = &words[i];
        proof {
            assert(words@.take(i + 1).drop_last() == words@.take(i as int));
            assert(words@[l].rect.has_union(words@[r].rect));
            assert(words@[l].rect.has_union(w.rect));
            assert(words@[r].rect.has_union(w.rect));
            assert(words@[t].rect.has_union(words@[b].rect));
            assert(words@[t].rect.has_union(w.rect));
            assert(words@[b].rect.has_union(w.rect));
            assert(w.rect.has_union(w.rect)) by {
                assert(words@[i as int].rect.has_union(words@[i as int].rect));
            }
        }
        let ghost old_rect = rect;
        rect = rect.union(&w.rect);
        text.push(' ');
        text.append(w.text.as_str());
        proof {
            if w.rect.x < old_rect.x {
                l = i as int;
            }
            if w.rect.y < old_rect.y {
                t = i as int;
            }
            if w.rect.end_x() > old_rect.end_x() {
                r = i as int;
            }
            if w.rect.end_y() > old_rect.end_y() {
                b = i as int;
            }
        }
        i += 1;
    }
    assert(words@.take(i as int) == words@);
    Element { rect, text }
}

// --- Laws -----------------------------------------------------------------

/// Splitting into lines keeps every word, in order: the lines put back together
/// are the words they were made of, and no line is empty.
pub proof fn law_lines_lose_no_word(s: Seq<Word>, g: Grouping)
    ensures
        lines_of(s, g).flatten() == s,
        forall|i: int| 0 <= i < lines_of(s, g).len() ==> (#[trigger] lines_of(s, g)[i]).len() > 0,
    decreases s.len(),
{
    lemma_lines_hold(s, g);
    let all = lines_of(s, g);
    if s.len() > 0 {
        let t = s.drop_last();
        let before = lines_of(t, g);
        law_lines_lose_no_word(t, g);
        lemma_regroup(before, s.last());
        assert(s == t.push(s.last()));
    } else {
        assert(all.flatten() == s);
    }
}

/// Splitting a line into phrases keeps every word, in order: the phrases put
/// back together are the line, and no phrase is empty.
pub proof fn law_phrases_lose_no_word(line: Seq<Word>, g: Grouping)
    ensures
        phrases_of(line, g).flatten() == line,
        forall|i: int|
            0 <= i < phrases_of(line, g).len() ==> (#[trigger] phrases_of(line, g)[i]).len() > 0,
    decreases line.len(),
{
    let all = phrases_of(line, g);
    if line.len() > 0 {
        let t = line.drop_last();
        let before = phrases_of(t, g);
        law_phrases_lose_no_word(t, g);
        lemma_regroup(before, line.last());
        assert(line == t.push(line.last()));
    } else {
        assert(all.flatten() == line);
    }
}

/// A new item put behind the last group, or into a group of its own, comes last
/// when the groups are put back together.
proof fn lemma_regroup(groups: Seq<Seq<Word>>, w: Word)
    ensures
        groups.push(seq![w]).flatten() == groups.flatten().push(w),
        groups.len() > 0 ==> groups.drop_last().push(groups.last().push(w)).flatten()
            == groups.flatten().push(w),
{
    groups.lemma_flatten_push(seq![w]);
    assert(groups.flatten() + seq![w] == groups.flatten().push(w));
    if groups.len() > 0 {
        let rest = groups.drop_last();
        rest.lemma_flatten_push(groups.last().push(w));
        rest.lemma_flatten_push(groups.last());
        assert(rest.push(groups.last()) == groups);
        assert(rest.flatten() + groups.last().push(w) == (rest.flatten() + groups.last()).push(w));
    }
}

/// A line is split into phrases exactly at its wide gaps: consecutive words of a
/// phrase join, and the last word of a phrase does not join the first of the
/// next.
pub proof fn law_phrases_split_at_wide_gaps(line: Seq<Word>, g: Grouping)
    ensures
        forall|i: int, j: int|
            #![trigger phrases_of(line, g)[i][j]]
            0 <= i < phrases_of(line, g).len() && 1 <= j < phrases_of(line, g)[i].len() ==> joins(
                phrases_of(line, g)[i][j - 1],
                phrases_of(line, g)[i][j],
                g,
            ),
        forall|i: int|
            #![trigger phrases_of(line, g)[i]]
            1 <= i < phrases_of(line, g).len() ==> !joins(
                phrases_of(line, g)[i - 1].last(),
                phrases_of(line, g)[i][0],
                g,
            ),
    decreases line.len(),
{
    if line.len() > 0 {
        let t = line.drop_last();
        let before = phrases_of(t, g);
        let all = phrases_of(line, g);
        law_phrases_split_at_wide_gaps(t, g);
        law_phrases_lose_no_word(t, g);
        assert forall|i: int, j: int|
            #![trigger all[i][j]]
            0 <= i < all.len() && 1 <= j < all[i].len() implies joins(all[i][j - 1], all[i][j], g) by {
            if i < before.len() && j < before[i].len() {
                assert(all[i][j] == before[i][j]);
                assert(all[i][j - 1] == before[i][j - 1]);
            }
        }
        assert forall|i: int| #![trigger all[i]] 1 <= i < all.len() implies !joins(
            all[i - 1].last(),
            all[i][0],
            g,
        ) by {
            assert(all[i - 1] == before[i - 1]);
            if i < before.len() {
                assert(before[i].len() > 0);
                assert(all[i][0] == before[i][0]);
            }
        }
    }
}

/// The box of a phrase spans the box of each of its words.
pub proof fn law_a_phrase_spans_its_words(words: Seq<Word>, i: int)
    requires
        0 <= i < words.len(),
        forall|a: int, b: int|
            0 <= a < words.len() && 0 <= b < words.len() ==> (#[trigger] words[a]).rect.has_union(
                (#[trigger] words[b]).rect,
            ),
    ensures
        span(words).x <= words[i].rect.x,
        span(words).y <= words[i].rect.y,
        words[i].rect.end_x() <= span(words).end_x(),
        words[i].rect.end_y() <= span(words).end_y(),
{
    lemma_span_edges(words);
}

/// Each edge of the box of a phrase is an edge of one of its words, and none of
/// them reaches beyond it.
proof fn lemma_span_edges(words: Seq<Word>)
    requires
        words.len() > 0,
        forall|a: int, b: int|
            0 <= a < words.len() && 0 <= b < words.len() ==> (#[trigger] words[a]).rect.has_union(
                (#[trigger] words[b]).rect,
            ),
    ensures
        exists|k: int| 0 <= k < words.len() && span(words).x == (#[trigger] words[k]).rect.x,
        exists|k: int| 0 <= k < words.len() && span(words).y == (#[trigger] words[k]).rect.y,
        exists|k: int|
            0 <= k < words.len() && span(words).end_x() == (#[trigger] words[k]).rect.end_x(),
        exists|k: int|
            0 <= k < words.len() && span(words).end_y() == (#[trigger] words[k]).rect.end_y(),
        forall|k: int|
            0 <= k < words.len() ==> span(words).x <= (#[trigger] words[k]).rect.x && span(words).y
                <= words[k].rect.y && words[k].rect.end_x() <= span(words).end_x()
                && words[k].rect.end_y() <= span(words).end_y(),
    decreases words.len(),
{
    if words.len() == 1 {
        assert(span(words).x == words[0].rect.x);
    } else {
        let t = words.drop_last();
        let n = words.len() - 1;
        assert forall|a: int, b: int| 0 <= a < t.len() && 0 <= b < t.len() implies (
        #[trigger] t[a]).rect.has_union((#[trigger] t[b]).rect) by {
            assert(t[a] == words[a] && t[b] == words[b]);
        }
        lemma_span_edges(t);
        let l = choose|k: int| 0 <= k < t.len() && span(t).x == (#[trigger] t[k]).rect.x;
        let u = choose|k: int| 0 <= k < t.len() && span(t).y == (#[trigger] t[k]).rect.y;
        let r = choose|k: int| 0 <= k < t.len() && span(t).end_x() == (#[trigger] t[k]).rect.end_x();
        let d = choose|k: int| 0 <= k < t.len() && span(t).end_y() == (#[trigger] t[k]).rect.end_y();
        assert(t[l] == words[l] && t[u] == words[u] && t[r] == words[r] && t[d] == words[d]);
        let w = words.last();
        assert(w == words[n]);
        assert(words[l].rect.has_union(words[r].rect) && words[u].rect.has_union(words[d].rect));
        assert(words[l].rect.has_union(words[n].rect) && words[r].rect.has_union(words[n].rect));
        assert(words[u].rect.has_union(words[n].rect) && words[d].rect.has_union(words[n].rect));
        assert(words[n].rect.has_union(words[n].rect));
        assert(span(t).has_union(w.rect));
        let s = span(words);
        assert(s.x == (if w.rect.x < span(t).x { words[n].rect.x } else { words[l].rect.x }));
        assert(s.y == (if w.rect.y < span(t).y { words[n].rect.y } else { words[u].rect.y }));
        assert(s.end_x() == (if w.rect.end_x() > span(t).end_x() {
            words[n].rect.end_x()
        } else {
            words[r].rect.end_x()
        }));
        assert(s.end_y() == (if w.rect.end_y() > span(t).end_y() {
            words[n].rect.end_y()
        } else {
            words[d].rect.end_y()
        }));
        assert forall|k: int| 0 <= k < words.len() implies s.x <= (#[trigger] words[k]).rect.x && s.y
            <= words[k].rect.y && words[k].rect.end_x() <= s.end_x() && words[k].rect.end_y()
            <= s.end_y() by {
            if k < n {
                assert(t[k] == words[k]);
            }
        }
    }
}

/// A line is cut exactly where a gap is too wide for the text behind it: between two
/// neighbouring words of a phrase there are at most as many columns as the limit for
/// the height of the second one says, and between two phrases there are more.
/// Nothing else about the words matters.
pub proof fn law_only_wide_gaps_cut_a_line(line: Seq<Word>, g: Grouping, i: int, j: int)
    ensures
        0 <= i < phrases_of(line, g).len() && 1 <= j < phrases_of(line, g)[i].len() ==> {
            let a = phrases_of(line, g)[i][j - 1].rect;
            let b = phrases_of(line, g)[i][j].rect;
            b.x - (a.x + a.width) <= g.max_word_gap@[b.height as int]
        },
        1 <= i < phrases_of(line, g).len() ==> {
            let a = phrases_of(line, g)[i - 1].last().rect;
            let b = phrases_of(line, g)[i][0].rect;
            b.x - (a.x + a.width) > g.max_word_gap@[b.height as int]
        },
{
    law_phrases_split_at_wide_gaps(line, g);
    if 0 <= i < phrases_of(line, g).len() && 1 <= j < phrases_of(line, g)[i].len() {
        assert(joins(phrases_of(line, g)[i][j - 1], phrases_of(line, g)[i][j], g));
    }
    if 1 <= i < phrases_of(line, g).len() {
        assert(!joins(phrases_of(line, g)[i - 1].last(), phrases_of(line, g)[i][0], g));
    }
}

/// The mean row of a line: the sum of the middles over their number.
pub proof fn law_the_mean_of_a_line_is_sum_over_number(line: Seq<Word>, w: Word)
    ensures
        sum_mid_y(Seq::empty()) == 0,
        sum_mid_y(line.push(w)) == sum_mid_y(line) + w.rect.y + half(w.rect.height as int),
        line.len() > 0 && sum_mid_y(line) >= 0 ==> 0 <= sum_mid_y(line) - line.len() * mean_y(line)
            < line.len(),
        line.len() > 0 && sum_mid_y(line) <= 0 ==> 0 <= line.len() * mean_y(line) - sum_mid_y(line)
            < line.len(),
{
    assert(line.push(w).drop_last() == line);
    if line.len() > 0 {
        law_quotients_round_towards_zero(sum_mid_y(line), line.len() as int);
    }
}

/// The height that a word and a line are judged by is the least of all of theirs.
pub proof fn law_a_line_is_judged_by_its_lowest_word(line: Seq<Word>, h: int)
    ensures
        least_height(line, h) <= h,
        forall|i: int|
            0 <= i < line.len() ==> least_height(line, h) <= (#[trigger] line[i]).rect.height,
        least_height(line, h) == h || exists|i: int|
            0 <= i < line.len() && (#[trigger] line[i]).rect.height == least_height(line, h),
    decreases line.len(),
{
    if line.len() > 0 {
        let rest = line.drop_last();
        law_a_line_is_judged_by_its_lowest_word(rest, h);
        assert(line.last() == line[line.len() - 1]);
        assert forall|i: int| 0 <= i < line.len() implies least_height(line, h) <= (
        #[trigger] line[i]).rect.height by {
            if i < line.len() - 1 {
                assert(rest[i] == line[i]);
            }
        }
        if least_height(line, h) == least_height(rest, h) && least_height(rest, h) != h {
            let i = choose|i: int|
                0 <= i < rest.len() && (#[trigger] rest[i]).rect.height == least_height(rest, h);
            assert(line[i].rect.height == least_height(line, h));
        }
    }
}

/// A word is off the line `line` of the text before it: its middle is further from
/// the line's mean row than the limit for the lower of the two says.
pub open spec fn off_line(line: Seq<Word>, w: Word, g: Grouping) -> bool {
    let off = w.rect.y + half(w.rect.height as int) - mean_y(line);
    let low = least_height(line, w.rect.height as int);
    let limit = g.line_tolerance@[if low > 1 {
        low
    } else {
        1
    }];
    off > limit || -off > limit
}

/// Words are put on a line exactly as long as they are level with what is on it:
/// each word of a line, but the first, is level with the words before it, and the
/// first word of the next line is not level with the line before.
pub proof fn law_a_line_goes_on_while_words_are_level(s: Seq<Word>, g: Grouping)
    ensures
        forall|i: int, j: int|
            #![trigger lines_of(s, g)[i][j]]
            0 <= i < lines_of(s, g).len() && 1 <= j < lines_of(s, g)[i].len() ==> !off_line(
                lines_of(s, g)[i].take(j),
                lines_of(s, g)[i][j],
                g,
            ),
        forall|i: int|
            #![trigger lines_of(s, g)[i]]
            1 <= i < lines_of(s, g).len() ==> off_line(
                lines_of(s, g)[i - 1],
                lines_of(s, g)[i][0],
                g,
            ),
    decreases s.len(),
{
    if s.len() > 0 {
        let rest = s.drop_last();
        let w = s.last();
        let before = lines_of(rest, g);
        let all = lines_of(s, g);
        law_a_line_goes_on_while_words_are_level(rest, g);
        law_lines_lose_no_word(rest, g);
        if before.len() > 0 && shares_line(before.last(), w, g) {
            let e = before.len() - 1;
            let line = before.last().push(w);
            assert(all[e] == line);
            assert(line.take(before.last().len() as int) == before.last());
            assert forall|i: int, j: int|
                #![trigger all[i][j]]
                0 <= i < all.len() && 1 <= j < all[i].len() implies !off_line(
                all[i].take(j),
                all[i][j],
                g,
            ) by {
                if i < e {
                    assert(all[i] == before[i]);
                    assert(!off_line(before[i].take(j), before[i][j], g));
                } else if j < before.last().len() {
                    assert(line.take(j) == before[e].take(j));
                    assert(line[j] == before[e][j]);
                    assert(!off_line(before[e].take(j), before[e][j], g));
                }
            }
            assert forall|i: int|
                #![trigger all[i]]
                1 <= i < all.len() implies off_line(all[i - 1], all[i][0], g) by {
                assert(all[i - 1] == before[i - 1]);
                assert(before[i].len() > 0);
                assert(all[i][0] == before[i][0]);
                assert(off_line(before[i - 1], before[i][0], g));
            }
        } else {
            let e = before.len() as int;
            assert(all[e] == seq![w]);
            assert forall|i: int, j: int|
                #![trigger all[i][j]]
                0 <= i < all.len() && 1 <= j < all[i].len() implies !off_line(
                all[i].take(j),
                all[i][j],
                g,
            ) by {
                assert(all[i] == before[i]);
                assert(!off_line(before[i].take(j), before[i][j], g));
            }
            assert forall|i: int|
                #![trigger all[i]]
                1 <= i < all.len() implies off_line(all[i - 1], all[i][0], g) by {
                assert(all[i - 1] == before[i - 1]);
                if i < e {
                    assert(all[i] == before[i]);
                    assert(off_line(before[i - 1], before[i][0], g));
                }
            }
        }
    }
}

/// The text of a phrase is that of its words with one space between them.
pub proof fn law_a_phrase_reads_as_its_words(words: Seq<Word>, w: Word)
    ensures
        reading(seq![w]) == w.text@,
        words.len() > 0 ==> reading(words.push(w)) == reading(words) + seq![' '] + w.text@,
{
    assert(words.push(w).drop_last() == words);
    if words.len() > 0 {
        assert(reading(words).push(' ') + w.text@ == reading(words) + seq![' '] + w.text@);
    }
}

/// The box of a phrase is the least around its words: each of its edges is the edge
/// of one of them, and the box of a single word is its own.
pub proof fn law_a_phrase_is_no_larger_than_its_words(words: Seq<Word>)
    requires
        words.len() > 0,
        forall|a: int, b: int|
            0 <= a < words.len() && 0 <= b < words.len() ==> (#[trigger] words[a]).rect.has_union(
                (#[trigger] words[b]).rect,
            ),
    ensures
        exists|k: int| 0 <= k < words.len() && span(words).x == (#[trigger] words[k]).rect.x,
        exists|k: int| 0 <= k < words.len() && span(words).y == (#[trigger] words[k]).rect.y,
        exists|k: int|
            0 <= k < words.len() && span(words).end_x() == (#[trigger] words[k]).rect.end_x(),
        exists|k: int|
            0 <= k < words.len() && span(words).end_y() == (#[trigger] words[k]).rect.end_y(),
{
    lemma_span_edges(words);
}

/// The words that count are those with a text and a box; they are read top to bottom
/// by the middles of their boxes, and left to right where those are level.
pub proof fn law_words_are_taken_in_reading_order(words: Seq<Word>, w: Word, i: int, j: int)
    ensures
        in_order(words).contains(w) <==> words.contains(w) && trimmed(w.text@).len() > 0
            && w.rect.width > 0 && w.rect.height > 0,
        0 <= i < j < in_order(words).len() ==> {
            let a = in_order(words)[i].rect;
            let b = in_order(words)[j].rect;
            a.mid_y() < b.mid_y() || (a.mid_y() == b.mid_y() && a.mid_x() <= b.mid_x())
        },
{
    broadcast use vstd::seq_lib::group_to_multiset_ensures;

    let legible = |v: Word| v.legible();
    let rank = |v: Word| reading_rank(v);
    let kept = words.filter(legible);
    let all = in_order(words);
    law_sorted_keeps_the_items(kept, rank);
    law_sorted_is_ordered(kept, rank);
    assert(all.contains(w) <==> kept.contains(w)) by {
        assert(all.to_multiset().count(w) > 0 <==> all.contains(w));
        assert(kept.to_multiset().count(w) > 0 <==> kept.contains(w));
    }
    if kept.contains(w) {
        let k = choose|k: int| 0 <= k < kept.len() && kept[k] == w;
        words.lemma_filter_pred(legible, k);
        words.lemma_filter_contains_rev(legible, w);
    }
    if words.contains(w) && w.legible() {
        let k = choose|k: int| 0 <= k < words.len() && words[k] == w;
        words.lemma_filter_contains(legible, k);
    }
    if 0 <= i < j < all.len() {
        assert(!before(rank(all[j]), rank(all[i])));
    }
}

/// On its line a word comes before the words right of it.
pub proof fn law_a_line_is_read_left_to_right(line: Seq<Word>, i: int, j: int)
    requires
        0 <= i < j < sorted(line, |w: Word| line_rank(w)).len(),
    ensures
        sorted(line, |w: Word| line_rank(w))[i].rect.x <= sorted(
            line,
            |w: Word| line_rank(w),
        )[j].rect.x,
{
    let rank = |w: Word| line_rank(w);
    law_sorted_is_ordered(line, rank);
    let all = sorted(line, rank);
    assert(!before(rank(all[j]), rank(all[i])));
}

/// Two words side by side, whatever their heights, are one phrase if they are level
/// and the gap between them is no wider than the limit for the right one says, and
/// else two: the phrase reads left word, space, right word and spans both boxes.
pub proof fn law_two_words_join_across_a_narrow_gap(a: Word, b: Word, g: Grouping)
    requires
        a.legible(),
        b.legible(),
        a.rect.x < b.rect.x,
        !off_line(seq![a], b, g),
        !off_line(seq![b], a, g),
    ensures
        ({
            let gap = b.rect.x - (a.rect.x + a.rect.width);
            let found = grouped(seq![a, b], g);
            let back = grouped(seq![b, a], g);
            &&& found == back
            &&& gap <= g.max_word_gap@[b.rect.height as int] ==> found == seq![
                (a.rect.hull(b.rect), a.text@ + seq![' '] + b.text@),
            ]
            &&& gap > g.max_word_gap@[b.rect.height as int] ==> found == seq![
                (a.rect, a.text@),
                (b.rect, b.text@),
            ]
        }),
{
    lemma_two_words(seq![a, b], a, b, g);
    lemma_two_words(seq![b, a], a, b, g);
}

/// What two level words side by side are grouped to, in whichever order they come.
proof fn lemma_two_words(words: Seq<Word>, a: Word, b: Word, g: Grouping)
    requires
        words == seq![a, b] || words == seq![b, a],
        a.legible(),
        b.legible(),
        a.rect.x < b.rect.x,
        !off_line(seq![a], b, g),
        !off_line(seq![b], a, g),
    ensures
        grouped(words, g) == if joins(a, b, g) {
            seq![(a.rect.hull(b.rect), a.text@ + seq![' '] + b.text@)]
        } else {
            seq![(a.rect, a.text@), (b.rect, b.text@)]
        },
{
    let (x, y) = (words[0], words[1]);
    assert(words == seq![x, y]);
    lemma_order_of_two(x, y);
    let s = in_order(words);
    let (p, q) = (s[0], s[1]);
    assert(s == seq![p, q]);
    lemma_line_of_two(p, q, g);
    let lines = lines_of(s, g);
    let across = |w: Word| line_rank(w);
    lemma_sort_two(p, q, across);
    assert(sorted(seq![p, q], across) == seq![a, b]);
    lemma_phrases_of_two(a, b, g);
    let shown = line_shapes(seq![p, q], g);
    assert(lines.last() == seq![p, q]);
    assert(lines.drop_last() == Seq::<Seq<Word>>::empty());
    assert(all_shapes(lines.drop_last(), g) == Seq::<(Rect, Seq<char>)>::empty());
    assert(all_shapes(lines, g) == Seq::<(Rect, Seq<char>)>::empty() + shown);
    assert(Seq::<(Rect, Seq<char>)>::empty() + shown == shown);
}

/// Two words in reading order are one of the two orders.
proof fn lemma_order_of_two(x: Word, y: Word)
    requires
        x.legible(),
        y.legible(),
    ensures
        in_order(seq![x, y]) == seq![x, y] || in_order(seq![x, y]) == seq![y, x],
{
    let words = seq![x, y];
    let legible = |w: Word| w.legible();
    assert(words.filter(legible) == words) by {
        reveal(Seq::filter);
        assert(words.drop_last() == seq![x]);
        assert(seq![x].drop_last() == Seq::<Word>::empty());
        assert(Seq::<Word>::empty().filter(legible) == Seq::<Word>::empty());
        assert(Seq::<Word>::empty().push(x) == seq![x]);
        assert(seq![x].filter(legible) == seq![x]);
        assert(seq![x].push(y) == words);
    }
    lemma_sort_two(x, y, |w: Word| reading_rank(w));
}

/// Two level words are one line.
proof fn lemma_line_of_two(p: Word, q: Word, g: Grouping)
    requires
        !off_line(seq![p], q, g),
    ensures
        lines_of(seq![p, q], g) == seq![seq![p, q]],
{
    let s = seq![p, q];
    assert(s.drop_last() == seq![p]);
    assert(seq![p].drop_last() == Seq::<Word>::empty());
    assert(lines_of(Seq::empty(), g) == Seq::<Seq<Word>>::empty());
    let one = lines_of(seq![p], g);
    assert(Seq::<Seq<Word>>::empty().push(seq![p]) == seq![seq![p]]);
    assert(one == seq![seq![p]]);
    assert(shares_line(seq![p], q, g));
    assert(one.last() == seq![p]);
    assert(seq![p].push(q) == seq![p, q]);
    assert(one.drop_last().push(seq![p, q]) == seq![seq![p, q]]);
}

/// The phrases of two words, left to right.
proof fn lemma_phrases_of_two(a: Word, b: Word, g: Grouping)
    ensures
        phrases_of(seq![a, b], g).map_values(|p: Seq<Word>| (span(p), reading(p))) == if joins(
            a,
            b,
            g,
        ) {
            seq![(a.rect.hull(b.rect), a.text@ + seq![' '] + b.text@)]
        } else {
            seq![(a.rect, a.text@), (b.rect, b.text@)]
        },
{
    let line = seq![a, b];
    assert(line.drop_last() == seq![a]);
    assert(seq![a].drop_last() == Seq::<Word>::empty());
    assert(phrases_of(Seq::empty(), g) == Seq::<Seq<Word>>::empty());
    let first = phrases_of(seq![a], g);
    assert(Seq::<Seq<Word>>::empty().push(seq![a]) == seq![seq![a]]);
    assert(first == seq![seq![a]]);
    assert(first.last() == seq![a]);
    assert(seq![a].last() == a);
    assert(seq![a].push(b) == seq![a, b]);
    let phrases = phrases_of(line, g);
    let shown = phrases.map_values(|p: Seq<Word>| (span(p), reading(p)));
    law_a_phrase_reads_as_its_words(Seq::empty(), a);
    law_a_phrase_reads_as_its_words(seq![a], b);
    if joins(a, b, g) {
        assert(first.drop_last().push(seq![a, b]) == seq![seq![a, b]]);
        assert(phrases == seq![seq![a, b]]);
        assert(span(seq![a]) == a.rect);
        assert(span(seq![a, b]) == a.rect.hull(b.rect));
        assert(shown == seq![(a.rect.hull(b.rect), a.text@ + seq![' '] + b.text@)]);
    } else {
        assert(first.push(seq![b]) == seq![seq![a], seq![b]]);
        assert(phrases == seq![seq![a], seq![b]]);
        assert(span(seq![a]) == a.rect && span(seq![b]) == b.rect);
        assert(shown == seq![(a.rect, a.text@), (b.rect, b.text@)]);
    }
}

/// Two items are sorted into one of the two orders, by their keys.
proof fn lemma_sort_two(x: Word, y: Word, key: spec_fn(Word) -> Rank)
    ensures
        sorted(seq![x, y], key) == if before(key(y), key(x)) {
            seq![y, x]
        } else {
            seq![x, y]
        },
{
    let s = seq![x, y];
    assert(s.drop_first() == seq![y]);
    assert(seq![y].drop_first() == Seq::<Word>::empty());
    assert(sorted(Seq::<Word>::empty(), key) == Seq::<Word>::empty());
    assert(sorted(seq![y], key) == seq![y]) by {
        assert(Seq::<Word>::empty().insert(0, y) == seq![y]);
    }
    assert(seq![y].drop_first().len() == 0);
    if before(key(y), key(x)) {
        assert(crate::order::lead(seq![y].drop_first(), key, key(x)) == 0);
        assert(crate::order::lead(seq![y], key, key(x)) == 1);
        assert(seq![y].insert(1, x) == seq![y, x]);
    } else {
        assert(crate::order::lead(seq![y], key, key(x)) == 0);
        assert(seq![y].insert(0, x) == seq![x, y]);
    }
}

/// An element shows its own box and its own text.
pub proof fn law_elements_show_their_box_and_text(elements: Seq<Element>, i: int)
    requires
        0 <= i < elements.len(),
    ensures
        shapes(elements).len() == elements.len(),
        shapes(elements)[i].0 == elements[i].rect,
        shapes(elements)[i].1 == elements[i].text@,
{
}

/// The phrases of all lines are those of each line, one line after the other; the
/// phrases of a line are its words from left to right, cut at the wide gaps.
pub proof fn law_phrases_come_line_by_line(lines: Seq<Seq<Word>>, line: Seq<Word>, g: Grouping, i: int)
    ensures
        all_shapes(Seq::empty(), g).len() == 0,
        all_shapes(lines.push(line), g) == all_shapes(lines, g) + line_shapes(line, g),
        ({
            let cut = phrases_of(sorted(line, |w: Word| line_rank(w)), g);
            &&& line_shapes(line, g).len() == cut.len()
            &&& 0 <= i < cut.len() ==> line_shapes(line, g)[i] == (span(cut[i]), reading(cut[i]))
        }),
        forall|words: Seq<Word>| #[trigger]
            grouped(words, g) == all_shapes(lines_of(in_order(words), g), g),
{
    assert(lines.push(line).drop_last() == lines);
}

} // verus!
