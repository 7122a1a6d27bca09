//! OCR detection: read the screen, group the words into phrase targets.
//!
//! This is mole's only detector. The work splits cleanly across helpers:
//!
//! * [`tesseract`] — how the `tesseract` binary is called and fed.
//! * [`tsv`] — parse its TSV output into confident word boxes.
//! * [`phrase`] — group those words into the phrase-level targets we hint.
//! * [`cache`] — remember what was read, and plan what has to be read again.
//!
//! Tesseract is single-threaded per image and scanning a whole desktop is the
//! dominant cost of a hint, so the screen is split into horizontal strips that
//! are OCR'd in parallel (one `tesseract` process each) and merged. Strips
//! overlap by [`TILE_OVERLAP`] pixels so a line of text on a cut isn't lost;
//! the duplicate words that overlap creates are removed in [`dedup_words`].

pub mod cache;
pub mod cancel;
pub mod phrase;
pub mod tesseract;
pub mod tsv;

pub use cache::ScanCache;
pub use cancel::Cancel;

use vstd::prelude::*;
use vstd::seq_lib::group_to_multiset_ensures;

use super::{finalize, finalized, Element};
use crate::config::number::Single;
use crate::config::Config;
use crate::geometry::{fits_i32, greater, lesser, Rect};
use crate::order::{law_sorted_is_ordered, law_sorted_keeps_the_items, sort_by_keys, sorted, Rank};
use cache::{outlives, Band};
use phrase::{group, grouped, shapes, spannable, Grouping, Word};
use tesseract::Tesseract;

verus! {

/// Vertical overlap (px) between adjacent strips. Must comfortably exceed a
/// line of text so a line straddling a cut is fully seen by at least one strip.
pub const TILE_OVERLAP: i32 = 80;

/// `a / b` rounded up, for a positive divisor.
pub open spec fn div_up(a: int, b: int) -> int {
    (a + b - 1) / b
}

/// The height of a strip without its overlap, when `height` rows are cut into
/// `tiles` strips.
pub open spec fn strip(height: int, tiles: int) -> int {
    div_up(height, greater(tiles, 1))
}

/// The first row of strip `i` and how many rows it has: its share of the height,
/// grown by `overlap` on both sides.
pub open spec fn band_at(height: int, tiles: int, overlap: int, i: int) -> (int, int) {
    let base = strip(height, tiles);
    let y0 = greater(i * base - overlap, 0);
    let y1 = lesser(lesser((i + 1) * base, height) + overlap, height);
    (y0, y1 - y0)
}

/// How many strips `height` rows are cut into.
pub open spec fn band_count(height: int, tiles: int) -> int {
    if height <= 0 {
        0
    } else {
        div_up(height, strip(height, tiles))
    }
}

/// All the strips.
pub open spec fn bands_of(height: int, tiles: int, overlap: int) -> Seq<(int, int)> {
    Seq::new(band_count(height, tiles) as nat, |i: int| band_at(height, tiles, overlap, i))
}

/// Pairs of `i32`s as pairs of integers.
pub open spec fn pairs(v: Seq<(i32, i32)>) -> Seq<(int, int)> {
    v.map_values(|p: (i32, i32)| (p.0 as int, p.1 as int))
}

proof fn lemma_strip(height: int, tiles: int)
    requires
        height > 0,
    ensures
        1 <= strip(height, tiles) <= height,
        strip(height, tiles) * greater(tiles, 1) >= height,
{
    let t = greater(tiles, 1);
    let b = strip(height, tiles);
    assert(1 <= b && b <= height && b * t >= height) by (nonlinear_arith)
        requires
            b == (height + t - 1) / t,
            t >= 1,
            height >= 1,
    ;
}

/// Strip `i` is there exactly when it starts above the bottom.
proof fn lemma_count(height: int, tiles: int, i: int)
    requires
        height > 0,
        i >= 0,
    ensures
        i < band_count(height, tiles) <==> i * strip(height, tiles) < height,
        band_count(height, tiles) >= 1,
{
    let b = strip(height, tiles);
    lemma_strip(height, tiles);
    let n = div_up(height, b);
    assert(n >= 1 && (i < n <==> i * b < height)) by (nonlinear_arith)
        requires
            n == (height + b - 1) / b,
            b >= 1,
            height >= 1,
            i >= 0,
    ;
}

/// Plan `tiles` horizontal strips covering `[0, height)`, each grown by
/// `overlap` pixels into its neighbours so text on a boundary is fully captured
/// by at least one strip. Returns `(y0, strip_height)` pairs; empty strips
/// (when `tiles` exceeds the useful row count) are dropped.
pub fn plan_bands(height: i32, tiles: usize, overlap: i32) -> (bands: Vec<(i32, i32)>)
    requires
        overlap >= 0,
    ensures
        pairs(bands@) == bands_of(height as int, tiles as int, overlap as int),
{
    let mut bands: Vec<(i32, i32)> = Vec::new();
    if height <= 0 {
        assert(pairs(bands@) == bands_of(height as int, tiles as int, overlap as int));
        return bands;
    }
    let t: u128 = if tiles > 0 {
        tiles as u128
    } else {
        1
    };
    proof {
        lemma_strip(height as int, tiles as int);
    }
    let base = ((height as u128 + t - 1) / t) as i64;  // ceil division
    let mut i: i64 = 0;
    let mut start: i64 = 0;
    let ghost all = bands_of(height as int, tiles as int, overlap as int);
    proof {
        lemma_count(height as int, tiles as int, 0);
        assert(0 * base == 0) by (nonlinear_arith);
    }
    while start < height as i64
        invariant
            0 <= i,
            overlap >= 0,
            height > 0,
            base == strip(height as int, tiles as int),
            1 <= base <= height,
            start == i * base,
            i <= start <= height + base,
            i == bands@.len(),
            i <= all.len(),
            all == bands_of(height as int, tiles as int, overlap as int),
            pairs(bands@) == all.take(i as int),
            start >= height ==> i == all.len(),
        decreases (if start < height {
                height - start
            } else {
                0
            }),
    {
        proof {
            lemma_count(height as int, tiles as int, i as int);
            lemma_count(height as int, tiles as int, i + 1);
            assert((i + 1) * base == i * base + base) by (nonlinear_arith);
        }
        let core_end = if start + base < height as i64 {
            start + base
        } else {
            height as i64
        };
        let y0 = if start > overlap as i64 {
            start - overlap as i64
        } else {
            0
        };
        let y1 = if core_end + overlap as i64 <= height as i64 {
            core_end + overlap as i64
        } else {
            height as i64
        };
        let ghost before = bands@;
        bands.push((y0 as i32, (y1 - y0) as i32));
        proof {
            assert(all[i as int] == (y0 as int, y1 - y0));
            assert(pairs(bands@) == pairs(before).push((y0 as int, y1 - y0)));
            assert(all.take(i + 1) == all.take(i as int).push(all[i as int]));
        }
        start = start + base;
        i = i + 1;
    }
    assert(all.take(i as int) == all);
    bands
}

/// How many threads each of `bands` parallel readers gets, so that they don't
/// oversubscribe `cores` cores.
pub fn threads_per_band(cores: usize, bands: usize) -> (n: usize)
    ensures
        n == greater(cores as int / greater(bands as int, 1), 1),
{
    let share = cores / (if bands > 0 {
        bands
    } else {
        1
    });
    if share > 0 {
        share
    } else {
        1
    }
}

/// The area that two boxes share.
pub open spec fn shared_area(a: Rect, b: Rect) -> int {
    match a.cut(b) {
        Some(part) => part.surface(),
        None => 0,
    }
}

/// Intersection area over the smaller of the two areas, as a numerator and a
/// denominator. Equal numbers mean one box sits entirely inside the other.
pub fn overlap_fraction(a: Rect, b: Rect) -> (f: (i64, i64))
    ensures
        f.0 == shared_area(a, b),
        f.1 == lesser(a.surface(), b.surface()),
        0 <= f.0,
        0 <= f.1,
{
    let inter = match a.clamp_to(b) {
        Some(part) => part.area(),
        None => 0,
    };
    let x = a.area();
    let y = b.area();
    (inter, if x <= y {
        x
    } else {
        y
    })
}

/// `k` and `w` are the same detection: their texts match and their boxes overlap
/// by more than half of the smaller one.
pub open spec fn same_detection(k: Word, w: Word) -> bool {
    k.text@ == w.text@ && 2 * shared_area(k.rect, w.rect) > lesser(
        k.rect.surface(),
        w.rect.surface(),
    )
}

/// The rank of a word among duplicates: bigger boxes first.
pub open spec fn fullness_rank(w: Word) -> Rank {
    (-w.rect.surface(), 0)
}

/// Some word of `kept` is the same detection as `w`.
pub open spec fn seen(kept: Seq<Word>, w: Word) -> bool {
    exists|j: int| 0 <= j < kept.len() && same_detection(#[trigger] kept[j], w)
}

/// Going through `s` in order, the words that are no repetition of one kept
/// before.
pub open spec fn survivors(s: Seq<Word>) -> Seq<Word>
    decreases s.len(),
{
    if s.len() == 0 {
        s
    } else {
        let kept = survivors(s.drop_last());
        if seen(kept, s.last()) {
            kept
        } else {
            kept.push(s.last())
        }
    }
}

/// `words` without near-duplicates, fuller boxes first.
pub open spec fn deduplicated(words: Seq<Word>) -> Seq<Word> {
    survivors(sorted(words, |w: Word| fullness_rank(w)))
}

/// Drop near-duplicate words produced by overlapping strips. Two words are the
/// same detection when their text matches and their boxes overlap heavily; the
/// larger (more completely seen) box is kept.
pub fn dedup_words(words: Vec<Word>) -> (kept: Vec<Word>)
    ensures
        kept@ == deduplicated(words@),
{
    // Keep the bigger box first so the survivor of a pair is the fuller one.
    let mut keys: Vec<(i64, i64)> = Vec::new();
    let mut i: usize = 0;
    while i < words.len()
        invariant
            i <= words@.len(),
            keys@.len() == i,
            forall|j: int|
                0 <= j < i ==> fullness_rank(words@[j]) == (
                    (#[trigger] keys@[j]).0 as int,
                    keys@[j].1 as int,
                ),
        decreases words@.len() - i,
    {
        keys.push((-words[i].rect.area(), 0));
        i += 1;
    }
    let ordered = sort_by_keys(words, keys, Ghost(|w: Word| fullness_rank(w)));
    let ghost all = ordered@;
    let mut kept: Vec<Word> = Vec::new();
    for w in it: ordered
        invariant
            it.seq() == all,
            kept@ == survivors(all.take(it.index() as int)),
    {
        let ghost k = it.index() as int;
        proof {
            assert(all.take(k + 1).drop_last() == all.take(k));
            assert(all.take(k + 1).last() == w);
        }
        if !repeated(&kept, &w) {
            kept.push(w);
        }
    }
    assert(all.take(all.len() as int) == all);
    kept
}

/// Whether some word of `kept` is the same detection as `w`.
fn repeated(kept: &Vec<Word>, w: &Word) -> (r: bool)
    ensures
        r == seen(kept@, *w),
{
    let mut j: usize = 0;
    while j < kept.len()
        invariant
            j <= kept@.len(),
            forall|i: int| 0 <= i < j ==> !same_detection(#[trigger] kept@[i], *w),
        decreases kept@.len() - j,
    {
        let k = &kept[j];
        if k.text == w.text {
            let (inter, smaller) = overlap_fraction(k.rect, w.rect);
            if inter > smaller - inter {
                assert(same_detection(kept@[j as int], *w));
                return true;
            }
        }
        j += 1;
    }
    false
}

// --- The detector ---------------------------------------------------------

/// Detector that reads the screen with Tesseract and hints text phrases: its
/// settings, and everything it does but run the processes.
#[derive(Debug, Clone)]
pub struct OcrDetector {
    pub tesseract: Tesseract,
    pub min_confidence: Single,
    pub min_element_size: i32,
    pub grouping: Grouping,
    pub tiles: usize,
}

impl OcrDetector {
    /// The detector described by `config`; `grouping` holds the configured
    /// factors in whole pixels.
    pub fn new(config: &Config, grouping: Grouping) -> (d: Self)
        ensures
            d.tesseract.binary@ == config.ocr.binary@,
            d.tesseract.language@ == config.ocr.language@,
            d.min_confidence == config.ocr.min_confidence,
            d.min_element_size == config.ocr.min_element_size,
            d.grouping == grouping,
            d.tiles == greater(config.ocr.tiles as int, 1),
    {
        OcrDetector {
            tesseract: Tesseract::new(config.ocr.binary.clone(), config.ocr.language.clone()),
            min_confidence: config.ocr.min_confidence,
            min_element_size: config.ocr.min_element_size,
            grouping,
            tiles: if config.ocr.tiles > 0 {
                config.ocr.tiles
            } else {
                1
            },
        }
    }

    pub fn name(&self) -> (n: &'static str)
        ensures
            n@ == "ocr"@,
    {
        "ocr"
    }

    /// The strips that a capture of `height` rows is read in.
    pub fn strips(&self, height: i32) -> (bands: Vec<(i32, i32)>)
        ensures
            pairs(bands@) == bands_of(height as int, self.tiles as int, TILE_OVERLAP as int),
    {
        plan_bands(height, self.tiles, TILE_OVERLAP)
    }

    /// The words of all the strips of a scan, without the duplicates that the
    /// overlap creates. A screen that is read in one pass has no overlap, so its
    /// words are taken as they come.
    pub fn merge(&self, strips: Vec<Vec<Word>>) -> (words: Vec<Word>)
        ensures
            ({
                let all = strips@.map_values(|v: Vec<Word>| v@).flatten();
                words@ == if self.tiles <= 1 {
                    all
                } else {
                    deduplicated(all)
                }
            }),
    {
        let ghost given = strips@.map_values(|v: Vec<Word>| v@);
        let mut words: Vec<Word> = Vec::new();
        for strip in it: strips
            invariant
                given == it.seq().map_values(|v: Vec<Word>| v@),
                words@ == given.take(it.index() as int).flatten(),
        {
            let ghost k = it.index() as int;
            proof {
                given.take(k).lemma_flatten_push(given[k]);
                assert(given.take(k).push(given[k]) == given.take(k + 1));
                assert(strip@ == given[k]);
            }
            let mut more = strip;
            words.append(&mut more);
        }
        assert(given.take(given.len() as int) == given);
        if self.tiles <= 1 {
            words
        } else {
            dedup_words(words)
        }
    }

    /// The targets that `words` make on a capture of `region`: grouped into
    /// phrases, then cleaned up and put into reading order.
    pub fn elements(&self, words: Vec<Word>, region: Rect) -> (r: Vec<Element>)
        requires
            self.grouping.covers(words@),
            spannable(words@),
        ensures
            exists|phrases: Seq<Element>|
                shapes(phrases) == grouped(words@, self.grouping) && r@ == #[trigger] finalized(
                    phrases,
                    self.min_element_size as int,
                    region,
                ),
    {
        let phrases = group(words, &self.grouping);
        finalize(phrases, self.min_element_size, region)
    }
}

/// Where strip `(y0, h)` of a capture of `region` lies on the screen.
pub fn strip_region(region: Rect, y0: i32, h: i32) -> (r: Rect)
    requires
        fits_i32(region.y + y0),
    ensures
        r == (Rect { x: region.x, y: (region.y + y0) as i32, width: region.width, height: h }),
{
    Rect::new(region.x, region.y + y0, region.width, h)
}

/// How many pixels `bands` cover, a pixel in several of them counted for each.
pub open spec fn band_area(bands: Seq<Band>) -> int
    decreases bands.len(),
{
    if bands.len() == 0 {
        0
    } else {
        band_area(bands.drop_last()) + greater(bands.last().w as int, 0) * greater(
            bands.last().h as int,
            0,
        )
    }
}

/// Whether `bands` cover more than half of a `width`×`height` screen. Then there
/// is no meaningful cached part to show, and the whole set is shown at once
/// instead of dribbling in.
pub fn mostly_changed(bands: &Vec<Band>, width: i32, height: i32) -> (r: bool)
    ensures
        r == (2 * band_area(bands@) > greater(width as int, 0) * greater(height as int, 0)),
{
    let mut sum: i128 = 0;
    let mut i: usize = 0;
    while i < bands.len()
        invariant
            i <= bands@.len(),
            sum == band_area(bands@.take(i as int)),
            0 <= sum <= i * 0x4000_0000_0000_0000,
        decreases bands@.len() - i,
    {
        assert(bands@.take(i + 1).drop_last() == bands@.take(i as int));
        let b = bands[i];
        sum = sum + Rect::new(0, 0, b.w, b.h).area() as i128;
        i += 1;
    }
    assert(bands@.take(i as int) == bands@);
    2 * sum > Rect::new(0, 0, width, height).area() as i128
}

/// The centre of `w` lies in none of `bands`.
pub open spec fn untouched(w: Word, bands: Seq<Band>, origin: (int, int)) -> bool {
    forall|k: int| 0 <= k < bands.len() ==> outlives(w, #[trigger] bands[k], origin)
}

/// The cached words that need not wait for `bands` to be read again, for a
/// capture that starts at `origin`.
pub fn ready_words(words: Vec<Word>, bands: &Vec<Band>, origin: (i32, i32)) -> (r: Vec<Word>)
    ensures
        r@ == words@.filter(|w: Word| untouched(w, bands@, (origin.0 as int, origin.1 as int))),
{
    let ghost given = words@;
    let ghost o = (origin.0 as int, origin.1 as int);
    let ghost stays = |w: Word| untouched(w, bands@, (origin.0 as int, origin.1 as int));
    let mut kept: Vec<Word> = Vec::new();
    proof {
        reveal(Seq::filter);
    }
    for w in it: words
        invariant
            it.seq() == given,
            o == (origin.0 as int, origin.1 as int),
            stays == (|w: Word| untouched(w, bands@, (origin.0 as int, origin.1 as int))),
            kept@ == given.take(it.index() as int).filter(stays),
    {
        let ghost k = it.index() as int;
        proof {
            reveal(Seq::filter);
            assert(given.take(k + 1).drop_last() == given.take(k));
            assert(given.take(k + 1).last() == w);
        }
        let x = w.rect.x as i64 + (w.rect.width / 2) as i64 - origin.0 as i64;
        let y = w.rect.y as i64 + (w.rect.height / 2) as i64 - origin.1 as i64;
        let mut free = true;
        let mut j: usize = 0;
        while j < bands.len()
            invariant
                j <= bands@.len(),
                o == (origin.0 as int, origin.1 as int),
                x == w.rect.mid_x() - o.0,
                y == w.rect.mid_y() - o.1,
                free == forall|k: int| 0 <= k < j ==> outlives(w, #[trigger] bands@[k], o),
            decreases bands@.len() - j,
        {
            if bands[j].contains(x, y) {
                assert(!outlives(w, bands@[j as int], o));
                free = false;
            }
            j += 1;
        }
        if free {
            kept.push(w);
        }
    }
    assert(given.take(given.len() as int) == given);
    kept
}

// --- Laws -----------------------------------------------------------------

/// Every strip lies inside the screen and is not empty, and there are no more of
/// them than were asked for.
pub proof fn law_bands_lie_inside(height: int, tiles: int, overlap: int, i: int)
    requires
        overlap >= 0,
        0 <= i < band_count(height, tiles),
    ensures
        ({
            let (y0, h) = bands_of(height, tiles, overlap)[i];
            0 <= y0 && 0 < h && y0 + h <= height
        }),
        band_count(height, tiles) <= greater(tiles, 1),
{
    lemma_strip(height, tiles);
    lemma_count(height, tiles, i);
    let b = strip(height, tiles);
    let t = greater(tiles, 1);
    lemma_count(height, tiles, t);
    assert(t * b == b * t) by (nonlinear_arith);
    assert((i + 1) * b == i * b + b && i * b >= 0) by (nonlinear_arith)
        requires
            i >= 0,
            b >= 1,
    ;
}

/// A piece of text no higher than the overlap, wherever it is on the screen, is
/// seen as a whole by at least one strip. In particular every row of pixels is
/// in some strip.
pub proof fn law_a_line_on_a_cut_is_whole_in_one_band(
    height: int,
    tiles: int,
    overlap: int,
    top: int,
    bottom: int,
)
    requires
        overlap >= 0,
        0 <= top < bottom <= height,
        bottom - top <= greater(overlap, 1),
    ensures
        exists|i: int|
            0 <= i < band_count(height, tiles) && {
                let (y0, h) = #[trigger] bands_of(height, tiles, overlap)[i];
                y0 <= top && bottom <= y0 + h
            },
{
    let b = strip(height, tiles);
    lemma_strip(height, tiles);
    let i = top / b;
    assert(0 <= i && i * b <= top && top < (i + 1) * b) by (nonlinear_arith)
        requires
            i == top / b,
            top >= 0,
            b >= 1,
    ;
    lemma_count(height, tiles, i);
    let (y0, h) = bands_of(height, tiles, overlap)[i];
    assert(y0 <= top && bottom <= y0 + h);
}

/// Removing duplicates invents nothing: every survivor is one of the words.
pub proof fn law_dedup_invents_no_word(words: Seq<Word>, i: int)
    requires
        0 <= i < deduplicated(words).len(),
    ensures
        words.contains(deduplicated(words)[i]),
{
    let key = |w: Word| fullness_rank(w);
    let s = sorted(words, key);
    law_sorted_keeps_the_items(words, key);
    lemma_survivors(s);
    let w = deduplicated(words)[i];
    broadcast use vstd::seq_lib::group_to_multiset_ensures;

    assert(s.contains(w));
    assert(s.to_multiset().count(w) > 0);
}

/// No survivor repeats another one.
pub proof fn law_dedup_leaves_no_repetition(words: Seq<Word>, i: int, j: int)
    requires
        0 <= i < j < deduplicated(words).len(),
    ensures
        !same_detection(deduplicated(words)[i], deduplicated(words)[j]),
{
    lemma_survivors(sorted(words, |w: Word| fullness_rank(w)));
}

/// Every word survives itself or through a repetition whose box is at least as
/// large: the more completely seen one is kept.
pub proof fn law_dedup_keeps_the_fuller_word(words: Seq<Word>, w: Word)
    requires
        words.contains(w),
    ensures
        deduplicated(words).contains(w) || exists|i: int|
            0 <= i < deduplicated(words).len() && same_detection(
                #[trigger] deduplicated(words)[i],
                w,
            ) && deduplicated(words)[i].rect.surface() >= w.rect.surface(),
{
    let key = |w: Word| fullness_rank(w);
    let s = sorted(words, key);
    law_sorted_keeps_the_items(words, key);
    law_sorted_is_ordered(words, key);
    lemma_survivors(s);
    broadcast use vstd::seq_lib::group_to_multiset_ensures;

    assert(words.to_multiset().count(w) > 0);
    assert(s.contains(w));
    let p = choose|p: int| 0 <= p < s.len() && s[p] == w;
    lemma_survivor_of(s, p);
    let out = deduplicated(words);
    if !out.contains(w) {
        let (i, q) = choose|i: int, q: int|
            0 <= i < out.len() && 0 <= q <= p && out[i] == s[q] && same_detection(
                #[trigger] out[i],
                w,
            ) && #[trigger] s[q] == s[q];
        if q < p {
            assert(!crate::order::before(key(s[p]), key(s[q])));
        }
    }
}

/// Removing duplicates neither invents nor doubles a word, and what is left comes
/// larger boxes first.
pub proof fn law_dedup_gives_some_of_the_words_largest_first(words: Seq<Word>)
    ensures
        deduplicated(words).to_multiset().subset_of(words.to_multiset()),
        forall|i: int, j: int|
            0 <= i < j < deduplicated(words).len() ==> (#[trigger] deduplicated(words)[i]).rect.surface()
                >= (#[trigger] deduplicated(words)[j]).rect.surface(),
{
    let key = |w: Word| fullness_rank(w);
    let s = sorted(words, key);
    law_sorted_keeps_the_items(words, key);
    law_sorted_is_ordered(words, key);
    assert forall|i: int, j: int| 0 <= i < j < s.len() implies (#[trigger] s[i]).rect.surface() >= (
    #[trigger] s[j]).rect.surface() by {
        assert(!crate::order::before(key(s[j]), key(s[i])));
    }
    lemma_survivors_in_order(s);
}

/// The survivors are a part of the words, in the same order.
proof fn lemma_survivors_in_order(s: Seq<Word>)
    requires
        forall|i: int, j: int|
            0 <= i < j < s.len() ==> (#[trigger] s[i]).rect.surface() >= (
            #[trigger] s[j]).rect.surface(),
    ensures
        survivors(s).to_multiset().subset_of(s.to_multiset()),
        forall|i: int, j: int|
            0 <= i < j < survivors(s).len() ==> (#[trigger] survivors(s)[i]).rect.surface() >= (
            #[trigger] survivors(s)[j]).rect.surface(),
    decreases s.len(),
{
    broadcast use group_to_multiset_ensures;

    if s.len() > 0 {
        let rest = s.drop_last();
        let kept = survivors(rest);
        let last = s.last();
        assert forall|i: int, j: int| 0 <= i < j < rest.len() implies (
        #[trigger] rest[i]).rect.surface() >= (#[trigger] rest[j]).rect.surface() by {
            assert(rest[i] == s[i] && rest[j] == s[j]);
        }
        lemma_survivors_in_order(rest);
        lemma_survivors(rest);
        assert(rest.push(last) =~= s);
        assert(s.to_multiset() == rest.to_multiset().insert(last));
        assert(kept.push(last).to_multiset() == kept.to_multiset().insert(last));
        let all = survivors(s);
        assert forall|i: int, j: int| 0 <= i < j < all.len() implies (
        #[trigger] all[i]).rect.surface() >= (#[trigger] all[j]).rect.surface() by {
            assert(all[i] == kept[i]);
            if j < kept.len() {
                assert(all[j] == kept[j]);
            } else {
                assert(rest.contains(kept[i]));
                let k = choose|k: int| 0 <= k < rest.len() && rest[k] == kept[i];
                assert(s[k] == kept[i]);
                assert(s[s.len() - 1] == last);
            }
        }
    } else {
        assert(survivors(s) =~= s);
    }
}

/// The survivors are some of the words, and none repeats another.
proof fn lemma_survivors(s: Seq<Word>)
    ensures
        forall|i: int| 0 <= i < survivors(s).len() ==> s.contains(#[trigger] survivors(s)[i]),
        forall|i: int, j: int|
            0 <= i < j < survivors(s).len() ==> !same_detection(
                #[trigger] survivors(s)[i],
                #[trigger] survivors(s)[j],
            ),
    decreases s.len(),
{
    if s.len() > 0 {
        let t = s.drop_last();
        lemma_survivors(t);
        let kept = survivors(t);
        let all = survivors(s);
        assert forall|i: int| 0 <= i < all.len() implies s.contains(#[trigger] all[i]) by {
            if i < kept.len() {
                assert(t.contains(kept[i]));
                let k = choose|k: int| 0 <= k < t.len() && t[k] == kept[i];
                assert(s[k] == all[i]);
            } else {
                assert(s[s.len() - 1] == all[i]);
            }
        }
    }
}

/// Item `p` of `s` survives, or an item up to it that repeats it does.
proof fn lemma_survivor_of(s: Seq<Word>, p: int)
    requires
        0 <= p < s.len(),
    ensures
        survivors(s).contains(s[p]) || exists|i: int, q: int|
            0 <= i < survivors(s).len() && 0 <= q <= p && survivors(s)[i] == s[q]
                && same_detection(#[trigger] survivors(s)[i], s[p]) && #[trigger] s[q] == s[q],
    decreases s.len(),
{
    let t = s.drop_last();
    let kept = survivors(t);
    let all = survivors(s);
    if p < s.len() - 1 {
        lemma_survivor_of(t, p);
        assert(t[p] == s[p]);
        if kept.contains(s[p]) {
            let k = choose|k: int| 0 <= k < kept.len() && kept[k] == s[p];
            assert(all[k] == s[p]);
        } else {
            let (i, q) = choose|i: int, q: int|
                0 <= i < kept.len() && 0 <= q <= p && kept[i] == t[q] && same_detection(
                    #[trigger] kept[i],
                    t[p],
                ) && #[trigger] t[q] == t[q];
            assert(all[i] == s[q] && same_detection(all[i], s[p]) && s[q] == s[q]);
        }
    } else if seen(kept, s[p]) {
        let i = choose|i: int| 0 <= i < kept.len() && same_detection(#[trigger] kept[i], s[p]);
        lemma_survivors(t);
        assert(t.contains(kept[i]));
        let q = choose|q: int| 0 <= q < t.len() && t[q] == kept[i];
        assert(all[i] == s[q] && same_detection(all[i], s[p]) && s[q] == s[q]);
    } else {
        assert(all[all.len() - 1] == s[p]);
    }
}

/// Rounding up: just enough to reach `a` in steps of `b`.
pub proof fn law_rounding_up_just_reaches(a: int, b: int)
    requires
        b > 0,
    ensures
        b * div_up(a, b) >= a,
        b * (div_up(a, b) - 1) < a,
{
    let n = div_up(a, b);
    assert(b * n >= a && b * (n - 1) < a) by (nonlinear_arith)
        requires
            n == (a + b - 1) / b,
            b > 0,
    ;
}

/// Strip `i` is its share of the rows, all shares being equally high but the last,
/// and reaches `overlap` rows beyond it on either side, as far as the screen goes.
pub proof fn law_a_strip_is_its_share_and_the_overlap(height: int, tiles: int, overlap: int, i: int)
    requires
        overlap >= 0,
        0 <= i < band_count(height, tiles),
    ensures
        ({
            let share = strip(height, tiles);
            let (y0, h) = bands_of(height, tiles, overlap)[i];
            let t = if tiles > 1 {
                tiles
            } else {
                1
            };
            &&& y0 == if i * share > overlap {
                i * share - overlap
            } else {
                0
            }
            &&& y0 + h == height || y0 + h == (i + 1) * share + overlap
            &&& y0 + h <= height
            &&& (i + 1) * share + overlap <= height ==> y0 + h == (i + 1) * share + overlap
            &&& t * share >= height && t * (share - 1) < height
        }),
{
    let t = greater(tiles, 1);
    law_rounding_up_just_reaches(height, t);
    lemma_strip(height, tiles);
}

/// The area that two boxes share is that of what is left of one when it is clamped to
/// the other: as many columns as both have times as many rows.
pub proof fn law_the_shared_area_is_that_of_the_common_part(a: Rect, b: Rect)
    ensures
        shared_area(a, b) == shared_area(b, a),
        !a.overlaps(b) ==> shared_area(a, b) == 0,
        a.overlaps(b) ==> {
            let x0 = greater(a.x as int, b.x as int);
            let y0 = greater(a.y as int, b.y as int);
            let x1 = lesser(a.x + a.width, b.x + b.width);
            let y1 = lesser(a.y + a.height, b.y + b.height);
            shared_area(a, b) == (x1 - x0) * (y1 - y0)
        },
{
    crate::geometry::law_intersection_is_a_common_part(a, b);
    crate::geometry::law_intersection_is_a_common_part(b, a);
    crate::geometry::law_near_is_symmetric(a, b, 0);
}

/// Two words are the same detection exactly if they read alike and more than half of
/// the smaller box lies in the other; which of them is asked does not matter.
pub proof fn law_the_same_word_seen_twice(k: Word, w: Word)
    ensures
        same_detection(k, w) == same_detection(w, k),
        same_detection(k, w) <==> k.text@ == w.text@ && (2 * shared_area(k.rect, w.rect)
            > k.rect.surface() || 2 * shared_area(k.rect, w.rect) > w.rect.surface()),
{
    law_the_shared_area_is_that_of_the_common_part(k.rect, w.rect);
}

/// Words that no two of them read alike and overlap so are all kept.
pub proof fn law_different_words_are_all_kept(words: Seq<Word>, w: Word)
    requires
        words.contains(w),
        forall|i: int|
            0 <= i < words.len() && (#[trigger] words[i]).text@ == w.text@ ==> words[i] == w || (2
                * shared_area(words[i].rect, w.rect) <= words[i].rect.surface() && 2 * shared_area(
                words[i].rect,
                w.rect,
            ) <= w.rect.surface()),
    ensures
        deduplicated(words).contains(w),
{
    law_dedup_keeps_the_fuller_word(words, w);
    if !deduplicated(words).contains(w) {
        let all = deduplicated(words);
        let i = choose|i: int|
            0 <= i < all.len() && same_detection(#[trigger] all[i], w) && all[i].rect.surface()
                >= w.rect.surface();
        law_dedup_invents_no_word(words, i);
        let k = choose|k: int| 0 <= k < words.len() && words[k] == all[i];
        law_the_same_word_seen_twice(words[k], w);
        assert(words[k].text@ == w.text@);
        assert(all.contains(all[i]));
    }
}

/// What bands cover adds up, band by band: width times height.
pub proof fn law_band_areas_add_up(bands: Seq<Band>, b: Band)
    ensures
        band_area(Seq::empty()) == 0,
        b.w >= 0 && b.h >= 0 ==> band_area(bands.push(b)) == band_area(bands) + b.w * b.h,
        b.w < 0 || b.h < 0 ==> band_area(bands.push(b)) == band_area(bands),
{
    assert(bands.push(b).drop_last() == bands);
    let (w, h) = (greater(b.w as int, 0), greater(b.h as int, 0));
    assert(w == 0 || h == 0 ==> w * h == 0) by (nonlinear_arith);
}

/// A word can be shown at once exactly if its centre lies in none of the bands.
pub proof fn law_words_are_ready_outside_the_bands(w: Word, bands: Seq<Band>, origin: (int, int))
    ensures
        untouched(w, bands, origin) <==> forall|k: int|
            0 <= k < bands.len() ==> {
                let b = #[trigger] bands[k];
                let x = w.rect.mid_x() - origin.0;
                let y = w.rect.mid_y() - origin.1;
                x < b.x0 || x >= b.x0 + b.w || y < b.y0 || y >= b.y0 + b.h
            },
{
    if untouched(w, bands, origin) {
        assert forall|k: int| 0 <= k < bands.len() implies {
            let b = #[trigger] bands[k];
            let x = w.rect.mid_x() - origin.0;
            let y = w.rect.mid_y() - origin.1;
            x < b.x0 || x >= b.x0 + b.w || y < b.y0 || y >= b.y0 + b.h
        } by {
            assert(outlives(w, bands[k], origin));
        }
    }
}

/// A detector's strips overlap by 80 rows on either side, and pairs of numbers stand
/// for themselves.
pub proof fn law_strips_overlap_by_eighty_rows(v: Seq<(i32, i32)>, i: int)
    requires
        0 <= i < v.len(),
    ensures
        TILE_OVERLAP == 80,
        pairs(v).len() == v.len(),
        pairs(v)[i].0 == v[i].0 && pairs(v)[i].1 == v[i].1,
{
}

} // verus!
