//! Parsing Tesseract's TSV output into word boxes.
//!
//! Tesseract, run with the `tsv` config, prints one row per layout node with a
//! `level` column (1=page … 5=word) and pixel geometry. We keep the level-5
//! word rows that clear a confidence threshold and turn them into [`Word`]s in
//! absolute screen coordinates; grouping into phrases is [`super::phrase`]'s job.
//!
//! Confidences are real numbers in the text. [`confidences`] hands out that text,
//! row by row; the caller compares it with the threshold and passes one verdict
//! per row back to [`parse`].

use vstd::prelude::*;

use crate::detect::Element;
use crate::geometry::{fits_i32, Rect};
use crate::text::{
    fields, i32_value, lines, parse_i32, same_chars, split_fields, split_lines, to_chars, to_text,
    trim_chars, trimmed, views,
};

use super::phrase::{shapes, Word};

verus! {

/// The columns that a row is read from.
pub struct Columns {
    pub level: usize,
    pub left: usize,
    pub top: usize,
    pub width: usize,
    pub height: usize,
    pub conf: usize,
    pub text: usize,
}

/// The first position of `name` in `names`, from `i` on; the number of names if
/// there is none.
pub open spec fn position(names: Seq<Seq<char>>, name: Seq<char>, i: int) -> int
    decreases names.len() - i,
{
    if i < 0 || i >= names.len() {
        names.len() as int
    } else if names[i] == name {
        i
    } else {
        position(names, name, i + 1)
    }
}

/// `names` holds `name`.
pub open spec fn has_column(names: Seq<Seq<char>>, name: Seq<char>) -> bool {
    position(names, name, 0) < names.len()
}

/// The header names every column that is needed.
pub open spec fn complete(names: Seq<Seq<char>>) -> bool {
    &&& has_column(names, "level"@)
    &&& has_column(names, "left"@)
    &&& has_column(names, "top"@)
    &&& has_column(names, "width"@)
    &&& has_column(names, "height"@)
    &&& has_column(names, "conf"@)
    &&& has_column(names, "text"@)
}

/// The names in the header line.
pub open spec fn header_names(tsv: Seq<char>) -> Seq<Seq<char>> {
    fields(lines(tsv)[0], '\t')
}

/// The columns as the header names them.
pub open spec fn columns_are(c: Columns, names: Seq<Seq<char>>) -> bool {
    &&& c.level == position(names, "level"@, 0)
    &&& c.left == position(names, "left"@, 0)
    &&& c.top == position(names, "top"@, 0)
    &&& c.width == position(names, "width"@, 0)
    &&& c.height == position(names, "height"@, 0)
    &&& c.conf == position(names, "conf"@, 0)
    &&& c.text == position(names, "text"@, 0)
}

/// Field `name` of a row, found by the header.
pub open spec fn cell(names: Seq<Seq<char>>, row: Seq<Seq<char>>, name: Seq<char>) -> Seq<char> {
    row[position(names, name, 0)]
}

/// The row reaches as far as column `name`.
pub open spec fn reaches(names: Seq<Seq<char>>, row: Seq<Seq<char>>, name: Seq<char>) -> bool {
    position(names, name, 0) < row.len()
}

/// The row has all the fields that are needed.
pub open spec fn whole(names: Seq<Seq<char>>, row: Seq<Seq<char>>) -> bool {
    &&& reaches(names, row, "level"@)
    &&& reaches(names, row, "left"@)
    &&& reaches(names, row, "top"@)
    &&& reaches(names, row, "width"@)
    &&& reaches(names, row, "height"@)
    &&& reaches(names, row, "conf"@)
    &&& reaches(names, row, "text"@)
}

/// The word that a row stands for, in absolute screen coordinates: a word row
/// with a text, four whole numbers and a confidence that was found good enough.
pub open spec fn row_word(
    names: Seq<Seq<char>>,
    row: Seq<Seq<char>>,
    region: Rect,
    confident: bool,
) -> Option<(Rect, Seq<char>)> {
    if whole(names, row) && cell(names, row, "level"@) == "5"@ && confident && trimmed(
        cell(names, row, "text"@),
    ).len() > 0 {
        match (
            i32_value(cell(names, row, "left"@)),
            i32_value(cell(names, row, "top"@)),
            i32_value(cell(names, row, "width"@)),
            i32_value(cell(names, row, "height"@)),
        ) {
            (Some(left), Some(top), Some(w), Some(h)) => if fits_i32(region.x + left) && fits_i32(
                region.y + top,
            ) {
                Some(
                    (
                        Rect {
                            x: (region.x + left) as i32,
                            y: (region.y + top) as i32,
                            width: w,
                            height: h,
                        },
                        trimmed(cell(names, row, "text"@)),
                    ),
                )
            } else {
                None
            },
            _ => None,
        }
    } else {
        None
    }
}

/// The verdict on row `k`; a row without one is not good enough.
pub open spec fn verdict(confident: Seq<bool>, k: int) -> bool {
    0 <= k < confident.len() && confident[k]
}

/// The words in the first `n` rows below the header.
pub open spec fn words_in(tsv: Seq<char>, region: Rect, confident: Seq<bool>, n: nat) -> Seq<
    (Rect, Seq<char>),
>
    decreases n,
{
    if n == 0 {
        Seq::empty()
    } else {
        let before = words_in(tsv, region, confident, (n - 1) as nat);
        match row_word(
            header_names(tsv),
            fields(lines(tsv)[n as int], '\t'),
            region,
            verdict(confident, n - 1),
        ) {
            Some(w) => before.push(w),
            None => before,
        }
    }
}

/// What parsing `tsv` gives: nothing without a usable header, else the word of
/// each row that stands for one.
pub open spec fn parsed(tsv: Seq<char>, region: Rect, confident: Seq<bool>) -> Seq<
    (Rect, Seq<char>),
> {
    if lines(tsv).len() == 0 || !complete(header_names(tsv)) {
        Seq::empty()
    } else {
        words_in(tsv, region, confident, (lines(tsv).len() - 1) as nat)
    }
}

/// The confidence text of row `k` below the header; empty where the row does not
/// reach that far.
pub open spec fn confidence_of(tsv: Seq<char>, k: int) -> Seq<char> {
    let row = fields(lines(tsv)[k + 1], '\t');
    if reaches(header_names(tsv), row, "conf"@) {
        cell(header_names(tsv), row, "conf"@)
    } else {
        Seq::empty()
    }
}

/// What a word holds.
pub open spec fn word_shapes(v: Seq<Word>) -> Seq<(Rect, Seq<char>)> {
    v.map_values(|w: Word| (w.rect, w.text@))
}

/// Find column `name` of the header.
fn find_column(names: &Vec<Vec<char>>, name: &str) -> (r: Option<usize>)
    ensures
        match r {
            Some(i) => i == position(views(names@), name@, 0) && i < names@.len(),
            None => !has_column(views(names@), name@),
        },
{
    let want = to_chars(name);
    let mut i: usize = 0;
    while i < names.len()
        invariant
            i <= names@.len(),
            want@ == name@,
            position(views(names@), name@, 0) == position(views(names@), name@, i as int),
        decreases names@.len() - i,
    {
        if same_chars(&names[i], &want) {
            return Some(i);
        }
        i += 1;
    }
    None
}

/// The header maps column names to indices, so we never hard-code the layout.
fn find_columns(names: &Vec<Vec<char>>) -> (r: Option<Columns>)
    ensures
        match r {
            Some(c) => complete(views(names@)) && columns_are(c, views(names@)),
            None => !complete(views(names@)),
        },
{
    match (
        find_column(names, "level"),
        find_column(names, "left"),
        find_column(names, "top"),
        find_column(names, "width"),
        find_column(names, "height"),
        find_column(names, "conf"),
        find_column(names, "text"),
    ) {
        (
            Some(level),
            Some(left),
            Some(top),
            Some(width),
            Some(height),
            Some(conf),
            Some(text),
        ) => Some(Columns { level, left, top, width, height, conf, text }),
        _ => None,
    }
}

/// The confidence text of every row below the header, in order, for the caller
/// to compare with a threshold; nothing without a usable header.
pub fn confidences(tsv: &str) -> (r: Vec<String>)
    ensures
        lines(tsv@).len() == 0 || !complete(header_names(tsv@)) ==> r@.len() == 0,
        lines(tsv@).len() > 0 && complete(header_names(tsv@)) ==> {
            &&& r@.len() == lines(tsv@).len() - 1
            &&& forall|k: int| 0 <= k < r@.len() ==> (#[trigger] r@[k])@ == confidence_of(tsv@, k)
        },
{
    let mut r: Vec<String> = Vec::new();
    let rows = split_lines(&to_chars(tsv));
    assert(views(rows@).len() == rows@.len());
    if rows.len() == 0 {
        return r;
    }
    assert(rows@[0]@ == views(rows@)[0]);
    let names = split_fields(&rows[0], '\t');
    let columns = match find_columns(&names) {
        Some(c) => c,
        None => {
            return r;
        },
    };
    let mut k: usize = 1;
    while k < rows.len()
        invariant
            1 <= k <= rows@.len(),
            views(rows@) == lines(tsv@),
            columns_are(columns, header_names(tsv@)),
            r@.len() == k - 1,
            forall|j: int| 0 <= j < r@.len() ==> (#[trigger] r@[j])@ == confidence_of(tsv@, j),
        decreases rows@.len() - k,
    {
        let f = split_fields(&rows[k], '\t');
        assert(rows@[k as int]@ == views(rows@)[k as int]);
        assert(views(f@) == fields(lines(tsv@)[k as int], '\t'));
        if columns.conf < f.len() {
            assert(f@[columns.conf as int]@ == views(f@)[columns.conf as int]);
            r.push(to_text(&f[columns.conf]));
        } else {
            r.push(String::new());
        }
        k += 1;
    }
    r
}

/// Parse `tsv` into confident word boxes, offset by the captured `region`'s
/// origin so the boxes are in absolute screen coordinates. `confident` holds one
/// verdict per row below the header (see [`confidences`]).
pub fn parse(tsv: &str, region: Rect, confident: &[bool]) -> (r: Vec<Word>)
    ensures
        word_shapes(r@) == parsed(tsv@, region, confident@),
{
    let mut words: Vec<Word> = Vec::new();
    let rows = split_lines(&to_chars(tsv));
    assert(views(rows@).len() == rows@.len());
    if rows.len() == 0 {
        assert(word_shapes(words@) == Seq::<(Rect, Seq<char>)>::empty());
        return words;
    }
    assert(rows@[0]@ == views(rows@)[0]);
    let names = split_fields(&rows[0], '\t');
    let columns = match find_columns(&names) {
        Some(c) => c,
        None => {
            assert(word_shapes(words@) == Seq::<(Rect, Seq<char>)>::empty());
            return words;
        },
    };
    let mut k: usize = 1;
    assert(word_shapes(words@) == words_in(tsv@, region, confident@, 0));
    while k < rows.len()
        invariant
            1 <= k <= rows@.len(),
            views(rows@) == lines(tsv@),
            columns_are(columns, header_names(tsv@)),
            word_shapes(words@) == words_in(tsv@, region, confident@, (k - 1) as nat),
        decreases rows@.len() - k,
    {
        let f = split_fields(&rows[k], '\t');
        assert(rows@[k as int]@ == views(rows@)[k as int]);
        assert(views(f@) == fields(lines(tsv@)[k as int], '\t'));
        let good = k - 1 < confident.len() && confident[k - 1];
        let ghost before = words@;
        if let Some(w) = parse_row(&f, &columns, region, good, Ghost(header_names(tsv@))) {
            let ghost shown = (w.rect, w.text@);
            words.push(w);
            assert(word_shapes(words@) == word_shapes(before).push(shown));
        }
        k += 1;
    }
    words
}

/// Read one row.
fn parse_row(
    f: &Vec<Vec<char>>,
    c: &Columns,
    region: Rect,
    good: bool,
    Ghost(names): Ghost<Seq<Seq<char>>>,
) -> (r: Option<Word>)
    requires
        columns_are(*c, names),
    ensures
        match r {
            Some(w) => row_word(names, views(f@), region, good) == Some((w.rect, w.text@)),
            None => row_word(names, views(f@), region, good) is None,
        },
{
    let n = f.len();
    if c.level >= n || c.left >= n || c.top >= n || c.width >= n || c.height >= n || c.conf >= n
        || c.text >= n {
        return None;
    }
    assert(forall|i: int| 0 <= i < n ==> #[trigger] views(f@)[i] == f@[i]@);
    if !same_chars(&f[c.level], &to_chars("5")) || !good {
        return None;
    }
    let text = trim_chars(&f[c.text]);
    if text.len() == 0 {
        return None;
    }
    match (parse_i32(&f[c.left]), parse_i32(&f[c.top]), parse_i32(&f[c.width]), parse_i32(&f[c.height])) {
        (Some(left), Some(top), Some(w), Some(h)) => {
            let x = region.x as i64 + left as i64;
            let y = region.y as i64 + top as i64;
            if x < i32::MIN as i64 || x > i32::MAX as i64 || y < i32::MIN as i64 || y
                > i32::MAX as i64 {
                return None;
            }
            Some(Word { rect: Rect::new(x as i32, y as i32, w, h), text: to_text(&text) })
        },
        _ => None,
    }
}

/// Parse `tsv` into word-level elements: [`parse`], each word a target by
/// itself.
pub fn parse_tsv(tsv: &str, region: Rect, confident: &[bool]) -> (r: Vec<Element>)
    ensures
        shapes(r@) == parsed(tsv@, region, confident@),
{
    word_elements(parse(tsv, region, confident))
}

/// Every word as a target by itself.
pub fn word_elements(words: Vec<Word>) -> (r: Vec<Element>)
    ensures
        shapes(r@) == word_shapes(words@),
{
    let ghost given = words@;
    let mut r: Vec<Element> = Vec::new();
    for w in it: words
        invariant
            it.seq() == given,
            shapes(r@) == word_shapes(given).take(it.index() as int),
    {
        let ghost before = r@;
        r.push(Element { rect: w.rect, text: w.text });
        assert(shapes(r@) == shapes(before).push((w.rect, w.text@)));
        assert(shapes(r@) == word_shapes(given).take(it.index() + 1));
    }
    r
}

// --- Laws -----------------------------------------------------------------

/// A stricter threshold only drops words: every word that is kept with fewer
/// rows found confident is kept with more of them.
pub proof fn law_a_stricter_threshold_only_drops_words(
    tsv: Seq<char>,
    region: Rect,
    strict: Seq<bool>,
    lenient: Seq<bool>,
    w: (Rect, Seq<char>),
)
    requires
        forall|k: int| verdict(strict, k) ==> #[trigger] verdict(lenient, k),
        parsed(tsv, region, strict).contains(w),
    ensures
        parsed(tsv, region, lenient).contains(w),
{
    lemma_stricter(tsv, region, strict, lenient, w, (lines(tsv).len() - 1) as nat);
}

proof fn lemma_stricter(
    tsv: Seq<char>,
    region: Rect,
    strict: Seq<bool>,
    lenient: Seq<bool>,
    w: (Rect, Seq<char>),
    n: nat,
)
    requires
        forall|k: int| verdict(strict, k) ==> #[trigger] verdict(lenient, k),
        words_in(tsv, region, strict, n).contains(w),
    ensures
        words_in(tsv, region, lenient, n).contains(w),
    decreases n,
{
    if n > 0 {
        let before = words_in(tsv, region, strict, (n - 1) as nat);
        let all = words_in(tsv, region, strict, n);
        let loose = words_in(tsv, region, lenient, (n - 1) as nat);
        let i = choose|i: int| 0 <= i < all.len() && all[i] == w;
        assert(verdict(strict, n - 1) ==> verdict(lenient, n - 1));
        if i < before.len() {
            assert(before[i] == w);
            lemma_stricter(tsv, region, strict, lenient, w, (n - 1) as nat);
            let j = choose|j: int| 0 <= j < loose.len() && loose[j] == w;
            assert(words_in(tsv, region, lenient, n)[j] == w);
        } else {
            assert(words_in(tsv, region, lenient, n)[loose.len() as int] == w);
        }
    }
}

/// A word lies where its row says, counted from the corner of the region that was
/// read: reading the same text off a region elsewhere moves every word by as
/// much.
pub proof fn law_words_move_with_the_region(
    names: Seq<Seq<char>>,
    row: Seq<Seq<char>>,
    a: Rect,
    b: Rect,
    confident: bool,
)
    requires
        row_word(names, row, a, confident) is Some,
        row_word(names, row, b, confident) is Some,
    ensures
        ({
            let (ra, ta) = row_word(names, row, a, confident)->0;
            let (rb, tb) = row_word(names, row, b, confident)->0;
            &&& rb.x - ra.x == b.x - a.x
            &&& rb.y - ra.y == b.y - a.y
            &&& rb.width == ra.width
            &&& rb.height == ra.height
            &&& tb == ta
        }),
{
}

/// A column is found where its name first stands in the header.
pub proof fn law_columns_are_found_by_their_first_name(names: Seq<Seq<char>>, name: Seq<char>)
    ensures
        has_column(names, name) <==> names.contains(name),
        has_column(names, name) ==> names[position(names, name, 0)] == name && forall|j: int|
            0 <= j < position(names, name, 0) ==> #[trigger] names[j] != name,
        0 <= position(names, name, 0) <= names.len(),
{
    lemma_position(names, name, 0);
    if names.contains(name) {
        let k = choose|k: int| 0 <= k < names.len() && names[k] == name;
        if !has_column(names, name) {
            assert(names[k] != name);
        }
    }
}

proof fn lemma_position(names: Seq<Seq<char>>, name: Seq<char>, i: int)
    requires
        0 <= i <= names.len(),
        forall|j: int| 0 <= j < i ==> #[trigger] names[j] != name,
    ensures
        i <= position(names, name, i) <= names.len(),
        position(names, name, i) < names.len() ==> names[position(names, name, i)] == name,
        forall|j: int| 0 <= j < position(names, name, i) ==> #[trigger] names[j] != name,
    decreases names.len() - i,
{
    if i < names.len() && names[i] != name {
        lemma_position(names, name, i + 1);
    }
}

/// A row stands for a word exactly if it is a word row, was found confident, has a
/// text that is not blank and four whole numbers, and lies where coordinates reach;
/// then the word is that text, trimmed, in a box of the given size, as far from the
/// corner of the region as the row says. `left` to `text` are the columns that the
/// header names so.
pub proof fn law_a_row_says_where_its_word_is(
    names: Seq<Seq<char>>,
    row: Seq<Seq<char>>,
    region: Rect,
    confident: bool,
    level: int,
    left: int,
    top: int,
    width: int,
    height: int,
    conf: int,
    text: int,
)
    requires
        level == position(names, "level"@, 0),
        left == position(names, "left"@, 0),
        top == position(names, "top"@, 0),
        width == position(names, "width"@, 0),
        height == position(names, "height"@, 0),
        conf == position(names, "conf"@, 0),
        text == position(names, "text"@, 0),
    ensures
        ({
            let long = level < row.len() && left < row.len() && top < row.len() && width < row.len()
                && height < row.len() && conf < row.len() && text < row.len();
            let word = long && row[level] == "5"@ && confident && trimmed(row[text]).len() > 0;
            let x = i32_value(row[left]);
            let y = i32_value(row[top]);
            let w = i32_value(row[width]);
            let h = i32_value(row[height]);
            let there = word && x is Some && y is Some && w is Some && h is Some && fits_i32(
                region.x + x->0,
            ) && fits_i32(region.y + y->0);
            &&& row_word(names, row, region, confident) is Some <==> there
            &&& there ==> {
                let (r, t) = row_word(names, row, region, confident)->0;
                &&& r.x - region.x == x->0
                &&& r.y - region.y == y->0
                &&& r.width == w->0
                &&& r.height == h->0
                &&& t == trimmed(row[text])
            }
        }),
{
}

/// Row `k` below the header stands for `w`.
pub open spec fn says(tsv: Seq<char>, region: Rect, confident: Seq<bool>, k: int, w: (Rect, Seq<char>)) -> bool {
    row_word(
        fields(lines(tsv)[0], '\t'),
        fields(lines(tsv)[k + 1], '\t'),
        region,
        k < confident.len() && confident[k],
    ) == Some(w)
}

/// Every row of the table is read by itself, under the header that is its first
/// line: a word is found exactly if one of the rows stands for it, the rows found
/// confident being those that the verdicts say. Without a header that names every
/// column there are no words.
pub proof fn law_every_row_is_read_by_itself(
    tsv: Seq<char>,
    region: Rect,
    confident: Seq<bool>,
    w: (Rect, Seq<char>),
)
    ensures
        ({
            let names = fields(lines(tsv)[0], '\t');
            let usable = lines(tsv).len() > 0 && names.contains("level"@) && names.contains("left"@)
                && names.contains("top"@) && names.contains("width"@) && names.contains("height"@)
                && names.contains("conf"@) && names.contains("text"@);
            parsed(tsv, region, confident).contains(w) <==> usable && exists|k: int|
                0 <= k < lines(tsv).len() - 1 && #[trigger] says(tsv, region, confident, k, w)
        }),
{
    let names = header_names(tsv);
    law_columns_are_found_by_their_first_name(names, "level"@);
    law_columns_are_found_by_their_first_name(names, "left"@);
    law_columns_are_found_by_their_first_name(names, "top"@);
    law_columns_are_found_by_their_first_name(names, "width"@);
    law_columns_are_found_by_their_first_name(names, "height"@);
    law_columns_are_found_by_their_first_name(names, "conf"@);
    law_columns_are_found_by_their_first_name(names, "text"@);
    if lines(tsv).len() > 0 {
        lemma_words_in(tsv, region, confident, w, (lines(tsv).len() - 1) as nat);
    }
}

proof fn lemma_words_in(
    tsv: Seq<char>,
    region: Rect,
    confident: Seq<bool>,
    w: (Rect, Seq<char>),
    n: nat,
)
    ensures
        words_in(tsv, region, confident, n).contains(w) <==> exists|k: int|
            0 <= k < n && #[trigger] says(tsv, region, confident, k, w),
    decreases n,
{
    if n > 0 {
        let m = (n - 1) as nat;
        let before = words_in(tsv, region, confident, m);
        let all = words_in(tsv, region, confident, n);
        lemma_words_in(tsv, region, confident, w, m);
        let here = row_word(
            header_names(tsv),
            fields(lines(tsv)[n as int], '\t'),
            region,
            verdict(confident, n - 1),
        );
        assert(says(tsv, region, confident, n - 1, w) <==> here == Some(w));
        if all.contains(w) {
            let i = choose|i: int| 0 <= i < all.len() && all[i] == w;
            if i < before.len() {
                assert(before[i] == w);
                let k = choose|k: int| 0 <= k < m && #[trigger] says(tsv, region, confident, k, w);
                assert(0 <= k < n && says(tsv, region, confident, k, w));
            } else {
                assert(says(tsv, region, confident, n - 1, w));
            }
        }
        if exists|k: int| 0 <= k < n && #[trigger] says(tsv, region, confident, k, w) {
            let k = choose|k: int| 0 <= k < n && #[trigger] says(tsv, region, confident, k, w);
            if k < m {
                assert(before.contains(w));
                let i = choose|i: int| 0 <= i < before.len() && before[i] == w;
                assert(all[i] == w);
            } else {
                assert(all[before.len() as int] == w);
            }
        }
    }
}

/// No row stands for more than one word.
pub proof fn law_there_are_no_more_words_than_rows(tsv: Seq<char>, region: Rect, confident: Seq<bool>)
    ensures
        lines(tsv).len() > 0 ==> parsed(tsv, region, confident).len() < lines(tsv).len(),
        lines(tsv).len() == 0 ==> parsed(tsv, region, confident).len() == 0,
{
    if lines(tsv).len() > 0 {
        lemma_no_more_words(tsv, region, confident, (lines(tsv).len() - 1) as nat);
    }
}

proof fn lemma_no_more_words(tsv: Seq<char>, region: Rect, confident: Seq<bool>, n: nat)
    ensures
        words_in(tsv, region, confident, n).len() <= n,
    decreases n,
{
    if n > 0 {
        lemma_no_more_words(tsv, region, confident, (n - 1) as nat);
    }
}

/// The confidence of a row is what stands in the column of that name.
pub proof fn law_confidences_stand_in_their_column(tsv: Seq<char>, k: int)
    ensures
        ({
            let row = fields(lines(tsv)[k + 1], '\t');
            let conf = position(fields(lines(tsv)[0], '\t'), "conf"@, 0);
            confidence_of(tsv, k) == if conf < row.len() {
                row[conf]
            } else {
                Seq::empty()
            }
        }),
{
}

/// A word shows its own box and its own text, and so does the element made of it.
pub proof fn law_words_show_their_box_and_text(words: Seq<Word>, elements: Seq<Element>, i: int)
    requires
        shapes(elements) == word_shapes(words),
        0 <= i < words.len(),
    ensures
        elements.len() == words.len(),
        word_shapes(words)[i].0 == words[i].rect,
        word_shapes(words)[i].1 == words[i].text@,
        elements[i].rect == words[i].rect,
        elements[i].text@ == words[i].text@,
{
    assert(shapes(elements).len() == elements.len());
    assert(word_shapes(words).len() == words.len());
    assert(shapes(elements)[i] == word_shapes(words)[i]);
}

} // verus!
