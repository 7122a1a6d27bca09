//! Character-level text handling: whitespace, lines and fields, decimal numbers.
//!
//! Text is modelled as a sequence of characters. Each operation is first said as
//! a spec function over that sequence; the executable function beside it is
//! proved to compute exactly that.

use vstd::prelude::*;

verus! {

/// `String::push` of std: appends one character to the end.
pub assume_specification[ String::push ](s: &mut String, c: char)
    ensures
        final(s)@ == old(s)@.push(c),
;

/// `String::pop` of std: removes and returns the last character, or returns
/// `None` and leaves the text alone when it is empty.
pub assume_specification[ String::pop ](s: &mut String) -> (c: Option<char>)
    ensures
        old(s)@.len() == 0 ==> c is None && final(s)@ == old(s)@,
        old(s)@.len() > 0 ==> c == Some(old(s)@.last()) && final(s)@ == old(s)@.drop_last(),
;

// --- Conversion -----------------------------------------------------------

/// The characters of `s`.
pub fn to_chars(s: &str) -> (v: Vec<char>)
    ensures
        v@ == s@,
{
    let mut v: Vec<char> = Vec::new();
    for c in it: s.chars()
        invariant
            it.seq() == s@,
            v@ == s@.take(it.index() as int),
    {
        v.push(c);
        assert(s@.take(it.index() + 1) == s@.take(it.index() as int).push(c));
    }
    assert(s@.take(s@.len() as int) == s@);
    v
}

/// The text made of the characters of `v`.
pub fn to_text(v: &[char]) -> (s: String)
    ensures
        s@ == v@,
{
    let mut s = String::new();
    let mut i: usize = 0;
    while i < v.len()
        invariant
            i <= v@.len(),
            s@ == v@.take(i as int),
        decreases v@.len() - i,
    {
        s.push(v[i]);
        assert(v@.take(i + 1) == v@.take(i as int).push(v@[i as int]));
        i += 1;
    }
    assert(v@.take(i as int) == v@);
    s
}

/// The characters of `v` from `from` up to `to`.
pub fn slice_chars(v: &Vec<char>, from: usize, to: usize) -> (r: Vec<char>)
    requires
        from <= to <= v@.len(),
    ensures
        r@ == v@.subrange(from as int, to as int),
{
    let mut r: Vec<char> = Vec::new();
    let mut i: usize = from;
    while i < to
        invariant
            from <= i <= to <= v@.len(),
            r@ == v@.subrange(from as int, i as int),
        decreases to - i,
    {
        r.push(v[i]);
        assert(v@.subrange(from as int, i + 1) == v@.subrange(from as int, i as int).push(
            v@[i as int],
        ));
        i += 1;
    }
    r
}

/// Whether two character sequences are equal.
pub fn same_chars(a: &[char], b: &[char]) -> (r: bool)
    ensures
        r == (a@ == b@),
{
    if a.len() != b.len() {
        return false;
    }
    let mut i: usize = 0;
    while i < a.len()
        invariant
            i <= a@.len() == b@.len(),
            forall|j: int| 0 <= j < i ==> a@[j] == b@[j],
        decreases a@.len() - i,
    {
        if a[i] != b[i] {
            return false;
        }
        i += 1;
    }
    assert(a@ == b@);
    true
}

/// Whether two texts are equal.
pub fn same_text(a: &str, b: &str) -> (r: bool)
    ensures
        r == (a@ == b@),
{
    let x = to_chars(a);
    let y = to_chars(b);
    same_chars(&x, &y)
}

/// `p` is a prefix of `s`.
pub open spec fn begins(s: Seq<char>, p: Seq<char>) -> bool {
    p.len() <= s.len() && s.take(p.len() as int) == p
}

/// Whether `s` starts with `p`.
pub fn starts_with(s: &str, p: &str) -> (r: bool)
    ensures
        r == begins(s@, p@),
{
    let x = to_chars(s);
    let y = to_chars(p);
    if y.len() > x.len() {
        return false;
    }
    let mut i: usize = 0;
    while i < y.len()
        invariant
            i <= y@.len() <= x@.len(),
            x@ == s@,
            y@ == p@,
            forall|j: int| 0 <= j < i ==> x@[j] == y@[j],
        decreases y@.len() - i,
    {
        if x[i] != y[i] {
            assert(s@.take(p@.len() as int)[i as int] != p@[i as int]);
            return false;
        }
        i += 1;
    }
    assert(s@.take(p@.len() as int) == p@);
    true
}

// --- Whitespace -----------------------------------------------------------

/// `c` has the Unicode property `White_Space`.
pub open spec fn blank(c: char) -> bool {
    let n = c as int;
    ||| 0x9 <= n <= 0xd
    ||| n == 0x20
    ||| n == 0x85
    ||| n == 0xa0
    ||| n == 0x1680
    ||| 0x2000 <= n <= 0x200a
    ||| n == 0x2028
    ||| n == 0x2029
    ||| n == 0x202f
    ||| n == 0x205f
    ||| n == 0x3000
}

/// Whether `c` is whitespace.
pub fn is_blank(c: char) -> (r: bool)
    ensures
        r == blank(c),
{
    let n = c as u32;
    (0x9 <= n && n <= 0xd) || n == 0x20 || n == 0x85 || n == 0xa0 || n == 0x1680 || (0x2000 <= n
        && n <= 0x200a) || n == 0x2028 || n == 0x2029 || n == 0x202f || n == 0x205f || n == 0x3000
}

/// `s` without its leading whitespace.
pub open spec fn without_lead(s: Seq<char>) -> Seq<char>
    decreases s.len(),
{
    if s.len() > 0 && blank(s[0]) {
        without_lead(s.drop_first())
    } else {
        s
    }
}

/// `s` without its trailing whitespace.
pub open spec fn without_tail(s: Seq<char>) -> Seq<char>
    decreases s.len(),
{
    if s.len() > 0 && blank(s.last()) {
        without_tail(s.drop_last())
    } else {
        s
    }
}

/// `s` without leading and trailing whitespace.
pub open spec fn trimmed(s: Seq<char>) -> Seq<char> {
    without_tail(without_lead(s))
}

/// The characters of `v` without leading and trailing whitespace.
pub fn trim_chars(v: &Vec<char>) -> (r: Vec<char>)
    ensures
        r@ == trimmed(v@),
{
    let mut a: usize = 0;
    assert(v@.skip(0) == v@);
    while a < v.len() && is_blank(v[a])
        invariant
            a <= v@.len(),
            without_lead(v@) == without_lead(v@.skip(a as int)),
        decreases v@.len() - a,
    {
        assert(v@.skip(a as int).drop_first() == v@.skip(a + 1));
        a += 1;
    }
    assert(without_lead(v@) == v@.skip(a as int));
    let mut b: usize = v.len();
    assert(v@.subrange(a as int, b as int) == v@.skip(a as int));
    while b > a && is_blank(v[b - 1])
        invariant
            a <= b <= v@.len(),
            trimmed(v@) == without_tail(v@.subrange(a as int, b as int)),
        decreases b,
    {
        assert(v@.subrange(a as int, b as int).drop_last() == v@.subrange(a as int, b - 1));
        b -= 1;
    }
    slice_chars(v, a, b)
}

/// `s` without leading and trailing whitespace.
pub fn trim(s: &str) -> (r: String)
    ensures
        r@ == trimmed(s@),
{
    let v = to_chars(s);
    let t = trim_chars(&v);
    to_text(&t)
}

/// `s` without trailing whitespace.
pub fn trim_end(s: &str) -> (r: String)
    ensures
        r@ == without_tail(s@),
{
    let v = to_chars(s);
    let mut b: usize = v.len();
    assert(v@.take(b as int) == v@);
    while b > 0 && is_blank(v[b - 1])
        invariant
            b <= v@.len(),
            without_tail(v@) == without_tail(v@.take(b as int)),
        decreases b,
    {
        assert(v@.take(b as int).drop_last() == v@.take(b - 1));
        b -= 1;
    }
    let t = slice_chars(&v, 0, b);
    assert(v@.subrange(0, b as int) == v@.take(b as int));
    to_text(&t)
}

// --- Letters --------------------------------------------------------------

/// `c` with an ASCII capital letter turned into the small one.
pub open spec fn lowered(c: char) -> char {
    if 'A' <= c && c <= 'Z' {
        ((c as int) + 32) as char
    } else {
        c
    }
}

/// `c` with an ASCII capital letter turned into the small one.
pub fn to_lower(c: char) -> (r: char)
    ensures
        r == lowered(c),
{
    if 'A' <= c && c <= 'Z' {
        (c as u8 + 32) as char
    } else {
        c
    }
}

// --- Lines and fields -----------------------------------------------------

/// The position of the first `c` in `s`, or `s.len()` if there is none.
pub open spec fn first_at(s: Seq<char>, c: char) -> nat
    decreases s.len(),
{
    if s.len() == 0 || s[0] == c {
        0
    } else {
        1 + first_at(s.drop_first(), c)
    }
}

/// `first_at` is a position before which `c` does not occur and at which it does,
/// unless it is the end.
pub proof fn lemma_first_at(s: Seq<char>, c: char)
    ensures
        first_at(s, c) <= s.len(),
        forall|j: int| 0 <= j < first_at(s, c) ==> s[j] != c,
        first_at(s, c) < s.len() ==> s[first_at(s, c) as int] == c,
    decreases s.len(),
{
    if s.len() > 0 && s[0] != c {
        let t = s.drop_first();
        lemma_first_at(t, c);
        assert forall|j: int| 0 <= j < first_at(s, c) implies s[j] != c by {
            if j > 0 {
                assert(t[j - 1] == s[j]);
            }
        }
        if first_at(s, c) < s.len() {
            assert(t[first_at(t, c) as int] == s[first_at(s, c) as int]);
        }
    }
}

/// Where `c` first stands from `from` on, or the end of `v`.
fn find_from(v: &Vec<char>, from: usize, c: char) -> (r: usize)
    requires
        from <= v@.len(),
    ensures
        from <= r <= v@.len(),
        r - from == first_at(v@.skip(from as int), c),
        r < v@.len() ==> v@[r as int] == c,
{
    let mut i: usize = from;
    while i < v.len() && v[i] != c
        invariant
            from <= i <= v@.len(),
            first_at(v@.skip(from as int), c) == (i - from) + first_at(v@.skip(i as int), c),
        decreases v@.len() - i,
    {
        assert(v@.skip(i as int).drop_first() == v@.skip(i + 1));
        i += 1;
    }
    i
}

/// The fields of `s` between the separators `sep`: one more than there are
/// separators.
pub open spec fn fields(s: Seq<char>, sep: char) -> Seq<Seq<char>>
    decreases s.len(),
    via fields_decreases
{
    let i = first_at(s, sep) as int;
    if i < s.len() {
        seq![s.take(i)] + fields(s.skip(i + 1), sep)
    } else {
        seq![s]
    }
}

#[via_fn]
proof fn fields_decreases(s: Seq<char>, sep: char) {
    lemma_first_at(s, sep);
}

/// `s` without one carriage return at its end.
pub open spec fn without_return(s: Seq<char>) -> Seq<char> {
    if s.len() > 0 && s.last() == '\r' {
        s.drop_last()
    } else {
        s
    }
}

/// The lines of `s`: ended by a line feed, or by a carriage return and a line
/// feed. Text after the last line feed is a line of its own unless it is empty.
pub open spec fn lines(s: Seq<char>) -> Seq<Seq<char>>
    decreases s.len(),
    via lines_decreases
{
    let i = first_at(s, '\n') as int;
    if i < s.len() {
        seq![without_return(s.take(i))] + lines(s.skip(i + 1))
    } else if s.len() > 0 {
        seq![s]
    } else {
        seq![]
    }
}

#[via_fn]
proof fn lines_decreases(s: Seq<char>) {
    lemma_first_at(s, '\n');
}

/// The character sequences that the vectors of `v` hold.
pub open spec fn views(v: Seq<Vec<char>>) -> Seq<Seq<char>> {
    v.map_values(|x: Vec<char>| x@)
}

/// The fields of `v` between the separators `sep`.
pub fn split_fields(v: &Vec<char>, sep: char) -> (r: Vec<Vec<char>>)
    ensures
        views(r@) == fields(v@, sep),
        r@.len() > 0,
{
    let mut r: Vec<Vec<char>> = Vec::new();
    let mut at: usize = 0;
    assert(v@.skip(0) == v@);
    assert(views(r@) + fields(v@.skip(0), sep) == fields(v@, sep));
    loop
        invariant
            at <= v@.len(),
            views(r@) + fields(v@.skip(at as int), sep) == fields(v@, sep),
        decreases v@.len() - at,
    {
        let end = find_from(v, at, sep);
        let ghost rest = v@.skip(at as int);
        let ghost before = r@;
        let piece = slice_chars(v, at, end);
        assert(piece@ == rest.take(end - at));
        r.push(piece);
        assert(views(r@) == views(before).push(piece@));
        if end == v.len() {
            assert(rest.take(end - at) == rest);
            assert(views(r@) == fields(v@, sep));
            return r;
        }
        assert(v@.skip(end + 1) == rest.skip(end - at + 1));
        assert(views(r@) + fields(v@.skip(end + 1), sep) == views(before) + (seq![piece@]
            + fields(v@.skip(end + 1), sep)));
        at = end + 1;
    }
}

/// The lines of `v`.
pub fn split_lines(v: &Vec<char>) -> (r: Vec<Vec<char>>)
    ensures
        views(r@) == lines(v@),
{
    let mut r: Vec<Vec<char>> = Vec::new();
    let mut at: usize = 0;
    assert(v@.skip(0) == v@);
    assert(views(r@) + lines(v@.skip(0)) == lines(v@));
    while at < v.len()
        invariant
            at <= v@.len(),
            views(r@) + lines(v@.skip(at as int)) == lines(v@),
        decreases v@.len() - at,
    {
        let end = find_from(v, at, '\n');
        let ghost rest = v@.skip(at as int);
        let ghost before = r@;
        if end == v.len() {
            let piece = slice_chars(v, at, end);
            assert(piece@ == rest);
            r.push(piece);
            assert(views(r@) == views(before).push(piece@));
            assert(v@.skip(end as int) == Seq::<char>::empty());
            assert(views(r@) + lines(v@.skip(end as int)) == views(before) + lines(rest));
            at = end;
        } else {
            let stop = if end > at && v[end - 1] == '\r' {
                end - 1
            } else {
                end
            };
            let piece = slice_chars(v, at, stop);
            assert(rest.take(end - at) == v@.subrange(at as int, end as int));
            assert(piece@ == without_return(rest.take(end - at)));
            r.push(piece);
            assert(views(r@) == views(before).push(piece@));
            assert(v@.skip(end + 1) == rest.skip(end - at + 1));
            assert(views(r@) + lines(v@.skip(end + 1)) == views(before) + (seq![piece@] + lines(
                v@.skip(end + 1),
            )));
            at = end + 1;
        }
    }
    assert(v@.skip(at as int) == Seq::<char>::empty());
    assert(views(r@) + lines(v@.skip(at as int)) == views(r@));
    r
}

// --- Decimal numbers ------------------------------------------------------

/// The character of the digit `d`.
pub open spec fn digit(d: int) -> char {
    (48 + d) as char
}

/// `n` in decimal, without leading zeros.
pub open spec fn decimal(n: nat) -> Seq<char>
    decreases n,
{
    if n < 10 {
        seq![digit(n as int)]
    } else {
        decimal(n / 10).push(digit((n % 10) as int))
    }
}

/// `n` in decimal, with a minus sign in front of a negative number.
pub open spec fn signed_decimal(n: int) -> Seq<char> {
    if n < 0 {
        seq!['-'] + decimal((-n) as nat)
    } else {
        decimal(n as nat)
    }
}

/// `n` in decimal.
pub fn decimal_text(n: u64) -> (s: String)
    ensures
        s@ == decimal(n as nat),
    decreases n,
{
    if n < 10 {
        let mut s = String::new();
        s.push((48 + n as u8) as char);
        assert(s@ == seq![digit(n as int)]);
        s
    } else {
        let mut s = decimal_text(n / 10);
        s.push((48 + (n % 10) as u8) as char);
        s
    }
}

/// `n` in decimal, with a minus sign in front of a negative number.
pub fn signed_text(n: i32) -> (s: String)
    ensures
        s@ == signed_decimal(n as int),
{
    if n < 0 {
        let mut s = String::new();
        s.push('-');
        let d = decimal_text((-(n as i64)) as u64);
        s.append(d.as_str());
        assert(s@ == seq!['-'] + decimal((-(n as int)) as nat));
        s
    } else {
        decimal_text(n as u64)
    }
}

/// `c` is an ASCII digit.
pub open spec fn is_digit(c: char) -> bool {
    '0' <= c && c <= '9'
}

/// The number that a sequence of digits writes; nothing for a sequence that is
/// empty or holds anything else.
pub open spec fn digits_value(s: Seq<char>) -> Option<nat>
    decreases s.len(),
{
    if s.len() == 0 || !is_digit(s.last()) {
        None
    } else if s.len() == 1 {
        Some((s[0] as int - 48) as nat)
    } else {
        match digits_value(s.drop_last()) {
            Some(n) => Some((n * 10 + (s.last() as int - 48)) as nat),
            None => None,
        }
    }
}

/// The integer that `s` writes: digits behind an optional sign.
pub open spec fn integer_value(s: Seq<char>) -> Option<int> {
    if s.len() > 0 && (s[0] == '-' || s[0] == '+') {
        match digits_value(s.drop_first()) {
            Some(n) => Some(
                if s[0] == '-' {
                    -(n as int)
                } else {
                    n as int
                },
            ),
            None => None,
        }
    } else {
        match digits_value(s) {
            Some(n) => Some(n as int),
            None => None,
        }
    }
}

/// The `i32` that `s` writes, if it writes an integer in range.
pub open spec fn i32_value(s: Seq<char>) -> Option<i32> {
    match integer_value(s) {
        Some(n) => if i32::MIN <= n <= i32::MAX {
            Some(n as i32)
        } else {
            None
        },
        None => None,
    }
}

/// More digits never write a smaller number, and a sequence of digits cut short
/// is still one.
proof fn lemma_prefix_value(s: Seq<char>, k: int)
    requires
        0 < k <= s.len(),
        digits_value(s) is Some,
    ensures
        digits_value(s.take(k)) is Some,
        digits_value(s.take(k))->0 <= digits_value(s)->0,
    decreases s.len() - k,
{
    if k < s.len() {
        lemma_prefix_value(s, k + 1);
        assert(s.take(k + 1).drop_last() == s.take(k));
    } else {
        assert(s.take(k) == s);
    }
}

/// Reads the digits of `v` from `from` on, up to 2^32.
fn read_digits(v: &Vec<char>, from: usize) -> (r: Option<u64>)
    requires
        from <= v@.len(),
    ensures
        match r {
            Some(n) => digits_value(v@.skip(from as int)) == Some(n as nat) && n <= 0x1_0000_0000,
            None => match digits_value(v@.skip(from as int)) {
                Some(n) => n > 0x1_0000_0000,
                None => true,
            },
        },
{
    let ghost s = v@.skip(from as int);
    if from == v.len() {
        return None;
    }
    let mut n: u64 = 0;
    let mut i: usize = from;
    while i < v.len()
        invariant
            from <= i <= v@.len(),
            from < v@.len(),
            s == v@.skip(from as int),
            i == from ==> n == 0,
            i > from ==> digits_value(s.take(i - from)) == Some(n as nat),
            n <= 0x1_0000_0000,
        decreases v@.len() - i,
    {
        let c = v[i];
        let ghost k = i - from;
        assert(s.take(k + 1).drop_last() == s.take(k));
        assert(s.take(k + 1).last() == c);
        if !('0' <= c && c <= '9') {
            proof {
                if digits_value(s) is Some {
                    lemma_prefix_value(s, k + 1);
                }
            }
            return None;
        }
        n = n * 10 + (c as u64 - 48);
        assert(digits_value(s.take(k + 1)) == Some(n as nat));
        if n > 0x1_0000_0000 {
            proof {
                if digits_value(s) is Some {
                    lemma_prefix_value(s, k + 1);
                }
            }
            return None;
        }
        i += 1;
    }
    assert(s.take(i - from) == s);
    Some(n)
}

/// Reads an `i32`: digits behind an optional sign, and nothing else.
pub fn parse_i32(v: &Vec<char>) -> (r: Option<i32>)
    ensures
        r == i32_value(v@),
{
    if v.len() > 0 && (v[0] == '-' || v[0] == '+') {
        assert(v@.skip(1) == v@.drop_first());
        match read_digits(v, 1) {
            Some(n) => {
                if v[0] == '-' {
                    if n <= 0x8000_0000 {
                        Some((-(n as i64)) as i32)
                    } else {
                        None
                    }
                } else if n <= 0x7fff_ffff {
                    Some(n as i32)
                } else {
                    None
                }
            },
            None => None,
        }
    } else {
        assert(v@.skip(0) == v@);
        match read_digits(v, 0) {
            Some(n) => {
                if n <= 0x7fff_ffff {
                    Some(n as i32)
                } else {
                    None
                }
            },
            None => None,
        }
    }
}

// --- Laws -----------------------------------------------------------------

/// A text starts with another one exactly if it goes on from there.
pub proof fn law_a_prefix_leaves_a_rest(s: Seq<char>, p: Seq<char>)
    ensures
        begins(s, p) <==> exists|rest: Seq<char>| s == #[trigger] (p + rest),
{
    if begins(s, p) {
        assert(s == p + s.skip(p.len() as int));
    }
    if exists|rest: Seq<char>| s == #[trigger] (p + rest) {
        let rest = choose|rest: Seq<char>| s == #[trigger] (p + rest);
        assert((p + rest).take(p.len() as int) == p);
    }
}

/// Trimming takes whitespace, and nothing else, off both ends, until neither end is
/// whitespace.
pub proof fn law_trimming_takes_whitespace_off_both_ends(s: Seq<char>)
    ensures
        exists|front: Seq<char>, back: Seq<char>|
            s == #[trigger] (front + trimmed(s) + back) && (forall|i: int|
                0 <= i < front.len() ==> blank(#[trigger] front[i])) && (forall|i: int|
                0 <= i < back.len() ==> blank(#[trigger] back[i])),
        trimmed(s).len() > 0 ==> !blank(trimmed(s)[0]) && !blank(trimmed(s).last()),
{
    let mid = without_lead(s);
    let front = lemma_without_lead(s);
    let back = lemma_without_tail(mid);
    assert(s == front + trimmed(s) + back);
    if trimmed(s).len() > 0 {
        assert(trimmed(s)[0] == mid[0]);
    }
}

proof fn lemma_without_lead(s: Seq<char>) -> (front: Seq<char>)
    ensures
        s == front + without_lead(s),
        forall|i: int| 0 <= i < front.len() ==> blank(#[trigger] front[i]),
        without_lead(s).len() > 0 ==> !blank(without_lead(s)[0]),
    decreases s.len(),
{
    if s.len() > 0 && blank(s[0]) {
        let rest = lemma_without_lead(s.drop_first());
        let front = seq![s[0]] + rest;
        assert(s == seq![s[0]] + s.drop_first());
        assert(s == front + without_lead(s));
        assert forall|i: int| 0 <= i < front.len() implies blank(#[trigger] front[i]) by {
            if i > 0 {
                assert(front[i] == rest[i - 1]);
            }
        }
        front
    } else {
        assert(s == Seq::<char>::empty() + s);
        Seq::empty()
    }
}

proof fn lemma_without_tail(s: Seq<char>) -> (back: Seq<char>)
    ensures
        s == without_tail(s) + back,
        forall|i: int| 0 <= i < back.len() ==> blank(#[trigger] back[i]),
        without_tail(s).len() > 0 ==> !blank(without_tail(s).last()),
    decreases s.len(),
{
    if s.len() > 0 && blank(s.last()) {
        let rest = lemma_without_tail(s.drop_last());
        let back = rest.push(s.last());
        assert(s == s.drop_last().push(s.last()));
        assert(s == without_tail(s) + back);
        back
    } else {
        assert(s == s + Seq::<char>::empty());
        Seq::empty()
    }
}

/// Trimming the end takes whitespace, and nothing else, off the end, until it is
/// not whitespace.
pub proof fn law_trimming_the_end_leaves_the_front(s: Seq<char>)
    ensures
        exists|back: Seq<char>|
            s == #[trigger] (without_tail(s) + back) && forall|i: int|
                0 <= i < back.len() ==> blank(#[trigger] back[i]),
        without_tail(s).len() > 0 ==> !blank(without_tail(s).last()),
{
    let back = lemma_without_tail(s);
    assert(s == without_tail(s) + back);
}

/// `fields` put back together with `sep` between them.
pub open spec fn joined_by(fields: Seq<Seq<char>>, sep: char) -> Seq<char>
    decreases fields.len(),
{
    if fields.len() == 0 {
        Seq::empty()
    } else if fields.len() == 1 {
        fields[0]
    } else {
        fields[0].push(sep) + joined_by(fields.drop_first(), sep)
    }
}

/// Splitting into fields loses nothing: put back together they give the text, and
/// no field holds a separator.
pub proof fn law_fields_put_together_are_the_text(s: Seq<char>, sep: char)
    ensures
        fields(s, sep).len() > 0,
        joined_by(fields(s, sep), sep) == s,
        forall|i: int, j: int|
            0 <= i < fields(s, sep).len() && 0 <= j < fields(s, sep)[i].len()
                ==> #[trigger] fields(s, sep)[i][j] != sep,
    decreases s.len(),
{
    lemma_first_at(s, sep);
    let i = first_at(s, sep) as int;
    let all = fields(s, sep);
    if i < s.len() {
        let rest = s.skip(i + 1);
        law_fields_put_together_are_the_text(rest, sep);
        let more = fields(rest, sep);
        assert(all == seq![s.take(i)] + more);
        assert(all.drop_first() == more);
        assert(all[0] == s.take(i));
        assert(joined_by(all, sep) == s.take(i).push(sep) + rest);
        assert(s == s.take(i).push(sep) + rest);
        assert forall|a: int, b: int| 0 <= a < all.len() && 0 <= b < all[a].len() implies #[trigger] all[a][b]
            != sep by {
            if a > 0 {
                assert(all[a] == more[a - 1]);
                assert(more[a - 1][b] != sep);
            }
        }
    } else {
        assert(all == seq![s]);
        assert forall|a: int, b: int| 0 <= a < all.len() && 0 <= b < all[a].len() implies #[trigger] all[a][b]
            != sep by {
            assert(all[a][b] == s[b]);
        }
    }
}

/// A line ends at a line feed, with or without a carriage return before it; the
/// line itself holds neither. What follows the last line feed is a line unless it
/// is empty.
pub proof fn law_lines_end_at_line_feeds(line: Seq<char>, rest: Seq<char>)
    requires
        forall|i: int| 0 <= i < line.len() ==> #[trigger] line[i] != '\n',
    ensures
        line.len() == 0 || line.last() != '\r' ==> {
            &&& lines(line.push('\n') + rest) == seq![line] + lines(rest)
            &&& lines(line.push('\r').push('\n') + rest) == seq![line] + lines(rest)
        },
        line.len() > 0 ==> lines(line) == seq![line],
        lines(Seq::empty()) == Seq::<Seq<char>>::empty(),
{
    let plain = line.push('\n') + rest;
    lemma_first_is(plain, '\n', line.len() as int);
    assert(plain.take(line.len() as int) == line);
    assert(plain.skip((line.len() + 1) as int) == rest);
    let both = line.push('\r').push('\n') + rest;
    lemma_first_is(both, '\n', (line.len() + 1) as int);
    assert(both.take((line.len() + 1) as int) == line.push('\r'));
    assert(line.push('\r').drop_last() == line);
    assert(both.skip((line.len() + 2) as int) == rest);
    lemma_first_is(line, '\n', line.len() as int);
}

proof fn lemma_first_is(s: Seq<char>, c: char, p: int)
    requires
        0 <= p <= s.len(),
        forall|i: int| 0 <= i < p ==> #[trigger] s[i] != c,
        p < s.len() ==> s[p] == c,
    ensures
        first_at(s, c) == p,
{
    lemma_first_at(s, c);
    let q = first_at(s, c) as int;
    if q < p {
        assert(s[q] != c);
    }
    if p < q {
        assert(s[p] != c);
    }
}

/// Appending a digit to a number makes it ten times as large and adds the digit.
pub proof fn law_a_digit_more_is_ten_times_as_much(s: Seq<char>, d: int)
    requires
        0 <= d < 10,
    ensures
        digits_value(seq![digit(d)]) == Some(d as nat),
        match digits_value(s) {
            Some(n) => digits_value(s.push(digit(d))) == Some((10 * n + d) as nat),
            None => s.len() > 0 ==> digits_value(s.push(digit(d))) is None,
        },
        digit(d) == '0' <==> d == 0,
        digit(d) == '9' <==> d == 9,
{
    let t = s.push(digit(d));
    assert(t.drop_last() == s);
    assert(t.last() == digit(d));
    assert(digits_value(Seq::empty()) is None);
}

/// A number is written with digits only.
pub proof fn law_only_digits_write_a_number(s: Seq<char>)
    ensures
        digits_value(s) is Some <==> s.len() > 0 && forall|i: int|
            0 <= i < s.len() ==> '0' <= #[trigger] s[i] && s[i] <= '9',
    decreases s.len(),
{
    if s.len() > 0 {
        law_only_digits_write_a_number(s.drop_last());
        let t = s.drop_last();
        assert(s.last() == s[s.len() - 1]);
        if digits_value(s) is Some {
            assert forall|i: int| 0 <= i < s.len() implies '0' <= #[trigger] s[i] && s[i] <= '9' by {
                if i < s.len() - 1 {
                    assert(t[i] == s[i]);
                }
            }
        } else if forall|i: int| 0 <= i < s.len() ==> '0' <= #[trigger] s[i] && s[i] <= '9' {
            assert forall|i: int| 0 <= i < t.len() implies '0' <= #[trigger] t[i] && t[i] <= '9' by {
                assert(t[i] == s[i]);
            }
        }
    }
}

/// Writing a number and reading it back gives the number, and it is written
/// without leading zeros.
pub proof fn law_numbers_are_read_back(n: nat)
    ensures
        digits_value(decimal(n)) == Some(n),
        n > 0 ==> decimal(n)[0] != '0',
        n == 0 ==> decimal(n).len() == 1,
        decimal(n).len() > 0,
    decreases n,
{
    if n < 10 {
        law_a_digit_more_is_ten_times_as_much(Seq::empty(), n as int);
    } else {
        law_numbers_are_read_back(n / 10);
        law_a_digit_more_is_ten_times_as_much(decimal(n / 10), (n % 10) as int);
        assert(decimal(n)[0] == decimal(n / 10)[0]);
    }
}

/// Writing an `i32` and reading it back gives the number.
pub proof fn law_signed_numbers_are_read_back(n: i32)
    ensures
        i32_value(signed_decimal(n as int)) == Some(n),
{
    if n < 0 {
        law_numbers_are_read_back((-n) as nat);
        let s = signed_decimal(n as int);
        assert(s.drop_first() == decimal((-n) as nat));
    } else {
        law_numbers_are_read_back(n as nat);
        law_only_digits_write_a_number(decimal(n as nat));
        let s = decimal(n as nat);
        assert('0' <= s[0] && s[0] <= '9');
    }
}

/// A sign in front counts, a minus turns the number round, and what is out of range
/// is no `i32`.
pub proof fn law_a_sign_may_stand_in_front(s: Seq<char>)
    requires
        digits_value(s) is Some,
    ensures
        integer_value(s) == Some(digits_value(s)->0 as int),
        integer_value(seq!['+'] + s) == Some(digits_value(s)->0 as int),
        integer_value(seq!['-'] + s) == Some(-(digits_value(s)->0 as int)),
        i32_value(s) == if digits_value(s)->0 <= 0x7fff_ffff {
            Some(digits_value(s)->0 as i32)
        } else {
            None
        },
        i32_value(seq!['-'] + s) == if digits_value(s)->0 <= 0x8000_0000 {
            Some((-(digits_value(s)->0 as int)) as i32)
        } else {
            None
        },
{
    law_only_digits_write_a_number(s);
    assert('0' <= s[0] && s[0] <= '9');
    assert((seq!['+'] + s).drop_first() == s);
    assert((seq!['-'] + s).drop_first() == s);
}

/// Without digits behind the sign there is no number.
pub proof fn law_nothing_else_is_a_number(s: Seq<char>)
    requires
        digits_value(s) is None,
        s.len() == 0 || (s[0] != '+' && s[0] != '-') || digits_value(s.drop_first()) is None,
    ensures
        i32_value(s) is None,
{
}

/// Lowering is for ASCII capitals: it moves those to the small letters and leaves
/// everything else alone.
pub proof fn law_only_capitals_are_lowered(c: char)
    ensures
        'A' <= c && c <= 'Z' ==> 'a' <= lowered(c) && lowered(c) <= 'z' && lowered(c) as int - 'a' as int
            == c as int - 'A' as int,
        !('A' <= c && c <= 'Z') ==> lowered(c) == c,
        lowered(lowered(c)) == lowered(c),
{
}

/// Vectors of characters stand for the characters they hold.
pub proof fn law_vectors_stand_for_what_they_hold(v: Seq<Vec<char>>, i: int)
    requires
        0 <= i < v.len(),
    ensures
        views(v).len() == v.len(),
        views(v)[i] == v[i]@,
{
}

} // verus!
