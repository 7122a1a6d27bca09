//! Hint label generation and progressive matching.
//!
//! Given an alphabet and a number of targets, [`generate_labels`] produces a set
//! of short strings with two guarantees:
//!
//! 1. **Uniqueness**: no two labels are equal.
//! 2. **Prefix-freedom**: no label is a prefix of another, so the moment the
//!    typed keys equal a label the choice is unambiguous and we can fire
//!    immediately.
//!
//! Labels are kept as short as possible: with a 9-letter alphabet the first 9
//! targets get single keys, more targets get two, and so on.
//!
//! The labels are nodes of the tree of all strings over the alphabet, numbered
//! breadth-first: first the single characters, then the children of the first of
//! them, and so on. Labelling `count` targets skips the nodes that had to be
//! expanded into children and takes the `count` nodes after them.

use vstd::arithmetic::power::*;
use vstd::prelude::*;

use crate::text::{begins, starts_with, to_text};

verus! {

/// String number `j` over `alphabet`, counting breadth-first from 0.
pub open spec fn node(alphabet: Seq<char>, j: nat) -> Seq<char>
    decreases j,
    when alphabet.len() >= 1
    via node_decreases
{
    let n = alphabet.len();
    if j < n {
        seq![alphabet[j as int]]
    } else {
        node(alphabet, parent(n, j)).push(alphabet[(j % n) as int])
    }
}

/// The number of the string that string `j` extends by one character.
pub open spec fn parent(n: nat, j: nat) -> nat {
    (j / n - 1) as nat
}

#[via_fn]
proof fn node_decreases(alphabet: Seq<char>, j: nat) {
    let n = alphabet.len();
    if j >= n {
        lemma_parent(n, j);
    }
}

pub(crate) proof fn lemma_parent(n: nat, j: nat)
    requires
        n >= 1,
        j >= n,
    ensures
        0 <= parent(n, j) < j,
        parent(n, j) == j / n - 1,
        j == n * (parent(n, j) + 1) + j % n,
{
    assert(j / n >= 1 && j / n <= j && j == n * (j / n) + j % n) by (nonlinear_arith)
        requires
            n >= 1,
            j >= n,
    ;
}

/// How many strings have to be expanded before `count` are left to use: the
/// first `n` strings are there from the start, and expanding one uses it up and
/// adds `n` others.
pub open spec fn expanded(n: nat, count: nat) -> nat {
    if count <= n {
        0
    } else {
        ((count - 2) / (n - 1)) as nat
    }
}

/// Label `i` of `count` labels over `alphabet`.
pub open spec fn label_at(alphabet: Seq<char>, count: nat, i: int) -> Seq<char> {
    node(alphabet, (expanded(alphabet.len(), count) + i) as nat)
}

/// The labels for `count` targets, in order.
pub open spec fn labels_for(alphabet: Seq<char>, count: nat) -> Seq<Seq<char>> {
    Seq::new(count, |i: int| label_at(alphabet, count, i))
}

/// The character sequences that the strings of `v` hold.
pub open spec fn texts(v: Seq<String>) -> Seq<Seq<char>> {
    v.map_values(|s: String| s@)
}

/// `expanded` is the least number of expansions that leaves enough strings.
proof fn lemma_expanded(n: nat, count: nat, k: nat)
    requires
        n >= 2,
        n + k * (n - 1) >= count,
        k > 0 ==> n + (k - 1) * (n - 1) < count,
    ensures
        k == expanded(n, count),
{
    if count <= n {
        if k > 0 {
            assert((k - 1) * (n - 1) >= 0) by (nonlinear_arith)
                requires
                    k >= 1,
                    n >= 2,
            ;
        }
    } else {
        let m = n - 1;
        let c = count - 2;
        // m * k <= c < m * (k + 1)
        assert(m * k == (k - 1) * m + m) by (nonlinear_arith);
        assert(m * (k + 1) == k * m + m) by (nonlinear_arith);
        if k == 0 {
            assert(0 * m == 0);
            assert(false);
        }
        assert(c / m == k) by (nonlinear_arith)
            requires
                m >= 1,
                m * k <= c,
                c < m * (k + 1),
                c >= 0,
        ;
    }
}

/// What `expanded` says: there are enough strings, and one expansion less would
/// not have been enough.
pub(crate) proof fn lemma_enough(n: nat, count: nat)
    requires
        n >= 2,
    ensures
        ({
            let k = expanded(n, count);
            &&& n + k * (n - 1) >= count
            &&& k > 0 ==> n + (k - 1) * (n - 1) < count
            &&& forall|i: int| 0 <= i < count ==> #[trigger] (k + i) < n * (k + 1)
        }),
{
    let k = expanded(n, count);
    if count <= n {
        assert(k * (n - 1) == 0) by (nonlinear_arith)
            requires
                k == 0,
        ;
        assert(n * (k + 1) == n) by (nonlinear_arith)
            requires
                k == 0,
        ;
    } else {
        let m = (n - 1) as int;
        let c = (count - 2) as int;
        assert(k == c / m);
        assert(m * k <= c && c < m * k + m) by (nonlinear_arith)
            requires
                m >= 1,
                c >= 0,
                k == c / m,
        ;
        assert(k * m == m * k) by (nonlinear_arith);
        assert((k - 1) * m == m * k - m) by (nonlinear_arith);
        assert(n * (k + 1) == m * k + m + k + 1) by (nonlinear_arith)
            requires
                m == n - 1,
        ;
    }
}

/// Generate `count` prefix-free labels from `alphabet`, shortest first.
///
/// The algorithm grows a frontier of candidate strings breadth-first. Starting
/// from the single characters, it repeatedly takes the first candidate and
/// expands it into `alphabet.len()` children, until enough leaves remain to
/// label every target. Because a string is only ever used *or* expanded (never
/// both), the result is prefix-free by construction.
pub fn generate_labels(alphabet: &[char], count: usize) -> (r: Vec<String>)
    requires
        alphabet@.len() >= 2,
    ensures
        texts(r@) == labels_for(alphabet@, count as nat),
        r@.len() == count,
{
    let n = alphabet.len();
    if count == 0 {
        let r: Vec<String> = Vec::new();
        assert(texts(r@) == labels_for(alphabet@, 0));
        return r;
    }
    // Frontier of candidate labels, in assignment order.
    let mut frontier: Vec<Vec<char>> = Vec::new();
    let mut i: usize = 0;
    while i < n
        invariant
            n == alphabet@.len(),
            n >= 2,
            i <= n,
            frontier@.len() == i,
            forall|j: int| 0 <= j < i ==> (#[trigger] frontier@[j])@ == node(alphabet@, j as nat),
        decreases n - i,
    {
        let mut single: Vec<char> = Vec::new();
        single.push(alphabet[i]);
        assert(single@ == node(alphabet@, i as nat));
        frontier.push(single);
        i += 1;
    }
    // Index of the next candidate to expand.
    let mut expand_at: usize = 0;
    assert(expand_at * (n - 1) == 0) by (nonlinear_arith)
        requires
            expand_at == 0,
    ;
    assert(n * (expand_at + 1) == n) by (nonlinear_arith)
        requires
            expand_at == 0,
    ;
    // Expand until the number of *available* leaves (frontier minus the ones
    // consumed by expanding) is at least `count`.
    while frontier.len() - expand_at < count
        invariant
            n == alphabet@.len(),
            n >= 2,
            expand_at < frontier@.len(),
            frontier@.len() == n * (expand_at + 1),
            frontier@.len() - expand_at == n + expand_at * (n - 1),
            expand_at > 0 ==> n + (expand_at - 1) * (n - 1) < count,
            forall|j: int|
                0 <= j < frontier@.len() ==> (#[trigger] frontier@[j])@ == node(
                    alphabet@,
                    j as nat,
                ),
        decreases
            (if frontier@.len() - expand_at < count {
                count - (frontier@.len() - expand_at)
            } else {
                0
            }),
    {
        let parent_label = frontier[expand_at].clone();
        assert(parent_label@ == frontier@[expand_at as int]@);
        let ghost base = frontier@.len();
        let mut c: usize = 0;
        while c < n
            invariant
                n == alphabet@.len(),
                n >= 2,
                c <= n,
                expand_at < base,
                base == n * (expand_at + 1),
                frontier@.len() == base + c,
                parent_label@ == node(alphabet@, expand_at as nat),
                forall|j: int|
                    0 <= j < frontier@.len() ==> (#[trigger] frontier@[j])@ == node(
                        alphabet@,
                        j as nat,
                    ),
            decreases n - c,
        {
            let mut child = parent_label.clone();
            assert(child@ == parent_label@);
            child.push(alphabet[c]);
            let ghost j = (base + c) as nat;
            assert(j / n as nat == expand_at + 1 && j % n as nat == c && j >= n) by (nonlinear_arith)
                requires
                    j == n * (expand_at + 1) + c,
                    0 <= c < n,
                    expand_at >= 0,
            ;
            assert(child@ == node(alphabet@, j));
            frontier.push(child);
            c += 1;
        }
        assert(frontier@.len() == n * (expand_at + 2)) by (nonlinear_arith)
            requires
                frontier@.len() == n * (expand_at + 1) + n,
        ;
        assert(n * (expand_at + 2) - (expand_at + 1) == n + (expand_at + 1) * (n - 1))
            by (nonlinear_arith);
        assert(n + (expand_at + 1) * (n - 1) == (n + expand_at * (n - 1)) + (n - 1))
            by (nonlinear_arith);
        expand_at += 1;
    }
    proof {
        lemma_expanded(n as nat, count as nat, expand_at as nat);
    }
    let mut r: Vec<String> = Vec::new();
    let mut t: usize = 0;
    let total = frontier.len();
    while t < count
        invariant
            t <= count,
            total == frontier@.len(),
            count <= total - expand_at,
            r@.len() == t,
            expand_at == expanded(alphabet@.len(), count as nat),
            forall|j: int|
                0 <= j < frontier@.len() ==> (#[trigger] frontier@[j])@ == node(
                    alphabet@,
                    j as nat,
                ),
            forall|j: int|
                0 <= j < t ==> (#[trigger] r@[j])@ == label_at(alphabet@, count as nat, j),
        decreases count - t,
    {
        r.push(to_text(&frontier[expand_at + t]));
        t += 1;
    }
    assert(texts(r@) == labels_for(alphabet@, count as nat));
    r
}

/// The result of feeding one keystroke to a [`HintMatcher`].
#[derive(Debug, Clone, PartialEq, Eq, Structural)]
pub enum MatchState {
    /// Exactly one label equals the typed sequence: its index is the target.
    Selected(usize),
    /// Several labels still start with the typed sequence; keep typing.
    Pending,
    /// No label starts with the typed sequence: the input was a dead end.
    NoMatch,
}

/// Some label starts with `typed`.
pub open spec fn alive(labels: Seq<Seq<char>>, typed: Seq<char>) -> bool {
    exists|i: int| 0 <= i < labels.len() && begins(#[trigger] labels[i], typed)
}

/// Label `i` is the first one that equals `typed`.
pub open spec fn first_equal(labels: Seq<Seq<char>>, typed: Seq<char>, i: int) -> bool {
    &&& 0 <= i < labels.len()
    &&& labels[i] == typed
    &&& forall|j: int| 0 <= j < i ==> #[trigger] labels[j] != typed
}

/// What typing `c` after `typed` leads to: `state`, with `after` typed.
pub open spec fn typing_step(
    labels: Seq<Seq<char>>,
    typed: Seq<char>,
    c: char,
    after: Seq<char>,
    state: MatchState,
) -> bool {
    if !alive(labels, typed.push(c)) {
        // A dead end: the key is not consumed.
        state is NoMatch && after == typed
    } else {
        &&& after == typed.push(c)
        &&& match state {
            MatchState::Selected(i) => first_equal(labels, after, i as int),
            MatchState::Pending => forall|i: int|
                0 <= i < labels.len() ==> #[trigger] labels[i] != after,
            MatchState::NoMatch => false,
        }
    }
}

/// Tracks the keys typed so far and reports which hints still match.
#[derive(Debug, Clone)]
pub struct HintMatcher {
    labels: Vec<String>,
    typed: String,
}

impl HintMatcher {
    /// The labels, in order.
    pub closed spec fn names(&self) -> Seq<Seq<char>> {
        texts(self.labels@)
    }

    /// The keys typed so far.
    pub closed spec fn keys(&self) -> Seq<char> {
        self.typed@
    }

    pub fn new(labels: Vec<String>) -> (m: Self)
        ensures
            m.names() == texts(labels@),
            m.keys() == Seq::<char>::empty(),
    {
        HintMatcher { labels, typed: String::new() }
    }

    pub fn typed(&self) -> (s: &str)
        ensures
            s@ == self.keys(),
    {
        self.typed.as_str()
    }

    pub fn labels(&self) -> (v: &[String])
        ensures
            texts(v@) == self.names(),
    {
        self.labels.as_slice()
    }

    /// Indices of the hints still consistent with what's been typed.
    pub fn candidates(&self) -> (r: Vec<usize>)
        ensures
            forall|i: int, j: int| 0 <= i < j < r@.len() ==> r@[i] < r@[j],
            forall|i: int|
                0 <= i < r@.len() ==> (#[trigger] r@[i]) < self.names().len() && begins(
                    self.names()[r@[i] as int],
                    self.keys(),
                ),
            forall|k: int|
                0 <= k < self.names().len() && begins(#[trigger] self.names()[k], self.keys())
                    ==> r@.contains(k as usize),
    {
        let mut r: Vec<usize> = Vec::new();
        let mut k: usize = 0;
        while k < self.labels.len()
            invariant
                k <= self.labels@.len(),
                forall|i: int, j: int| 0 <= i < j < r@.len() ==> r@[i] < r@[j],
                forall|i: int|
                    0 <= i < r@.len() ==> (#[trigger] r@[i]) < k && begins(
                        self.names()[r@[i] as int],
                        self.keys(),
                    ),
                forall|q: int|
                    0 <= q < k && begins(#[trigger] self.names()[q], self.keys()) ==> r@.contains(
                        q as usize,
                    ),
            decreases self.labels@.len() - k,
        {
            let ghost before = r@;
            assert(self.names()[k as int] == self.labels@[k as int]@);
            if starts_with(self.labels[k].as_str(), self.typed.as_str()) {
                r.push(k);
                assert(r@[before.len() as int] == k);
                assert forall|q: int|
                    0 <= q < k + 1 && begins(
                        #[trigger] self.names()[q],
                        self.keys(),
                    ) implies r@.contains(q as usize) by {
                    if q < k {
                        let w = choose|w: int| 0 <= w < before.len() && before[w] == q as usize;
                        assert(r@[w] == q as usize);
                    }
                }
            }
            k += 1;
        }
        r
    }

    /// Feed one character. Returns the resulting [`MatchState`]; on `NoMatch`
    /// the character is *not* appended, so the caller can beep and let the user
    /// continue from the previous valid prefix.
    pub fn push(&mut self, c: char) -> (state: MatchState)
        ensures
            final(self).names() == old(self).names(),
            typing_step(old(self).names(), old(self).keys(), c, final(self).keys(), state),
    {
        let mut candidate = self.typed.clone();
        candidate.push(c);
        let ghost typed = candidate@;
        let ghost names = self.names();
        let mut any = false;
        let mut equal: Option<usize> = None;
        let mut k: usize = 0;
        while k < self.labels.len()
            invariant
                k <= self.labels@.len(),
                names == texts(self.labels@),
                *self == *old(self),
                typed == candidate@,
                any ==> alive(names, typed),
                !any ==> forall|i: int| 0 <= i < k ==> !begins(#[trigger] names[i], typed),
                match equal {
                    Some(i) => any && i < k && first_equal(names, typed, i as int),
                    None => forall|i: int| 0 <= i < k ==> #[trigger] names[i] != typed,
                },
            decreases self.labels@.len() - k,
        {
            assert(names[k as int] == self.labels@[k as int]@);
            if starts_with(self.labels[k].as_str(), candidate.as_str()) {
                any = true;
                if equal.is_none() && self.labels[k] == candidate {
                    equal = Some(k);
                }
            } else {
                assert(names[k as int] != typed) by {
                    if names[k as int] == typed {
                        assert(typed.take(typed.len() as int) == typed);
                    }
                }
            }
            k += 1;
        }
        if !any {
            return MatchState::NoMatch;
        }
        self.typed = candidate;
        match equal {
            Some(i) => MatchState::Selected(i),
            None => MatchState::Pending,
        }
    }

    /// Remove the last typed character (backspace).
    pub fn pop(&mut self)
        ensures
            final(self).names() == old(self).names(),
            old(self).keys().len() > 0 ==> final(self).keys() == old(self).keys().drop_last(),
            old(self).keys().len() == 0 ==> final(self).keys() == old(self).keys(),
    {
        let _ = self.typed.pop();
    }
}

// --- Laws -----------------------------------------------------------------

/// No two characters of the alphabet are equal.
pub open spec fn distinct(alphabet: Seq<char>) -> bool {
    forall|i: int, j: int|
        0 <= i < j < alphabet.len() ==> #[trigger] alphabet[i] != #[trigger] alphabet[j]
}

/// No label is a prefix of another one.
pub open spec fn prefix_free(labels: Seq<Seq<char>>) -> bool {
    forall|i: int, j: int|
        0 <= i < labels.len() && 0 <= j < labels.len() && i != j ==> !begins(
            #[trigger] labels[j],
            #[trigger] labels[i],
        )
}

pub(crate) proof fn lemma_node_len(alphabet: Seq<char>, i: nat, j: nat)
    requires
        alphabet.len() >= 1,
        i <= j,
    ensures
        1 <= node(alphabet, i).len() <= node(alphabet, j).len(),
    decreases j,
{
    let n = alphabet.len();
    if i >= n {
        lemma_parent(n, i);
        lemma_parent(n, j);
        assert(i / n <= j / n) by (nonlinear_arith)
            requires
                i <= j,
                n >= 1,
        ;
        lemma_node_len(alphabet, parent(n, i), parent(n, j));
    } else if j >= n {
        lemma_parent(n, j);
        lemma_node_len(alphabet, 0, parent(n, j));
    }
}

/// Equal strings have equal numbers.
proof fn lemma_node_injective(alphabet: Seq<char>, i: nat, j: nat)
    requires
        alphabet.len() >= 1,
        distinct(alphabet),
        node(alphabet, i) == node(alphabet, j),
    ensures
        i == j,
    decreases j,
{
    let n = alphabet.len();
    if i < n && j < n {
        assert(node(alphabet, i)[0] == alphabet[i as int]);
        assert(node(alphabet, j)[0] == alphabet[j as int]);
    } else if i < n {
        lemma_parent(n, j);
        lemma_node_len(alphabet, 0, parent(n, j));
        assert(node(alphabet, i).len() == 1);
        assert(node(alphabet, j).len() >= 2);
    } else if j < n {
        lemma_parent(n, i);
        lemma_node_len(alphabet, 0, parent(n, i));
        assert(node(alphabet, j).len() == 1);
        assert(node(alphabet, i).len() >= 2);
    } else {
        lemma_parent(n, i);
        lemma_parent(n, j);
        assert(node(alphabet, i).drop_last() == node(alphabet, parent(n, i)));
        assert(node(alphabet, j).drop_last() == node(alphabet, parent(n, j)));
        assert(node(alphabet, i).last() == alphabet[(i % n) as int]);
        assert(node(alphabet, j).last() == alphabet[(j % n) as int]);
        lemma_node_injective(alphabet, parent(n, i), parent(n, j));
    }
}

/// A string that starts string `j` is string `j` itself or is no later than the
/// string that `j` extends.
proof fn lemma_prefix_is_ancestor(alphabet: Seq<char>, i: nat, j: nat)
    requires
        alphabet.len() >= 1,
        distinct(alphabet),
        begins(node(alphabet, j), node(alphabet, i)),
    ensures
        i == j || (j >= alphabet.len() && i <= parent(alphabet.len(), j)),
    decreases j,
{
    let n = alphabet.len();
    let a = node(alphabet, i);
    let b = node(alphabet, j);
    lemma_node_len(alphabet, 0, i);
    if a.len() == b.len() {
        assert(b.take(a.len() as int) == b);
        lemma_node_injective(alphabet, i, j);
    } else {
        assert(j >= n);
        lemma_parent(n, j);
        let p = parent(n, j);
        let c = node(alphabet, p);
        assert(b == c.push(alphabet[(j % n) as int]));
        assert(c.take(a.len() as int) == b.take(a.len() as int));
        lemma_prefix_is_ancestor(alphabet, i, p);
        if i != p {
            lemma_parent(n, p);
        }
    }
}

/// No generated label is a prefix of another: the instant the typed keys equal a
/// label, the choice is unambiguous.
pub proof fn law_labels_are_prefix_free(alphabet: Seq<char>, count: nat)
    requires
        alphabet.len() >= 2,
        distinct(alphabet),
    ensures
        prefix_free(labels_for(alphabet, count)),
{
    let n = alphabet.len();
    let k = expanded(n, count);
    let labels = labels_for(alphabet, count);
    lemma_enough(n, count);
    assert forall|i: int, j: int|
        0 <= i < labels.len() && 0 <= j < labels.len() && i != j implies !begins(
        #[trigger] labels[j],
        #[trigger] labels[i],
    ) by {
        if begins(labels[j], labels[i]) {
            let x = (k + i) as nat;
            let y = (k + j) as nat;
            lemma_prefix_is_ancestor(alphabet, x, y);
            lemma_parent(n, y);
            assert(k + j < n * (k + 1));
            assert(y / n < k + 1) by (nonlinear_arith)
                requires
                    y < n * (k + 1),
                    n >= 1,
            ;
            assert(false);
        }
    }
}

/// No two generated labels are equal.
pub proof fn law_labels_are_unique(alphabet: Seq<char>, count: nat, i: int, j: int)
    requires
        alphabet.len() >= 2,
        distinct(alphabet),
        0 <= i < count,
        0 <= j < count,
        i != j,
    ensures
        labels_for(alphabet, count)[i] != labels_for(alphabet, count)[j],
{
    lemma_node_injective_contra(
        alphabet,
        (expanded(alphabet.len(), count) + i) as nat,
        (expanded(alphabet.len(), count) + j) as nat,
    );
}

proof fn lemma_node_injective_contra(alphabet: Seq<char>, i: nat, j: nat)
    requires
        alphabet.len() >= 1,
        distinct(alphabet),
        i != j,
    ensures
        node(alphabet, i) != node(alphabet, j),
{
    if node(alphabet, i) == node(alphabet, j) {
        lemma_node_injective(alphabet, i, j);
    }
}

/// Labels come shortest first, and the longest is at most one character longer
/// than the shortest.
pub proof fn law_labels_come_shortest_first(alphabet: Seq<char>, count: nat, i: int, j: int)
    requires
        alphabet.len() >= 2,
        0 <= i <= j < count,
    ensures
        1 <= labels_for(alphabet, count)[i].len(),
        labels_for(alphabet, count)[i].len() <= labels_for(alphabet, count)[j].len(),
        labels_for(alphabet, count)[j].len() <= labels_for(alphabet, count)[i].len() + 1,
{
    let n = alphabet.len();
    let k = expanded(n, count);
    let x = (k + i) as nat;
    let y = (k + j) as nat;
    lemma_node_len(alphabet, x, y);
    lemma_enough(n, count);
    if y >= n {
        lemma_parent(n, y);
        assert(k + j < n * (k + 1));
        assert(y / n < k + 1) by (nonlinear_arith)
            requires
                y < n * (k + 1),
                n >= 1,
        ;
        lemma_node_len(alphabet, parent(n, y), x);
    }
}

/// With no more targets than letters, each target gets a single key: its letter.
pub proof fn law_few_targets_get_single_keys(alphabet: Seq<char>, count: nat, i: int)
    requires
        alphabet.len() >= 2,
        count <= alphabet.len(),
        0 <= i < count,
    ensures
        labels_for(alphabet, count)[i] == seq![alphabet[i]],
{
}

/// How many strings over `n` letters have at most `l` characters.
pub(crate) open spec fn strings_up_to(n: nat, l: nat) -> nat
    decreases l,
{
    if l == 0 {
        0
    } else {
        n * (strings_up_to(n, (l - 1) as nat) + 1)
    }
}

pub(crate) proof fn lemma_strings_up_to(n: nat, l: nat)
    requires
        n >= 2,
    ensures
        n + strings_up_to(n, l) * (n - 1) == pow(n as int, l + 1),
    decreases l,
{
    reveal(pow);
    if l == 0 {
        assert(pow(n as int, 1) == n * pow(n as int, 0));
        assert(n * 1 == n) by (nonlinear_arith);
        assert(0 * (n - 1) == 0);
    } else {
        let s = strings_up_to(n, (l - 1) as nat);
        lemma_strings_up_to(n, (l - 1) as nat);
        assert(pow(n as int, l + 1) == n * pow(n as int, l));
        assert(n + (n * (s + 1)) * (n - 1) == n * (n + s * (n - 1))) by (nonlinear_arith);
    }
}

pub(crate) proof fn lemma_node_len_bound(alphabet: Seq<char>, j: nat, l: nat)
    requires
        alphabet.len() >= 2,
        j < strings_up_to(alphabet.len(), l),
    ensures
        node(alphabet, j).len() <= l,
    decreases l,
{
    let n = alphabet.len();
    if l > 0 && j >= n {
        lemma_parent(n, j);
        let s = strings_up_to(n, (l - 1) as nat);
        assert(j / n < s + 1) by (nonlinear_arith)
            requires
                j < n * (s + 1),
                n >= 1,
        ;
        lemma_node_len_bound(alphabet, parent(n, j), (l - 1) as nat);
        if l == 1 {
            assert(s == 0);
        }
    }
}

/// Labels are as short as the number of targets allows: as long as there are at
/// least as many strings of `l` letters as targets, no label is longer than `l`.
pub proof fn law_labels_are_short(alphabet: Seq<char>, count: nat, l: nat, i: int)
    requires
        alphabet.len() >= 2,
        l >= 1,
        count <= pow(alphabet.len() as int, l),
        0 <= i < count,
    ensures
        labels_for(alphabet, count)[i].len() <= l,
{
    let n = alphabet.len();
    let k = expanded(n, count);
    lemma_enough(n, count);
    let s = strings_up_to(n, (l - 1) as nat);
    lemma_strings_up_to(n, (l - 1) as nat);
    assert(n + s * (n - 1) == pow(n as int, l));
    if k > s {
        assert((k - 1) * (n - 1) >= s * (n - 1)) by (nonlinear_arith)
            requires
                k - 1 >= s,
                n >= 2,
        ;
        assert(false);
    }
    assert(n * (k + 1) <= n * (s + 1)) by (nonlinear_arith)
        requires
            k <= s,
    ;
    assert(k + i < n * (k + 1));
    lemma_node_len_bound(alphabet, (k + i) as nat, l);
}

/// Typing a label of a prefix-free set, key by key, selects exactly that label:
/// every key before the last leaves the choice pending, and the last one selects.
pub proof fn law_typing_a_label_selects_it(
    labels: Seq<Seq<char>>,
    i: int,
    k: int,
    after: Seq<char>,
    state: MatchState,
)
    requires
        prefix_free(labels),
        0 <= i < labels.len(),
        0 < k <= labels[i].len(),
        typing_step(labels, labels[i].take(k - 1), labels[i][k - 1], after, state),
    ensures
        after == labels[i].take(k),
        k < labels[i].len() ==> state is Pending,
        k == labels[i].len() ==> state == MatchState::Selected(i as usize),
{
    let l = labels[i];
    let prefix = l.take(k);
    assert(l.take(k - 1).push(l[k - 1]) == prefix);
    assert(begins(labels[i], prefix)) by {
        assert(l.take(prefix.len() as int) == prefix);
    }
    assert(alive(labels, prefix));
    if let MatchState::Selected(j) = state {
        assert(labels[j as int] == prefix);
        if j as int != i {
            assert(begins(labels[i], labels[j as int]));
            assert(false);
        }
        assert(l == prefix);
    } else if k == l.len() {
        assert(prefix == l);
    }
}

/// Whatever is typed, the typed keys stay a prefix of some label (or nothing is
/// typed at all): a dead-end key strands nobody.
pub proof fn law_typed_keys_stay_alive(
    labels: Seq<Seq<char>>,
    typed: Seq<char>,
    c: char,
    after: Seq<char>,
    state: MatchState,
)
    requires
        typed.len() == 0 || alive(labels, typed),
        typing_step(labels, typed, c, after, state),
    ensures
        after.len() == 0 || alive(labels, after),
{
}

/// Backspace undoes a key that was taken.
pub proof fn law_backspace_undoes_a_key(
    labels: Seq<Seq<char>>,
    typed: Seq<char>,
    c: char,
    after: Seq<char>,
    state: MatchState,
)
    requires
        typing_step(labels, typed, c, after, state),
        state !is NoMatch,
    ensures
        after.len() > 0,
        after.drop_last() == typed,
{
}

/// A key is taken exactly if some label goes on with it; then it is the last of what
/// has been typed, and the choice is made exactly if what has been typed is a label,
/// the first one if there are several. A key that is not taken leaves everything as
/// it was.
pub proof fn law_keys_are_taken_while_a_label_goes_on(
    labels: Seq<Seq<char>>,
    typed: Seq<char>,
    c: char,
    after: Seq<char>,
    state: MatchState,
)
    requires
        typing_step(labels, typed, c, after, state),
    ensures
        state is NoMatch <==> forall|i: int, rest: Seq<char>|
            0 <= i < labels.len() ==> #[trigger] labels[i] != #[trigger] (typed.push(c) + rest),
        state is NoMatch ==> after == typed,
        state !is NoMatch ==> after == typed.push(c),
        state is Selected <==> labels.contains(typed.push(c)),
        state matches MatchState::Selected(i) ==> i < labels.len() && labels[i as int] == typed.push(c)
            && forall|j: int| 0 <= j < i ==> #[trigger] labels[j] != typed.push(c),
{
    let longer = typed.push(c);
    if alive(labels, longer) {
        let i = choose|i: int| 0 <= i < labels.len() && begins(#[trigger] labels[i], longer);
        crate::text::law_a_prefix_leaves_a_rest(labels[i], longer);
        let rest = choose|rest: Seq<char>| labels[i] == #[trigger] (longer + rest);
        assert(labels[i] == (typed.push(c) + rest));
    } else {
        assert forall|i: int, rest: Seq<char>| 0 <= i < labels.len() implies #[trigger] labels[i]
            != #[trigger] (typed.push(c) + rest) by {
            if labels[i] == typed.push(c) + rest {
                assert((longer + rest).take(longer.len() as int) == longer);
                assert(begins(labels[i], longer));
            }
        }
    }
    if labels.contains(longer) {
        let i = choose|i: int| 0 <= i < labels.len() && labels[i] == longer;
        assert(labels[i].take(longer.len() as int) == longer);
        assert(begins(labels[i], longer));
        assert(alive(labels, longer));
        assert(labels[i] == after);
    }
}

/// Labels of the same length come in the order of the alphabet: where two of them
/// first differ, the earlier one has the earlier letter.
pub proof fn law_labels_come_in_the_order_of_the_alphabet(
    alphabet: Seq<char>,
    count: nat,
    i: int,
    j: int,
)
    requires
        alphabet.len() >= 2,
        0 <= i < j < count,
        labels_for(alphabet, count)[i].len() == labels_for(alphabet, count)[j].len(),
    ensures
        precedes(alphabet, labels_for(alphabet, count)[i], labels_for(alphabet, count)[j]),
{
    let k = expanded(alphabet.len(), count);
    lemma_nodes_in_order(alphabet, (k + i) as nat, (k + j) as nat);
}

/// Where `s` and `t` first differ, `s` has the earlier letter of the alphabet.
pub open spec fn precedes(alphabet: Seq<char>, s: Seq<char>, t: Seq<char>) -> bool {
    exists|p: int, a: int, b: int|
        0 <= p < s.len() && p < t.len() && #[trigger] s.take(p) == t.take(p) && 0 <= a < b
            < alphabet.len() && s[p] == #[trigger] alphabet[a] && t[p] == #[trigger] alphabet[b]
}

proof fn lemma_nodes_in_order(alphabet: Seq<char>, i: nat, j: nat)
    requires
        alphabet.len() >= 2,
        i < j,
        node(alphabet, i).len() == node(alphabet, j).len(),
    ensures
        precedes(alphabet, node(alphabet, i), node(alphabet, j)),
    decreases j,
{
    let n = alphabet.len();
    let s = node(alphabet, i);
    let t = node(alphabet, j);
    if j < n {
        assert(s.take(0) == t.take(0));
        assert(s[0] == alphabet[i as int] && t[0] == alphabet[j as int]);
    } else {
        lemma_parent(n, j);
        lemma_node_len(alphabet, 0, parent(n, j));
        assert(i >= n);
        lemma_parent(n, i);
        let p = parent(n, i);
        let q = parent(n, j);
        let a = node(alphabet, p);
        let b = node(alphabet, q);
        assert(p <= q) by (nonlinear_arith)
            requires
                i == n * (p + 1) + i % n,
                j == n * (q + 1) + j % n,
                i < j,
                0 <= i % n < n,
                0 <= j % n < n,
                n >= 1,
        ;
        if p == q {
            let l = a.len() as int;
            assert(s.take(l) == a && t.take(l) == a);
            assert(s.take(l) == t.take(l));
            assert(s[l] == alphabet[(i % n) as int] && t[l] == alphabet[(j % n) as int]);
            assert(0 <= i % n && j % n < n) by (nonlinear_arith)
                requires
                    n >= 1,
            ;
        } else {
            lemma_nodes_in_order(alphabet, p, q);
            let (x, c, d) = choose|x: int, c: int, d: int|
                0 <= x < a.len() && x < b.len() && #[trigger] a.take(x) == b.take(x) && 0 <= c < d
                    < alphabet.len() && a[x] == #[trigger] alphabet[c] && b[x] == #[trigger] alphabet[d];
            assert(s.take(x) == a.take(x) && t.take(x) == b.take(x));
            assert(s[x] == alphabet[c] && t[x] == alphabet[d]);
            assert(s.take(x) == t.take(x));
        }
    }
}

/// Strings stand for the characters they hold.
pub proof fn law_strings_stand_for_what_they_hold(v: Seq<String>, i: int)
    requires
        0 <= i < v.len(),
    ensures
        texts(v).len() == v.len(),
        texts(v)[i] == v[i]@,
{
}

} // verus!
