//! Labels are kept as short as possible.
//!
//! The generated labels need no more keystrokes, all together, than any other set
//! of labels that could be told apart while typing. The proof weighs a label by the
//! share of all long strings that start with it: prefix-free labels have disjoint
//! shares, so their weights add up to at most one, and among the lengths that
//! satisfy this, those that differ by at most one have the least sum.

use vstd::arithmetic::power::*;
use vstd::prelude::*;

use super::label::{
    expanded, label_at, labels_for, law_labels_are_short, lemma_enough, lemma_node_len,
    lemma_node_len_bound, lemma_parent, lemma_strings_up_to, node, parent, prefix_free,
    strings_up_to,
};
use crate::text::begins;

verus! {

/// How many characters the strings of `codes` have, all together.
pub open spec fn total_len(codes: Seq<Seq<char>>) -> int
    decreases codes.len(),
{
    if codes.len() == 0 {
        0
    } else {
        total_len(codes.drop_last()) + codes.last().len()
    }
}

/// Every character of every string of `codes` is one of `alphabet`.
pub open spec fn spelled(codes: Seq<Seq<char>>, alphabet: Seq<char>) -> bool {
    forall|i: int, j: int|
        0 <= i < codes.len() && 0 <= j < codes[i].len() ==> alphabet.contains(
            #[trigger] codes[i][j],
        )
}

/// No string of `codes` is longer than `m`.
spec fn bounded(codes: Seq<Seq<char>>, m: nat) -> bool {
    forall|i: int| 0 <= i < codes.len() ==> (#[trigger] codes[i]).len() <= m
}

/// How many strings of length `m` over `n` letters start with a string of `codes`,
/// counted for each.
spec fn weight(n: int, codes: Seq<Seq<char>>, m: nat) -> int
    decreases codes.len(),
{
    if codes.len() == 0 {
        0
    } else {
        weight(n, codes.drop_last(), m) + pow(n, (m - codes.last().len()) as nat)
    }
}

/// The same, for those strings of `codes` that start with one of `letters`.
spec fn weight_in(n: int, codes: Seq<Seq<char>>, m: nat, letters: Seq<char>) -> int
    decreases codes.len(),
{
    if codes.len() == 0 {
        0
    } else {
        weight_in(n, codes.drop_last(), m, letters) + if letters.contains(codes.last()[0]) {
            pow(n, (m - codes.last().len()) as nat)
        } else {
            0
        }
    }
}

/// What follows the letter `a` in the strings of `codes` that start with it.
spec fn tails(codes: Seq<Seq<char>>, a: char) -> Seq<Seq<char>>
    decreases codes.len(),
{
    if codes.len() == 0 {
        Seq::empty()
    } else if codes.last().len() > 0 && codes.last()[0] == a {
        tails(codes.drop_last(), a).push(codes.last().drop_first())
    } else {
        tails(codes.drop_last(), a)
    }
}

/// Where a tail comes from.
proof fn lemma_tail_of(codes: Seq<Seq<char>>, a: char, t: int)
    requires
        0 <= t < tails(codes, a).len(),
    ensures
        exists|i: int|
            0 <= i < codes.len() && (#[trigger] codes[i]) == seq![a] + tails(codes, a)[t],
    decreases codes.len(),
{
    let rest = codes.drop_last();
    let last = codes.last();
    if last.len() > 0 && last[0] == a && t == tails(rest, a).len() {
        assert(seq![a] + last.drop_first() == last);
        assert(codes[codes.len() - 1] == seq![a] + tails(codes, a)[t]);
    } else {
        lemma_tail_of(rest, a, t);
        let i = choose|i: int| 0 <= i < rest.len() && (#[trigger] rest[i]) == seq![a] + tails(rest, a)[t];
        assert(codes[i] == seq![a] + tails(codes, a)[t]);
    }
}

/// A letter in front of both does not change whether one starts the other.
proof fn lemma_begins_behind(a: char, s: Seq<char>, p: Seq<char>)
    requires
        begins(s, p),
    ensures
        begins(seq![a] + s, seq![a] + p),
{
    assert((seq![a] + s).take((seq![a] + p).len() as int) == seq![a] + s.take(p.len() as int));
}

/// The tails of a prefix-free list are a prefix-free list of shorter strings.
proof fn lemma_tails(codes: Seq<Seq<char>>, alphabet: Seq<char>, a: char, m: nat)
    requires
        prefix_free(codes),
        spelled(codes, alphabet),
        bounded(codes, m),
        m > 0,
    ensures
        prefix_free(tails(codes, a)),
        spelled(tails(codes, a), alphabet),
        bounded(tails(codes, a), (m - 1) as nat),
    decreases codes.len(),
{
    let all = tails(codes, a);
    assert forall|i: int, j: int| 0 <= i < all.len() && 0 <= j < all[i].len() implies alphabet.contains(
        #[trigger] all[i][j],
    ) by {
        lemma_tail_of(codes, a, i);
        let k = choose|k: int| 0 <= k < codes.len() && (#[trigger] codes[k]) == seq![a] + all[i];
        assert(codes[k][j + 1] == all[i][j]);
    }
    assert forall|i: int| 0 <= i < all.len() implies (#[trigger] all[i]).len() <= m - 1 by {
        lemma_tail_of(codes, a, i);
        let k = choose|k: int| 0 <= k < codes.len() && (#[trigger] codes[k]) == seq![a] + all[i];
        assert(codes[k].len() == all[i].len() + 1);
    }
    if codes.len() > 0 {
        let rest = codes.drop_last();
        let last = codes.last();
        assert(prefix_free(rest)) by {
            assert forall|i: int, j: int|
                0 <= i < rest.len() && 0 <= j < rest.len() && i != j implies !begins(
                #[trigger] rest[j],
                #[trigger] rest[i],
            ) by {
                assert(rest[i] == codes[i] && rest[j] == codes[j]);
            }
        }
        assert(spelled(rest, alphabet)) by {
            assert forall|i: int, j: int|
                0 <= i < rest.len() && 0 <= j < rest[i].len() implies alphabet.contains(
                #[trigger] rest[i][j],
            ) by {
                assert(rest[i][j] == codes[i][j]);
            }
        }
        assert(bounded(rest, m)) by {
            assert forall|i: int| 0 <= i < rest.len() implies (#[trigger] rest[i]).len() <= m by {
                assert(rest[i] == codes[i]);
            }
        }
        lemma_tails(rest, alphabet, a, m);
        let old = tails(rest, a);
        if last.len() > 0 && last[0] == a {
            let tail = last.drop_first();
            let e = codes.len() - 1;
            assert(seq![a] + tail == last);
            assert forall|i: int, j: int|
                0 <= i < all.len() && 0 <= j < all.len() && i != j implies !begins(
                #[trigger] all[j],
                #[trigger] all[i],
            ) by {
                if i < old.len() && j < old.len() {
                    assert(all[i] == old[i] && all[j] == old[j]);
                } else {
                    let t = if i < old.len() {
                        i
                    } else {
                        j
                    };
                    lemma_tail_of(rest, a, t);
                    let k = choose|k: int|
                        0 <= k < rest.len() && (#[trigger] rest[k]) == seq![a] + old[t];
                    assert(codes[k] == seq![a] + old[t]);
                    assert(codes[e] == seq![a] + tail);
                    if begins(all[j], all[i]) {
                        lemma_begins_behind(a, all[j], all[i]);
                        if t == i {
                            assert(begins(codes[e], codes[k]));
                        } else {
                            assert(begins(codes[k], codes[e]));
                        }
                        assert(false);
                    }
                }
            }
        }
    }
}

/// The strings that start with `a` weigh as much as their tails.
proof fn lemma_weight_of_tails(n: int, codes: Seq<Seq<char>>, m: nat, a: char)
    requires
        m > 0,
        forall|i: int| 0 <= i < codes.len() ==> 0 < (#[trigger] codes[i]).len() <= m,
    ensures
        weight_in(n, codes, m, seq![a]) == weight(n, tails(codes, a), (m - 1) as nat),
    decreases codes.len(),
{
    if codes.len() > 0 {
        let rest = codes.drop_last();
        let last = codes.last();
        assert(last == codes[codes.len() - 1]);
        assert forall|i: int| 0 <= i < rest.len() implies 0 < (#[trigger] rest[i]).len() <= m by {
            assert(rest[i] == codes[i]);
        }
        lemma_weight_of_tails(n, rest, m, a);
        if last[0] == a {
            assert(seq![a][0] == a);
            assert(seq![a].contains(last[0]));
            let more = tails(rest, a).push(last.drop_first());
            assert(more.drop_last() == tails(rest, a));
            assert(more.last() == last.drop_first());
            assert((m - last.len()) as nat == ((m - 1) - last.drop_first().len()) as nat);
        } else {
            assert(!seq![a].contains(last[0]));
        }
    }
}

/// Strings that start with one of `letters` start with the last of them or with
/// one of the others.
proof fn lemma_weight_splits(n: int, codes: Seq<Seq<char>>, m: nat, letters: Seq<char>)
    requires
        n >= 1,
        letters.len() > 0,
    ensures
        weight_in(n, codes, m, letters) <= weight_in(n, codes, m, letters.drop_last()) + weight_in(
            n,
            codes,
            m,
            seq![letters.last()],
        ),
    decreases codes.len(),
{
    if codes.len() > 0 {
        lemma_weight_splits(n, codes.drop_last(), m, letters);
        let c = codes.last()[0];
        lemma_pow_positive(n, (m - codes.last().len()) as nat);
        if letters.contains(c) {
            let k = choose|k: int| 0 <= k < letters.len() && letters[k] == c;
            if k < letters.len() - 1 {
                assert(letters.drop_last()[k] == c);
            } else {
                assert(seq![letters.last()][0] == c);
            }
        }
    }
}

proof fn lemma_weight_in_all(n: int, codes: Seq<Seq<char>>, m: nat, alphabet: Seq<char>)
    requires
        spelled(codes, alphabet),
        forall|i: int| 0 <= i < codes.len() ==> 0 < (#[trigger] codes[i]).len(),
    ensures
        weight(n, codes, m) == weight_in(n, codes, m, alphabet),
    decreases codes.len(),
{
    if codes.len() > 0 {
        let rest = codes.drop_last();
        assert forall|i: int, j: int|
            0 <= i < rest.len() && 0 <= j < rest[i].len() implies alphabet.contains(
            #[trigger] rest[i][j],
        ) by {
            assert(rest[i][j] == codes[i][j]);
        }
        assert forall|i: int| 0 <= i < rest.len() implies 0 < (#[trigger] rest[i]).len() by {
            assert(rest[i] == codes[i]);
        }
        lemma_weight_in_all(n, rest, m, alphabet);
        let e = codes.len() - 1;
        assert(codes[e].len() > 0);
        assert(alphabet.contains(codes[e][0]));
    }
}

proof fn lemma_weight_in_none(n: int, codes: Seq<Seq<char>>, m: nat)
    ensures
        weight_in(n, codes, m, Seq::empty()) == 0,
    decreases codes.len(),
{
    if codes.len() > 0 {
        lemma_weight_in_none(n, codes.drop_last(), m);
        assert(!Seq::<char>::empty().contains(codes.last()[0]));
    }
}

/// Each letter starts at most its share of the strings.
proof fn lemma_letters(
    alphabet: Seq<char>,
    codes: Seq<Seq<char>>,
    m: nat,
    letters: Seq<char>,
)
    requires
        alphabet.len() >= 1,
        letters.len() <= alphabet.len(),
        m > 0,
        prefix_free(codes),
        spelled(codes, alphabet),
        forall|i: int| 0 <= i < codes.len() ==> 0 < (#[trigger] codes[i]).len() <= m,
    ensures
        weight_in(alphabet.len() as int, codes, m, letters) <= letters.len() * pow(
            alphabet.len() as int,
            (m - 1) as nat,
        ),
    decreases m, letters.len(),
{
    let n = alphabet.len() as int;
    let share = pow(n, (m - 1) as nat);
    if letters.len() == 0 {
        assert(letters =~= Seq::<char>::empty());
        lemma_weight_in_none(n, codes, m);
        assert(0 * share == 0);
    } else {
        let a = letters.last();
        lemma_letters(alphabet, codes, m, letters.drop_last());
        lemma_weight_splits(n, codes, m, letters);
        lemma_weight_of_tails(n, codes, m, a);
        assert(bounded(codes, m));
        lemma_tails(codes, alphabet, a, m);
        lemma_shares(alphabet, tails(codes, a), (m - 1) as nat);
        let l = letters.len() as int;
        assert((l - 1) * share + share == l * share) by (nonlinear_arith);
    }
}

/// Prefix-free strings have disjoint shares: together they start no more strings
/// of length `m` than there are.
proof fn lemma_shares(alphabet: Seq<char>, codes: Seq<Seq<char>>, m: nat)
    requires
        alphabet.len() >= 1,
        prefix_free(codes),
        spelled(codes, alphabet),
        bounded(codes, m),
    ensures
        weight(alphabet.len() as int, codes, m) <= pow(alphabet.len() as int, m),
    decreases m, alphabet.len() + 1,
{
    let n = alphabet.len() as int;
    lemma_pow_positive(n, m);
    if exists|i: int| 0 <= i < codes.len() && (#[trigger] codes[i]).len() == 0 {
        let i = choose|i: int| 0 <= i < codes.len() && (#[trigger] codes[i]).len() == 0;
        if codes.len() > 1 {
            let j = if i == 0 {
                1int
            } else {
                0int
            };
            assert(codes[j].take(0) == codes[i]);
            assert(begins(codes[j], codes[i]));
            assert(false);
        }
        assert(codes.last() == codes[i]);
        assert(codes.drop_last().len() == 0);
        assert(weight(n, codes.drop_last(), m) == 0);
    } else if codes.len() > 0 {
        assert(codes[0].len() > 0);
        assert(m > 0);
        assert forall|i: int| 0 <= i < codes.len() implies 0 < (#[trigger] codes[i]).len() <= m by {}
        lemma_weight_in_all(n, codes, m, alphabet);
        lemma_letters(alphabet, codes, m, alphabet);
        assert(pow(n, m) == n * pow(n, (m - 1) as nat)) by {
            reveal(pow);
        }
    }
}

/// The share of a string falls off ever more slowly with its length: it is never
/// below the straight line through the shares of lengths `q` and `q + 1`.
proof fn lemma_chord(n: int, m: nat, q: nat, l: nat)
    requires
        n >= 2,
        q + 1 <= m,
        l <= m,
    ensures
        ({
            let a = pow(n, (m - q - 1) as nat);
            pow(n, (m - l) as nat) >= n * a - (l - q) * ((n - 1) * a)
        }),
    decreases
            if l >= q {
                l - q
            } else {
                q - l
            },
{
    let a = pow(n, (m - q - 1) as nat);
    reveal(pow);
    if l == q {
        assert(pow(n, (m - q) as nat) == n * a);
        assert((l - q) * ((n - 1) * a) == 0) by (nonlinear_arith)
            requires
                l == q,
        ;
    } else if l > q {
        lemma_chord(n, m, q, (l - 1) as nat);
        let f = pow(n, (m - l) as nat);
        assert(pow(n, (m - (l - 1)) as nat) == n * f);
        lemma_pow_increases(n as nat, (m - l) as nat, (m - q - 1) as nat);
        assert(f >= n * a - (l - q) * ((n - 1) * a)) by (nonlinear_arith)
            requires
                f <= a,
                n >= 2,
                n * f >= n * a - (l - 1 - q) * ((n - 1) * a),
        ;
    } else {
        lemma_chord(n, m, q, l + 1);
        let f = pow(n, (m - (l + 1)) as nat);
        assert(pow(n, (m - l) as nat) == n * f);
        lemma_pow_increases(n as nat, (m - q - 1) as nat, (m - (l + 1)) as nat);
        assert(n * f >= n * a - (l - q) * ((n - 1) * a)) by (nonlinear_arith)
            requires
                f >= a,
                n >= 2,
                f >= n * a - (l + 1 - q) * ((n - 1) * a),
        ;
    }
}

/// What the shares of `codes` add up to, at least.
proof fn lemma_weight_at_least(n: int, codes: Seq<Seq<char>>, m: nat, q: nat)
    requires
        n >= 2,
        q + 1 <= m,
        bounded(codes, m),
    ensures
        ({
            let a = pow(n, (m - q - 1) as nat);
            weight(n, codes, m) >= codes.len() * (n * a) - (total_len(codes) - codes.len() * q) * ((n
                - 1) * a)
        }),
    decreases codes.len(),
{
    let a = pow(n, (m - q - 1) as nat);
    if codes.len() == 0 {
        assert(0 * (n * a) == 0) by (nonlinear_arith);
        assert((0 - 0 * q) * ((n - 1) * a) == 0) by (nonlinear_arith);
    } else {
        let rest = codes.drop_last();
        let l = codes.last().len();
        assert(codes.last() == codes[codes.len() - 1]);
        assert forall|i: int| 0 <= i < rest.len() implies (#[trigger] rest[i]).len() <= m by {
            assert(rest[i] == codes[i]);
        }
        lemma_weight_at_least(n, rest, m, q);
        lemma_chord(n, m, q, l);
        let k = rest.len() as int;
        let t = total_len(rest);
        assert(k * (n * a) - (t - k * q) * ((n - 1) * a) + n * a - (l - q) * ((n - 1) * a) == (k
            + 1) * (n * a) - (t + l - (k + 1) * q) * ((n - 1) * a)) by (nonlinear_arith);
    }
}

/// Every string is at most as long as all of them together.
proof fn lemma_total_bounds(codes: Seq<Seq<char>>)
    ensures
        total_len(codes) >= 0,
        forall|i: int| 0 <= i < codes.len() ==> (#[trigger] codes[i]).len() <= total_len(codes),
        (forall|i: int| 0 <= i < codes.len() ==> (#[trigger] codes[i]).len() > 0) ==> total_len(codes)
            >= codes.len(),
    decreases codes.len(),
{
    if codes.len() > 0 {
        let rest = codes.drop_last();
        lemma_total_bounds(rest);
        assert(codes.last() == codes[codes.len() - 1]);
        assert forall|i: int| 0 <= i < codes.len() implies (#[trigger] codes[i]).len() <= total_len(
            codes,
        ) by {
            if i < codes.len() - 1 {
                assert(rest[i] == codes[i]);
            }
        }
        if forall|i: int| 0 <= i < codes.len() ==> (#[trigger] codes[i]).len() > 0 {
            assert forall|i: int| 0 <= i < rest.len() implies (#[trigger] rest[i]).len() > 0 by {
                assert(rest[i] == codes[i]);
            }
        }
    }
}

/// The least total of prefix-free strings, in terms of any length `q`.
proof fn lemma_total_at_least(alphabet: Seq<char>, codes: Seq<Seq<char>>, q: nat)
    requires
        alphabet.len() >= 2,
        prefix_free(codes),
        spelled(codes, alphabet),
    ensures
        ({
            let n = alphabet.len() as int;
            pow(n, q + 1) >= codes.len() * n - (total_len(codes) - codes.len() * q) * (n - 1)
        }),
{
    let n = alphabet.len() as int;
    lemma_total_bounds(codes);
    let m = (total_len(codes) + q + 1) as nat;
    let a = pow(n, (m - q - 1) as nat);
    assert(bounded(codes, m));
    lemma_shares(alphabet, codes, m);
    lemma_weight_at_least(n, codes, m, q);
    lemma_pow_adds(n, q + 1, (m - q - 1) as nat);
    lemma_pow_positive(n, (m - q - 1) as nat);
    let c = codes.len() as int;
    let t = total_len(codes) - c * q;
    let p = pow(n, q + 1);
    assert(p * a >= c * (n * a) - t * ((n - 1) * a));
    assert(p >= c * n - t * (n - 1)) by (nonlinear_arith)
        requires
            a > 0,
            p * a >= c * (n * a) - t * ((n - 1) * a),
    ;
}

/// A string that comes after all the strings of at most `l` characters is longer.
proof fn lemma_node_len_least(alphabet: Seq<char>, j: nat, l: nat)
    requires
        alphabet.len() >= 2,
        j >= strings_up_to(alphabet.len(), l),
    ensures
        node(alphabet, j).len() > l,
    decreases l,
{
    let n = alphabet.len();
    lemma_node_len(alphabet, 0, j);
    if l > 0 {
        let s = strings_up_to(n, (l - 1) as nat);
        assert(j >= n && j / n >= s + 1) by (nonlinear_arith)
            requires
                j >= n * (s + 1),
                n >= 2,
                s >= 0,
        ;
        lemma_parent(n, j);
        lemma_node_len_least(alphabet, parent(n, j), (l - 1) as nat);
    }
}

/// The total of the first `c` labels, where the strings before them go up to
/// length `q`.
proof fn lemma_total_of_labels(alphabet: Seq<char>, count: nat, q: nat, c: nat)
    requires
        alphabet.len() >= 2,
        c <= count,
        expanded(alphabet.len(), count) <= strings_up_to(alphabet.len(), q),
    ensures
        ({
            let k = expanded(alphabet.len(), count);
            let u = strings_up_to(alphabet.len(), q);
            total_len(labels_for(alphabet, count).take(c as int)) <= c * q + if k + c > u {
                k + c - u
            } else {
                0
            }
        }),
    decreases c,
{
    let n = alphabet.len();
    let k = expanded(n, count);
    let u = strings_up_to(n, q);
    let labels = labels_for(alphabet, count);
    if c > 0 {
        lemma_total_of_labels(alphabet, count, q, (c - 1) as nat);
        assert(labels.take(c as int).drop_last() == labels.take(c - 1));
        assert(labels.take(c as int).last() == label_at(alphabet, count, c - 1));
        let j = (k + c - 1) as nat;
        lemma_enough(n, count);
        assert(k + (c - 1) < n * (k + 1));
        assert(n * (k + 1) <= n * (u + 1)) by (nonlinear_arith)
            requires
                k <= u,
        ;
        assert(strings_up_to(n, q + 1) == n * (u + 1));
        lemma_node_len_bound(alphabet, j, q + 1);
        if j < u {
            lemma_node_len_bound(alphabet, j, q);
        }
        assert((c - 1) * q + q == c * q) by (nonlinear_arith);
    } else {
        assert(0 * q == 0) by (nonlinear_arith);
    }
}

/// Every character of a label is one of the alphabet.
pub proof fn law_labels_are_spelled_in_the_alphabet(alphabet: Seq<char>, count: nat)
    requires
        alphabet.len() >= 2,
    ensures
        spelled(labels_for(alphabet, count), alphabet),
{
    let labels = labels_for(alphabet, count);
    assert forall|i: int, j: int| 0 <= i < labels.len() && 0 <= j < labels[i].len() implies alphabet.contains(
        #[trigger] labels[i][j],
    ) by {
        lemma_node_spelled(alphabet, (expanded(alphabet.len(), count) + i) as nat, j);
    }
}

proof fn lemma_node_spelled(alphabet: Seq<char>, j: nat, p: int)
    requires
        alphabet.len() >= 2,
        0 <= p < node(alphabet, j).len(),
    ensures
        alphabet.contains(node(alphabet, j)[p]),
    decreases j,
{
    let n = alphabet.len();
    if j < n {
        assert(node(alphabet, j)[p] == alphabet[j as int]);
    } else {
        lemma_parent(n, j);
        let before = node(alphabet, parent(n, j));
        if p < before.len() {
            lemma_node_spelled(alphabet, parent(n, j), p);
            assert(node(alphabet, j)[p] == before[p]);
        } else {
            assert(0 <= j % n < n) by (nonlinear_arith)
                requires
                    n >= 1,
            ;
            assert(node(alphabet, j)[p] == alphabet[(j % n) as int]);
        }
    }
}

/// Every string has at least one share.
proof fn lemma_weight_counts(n: int, codes: Seq<Seq<char>>, m: nat)
    requires
        n >= 1,
    ensures
        weight(n, codes, m) >= codes.len(),
    decreases codes.len(),
{
    if codes.len() > 0 {
        lemma_weight_counts(n, codes.drop_last(), m);
        lemma_pow_positive(n, (m - codes.last().len()) as nat);
    }
}

/// The longest label is as short as it can be: where as many prefix-free strings
/// over the alphabet get by with `l` characters, so do the labels.
pub proof fn law_no_longest_label_is_shorter(
    alphabet: Seq<char>,
    count: nat,
    codes: Seq<Seq<char>>,
    l: nat,
    i: int,
)
    requires
        alphabet.len() >= 2,
        l >= 1,
        codes.len() == count,
        prefix_free(codes),
        spelled(codes, alphabet),
        forall|k: int| 0 <= k < codes.len() ==> (#[trigger] codes[k]).len() <= l,
        0 <= i < count,
    ensures
        labels_for(alphabet, count)[i].len() <= l,
{
    assert(bounded(codes, l));
    lemma_shares(alphabet, codes, l);
    lemma_weight_counts(alphabet.len() as int, codes, l);
    law_labels_are_short(alphabet, count, l, i);
}

/// Labels are kept as short as possible: no list of as many non-empty strings over
/// the alphabet, none of them a prefix of another, takes fewer keystrokes all
/// together.
pub proof fn law_no_labels_are_shorter(alphabet: Seq<char>, count: nat, codes: Seq<Seq<char>>)
    requires
        alphabet.len() >= 2,
        codes.len() == count,
        prefix_free(codes),
        spelled(codes, alphabet),
        forall|i: int| 0 <= i < codes.len() ==> (#[trigger] codes[i]).len() > 0,
    ensures
        total_len(labels_for(alphabet, count)) <= total_len(codes),
{
    let n = alphabet.len();
    let k = expanded(n, count);
    let labels = labels_for(alphabet, count);
    assert(labels.take(count as int) == labels);
    lemma_total_bounds(codes);
    lemma_enough(n, count);
    if k == 0 {
        assert(strings_up_to(n, 0) == 0);
        lemma_total_of_labels(alphabet, count, 0, count);
        assert(count * 0 == 0) by (nonlinear_arith);
    } else {
        // The length of the last string that was expanded.
        let q = node(alphabet, (k - 1) as nat).len();
        lemma_node_len(alphabet, 0, (k - 1) as nat);
        let below = strings_up_to(n, (q - 1) as nat);
        let upto = strings_up_to(n, q);
        if k - 1 < below {
            lemma_node_len_bound(alphabet, (k - 1) as nat, (q - 1) as nat);
        }
        if k - 1 >= upto {
            lemma_node_len_least(alphabet, (k - 1) as nat, q);
        }
        lemma_strings_up_to(n, (q - 1) as nat);
        let full = pow(n as int, q);
        assert(n + below * (n - 1) == full);
        assert(upto == below + full) by (nonlinear_arith)
            requires
                upto == n * (below + 1),
                n + below * (n - 1) == full,
        ;
        lemma_total_of_labels(alphabet, count, q, count);
        lemma_total_at_least(alphabet, codes, q);
        assert(pow(n as int, q + 1) == n * full) by {
            reveal(pow);
        }
        // Of the strings of length `q`, `e` were expanded; `d` targets are left over
        // for the strings one character longer.
        let e = k - below;
        let d = count - full;
        let t = total_len(codes) - count * q;
        assert((k - 1) * (n - 1) == below * (n - 1) + (e - 1) * (n - 1)) by (nonlinear_arith)
            requires
                k == below + e,
        ;
        assert(d > (e - 1) * (n - 1));
        assert(t >= d + e) by (nonlinear_arith)
            requires
                n * full >= count * n - t * (n - 1),
                d == count - full,
                d > (e - 1) * (n - 1),
                n >= 2,
        ;
    }
}

} // verus!
