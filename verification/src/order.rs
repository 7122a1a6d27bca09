//! Stable sorting by a pair of integers.
//!
//! Reading order ("top-to-bottom, then left-to-right") and the order in which
//! duplicates are weighed are stable sorts by an integer key. [`sorted`] says
//! what such a sort gives, and the laws below say what it means: the result is
//! ordered, holds exactly the same items, and keeps items of equal key in the
//! order in which they came.

use vstd::prelude::*;

verus! {

/// A sort key: compared by the first number, ties broken by the second.
pub type Rank = (int, int);

/// `a` comes strictly before `b`.
pub open spec fn before(a: Rank, b: Rank) -> bool {
    a.0 < b.0 || (a.0 == b.0 && a.1 < b.1)
}

/// How many items at the front of `s` come strictly before `k`.
pub open spec fn lead<T>(s: Seq<T>, key: spec_fn(T) -> Rank, k: Rank) -> int
    decreases s.len(),
{
    if s.len() == 0 || !before(key(s[0]), k) {
        0
    } else {
        1 + lead(s.drop_first(), key, k)
    }
}

/// `x` put into `s` before the first item that does not come strictly before it.
pub open spec fn inserted<T>(s: Seq<T>, key: spec_fn(T) -> Rank, x: T) -> Seq<T> {
    s.insert(lead(s, key, key(x)), x)
}

/// `s` sorted by `key`, items of equal key left in order.
pub open spec fn sorted<T>(s: Seq<T>, key: spec_fn(T) -> Rank) -> Seq<T>
    decreases s.len(),
{
    if s.len() == 0 {
        s
    } else {
        inserted(sorted(s.drop_first(), key), key, s[0])
    }
}

/// No item of `s` comes strictly before an earlier one.
pub open spec fn ordered<T>(s: Seq<T>, key: spec_fn(T) -> Rank) -> bool {
    forall|i: int, j: int|
        0 <= i < j < s.len() ==> !before(#[trigger] key(s[j]), #[trigger] key(s[i]))
}

proof fn lemma_lead<T>(s: Seq<T>, key: spec_fn(T) -> Rank, k: Rank)
    ensures
        0 <= lead(s, key, k) <= s.len(),
        forall|i: int| 0 <= i < lead(s, key, k) ==> before(#[trigger] key(s[i]), k),
        lead(s, key, k) < s.len() ==> !before(key(s[lead(s, key, k)]), k),
    decreases s.len(),
{
    if s.len() > 0 && before(key(s[0]), k) {
        let t = s.drop_first();
        lemma_lead(t, key, k);
        assert forall|i: int| 0 <= i < lead(s, key, k) implies before(#[trigger] key(s[i]), k) by {
            if i > 0 {
                assert(s[i] == t[i - 1]);
                assert(before(key(t[i - 1]), k));
            }
        }
        if lead(s, key, k) < s.len() {
            assert(s[lead(s, key, k)] == t[lead(t, key, k)]);
        }
    }
}

/// The number of leading items is the only one with the two properties.
proof fn lemma_lead_is<T>(s: Seq<T>, key: spec_fn(T) -> Rank, k: Rank, p: int)
    requires
        0 <= p <= s.len(),
        forall|i: int| 0 <= i < p ==> before(#[trigger] key(s[i]), k),
        p < s.len() ==> !before(key(s[p]), k),
    ensures
        p == lead(s, key, k),
{
    lemma_lead(s, key, k);
    let q = lead(s, key, k);
    if q < p {
        assert(before(key(s[q]), k));
    } else if p < q {
        assert(before(key(s[p]), k));
    }
}

/// Sort `items` by the keys in `keys`, one per item, keeping items of equal key
/// in order.
pub(crate) fn sort_by_keys<T>(
    items: Vec<T>,
    keys: Vec<(i64, i64)>,
    Ghost(key): Ghost<spec_fn(T) -> Rank>,
) -> (r: Vec<T>)
    requires
        items@.len() == keys@.len(),
        forall|i: int|
            0 <= i < items@.len() ==> #[trigger] key(items@[i]) == (
                keys@[i].0 as int,
                keys@[i].1 as int,
            ),
    ensures
        r@ == sorted(items@, key),
{
    let ghost all = items@;
    let mut rest = items;
    let mut rest_keys = keys;
    let mut out: Vec<T> = Vec::new();
    let mut out_keys: Vec<(i64, i64)> = Vec::new();
    while rest.len() > 0
        invariant
            rest@.len() <= all.len(),
            rest@ == all.take(rest@.len() as int),
            rest@.len() == rest_keys@.len(),
            out@.len() == out_keys@.len(),
            forall|i: int|
                0 <= i < rest@.len() ==> #[trigger] key(rest@[i]) == (
                    rest_keys@[i].0 as int,
                    rest_keys@[i].1 as int,
                ),
            forall|i: int|
                0 <= i < out@.len() ==> #[trigger] key(out@[i]) == (
                    out_keys@[i].0 as int,
                    out_keys@[i].1 as int,
                ),
            out@ == sorted(all.skip(rest@.len() as int), key),
        decreases rest@.len(),
    {
        let ghost n = rest@.len();
        let ghost old_out = out@;
        let ghost old_rest = rest@;
        match (rest.pop(), rest_keys.pop()) {
            (Some(x), Some(k)) => {
                assert(x == old_rest[n - 1]);
                assert(key(x) == (k.0 as int, k.1 as int));
                let mut p: usize = 0;
                while p < out.len() && (out_keys[p].0 < k.0 || (out_keys[p].0 == k.0
                    && out_keys[p].1 < k.1))
                    invariant
                        p <= out@.len(),
                        out@.len() == out_keys@.len(),
                        key(x) == (k.0 as int, k.1 as int),
                        forall|i: int|
                            0 <= i < out@.len() ==> #[trigger] key(out@[i]) == (
                                out_keys@[i].0 as int,
                                out_keys@[i].1 as int,
                            ),
                        forall|i: int| 0 <= i < p ==> before(#[trigger] key(out@[i]), key(x)),
                    decreases out@.len() - p,
                {
                    p += 1;
                }
                proof {
                    lemma_lead_is(out@, key, key(x), p as int);
                }
                let ghost old_keys = out_keys@;
                out.insert(p, x);
                out_keys.insert(p, k);
                proof {
                    assert forall|i: int| 0 <= i < out@.len() implies #[trigger] key(out@[i]) == (
                        out_keys@[i].0 as int,
                        out_keys@[i].1 as int,
                    ) by {
                        if i < p {
                            assert(out@[i] == old_out[i]);
                        } else if i > p {
                            assert(out@[i] == old_out[i - 1]);
                        }
                    }
                    let tail = all.skip(n - 1);
                    assert(tail.drop_first() == all.skip(n as int));
                    assert(tail[0] == x);
                    assert(out@ == inserted(old_out, key, x));
                }
            },
            _ => {
                assert(false);
            },
        }
    }
    assert(all.skip(0) == all);
    out
}

// --- Laws -----------------------------------------------------------------

/// The result of a sort is in order.
pub proof fn law_sorted_is_ordered<T>(s: Seq<T>, key: spec_fn(T) -> Rank)
    ensures
        ordered(sorted(s, key), key),
    decreases s.len(),
{
    if s.len() > 0 {
        let t = sorted(s.drop_first(), key);
        law_sorted_is_ordered(s.drop_first(), key);
        let k = key(s[0]);
        lemma_lead(t, key, k);
        let p = lead(t, key, k);
        let r = t.insert(p, s[0]);
        assert forall|i: int, j: int| 0 <= i < j < r.len() implies !before(
            #[trigger] key(r[j]),
            #[trigger] key(r[i]),
        ) by {
            let a = if i < p {
                i
            } else {
                i - 1
            };
            let b = if j < p {
                j
            } else {
                j - 1
            };
            if i != p {
                assert(r[i] == t[a]);
            }
            if j != p {
                assert(r[j] == t[b]);
            }
            if i != p && j != p {
                assert(!before(key(t[b]), key(t[a])));
            } else if i == p {
                assert(!before(key(t[p]), k));
                if b > p {
                    assert(!before(key(t[b]), key(t[p])));
                }
            } else {
                assert(before(key(t[a]), k));
            }
        }
    }
}

/// A sort neither drops nor adds nor duplicates an item.
pub proof fn law_sorted_keeps_the_items<T>(s: Seq<T>, key: spec_fn(T) -> Rank)
    ensures
        sorted(s, key).to_multiset() == s.to_multiset(),
        sorted(s, key).len() == s.len(),
    decreases s.len(),
{
    if s.len() > 0 {
        let t = sorted(s.drop_first(), key);
        law_sorted_keeps_the_items(s.drop_first(), key);
        lemma_lead(t, key, key(s[0]));
        let p = lead(t, key, key(s[0]));
        broadcast use vstd::seq_lib::group_to_multiset_ensures;

        vstd::seq_lib::to_multiset_insert(t, p, s[0]);
        vstd::seq_lib::to_multiset_remove(s, 0);
        assert(s.remove(0) == s.drop_first());
        assert(s.to_multiset() == s.drop_first().to_multiset().insert(s[0])) by {
            assert(s.to_multiset().count(s[0]) > 0);
            assert(s.drop_first().to_multiset() == s.to_multiset().remove(s[0]));
            assert(s.to_multiset().remove(s[0]).insert(s[0]) =~= s.to_multiset());
        }
    }
}

/// Items of equal key come out in the order in which they came in.
pub proof fn law_sorted_is_stable<T>(s: Seq<T>, key: spec_fn(T) -> Rank, k: Rank)
    ensures
        sorted(s, key).filter(|x: T| key(x) == k) == s.filter(|x: T| key(x) == k),
    decreases s.len(),
{
    let same = |x: T| key(x) == k;
    if s.len() > 0 {
        let tail = s.drop_first();
        let t = sorted(tail, key);
        law_sorted_is_stable(tail, key, k);
        let x = s[0];
        lemma_lead(t, key, key(x));
        let p = lead(t, key, key(x));
        let a = t.take(p);
        let b = t.skip(p);
        let one = seq![x];
        assert(t.insert(p, x) == a + one + b);
        assert(t == a + b);
        assert(s == one + tail);
        Seq::filter_distributes_over_add(a + one, b, same);
        Seq::filter_distributes_over_add(a, one, same);
        Seq::filter_distributes_over_add(a, b, same);
        Seq::filter_distributes_over_add(one, tail, same);
        lemma_filter_one(x, same);
        if same(x) {
            assert forall|i: int| 0 <= i < a.len() implies !same(#[trigger] a[i]) by {
                assert(before(key(t[i]), key(x)));
            }
            lemma_filter_none(a, same);
            assert(a.filter(same) + one.filter(same) + b.filter(same) == one.filter(same) + (
            a.filter(same) + b.filter(same)));
        } else {
            assert(a.filter(same) + one.filter(same) + b.filter(same) == a.filter(same) + b.filter(
                same,
            ));
            assert(one.filter(same) + tail.filter(same) == tail.filter(same));
        }
    }
}

proof fn lemma_filter_one<T>(x: T, pred: spec_fn(T) -> bool)
    ensures
        seq![x].filter(pred) == if pred(x) {
            seq![x]
        } else {
            Seq::empty()
        },
{
    reveal(Seq::filter);
    assert(seq![x].drop_last() == Seq::<T>::empty());
    assert(Seq::<T>::empty().filter(pred) == Seq::<T>::empty());
    assert(Seq::<T>::empty().push(x) == seq![x]);
}

proof fn lemma_filter_none<T>(s: Seq<T>, pred: spec_fn(T) -> bool)
    requires
        forall|i: int| 0 <= i < s.len() ==> !pred(#[trigger] s[i]),
    ensures
        s.filter(pred) == Seq::<T>::empty(),
    decreases s.len(),
{
    reveal(Seq::filter);
    if s.len() > 0 {
        let t = s.drop_last();
        assert forall|i: int| 0 <= i < t.len() implies !pred(#[trigger] t[i]) by {
            assert(t[i] == s[i]);
        }
        lemma_filter_none(t, pred);
        assert(!pred(s[s.len() - 1]));
    }
}

/// A sort puts smaller keys first, by their first numbers and, where those are equal,
/// by their second ones.
pub proof fn law_smaller_keys_come_first<T>(s: Seq<T>, key: spec_fn(T) -> Rank, i: int, j: int)
    requires
        0 <= i < j < sorted(s, key).len(),
    ensures
        ({
            let a = key(sorted(s, key)[i]);
            let b = key(sorted(s, key)[j]);
            a.0 < b.0 || (a.0 == b.0 && a.1 <= b.1)
        }),
{
    law_sorted_is_ordered(s, key);
    let all = sorted(s, key);
    assert(!before(key(all[j]), key(all[i])));
}

} // verus!
