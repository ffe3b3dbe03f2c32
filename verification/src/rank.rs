//! Ranking: candidate pairs in ascending order of score, pairs of one score
//! in ascending order of combined size, and pairs that agree in both in the
//! order in which they were found. This is the order that a stable sort by
//! combined size followed by a stable sort by score leaves.

use crate::pairs::{CandidatePair, PairView};
use vstd::prelude::*;

verus! {

/// The sort key of a pair: the score first, the combined size second.
pub open spec fn key(pair: PairView) -> (nat, nat) {
    (pair.score, pair.combined_size)
}

/// Whether the key `a` is at most the key `b`: by score, and by combined
/// size where the scores agree.
pub open spec fn key_le(a: (nat, nat), b: (nat, nat)) -> bool {
    a.0 < b.0 || (a.0 == b.0 && a.1 <= b.1)
}

/// Whether the pairs of `s` stand in ascending order of their keys.
pub open spec fn ordered(s: Seq<PairView>) -> bool {
    forall|i: int, j: int| 0 <= i <= j < s.len() ==> key_le(key(s[i]), key(s[j]))
}

/// The test for a pair to have the key `k`, as a function of the pair.
pub open spec fn has_key(k: (nat, nat)) -> spec_fn(PairView) -> bool {
    |pair: PairView| key(pair) == k
}

/// The pairs of `s` with the key `k`, in their order in `s`.
pub open spec fn with_key(s: Seq<PairView>, k: (nat, nat)) -> Seq<PairView> {
    s.filter(has_key(k))
}

/// Whether `out` is `input` ranked: it has the same length, it is in
/// ascending order of keys, and for every key it holds the same pairs as
/// `input`, in the same order.
pub open spec fn is_ranking(out: Seq<PairView>, input: Seq<PairView>) -> bool {
    &&& out.len() == input.len()
    &&& ordered(out)
    &&& forall|k: (nat, nat)| #[trigger] with_key(out, k) == with_key(input, k)
}

/// Appending a pair appends it to the pairs of its key and leaves the pairs
/// of every other key as they were.
pub proof fn lemma_with_key_push(s: Seq<PairView>, pair: PairView, k: (nat, nat))
    ensures
        with_key(s.push(pair), k) == if key(pair) == k {
            with_key(s, k).push(pair)
        } else {
            with_key(s, k)
        },
{
    s.lemma_filter_push(pair, has_key(k));
}

/// A sequence without a pair of the key `k` has no pairs with that key.
pub proof fn lemma_with_key_none(s: Seq<PairView>, k: (nat, nat))
    requires
        forall|i: int| 0 <= i < s.len() ==> key(#[trigger] s[i]) != k,
    ensures
        with_key(s, k) == Seq::<PairView>::empty(),
    decreases s.len(),
{
    reveal(Seq::filter);
    if s.len() > 0 {
        let front = s.drop_last();
        assert forall|i: int| 0 <= i < front.len() implies key(#[trigger] front[i]) != k by {
            assert(front[i] == s[i]);
        }
        lemma_with_key_none(front, k);
        assert(key(s[s.len() - 1]) != k);
    }
}

/// Every pair of a ranking is a pair of its input.
pub proof fn lemma_ranking_member(out: Seq<PairView>, input: Seq<PairView>, i: int)
    requires
        is_ranking(out, input),
        0 <= i < out.len(),
    ensures
        input.contains(out[i]),
{
    let k = key(out[i]);
    let pred = has_key(k);
    assert(pred(out[i]));
    out.lemma_filter_contains(pred, i);
    assert(with_key(out, k) == with_key(input, k));
    let found = with_key(input, k);
    let at = choose|at: int| 0 <= at < found.len() && found[at] == out[i];
    input.lemma_filter_contains_rev(pred, found[at]);
}

/// A sequence has one ranking only.
pub proof fn lemma_ranking_unique(a: Seq<PairView>, b: Seq<PairView>, input: Seq<PairView>)
    requires
        is_ranking(a, input),
        is_ranking(b, input),
    ensures
        a == b,
    decreases a.len(),
{
    reveal(Seq::filter);
    if a.len() == 0 {
        assert(a =~= b);
    } else {
        let x = a.last();
        let y = b.last();
        let kx = key(x);
        let ky = key(y);
        // The last pair of each has the largest key of both.
        assert(key_le(ky, kx)) by {
            lemma_ranking_member(b, input, b.len() - 1);
            assert(with_key(a, ky) == with_key(input, ky));
            assert(with_key(b, ky) == with_key(input, ky));
            assert(has_key(ky)(y));
            b.lemma_filter_contains(has_key(ky), b.len() - 1);
            let found = with_key(a, ky);
            let at = choose|at: int| 0 <= at < found.len() && found[at] == y;
            a.lemma_filter_contains_rev(has_key(ky), found[at]);
            let i = choose|i: int| 0 <= i < a.len() && a[i] == y;
            assert(key_le(key(a[i]), key(a[a.len() - 1])));
        }
        assert(key_le(kx, ky)) by {
            assert(with_key(a, kx) == with_key(input, kx));
            assert(with_key(b, kx) == with_key(input, kx));
            assert(has_key(kx)(x));
            a.lemma_filter_contains(has_key(kx), a.len() - 1);
            let found = with_key(b, kx);
            let at = choose|at: int| 0 <= at < found.len() && found[at] == x;
            b.lemma_filter_contains_rev(has_key(kx), found[at]);
            let i = choose|i: int| 0 <= i < b.len() && b[i] == x;
            assert(key_le(key(b[i]), key(b[b.len() - 1])));
        }
        assert(kx == ky);
        let a0 = a.drop_last();
        let b0 = b.drop_last();
        assert(with_key(a, kx) == with_key(b, kx));
        assert(with_key(a, kx) == with_key(a0, kx).push(x));
        assert(with_key(b, kx) == with_key(b0, kx).push(y));
        assert(x == y) by {
            assert(with_key(a0, kx).push(x).last() == x);
            assert(with_key(b0, kx).push(y).last() == y);
        }
        assert(with_key(a0, kx) == with_key(b0, kx)) by {
            assert(with_key(a0, kx).push(x).drop_last() == with_key(a0, kx));
            assert(with_key(b0, ky).push(y).drop_last() == with_key(b0, ky));
        }
        assert(ordered(a0)) by {
            assert forall|i: int, j: int| 0 <= i <= j < a0.len() implies key_le(
                key(a0[i]),
                key(a0[j]),
            ) by {
                assert(key_le(key(a[i]), key(a[j])));
            }
        }
        assert(ordered(b0)) by {
            assert forall|i: int, j: int| 0 <= i <= j < b0.len() implies key_le(
                key(b0[i]),
                key(b0[j]),
            ) by {
                assert(key_le(key(b[i]), key(b[j])));
            }
        }
        assert forall|k: (nat, nat)| #[trigger] with_key(a0, k) == with_key(b0, k) by {
            assert(with_key(a, k) == with_key(input, k));
            assert(with_key(b, k) == with_key(input, k));
        }
        // Both are rankings of the shorter of them.
        assert(is_ranking(a0, a0));
        assert(is_ranking(b0, a0));
        lemma_ranking_unique(a0, b0, a0);
        assert(a =~= a0.push(x));
        assert(b =~= b0.push(y));
    }
}

/// The test for a pair to have the value `v` in `field`, as a function of
/// the pair.
pub open spec fn field_is(field: spec_fn(PairView) -> nat, v: nat) -> spec_fn(PairView) -> bool {
    |pair: PairView| field(pair) == v
}

/// The score of a pair, as a function of the pair.
pub open spec fn by_score() -> spec_fn(PairView) -> nat {
    |pair: PairView| pair.score
}

/// The combined size of a pair, as a function of the pair.
pub open spec fn by_size() -> spec_fn(PairView) -> nat {
    |pair: PairView| pair.combined_size
}

/// Whether `out` is `input` after a stable sort by `field`: it has the same
/// length, it is in ascending order of the field, and for every value of
/// the field it holds the same pairs as `input`, in the same order.
pub open spec fn is_stable_sort(
    out: Seq<PairView>,
    input: Seq<PairView>,
    field: spec_fn(PairView) -> nat,
) -> bool {
    &&& out.len() == input.len()
    &&& forall|i: int, j: int| 0 <= i <= j < out.len() ==> field(out[i]) <= field(out[j])
    &&& forall|v: nat| #[trigger]
        out.filter(field_is(field, v)) == input.filter(field_is(field, v))
}

/// Filtering by one test and then by another is filtering by both at once.
proof fn lemma_filter_twice(
    s: Seq<PairView>,
    first: spec_fn(PairView) -> bool,
    second: spec_fn(PairView) -> bool,
    both: spec_fn(PairView) -> bool,
)
    requires
        forall|pair: PairView| #[trigger] both(pair) <==> first(pair) && second(pair),
    ensures
        s.filter(first).filter(second) == s.filter(both),
    decreases s.len(),
{
    reveal(Seq::filter);
    if s.len() > 0 {
        let front = s.drop_last();
        let last = s.last();
        lemma_filter_twice(front, first, second, both);
        assert(both(last) <==> first(last) && second(last));
        if first(last) {
            front.filter(first).lemma_filter_push(last, second);
        }
    }
}

/// Filtering keeps the order: two kept elements of `s`, the first at or
/// before the second, stand in the filtered sequence at the two indices
/// returned, the first at or before the second.
proof fn lemma_filter_keeps_order(
    s: Seq<PairView>,
    test: spec_fn(PairView) -> bool,
    i: int,
    j: int,
) -> (at: (int, int))
    requires
        0 <= i <= j < s.len(),
        test(s[i]),
        test(s[j]),
    ensures
        0 <= at.0 <= at.1 < s.filter(test).len(),
        s.filter(test)[at.0] == s[i],
        s.filter(test)[at.1] == s[j],
        i < j ==> at.0 < at.1,
    decreases s.len(),
{
    reveal(Seq::filter);
    let front = s.drop_last();
    let kept = s.filter(test);
    if j == s.len() - 1 {
        assert(kept == front.filter(test).push(s.last()));
        if i == j {
            (kept.len() - 1, kept.len() - 1)
        } else {
            let inner = lemma_filter_keeps_order(front, test, i, i);
            (inner.0, kept.len() - 1)
        }
    } else {
        let inner = lemma_filter_keeps_order(front, test, i, j);
        if test(s.last()) {
            assert(kept == front.filter(test).push(s.last()));
        }
        inner
    }
}

/// Filtering adds no order: two elements of the filtered sequence, the
/// first at or before the second, stand in `s` at the two indices returned,
/// the first at or before the second.
proof fn lemma_filter_order_from(
    s: Seq<PairView>,
    test: spec_fn(PairView) -> bool,
    i: int,
    j: int,
) -> (at: (int, int))
    requires
        0 <= i <= j < s.filter(test).len(),
    ensures
        0 <= at.0 <= at.1 < s.len(),
        s[at.0] == s.filter(test)[i],
        s[at.1] == s.filter(test)[j],
    decreases s.len(),
{
    reveal(Seq::filter);
    let front = s.drop_last();
    let kept = s.filter(test);
    if s.len() == 0 {
        (0, 0)
    } else if test(s.last()) {
        assert(kept == front.filter(test).push(s.last()));
        if j == kept.len() - 1 {
            if i == j {
                (s.len() - 1, s.len() - 1)
            } else {
                let inner = lemma_filter_order_from(front, test, i, i);
                (inner.0, s.len() - 1)
            }
        } else {
            lemma_filter_order_from(front, test, i, j)
        }
    } else {
        lemma_filter_order_from(front, test, i, j)
    }
}

/// A stable sort by combined size followed by a stable sort by score leaves
/// the ranking.
pub proof fn lemma_two_stable_sorts(
    input: Seq<PairView>,
    sized: Seq<PairView>,
    out: Seq<PairView>,
)
    requires
        is_stable_sort(sized, input, by_size()),
        is_stable_sort(out, sized, by_score()),
    ensures
        is_ranking(out, input),
{
    assert forall|i: int, j: int| 0 <= i <= j < out.len() implies key_le(
        key(out[i]),
        key(out[j]),
    ) by {
        assert(by_score()(out[i]) <= by_score()(out[j]));
        if out[i].score == out[j].score {
            let same = field_is(by_score(), out[i].score);
            assert(same(out[i]) && same(out[j]));
            let kept = lemma_filter_keeps_order(out, same, i, j);
            assert(out.filter(same) == sized.filter(same));
            let from = lemma_filter_order_from(sized, same, kept.0, kept.1);
            assert(by_size()(sized[from.0]) <= by_size()(sized[from.1]));
        }
    }
    assert forall|k: (nat, nat)| #[trigger] with_key(out, k) == with_key(input, k) by {
        let score = field_is(by_score(), k.0);
        let size = field_is(by_size(), k.1);
        let both = has_key(k);
        lemma_filter_twice(out, score, size, both);
        lemma_filter_twice(sized, score, size, both);
        lemma_filter_twice(sized, size, score, both);
        lemma_filter_twice(input, size, score, both);
        assert(out.filter(score) == sized.filter(score));
        assert(sized.filter(size) == input.filter(size));
    }
}

/// Whether the key of `a` is at most the key of `b`.
pub fn precedes(a: &CandidatePair, b: &CandidatePair) -> (r: bool)
    ensures
        r == key_le(key(a@), key(b@)),
{
    a.score < b.score || (a.score == b.score && a.combined_size <= b.combined_size)
}

/// Merges two ordered lists into one. Of two pairs with the same key, the
/// one from `left` comes first.
fn merge(left: &Vec<CandidatePair>, right: &Vec<CandidatePair>) -> (out: Vec<CandidatePair>)
    requires
        ordered(left.deep_view()),
        ordered(right.deep_view()),
    ensures
        out.len() == left.len() + right.len(),
        ordered(out.deep_view()),
        forall|k: (nat, nat)| #[trigger]
            with_key(out.deep_view(), k) == with_key(left.deep_view(), k) + with_key(
                right.deep_view(),
                k,
            ),
{
    let ghost l = left.deep_view();
    let ghost r = right.deep_view();
    let mut out: Vec<CandidatePair> = Vec::new();
    let mut i: usize = 0;
    let mut j: usize = 0;
    proof {
        reveal(Seq::filter);
        assert(out.deep_view() == Seq::<PairView>::empty());
        assert(l.take(0) == Seq::<PairView>::empty());
        assert(r.take(0) == Seq::<PairView>::empty());
        assert forall|k: (nat, nat)| #[trigger]
            with_key(out.deep_view(), k) == with_key(l.take(0), k) + with_key(r.take(0), k) by {
            assert(with_key(l.take(0), k) + with_key(r.take(0), k) == Seq::<PairView>::empty());
        }
    }
    while i < left.len() || j < right.len()
        invariant
            l == left.deep_view(),
            r == right.deep_view(),
            ordered(l),
            ordered(r),
            i <= left.len(),
            j <= right.len(),
            out.len() == i + j,
            ordered(out.deep_view()),
            forall|m: int|
                0 <= m < out.len() && i < l.len() ==> key_le(
                    key(#[trigger] out.deep_view()[m]),
                    key(l[i as int]),
                ),
            forall|m: int|
                0 <= m < out.len() && j < r.len() ==> key_le(
                    key(#[trigger] out.deep_view()[m]),
                    key(r[j as int]),
                ),
            forall|m: int|
                0 <= m < j && i < l.len() ==> !key_le(key(l[i as int]), key(#[trigger] r[m])),
            forall|k: (nat, nat)| #[trigger]
                with_key(out.deep_view(), k) == with_key(l.take(i as int), k) + with_key(
                    r.take(j as int),
                    k,
                ),
        decreases left.len() + right.len() - i - j,
    {
        let ghost before = out.deep_view();
        let from_left = j >= right.len() || (i < left.len() && precedes(&left[i], &right[j]));
        if from_left {
            let pair = left[i];
            proof {
                let x = pair@;
                assert(x == l[i as int]);
                assert(l.take(i + 1) == l.take(i as int).push(x));
                assert forall|m: int| 0 <= m < j implies key(#[trigger] r.take(j as int)[m])
                    != key(x) by {
                    assert(r.take(j as int)[m] == r[m]);
                }
                lemma_with_key_none(r.take(j as int), key(x));
                assert forall|k: (nat, nat)| #[trigger]
                    with_key(before.push(x), k) == with_key(l.take(i + 1), k) + with_key(
                        r.take(j as int),
                        k,
                    ) by {
                    lemma_with_key_push(before, x, k);
                    lemma_with_key_push(l.take(i as int), x, k);
                    assert(with_key(before, k) == with_key(l.take(i as int), k) + with_key(
                        r.take(j as int),
                        k,
                    ));
                    if key(x) == k {
                        assert(with_key(l.take(i as int), k).push(x) + Seq::<PairView>::empty()
                            == (with_key(l.take(i as int), k) + Seq::<PairView>::empty()).push(
                            x,
                        ));
                    }
                }
                if i + 1 < l.len() {
                    assert(key_le(key(l[i as int]), key(l[i + 1])));
                }
            }
            out.push(pair);
            assert(out.deep_view() == before.push(pair@));
            i += 1;
        } else {
            let pair = right[j];
            proof {
                let x = pair@;
                assert(x == r[j as int]);
                assert(r.take(j + 1) == r.take(j as int).push(x));
                assert forall|k: (nat, nat)| #[trigger]
                    with_key(before.push(x), k) == with_key(l.take(i as int), k) + with_key(
                        r.take(j + 1),
                        k,
                    ) by {
                    lemma_with_key_push(before, x, k);
                    lemma_with_key_push(r.take(j as int), x, k);
                    assert(with_key(before, k) == with_key(l.take(i as int), k) + with_key(
                        r.take(j as int),
                        k,
                    ));
                    if key(x) == k {
                        assert(with_key(l.take(i as int), k) + with_key(r.take(j as int), k).push(
                            x,
                        ) == (with_key(l.take(i as int), k) + with_key(r.take(j as int), k)).push(
                            x,
                        ));
                    }
                }
                if j + 1 < r.len() {
                    assert(key_le(key(r[j as int]), key(r[j + 1])));
                }
            }
            out.push(pair);
            assert(out.deep_view() == before.push(pair@));
            j += 1;
        }
    }
    proof {
        assert(l.take(i as int) == l);
        assert(r.take(j as int) == r);
    }
    out
}

/// Ranks the pairs of `pairs` from index `from` up to `to`.
fn sort_range(pairs: &Vec<CandidatePair>, from: usize, to: usize) -> (out: Vec<CandidatePair>)
    requires
        from <= to <= pairs.len(),
    ensures
        is_ranking(out.deep_view(), pairs.deep_view().subrange(from as int, to as int)),
    decreases to - from,
{
    let ghost all = pairs.deep_view();
    let ghost input = all.subrange(from as int, to as int);
    if to - from <= 1 {
        let mut out: Vec<CandidatePair> = Vec::new();
        if to > from {
            out.push(pairs[from]);
        }
        assert(out.deep_view() == input);
        return out;
    }
    let mid: usize = from + (to - from) / 2;
    let left = sort_range(pairs, from, mid);
    let right = sort_range(pairs, mid, to);
    let out = merge(&left, &right);
    proof {
        let first = all.subrange(from as int, mid as int);
        let second = all.subrange(mid as int, to as int);
        assert(input == first + second);
        assert forall|k: (nat, nat)| #[trigger]
            with_key(out.deep_view(), k) == with_key(input, k) by {
            Seq::filter_distributes_over_add(first, second, has_key(k));
            assert(with_key(left.deep_view(), k) == with_key(first, k));
            assert(with_key(right.deep_view(), k) == with_key(second, k));
        }
    }
    out
}

/// Ranks `pairs`: ascending by score, then by combined size, pairs equal in
/// both in the order in which they stand in `pairs`.
pub fn sort_pairs(pairs: &Vec<CandidatePair>) -> (out: Vec<CandidatePair>)
    ensures
        is_ranking(out.deep_view(), pairs.deep_view()),
{
    assert(pairs.deep_view().subrange(0, pairs.len() as int) == pairs.deep_view());
    sort_range(pairs, 0, pairs.len())
}

/// The pairs of `pairs` in the opposite order.
pub fn reversed(pairs: &Vec<CandidatePair>) -> (out: Vec<CandidatePair>)
    ensures
        out.deep_view() == pairs.deep_view().reverse(),
{
    let n = pairs.len();
    let mut out: Vec<CandidatePair> = Vec::new();
    let mut i: usize = 0;
    while i < n
        invariant
            n == pairs.len(),
            i <= n,
            out.len() == i,
            forall|m: int| 0 <= m < i ==> out[m] == pairs[n - 1 - m],
        decreases n - i,
    {
        out.push(pairs[n - 1 - i]);
        i += 1;
    }
    assert(out.deep_view() =~= pairs.deep_view().reverse());
    out
}

/// Ranks `pairs`, and turns the ranking round if `reverse` is set: the
/// highest score then comes first, and pairs of one score come by
/// descending combined size.
pub fn rank(pairs: &Vec<CandidatePair>, reverse: bool) -> (out: Vec<CandidatePair>)
    ensures
        is_ranking(
            if reverse {
                out.deep_view().reverse()
            } else {
                out.deep_view()
            },
            pairs.deep_view(),
        ),
{
    let sorted = sort_pairs(pairs);
    if reverse {
        let out = reversed(&sorted);
        assert(sorted.deep_view().reverse().reverse() =~= sorted.deep_view());
        out
    } else {
        sorted
    }
}

/// Reversing the output order turns the whole list round, and nothing else:
/// the ranking with `reverse` set is the reversal, pair by pair, of the
/// ranking of the same pairs without it.
pub proof fn lemma_reverse_is_reversal(
    input: Seq<PairView>,
    forward: Seq<PairView>,
    backward: Seq<PairView>,
)
    requires
        is_ranking(forward, input),
        is_ranking(backward.reverse(), input),
    ensures
        backward == forward.reverse(),
{
    lemma_ranking_unique(backward.reverse(), forward, input);
    assert(backward.reverse().reverse() =~= backward);
}

} // verus!
