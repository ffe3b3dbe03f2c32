//! The similarity engine: every pair of scanned files is scored once, and
//! the pairs whose similarity exceeds the threshold are kept, in the order
//! in which they are met.

use crate::scan::{FileRecord, RecordView};
use crate::similarity::{lemma_exceeds_lower, Cosine, Ratio, Similarity, Threshold};
use vstd::prelude::*;

verus! {

/// Two files whose names are similar.
#[derive(Clone, Copy, Debug)]
pub struct CandidatePair {
    /// The index of the file that was scanned later.
    pub file_a: usize,
    /// The index of the file that was scanned earlier.
    pub file_b: usize,
    /// The cosine similarity of the two token sets.
    pub similarity: Similarity,
    /// The similarity in steps of one ten-thousandth, rounded down.
    pub score: u32,
    /// The sum of the sizes of the two files.
    pub combined_size: u128,
}

/// A candidate pair, as contracts see it.
pub struct PairView {
    pub file_a: nat,
    pub file_b: nat,
    pub cosine: Cosine,
    pub score: nat,
    pub combined_size: nat,
}

impl View for CandidatePair {
    type V = PairView;

    open spec fn view(&self) -> PairView {
        PairView {
            file_a: self.file_a as nat,
            file_b: self.file_b as nat,
            cosine: self.similarity@,
            score: self.score as nat,
            combined_size: self.combined_size as nat,
        }
    }
}

impl DeepView for CandidatePair {
    type V = PairView;

    open spec fn deep_view(&self) -> PairView {
        self@
    }
}

/// The pair of the files at the indices `a` and `b` of `records`.
pub open spec fn pair_of(records: Seq<RecordView>, a: int, b: int) -> PairView {
    let cosine = Cosine::of(records[a].tokens, records[b].tokens);
    PairView {
        file_a: a as nat,
        file_b: b as nat,
        cosine,
        score: cosine.quantized(),
        combined_size: records[a].size + records[b].size,
    }
}

/// The pairs of the file at index `a` with every file before it, in the
/// order of those files.
pub open spec fn row(records: Seq<RecordView>, a: int) -> Seq<PairView> {
    Seq::new(a as nat, |b: int| pair_of(records, a, b))
}

/// The pairs among the first `n` files: each file with every file before
/// it, file by file. Every unordered pair of distinct files occurs once.
pub open spec fn grid(records: Seq<RecordView>, n: nat) -> Seq<PairView>
    decreases n,
{
    if n == 0 {
        Seq::empty()
    } else {
        grid(records, (n - 1) as nat) + row(records, n - 1)
    }
}

/// The test for a pair's similarity to exceed `t`, as a function of the
/// pair.
pub open spec fn above(t: Ratio) -> spec_fn(PairView) -> bool {
    |pair: PairView| pair.cosine.exceeds(t)
}

/// The pairs of `records` whose similarity is strictly greater than `t`, in
/// the order of [`grid`].
pub open spec fn candidates(records: Seq<RecordView>, t: Ratio) -> Seq<PairView> {
    grid(records, records.len()).filter(above(t))
}

/// Among `n` files there are `n * (n - 1) / 2` pairs.
pub proof fn lemma_grid_len(records: Seq<RecordView>, n: nat)
    ensures
        grid(records, n).len() == n * (n - 1) / 2,
    decreases n,
{
    if n == 0 {
        assert(n * (n - 1) == 0) by (nonlinear_arith)
            requires
                n == 0,
        ;
    } else {
        let m = (n - 1) as nat;
        lemma_grid_len(records, m);
        assert(n * (n - 1) == m * (m - 1) + 2 * m) by (nonlinear_arith)
            requires
                m == n - 1,
        ;
    }
}

/// Where a pair stands in the grid: the pair of the files `a` and `b`,
/// `b` before `a`, comes after all pairs of earlier files and after the
/// pairs of `a` with the files before `b`.
pub proof fn lemma_grid_index(records: Seq<RecordView>, n: nat, a: int, b: int)
    requires
        0 <= b < a < n,
    ensures
        0 <= a * (a - 1) / 2 + b < grid(records, n).len(),
        grid(records, n)[a * (a - 1) / 2 + b] == pair_of(records, a, b),
    decreases n,
{
    lemma_grid_len(records, n);
    lemma_grid_len(records, (n - 1) as nat);
    assert(a * (a - 1) / 2 >= 0) by (nonlinear_arith)
        requires
            a >= 1,
    ;
    if a == n - 1 {
    } else {
        lemma_grid_index(records, (n - 1) as nat, a, b);
    }
}

/// Every pair of the grid is the pair of two distinct files, the second
/// scanned before the first.
pub proof fn lemma_grid_member(records: Seq<RecordView>, n: nat, k: int)
    requires
        0 <= k < grid(records, n).len(),
    ensures
        ({
            let pair = grid(records, n)[k];
            &&& pair.file_b < pair.file_a < n
            &&& pair == pair_of(records, pair.file_a as int, pair.file_b as int)
        }),
    decreases n,
{
    if n > 0 {
        let before = grid(records, (n - 1) as nat);
        if k < before.len() {
            lemma_grid_member(records, (n - 1) as nat, k);
        } else {
            assert(grid(records, n)[k] == row(records, n - 1)[k - before.len()]);
        }
    }
}

/// Every candidate exceeds the threshold: none has a similarity at or below
/// it.
pub proof fn lemma_candidates_exceed(records: Seq<RecordView>, t: Ratio, k: int)
    requires
        0 <= k < candidates(records, t).len(),
    ensures
        candidates(records, t)[k].cosine.exceeds(t),
{
    grid(records, records.len()).lemma_filter_pred(above(t), k);
}

/// Every candidate is the pair of two distinct scanned files, the second
/// scanned before the first.
pub proof fn lemma_candidates_member(records: Seq<RecordView>, t: Ratio, k: int)
    requires
        0 <= k < candidates(records, t).len(),
    ensures
        ({
            let pair = candidates(records, t)[k];
            &&& pair.file_b < pair.file_a < records.len()
            &&& pair == pair_of(records, pair.file_a as int, pair.file_b as int)
        }),
{
    let all = grid(records, records.len());
    let kept = candidates(records, t);
    assert(kept.contains(kept[k]));
    all.lemma_filter_contains_rev(above(t), kept[k]);
    let at = choose|at: int| 0 <= at < all.len() && all[at] == kept[k];
    lemma_grid_member(records, records.len(), at);
}

/// Every pair of distinct files whose similarity exceeds the threshold is a
/// candidate.
pub proof fn lemma_candidates_complete(records: Seq<RecordView>, t: Ratio, a: int, b: int)
    requires
        0 <= b < a < records.len(),
        pair_of(records, a, b).cosine.exceeds(t),
    ensures
        candidates(records, t).contains(pair_of(records, a, b)),
{
    lemma_grid_index(records, records.len(), a, b);
    let at = a * (a - 1) / 2 + b;
    let keep = above(t);
    assert(keep(grid(records, records.len())[at]));
    grid(records, records.len()).lemma_filter_contains(keep, at);
}

/// Of `n` files at most `n * (n - 1) / 2` pairs are candidates.
pub proof fn lemma_candidates_count(records: Seq<RecordView>, t: Ratio)
    ensures
        candidates(records, t).len() <= records.len() * (records.len() - 1) / 2,
{
    lemma_grid_len(records, records.len());
    grid(records, records.len()).lemma_filter_len(above(t));
}

/// Filtering by a test and then by a stronger one is filtering by the
/// stronger one.
pub proof fn lemma_filter_refine(
    s: Seq<PairView>,
    weak: spec_fn(PairView) -> bool,
    strong: spec_fn(PairView) -> bool,
)
    requires
        forall|pair: PairView| #[trigger] strong(pair) ==> weak(pair),
    ensures
        s.filter(weak).filter(strong) == s.filter(strong),
    decreases s.len(),
{
    reveal(Seq::filter);
    if s.len() > 0 {
        let front = s.drop_last();
        let last = s.last();
        lemma_filter_refine(front, weak, strong);
        if weak(last) {
            front.filter(weak).lemma_filter_push(last, strong);
        } else {
            assert(!strong(last));
        }
    }
}

/// Raising the threshold only removes candidates: the candidates at the
/// higher threshold are those candidates at the lower one that exceed the
/// higher one, in the same order.
pub proof fn lemma_raising_threshold(records: Seq<RecordView>, low: Ratio, high: Ratio)
    requires
        low.den > 0,
        high.den > 0,
        low.le(high),
    ensures
        candidates(records, high) == candidates(records, low).filter(above(high)),
        candidates(records, high).len() <= candidates(records, low).len(),
{
    assert forall|pair: PairView| #[trigger] above(high)(pair) implies above(low)(pair) by {
        lemma_exceeds_lower(pair.cosine, low, high);
    }
    lemma_filter_refine(grid(records, records.len()), above(low), above(high));
    candidates(records, low).lemma_filter_len(above(high));
}

/// Scores every pair of `entries` once and returns the pairs whose
/// similarity is strictly greater than `threshold`. Each file is compared
/// with the files before it; the pairs come in that order.
pub fn calculate_duplicates(entries: &Vec<FileRecord>, threshold: &Threshold) -> (out: Vec<
    CandidatePair,
>)
    ensures
        out.deep_view() == candidates(entries.deep_view(), threshold@),
        out.len() <= entries.len() * (entries.len() - 1) / 2,
        forall|k: int|
            0 <= k < out.len() ==> {
                let pair = #[trigger] out[k];
                &&& pair.file_b < pair.file_a < entries.len()
                &&& pair@.cosine.exceeds(threshold@)
            },
{
    let ghost records = entries.deep_view();
    let ghost keep = above(threshold@);
    let n = entries.len();
    let mut out: Vec<CandidatePair> = Vec::new();
    let mut a: usize = 0;
    proof {
        reveal(Seq::filter);
        assert(out.deep_view() == grid(records, 0).filter(keep));
    }
    while a < n
        invariant
            records == entries.deep_view(),
            keep == above(threshold@),
            n == entries.len(),
            a <= n,
            out.deep_view() == grid(records, a as nat).filter(keep),
        decreases n - a,
    {
        let ghost done = grid(records, a as nat);
        let ghost this_row = row(records, a as int);
        let mut b: usize = 0;
        proof {
            assert(done + this_row.take(0) == done);
        }
        while b < a
            invariant
                records == entries.deep_view(),
                keep == above(threshold@),
                n == entries.len(),
                a < n,
                b <= a,
                done == grid(records, a as nat),
                this_row == row(records, a as int),
                out.deep_view() == (done + this_row.take(b as int)).filter(keep),
            decreases a - b,
        {
            let similarity = Similarity::of(&entries[a].tokens, &entries[b].tokens);
            let ghost model = pair_of(records, a as int, b as int);
            proof {
                let so_far = done + this_row.take(b as int);
                assert(this_row[b as int] == model);
                assert(done + this_row.take(b + 1) == so_far.push(model));
                so_far.lemma_filter_push(model, keep);
                assert(similarity@ == model.cosine);
            }
            if similarity.exceeds(threshold) {
                let pair = CandidatePair {
                    file_a: a,
                    file_b: b,
                    similarity,
                    score: similarity.score(),
                    combined_size: entries[a].size as u128 + entries[b].size as u128,
                };
                let ghost before = out.deep_view();
                assert(pair@ == model);
                out.push(pair);
                assert(out.deep_view() == before.push(model));
            }
            b += 1;
        }
        proof {
            assert(this_row.take(a as int) == this_row);
            assert(grid(records, (a + 1) as nat) == done + this_row);
        }
        a += 1;
    }
    proof {
        lemma_candidates_count(records, threshold@);
        assert forall|k: int| 0 <= k < out.len() implies ({
            let pair = #[trigger] out[k];
            &&& pair.file_b < pair.file_a < entries.len()
            &&& pair@.cosine.exceeds(threshold@)
        }) by {
            assert(out.deep_view()[k] == out[k]@);
            lemma_candidates_exceed(records, threshold@, k);
            lemma_candidates_member(records, threshold@, k);
        }
    }
    out
}

} // verus!
