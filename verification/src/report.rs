//! A whole run: scan the listings, score the pairs, rank what exceeds the
//! threshold.

use crate::config::Config;
use crate::pairs::{
    calculate_duplicates, candidates, lemma_candidates_count, lemma_candidates_exceed,
    lemma_candidates_member, CandidatePair, PairView,
};
use crate::rank::{is_ranking, lemma_ranking_member, rank};
use crate::scan::{scan_dir, scanned, DirEntry, EntryView, FileRecord, RecordView};
use vstd::prelude::*;

verus! {

/// The records of all listings: those of the first listing, then those of
/// the second, and so on.
pub open spec fn scanned_all(listings: Seq<Seq<EntryView>>, pattern: Seq<char>, width: int) -> Seq<
    RecordView,
>
    decreases listings.len(),
{
    if listings.len() == 0 {
        Seq::empty()
    } else {
        scanned_all(listings.drop_last(), pattern, width) + scanned(listings.last(), pattern, width)
    }
}

/// The pairs of a report in ranking order: as they stand, or turned round
/// where the report was made in reverse.
pub open spec fn forward(pairs: Seq<PairView>, reverse: bool) -> Seq<PairView> {
    if reverse {
        pairs.reverse()
    } else {
        pairs
    }
}

/// What a run returns.
pub struct Report {
    /// The scanned files, in the order in which they were met.
    pub records: Vec<FileRecord>,
    /// The pairs of similar files, in output order. A pair names its files
    /// by their indices in `records`.
    pub pairs: Vec<CandidatePair>,
}

impl Report {
    /// The number of pairs found.
    pub fn count(&self) -> (n: usize)
        ensures
            n == self.pairs.len(),
    {
        self.pairs.len()
    }

    /// The paths of the two files of the pair at index `k`, the file that
    /// was scanned later first. `None` where there is no such pair, or where
    /// the pair names a file that is not among the records.
    pub fn paths(&self, k: usize) -> (found: Option<(&String, &String)>)
        ensures
            found is Some <==> k < self.pairs.len() && self.pairs[k as int].file_a
                < self.records.len() && self.pairs[k as int].file_b < self.records.len(),
            found matches Some(both) ==> {
                &&& *both.0 == self.records[self.pairs[k as int].file_a as int].path
                &&& *both.1 == self.records[self.pairs[k as int].file_b as int].path
            },
    {
        if k >= self.pairs.len() {
            return None;
        }
        let pair = &self.pairs[k];
        if pair.file_a < self.records.len() && pair.file_b < self.records.len() {
            Some((&self.records[pair.file_a].path, &self.records[pair.file_b].path))
        } else {
            None
        }
    }
}

/// Every pair of a ranking of the candidates is a candidate.
proof fn lemma_ranked_candidate(ranked: Seq<PairView>, found: Seq<PairView>, k: int) -> (at: int)
    requires
        is_ranking(ranked, found),
        0 <= k < ranked.len(),
    ensures
        0 <= at < found.len(),
        found[at] == ranked[k],
{
    lemma_ranking_member(ranked, found, k);
    choose|at: int| 0 <= at < found.len() && found[at] == ranked[k]
}

/// Runs the core on the entries of one walk per root directory, under the
/// settings `config`. The files are scanned listing by listing; the pairs
/// whose similarity exceeds the threshold are ranked, and the ranking is
/// turned round if the settings ask for it.
pub fn run(listings: &Vec<Vec<DirEntry>>, config: &Config) -> (report: Report)
    ensures
        report.records.deep_view() == scanned_all(
            listings.deep_view(),
            config@.pattern,
            config@.width,
        ),
        is_ranking(
            forward(report.pairs.deep_view(), config@.reverse),
            candidates(report.records.deep_view(), config@.threshold),
        ),
        forall|k: int|
            0 <= k < report.pairs.len() ==> {
                let pair = #[trigger] report.pairs[k];
                &&& pair.file_b < pair.file_a < report.records.len()
                &&& pair@.cosine.exceeds(config@.threshold)
            },
        report.pairs.len() <= report.records.len() * (report.records.len() - 1) / 2,
{
    let ghost all = listings.deep_view();
    let width = config.width();
    let filter = config.filter();
    let mut records: Vec<FileRecord> = Vec::new();
    let mut i: usize = 0;
    proof {
        assert(all.take(0) == Seq::<Seq<EntryView>>::empty());
        assert(records.deep_view() == Seq::<RecordView>::empty());
    }
    while i < listings.len()
        invariant
            all == listings.deep_view(),
            i <= listings.len(),
            width == config@.width,
            filter@ == config@.pattern,
            crate::tokens::valid_width(width as int),
            records.deep_view() == scanned_all(all.take(i as int), filter@, width as int),
        decreases listings.len() - i,
    {
        let ghost before = records.deep_view();
        let mut more = scan_dir(&listings[i], filter, width);
        let ghost added = more.deep_view();
        proof {
            assert(all.take(i + 1).drop_last() == all.take(i as int));
            assert(all.take(i + 1).last() == listings[i as int].deep_view());
        }
        records.append(&mut more);
        assert(records.deep_view() == before + added);
        i += 1;
    }
    assert(all.take(i as int) == all);
    let found = calculate_duplicates(&records, config.threshold());
    let pairs = rank(&found, config.reverse());
    proof {
        let models = records.deep_view();
        let t = config@.threshold;
        let ranked = forward(pairs.deep_view(), config@.reverse);
        lemma_candidates_count(models, t);
        assert forall|k: int| 0 <= k < pairs.len() implies ({
            let pair = #[trigger] pairs[k];
            &&& pair.file_b < pair.file_a < records.len()
            &&& pair@.cosine.exceeds(t)
        }) by {
            let m = if config@.reverse {
                pairs.len() - 1 - k
            } else {
                k
            };
            assert(ranked[m] == pairs[k]@);
            let at = lemma_ranked_candidate(ranked, found.deep_view(), m);
            lemma_candidates_exceed(models, t, at);
            lemma_candidates_member(models, t, at);
        }
    }
    Report { records, pairs }
}

} // verus!
