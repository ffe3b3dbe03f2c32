use name_similarity::config::Config;
use name_similarity::pairs::{calculate_duplicates, CandidatePair};
use name_similarity::rank::{precedes, rank, reversed, sort_pairs};
use name_similarity::report::run;
use name_similarity::scan::{DirEntry, FileMeta, FileRecord};
use name_similarity::similarity::{Similarity, Threshold};
use name_similarity::tokens::tokenize;

fn threshold(num: u64, den: u64) -> Threshold {
    Threshold::new(num, den).unwrap()
}

fn record(name: &str, size: u64, width: usize) -> FileRecord {
    FileRecord { path: format!("/data/{}", name), size, tokens: tokenize(name, width) }
}

fn file(root: &str, name: &str, len: u64) -> DirEntry {
    DirEntry {
        path: format!("{}/{}", root, name),
        file_name: name.to_string(),
        metadata: Some(FileMeta { is_file: true, len }),
    }
}

fn pair(file_a: usize, file_b: usize, overlap: usize, len: usize, size: u128) -> CandidatePair {
    let similarity = Similarity::from_counts(overlap, len, len);
    CandidatePair { file_a, file_b, similarity, score: similarity.score(), combined_size: size }
}

fn files(pairs: &Vec<CandidatePair>) -> Vec<(usize, usize)> {
    pairs.iter().map(|p| (p.file_a, p.file_b)).collect()
}

fn corpus() -> Vec<FileRecord> {
    vec![
        record("report_final.txt", 100, 1),
        record("report_v2.txt", 200, 1),
        record("invoice.pdf", 50, 1),
        record("report_final_v2.txt", 10, 1),
        record("---", 1, 1),
    ]
}

#[test]
fn two_similar_reports_and_an_invoice() {
    let records = vec![
        record("report_final.txt", 100, 1),
        record("report_v2.txt", 200, 1),
        record("invoice.pdf", 50, 1),
    ];
    let found = calculate_duplicates(&records, &threshold(3, 10));
    assert_eq!(found.len(), 1);
    assert_eq!(found[0].file_a, 1);
    assert_eq!(found[0].file_b, 0);
    assert_eq!(found[0].similarity.overlap(), 2);
    assert_eq!(found[0].similarity.norm(), 9);
    assert_eq!(found[0].score, 6666);
    assert_eq!(found[0].combined_size, 300);
}

#[test]
fn pairs_come_in_the_order_of_discovery() {
    let found = calculate_duplicates(&corpus(), &threshold(0, 1));
    // Every pair that shares a token: each file with the files before it.
    assert_eq!(files(&found), vec![(1, 0), (3, 0), (3, 1)]);
    assert_eq!(found[1].similarity.overlap(), 3);
    assert_eq!(found[1].similarity.norm(), 12);
    assert_eq!(found[1].score, 8660);
    assert_eq!(found[1].combined_size, 110);
    assert_eq!(found[2].score, 8660);
    assert_eq!(found[2].combined_size, 210);
}

#[test]
fn no_pair_at_or_below_the_threshold_is_returned() {
    let records = corpus();
    for (num, den) in [(0u64, 1u64), (3, 10), (2, 3), (6666, 10000), (8660, 10000), (9, 10), (1, 1)] {
        let t = threshold(num, den);
        for found in calculate_duplicates(&records, &t) {
            assert!(found.similarity.exceeds(&t));
            let again = Similarity::of(&records[found.file_a].tokens, &records[found.file_b].tokens);
            assert_eq!(again.overlap(), found.similarity.overlap());
            assert_eq!(again.norm(), found.similarity.norm());
        }
    }
    // 2 / 3 is the similarity of the first two files: equal is not above.
    assert_eq!(files(&calculate_duplicates(&records, &threshold(2, 3))), vec![(3, 0), (3, 1)]);
}

#[test]
fn raising_the_threshold_removes_pairs_only() {
    let records = corpus();
    let steps = [(0u64, 10u64), (3, 10), (6, 10), (7, 10), (9, 10), (10, 10)];
    let mut previous = files(&calculate_duplicates(&records, &threshold(0, 1)));
    let mut counts = Vec::new();
    for (num, den) in steps {
        let current = files(&calculate_duplicates(&records, &threshold(num, den)));
        assert!(current.iter().all(|p| previous.contains(p)));
        assert!(current.len() <= previous.len());
        counts.push(current.len());
        previous = current;
    }
    assert_eq!(counts, vec![3, 3, 3, 2, 0, 0]);
}

#[test]
fn at_most_every_pair_is_returned() {
    let same: Vec<FileRecord> = (0..6).map(|i| record("same_name.txt", i, 1)).collect();
    let found = calculate_duplicates(&same, &threshold(0, 1));
    assert_eq!(found.len(), 6 * 5 / 2);
    assert_eq!(files(&found)[..4].to_vec(), vec![(1, 0), (2, 0), (2, 1), (3, 0)]);
    assert!(found.iter().all(|p| p.file_b < p.file_a && p.file_a < 6));
    assert!(calculate_duplicates(&corpus(), &threshold(0, 1)).len() <= 5 * 4 / 2);
}

#[test]
fn fewer_than_two_files_give_no_pair() {
    assert!(calculate_duplicates(&Vec::new(), &threshold(0, 1)).is_empty());
    let one = vec![record("report.txt", 1, 1)];
    assert!(calculate_duplicates(&one, &threshold(0, 1)).is_empty());
}

#[test]
fn pairs_are_ranked_by_score_then_size() {
    let input = vec![
        pair(1, 0, 2, 2, 500),
        pair(2, 0, 1, 2, 900),
        pair(2, 1, 1, 2, 100),
        pair(3, 0, 2, 3, 300),
        pair(3, 1, 2, 2, 50),
    ];
    let ranked = sort_pairs(&input);
    assert_eq!(files(&ranked), vec![(2, 1), (2, 0), (3, 0), (3, 1), (1, 0)]);
    let scores: Vec<u32> = ranked.iter().map(|p| p.score).collect();
    assert_eq!(scores, vec![5000, 5000, 6666, 10000, 10000]);
}

#[test]
fn pairs_equal_in_score_and_size_keep_their_order() {
    let input = vec![
        pair(4, 0, 1, 2, 7),
        pair(4, 1, 1, 2, 7),
        pair(1, 0, 1, 2, 7),
        pair(3, 2, 1, 2, 7),
        pair(2, 0, 1, 3, 7),
        pair(2, 1, 1, 2, 7),
    ];
    let ranked = sort_pairs(&input);
    assert_eq!(files(&ranked), vec![(2, 0), (4, 0), (4, 1), (1, 0), (3, 2), (2, 1)]);
}

#[test]
fn ranking_is_what_two_stable_sorts_leave() {
    let mut input = Vec::new();
    let mut seed: u64 = 12345;
    for a in 1..40usize {
        for b in 0..a {
            seed = seed.wrapping_mul(6364136223846793005).wrapping_add(1442695040888963407);
            let overlap = 1 + (seed >> 33) as usize % 3;
            let size = (seed >> 20) as u128 % 4;
            input.push(pair(a, b, overlap, 3, size));
        }
    }
    let mut expected = input.clone();
    expected.sort_by_key(|p| p.combined_size);
    expected.sort_by_key(|p| p.score);
    let ranked = sort_pairs(&input);
    assert_eq!(files(&ranked), files(&expected));
    expected.reverse();
    assert_eq!(files(&rank(&input, true)), files(&expected));
}

#[test]
fn reversing_turns_the_whole_ranking_round() {
    let input = vec![
        pair(1, 0, 2, 2, 500),
        pair(2, 0, 1, 2, 900),
        pair(2, 1, 1, 2, 100),
        pair(3, 0, 1, 2, 100),
        pair(3, 1, 2, 2, 50),
    ];
    let forward = rank(&input, false);
    let backward = rank(&input, true);
    assert_eq!(files(&forward), vec![(2, 1), (3, 0), (2, 0), (3, 1), (1, 0)]);
    assert_eq!(files(&backward), vec![(1, 0), (3, 1), (2, 0), (3, 0), (2, 1)]);
    let mut turned = files(&forward);
    turned.reverse();
    assert_eq!(files(&backward), turned);
    assert_eq!(files(&reversed(&forward)), turned);
    assert!(rank(&Vec::new(), true).is_empty());
}

#[test]
fn the_key_is_the_score_then_the_size() {
    let low = pair(1, 0, 1, 2, 900);
    let high = pair(2, 0, 2, 2, 100);
    let small = pair(2, 1, 1, 2, 100);
    assert!(precedes(&low, &high));
    assert!(!precedes(&high, &low));
    assert!(precedes(&small, &low));
    assert!(!precedes(&low, &small));
    assert!(precedes(&low, &low));
}

#[test]
fn an_empty_root_gives_an_empty_report() {
    let config = Config::new(2, ".*", threshold(6, 10), false).ok().unwrap();
    let report = run(&vec![Vec::new()], &config);
    assert!(report.records.is_empty());
    assert!(report.pairs.is_empty());
    assert_eq!(report.count(), 0);
    let report = run(&Vec::new(), &config);
    assert_eq!(report.records.len(), 0);
    assert_eq!(report.count(), 0);
}

#[test]
fn a_run_finds_the_two_reports() {
    let listing = vec![
        file("/data", "report_final.txt", 100),
        file("/data", "report_v2.txt", 200),
        file("/data", "invoice.pdf", 50),
    ];
    let config = Config::new(1, ".*", threshold(3, 10), false).ok().unwrap();
    let report = run(&vec![listing], &config);
    assert_eq!(report.records.len(), 3);
    assert_eq!(report.count(), 1);
    let found = &report.pairs[0];
    assert_eq!(report.records[found.file_a].path, "/data/report_v2.txt");
    assert_eq!(report.records[found.file_b].path, "/data/report_final.txt");
    let (path_a, path_b) = report.paths(0).unwrap();
    assert_eq!(path_a, "/data/report_v2.txt");
    assert_eq!(path_b, "/data/report_final.txt");
    assert!(report.paths(1).is_none());
    assert_eq!(found.score, 6666);
    assert_eq!(found.combined_size, 300);
}

#[test]
fn a_run_compares_files_across_roots() {
    let first = vec![file("/one", "holiday_photo_1.jpg", 10), file("/one", "notes.txt", 1)];
    let second = vec![file("/two", "holiday_photo_2.jpg", 20), file("/two", "Holiday-Photo.1.JPG", 5)];
    let config = Config::new(2, r"(?i)\.jpg$", threshold(3, 10), false).ok().unwrap();
    let report = run(&vec![first, second], &config);
    let paths: Vec<&str> = report.records.iter().map(|r| r.path.as_str()).collect();
    assert_eq!(paths, vec!["/one/holiday_photo_1.jpg", "/two/holiday_photo_2.jpg", "/two/Holiday-Photo.1.JPG"]);
    // Bigrams: {holiday.photo, photo.1, 1.jpg}, {holiday.photo, photo.2, 2.jpg}, and the first again.
    // The two pairs of score 3333 come by ascending combined size.
    assert_eq!(files(&report.pairs), vec![(2, 1), (1, 0), (2, 0)]);
    let scores: Vec<u32> = report.pairs.iter().map(|p| p.score).collect();
    assert_eq!(scores, vec![3333, 3333, 10000]);
    let sizes: Vec<u128> = report.pairs.iter().map(|p| p.combined_size).collect();
    assert_eq!(sizes, vec![25, 30, 15]);
}
