use gitrivia::bus_factor::{
    aggregate_dir_from_file_scores, bus_factor, compute_dir_scores_parallel,
    compute_scores_parallel, score_file, BusScore, DirScore,
};
use gitrivia::counts::{blame_counts, top_index, AuthorCount, BlameHunk, FileBlame};
use gitrivia::filter::ScanOpts;
use gitrivia::rank::{rank_scores, ScanError};

fn hunk(author: &str, lines: u64) -> BlameHunk {
    BlameHunk { author: author.to_string(), lines }
}

fn file(path: &str, hunks: Vec<BlameHunk>) -> FileBlame {
    FileBlame { path: path.to_string(), hunks }
}

fn opts(min_total: u64) -> ScanOpts {
    ScanOpts { all: false, include_ext: Vec::new(), min_total }
}

fn score(path: &str, author: &str, top: u64, total: u64) -> BusScore {
    BusScore { file: path.to_string(), top_author: author.to_string(), top, total }
}

fn find<'a>(scores: &'a [BusScore], path: &str) -> Option<&'a BusScore> {
    scores.iter().find(|s| s.file == path)
}

fn find_dir<'a>(scores: &'a [DirScore], dir: &str) -> Option<&'a DirScore> {
    scores.iter().find(|s| s.dir == dir)
}

#[test]
fn default_min_total_is_25() {
    let o = ScanOpts::default();
    assert!(!o.all);
    assert!(o.include_ext.is_empty());
    assert_eq!(o.min_total, 25);
}

#[test]
fn blame_counts_sums_lines_per_author() {
    let hunks = vec![hunk("x", 4), hunk("y", 2), hunk("x", 6), hunk("z", 1)];
    let counts = blame_counts(&hunks);
    let get = |a: &str| counts.iter().find(|c: &&AuthorCount| c.author == a).map(|c| c.count);
    assert_eq!(counts.len(), 3);
    assert_eq!(get("x"), Some(10));
    assert_eq!(get("y"), Some(2));
    assert_eq!(get("z"), Some(1));
}

#[test]
fn top_index_takes_first_of_equal_counts() {
    let counts = vec![
        AuthorCount { author: "a".to_string(), count: 3 },
        AuthorCount { author: "b".to_string(), count: 7 },
        AuthorCount { author: "c".to_string(), count: 7 },
    ];
    assert_eq!(top_index(&counts), 1);
}

#[test]
fn two_commit_rewrite_gives_second_author_eight_tenths() {
    // Commit 1 by X adds ten lines; commit 2 by Y rewrites eight of them.
    let f = file("f.txt", vec![hunk("Y", 5), hunk("X", 1), hunk("Y", 3), hunk("X", 1)]);
    let scores = compute_scores_parallel(&vec![f], &opts(1));
    assert_eq!(scores.len(), 1);
    let s = &scores[0];
    assert_eq!(s.file, "f.txt");
    assert_eq!(s.top_author, "Y");
    assert_eq!(s.total, 10);
    assert_eq!(s.top, 8);
    assert_eq!(s.top as f64 / s.total as f64, 0.8);
}

#[test]
fn directory_share_uses_summed_authors_not_file_winners() {
    let files = vec![
        file("D/A.rs", vec![hunk("x", 10), hunk("y", 2)]),
        file("D/B.rs", vec![hunk("x", 5), hunk("y", 13)]),
    ];
    let dirs = compute_dir_scores_parallel(&files, &opts(1), 2);
    assert_eq!(dirs.len(), 1);
    let d = &dirs[0];
    assert_eq!(d.dir, "D");
    assert_eq!(d.top_author, "x");
    assert_eq!(d.total, 30);
    assert_eq!(d.top, 15);
    assert_eq!(d.top as f64 / d.total as f64, 0.5);
}

#[test]
fn approximate_fold_gives_whole_files_to_their_winners() {
    let files = vec![
        file("D/A.rs", vec![hunk("x", 10), hunk("y", 2)]),
        file("D/B.rs", vec![hunk("x", 5), hunk("y", 13)]),
    ];
    let scores = compute_scores_parallel(&files, &opts(1));
    let dirs = aggregate_dir_from_file_scores(&scores, 2);
    assert_eq!(dirs.len(), 1);
    assert_eq!(dirs[0].dir, "D");
    assert_eq!(dirs[0].top_author, "y");
    assert_eq!(dirs[0].top, 18);
    assert_eq!(dirs[0].total, 30);
}

#[test]
fn ratios_lie_in_unit_interval_and_totals_sum_authors() {
    let files = vec![
        file("a.rs", vec![hunk("p", 3), hunk("q", 9), hunk("p", 1)]),
        file("b/c.rs", vec![hunk("q", 1)]),
        file("b/d.rs", vec![hunk("r", 4), hunk("s", 4)]),
    ];
    for s in compute_scores_parallel(&files, &opts(1)) {
        assert!(s.total >= 1 && s.top <= s.total);
        let f = files.iter().find(|f| f.path == s.file).unwrap();
        let sum: u64 = f.hunks.iter().map(|h| h.lines).sum();
        assert_eq!(s.total, sum);
    }
    for d in compute_dir_scores_parallel(&files, &opts(1), 1) {
        assert!(d.total >= 1 && d.top <= d.total);
    }
}

#[test]
fn same_input_scores_the_same_twice() {
    let files = vec![
        file("src/a.rs", vec![hunk("p", 3), hunk("q", 3)]),
        file("src/b.rs", vec![hunk("q", 7), hunk("p", 1)]),
        file("lib/c.rs", vec![hunk("r", 2)]),
    ];
    let a = compute_scores_parallel(&files, &opts(1));
    let b = compute_scores_parallel(&files, &opts(1));
    assert_eq!(a.len(), b.len());
    for s in &a {
        let t = find(&b, &s.file).unwrap();
        assert_eq!((s.top, s.total), (t.top, t.total));
    }
    let da = compute_dir_scores_parallel(&files, &opts(1), 1);
    let db = compute_dir_scores_parallel(&files, &opts(1), 1);
    assert_eq!(da.len(), db.len());
    for s in &da {
        let t = find_dir(&db, &s.dir).unwrap();
        assert_eq!((s.top, s.total), (t.top, t.total));
    }
}

#[test]
fn raising_min_total_drops_path_and_its_directory_share() {
    let files = vec![
        file("d/big.rs", vec![hunk("x", 30)]),
        file("d/small.rs", vec![hunk("y", 12)]),
    ];
    let low = compute_scores_parallel(&files, &opts(1));
    assert!(find(&low, "d/small.rs").is_some());
    let high = compute_scores_parallel(&files, &opts(13));
    assert!(find(&high, "d/small.rs").is_none());
    assert!(find(&high, "d/big.rs").is_some());

    let dirs_low = compute_dir_scores_parallel(&files, &opts(1), 1);
    assert_eq!(find_dir(&dirs_low, "d").unwrap().total, 42);
    let dirs_high = compute_dir_scores_parallel(&files, &opts(13), 1);
    let d = find_dir(&dirs_high, "d").unwrap();
    assert_eq!((d.top_author.as_str(), d.top, d.total), ("x", 30, 30));

    let ranked = rank_scores(high, 0, 1).ok().unwrap();
    assert!(ranked.matches.iter().all(|s| s.file != "d/small.rs"));
    assert!(ranked.candidates.iter().all(|s| s.file != "d/small.rs"));
}

#[test]
fn files_outside_filter_or_below_min_are_left_out() {
    let files = vec![
        file("README", vec![hunk("x", 50)]),
        file("notes.bin", vec![hunk("x", 50)]),
        file("tiny.rs", vec![hunk("x", 2)]),
        file("main.rs", vec![hunk("x", 30)]),
    ];
    let scores = compute_scores_parallel(&files, &opts(10));
    assert_eq!(scores.len(), 1);
    assert_eq!(scores[0].file, "main.rs");
    assert!(score_file(&files[0], &opts(10)).is_none());
    assert!(score_file(&files[3], &opts(10)).is_some());
}

#[test]
fn empty_blame_scores_nothing() {
    let scores = compute_scores_parallel(&vec![file("a.rs", vec![])], &opts(0));
    assert!(scores.is_empty());
    let dirs = compute_dir_scores_parallel(&vec![file("a/b.rs", vec![hunk("x", 0)])], &opts(0), 1);
    assert!(dirs.is_empty());
}

#[test]
fn scores_rank_by_ratio_then_total() {
    let scores = vec![
        score("a.rs", "x", 5, 10),
        score("b.rs", "x", 9, 10),
        score("c.rs", "x", 1, 2),
        score("d.rs", "x", 18, 20),
    ];
    let r = rank_scores(scores, 3, 4).ok().unwrap();
    let order: Vec<&str> = r.candidates.iter().map(|s| s.file.as_str()).collect();
    assert_eq!(order, vec!["d.rs", "b.rs", "a.rs", "c.rs"]);
    let hits: Vec<&str> = r.matches.iter().map(|s| s.file.as_str()).collect();
    assert_eq!(hits, vec!["d.rs", "b.rs"]);
}

#[test]
fn threshold_match_is_strict() {
    let r = rank_scores(vec![score("a.rs", "x", 3, 4)], 3, 4).ok().unwrap();
    assert!(r.matches.is_empty());
    assert_eq!(r.candidates.len(), 1);
}

#[test]
fn threshold_outside_unit_interval_is_refused() {
    assert_eq!(rank_scores(Vec::<BusScore>::new(), -1, 4).err(), Some(ScanError::ThresholdOutOfRange));
    assert_eq!(rank_scores(Vec::<BusScore>::new(), 5, 4).err(), Some(ScanError::ThresholdOutOfRange));
    assert_eq!(rank_scores(Vec::<BusScore>::new(), 0, 0).err(), Some(ScanError::ThresholdOutOfRange));
    assert!(rank_scores(Vec::<BusScore>::new(), 4, 4).is_ok());
    assert!(rank_scores(Vec::<BusScore>::new(), 0, 4).is_ok());
}

#[test]
fn bus_factor_lists_files_above_threshold() {
    let files = vec![
        file("a.rs", vec![hunk("x", 9), hunk("y", 1)]),
        file("b.rs", vec![hunk("x", 5), hunk("y", 5)]),
    ];
    let hits = bus_factor(&files, 3, 4, &opts(1)).ok().unwrap();
    assert_eq!(hits.len(), 1);
    assert_eq!(hits[0].file, "a.rs");
    assert_eq!(hits[0].top_author, "x");
    assert_eq!(bus_factor(&files, 2, 1, &opts(1)).err(), Some(ScanError::ThresholdOutOfRange));
}
