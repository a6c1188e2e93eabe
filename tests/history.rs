use gitrivia::churn::{compute_churn, compute_churn_by_dir, decay_weight, weight_scale, ChurnEntry};
use gitrivia::filter::ScanOpts;
use gitrivia::history::{
    compute_dir_scores_fast, compute_scores_fast, CommitRecord, FileChange, LineStats,
};

const DAY: i64 = 86400;
const NOW: i64 = 1_700_000_000;

fn opts(min_total: u64) -> ScanOpts {
    ScanOpts { all: false, include_ext: Vec::new(), min_total }
}

fn touch(path: &str) -> FileChange {
    FileChange { path: path.to_string(), stats: None }
}

fn lines(path: &str, adds: u64, dels: u64, context: u64) -> FileChange {
    FileChange { path: path.to_string(), stats: Some(LineStats { context, adds, dels }) }
}

fn commit(author: &str, time: i64, changes: Option<Vec<FileChange>>) -> CommitRecord {
    CommitRecord { author: author.to_string(), time, changes }
}

fn entry<'a>(rows: &'a [ChurnEntry], path: &str) -> &'a ChurnEntry {
    rows.iter().find(|e| e.path == path).unwrap()
}

#[test]
fn touches_count_distinct_commits_per_path() {
    let commits = vec![
        commit("a", NOW, Some(vec![touch("x.rs"), touch("x.rs"), touch("y.rs")])),
        commit("b", NOW - 10, Some(vec![touch("x.rs")])),
        commit("a", NOW - 20, Some(vec![touch("x.rs")])),
        commit("c", NOW - 30, None),
    ];
    let scores = compute_scores_fast(&commits, None, &opts(1));
    let x = scores.iter().find(|s| s.file == "x.rs").unwrap();
    assert_eq!(x.total, 3);
    assert_eq!(x.top_author, "a");
    assert_eq!(x.top, 2);
    let y = scores.iter().find(|s| s.file == "y.rs").unwrap();
    assert_eq!((y.total, y.top), (1, 1));
    assert_eq!(scores[0].file, "y.rs");
}

#[test]
fn commit_cap_limits_the_walk() {
    let commits = vec![
        commit("a", NOW, Some(vec![touch("x.rs")])),
        commit("b", NOW - 1, Some(vec![touch("x.rs")])),
        commit("b", NOW - 2, Some(vec![touch("x.rs")])),
    ];
    let capped = compute_scores_fast(&commits, Some(2), &opts(1));
    assert_eq!(capped.len(), 1);
    assert_eq!(capped[0].total, 2);
    let all = compute_scores_fast(&commits, None, &opts(1));
    assert_eq!(all[0].total, 3);
    assert_eq!(all[0].top_author, "b");
    assert!(compute_scores_fast(&commits, Some(0), &opts(1)).is_empty());
}

#[test]
fn touch_mode_honours_filter_and_min_total() {
    let commits = vec![
        commit("a", NOW, Some(vec![touch("x.rs"), touch("logo.png")])),
        commit("a", NOW - 1, Some(vec![touch("x.rs"), touch("z.rs")])),
    ];
    let scores = compute_scores_fast(&commits, None, &opts(2));
    assert_eq!(scores.len(), 1);
    assert_eq!(scores[0].file, "x.rs");
}

#[test]
fn touch_mode_directories_sum_files_that_qualify() {
    let commits = vec![
        commit("a", NOW, Some(vec![touch("d/x.rs"), touch("d/y.rs"), touch("e/z.rs")])),
        commit("b", NOW - 1, Some(vec![touch("d/x.rs")])),
        commit("b", NOW - 2, Some(vec![touch("d/x.rs"), touch("d/x.rs")])),
    ];
    let dirs = compute_dir_scores_fast(&commits, None, &opts(2), 1);
    assert_eq!(dirs.len(), 1);
    assert_eq!(dirs[0].dir, "d");
    assert_eq!(dirs[0].total, 3);
    assert_eq!(dirs[0].top_author, "b");
    assert_eq!(dirs[0].top, 2);
    let all = compute_dir_scores_fast(&commits, None, &opts(1), 1);
    let d = all.iter().find(|s| s.dir == "d").unwrap();
    assert_eq!((d.total, d.top), (4, 2));
    let e = all.iter().find(|s| s.dir == "e").unwrap();
    assert_eq!((e.total, e.top_author.as_str()), (1, "a"));
}

#[test]
fn decay_weight_at_window_edges() {
    assert_eq!(decay_weight(NOW, NOW, 10), Some(10));
    assert_eq!(weight_scale(10), 10);
    assert_eq!(decay_weight(NOW, NOW - 10 * DAY, 10), None);
    assert_eq!(decay_weight(NOW, NOW - 10 * DAY + 1, 10), Some(1));
    assert_eq!(decay_weight(NOW, NOW - 3 * DAY - 5, 10), Some(7));
    assert_eq!(decay_weight(NOW, NOW + DAY, 10), Some(10));
}

#[test]
fn decay_off_without_positive_window() {
    assert_eq!(weight_scale(0), 1);
    assert_eq!(decay_weight(NOW, NOW, 0), Some(1));
    assert_eq!(decay_weight(NOW, NOW - 1, 0), None);
    assert_eq!(decay_weight(NOW, NOW + 5, -3), Some(1));
}

#[test]
fn churn_weights_recent_changes_more() {
    let commits = vec![
        commit("a", NOW, Some(vec![lines("a.rs", 3, 2, 4)])),
        commit("b", NOW - 3 * DAY, Some(vec![lines("a.rs", 1, 1, 0), lines("b.rs", 10, 0, 0)])),
        commit("c", NOW - 10 * DAY, Some(vec![lines("a.rs", 100, 100, 0)])),
        commit("d", NOW - DAY, None),
    ];
    let rows = compute_churn(&commits, NOW, 10, &opts(0));
    assert_eq!(rows.len(), 2);
    let a = entry(&rows, "a.rs");
    assert_eq!((a.decayed, a.scale, a.adds, a.dels, a.touches), (64, 10, 4, 3, 2));
    assert_eq!(a.decayed as f64 / a.scale as f64, 6.4);
    let b = entry(&rows, "b.rs");
    assert_eq!((b.decayed, b.adds, b.dels, b.touches), (70, 10, 0, 1));
    assert_eq!(rows[0].path, "b.rs");
}

#[test]
fn churn_skips_empty_deltas_and_filtered_paths() {
    let commits = vec![commit(
        "a",
        NOW,
        Some(vec![
            lines("a.rs", 0, 0, 0),
            touch("b.rs"),
            lines("c.png", 5, 5, 0),
            lines("d.rs", 0, 0, 3),
        ]),
    )];
    let rows = compute_churn(&commits, NOW, 30, &opts(0));
    assert_eq!(rows.len(), 1);
    let d = entry(&rows, "d.rs");
    assert_eq!((d.decayed, d.touches), (0, 1));
}

#[test]
fn churn_rolls_up_by_directory() {
    let commits = vec![
        commit("a", NOW, Some(vec![lines("d/x.rs", 2, 0, 0), lines("d/y.rs", 0, 3, 0)])),
        commit("b", NOW - DAY, Some(vec![lines("e/z.rs", 1, 0, 0)])),
    ];
    let rows = compute_churn_by_dir(&commits, NOW, 2, &opts(0), 1);
    assert_eq!(rows.len(), 2);
    let d = entry(&rows, "d");
    assert_eq!((d.decayed, d.scale, d.adds, d.dels, d.touches), (10, 2, 2, 3, 2));
    let e = entry(&rows, "e");
    assert_eq!((e.decayed, e.adds, e.touches), (1, 1, 1));
    assert_eq!(rows[0].path, "d");
}
