use gitrivia::commands::{Churn, Global};
use gitrivia::rank::{check_threshold, ScanError};

fn churn(by: &str) -> Churn {
    Churn {
        path: ".".to_string(),
        window_days: 90,
        by: by.to_string(),
        depth: 3,
        all: true,
        include_ext: vec!["foo".to_string(), "bar".to_string()],
        min_total: 7,
        limit: 20,
        json: false,
    }
}

#[test]
fn churn_groups_by_directory_only_for_dir() {
    assert_eq!(churn("dir").by_dir(), Some(3));
    assert_eq!(churn("file").by_dir(), None);
    assert_eq!(churn("Dir").by_dir(), None);
}

#[test]
fn churn_flags_become_scan_options() {
    let o = churn("file").scan_opts();
    assert!(o.all);
    assert_eq!(o.include_ext, vec!["foo".to_string(), "bar".to_string()]);
    assert_eq!(o.min_total, 7);
}

#[test]
fn json_output_when_either_flag_asks() {
    let quiet = Global { json: false, desc: false };
    let loud = Global { json: true, desc: false };
    assert!(!quiet.json_output(false));
    assert!(quiet.json_output(true));
    assert!(loud.json_output(false));
}

#[test]
fn threshold_check_accepts_unit_interval_only() {
    assert!(check_threshold(0, 1).is_ok());
    assert!(check_threshold(1, 1).is_ok());
    assert!(check_threshold(3, 4).is_ok());
    assert_eq!(check_threshold(5, 4), Err(ScanError::ThresholdOutOfRange));
    assert_eq!(check_threshold(-1, 4), Err(ScanError::ThresholdOutOfRange));
    assert_eq!(check_threshold(0, 0), Err(ScanError::ThresholdOutOfRange));
}
