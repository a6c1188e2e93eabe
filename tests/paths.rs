use gitrivia::filter::{allowed_ext, ext_ok, ScanOpts};
use gitrivia::paths::{chars_of, dir_key, extension_of};

fn opts(all: bool, extra: &[&str]) -> ScanOpts {
    ScanOpts { all, include_ext: extra.iter().map(|s| s.to_string()).collect(), min_total: 0 }
}

fn ext(p: &str) -> Option<String> {
    extension_of(&chars_of(p)).map(|v| v.into_iter().collect())
}

#[test]
fn dir_key_keeps_first_depth_directories() {
    assert_eq!(dir_key("src/a/b/c.rs", 2), "src/a");
    assert_eq!(dir_key("src/a/b/c.rs", 1), "src");
    assert_eq!(dir_key("src/a/b/c.rs", 9), "src/a/b");
    assert_eq!(dir_key("src/c.rs", 2), "src");
}

#[test]
fn dir_key_of_root_file_or_zero_depth_is_dot() {
    assert_eq!(dir_key("main.rs", 2), ".");
    assert_eq!(dir_key("src/main.rs", 0), ".");
    assert_eq!(dir_key("", 3), ".");
}

#[test]
fn dir_key_reads_normal_components_only() {
    assert_eq!(dir_key("./a//b/./c.rs", 5), "a/b");
    assert_eq!(dir_key("/a/b/c.rs", 1), "a");
    assert_eq!(dir_key("a/../b/c.rs", 2), "a/b");
}

#[test]
fn extension_follows_path_rules() {
    assert_eq!(ext("a/b.rs"), Some("rs".to_string()));
    assert_eq!(ext("a/b.tar.gz"), Some("gz".to_string()));
    assert_eq!(ext("a/.bashrc"), None);
    assert_eq!(ext("a/.x.md"), Some("md".to_string()));
    assert_eq!(ext("Makefile"), None);
    assert_eq!(ext("a/b."), Some(String::new()));
    assert_eq!(ext("a/b.rs/"), Some("rs".to_string()));
    assert_eq!(ext("a/.."), None);
}

#[test]
fn filter_accepts_builtin_extensions_in_any_case() {
    let o = opts(false, &[]);
    assert!(ext_ok("src/main.rs", &o));
    assert!(ext_ok("src/MAIN.RS", &o));
    assert!(ext_ok("docs/readme.md", &o));
    assert!(ext_ok("Cargo.lock", &o));
    assert!(!ext_ok("README", &o));
    assert!(!ext_ok("img/logo.png", &o));
    assert!(!ext_ok(".bashrc", &o));
}

#[test]
fn filter_takes_extra_extensions_and_all() {
    assert!(ext_ok("a.foo", &opts(false, &["foo"])));
    assert!(ext_ok("a.FOO", &opts(false, &["foo"])));
    assert!(!ext_ok("a.foo", &opts(false, &["FOO"])));
    assert!(ext_ok("Makefile", &opts(true, &[])));
    assert!(ext_ok("img/logo.png", &opts(true, &[])));
}

#[test]
fn builtin_list_holds_common_extensions() {
    let list = allowed_ext();
    assert_eq!(list.len(), 41);
    assert!(list.contains(&"rs"));
    assert!(list.contains(&"txt"));
    assert!(!list.contains(&"png"));
}
