//! Which paths take part in a scan.

use vstd::prelude::*;

use crate::paths::{chars_of, extension, extension_of, lower_char, lower_seq};

verus! {

/// Minimum size reported when the caller names none (lines or touches).
pub const DEFAULT_MIN_TOTAL: u64 = 25;

/// What a scan looks at, and the smallest path it reports.
pub struct ScanOpts {
    /// Every path takes part, whatever its extension.
    pub all: bool,
    /// Extensions that take part besides the built-in ones, in lower case.
    pub include_ext: Vec<String>,
    /// Paths with fewer lines (blame) or touches (history) are left out.
    pub min_total: u64,
}

impl Default for ScanOpts {
    fn default() -> (r: Self)
        ensures
            !r.all,
            r.include_ext@.len() == 0,
            r.min_total == DEFAULT_MIN_TOTAL,
    {
        ScanOpts { all: false, include_ext: Vec::new(), min_total: DEFAULT_MIN_TOTAL }
    }
}

/// The built-in extensions: common source, configuration and text files.
pub open spec fn allowed_ext_spec() -> Seq<Seq<char>> {
    seq![
        "rs"@, "ts"@, "tsx"@, "js"@, "jsx"@, "java"@, "kt"@, "kts"@, "go"@, "py"@, "rb"@,
        "swift"@, "c"@, "h"@, "cpp"@, "hpp"@, "cc"@, "hh"@, "cs"@, "php"@, "scala"@, "m"@,
        "mm"@, "sh"@, "bash"@, "zsh"@, "fish"@, "sql"@, "xml"@, "yml"@, "yaml"@, "toml"@,
        "json"@, "lock"@, "lua"@, "vim"@, "conf"@, "ini"@, "cfg"@, "md"@, "txt"@,
    ]
}

/// The built-in extensions, as data.
pub fn allowed_ext() -> (r: Vec<&'static str>)
    ensures
        r@.map_values(|s: &str| s@) == allowed_ext_spec(),
{
    let r = vec![
        "rs", "ts", "tsx", "js", "jsx", "java", "kt", "kts", "go", "py", "rb", "swift", "c", "h",
        "cpp", "hpp", "cc", "hh", "cs", "php", "scala", "m", "mm", "sh", "bash", "zsh", "fish",
        "sql", "xml", "yml", "yaml", "toml", "json", "lock", "lua", "vim", "conf", "ini", "cfg",
        "md", "txt",
    ];
    assert(r@.map_values(|s: &str| s@) =~= allowed_ext_spec());
    r
}

/// Whether a path takes part in a scan: every path where `all` is set,
/// else one whose lower-case extension is built in or among `include_ext`.
pub open spec fn included(p: Seq<char>, opts: ScanOpts) -> bool {
    opts.all || match extension(p) {
        None => false,
        Some(e) => allowed_ext_spec().contains(lower_seq(e)) || exists|i: int|
            0 <= i < opts.include_ext@.len() && #[trigger] opts.include_ext@[i]@ == lower_seq(e),
    }
}

/// Whether `cand` is the lower case of `e`.
fn lower_matches(e: &Vec<char>, cand: &str) -> (r: bool)
    ensures
        r == (lower_seq(e@) == cand@),
{
    let c = chars_of(cand);
    if c.len() != e.len() {
        return false;
    }
    let mut i: usize = 0;
    while i < e.len()
        invariant
            i <= e.len() == c.len(),
            c@ == cand@,
            forall|j: int| 0 <= j < i ==> lower_seq(e@)[j] == c@[j],
        decreases e.len() - i,
    {
        if lower_char(e[i]) != c[i] {
            assert(lower_seq(e@)[i as int] != cand@[i as int]);
            return false;
        }
        i += 1;
    }
    assert(lower_seq(e@) =~= cand@);
    true
}

/// Whether `file` takes part in a scan under `opts`.
pub fn ext_ok(file: &str, opts: &ScanOpts) -> (r: bool)
    ensures
        r == included(file@, *opts),
{
    if opts.all {
        return true;
    }
    let p = chars_of(file);
    let e = match extension_of(&p) {
        None => return false,
        Some(e) => e,
    };
    let allowed = allowed_ext();
    let ghost av = allowed@.map_values(|s: &str| s@);
    let mut i: usize = 0;
    while i < allowed.len()
        invariant
            i <= allowed.len(),
            av == allowed@.map_values(|s: &str| s@),
            av == allowed_ext_spec(),
            extension(file@) == Some(e@),
            forall|j: int| 0 <= j < i ==> av[j] != lower_seq(e@),
        decreases allowed.len() - i,
    {
        if lower_matches(&e, allowed[i]) {
            assert(av[i as int] == lower_seq(e@));
            assert(allowed_ext_spec().contains(lower_seq(e@)));
            return true;
        }
        i += 1;
    }
    assert(!allowed_ext_spec().contains(lower_seq(e@)));
    let mut k: usize = 0;
    while k < opts.include_ext.len()
        invariant
            k <= opts.include_ext.len(),
            extension(file@) == Some(e@),
            !allowed_ext_spec().contains(lower_seq(e@)),
            forall|j: int| 0 <= j < k ==> opts.include_ext@[j]@ != lower_seq(e@),
        decreases opts.include_ext.len() - k,
    {
        if lower_matches(&e, opts.include_ext[k].as_str()) {
            assert(opts.include_ext@[k as int]@ == lower_seq(e@));
            return true;
        }
        k += 1;
    }
    false
}

} // verus!
