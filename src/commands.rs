//! The options of each report, as plain values. Argument parsing, the
//! history access and the rendering of each report live with the caller.

use vstd::prelude::*;

use crate::filter::ScanOpts;
use crate::paths::chars_of;

verus! {

/// Options common to every report.
pub struct Global {
    /// Emit JSON whatever a report's own flag says.
    pub json: bool,
    /// Order results largest first where a report orders them.
    pub desc: bool,
}

impl Global {
    /// A report emits JSON where its own flag or the global one asks for it.
    pub fn json_output(&self, local: bool) -> (r: bool)
        ensures
            r == (local || self.json),
    {
        local || self.json
    }
}

/// Per-author commit totals and activity spans.
pub struct Stats {
    pub path: String,
    pub limit: Option<usize>,
    pub sort_desc: bool,
}

/// First and last commit of one author.
pub struct AuthorActivity {
    pub path: String,
    pub author: String,
}

/// Line ownership of one file.
pub struct BlameSummary {
    pub file: String,
    pub path: String,
    pub json: bool,
}

/// Commits per author and time of day.
pub struct CommitTimes {
    pub path: String,
    pub json: bool,
}

/// Touches per file and author.
pub struct FileContributions {
    pub path: String,
    pub json: bool,
}

/// First commit of each author.
pub struct FirstCommits {
    pub path: String,
    pub json: bool,
}

/// Pairs of authors who changed the same files.
pub struct TopCoauthors {
    pub path: String,
    pub json: bool,
}

/// Recent change volume per file or directory.
pub struct Churn {
    pub path: String,
    pub window_days: i64,
    /// `file` or `dir`.
    pub by: String,
    pub depth: usize,
    pub all: bool,
    pub include_ext: Vec<String>,
    pub min_total: u64,
    pub limit: usize,
    pub json: bool,
}

impl Churn {
    /// The scan options these flags ask for.
    pub fn scan_opts(&self) -> (r: ScanOpts)
        ensures
            r.all == self.all,
            r.include_ext@ == self.include_ext@,
            r.min_total == self.min_total,
    {
        let mut include_ext: Vec<String> = Vec::new();
        let mut i: usize = 0;
        while i < self.include_ext.len()
            invariant
                i <= self.include_ext.len(),
                include_ext@ == self.include_ext@.take(i as int),
            decreases self.include_ext.len() - i,
        {
            include_ext.push(self.include_ext[i].clone());
            i += 1;
            assert(include_ext@ =~= self.include_ext@.take(i as int));
        }
        assert(self.include_ext@.take(self.include_ext.len() as int) =~= self.include_ext@);
        ScanOpts { all: self.all, include_ext, min_total: self.min_total }
    }

    /// The directory depth to group by, where `by` is `dir`.
    pub fn by_dir(&self) -> (r: Option<usize>)
        ensures
            r == (if self.by@ == seq!['d', 'i', 'r'] {
                Some(self.depth)
            } else {
                None::<usize>
            }),
    {
        let c = chars_of(self.by.as_str());
        if c.len() == 3 && c[0] == 'd' && c[1] == 'i' && c[2] == 'r' {
            assert(c@ =~= seq!['d', 'i', 'r']);
            Some(self.depth)
        } else {
            assert(c@ != seq!['d', 'i', 'r']);
            None
        }
    }
}

} // verus!
