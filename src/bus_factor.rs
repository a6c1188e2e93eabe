//! Ownership concentration: how much of each path its dominant author holds.

use vstd::prelude::*;

use crate::counts::{
    blame_counts, count_total, hunk_lines, hunk_total, lemma_count_le_total,
    lemma_top_dominates, top_index, AuthorCount, BlameHunk, FileBlame,
};
use crate::filter::{ext_ok, included, ScanOpts};
use crate::paths::{dir_key, dir_key_of};
use crate::rank::{
    keys_distinct, lemma_reordered, rank_scores, ranked, same_share_in, sort_ranked,
        totals_positive, Ranked,
    ScanError,
};
use crate::tally::{
    scores_from_tally, share_wf, tally_add, tally_count, tally_sum, tally_total,
    tally_wf, KeyCounts,
};

verus! {

/// The dominant author of one file: `top` of its `total` lines (blame) or
/// touches (history) are theirs.
pub struct BusScore {
    pub file: String,
    pub top_author: String,
    pub top: u64,
    pub total: u64,
}

/// The dominant author of one directory, over the per-author sums of the
/// files folded into it.
pub struct DirScore {
    pub dir: String,
    pub top_author: String,
    pub top: u64,
    pub total: u64,
}

impl Ranked for BusScore {
    open spec fn share(&self) -> (nat, nat) {
        (self.top as nat, self.total as nat)
    }

    open spec fn key(&self) -> Seq<char> {
        self.file@
    }

    open spec fn owner(&self) -> Seq<char> {
        self.top_author@
    }

    fn make(key: String, owner: String, top: u64, total: u64) -> (r: Self) {
        BusScore { file: key, top_author: owner, top, total }
    }

    fn top_total(&self) -> (r: (u64, u64)) {
        (self.top, self.total)
    }

    fn duplicate(&self) -> (r: Self) {
        BusScore {
            file: self.file.clone(),
            top_author: self.top_author.clone(),
            top: self.top,
            total: self.total,
        }
    }
}

impl Ranked for DirScore {
    open spec fn share(&self) -> (nat, nat) {
        (self.top as nat, self.total as nat)
    }

    open spec fn key(&self) -> Seq<char> {
        self.dir@
    }

    open spec fn owner(&self) -> Seq<char> {
        self.top_author@
    }

    fn make(key: String, owner: String, top: u64, total: u64) -> (r: Self) {
        DirScore { dir: key, top_author: owner, top, total }
    }

    fn top_total(&self) -> (r: (u64, u64)) {
        (self.top, self.total)
    }

    fn duplicate(&self) -> (r: Self) {
        DirScore {
            dir: self.dir.clone(),
            top_author: self.top_author.clone(),
            top: self.top,
            total: self.total,
        }
    }
}

// ---------------------------------------------------------------- blame mode

/// All lines of all files.
pub open spec fn blame_total(files: Seq<FileBlame>) -> nat
    decreases files.len(),
{
    if files.len() == 0 {
        0
    } else {
        blame_total(files.drop_last()) + hunk_total(files.last().hunks@)
    }
}

/// A file is scored in blame mode: it passes the filter and has at least
/// `min_total` lines, and at least one.
pub open spec fn blame_qualifies(f: FileBlame, opts: ScanOpts) -> bool {
    &&& included(f.path@, opts)
    &&& hunk_total(f.hunks@) >= opts.min_total
    &&& hunk_total(f.hunks@) >= 1
}

/// `s` is the blame score of `f`: its lines, and an author who holds the
/// top count and at least as many lines as any other.
pub open spec fn blame_score_of(s: BusScore, f: FileBlame) -> bool {
    &&& s.file@ == f.path@
    &&& s.total as nat == hunk_total(f.hunks@)
    &&& s.top as nat == hunk_lines(f.hunks@, s.top_author@)
    &&& forall|a: Seq<char>| #[trigger] hunk_lines(f.hunks@, a) <= s.top
}

/// `s` is the blame score of a qualifying file `f`.
pub open spec fn scored_from(s: BusScore, f: FileBlame, opts: ScanOpts) -> bool {
    blame_qualifies(f, opts) && blame_score_of(s, f) && share_wf(s.share())
}

/// How many files are scored in blame mode.
pub open spec fn blame_scored(files: Seq<FileBlame>, opts: ScanOpts) -> nat
    decreases files.len(),
{
    if files.len() == 0 {
        0
    } else {
        blame_scored(files.drop_last(), opts) + if blame_qualifies(files.last(), opts) {
            1nat
        } else {
            0
        }
    }
}

/// The file scores of blame mode: one per qualifying file, ranked.
pub open spec fn blame_file_scores(files: Seq<FileBlame>, opts: ScanOpts,
    r: Seq<BusScore>) -> bool {
    &&& r.len() == blame_scored(files, opts)
    &&& forall|k: int|
        0 <= k < r.len() ==> share_wf(#[trigger] r[k].share()) && exists|i: int|
            0 <= i < files.len() && blame_qualifies(files[i], opts) && #[trigger] blame_score_of(
                r[k],
                files[i],
            )
    &&& forall|i: int|
        0 <= i < files.len() && blame_qualifies(#[trigger] files[i], opts) ==> exists|k: int|
            0 <= k < r.len() && #[trigger] blame_score_of(r[k], files[i])
    &&& ranked(r)
}

/// A prefix of the files holds no more lines than all of them.
pub proof fn lemma_blame_total_prefix(files: Seq<FileBlame>, n: int)
    requires
        0 <= n <= files.len(),
    ensures
        blame_total(files.take(n)) <= blame_total(files),
        n < files.len() ==> blame_total(files.take(n)) + hunk_total(files[n].hunks@) <= blame_total(
            files,
        ),
    decreases files.len(),
{
    if n < files.len() {
        assert(files.drop_last().take(n) =~= files.take(n));
        lemma_blame_total_prefix(files.drop_last(), n);
        if n == files.len() - 1 {
            assert(files.take(n) =~= files.drop_last());
        }
    } else {
        assert(files.take(n) =~= files);
    }
}

/// The sum of a map's counts.
fn total_of(c: &Vec<AuthorCount>) -> (r: u64)
    requires
        count_total(c@) <= u64::MAX,
    ensures
        r == count_total(c@),
{
    let mut s: u64 = 0;
    let mut i: usize = 0;
    while i < c.len()
        invariant
            i <= c.len(),
            count_total(c@) <= u64::MAX,
            s == count_total(c@.take(i as int)),
        decreases c.len() - i,
    {
        assert(c@.take(i + 1).drop_last() =~= c@.take(i as int));
        proof {
            lemma_count_total_prefix(c@, i + 1);
        }
        s = s + c[i].count;
        i += 1;
    }
    assert(c@.take(c.len() as int) =~= c@);
    s
}

proof fn lemma_count_total_prefix(c: Seq<AuthorCount>, n: int)
    requires
        0 <= n <= c.len(),
    ensures
        count_total(c.take(n)) <= count_total(c),
    decreases c.len(),
{
    if n < c.len() {
        assert(c.drop_last().take(n) =~= c.take(n));
        lemma_count_total_prefix(c.drop_last(), n);
    } else {
        assert(c.take(n) =~= c);
    }
}

/// The blame score of one file, where it qualifies.
pub fn score_file(f: &FileBlame, opts: &ScanOpts) -> (r: Option<BusScore>)
    requires
        hunk_total(f.hunks@) <= u64::MAX,
    ensures
        r is Some <==> blame_qualifies(*f, *opts),
        r matches Some(s) ==> blame_score_of(s, *f) && share_wf(s.share()),
{
    if !ext_ok(f.path.as_str(), opts) {
        return None;
    }
    let counts = blame_counts(&f.hunks);
    let total = total_of(&counts);
    if total < opts.min_total || total == 0 {
        return None;
    }
    if counts.len() == 0 {
        assert(count_total(counts@) == 0);
    }
    let k = top_index(&counts);
    proof {
        lemma_top_dominates(counts@, k as int);
        lemma_count_le_total(counts@, counts@[k as int].author@);
        assert forall|a: Seq<char>| #[trigger] hunk_lines(f.hunks@, a)
            <= counts@[k as int].count by {
            assert(crate::counts::count_of(counts@, a) == hunk_lines(f.hunks@, a));
        }
        assert(crate::counts::count_of(counts@, counts@[k as int].author@) == hunk_lines(
            f.hunks@,
            counts@[k as int].author@,
        ));
    }
    Some(
        BusScore {
            file: f.path.clone(),
            top_author: counts[k].author.clone(),
            top: counts[k].count,
            total,
        },
    )
}

/// Blame-mode scores of every qualifying file, ranked. The blame of each
/// file is gathered by the caller, one independent handle per file, and may
/// be gathered in parallel; a file whose blame failed is left out of
/// `files`.
pub fn compute_scores_parallel(files: &Vec<FileBlame>, opts: &ScanOpts) -> (r: Vec<BusScore>)
    requires
        blame_total(files@) <= u64::MAX,
    ensures
        blame_file_scores(files@, *opts, r@),
{
    let mut pre: Vec<BusScore> = Vec::new();
    let ghost mut src: Seq<int> = Seq::empty();
    let mut i: usize = 0;
    while i < files.len()
        invariant
            i <= files.len(),
            blame_total(files@) <= u64::MAX,
            pre@.len() == blame_scored(files@.take(i as int), *opts),
            src.len() == pre@.len(),
            forall|k: int| 0 <= k < src.len() ==> 0 <= #[trigger] src[k] < i,
            forall|k: int|
                0 <= k < src.len() ==> scored_from(#[trigger] pre@[k], files@[src[k]], *opts),
            forall|j: int|
                0 <= j < i && blame_qualifies(#[trigger] files@[j], *opts) ==> exists|k: int|
                    0 <= k < src.len() && src[k] == j,
        decreases files.len() - i,
    {
        proof {
            lemma_blame_total_prefix(files@, i as int);
            assert(files@.take(i + 1).drop_last() =~= files@.take(i as int));
        }
        let ghost before = pre@;
        let ghost src0 = src;
        match score_file(&files[i], opts) {
            Some(s) => {
                pre.push(s);
                proof {
                    src = src.push(i as int);
                    assert forall|k: int|
                        0 <= k < src.len() implies scored_from(
                        #[trigger] pre@[k],
                        files@[src[k]],
                        *opts,
                    ) by {
                        if k < before.len() {
                            assert(pre@[k] == before[k] && src[k] == src0[k]);
                        } else {
                            assert(pre@[k] == s && src[k] == i);
                            assert(files@[i as int] == files[i as int]);
                        }
                    }
                    assert forall|j: int|
                        0 <= j < i + 1 && blame_qualifies(#[trigger] files@[j],
                            *opts) implies exists|
                        k: int,
                    | 0 <= k < src.len() && src[k] == j by {
                        if j < i {
                            let k = choose|k: int| 0 <= k < src0.len() && src0[k] == j;
                            assert(src[k] == j);
                        } else {
                            assert(src[src0.len() as int] == j);
                        }
                    }
                }
            },
            None => {
                proof {
                    assert forall|j: int|
                        0 <= j < i + 1 && blame_qualifies(#[trigger] files@[j],
                            *opts) implies exists|
                        k: int,
                    | 0 <= k < src.len() && src[k] == j by {
                        if j < i {
                            let k = choose|k: int| 0 <= k < src0.len() && src0[k] == j;
                        }
                    }
                }
            },
        }
        i += 1;
    }
    assert(files@.take(files.len() as int) =~= files@);
    assert(totals_positive(pre@)) by {
        assert forall|k: int| 0 <= k < pre@.len() implies #[trigger] pre@[k].share().1 > 0 by {
            assert(scored_from(pre@[k], files@[src[k]], *opts));
        }
    }
    let r = sort_ranked(pre);
    proof {
        lemma_reordered(pre@, r@);
        assert forall|k: int|
            0 <= k < r@.len() implies share_wf(#[trigger] r@[k].share()) && exists|i: int|
            0 <= i < files@.len() && blame_qualifies(files@[i], *opts) && #[trigger] blame_score_of(
                r@[k],
                files@[i],
            ) by {
            assert(r@.contains(r@[k]));
            let x = choose|x: int| 0 <= x < pre@.len() && pre@[x] == r@[k];
            assert(scored_from(pre@[x], files@[src[x]], *opts));
            assert(blame_score_of(r@[k], files@[src[x]]));
        }
        assert forall|i: int|
            0 <= i < files@.len() && blame_qualifies(#[trigger] files@[i], *opts) implies exists|
            k: int,
        | 0 <= k < r@.len() && #[trigger] blame_score_of(r@[k], files@[i]) by {
            let x = choose|x: int| 0 <= x < src.len() && src[x] == i;
            assert(scored_from(pre@[x], files@[i], *opts));
            assert(pre@.contains(pre@[x]));
            let k = choose|k: int| 0 <= k < r@.len() && r@[k] == pre@[x];
            assert(blame_score_of(r@[k], files@[i]));
        }
        assert(r@.len() == pre@.len());
        assert(pre@.len() == blame_scored(files@, *opts));
    }
    r
}

/// The lines of `a` in the qualifying files whose directory key at `depth`
/// is `d`.
pub open spec fn dir_lines(
    files: Seq<FileBlame>,
    opts: ScanOpts,
    depth: nat,
    d: Seq<char>,
    a: Seq<char>,
) -> nat
    decreases files.len(),
{
    if files.len() == 0 {
        0
    } else {
        dir_lines(files.drop_last(), opts, depth, d, a) + if blame_qualifies(files.last(), opts)
            && dir_key_of(files.last().path@, depth) == d {
            hunk_lines(files.last().hunks@, a)
        } else {
            0
        }
    }
}

/// All lines of the qualifying files whose directory key at `depth` is `d`.
pub open spec fn dir_total(files: Seq<FileBlame>, opts: ScanOpts, depth: nat, d: Seq<char>) -> nat
    decreases files.len(),
{
    if files.len() == 0 {
        0
    } else {
        dir_total(files.drop_last(), opts, depth, d) + if blame_qualifies(files.last(), opts)
            && dir_key_of(files.last().path@, depth) == d {
            hunk_total(files.last().hunks@)
        } else {
            0
        }
    }
}

/// `s` scores its directory over the summed per-author lines of its files.
pub open spec fn blame_dir_score_of(
    s: DirScore,
    files: Seq<FileBlame>,
    opts: ScanOpts,
    depth: nat,
) -> bool {
    &&& share_wf(s.share())
    &&& s.total as nat == dir_total(files, opts, depth, s.dir@)
    &&& s.top as nat == dir_lines(files, opts, depth, s.dir@, s.top_author@)
    &&& forall|a: Seq<char>| #[trigger] dir_lines(files, opts, depth, s.dir@, a) <= s.top
}

/// The directory scores of blame mode: one per directory holding lines of
/// a qualifying file, ranked.
pub open spec fn blame_dir_scores(
    files: Seq<FileBlame>,
    opts: ScanOpts,
    depth: nat,
    r: Seq<DirScore>,
) -> bool {
    &&& forall|k: int| 0 <= k < r.len() ==> blame_dir_score_of(#[trigger] r[k], files, opts, depth)
    &&& forall|d: Seq<char>|
        #![trigger dir_total(files, opts, depth, d)]
        dir_total(files, opts, depth, d) >= 1 ==> exists|k: int|
            0 <= k < r.len() && #[trigger] r[k].dir@ == d
    &&& keys_distinct(r)
    &&& ranked(r)
}

/// All lines of one file's blame.
fn hunks_total(h: &Vec<BlameHunk>) -> (r: u64)
    requires
        hunk_total(h@) <= u64::MAX,
    ensures
        r == hunk_total(h@),
{
    let mut s: u64 = 0;
    let mut i: usize = 0;
    while i < h.len()
        invariant
            i <= h.len(),
            hunk_total(h@) <= u64::MAX,
            s == hunk_total(h@.take(i as int)),
        decreases h.len() - i,
    {
        assert(h@.take(i + 1).drop_last() =~= h@.take(i as int));
        proof {
            crate::counts::lemma_hunk_total_prefix(h@, i + 1);
        }
        s = s + h[i].lines;
        i += 1;
    }
    assert(h@.take(h.len() as int) =~= h@);
    s
}

/// The tally holds, per directory and author, the blame-mode sums of the
/// first `i` files, with the first `j` hunks of file `i` under `key`.
pub open spec fn dir_tally_holds(
    t: Seq<KeyCounts>,
    files: Seq<FileBlame>,
    opts: ScanOpts,
    depth: nat,
    i: int,
    key: Seq<char>,
    part: Seq<BlameHunk>,
) -> bool {
    &&& forall|d: Seq<char>, a: Seq<char>|
        #[trigger] tally_count(t, d, a) == dir_lines(files.take(i), opts, depth, d, a) + if d
            == key {
            hunk_lines(part, a)
        } else {
            0
        }
    &&& forall|d: Seq<char>|
        #[trigger] tally_total(t, d) == dir_total(files.take(i), opts, depth, d) + if d == key {
            hunk_total(part)
        } else {
            0
        }
}

/// Blame-mode directory scores: the per-author line counts of every
/// qualifying file are summed per directory key at `depth`, and each
/// directory is scored over those sums. The blame of each file is gathered
/// by the caller.
pub fn compute_dir_scores_parallel(files: &Vec<FileBlame>, opts: &ScanOpts,
    depth: usize) -> (r: Vec<
    DirScore,
>)
    requires
        blame_total(files@) <= u64::MAX,
    ensures
        blame_dir_scores(files@, *opts, depth as nat, r@),
{
    let mut t: Vec<KeyCounts> = Vec::new();
    let ghost none: Seq<BlameHunk> = Seq::empty();
    let ghost nokey: Seq<char> = Seq::empty();
    let mut i: usize = 0;
    while i < files.len()
        invariant
            i <= files.len(),
            blame_total(files@) <= u64::MAX,
            tally_wf(t@),
            tally_sum(t@) <= blame_total(files@.take(i as int)),
            none == Seq::<BlameHunk>::empty(),
            dir_tally_holds(t@, files@, *opts, depth as nat, i as int, nokey, none),
        decreases files.len() - i,
    {
        let f = &files[i];
        proof {
            lemma_blame_total_prefix(files@, i as int);
            assert(files@.take(i + 1).drop_last() =~= files@.take(i as int));
            assert(files@.take(i + 1).last() == files@[i as int]);
        }
        let total = hunks_total(&f.hunks);
        let qualifies = total >= opts.min_total && total >= 1 && ext_ok(f.path.as_str(), opts);
        if qualifies {
            let key = dir_key(f.path.as_str(), depth);
            let mut j: usize = 0;
            proof {
                assert(f.hunks@.take(0) =~= Seq::<BlameHunk>::empty());
                assert forall|d: Seq<char>, a: Seq<char>| #[trigger] tally_count(t@, d, a)
                    == dir_lines(
                    files@.take(i as int),
                    *opts,
                    depth as nat,
                    d,
                    a,
                ) + if d == key@ {
                    hunk_lines(f.hunks@.take(0), a)
                } else {
                    0
                } by {
                    assert(tally_count(t@, d, a) == dir_lines(files@.take(i as int), *opts,
                        depth as nat, d, a) + if d == nokey { hunk_lines(none, a) } else { 0 });
                }
                assert forall|d: Seq<char>| #[trigger] tally_total(t@, d) == dir_total(
                    files@.take(i as int),
                    *opts,
                    depth as nat,
                    d,
                ) + if d == key@ {
                    hunk_total(f.hunks@.take(0))
                } else {
                    0
                } by {
                    assert(tally_total(t@, d) == dir_total(files@.take(i as int), *opts,
                        depth as nat, d) + if d == nokey { hunk_total(none) } else { 0 });
                }
            }
            while j < f.hunks.len()
                invariant
                    i < files.len(),
                    f == files@[i as int],
                    none == Seq::<BlameHunk>::empty(),
                    blame_qualifies(files@[i as int], *opts),
                    dir_key_of(files@[i as int].path@, depth as nat) == key@,
                    j <= f.hunks.len(),
                    blame_total(files@.take(i as int)) + hunk_total(f.hunks@) <= u64::MAX,
                    tally_wf(t@),
                    tally_sum(t@) <= blame_total(files@.take(i as int)) + hunk_total(
                        f.hunks@.take(j as int),
                    ),
                    dir_tally_holds(
                        t@,
                        files@,
                        *opts,
                        depth as nat,
                        i as int,
                        key@,
                        f.hunks@.take(j as int),
                    ),
                decreases f.hunks.len() - j,
            {
                let ghost t0 = t@;
                let h = &f.hunks[j];
                proof {
                    assert(f.hunks@.take(j + 1).drop_last() =~= f.hunks@.take(j as int));
                    assert(f.hunks@.take(j + 1).last() == f.hunks@[j as int]);
                    crate::counts::lemma_hunk_total_prefix(f.hunks@, j + 1);
                }
                tally_add(&mut t, &key, &h.author, h.lines);
                proof {
                    assert forall|d: Seq<char>, a: Seq<char>| #[trigger] tally_count(t@, d, a)
                        == dir_lines(files@.take(i as int), *opts, depth as nat, d, a) + if d
                        == key@ {
                        hunk_lines(f.hunks@.take(j + 1), a)
                    } else {
                        0
                    } by {
                        assert(tally_count(t0, d, a) == dir_lines(files@.take(i as int), *opts,
                            depth as nat, d, a) + if d
                            == key@ { hunk_lines(f.hunks@.take(j as int), a) } else { 0 });
                    }
                    assert forall|d: Seq<char>| #[trigger] tally_total(t@, d) == dir_total(
                        files@.take(i as int),
                        *opts,
                        depth as nat,
                        d,
                    ) + if d == key@ {
                        hunk_total(f.hunks@.take(j + 1))
                    } else {
                        0
                    } by {
                        assert(tally_total(t0, d) == dir_total(files@.take(i as int), *opts,
                            depth as nat, d) + if d
                            == key@ { hunk_total(f.hunks@.take(j as int)) } else { 0 });
                    }
                }
                j += 1;
            }
            proof {
                assert(f.hunks@.take(f.hunks.len() as int) =~= f.hunks@);
                let fi = files@.take(i + 1);
                assert(fi.drop_last() =~= files@.take(i as int));
                assert(fi.last() == files@[i as int]);
                assert(blame_qualifies(fi.last(), *opts));
                assert(dir_key_of(fi.last().path@, depth as nat) == key@);
                assert forall|d: Seq<char>, a: Seq<char>| #[trigger] tally_count(t@, d, a)
                    == dir_lines(
                    files@.take(i + 1),
                    *opts,
                    depth as nat,
                    d,
                    a,
                ) + if d == nokey {
                    hunk_lines(none, a)
                } else {
                    0
                } by {
                    assert(tally_count(t@, d, a) == dir_lines(files@.take(i as int), *opts,
                        depth as nat, d, a) + if d == key@ { hunk_lines(f.hunks@, a) } else { 0 });
                }
                assert forall|d: Seq<char>| #[trigger] tally_total(t@, d) == dir_total(
                    files@.take(i + 1),
                    *opts,
                    depth as nat,
                    d,
                ) + if d == nokey {
                    hunk_total(none)
                } else {
                    0
                } by {
                    assert(tally_total(t@, d) == dir_total(files@.take(i as int), *opts,
                        depth as nat, d) + if d == key@ { hunk_total(f.hunks@) } else { 0 });
                }
            }
        } else {
            proof {
                let fi = files@.take(i + 1);
                assert(fi.drop_last() =~= files@.take(i as int));
                assert(fi.last() == files@[i as int]);
                assert(!blame_qualifies(fi.last(), *opts));
                assert forall|d: Seq<char>, a: Seq<char>| #[trigger] tally_count(t@, d, a)
                    == dir_lines(
                    files@.take(i + 1),
                    *opts,
                    depth as nat,
                    d,
                    a,
                ) + if d == nokey {
                    hunk_lines(none, a)
                } else {
                    0
                } by {
                    assert(tally_count(t@, d, a) == dir_lines(files@.take(i as int), *opts,
                        depth as nat, d, a) + if d == nokey { hunk_lines(none, a) } else { 0 });
                }
                assert forall|d: Seq<char>| #[trigger] tally_total(t@, d) == dir_total(
                    files@.take(i + 1),
                    *opts,
                    depth as nat,
                    d,
                ) + if d == nokey {
                    hunk_total(none)
                } else {
                    0
                } by {
                    assert(tally_total(t@, d) == dir_total(files@.take(i as int), *opts,
                        depth as nat, d) + if d == nokey { hunk_total(none) } else { 0 });
                }
            }
        }
        i += 1;
    }
    let r = scores_from_tally::<DirScore>(&t, 0);
    proof {
        assert(files@.take(files.len() as int) =~= files@);
        assert forall|k: int|
            0 <= k < r@.len() implies blame_dir_score_of(#[trigger] r@[k], files@, *opts,
                depth as nat) by {
            let s = r@[k];
            assert(crate::tally::tally_score(s, t@));
            assert forall|a: Seq<char>| #[trigger] dir_lines(files@, *opts, depth as nat, s.dir@,
                a) <= s.top by {
                assert(tally_count(t@, s.dir@, a) == dir_lines(files@, *opts, depth as nat, s.dir@,
                    a) + if s.dir@ == nokey { hunk_lines(none, a) } else { 0 });
            }
            assert(tally_count(t@, s.dir@, s.top_author@) == dir_lines(files@, *opts, depth as nat,
                s.dir@, s.top_author@) + if s.dir@ == nokey { hunk_lines(none,
                s.top_author@) } else { 0 });
            assert(tally_total(t@, s.dir@) == dir_total(files@, *opts, depth as nat, s.dir@)
                + if s.dir@ == nokey { hunk_total(none) } else { 0 });
        }
        assert forall|d: Seq<char>|
            #![trigger dir_total(files@, *opts, depth as nat, d)]
            dir_total(files@, *opts, depth as nat, d) >= 1 implies exists|k: int|
                0 <= k < r@.len() && #[trigger] r@[k].dir@ == d by {
            assert(tally_total(t@, d) == dir_total(files@, *opts, depth as nat, d) + if d
                == nokey { hunk_total(none) } else { 0 });
            assert(tally_total(t@, d) >= 0);
            let k = choose|k: int| 0 <= k < r@.len() && #[trigger] r@[k].key() == d;
            assert(r@[k].dir@ == d);
        }
    }
    r
}

/// All totals of a list of file scores.
pub open spec fn score_sum(scores: Seq<BusScore>) -> nat
    decreases scores.len(),
{
    if scores.len() == 0 {
        0
    } else {
        score_sum(scores.drop_last()) + scores.last().total as nat
    }
}

/// What the approximate fold gives `a` in directory `d`: the whole total of
/// each file of `d` whose top author is `a`.
pub open spec fn approx_lines(scores: Seq<BusScore>, depth: nat, d: Seq<char>, a: Seq<char>) -> nat
    decreases scores.len(),
{
    if scores.len() == 0 {
        0
    } else {
        approx_lines(scores.drop_last(), depth, d, a) + if dir_key_of(scores.last().file@, depth)
            == d && scores.last().top_author@ == a {
            scores.last().total as nat
        } else {
            0
        }
    }
}

/// The totals of the files of directory `d`.
pub open spec fn approx_total(scores: Seq<BusScore>, depth: nat, d: Seq<char>) -> nat
    decreases scores.len(),
{
    if scores.len() == 0 {
        0
    } else {
        approx_total(scores.drop_last(), depth, d) + if dir_key_of(scores.last().file@, depth)
            == d {
            scores.last().total as nat
        } else {
            0
        }
    }
}

/// The tally holds the approximate directory sums of `scores`.
pub open spec fn approx_tally_holds(t: Seq<KeyCounts>, scores: Seq<BusScore>, depth: nat) -> bool {
    &&& forall|d: Seq<char>, a: Seq<char>| #[trigger] tally_count(t, d, a) == approx_lines(scores,
        depth, d, a)
    &&& forall|d: Seq<char>| #[trigger] tally_total(t, d) == approx_total(scores, depth, d)
    &&& tally_sum(t) == score_sum(scores)
}

/// A prefix of the scores, with the next one, sums to no more than all.
pub proof fn lemma_score_sum_prefix(scores: Seq<BusScore>, n: int)
    requires
        0 <= n < scores.len(),
    ensures
        score_sum(scores.take(n)) + scores[n].total <= score_sum(scores),
    decreases scores.len(),
{
    if n < scores.len() - 1 {
        assert(scores.drop_last().take(n) =~= scores.take(n));
        lemma_score_sum_prefix(scores.drop_last(), n);
    } else {
        assert(scores.take(n) =~= scores.drop_last());
    }
}

/// Lower-fidelity directory scores: each file's whole total goes to its
/// top author. Use `compute_dir_scores_parallel` where the per-author
/// breakdown of each file is at hand.
pub fn aggregate_dir_from_file_scores(scores: &Vec<BusScore>, depth: usize) -> (r: Vec<DirScore>)
    requires
        score_sum(scores@) <= u64::MAX,
    ensures
        forall|k: int|
            0 <= k < r@.len() ==> {
                let s = #[trigger] r@[k];
                &&& share_wf(s.share())
                &&& s.total as nat == approx_total(scores@, depth as nat, s.dir@)
                &&& s.top as nat == approx_lines(scores@, depth as nat, s.dir@, s.top_author@)
                &&& forall|a: Seq<char>|
                    #[trigger] approx_lines(scores@, depth as nat, s.dir@, a) <= s.top
            },
        forall|d: Seq<char>|
            #![trigger approx_total(scores@, depth as nat, d)]
            approx_total(scores@, depth as nat, d) >= 1 ==> exists|k: int|
                0 <= k < r@.len() && #[trigger] r@[k].dir@ == d,
        keys_distinct(r@),
        ranked(r@),
{
    let mut t: Vec<KeyCounts> = Vec::new();
    let mut i: usize = 0;
    while i < scores.len()
        invariant
            i <= scores.len(),
            score_sum(scores@) <= u64::MAX,
            tally_wf(t@),
            approx_tally_holds(t@, scores@.take(i as int), depth as nat),
        decreases scores.len() - i,
    {
        let ghost t0 = t@;
        let ghost pre = scores@.take(i as int);
        let s = &scores[i];
        proof {
            lemma_score_sum_prefix(scores@, i as int);
        }
        let key = dir_key(s.file.as_str(), depth);
        tally_add(&mut t, &key, &s.top_author, s.total);
        proof {
            let next = scores@.take(i + 1);
            assert(next.drop_last() =~= pre);
            assert(next.last() == scores@[i as int]);
            assert forall|d: Seq<char>, a: Seq<char>| #[trigger] tally_count(t@, d, a)
                == approx_lines(next, depth as nat, d, a) by {
                assert(tally_count(t0, d, a) == approx_lines(pre, depth as nat, d, a));
            }
            assert forall|d: Seq<char>| #[trigger] tally_total(t@, d) == approx_total(next,
                depth as nat, d) by {
                assert(tally_total(t0, d) == approx_total(pre, depth as nat, d));
            }
        }
        i += 1;
    }
    assert(scores@.take(scores.len() as int) =~= scores@);
    let r = scores_from_tally::<DirScore>(&t, 0);
    proof {
        assert forall|k: int|
            0 <= k < r@.len() implies {
                let s = #[trigger] r@[k];
                &&& share_wf(s.share())
                &&& s.total as nat == approx_total(scores@, depth as nat, s.dir@)
                &&& s.top as nat == approx_lines(scores@, depth as nat, s.dir@, s.top_author@)
                &&& forall|a: Seq<char>|
                    #[trigger] approx_lines(scores@, depth as nat, s.dir@, a) <= s.top
            } by {
            let s = r@[k];
            assert(crate::tally::tally_score(s, t@));
            assert forall|a: Seq<char>| #[trigger] approx_lines(scores@, depth as nat, s.dir@, a)
                <= s.top by {
                assert(tally_count(t@, s.dir@, a) == approx_lines(scores@, depth as nat, s.dir@,
                    a));
            }
            assert(tally_count(t@, s.dir@, s.top_author@) == approx_lines(scores@, depth as nat,
                s.dir@, s.top_author@));
        }
        assert forall|d: Seq<char>|
            #![trigger approx_total(scores@, depth as nat, d)]
            approx_total(scores@, depth as nat, d) >= 1 implies exists|k: int|
                0 <= k < r@.len() && #[trigger] r@[k].dir@ == d by {
            assert(tally_total(t@, d) == approx_total(scores@, depth as nat, d));
            let k = choose|k: int| 0 <= k < r@.len() && #[trigger] r@[k].key() == d;
            assert(r@[k].dir@ == d);
        }
    }
    r
}

/// The files of blame mode whose ratio lies strictly above the threshold
/// `num / den`, ranked; a threshold outside [0, 1] is refused before any
/// scoring.
pub fn bus_factor(files: &Vec<FileBlame>, num: i64, den: u64, opts: &ScanOpts) -> (r: Result<
    Vec<BusScore>,
    ScanError,
>)
    requires
        blame_total(files@) <= u64::MAX,
    ensures
        r is Err <==> !crate::rank::threshold_valid(num, den),
        r matches Ok(m) ==> exists|c: Seq<BusScore>|
            #[trigger] blame_file_scores(files@, *opts, c) && m@ == c.filter(
                |s: BusScore| crate::rank::above(s.share(), num as int, den as int),
            ),
{
    if crate::rank::check_threshold(num, den).is_err() {
        return Err(ScanError::ThresholdOutOfRange);
    }
    let scores = compute_scores_parallel(files, opts);
    proof {
        assert forall|k: int| 0
            <= k < scores@.len() implies #[trigger] scores@[k].share().1 > 0 by {
            assert(share_wf(scores@[k].share()));
        }
    }
    let ghost sv = scores@;
    match rank_scores(scores, num, den) {
        Ok(ranking) => {
            proof {
                lemma_reordered(sv, ranking.candidates@);
                assert(blame_file_scores(files@, *opts, ranking.candidates@)) by {
                    lemma_blame_reordered(files@, *opts, sv, ranking.candidates@);
                }
            }
            Ok(ranking.matches)
        },
        Err(e) => Err(e),
    }
}

/// File scores stay file scores when reordered into rank order.
proof fn lemma_blame_reordered(
    files: Seq<FileBlame>,
    opts: ScanOpts,
    a: Seq<BusScore>,
    b: Seq<BusScore>,
)
    requires
        blame_file_scores(files, opts, a),
        a.to_multiset() == b.to_multiset(),
        ranked(b),
    ensures
        blame_file_scores(files, opts, b),
{
    lemma_reordered(a, b);
    assert forall|k: int|
        0 <= k < b.len() implies share_wf(#[trigger] b[k].share()) && exists|i: int|
        0 <= i < files.len() && blame_qualifies(files[i], opts) && #[trigger] blame_score_of(
            b[k],
            files[i],
        ) by {
        assert(b.contains(b[k]));
        let x = choose|x: int| 0 <= x < a.len() && a[x] == b[k];
        assert(share_wf(a[x].share()));
    }
    assert forall|i: int|
        0 <= i < files.len() && blame_qualifies(#[trigger] files[i], opts) implies exists|k: int|
        0 <= k < b.len() && #[trigger] blame_score_of(b[k], files[i]) by {
        let x = choose|x: int| 0 <= x < a.len() && #[trigger] blame_score_of(a[x], files[i]);
        assert(a.contains(a[x]));
        let k = choose|k: int| 0 <= k < b.len() && b[k] == a[x];
        assert(blame_score_of(b[k], files[i]));
    }
}

/// Two blame-mode file scorings of the same files agree, path by path, on
/// total and top count, hence on ratio, whatever order or tie-break
/// produced them.
pub proof fn lemma_blame_scores_deterministic(
    files: Seq<FileBlame>,
    opts: ScanOpts,
    r1: Seq<BusScore>,
    r2: Seq<BusScore>,
)
    requires
        blame_file_scores(files, opts, r1),
        blame_file_scores(files, opts, r2),
    ensures
        r1.len() == r2.len(),
        forall|k: int| 0 <= k < r1.len() ==> same_share_in(r2, #[trigger] r1[k]),
{
    assert forall|k: int| 0 <= k < r1.len() implies same_share_in(r2, #[trigger] r1[k]) by {
        assert(share_wf(r1[k].share()));
        let i = choose|i: int|
            0 <= i < files.len() && blame_qualifies(files[i], opts) && #[trigger] blame_score_of(
                r1[k],
                files[i],
            );
        let m = choose|m: int| 0 <= m < r2.len() && #[trigger] blame_score_of(r2[m], files[i]);
        let h = files[i].hunks@;
        assert(hunk_lines(h, r2[m].top_author@) <= r1[k].top);
        assert(hunk_lines(h, r1[k].top_author@) <= r2[m].top);
        assert(r2[m].top == r1[k].top);
        assert(r2[m].total == r1[k].total);
        assert(r2[m].key() == r1[k].key());
        assert(r2[m].share() == r1[k].share());
        assert(r2[m].file@ == r1[k].file@);
    }
}

/// Two blame-mode directory scorings of the same files agree, directory by
/// directory, on total and top count.
pub proof fn lemma_blame_dir_scores_deterministic(
    files: Seq<FileBlame>,
    opts: ScanOpts,
    depth: nat,
    r1: Seq<DirScore>,
    r2: Seq<DirScore>,
)
    requires
        blame_dir_scores(files, opts, depth, r1),
        blame_dir_scores(files, opts, depth, r2),
    ensures
        forall|k: int| 0 <= k < r1.len() ==> same_share_in(r2, #[trigger] r1[k]),
{
    assert forall|k: int| 0 <= k < r1.len() implies same_share_in(r2, #[trigger] r1[k]) by {
        let d = r1[k].dir@;
        assert(blame_dir_score_of(r1[k], files, opts, depth));
        assert(dir_total(files, opts, depth, d) >= 1);
        let m = choose|m: int| 0 <= m < r2.len() && #[trigger] r2[m].dir@ == d;
        assert(blame_dir_score_of(r2[m], files, opts, depth));
        assert(dir_lines(files, opts, depth, d, r2[m].top_author@) <= r1[k].top);
        assert(dir_lines(files, opts, depth, d, r1[k].top_author@) <= r2[m].top);
        assert(r2[m].top == r1[k].top);
        assert(r2[m].total == r1[k].total);
        assert(r2[m].key() == r1[k].key());
        assert(r2[m].share() == r1[k].share());
    }
}

/// A path whose lines fall short of `min_total` stands in no file score,
/// nor among those picked out of them by any filter (the matches above a
/// threshold).
pub proof fn lemma_min_total_excludes(
    files: Seq<FileBlame>,
    opts: ScanOpts,
    r: Seq<BusScore>,
    p: Seq<char>,
    pick: spec_fn(BusScore) -> bool,
)
    requires
        blame_file_scores(files, opts, r),
        forall|i: int|
            0 <= i < files.len() && #[trigger] files[i].path@ == p ==> hunk_total(files[i].hunks@)
                < opts.min_total,
    ensures
        forall|k: int| 0 <= k < r.len() ==> #[trigger] r[k].file@ != p,
        forall|k: int| 0 <= k < r.filter(pick).len() ==> #[trigger] r.filter(pick)[k].file@ != p,
{
    assert forall|k: int| 0 <= k < r.len() implies #[trigger] r[k].file@ != p by {
        assert(share_wf(r[k].share()));
        let i = choose|i: int|
            0 <= i < files.len() && blame_qualifies(files[i], opts) && #[trigger] blame_score_of(
                r[k],
                files[i],
            );
        assert(files[i].path@ == r[k].file@);
    }
    assert forall|k: int| 0 <= k < r.filter(pick).len() implies #[trigger] r.filter(pick)[k].file@
        != p by {
        let x = r.filter(pick)[k];
        assert(r.filter(pick).contains(x));
        r.lemma_filter_contains_rev(pick, x);
        let j = choose|j: int| 0 <= j < r.len() && r[j] == x;
        assert(r[j].file@ != p);
    }
}

/// A file whose lines fall short of `min_total` adds nothing to any
/// directory: the directory sums are those of the files without it.
pub proof fn lemma_min_total_leaves_dirs(
    files: Seq<FileBlame>,
    opts: ScanOpts,
    depth: nat,
    i: int,
    d: Seq<char>,
    a: Seq<char>,
)
    requires
        0 <= i < files.len(),
        hunk_total(files[i].hunks@) < opts.min_total,
    ensures
        dir_lines(files, opts, depth, d, a) == dir_lines(files.remove(i), opts, depth, d, a),
        dir_total(files, opts, depth, d) == dir_total(files.remove(i), opts, depth, d),
    decreases files.len(),
{
    if i == files.len() - 1 {
        assert(files.remove(i) =~= files.drop_last());
    } else {
        lemma_min_total_leaves_dirs(files.drop_last(), opts, depth, i, d, a);
        assert(files.remove(i).drop_last() =~= files.drop_last().remove(i));
        assert(files.remove(i).last() == files.last());
    }
}

} // verus!
