//! Commit history as plain records, and ownership by touch counts.

use vstd::prelude::*;

use crate::bus_factor::{BusScore, DirScore};
use crate::filter::{ext_ok, included, ScanOpts};
use crate::paths::{dir_key, dir_key_of};
use crate::rank::{keys_distinct, ranked, same_share_in, Ranked};
use crate::tally::{
    scores_from_tally, share_wf, tally_add, tally_count, tally_score, tally_sum, tally_total,
    tally_total_of, tally_wf, KeyCounts,
};

verus! {

/// Line counts of one file's patch: unchanged context lines, added and
/// deleted lines.
pub struct LineStats {
    pub context: u64,
    pub adds: u64,
    pub dels: u64,
}

/// One changed path of a commit's diff against its first parent, with its
/// patch's line counts where the patch could be had.
pub struct FileChange {
    pub path: String,
    pub stats: Option<LineStats>,
}

/// One commit of the walk, newest first: its author, its time in seconds
/// since the epoch, and its diff against its first parent. `changes` is
/// `None` for a root commit and where the diff could not be computed.
pub struct CommitRecord {
    pub author: String,
    pub time: i64,
    pub changes: Option<Vec<FileChange>>,
}

/// All changes of all commits.
pub open spec fn change_count(cs: Seq<CommitRecord>) -> nat
    decreases cs.len(),
{
    if cs.len() == 0 {
        0
    } else {
        change_count(cs.drop_last()) + match cs.last().changes {
            Some(ch) => ch@.len(),
            None => 0,
        }
    }
}

/// A prefix of the commits, with the next one, holds no more changes than all.
pub proof fn lemma_change_count_prefix(cs: Seq<CommitRecord>, n: int)
    requires
        0 <= n < cs.len(),
    ensures
        change_count(cs.take(n)) + match cs[n].changes {
            Some(ch) => ch@.len(),
            None => 0,
        } <= change_count(cs),
    decreases cs.len(),
{
    if n < cs.len() - 1 {
        assert(cs.drop_last().take(n) =~= cs.take(n));
        lemma_change_count_prefix(cs.drop_last(), n);
    } else {
        assert(cs.take(n) =~= cs.drop_last());
    }
}

/// `p` is among the changed paths `ch`.
pub open spec fn changed_in(ch: Seq<FileChange>, p: Seq<char>) -> bool {
    exists|i: int| 0 <= i < ch.len() && #[trigger] ch[i].path@ == p
}

/// The commit touches `p`: it has a diff, `p` is among its changed paths,
/// and `p` takes part in the scan.
pub open spec fn commit_touches(c: CommitRecord, p: Seq<char>, opts: ScanOpts) -> bool {
    &&& c.changes is Some
    &&& included(p, opts)
    &&& changed_in(c.changes->0@, p)
}

/// The commits of `cs` by `a` that touch `p`.
pub open spec fn touch_count(cs: Seq<CommitRecord>, p: Seq<char>, a: Seq<char>,
    opts: ScanOpts) -> nat
    decreases cs.len(),
{
    if cs.len() == 0 {
        0
    } else {
        touch_count(cs.drop_last(), p, a, opts) + if cs.last().author@ == a && commit_touches(
            cs.last(),
            p,
            opts,
        ) {
            1nat
        } else {
            0
        }
    }
}

/// The commits of `cs` that touch `p`, whoever made them.
pub open spec fn file_touches(cs: Seq<CommitRecord>, p: Seq<char>, opts: ScanOpts) -> nat
    decreases cs.len(),
{
    if cs.len() == 0 {
        0
    } else {
        file_touches(cs.drop_last(), p, opts) + if commit_touches(cs.last(), p, opts) {
            1nat
        } else {
            0
        }
    }
}

/// How many commits the walk visits: all, or the first `max`.
pub open spec fn walk_len(len: nat, max: Option<usize>) -> nat {
    match max {
        Some(m) => if (m as nat) < len {
            m as nat
        } else {
            len
        },
        None => len,
    }
}

/// The commits the walk visits.
pub open spec fn walked(cs: Seq<CommitRecord>, max: Option<usize>) -> Seq<CommitRecord> {
    cs.take(walk_len(cs.len(), max) as int)
}

/// A touch count never exceeds the number of commits.
pub proof fn lemma_touches_le_commits(cs: Seq<CommitRecord>, p: Seq<char>, opts: ScanOpts)
    ensures
        file_touches(cs, p, opts) <= cs.len(),
    decreases cs.len(),
{
    if cs.len() > 0 {
        lemma_touches_le_commits(cs.drop_last(), p, opts);
    }
}

/// The touch table holds, per path and author, the touches of the first
/// `i` commits, with `extra` touched by `author` in commit `i` so far.
pub open spec fn touch_table_holds(
    t: Seq<KeyCounts>,
    cs: Seq<CommitRecord>,
    opts: ScanOpts,
    i: int,
    author: Seq<char>,
    part: Seq<FileChange>,
) -> bool {
    &&& forall|p: Seq<char>, a: Seq<char>|
        #[trigger] tally_count(t, p, a) == touch_count(cs.take(i), p, a, opts) + if a == author
            && included(p, opts) && changed_in(part, p) {
            1nat
        } else {
            0
        }
    &&& forall|p: Seq<char>|
        #[trigger] tally_total(t, p) == file_touches(cs.take(i), p, opts) + if included(p, opts)
            && changed_in(part, p) {
            1nat
        } else {
            0
        }
}

/// Whether the path of change `j` already stands among the changes before it.
fn seen_before(ch: &Vec<FileChange>, j: usize) -> (r: bool)
    requires
        j < ch.len(),
    ensures
        r == changed_in(ch@.take(j as int), ch@[j as int].path@),
{
    let mut m: usize = 0;
    while m < j
        invariant
            m <= j < ch.len(),
            forall|x: int| 0 <= x < m ==> ch@[x].path@ != ch@[j as int].path@,
        decreases j - m,
    {
        if ch[m].path == ch[j].path {
            assert(ch@.take(j as int)[m as int].path@ == ch@[j as int].path@);
            return true;
        }
        m += 1;
    }
    assert forall|x: int| 0
        <= x < j implies #[trigger] ch@.take(j as int)[x].path@ != ch@[j as int].path@ by {
        assert(ch@.take(j as int)[x] == ch@[x]);
    }
    false
}

proof fn lemma_changed_in_step(ch: Seq<FileChange>, j: int, p: Seq<char>)
    requires
        0 <= j < ch.len(),
    ensures
        changed_in(ch.take(j + 1), p) <==> changed_in(ch.take(j), p) || ch[j].path@ == p,
{
    if changed_in(ch.take(j), p) {
        let x = choose|x: int| 0 <= x < j && #[trigger] ch.take(j)[x].path@ == p;
        assert(ch.take(j + 1)[x] == ch.take(j)[x]);
    }
    if ch[j].path@ == p {
        assert(ch.take(j + 1)[j] == ch[j]);
    }
    if changed_in(ch.take(j + 1), p) {
        let x = choose|x: int| 0 <= x < j + 1 && #[trigger] ch.take(j + 1)[x].path@ == p;
        if x < j {
            assert(ch.take(j)[x] == ch.take(j + 1)[x]);
        }
    }
}

/// Per path and author, the touches of the first `n` commits.
pub fn touch_table(commits: &Vec<CommitRecord>, n: usize, opts: &ScanOpts) -> (t: Vec<KeyCounts>)
    requires
        n <= commits.len(),
        change_count(commits@) <= u64::MAX,
    ensures
        tally_wf(t@),
        forall|p: Seq<char>, a: Seq<char>|
            #[trigger] tally_count(t@, p, a) == touch_count(commits@.take(n as int), p, a, *opts),
        forall|p: Seq<char>|
            #[trigger] tally_total(t@, p) == file_touches(commits@.take(n as int), p, *opts),
{
    let mut t: Vec<KeyCounts> = Vec::new();
    let ghost nobody: Seq<char> = Seq::empty();
    let ghost none: Seq<FileChange> = Seq::empty();
    let mut i: usize = 0;
    while i < n
        invariant
            i <= n <= commits.len(),
            change_count(commits@) <= u64::MAX,
            tally_wf(t@),
            tally_sum(t@) <= change_count(commits@.take(i as int)),
            none == Seq::<FileChange>::empty(),
            touch_table_holds(t@, commits@, *opts, i as int, nobody, none),
        decreases n - i,
    {
        let c = &commits[i];
        proof {
            lemma_change_count_prefix(commits@, i as int);
            let next = commits@.take(i + 1);
            assert(next.drop_last() =~= commits@.take(i as int));
            assert(next.last() == commits@[i as int]);
        }
        match &c.changes {
            None => {
                proof {
                    let next = commits@.take(i + 1);
                    assert forall|p: Seq<char>, a: Seq<char>|
                        #[trigger] tally_count(t@, p, a) == touch_count(next, p, a, *opts) + if a
                            == nobody
                            && included(p, *opts) && changed_in(none, p) {
                            1nat
                        } else {
                            0
                        } by {
                        assert(tally_count(t@, p, a) == touch_count(commits@.take(i as int), p, a,
                            *opts) + if a == nobody && included(p, *opts) && changed_in(none,
                            p) { 1nat } else { 0 });
                    }
                    assert forall|p: Seq<char>|
                        #[trigger] tally_total(t@, p) == file_touches(next, p, *opts)
                            + if included(p, *opts)
                            && changed_in(none, p) {
                            1nat
                        } else {
                            0
                        } by {
                        assert(tally_total(t@, p) == file_touches(commits@.take(i as int), p,
                            *opts) + if included(p, *opts) && changed_in(none,
                            p) { 1nat } else { 0 });
                    }
                }
            },
            Some(ch) => {
                proof {
                    assert(ch@.take(0) =~= none);
                    assert forall|p: Seq<char>, a: Seq<char>|
                        #[trigger] tally_count(t@, p, a) == touch_count(commits@.take(i as int), p,
                            a, *opts) + if a == c.author@
                            && included(p, *opts) && changed_in(ch@.take(0), p) {
                            1nat
                        } else {
                            0
                        } by {
                        assert(tally_count(t@, p, a) == touch_count(commits@.take(i as int), p, a,
                            *opts) + if a == nobody && included(p, *opts) && changed_in(none,
                            p) { 1nat } else { 0 });
                    }
                    assert forall|p: Seq<char>|
                        #[trigger] tally_total(t@, p) == file_touches(commits@.take(i as int), p,
                            *opts) + if included(p, *opts)
                            && changed_in(ch@.take(0), p) {
                            1nat
                        } else {
                            0
                        } by {
                        assert(tally_total(t@, p) == file_touches(commits@.take(i as int), p,
                            *opts) + if included(p, *opts) && changed_in(none,
                            p) { 1nat } else { 0 });
                    }
                }
                let mut j: usize = 0;
                while j < ch.len()
                    invariant
                        i < n <= commits.len(),
                        c == commits@[i as int],
                        c.changes == Some(*ch),
                        j <= ch.len(),
                        change_count(commits@.take(i as int)) + ch@.len() <= u64::MAX,
                        tally_wf(t@),
                        tally_sum(t@) <= change_count(commits@.take(i as int)) + j,
                        touch_table_holds(t@, commits@, *opts, i as int, c.author@,
                            ch@.take(j as int)),
                    decreases ch.len() - j,
                {
                    let ghost t0 = t@;
                    let path = &ch[j].path;
                    proof {
                        lemma_changed_in_step(ch@, j as int, path@);
                        assert forall|p: Seq<char>| changed_in(ch@.take(j + 1),
                            p) <==> changed_in(ch@.take(j as int), p) || path@ == p by {
                            lemma_changed_in_step(ch@, j as int, p);
                        }
                    }
                    if ext_ok(path.as_str(), opts) && !seen_before(ch, j) {
                        tally_add(&mut t, path, &c.author, 1);
                        proof {
                            assert forall|p: Seq<char>, a: Seq<char>|
                                #[trigger] tally_count(t@, p, a)
                                    == touch_count(commits@.take(i as int), p, a, *opts) + if a
                                    == c.author@
                                    && included(p, *opts) && changed_in(ch@.take(j + 1), p) {
                                    1nat
                                } else {
                                    0
                                } by {
                                assert(tally_count(t0, p, a)
                                    == touch_count(commits@.take(i as int), p, a, *opts) + if a
                                    == c.author@ && included(p, *opts)
                                    && changed_in(ch@.take(j as int), p) { 1nat } else { 0 });
                            }
                            assert forall|p: Seq<char>|
                                #[trigger] tally_total(t@, p)
                                    == file_touches(commits@.take(i as int), p, *opts)
                                    + if included(p, *opts)
                                    && changed_in(ch@.take(j + 1), p) {
                                    1nat
                                } else {
                                    0
                                } by {
                                assert(tally_total(t0, p) == file_touches(commits@.take(i as int),
                                    p, *opts) + if included(p, *opts)
                                    && changed_in(ch@.take(j as int), p) { 1nat } else { 0 });
                            }
                        }
                    } else {
                        proof {
                            assert forall|p: Seq<char>, a: Seq<char>|
                                #[trigger] tally_count(t@, p, a)
                                    == touch_count(commits@.take(i as int), p, a, *opts) + if a
                                    == c.author@
                                    && included(p, *opts) && changed_in(ch@.take(j + 1), p) {
                                    1nat
                                } else {
                                    0
                                } by {
                                assert(tally_count(t0, p, a)
                                    == touch_count(commits@.take(i as int), p, a, *opts) + if a
                                    == c.author@ && included(p, *opts)
                                    && changed_in(ch@.take(j as int), p) { 1nat } else { 0 });
                            }
                            assert forall|p: Seq<char>|
                                #[trigger] tally_total(t@, p)
                                    == file_touches(commits@.take(i as int), p, *opts)
                                    + if included(p, *opts)
                                    && changed_in(ch@.take(j + 1), p) {
                                    1nat
                                } else {
                                    0
                                } by {
                                assert(tally_total(t0, p) == file_touches(commits@.take(i as int),
                                    p, *opts) + if included(p, *opts)
                                    && changed_in(ch@.take(j as int), p) { 1nat } else { 0 });
                            }
                        }
                    }
                    j += 1;
                }
                proof {
                    assert(ch@.take(ch@.len() as int) =~= ch@);
                    let next = commits@.take(i + 1);
                    assert(next.drop_last() =~= commits@.take(i as int));
                    assert(next.last() == commits@[i as int]);
                    assert forall|p: Seq<char>, a: Seq<char>|
                        #[trigger] tally_count(t@, p, a) == touch_count(next, p, a, *opts) + if a
                            == nobody
                            && included(p, *opts) && changed_in(none, p) {
                            1nat
                        } else {
                            0
                        } by {
                        assert(tally_count(t@, p, a) == touch_count(commits@.take(i as int), p, a,
                            *opts) + if a == c.author@ && included(p, *opts) && changed_in(ch@,
                            p) { 1nat } else { 0 });
                    }
                    assert forall|p: Seq<char>|
                        #[trigger] tally_total(t@, p) == file_touches(next, p, *opts)
                            + if included(p, *opts)
                            && changed_in(none, p) {
                            1nat
                        } else {
                            0
                        } by {
                        assert(tally_total(t@, p) == file_touches(commits@.take(i as int), p,
                            *opts) + if included(p, *opts) && changed_in(ch@,
                            p) { 1nat } else { 0 });
                    }
                }
            },
        }
        i += 1;
    }
    proof {
        assert forall|p: Seq<char>, a: Seq<char>|
            #[trigger] tally_count(t@, p, a) == touch_count(commits@.take(n as int), p, a,
                *opts) by {
            assert(tally_count(t@, p, a) == touch_count(commits@.take(n as int), p, a, *opts)
                + if a == nobody && included(p, *opts) && changed_in(none, p) { 1nat } else { 0 });
        }
        assert forall|p: Seq<char>|
            #[trigger] tally_total(t@, p) == file_touches(commits@.take(n as int), p, *opts) by {
            assert(tally_total(t@, p) == file_touches(commits@.take(n as int), p, *opts)
                + if included(p, *opts) && changed_in(none, p) { 1nat } else { 0 });
        }
    }
    t
}

/// `s` is the touch score of its file over the commits `cs`.
pub open spec fn touch_score_of(s: BusScore, cs: Seq<CommitRecord>, opts: ScanOpts) -> bool {
    &&& share_wf(s.share())
    &&& s.total as nat == file_touches(cs, s.file@, opts)
    &&& s.total >= opts.min_total
    &&& s.top as nat == touch_count(cs, s.file@, s.top_author@, opts)
    &&& forall|a: Seq<char>| #[trigger] touch_count(cs, s.file@, a, opts) <= s.top
}

/// The file scores of history mode: one per path touched at least
/// `min_total` times (and once), ranked.
pub open spec fn touch_file_scores(cs: Seq<CommitRecord>, opts: ScanOpts,
    r: Seq<BusScore>) -> bool {
    &&& forall|k: int| 0 <= k < r.len() ==> touch_score_of(#[trigger] r[k], cs, opts)
    &&& forall|p: Seq<char>|
        #![trigger file_touches(cs, p, opts)]
        file_touches(cs, p, opts) >= opts.min_total && file_touches(cs, p, opts) >= 1 ==> exists|
            k: int,
        | 0 <= k < r.len() && #[trigger] r[k].file@ == p
    &&& keys_distinct(r)
    &&& ranked(r)
}

/// How many commits a walk capped at `max` visits.
fn walk_count(len: usize, max: Option<usize>) -> (n: usize)
    ensures
        n == walk_len(len as nat, max),
{
    match max {
        Some(m) => if m < len {
            m
        } else {
            len
        },
        None => len,
    }
}

/// History-mode file scores: the walk visits the commits newest first,
/// at most `max_commits` of them, and each commit with a diff counts one
/// touch for its author on each distinct changed path that takes part.
pub fn compute_scores_fast(
    commits: &Vec<CommitRecord>,
    max_commits: Option<usize>,
    opts: &ScanOpts,
) -> (r: Vec<BusScore>)
    requires
        change_count(commits@) <= u64::MAX,
    ensures
        touch_file_scores(walked(commits@, max_commits), *opts, r@),
{
    let n = walk_count(commits.len(), max_commits);
    let t = touch_table(commits, n, opts);
    let r = scores_from_tally::<BusScore>(&t, opts.min_total);
    proof {
        let cs = walked(commits@, max_commits);
        assert(cs == commits@.take(n as int));
        assert forall|k: int| 0 <= k < r@.len() implies touch_score_of(#[trigger] r@[k], cs,
            *opts) by {
            let s = r@[k];
            assert(tally_score(s, t@));
            assert forall|a: Seq<char>| #[trigger] touch_count(cs, s.file@, a, *opts) <= s.top by {
                assert(tally_count(t@, s.file@, a) == touch_count(cs, s.file@, a, *opts));
            }
            assert(tally_count(t@, s.file@, s.top_author@) == touch_count(cs, s.file@,
                s.top_author@, *opts));
        }
        assert forall|p: Seq<char>|
            #![trigger file_touches(cs, p, *opts)]
            file_touches(cs, p, *opts) >= opts.min_total && file_touches(cs, p, *opts)
                >= 1 implies exists|
                k: int,
            | 0 <= k < r@.len() && #[trigger] r@[k].file@ == p by {
            assert(tally_total(t@, p) == file_touches(cs, p, *opts));
            let k = choose|k: int| 0 <= k < r@.len() && #[trigger] r@[k].key() == p;
            assert(r@[k].file@ == p);
        }
    }
    r
}

/// A touch of `p` counts toward directory `d`: `p` takes part, its file
/// reaches `min_total` touches (and one) over `all`, and its key is `d`.
pub open spec fn counts_toward(
    all: Seq<CommitRecord>,
    p: Seq<char>,
    opts: ScanOpts,
    depth: nat,
    d: Seq<char>,
) -> bool {
    &&& included(p, opts)
    &&& file_touches(all, p, opts) >= opts.min_total
    &&& file_touches(all, p, opts) >= 1
    &&& dir_key_of(p, depth) == d
}

/// The distinct paths of `ch` whose touch counts toward `d`.
pub open spec fn dir_hits(
    all: Seq<CommitRecord>,
    ch: Seq<FileChange>,
    opts: ScanOpts,
    depth: nat,
    d: Seq<char>,
) -> nat
    decreases ch.len(),
{
    if ch.len() == 0 {
        0
    } else {
        dir_hits(all, ch.drop_last(), opts, depth, d) + if counts_toward(
            all,
            ch.last().path@,
            opts,
            depth,
            d,
        ) && !changed_in(ch.drop_last(), ch.last().path@) {
            1nat
        } else {
            0
        }
    }
}

/// The touches by `a` in the commits `cs` that count toward `d`.
pub open spec fn dir_touch_count(
    all: Seq<CommitRecord>,
    cs: Seq<CommitRecord>,
    opts: ScanOpts,
    depth: nat,
    d: Seq<char>,
    a: Seq<char>,
) -> nat
    decreases cs.len(),
{
    if cs.len() == 0 {
        0
    } else {
        dir_touch_count(all, cs.drop_last(), opts, depth, d, a) + match cs.last().changes {
            Some(ch) => if cs.last().author@ == a {
                dir_hits(all, ch@, opts, depth, d)
            } else {
                0
            },
            None => 0,
        }
    }
}

/// All touches in the commits `cs` that count toward `d`.
pub open spec fn dir_touch_total(
    all: Seq<CommitRecord>,
    cs: Seq<CommitRecord>,
    opts: ScanOpts,
    depth: nat,
    d: Seq<char>,
) -> nat
    decreases cs.len(),
{
    if cs.len() == 0 {
        0
    } else {
        dir_touch_total(all, cs.drop_last(), opts, depth, d) + match cs.last().changes {
            Some(ch) => dir_hits(all, ch@, opts, depth, d),
            None => 0,
        }
    }
}

/// `s` scores its directory over the summed per-author touches of the
/// files folded into it.
pub open spec fn touch_dir_score_of(
    s: DirScore,
    cs: Seq<CommitRecord>,
    opts: ScanOpts,
    depth: nat,
) -> bool {
    &&& share_wf(s.share())
    &&& s.total as nat == dir_touch_total(cs, cs, opts, depth, s.dir@)
    &&& s.top as nat == dir_touch_count(cs, cs, opts, depth, s.dir@, s.top_author@)
    &&& forall|a: Seq<char>| #[trigger] dir_touch_count(cs, cs, opts, depth, s.dir@, a) <= s.top
}

/// The directory scores of history mode: one per directory that a
/// counted touch falls in, ranked.
pub open spec fn touch_dir_scores(
    cs: Seq<CommitRecord>,
    opts: ScanOpts,
    depth: nat,
    r: Seq<DirScore>,
) -> bool {
    &&& forall|k: int| 0 <= k < r.len() ==> touch_dir_score_of(#[trigger] r[k], cs, opts, depth)
    &&& forall|d: Seq<char>|
        #![trigger dir_touch_total(cs, cs, opts, depth, d)]
        dir_touch_total(cs, cs, opts, depth, d) >= 1 ==> exists|k: int|
            0 <= k < r.len() && #[trigger] r[k].dir@ == d
    &&& keys_distinct(r)
    &&& ranked(r)
}

/// The directory tally holds the counted touches of the first `i` commits
/// of `all`, with `part` of commit `i` by `author` so far.
pub open spec fn dir_touch_holds(
    t: Seq<KeyCounts>,
    all: Seq<CommitRecord>,
    opts: ScanOpts,
    depth: nat,
    i: int,
    author: Seq<char>,
    part: Seq<FileChange>,
) -> bool {
    &&& forall|d: Seq<char>, a: Seq<char>|
        #[trigger] tally_count(t, d, a) == dir_touch_count(all, all.take(i), opts, depth, d, a)
            + if a == author {
            dir_hits(all, part, opts, depth, d)
        } else {
            0
        }
    &&& forall|d: Seq<char>|
        #[trigger] tally_total(t, d) == dir_touch_total(all, all.take(i), opts, depth, d)
            + dir_hits(all, part, opts, depth, d)
}

/// History-mode directory scores: the touches of every file that reaches
/// `min_total` are summed per author and directory key at `depth`, and each
/// directory is scored over those sums.
pub fn compute_dir_scores_fast(
    commits: &Vec<CommitRecord>,
    max_commits: Option<usize>,
    opts: &ScanOpts,
    depth: usize,
) -> (r: Vec<DirScore>)
    requires
        change_count(commits@) <= u64::MAX,
    ensures
        touch_dir_scores(walked(commits@, max_commits), *opts, depth as nat, r@),
{
    let n = walk_count(commits.len(), max_commits);
    let files = touch_table(commits, n, opts);
    let ghost all = commits@.take(n as int);
    let ghost none: Seq<FileChange> = Seq::empty();
    let ghost nobody: Seq<char> = Seq::empty();
    let mut t: Vec<KeyCounts> = Vec::new();
    let mut i: usize = 0;
    while i < n
        invariant
            i <= n <= commits.len(),
            all == commits@.take(n as int),
            change_count(commits@) <= u64::MAX,
            tally_wf(files@),
            forall|p: Seq<char>| #[trigger] tally_total(files@, p) == file_touches(all, p, *opts),
            tally_wf(t@),
            tally_sum(t@) <= change_count(commits@.take(i as int)),
            none == Seq::<FileChange>::empty(),
            dir_touch_holds(t@, all, *opts, depth as nat, i as int, nobody, none),
        decreases n - i,
    {
        let c = &commits[i];
        proof {
            lemma_change_count_prefix(commits@, i as int);
            assert(all.take(i as int) =~= commits@.take(i as int));
            assert(all.take(i + 1) =~= commits@.take(i + 1));
            let next = all.take(i + 1);
            assert(next.drop_last() =~= all.take(i as int));
            assert(next.last() == commits@[i as int]);
        }
        match &c.changes {
            None => {
                proof {
                    let next = all.take(i + 1);
                    assert forall|d: Seq<char>, a: Seq<char>|
                        #[trigger] tally_count(t@, d, a) == dir_touch_count(all, next, *opts,
                            depth as nat, d, a)
                            + if a == nobody { dir_hits(all, none, *opts, depth as nat,
                                d) } else { 0 } by {
                        assert(tally_count(t@, d, a) == dir_touch_count(all, all.take(i as int),
                            *opts, depth as nat, d, a)
                            + if a == nobody { dir_hits(all, none, *opts, depth as nat,
                                d) } else { 0 });
                    }
                    assert forall|d: Seq<char>|
                        #[trigger] tally_total(t@, d) == dir_touch_total(all, next, *opts,
                            depth as nat, d)
                            + dir_hits(all, none, *opts, depth as nat, d) by {
                        assert(tally_total(t@, d) == dir_touch_total(all, all.take(i as int),
                            *opts, depth as nat, d)
                            + dir_hits(all, none, *opts, depth as nat, d));
                    }
                }
            },
            Some(ch) => {
                proof {
                    assert(ch@.take(0) =~= none);
                    assert forall|d: Seq<char>, a: Seq<char>|
                        #[trigger] tally_count(t@, d, a) == dir_touch_count(all,
                            all.take(i as int), *opts, depth as nat, d, a)
                            + if a == c.author@ { dir_hits(all, ch@.take(0), *opts, depth as nat,
                                d) } else { 0 } by {
                        assert(tally_count(t@, d, a) == dir_touch_count(all, all.take(i as int),
                            *opts, depth as nat, d, a)
                            + if a == nobody { dir_hits(all, none, *opts, depth as nat,
                                d) } else { 0 });
                    }
                    assert forall|d: Seq<char>|
                        #[trigger] tally_total(t@, d) == dir_touch_total(all, all.take(i as int),
                            *opts, depth as nat, d)
                            + dir_hits(all, ch@.take(0), *opts, depth as nat, d) by {
                        assert(tally_total(t@, d) == dir_touch_total(all, all.take(i as int),
                            *opts, depth as nat, d)
                            + dir_hits(all, none, *opts, depth as nat, d));
                    }
                }
                let mut j: usize = 0;
                while j < ch.len()
                    invariant
                        i < n <= commits.len(),
                        all == commits@.take(n as int),
                        c == commits@[i as int],
                        c.changes == Some(*ch),
                        j <= ch.len(),
                        change_count(commits@.take(i as int)) + ch@.len() <= u64::MAX,
                        tally_wf(files@),
                        forall|p: Seq<char>| #[trigger] tally_total(files@, p) == file_touches(all,
                            p, *opts),
                        tally_wf(t@),
                        tally_sum(t@) <= change_count(commits@.take(i as int)) + j,
                        dir_touch_holds(t@, all, *opts, depth as nat, i as int, c.author@,
                            ch@.take(j as int)),
                    decreases ch.len() - j,
                {
                    let ghost t0 = t@;
                    let path = &ch[j].path;
                    proof {
                        let nx = ch@.take(j + 1);
                        assert(nx.drop_last() =~= ch@.take(j as int));
                        assert(nx.last() == ch@[j as int]);
                    }
                    let mut counted = false;
                    if ext_ok(path.as_str(), opts) && !seen_before(ch, j) {
                        let ft = tally_total_of(&files, path);
                        if ft >= opts.min_total && ft >= 1 {
                            let key = dir_key(path.as_str(), depth);
                            tally_add(&mut t, &key, &c.author, 1);
                            counted = true;
                            proof {
                                assert forall|d: Seq<char>, a: Seq<char>|
                                    #[trigger] tally_count(t@, d, a) == dir_touch_count(all,
                                        all.take(i as int), *opts, depth as nat, d, a)
                                        + if a == c.author@ { dir_hits(all, ch@.take(j + 1), *opts,
                                            depth as nat, d) } else { 0 } by {
                                    assert(tally_count(t0, d, a) == dir_touch_count(all,
                                        all.take(i as int), *opts, depth as nat, d, a)
                                        + if a == c.author@ { dir_hits(all, ch@.take(j as int),
                                            *opts, depth as nat, d) } else { 0 });
                                    assert(counts_toward(all, path@, *opts, depth as nat,
                                        d) <==> d == key@);
                                }
                                assert forall|d: Seq<char>|
                                    #[trigger] tally_total(t@, d) == dir_touch_total(all,
                                        all.take(i as int), *opts, depth as nat, d)
                                        + dir_hits(all, ch@.take(j + 1), *opts, depth as nat,
                                            d) by {
                                    assert(tally_total(t0, d) == dir_touch_total(all,
                                        all.take(i as int), *opts, depth as nat, d)
                                        + dir_hits(all, ch@.take(j as int), *opts, depth as nat,
                                            d));
                                    assert(counts_toward(all, path@, *opts, depth as nat,
                                        d) <==> d == key@);
                                }
                            }
                        }
                    }
                    if !counted {
                        proof {
                            assert forall|d: Seq<char>| !(counts_toward(all, path@, *opts,
                                depth as nat, d)
                                && !changed_in(ch@.take(j as int), path@)) by {}
                            assert forall|d: Seq<char>, a: Seq<char>|
                                #[trigger] tally_count(t@, d, a) == dir_touch_count(all,
                                    all.take(i as int), *opts, depth as nat, d, a)
                                    + if a == c.author@ { dir_hits(all, ch@.take(j + 1), *opts,
                                        depth as nat, d) } else { 0 } by {
                                assert(tally_count(t0, d, a) == dir_touch_count(all,
                                    all.take(i as int), *opts, depth as nat, d, a)
                                    + if a == c.author@ { dir_hits(all, ch@.take(j as int), *opts,
                                        depth as nat, d) } else { 0 });
                            }
                            assert forall|d: Seq<char>|
                                #[trigger] tally_total(t@, d) == dir_touch_total(all,
                                    all.take(i as int), *opts, depth as nat, d)
                                    + dir_hits(all, ch@.take(j + 1), *opts, depth as nat, d) by {
                                assert(tally_total(t0, d) == dir_touch_total(all,
                                    all.take(i as int), *opts, depth as nat, d)
                                    + dir_hits(all, ch@.take(j as int), *opts, depth as nat, d));
                            }
                        }
                    }
                    j += 1;
                }
                proof {
                    assert(ch@.take(ch@.len() as int) =~= ch@);
                    let next = all.take(i + 1);
                    assert forall|d: Seq<char>, a: Seq<char>|
                        #[trigger] tally_count(t@, d, a) == dir_touch_count(all, next, *opts,
                            depth as nat, d, a)
                            + if a == nobody { dir_hits(all, none, *opts, depth as nat,
                                d) } else { 0 } by {
                        assert(tally_count(t@, d, a) == dir_touch_count(all, all.take(i as int),
                            *opts, depth as nat, d, a)
                            + if a == c.author@ { dir_hits(all, ch@, *opts, depth as nat,
                                d) } else { 0 });
                    }
                    assert forall|d: Seq<char>|
                        #[trigger] tally_total(t@, d) == dir_touch_total(all, next, *opts,
                            depth as nat, d)
                            + dir_hits(all, none, *opts, depth as nat, d) by {
                        assert(tally_total(t@, d) == dir_touch_total(all, all.take(i as int),
                            *opts, depth as nat, d)
                            + dir_hits(all, ch@, *opts, depth as nat, d));
                    }
                }
            },
        }
        i += 1;
    }
    let r = scores_from_tally::<DirScore>(&t, 0);
    proof {
        let cs = walked(commits@, max_commits);
        assert(cs == all);
        assert(all.take(n as int) =~= all);
        assert forall|k: int| 0 <= k < r@.len() implies touch_dir_score_of(#[trigger] r@[k], cs,
            *opts, depth as nat) by {
            let s = r@[k];
            assert(tally_score(s, t@));
            assert forall|a: Seq<char>| #[trigger] dir_touch_count(cs, cs, *opts, depth as nat,
                s.dir@, a) <= s.top by {
                assert(tally_count(t@, s.dir@, a) == dir_touch_count(all, all.take(n as int),
                    *opts, depth as nat, s.dir@, a)
                    + if a == nobody { dir_hits(all, none, *opts, depth as nat,
                        s.dir@) } else { 0 });
            }
            assert(tally_count(t@, s.dir@, s.top_author@) == dir_touch_count(all,
                all.take(n as int), *opts, depth as nat, s.dir@, s.top_author@)
                + if s.top_author@ == nobody { dir_hits(all, none, *opts, depth as nat,
                    s.dir@) } else { 0 });
            assert(tally_total(t@, s.dir@) == dir_touch_total(all, all.take(n as int), *opts,
                depth as nat, s.dir@)
                + dir_hits(all, none, *opts, depth as nat, s.dir@));
        }
        assert forall|d: Seq<char>|
            #![trigger dir_touch_total(cs, cs, *opts, depth as nat, d)]
            dir_touch_total(cs, cs, *opts, depth as nat, d) >= 1 implies exists|k: int|
                0 <= k < r@.len() && #[trigger] r@[k].dir@ == d by {
            assert(tally_total(t@, d) == dir_touch_total(all, all.take(n as int), *opts,
                depth as nat, d)
                + dir_hits(all, none, *opts, depth as nat, d));
            let k = choose|k: int| 0 <= k < r@.len() && #[trigger] r@[k].key() == d;
            assert(r@[k].dir@ == d);
        }
    }
    r
}

/// A path's touch count in history mode is at most the number of commits
/// the walk visits, so at most `max_commits` where a cap is set.
pub proof fn lemma_touches_capped(
    cs: Seq<CommitRecord>,
    max_commits: Option<usize>,
    p: Seq<char>,
    opts: ScanOpts,
)
    ensures
        file_touches(walked(cs, max_commits), p, opts) <= walk_len(cs.len(), max_commits),
        max_commits matches Some(m) ==> file_touches(walked(cs, max_commits), p, opts) <= m,
{
    lemma_touches_le_commits(walked(cs, max_commits), p, opts);
}

/// Two history-mode file scorings of the same walk agree, path by path, on
/// total and top count.
pub proof fn lemma_touch_scores_deterministic(
    cs: Seq<CommitRecord>,
    opts: ScanOpts,
    r1: Seq<BusScore>,
    r2: Seq<BusScore>,
)
    requires
        touch_file_scores(cs, opts, r1),
        touch_file_scores(cs, opts, r2),
    ensures
        forall|k: int| 0 <= k < r1.len() ==> same_share_in(r2, #[trigger] r1[k]),
{
    assert forall|k: int| 0 <= k < r1.len() implies same_share_in(r2, #[trigger] r1[k]) by {
        let p = r1[k].file@;
        assert(touch_score_of(r1[k], cs, opts));
        assert(file_touches(cs, p, opts) >= 1);
        let m = choose|m: int| 0 <= m < r2.len() && #[trigger] r2[m].file@ == p;
        assert(touch_score_of(r2[m], cs, opts));
        assert(touch_count(cs, p, r2[m].top_author@, opts) <= r1[k].top);
        assert(touch_count(cs, p, r1[k].top_author@, opts) <= r2[m].top);
        assert(r2[m].top == r1[k].top);
        assert(r2[m].total == r1[k].total);
        assert(r2[m].key() == r1[k].key());
        assert(r2[m].share() == r1[k].share());
    }
}

/// Two history-mode directory scorings of the same walk agree, directory
/// by directory, on total and top count.
pub proof fn lemma_touch_dir_scores_deterministic(
    cs: Seq<CommitRecord>,
    opts: ScanOpts,
    depth: nat,
    r1: Seq<DirScore>,
    r2: Seq<DirScore>,
)
    requires
        touch_dir_scores(cs, opts, depth, r1),
        touch_dir_scores(cs, opts, depth, r2),
    ensures
        forall|k: int| 0 <= k < r1.len() ==> same_share_in(r2, #[trigger] r1[k]),
{
    assert forall|k: int| 0 <= k < r1.len() implies same_share_in(r2, #[trigger] r1[k]) by {
        let d = r1[k].dir@;
        assert(touch_dir_score_of(r1[k], cs, opts, depth));
        assert(dir_touch_total(cs, cs, opts, depth, d) >= 1);
        let m = choose|m: int| 0 <= m < r2.len() && #[trigger] r2[m].dir@ == d;
        assert(touch_dir_score_of(r2[m], cs, opts, depth));
        assert(dir_touch_count(cs, cs, opts, depth, d, r2[m].top_author@) <= r1[k].top);
        assert(dir_touch_count(cs, cs, opts, depth, d, r1[k].top_author@) <= r2[m].top);
        assert(r2[m].top == r1[k].top);
        assert(r2[m].total == r1[k].total);
        assert(r2[m].key() == r1[k].key());
        assert(r2[m].share() == r1[k].share());
    }
}

/// A path touched fewer than `min_total` times stands in no history-mode
/// file score.
pub proof fn lemma_touch_min_total_excludes(
    cs: Seq<CommitRecord>,
    opts: ScanOpts,
    r: Seq<BusScore>,
    p: Seq<char>,
)
    requires
        touch_file_scores(cs, opts, r),
        file_touches(cs, p, opts) < opts.min_total,
    ensures
        forall|k: int| 0 <= k < r.len() ==> #[trigger] r[k].file@ != p,
{
    assert forall|k: int| 0 <= k < r.len() implies #[trigger] r[k].file@ != p by {
        assert(touch_score_of(r[k], cs, opts));
    }
}

} // verus!
