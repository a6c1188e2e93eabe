//! Churn: recent change volume per path, older changes weighing less.
//!
//! The decay weight of a commit is `(window_days - age_days) / window_days`;
//! since every weight of one computation shares the denominator
//! `window_days`, an entry holds the exact numerator sum in `decayed` and
//! the denominator in `scale`: its churn is `decayed / scale`.

use vstd::multiset::Multiset;
use vstd::prelude::*;

use crate::filter::{ext_ok, included, ScanOpts};
use crate::history::{change_count, lemma_change_count_prefix, CommitRecord, FileChange, LineStats};
use crate::paths::{dir_key, dir_key_of};

verus! {

/// Seconds in a day.
pub const DAY_SECS: i64 = 86400;

/// Whole days in an age of `age` seconds; a commit in the future is 0 days old.
pub open spec fn age_days(age: int) -> int {
    if age <= 0 {
        0
    } else {
        age / 86400
    }
}

/// The weight numerator of a commit `age` seconds old, or `None` where it
/// falls outside the window. With a positive window, a commit is inside
/// when it is less than `window` days old, and weighs
/// `window - age_days`; with no positive window, decay is off and only
/// commits made at or after the scan's time count, with weight 1.
pub open spec fn decay_spec(age: int, window: int) -> Option<nat> {
    if window > 0 {
        if age < window * 86400 {
            Some((window - age_days(age)) as nat)
        } else {
            None
        }
    } else if age <= 0 {
        Some(1)
    } else {
        None
    }
}

/// The common denominator of all weights.
pub open spec fn decay_scale(window: int) -> nat {
    if window > 0 {
        window as nat
    } else {
        1
    }
}

/// The weight numerator of a commit made at `time` for a scan at `now`.
pub fn decay_weight(now: i64, time: i64, window_days: i64) -> (r: Option<u64>)
    ensures
        r matches Some(w) ==> decay_spec(now - time, window_days as int) == Some(w as nat),
        r is None ==> decay_spec(now - time, window_days as int) is None,
{
    let age: i128 = now as i128 - time as i128;
    if window_days > 0 {
        if age < (window_days as i128) * (DAY_SECS as i128) {
            let days: i128 = if age <= 0 {
                0
            } else {
                age / (DAY_SECS as i128)
            };
            assert(days < window_days) by {
                if age > 0 {
                    assert(age / 86400 < window_days as int) by (nonlinear_arith)
                        requires
                            0 < age < window_days as int * 86400,
                    ;
                }
            }
            Some((window_days as i128 - days) as u64)
        } else {
            None
        }
    } else if age <= 0 {
        Some(1)
    } else {
        None
    }
}

/// The common denominator of all weights for `window_days`.
pub fn weight_scale(window_days: i64) -> (r: u64)
    ensures
        r == decay_scale(window_days as int),
        r >= 1,
{
    if window_days > 0 {
        window_days as u64
    } else {
        1
    }
}

/// At the window's edge: a commit exactly `window` days old is outside
/// the window and counts for nothing, and a commit made at the scan's time
/// weighs the full scale, that is 1.
pub proof fn lemma_decay_boundary(window: int)
    requires
        window > 0,
    ensures
        decay_spec(window * 86400, window) is None,
        decay_spec(0, window) == Some(decay_scale(window)),
{
}

/// Every weight lies between 0 and 1: its numerator is at most the scale.
pub proof fn lemma_weight_at_most_scale(age: int, window: int)
    ensures
        decay_spec(age, window) matches Some(w) ==> 1 <= w <= decay_scale(window),
{
    if window > 0 && age < window * 86400 && age > 0 {
        assert(age / 86400 >= 0) by (nonlinear_arith)
            requires
                age > 0,
        ;
        assert(age / 86400 < window) by (nonlinear_arith)
            requires
                0 < age < window * 86400,
        ;
    }
}

/// Churn of one path or directory.
pub struct ChurnEntry {
    pub path: String,
    /// Sum of (adds + dels) times each commit's weight numerator.
    pub decayed: u128,
    /// The weights' common denominator.
    pub scale: u64,
    pub adds: u64,
    pub dels: u64,
    /// Changes counted, one per delta.
    pub touches: u64,
}

/// The key that a path's churn is summed under: the path itself, or its
/// directory key at the given depth.
pub open spec fn path_key(p: Seq<char>, by_dir: Option<nat>) -> Seq<char> {
    match by_dir {
        None => p,
        Some(depth) => dir_key_of(p, depth),
    }
}

/// A delta weighs in: its path takes part, its patch stats are known, and
/// it changed or showed some line.
pub open spec fn delta_counts(c: FileChange, opts: ScanOpts) -> bool {
    &&& included(c.path@, opts)
    &&& c.stats is Some
    &&& !(c.stats->0.adds + c.stats->0.dels == 0 && c.stats->0.context == 0)
}

/// Field `f` of an entry: 0 decayed, 1 adds, 2 dels, 3 touches.
pub open spec fn field_of(e: ChurnEntry, f: int) -> nat {
    if f == 0 {
        e.decayed as nat
    } else if f == 1 {
        e.adds as nat
    } else if f == 2 {
        e.dels as nat
    } else {
        e.touches as nat
    }
}

/// What one delta adds to field `f` at weight numerator `w`.
pub open spec fn delta_field(st: LineStats, w: nat, f: int) -> nat {
    if f == 0 {
        ((st.adds + st.dels) * w) as nat
    } else if f == 1 {
        st.adds as nat
    } else if f == 2 {
        st.dels as nat
    } else {
        1
    }
}

/// Field `f` summed over the deltas of one commit keyed `k`.
pub open spec fn churn_in(
    ch: Seq<FileChange>,
    opts: ScanOpts,
    by_dir: Option<nat>,
    k: Seq<char>,
    w: nat,
    f: int,
) -> nat
    decreases ch.len(),
{
    if ch.len() == 0 {
        0
    } else {
        churn_in(ch.drop_last(), opts, by_dir, k, w, f) + if delta_counts(ch.last(), opts)
            && path_key(ch.last().path@, by_dir) == k {
            delta_field(ch.last().stats->0, w, f)
        } else {
            0
        }
    }
}

/// Field `f` summed over the commits inside the window, keyed `k`.
pub open spec fn churn_sum(
    cs: Seq<CommitRecord>,
    now: int,
    window: int,
    opts: ScanOpts,
    by_dir: Option<nat>,
    k: Seq<char>,
    f: int,
) -> nat
    decreases cs.len(),
{
    if cs.len() == 0 {
        0
    } else {
        churn_sum(cs.drop_last(), now, window, opts, by_dir, k, f) + match (
            cs.last().changes,
            decay_spec(now - cs.last().time, window),
        ) {
            (Some(ch), Some(w)) => churn_in(ch@, opts, by_dir, k, w, f),
            _ => 0,
        }
    }
}

/// All added and deleted lines of the patches of `cs`.
pub open spec fn line_count(cs: Seq<CommitRecord>) -> nat
    decreases cs.len(),
{
    if cs.len() == 0 {
        0
    } else {
        line_count(cs.drop_last()) + match cs.last().changes {
            Some(ch) => delta_lines(ch@),
            None => 0,
        }
    }
}

/// All added and deleted lines of the patches of `ch`.
pub open spec fn delta_lines(ch: Seq<FileChange>) -> nat
    decreases ch.len(),
{
    if ch.len() == 0 {
        0
    } else {
        delta_lines(ch.drop_last()) + match ch.last().stats {
            Some(st) => (st.adds + st.dels) as nat,
            None => 0,
        }
    }
}

/// `e` holds the churn of its key over `cs`.
pub open spec fn churn_entry_of(
    e: ChurnEntry,
    cs: Seq<CommitRecord>,
    now: int,
    window: int,
    opts: ScanOpts,
    by_dir: Option<nat>,
) -> bool {
    &&& e.scale == decay_scale(window)
    &&& e.touches >= 1
    &&& forall|f: int|
        0 <= f < 4 ==> #[trigger] field_of(e, f) == churn_sum(cs, now, window, opts, by_dir,
            e.path@, f)
}

/// Ordered by decayed churn, larger first.
pub open spec fn churn_ranked(s: Seq<ChurnEntry>) -> bool {
    forall|i: int, j: int| 0 <= i < j < s.len() ==> #[trigger] s[i].decayed
        >= #[trigger] s[j].decayed
}

/// Each key stands at most once.
pub open spec fn paths_distinct(s: Seq<ChurnEntry>) -> bool {
    forall|i: int, j: int| 0 <= i < j < s.len() ==> #[trigger] s[i].path@ != #[trigger] s[j].path@
}

/// The churn table of `cs`: one entry per key with a counted delta, ranked.
pub open spec fn churn_table(
    cs: Seq<CommitRecord>,
    now: int,
    window: int,
    opts: ScanOpts,
    by_dir: Option<nat>,
    r: Seq<ChurnEntry>,
) -> bool {
    &&& forall|k: int|
        0 <= k < r.len() ==> churn_entry_of(#[trigger] r[k], cs, now, window, opts, by_dir)
    &&& forall|p: Seq<char>|
        #![trigger churn_sum(cs, now, window, opts, by_dir, p, 3)]
        churn_sum(cs, now, window, opts, by_dir, p, 3) >= 1 ==> exists|k: int|
            0 <= k < r.len() && #[trigger] r[k].path@ == p
    &&& paths_distinct(r)
    &&& churn_ranked(r)
}

/// Field `f` of the entries keyed `k`.
pub open spec fn table_field(t: Seq<ChurnEntry>, k: Seq<char>, f: int) -> nat
    decreases t.len(),
{
    if t.len() == 0 {
        0
    } else {
        table_field(t.drop_last(), k, f) + if t.last().path@ == k {
            field_of(t.last(), f)
        } else {
            0
        }
    }
}

/// Added and deleted lines of all entries.
pub open spec fn table_lines(t: Seq<ChurnEntry>) -> nat
    decreases t.len(),
{
    if t.len() == 0 {
        0
    } else {
        table_lines(t.drop_last()) + t.last().adds as nat + t.last().dels as nat
    }
}

/// Touches of all entries.
pub open spec fn table_touches(t: Seq<ChurnEntry>) -> nat
    decreases t.len(),
{
    if t.len() == 0 {
        0
    } else {
        table_touches(t.drop_last()) + t.last().touches as nat
    }
}

/// An entry has the common scale, a touch, and at most full weight on its lines.
pub open spec fn entry_ok(e: ChurnEntry, scale: nat) -> bool {
    &&& e.scale == scale
    &&& e.touches >= 1
    &&& e.decayed <= (e.adds + e.dels) * scale
}

/// Keys are distinct and every entry is consistent with the common scale.
pub open spec fn table_wf(t: Seq<ChurnEntry>, scale: nat) -> bool {
    &&& paths_distinct(t)
    &&& forall|i: int| 0 <= i < t.len() ==> entry_ok(#[trigger] t[i], scale)
}

proof fn lemma_entry_le_table(t: Seq<ChurnEntry>, i: int)
    requires
        0 <= i < t.len(),
    ensures
        t[i].adds + t[i].dels <= table_lines(t),
        t[i].touches <= table_touches(t),
    decreases t.len(),
{
    if i < t.len() - 1 {
        lemma_entry_le_table(t.drop_last(), i);
    }
}

/// With distinct keys, a key's fields are those of its entry, or 0.
proof fn lemma_table_row(t: Seq<ChurnEntry>, k: Seq<char>)
    requires
        paths_distinct(t),
    ensures
        forall|i: int, f: int|
            0 <= i < t.len() && t[i].path@ == k ==> #[trigger] table_field(t, k, f) == field_of(
                #[trigger] t[i],
                f,
            ),
        (forall|i: int| 0 <= i < t.len() ==> t[i].path@ != k) ==> forall|f: int|
            #[trigger] table_field(t, k, f) == 0,
    decreases t.len(),
{
    if t.len() > 0 {
        let d = t.drop_last();
        let last = t.len() - 1;
        assert(paths_distinct(d)) by {
            assert forall|i: int, j: int| 0 <= i < j < d.len() implies #[trigger] d[i].path@
                != #[trigger] d[j].path@ by {
                assert(d[i] == t[i] && d[j] == t[j]);
            }
        }
        lemma_table_row(d, k);
        if t[last].path@ == k {
            assert forall|x: int| 0 <= x < d.len() implies d[x].path@ != k by {
                assert(d[x] == t[x]);
                assert(t[x].path@ != t[last].path@);
            }
            assert forall|f: int| #[trigger] table_field(d, k, f) == 0 by {}
        }
        assert forall|i: int, f: int|
            0 <= i < t.len() && t[i].path@ == k implies #[trigger] table_field(t, k, f) == field_of(
            #[trigger] t[i],
            f,
        ) by {
            assert(table_field(t, k, f) == table_field(d, k, f) + if t[last].path@ == k {
                field_of(t[last], f)
            } else {
                0
            });
            if i < last {
                assert(d[i] == t[i]);
                assert(t[i].path@ != t[last].path@);
                assert(table_field(d, k, f) == field_of(d[i], f));
            } else {
                assert(table_field(d, k, f) == 0);
            }
        }
        if forall|i: int| 0 <= i < t.len() ==> t[i].path@ != k {
            assert forall|x: int| 0 <= x < d.len() implies d[x].path@ != k by {
                assert(d[x] == t[x]);
            }
            assert(t[last].path@ != k);
            assert forall|f: int| #[trigger] table_field(t, k, f) == 0 by {
                assert(table_field(d, k, f) == 0);
            }
        }
    }
}

proof fn lemma_table_update(t: Seq<ChurnEntry>, i: int, e: ChurnEntry)
    requires
        0 <= i < t.len(),
        e.path@ == t[i].path@,
    ensures
        forall|k: Seq<char>, f: int|
            #[trigger] table_field(t.update(i, e), k, f) + (if k == e.path@ {
                field_of(t[i], f)
            } else {
                0
            }) == table_field(t, k, f) + if k == e.path@ {
                field_of(e, f)
            } else {
                0
            },
        table_lines(t.update(i, e)) + t[i].adds + t[i].dels == table_lines(t) + e.adds + e.dels,
        table_touches(t.update(i, e)) + t[i].touches == table_touches(t) + e.touches,
    decreases t.len(),
{
    let u = t.update(i, e);
    if i < t.len() - 1 {
        lemma_table_update(t.drop_last(), i, e);
        assert(u.drop_last() =~= t.drop_last().update(i, e));
        assert(u.last() == t.last());
    } else {
        assert(u.drop_last() =~= t.drop_last());
        assert(u.last() == e);
    }
    assert forall|k: Seq<char>, f: int|
        #[trigger] table_field(u, k, f) + (if k == e.path@ {
            field_of(t[i], f)
        } else {
            0
        }) == table_field(t, k, f) + if k == e.path@ {
            field_of(e, f)
        } else {
            0
        } by {
        assert(table_field(u, k, f) == table_field(u.drop_last(), k, f) + if u.last().path@ == k {
            field_of(u.last(), f)
        } else {
            0
        });
    }
}

/// Adds one delta with weight numerator `w` under `key`.
fn add_delta(t: &mut Vec<ChurnEntry>, key: &String, st: &LineStats, w: u64, scale: u64)
    requires
        table_wf(old(t)@, scale as nat),
        1 <= w <= scale,
        table_lines(old(t)@) + st.adds + st.dels <= u64::MAX,
        table_touches(old(t)@) + 1 <= u64::MAX,
    ensures
        table_wf(final(t)@, scale as nat),
        forall|k: Seq<char>, f: int|
            #[trigger] table_field(final(t)@, k, f) == table_field(old(t)@, k, f) + if k == key@ {
                delta_field(*st, w as nat, f)
            } else {
                0
            },
        table_lines(final(t)@) == table_lines(old(t)@) + st.adds + st.dels,
        table_touches(final(t)@) == table_touches(old(t)@) + 1,
{
    let lines = st.adds + st.dels;
    assert((lines as int) * (w as int) <= (lines as int) * (scale as int)) by (nonlinear_arith)
        requires
            w <= scale,
    ;
    assert((lines as int) * (scale as int)
        <= (u64::MAX as int) * (u64::MAX as int)) by (nonlinear_arith)
        requires
            lines <= u64::MAX,
            scale <= u64::MAX,
    ;
    let weighted: u128 = (lines as u128) * (w as u128);
    let mut i: usize = 0;
    while i < t.len()
        invariant
            i <= t.len(),
            t@ == old(t)@,
            table_wf(t@, scale as nat),
            1 <= w <= scale,
            lines == st.adds + st.dels,
            weighted == lines * w,
            lines * w <= lines * scale,
            table_lines(t@) + lines <= u64::MAX,
            table_touches(t@) + 1 <= u64::MAX,
            forall|j: int| 0 <= j < i ==> t@[j].path@ != key@,
        decreases t.len() - i,
    {
        if t[i].path == *key {
            let ghost before = t@;
            proof {
                lemma_entry_le_table(before, i as int);
                assert(entry_ok(before[i as int], scale as nat));
            }
            let old_e = t.remove(i);
            let total_lines = old_e.adds + st.adds + old_e.dels + st.dels;
            assert((old_e.adds + old_e.dels) as int * scale as int + lines as int * scale as int
                == total_lines as int * scale as int) by (nonlinear_arith)
                requires
                    total_lines == old_e.adds + old_e.dels + lines,
            ;
            assert(total_lines as int * scale as int <= (u64::MAX as int) * (u64::MAX as int))
                by (nonlinear_arith)
                requires
                    total_lines <= u64::MAX,
                    scale <= u64::MAX,
            ;
            let e = ChurnEntry {
                path: old_e.path,
                decayed: old_e.decayed + weighted,
                scale: old_e.scale,
                adds: old_e.adds + st.adds,
                dels: old_e.dels + st.dels,
                touches: old_e.touches + 1,
            };
            t.insert(i, e);
            proof {
                assert(t@ =~= before.update(i as int, e));
                lemma_table_update(before, i as int, e);
                assert forall|j: int| 0 <= j < t@.len() implies entry_ok(#[trigger] t@[j],
                    scale as nat) by {
                    if j != i {
                        assert(t@[j] == before[j]);
                    }
                }
                assert forall|x: int, y: int| 0 <= x < y < t@.len() implies #[trigger] t@[x].path@
                    != #[trigger] t@[y].path@ by {
                    assert(t@[x].path@ == before[x].path@);
                    assert(t@[y].path@ == before[y].path@);
                }
                assert forall|k: Seq<char>, f: int|
                    #[trigger] table_field(t@, k, f) == table_field(before, k, f) + if k == key@ {
                        delta_field(*st, w as nat, f)
                    } else {
                        0
                    } by {
                    assert(field_of(e, f) == field_of(before[i as int], f) + delta_field(*st,
                        w as nat, f));
                }
            }
            return;
        }
        i += 1;
    }
    let ghost before = t@;
    let e = ChurnEntry {
        path: key.clone(),
        decayed: weighted,
        scale,
        adds: st.adds,
        dels: st.dels,
        touches: 1,
    };
    t.push(e);
    proof {
        assert(t@.drop_last() =~= before);
        assert(t@.last() == e);
        assert forall|j: int| 0 <= j < t@.len() implies entry_ok(#[trigger] t@[j],
            scale as nat) by {
            if j < before.len() {
                assert(t@[j] == before[j]);
            }
        }
        assert forall|x: int, y: int| 0 <= x < y < t@.len() implies #[trigger] t@[x].path@
            != #[trigger] t@[y].path@ by {
            assert(t@[x] == before[x]);
            if y < before.len() {
                assert(t@[y] == before[y]);
            }
        }
        assert forall|k: Seq<char>, f: int|
            #[trigger] table_field(t@, k, f) == table_field(before, k, f) + if k == key@ {
                delta_field(*st, w as nat, f)
            } else {
                0
            } by {
            assert(field_of(e, f) == delta_field(*st, w as nat, f));
        }
    }
}

proof fn lemma_line_count_prefix(cs: Seq<CommitRecord>, n: int)
    requires
        0 <= n < cs.len(),
    ensures
        line_count(cs.take(n)) + match cs[n].changes {
            Some(ch) => delta_lines(ch@),
            None => 0,
        } <= line_count(cs),
    decreases cs.len(),
{
    if n < cs.len() - 1 {
        assert(cs.drop_last().take(n) =~= cs.take(n));
        lemma_line_count_prefix(cs.drop_last(), n);
    } else {
        assert(cs.take(n) =~= cs.drop_last());
    }
}

proof fn lemma_delta_lines_prefix(ch: Seq<FileChange>, n: int)
    requires
        0 <= n <= ch.len(),
    ensures
        delta_lines(ch.take(n)) <= delta_lines(ch),
    decreases ch.len(),
{
    if n < ch.len() {
        assert(ch.drop_last().take(n) =~= ch.take(n));
        lemma_delta_lines_prefix(ch.drop_last(), n);
    } else {
        assert(ch.take(n) =~= ch);
    }
}

/// The grouping depth, if any, as a spec value.
pub open spec fn depth_of(by_dir: Option<usize>) -> Option<nat> {
    match by_dir {
        Some(d) => Some(d as nat),
        None => None,
    }
}

fn key_of(path: &String, by_dir: Option<usize>) -> (r: String)
    ensures
        r@ == path_key(path@, depth_of(by_dir)),
{
    match by_dir {
        Some(d) => dir_key(path.as_str(), d),
        None => path.clone(),
    }
}

/// The table holds field sums of the first `i` commits, with `part` of
/// commit `i` at weight `w` so far.
pub open spec fn churn_holds(
    t: Seq<ChurnEntry>,
    cs: Seq<CommitRecord>,
    now: int,
    window: int,
    opts: ScanOpts,
    by_dir: Option<nat>,
    i: int,
    part: Seq<FileChange>,
    w: nat,
) -> bool {
    forall|k: Seq<char>, f: int|
        #[trigger] table_field(t, k, f) == churn_sum(cs.take(i), now, window, opts, by_dir, k, f)
            + churn_in(part, opts, by_dir, k, w, f)
}

/// Per key, the churn sums over all commits inside the window.
fn churn_rows(
    commits: &Vec<CommitRecord>,
    now: i64,
    window_days: i64,
    opts: &ScanOpts,
    by_dir: Option<usize>,
) -> (t: Vec<ChurnEntry>)
    requires
        line_count(commits@) <= u64::MAX,
        change_count(commits@) <= u64::MAX,
    ensures
        table_wf(t@, decay_scale(window_days as int)),
        forall|k: Seq<char>, f: int|
            #[trigger] table_field(t@, k, f) == churn_sum(
                commits@,
                now as int,
                window_days as int,
                *opts,
                depth_of(by_dir),
                k,
                f,
            ),
{
    let scale = weight_scale(window_days);
    let ghost bd = depth_of(by_dir);
    let ghost none: Seq<FileChange> = Seq::empty();
    let mut t: Vec<ChurnEntry> = Vec::new();
    let mut i: usize = 0;
    while i < commits.len()
        invariant
            i <= commits.len(),
            scale == decay_scale(window_days as int),
            bd == depth_of(by_dir),
            line_count(commits@) <= u64::MAX,
            change_count(commits@) <= u64::MAX,
            table_wf(t@, scale as nat),
            table_lines(t@) <= line_count(commits@.take(i as int)),
            table_touches(t@) <= change_count(commits@.take(i as int)),
            none == Seq::<FileChange>::empty(),
            churn_holds(t@, commits@, now as int, window_days as int, *opts, bd, i as int, none, 0),
        decreases commits.len() - i,
    {
        let c = &commits[i];
        let ghost next = commits@.take(i + 1);
        proof {
            lemma_line_count_prefix(commits@, i as int);
            lemma_change_count_prefix(commits@, i as int);
            assert(next.drop_last() =~= commits@.take(i as int));
            assert(next.last() == commits@[i as int]);
            lemma_weight_at_most_scale(now - c.time, window_days as int);
        }
        let weight = decay_weight(now, c.time, window_days);
        match (&c.changes, weight) {
            (Some(ch), Some(w)) => {
                proof {
                    assert(ch@.take(0) =~= none);
                    assert forall|k: Seq<char>, f: int|
                        #[trigger] table_field(t@, k, f) == churn_sum(commits@.take(i as int),
                            now as int, window_days as int, *opts, bd, k, f)
                            + churn_in(ch@.take(0), *opts, bd, k, w as nat, f) by {
                        assert(table_field(t@, k, f) == churn_sum(commits@.take(i as int),
                            now as int, window_days as int, *opts, bd, k, f)
                            + churn_in(none, *opts, bd, k, 0, f));
                    }
                }
                let mut j: usize = 0;
                while j < ch.len()
                    invariant
                        i < commits.len(),
                        c == commits@[i as int],
                        c.changes == Some(*ch),
                        decay_spec(now - c.time, window_days as int) == Some(w as nat),
                        1 <= w <= scale,
                        scale == decay_scale(window_days as int),
                        bd == depth_of(by_dir),
                        j <= ch.len(),
                        line_count(commits@.take(i as int)) + delta_lines(ch@) <= u64::MAX,
                        change_count(commits@.take(i as int)) + ch@.len() <= u64::MAX,
                        table_wf(t@, scale as nat),
                        table_lines(t@) <= line_count(commits@.take(i as int))
                            + delta_lines(ch@.take(j as int)),
                        table_touches(t@) <= change_count(commits@.take(i as int)) + j,
                        churn_holds(t@, commits@, now as int, window_days as int, *opts, bd,
                            i as int, ch@.take(j as int), w as nat),
                    decreases ch.len() - j,
                {
                    let ghost t0 = t@;
                    let delta = &ch[j];
                    proof {
                        let nx = ch@.take(j + 1);
                        assert(nx.drop_last() =~= ch@.take(j as int));
                        assert(nx.last() == ch@[j as int]);
                        lemma_delta_lines_prefix(ch@, j + 1);
                    }
                    let mut counted = false;
                    if ext_ok(delta.path.as_str(), opts) {
                        match &delta.stats {
                            Some(st) => {
                                if !(st.adds == 0 && st.dels == 0 && st.context == 0) {
                                    let key = key_of(&delta.path, by_dir);
                                    add_delta(&mut t, &key, st, w, scale);
                                    counted = true;
                                    proof {
                                        assert forall|k: Seq<char>, f: int|
                                            #[trigger] table_field(t@, k, f)
                                                == churn_sum(commits@.take(i as int), now as int,
                                                window_days as int, *opts, bd, k, f)
                                                + churn_in(ch@.take(j + 1), *opts, bd, k, w as nat,
                                                    f) by {
                                            assert(table_field(t0, k, f)
                                                == churn_sum(commits@.take(i as int), now as int,
                                                window_days as int, *opts, bd, k, f)
                                                + churn_in(ch@.take(j as int), *opts, bd, k,
                                                    w as nat, f));
                                        }
                                    }
                                }
                            },
                            None => {},
                        }
                    }
                    if !counted {
                        proof {
                            assert(!delta_counts(ch@[j as int], *opts));
                            assert forall|k: Seq<char>, f: int|
                                #[trigger] table_field(t@, k, f)
                                    == churn_sum(commits@.take(i as int), now as int,
                                    window_days as int, *opts, bd, k, f)
                                    + churn_in(ch@.take(j + 1), *opts, bd, k, w as nat, f) by {
                                assert(table_field(t0, k, f) == churn_sum(commits@.take(i as int),
                                    now as int, window_days as int, *opts, bd, k, f)
                                    + churn_in(ch@.take(j as int), *opts, bd, k, w as nat, f));
                            }
                        }
                    }
                    j += 1;
                }
                proof {
                    assert(ch@.take(ch@.len() as int) =~= ch@);
                    assert forall|k: Seq<char>, f: int|
                        #[trigger] table_field(t@, k, f) == churn_sum(next, now as int,
                            window_days as int, *opts, bd, k, f)
                            + churn_in(none, *opts, bd, k, 0, f) by {
                        assert(table_field(t@, k, f) == churn_sum(commits@.take(i as int),
                            now as int, window_days as int, *opts, bd, k, f)
                            + churn_in(ch@, *opts, bd, k, w as nat, f));
                    }
                }
            },
            _ => {
                proof {
                    assert forall|k: Seq<char>, f: int|
                        #[trigger] table_field(t@, k, f) == churn_sum(next, now as int,
                            window_days as int, *opts, bd, k, f)
                            + churn_in(none, *opts, bd, k, 0, f) by {
                        assert(table_field(t@, k, f) == churn_sum(commits@.take(i as int),
                            now as int, window_days as int, *opts, bd, k, f)
                            + churn_in(none, *opts, bd, k, 0, f));
                    }
                }
            },
        }
        i += 1;
    }
    proof {
        assert(commits@.take(commits.len() as int) =~= commits@);
        assert forall|k: Seq<char>, f: int|
            #[trigger] table_field(t@, k, f) == churn_sum(commits@, now as int, window_days as int,
                *opts, bd, k, f) by {
            assert(table_field(t@, k, f) == churn_sum(commits@.take(commits.len() as int),
                now as int, window_days as int, *opts, bd, k, f)
                + churn_in(none, *opts, bd, k, 0, f));
        }
    }
    t
}

/// Sorts entries by decayed churn, larger first.
fn sort_churn(v: Vec<ChurnEntry>) -> (r: Vec<ChurnEntry>)
    ensures
        r@.to_multiset() == v@.to_multiset(),
        churn_ranked(r@),
{
    broadcast use vstd::seq_lib::group_to_multiset_ensures;

    let ghost orig = v@;
    let mut rest = v;
    let mut out: Vec<ChurnEntry> = Vec::new();
    assert(out@.to_multiset() =~= Multiset::empty());
    while rest.len() > 0
        invariant
            out@.to_multiset().add(rest@.to_multiset()) == orig.to_multiset(),
            churn_ranked(out@),
        decreases rest.len(),
    {
        let ghost before_rest = rest@;
        let x = rest.pop().unwrap();
        proof {
            assert(before_rest =~= rest@.push(x));
            vstd::seq_lib::to_multiset_build(rest@, x);
        }
        let mut k: usize = 0;
        while k < out.len() && out[k].decayed >= x.decayed
            invariant
                k <= out.len(),
                forall|m: int| 0 <= m < k ==> #[trigger] out@[m].decayed >= x.decayed,
            decreases out.len() - k,
        {
            k += 1;
        }
        let ghost before_out = out@;
        out.insert(k, x);
        proof {
            vstd::seq_lib::to_multiset_insert(before_out, k as int, x);
            assert(out@ =~= before_out.insert(k as int, x));
            assert forall|i: int, j: int| 0 <= i < j < out@.len() implies #[trigger] out@[i].decayed
                >= #[trigger] out@[j].decayed by {
                if j < k {
                    assert(out@[i] == before_out[i] && out@[j] == before_out[j]);
                } else if j == k {
                    assert(out@[i] == before_out[i]);
                } else if i == k {
                    assert(out@[j] == before_out[j - 1]);
                    assert(before_out[k as int].decayed < x.decayed);
                    if j - 1 > k {
                        assert(before_out[k as int].decayed >= before_out[j - 1].decayed);
                    }
                } else if i < k {
                    assert(out@[i] == before_out[i] && out@[j] == before_out[j - 1]);
                } else {
                    assert(out@[i] == before_out[i - 1] && out@[j] == before_out[j - 1]);
                }
            }
        }
    }
    assert(rest@ =~= Seq::<ChurnEntry>::empty());
    assert(rest@.to_multiset() =~= Multiset::empty());
    out
}

/// A reordering keeps the elements and distinct paths.
proof fn lemma_churn_reordered(a: Seq<ChurnEntry>, b: Seq<ChurnEntry>)
    requires
        a.to_multiset() == b.to_multiset(),
        paths_distinct(a),
    ensures
        forall|x: ChurnEntry| a.contains(x) <==> b.contains(x),
        paths_distinct(b),
{
    broadcast use vstd::seq_lib::group_to_multiset_ensures;

    assert forall|x: ChurnEntry| a.contains(x) <==> b.contains(x) by {
        assert(a.contains(x) <==> a.to_multiset().count(x) > 0);
        assert(b.contains(x) <==> b.to_multiset().count(x) > 0);
    }
    assert(a.no_duplicates()) by {
        assert forall|i: int, j: int| 0 <= i < a.len() && 0 <= j < a.len() && i != j implies a[i]
            != a[j] by {
            if i < j {
                assert(a[i].path@ != a[j].path@);
            } else {
                assert(a[j].path@ != a[i].path@);
            }
        }
    }
    a.lemma_multiset_has_no_duplicates();
    b.lemma_multiset_has_no_duplicates_conv();
    assert forall|i: int, j: int| 0 <= i < j < b.len() implies #[trigger] b[i].path@
        != #[trigger] b[j].path@ by {
        assert(b.contains(b[i]) && b.contains(b[j]));
        let x = choose|x: int| 0 <= x < a.len() && a[x] == b[i];
        let y = choose|y: int| 0 <= y < a.len() && a[y] == b[j];
        assert(b[i] != b[j]);
        if x < y {
            assert(a[x].path@ != a[y].path@);
        } else {
            assert(a[y].path@ != a[x].path@);
        }
    }
}

/// The entries of a table, ranked, each holding its key's sums.
fn finish(t: Vec<ChurnEntry>, Ghost(scale): Ghost<nat>) -> (r: Vec<ChurnEntry>)
    requires
        table_wf(t@, scale),
    ensures
        forall|k: int|
            0 <= k < r@.len() ==> entry_ok(#[trigger] r@[k], scale) && forall|f: int|
                #[trigger] field_of(r@[k], f) == table_field(t@, r@[k].path@, f),
        forall|p: Seq<char>|
            #![trigger table_field(t@, p, 3)]
            table_field(t@, p, 3) >= 1 ==> exists|k: int| 0 <= k < r@.len()
                && #[trigger] r@[k].path@ == p,
        paths_distinct(r@),
        churn_ranked(r@),
{
    let ghost tv = t@;
    let r = sort_churn(t);
    proof {
        lemma_churn_reordered(tv, r@);
        assert forall|k: int|
            0 <= k < r@.len() implies entry_ok(#[trigger] r@[k], scale) && forall|f: int|
                #[trigger] field_of(r@[k], f) == table_field(tv, r@[k].path@, f) by {
            assert(r@.contains(r@[k]));
            let x = choose|x: int| 0 <= x < tv.len() && tv[x] == r@[k];
            assert(entry_ok(tv[x], scale));
            lemma_table_row(tv, tv[x].path@);
            assert forall|f: int| #[trigger] field_of(r@[k], f) == table_field(tv, r@[k].path@,
                f) by {
                assert(table_field(tv, tv[x].path@, f) == field_of(tv[x], f));
            }
        }
        assert forall|p: Seq<char>|
            #![trigger table_field(tv, p, 3)]
            table_field(tv, p, 3) >= 1 implies exists|k: int| 0 <= k < r@.len()
                && #[trigger] r@[k].path@ == p by {
            lemma_table_row(tv, p);
            let x = choose|x: int| 0 <= x < tv.len() && tv[x].path@ == p;
            assert(tv.contains(tv[x]));
            let k = choose|k: int| 0 <= k < r@.len() && r@[k] == tv[x];
            assert(r@[k].path@ == p);
        }
    }
    r
}

/// Per-file churn over the commits inside the trailing window of
/// `window_days` before `now` (seconds since the epoch), ranked by decayed
/// churn. `now` is the scan's wall-clock time, read by the caller.
pub fn compute_churn(commits: &Vec<CommitRecord>, now: i64, window_days: i64,
    opts: &ScanOpts) -> (r: Vec<
    ChurnEntry,
>)
    requires
        line_count(commits@) <= u64::MAX,
        change_count(commits@) <= u64::MAX,
    ensures
        churn_table(commits@, now as int, window_days as int, *opts, None, r@),
{
    let t = churn_rows(commits, now, window_days, opts, None);
    let r = finish(t, Ghost(decay_scale(window_days as int)));
    proof {
        assert forall|k: int|
            0 <= k < r@.len() implies churn_entry_of(#[trigger] r@[k], commits@, now as int,
                window_days as int, *opts, None) by {
            assert(entry_ok(r@[k], decay_scale(window_days as int)));
            assert forall|f: int| 0 <= f < 4 implies #[trigger] field_of(r@[k], f)
                == churn_sum(commits@, now as int, window_days as int, *opts, None, r@[k].path@,
                f) by {
                assert(table_field(t@, r@[k].path@, f) == churn_sum(commits@, now as int,
                    window_days as int, *opts, depth_of(None), r@[k].path@, f));
            }
        }
        assert forall|p: Seq<char>|
            #![trigger churn_sum(commits@, now as int, window_days as int, *opts, None, p, 3)]
            churn_sum(commits@, now as int, window_days as int, *opts, None, p, 3)
                >= 1 implies exists|k: int|
                0 <= k < r@.len() && #[trigger] r@[k].path@ == p by {
            assert(table_field(t@, p, 3) == churn_sum(commits@, now as int, window_days as int,
                *opts, depth_of(None), p, 3));
        }
    }
    r
}

/// Churn per directory key at `depth`: the sums of all files under each
/// key, ranked by decayed churn.
pub fn compute_churn_by_dir(
    commits: &Vec<CommitRecord>,
    now: i64,
    window_days: i64,
    opts: &ScanOpts,
    depth: usize,
) -> (r: Vec<ChurnEntry>)
    requires
        line_count(commits@) <= u64::MAX,
        change_count(commits@) <= u64::MAX,
    ensures
        churn_table(commits@, now as int, window_days as int, *opts, Some(depth as nat), r@),
{
    let t = churn_rows(commits, now, window_days, opts, Some(depth));
    let r = finish(t, Ghost(decay_scale(window_days as int)));
    proof {
        let bd = Some(depth as nat);
        assert(depth_of(Some(depth)) == bd);
        assert forall|k: int|
            0 <= k < r@.len() implies churn_entry_of(#[trigger] r@[k], commits@, now as int,
                window_days as int, *opts, bd) by {
            assert(entry_ok(r@[k], decay_scale(window_days as int)));
            assert forall|f: int| 0 <= f < 4 implies #[trigger] field_of(r@[k], f)
                == churn_sum(commits@, now as int, window_days as int, *opts, bd, r@[k].path@,
                f) by {
                assert(table_field(t@, r@[k].path@, f) == churn_sum(commits@, now as int,
                    window_days as int, *opts, bd, r@[k].path@, f));
            }
        }
        assert forall|p: Seq<char>|
            #![trigger churn_sum(commits@, now as int, window_days as int, *opts, bd, p, 3)]
            churn_sum(commits@, now as int, window_days as int, *opts, bd, p, 3)
                >= 1 implies exists|k: int|
                0 <= k < r@.len() && #[trigger] r@[k].path@ == p by {
            assert(table_field(t@, p, 3) == churn_sum(commits@, now as int, window_days as int,
                *opts, bd, p, 3));
        }
    }
    r
}

} // verus!
