//! Per-author contribution maps: who contributed how much to one path.

use vstd::prelude::*;

verus! {

/// One author's share of a path (lines in blame mode, touches in history mode).
pub struct AuthorCount {
    pub author: String,
    pub count: u64,
}

/// A run of consecutive lines that blame gives to one author.
pub struct BlameHunk {
    pub author: String,
    pub lines: u64,
}

/// What blame gave for one tracked file.
pub struct FileBlame {
    pub path: String,
    pub hunks: Vec<BlameHunk>,
}

/// What `a` contributed in the map `c`.
pub open spec fn count_of(c: Seq<AuthorCount>, a: Seq<char>) -> nat
    decreases c.len(),
{
    if c.len() == 0 {
        0
    } else {
        count_of(c.drop_last(), a) + if c.last().author@ == a {
            c.last().count as nat
        } else {
            0
        }
    }
}

/// The sum of a map's counts.
pub open spec fn count_total(c: Seq<AuthorCount>) -> nat
    decreases c.len(),
{
    if c.len() == 0 {
        0
    } else {
        count_total(c.drop_last()) + c.last().count as nat
    }
}

/// Each author stands at most once in the map.
pub open spec fn authors_distinct(c: Seq<AuthorCount>) -> bool {
    forall|i: int, j: int|
        0 <= i < j < c.len() ==> #[trigger] c[i].author@ != #[trigger] c[j].author@
}

/// The lines that blame gives to `a` in `h`.
pub open spec fn hunk_lines(h: Seq<BlameHunk>, a: Seq<char>) -> nat
    decreases h.len(),
{
    if h.len() == 0 {
        0
    } else {
        hunk_lines(h.drop_last(), a) + if h.last().author@ == a {
            h.last().lines as nat
        } else {
            0
        }
    }
}

/// All lines of `h`.
pub open spec fn hunk_total(h: Seq<BlameHunk>) -> nat
    decreases h.len(),
{
    if h.len() == 0 {
        0
    } else {
        hunk_total(h.drop_last()) + h.last().lines as nat
    }
}

/// An author's count is part of the map's total.
pub proof fn lemma_count_le_total(c: Seq<AuthorCount>, a: Seq<char>)
    ensures
        count_of(c, a) <= count_total(c),
    decreases c.len(),
{
    if c.len() > 0 {
        lemma_count_le_total(c.drop_last(), a);
    }
}

/// With distinct authors, an author's count is its entry's count, or 0
/// where it has none.
pub proof fn lemma_count_of_entry(c: Seq<AuthorCount>, a: Seq<char>)
    requires
        authors_distinct(c),
    ensures
        forall|i: int| 0 <= i < c.len() && c[i].author@ == a ==> count_of(c, a) == c[i].count,
        (forall|i: int| 0 <= i < c.len() ==> c[i].author@ != a) ==> count_of(c, a) == 0,
    decreases c.len(),
{
    if c.len() > 0 {
        let d = c.drop_last();
        assert(authors_distinct(d)) by {
            assert forall|i: int, j: int| 0 <= i < j < d.len() implies d[i].author@
                != d[j].author@ by {
                assert(d[i] == c[i] && d[j] == c[j]);
            }
        }
        lemma_count_of_entry(d, a);
        if c.last().author@ == a {
            assert forall|i: int| 0 <= i < d.len() implies d[i].author@ != a by {
                assert(d[i] == c[i]);
                assert(c[i].author@ != c[c.len() - 1].author@);
            }
        }
        assert forall|i: int| 0 <= i < c.len() && c[i].author@ == a implies count_of(c, a)
            == c[i].count by {
            if i < c.len() - 1 {
                assert(d[i] == c[i]);
            }
        }
        assert((forall|i: int| 0 <= i < c.len() ==> c[i].author@ != a) ==> count_of(c, a) == 0)
            by {
            if forall|i: int| 0 <= i < c.len() ==> c[i].author@ != a {
                assert forall|i: int| 0 <= i < d.len() implies d[i].author@ != a by {
                    assert(d[i] == c[i]);
                }
            }
        }
    }
}

/// Adding `n` to entry `k` adds `n` to its author's count and to the total.
pub proof fn lemma_count_bump(c: Seq<AuthorCount>, k: int, e: AuthorCount)
    requires
        0 <= k < c.len(),
        e.author@ == c[k].author@,
        e.count >= c[k].count,
    ensures
        forall|a: Seq<char>|
            #[trigger] count_of(c.update(k, e), a) == count_of(c, a) + if a == e.author@ {
                (e.count - c[k].count) as nat
            } else {
                0
            },
        count_total(c.update(k, e)) == count_total(c) + (e.count - c[k].count) as nat,
    decreases c.len(),
{
    let u = c.update(k, e);
    if k < c.len() - 1 {
        lemma_count_bump(c.drop_last(), k, e);
        assert(u.drop_last() =~= c.drop_last().update(k, e));
        assert(u.last() == c.last());
    } else {
        assert(u.drop_last() =~= c.drop_last());
        assert(u.last() == e);
    }
    assert forall|a: Seq<char>|
        #[trigger] count_of(u, a) == count_of(c, a) + if a == e.author@ {
            (e.count - c[k].count) as nat
        } else {
            0
        } by {
        assert(count_of(u, a) == count_of(u.drop_last(), a) + if u.last().author@ == a {
            u.last().count as nat
        } else {
            0
        });
    }
}

/// Adds `n` to `a`'s entry, making one where `a` has none.
pub fn add_count(c: &mut Vec<AuthorCount>, a: &String, n: u64)
    requires
        authors_distinct(old(c)@),
        count_total(old(c)@) + n <= u64::MAX,
    ensures
        authors_distinct(final(c)@),
        forall|b: Seq<char>|
            #[trigger] count_of(final(c)@, b) == count_of(old(c)@, b) + if b == a@ {
                n as nat
            } else {
                0
            },
        count_total(final(c)@) == count_total(old(c)@) + n,
{
    let mut i: usize = 0;
    while i < c.len()
        invariant
            i <= c.len(),
            c@ == old(c)@,
            authors_distinct(c@),
            count_total(c@) + n <= u64::MAX,
            forall|j: int| 0 <= j < i ==> c@[j].author@ != a@,
        decreases c.len() - i,
    {
        if c[i].author == *a {
            let ghost before = c@;
            proof {
                lemma_count_of_entry(before, a@);
                lemma_count_le_total(before, a@);
            }
            let cur = c[i].count;
            let e = AuthorCount { author: a.clone(), count: cur + n };
            c.set(i, e);
            proof {
                lemma_count_bump(before, i as int, e);
                assert forall|x: int, y: int| 0 <= x < y < c@.len() implies #[trigger] c@[x].author@
                    != #[trigger] c@[y].author@ by {
                    assert(c@[x].author@ == before[x].author@);
                    assert(c@[y].author@ == before[y].author@);
                }
            }
            return;
        }
        i += 1;
    }
    let ghost before = c@;
    c.push(AuthorCount { author: a.clone(), count: n });
    assert(c@.drop_last() =~= before);
}

/// The contribution map of one file's blame: lines per author.
pub fn blame_counts(hunks: &Vec<BlameHunk>) -> (r: Vec<AuthorCount>)
    requires
        hunk_total(hunks@) <= u64::MAX,
    ensures
        authors_distinct(r@),
        forall|a: Seq<char>| #[trigger] count_of(r@, a) == hunk_lines(hunks@, a),
        count_total(r@) == hunk_total(hunks@),
{
    let mut r: Vec<AuthorCount> = Vec::new();
    let mut i: usize = 0;
    while i < hunks.len()
        invariant
            i <= hunks.len(),
            hunk_total(hunks@) <= u64::MAX,
            authors_distinct(r@),
            forall|a: Seq<char>| #[trigger] count_of(r@, a) == hunk_lines(hunks@.take(i as int), a),
            count_total(r@) == hunk_total(hunks@.take(i as int)),
        decreases hunks.len() - i,
    {
        assert(hunks@.take(i + 1).drop_last() =~= hunks@.take(i as int));
        proof {
            lemma_hunk_total_prefix(hunks@, i + 1);
        }
        add_count(&mut r, &hunks[i].author, hunks[i].lines);
        i += 1;
    }
    assert(hunks@.take(hunks.len() as int) =~= hunks@);
    r
}

/// A prefix of the hunks holds no more lines than all of them.
pub proof fn lemma_hunk_total_prefix(h: Seq<BlameHunk>, n: int)
    requires
        0 <= n <= h.len(),
    ensures
        hunk_total(h.take(n)) <= hunk_total(h),
    decreases h.len(),
{
    if n < h.len() {
        assert(h.drop_last().take(n) =~= h.take(n));
        lemma_hunk_total_prefix(h.drop_last(), n);
    } else {
        assert(h.take(n) =~= h);
    }
}

/// The entry with the largest count; among equal ones, the first.
pub fn top_index(c: &Vec<AuthorCount>) -> (k: usize)
    requires
        c.len() > 0,
    ensures
        k < c.len(),
        forall|j: int| 0 <= j < c.len() ==> c@[j].count <= c@[k as int].count,
        forall|j: int| 0 <= j < k ==> c@[j].count < c@[k as int].count,
{
    let mut k: usize = 0;
    let mut i: usize = 1;
    while i < c.len()
        invariant
            1 <= i <= c.len(),
            k < i,
            forall|j: int| 0 <= j < i ==> c@[j].count <= c@[k as int].count,
            forall|j: int| 0 <= j < k ==> c@[j].count < c@[k as int].count,
        decreases c.len() - i,
    {
        if c[i].count > c[k].count {
            k = i;
        }
        i += 1;
    }
    k
}

/// The top of a map with distinct authors outweighs or equals every author.
pub proof fn lemma_top_dominates(c: Seq<AuthorCount>, k: int)
    requires
        authors_distinct(c),
        0 <= k < c.len(),
        forall|j: int| 0 <= j < c.len() ==> c[j].count <= c[k].count,
    ensures
        count_of(c, c[k].author@) == c[k].count,
        forall|a: Seq<char>| #[trigger] count_of(c, a) <= c[k].count,
{
    lemma_count_of_entry(c, c[k].author@);
    assert forall|a: Seq<char>| #[trigger] count_of(c, a) <= c[k].count by {
        lemma_count_of_entry(c, a);
        if exists|i: int| 0 <= i < c.len() && c[i].author@ == a {
            let i = choose|i: int| 0 <= i < c.len() && c[i].author@ == a;
            assert(count_of(c, a) == c[i].count);
        }
    }
}

} // verus!
