//! Contribution maps for many keys at once (files or directories).

use vstd::prelude::*;

use crate::counts::{
    add_count, authors_distinct, count_of, count_total, lemma_top_dominates, top_index,
    AuthorCount,
};
use crate::rank::{keys_distinct, lemma_reordered, ranked, sort_ranked, totals_positive, Ranked};

verus! {

/// The contribution map of one key, with its total.
pub struct KeyCounts {
    pub key: String,
    pub counts: Vec<AuthorCount>,
    pub total: u64,
}

/// A row's authors are distinct and its total is the sum of their counts.
pub open spec fn row_ok(r: KeyCounts) -> bool {
    authors_distinct(r.counts@) && count_total(r.counts@) == r.total
}

/// Every row is consistent and each key has at most one row.
pub open spec fn tally_wf(t: Seq<KeyCounts>) -> bool {
    &&& forall|i: int| 0 <= i < t.len() ==> row_ok(#[trigger] t[i])
    &&& forall|i: int, j: int|
        0 <= i < j < t.len() ==> #[trigger] t[i].key@ != #[trigger] t[j].key@
}

/// What `a` contributed under key `k`.
pub open spec fn tally_count(t: Seq<KeyCounts>, k: Seq<char>, a: Seq<char>) -> nat
    decreases t.len(),
{
    if t.len() == 0 {
        0
    } else {
        tally_count(t.drop_last(), k, a) + if t.last().key@ == k {
            count_of(t.last().counts@, a)
        } else {
            0
        }
    }
}

/// All that was contributed under key `k`.
pub open spec fn tally_total(t: Seq<KeyCounts>, k: Seq<char>) -> nat
    decreases t.len(),
{
    if t.len() == 0 {
        0
    } else {
        tally_total(t.drop_last(), k) + if t.last().key@ == k {
            t.last().total as nat
        } else {
            0
        }
    }
}

/// All that was contributed under any key.
pub open spec fn tally_sum(t: Seq<KeyCounts>) -> nat
    decreases t.len(),
{
    if t.len() == 0 {
        0
    } else {
        tally_sum(t.drop_last()) + t.last().total as nat
    }
}

/// A row's total is part of the tally's sum.
pub proof fn lemma_row_le_sum(t: Seq<KeyCounts>, i: int)
    requires
        0 <= i < t.len(),
    ensures
        t[i].total <= tally_sum(t),
    decreases t.len(),
{
    if i < t.len() - 1 {
        lemma_row_le_sum(t.drop_last(), i);
    }
}

/// In a well-formed tally, a key's count and total are those of its row,
/// or 0 where it has none.
pub proof fn lemma_tally_row(t: Seq<KeyCounts>, k: Seq<char>)
    requires
        tally_wf(t),
    ensures
        forall|i: int, a: Seq<char>|
            0 <= i < t.len() && t[i].key@ == k ==> #[trigger] tally_count(t, k, a) == count_of(
                #[trigger] t[i].counts@,
                a,
            ),
        forall|i: int| 0 <= i < t.len() && t[i].key@ == k ==> tally_total(t, k)
            == #[trigger] t[i].total,
        (forall|i: int| 0 <= i < t.len() ==> t[i].key@ != k) ==> tally_total(t, k) == 0 && forall|
            a: Seq<char>,
        | #[trigger] tally_count(t, k, a) == 0,
    decreases t.len(),
{
    if t.len() > 0 {
        let d = t.drop_last();
        assert(tally_wf(d)) by {
            assert forall|i: int| 0 <= i < d.len() implies row_ok(#[trigger] d[i]) by {
                assert(d[i] == t[i]);
            }
            assert forall|i: int, j: int| 0 <= i < j < d.len() implies #[trigger] d[i].key@
                != #[trigger] d[j].key@ by {
                assert(d[i] == t[i] && d[j] == t[j]);
            }
        }
        lemma_tally_row(d, k);
        let last = t.len() - 1;
        if t.last().key@ == k {
            assert forall|i: int| 0 <= i < d.len() implies d[i].key@ != k by {
                assert(d[i] == t[i]);
                assert(t[i].key@ != t[last].key@);
            }
        }
        assert forall|i: int, a: Seq<char>|
            0 <= i < t.len() && t[i].key@ == k implies #[trigger] tally_count(t, k, a) == count_of(
            #[trigger] t[i].counts@,
            a,
        ) by {
            if i < last {
                assert(d[i] == t[i]);
                assert(t[i].key@ != t[last].key@);
                assert(tally_count(d, k, a) == count_of(d[i].counts@, a));
            } else {
                assert(tally_count(d, k, a) == 0);
            }
        }
        assert forall|i: int| 0 <= i < t.len() && t[i].key@ == k implies tally_total(t, k)
            == #[trigger] t[i].total by {
            if i < last {
                assert(d[i] == t[i]);
                assert(t[i].key@ != t[last].key@);
            }
        }
        if forall|i: int| 0 <= i < t.len() ==> t[i].key@ != k {
            assert forall|i: int| 0 <= i < d.len() implies d[i].key@ != k by {
                assert(d[i] == t[i]);
            }
            assert(t[last].key@ != k);
            assert forall|a: Seq<char>| #[trigger] tally_count(t, k, a) == 0 by {
                assert(tally_count(d, k, a) == 0);
            }
        }
    }
}

/// Replacing a row by one with the same key changes that key's figures by
/// the difference of the two rows, and nothing else.
pub proof fn lemma_tally_update(t: Seq<KeyCounts>, i: int, r: KeyCounts)
    requires
        0 <= i < t.len(),
        r.key@ == t[i].key@,
    ensures
        forall|k: Seq<char>, a: Seq<char>|
            #[trigger] tally_count(t.update(i, r), k, a) + (if k == r.key@ {
                count_of(t[i].counts@, a)
            } else {
                0
            }) == tally_count(t, k, a) + if k == r.key@ {
                count_of(r.counts@, a)
            } else {
                0
            },
        forall|k: Seq<char>|
            #[trigger] tally_total(t.update(i, r), k) + (if k == r.key@ {
                t[i].total as nat
            } else {
                0
            }) == tally_total(t, k) + if k == r.key@ {
                r.total as nat
            } else {
                0
            },
        tally_sum(t.update(i, r)) + t[i].total == tally_sum(t) + r.total,
    decreases t.len(),
{
    let u = t.update(i, r);
    if i < t.len() - 1 {
        lemma_tally_update(t.drop_last(), i, r);
        assert(u.drop_last() =~= t.drop_last().update(i, r));
        assert(u.last() == t.last());
    } else {
        assert(u.drop_last() =~= t.drop_last());
        assert(u.last() == r);
    }
    assert forall|k: Seq<char>, a: Seq<char>|
        #[trigger] tally_count(u, k, a) + (if k == r.key@ {
            count_of(t[i].counts@, a)
        } else {
            0
        }) == tally_count(t, k, a) + if k == r.key@ {
            count_of(r.counts@, a)
        } else {
            0
        } by {
        assert(tally_count(u, k, a) == tally_count(u.drop_last(), k, a) + if u.last().key@ == k {
            count_of(u.last().counts@, a)
        } else {
            0
        });
    }
    assert forall|k: Seq<char>|
        #[trigger] tally_total(u, k) + (if k == r.key@ {
            t[i].total as nat
        } else {
            0
        }) == tally_total(t, k) + if k == r.key@ {
            r.total as nat
        } else {
            0
        } by {
        assert(tally_total(u, k) == tally_total(u.drop_last(), k) + if u.last().key@ == k {
            u.last().total as nat
        } else {
            0
        });
    }
}

/// Adds `n` to what `author` contributed under `key`.
pub fn tally_add(t: &mut Vec<KeyCounts>, key: &String, author: &String, n: u64)
    requires
        tally_wf(old(t)@),
        tally_sum(old(t)@) + n <= u64::MAX,
    ensures
        tally_wf(final(t)@),
        forall|k: Seq<char>, a: Seq<char>|
            #[trigger] tally_count(final(t)@, k, a) == tally_count(old(t)@, k, a) + if k == key@
                && a == author@ {
                n as nat
            } else {
                0
            },
        forall|k: Seq<char>|
            #[trigger] tally_total(final(t)@, k) == tally_total(old(t)@, k) + if k == key@ {
                n as nat
            } else {
                0
            },
        tally_sum(final(t)@) == tally_sum(old(t)@) + n,
{
    let mut i: usize = 0;
    while i < t.len()
        invariant
            i <= t.len(),
            t@ == old(t)@,
            tally_wf(t@),
            tally_sum(t@) + n <= u64::MAX,
            forall|j: int| 0 <= j < i ==> t@[j].key@ != key@,
        decreases t.len() - i,
    {
        if t[i].key == *key {
            let ghost before = t@;
            proof {
                lemma_row_le_sum(before, i as int);
                assert(row_ok(before[i as int]));
            }
            let mut row = t.remove(i);
            add_count(&mut row.counts, author, n);
            row.total = row.total + n;
            t.insert(i, row);
            proof {
                assert(t@ =~= before.update(i as int, row));
                lemma_tally_update(before, i as int, row);
                assert forall|j: int| 0 <= j < t@.len() implies row_ok(#[trigger] t@[j]) by {
                    if j != i {
                        assert(t@[j] == before[j]);
                    }
                }
                assert forall|x: int, y: int| 0 <= x < y < t@.len() implies #[trigger] t@[x].key@
                    != #[trigger] t@[y].key@ by {
                    assert(t@[x].key@ == before[x].key@);
                    assert(t@[y].key@ == before[y].key@);
                }
            }
            return;
        }
        i += 1;
    }
    let ghost before = t@;
    let mut counts: Vec<AuthorCount> = Vec::new();
    add_count(&mut counts, author, n);
    let row = KeyCounts { key: key.clone(), counts, total: n };
    t.push(row);
    proof {
        assert(t@.drop_last() =~= before);
        assert(t@.last() == row);
        assert forall|j: int| 0 <= j < t@.len() implies row_ok(#[trigger] t@[j]) by {
            if j < before.len() {
                assert(t@[j] == before[j]);
            }
        }
        assert forall|x: int, y: int| 0 <= x < y < t@.len() implies #[trigger] t@[x].key@
            != #[trigger] t@[y].key@ by {
            assert(t@[x] == before[x]);
            if y < before.len() {
                assert(t@[y] == before[y]);
            }
        }
        assert forall|k: Seq<char>, a: Seq<char>|
            #[trigger] tally_count(t@, k, a) == tally_count(before, k, a) + if k == key@ && a
                == author@ {
                n as nat
            } else {
                0
            } by {
            assert(count_of(Seq::<AuthorCount>::empty(), a) == 0);
        }
    }
}

/// What was contributed under `key`.
pub fn tally_total_of(t: &Vec<KeyCounts>, key: &String) -> (r: u64)
    requires
        tally_wf(t@),
    ensures
        r == tally_total(t@, key@),
{
    proof {
        lemma_tally_row(t@, key@);
    }
    let mut i: usize = 0;
    while i < t.len()
        invariant
            i <= t.len(),
            tally_wf(t@),
            forall|j: int| 0 <= j < i ==> t@[j].key@ != key@,
        decreases t.len() - i,
    {
        if t[i].key == *key {
            proof {
                lemma_tally_row(t@, key@);
            }
            return t[i].total;
        }
        i += 1;
    }
    0
}

/// A share that is a ratio: a positive total, and a top no larger.
pub open spec fn share_wf(share: (nat, nat)) -> bool {
    1 <= share.1 && share.0 <= share.1
}

/// `s` scores its key as the tally has it: the total, and an author whose
/// count is the top and outweighs or equals every other.
pub open spec fn tally_score<T: Ranked>(s: T, t: Seq<KeyCounts>) -> bool {
    &&& share_wf(s.share())
    &&& s.share().1 == tally_total(t, s.key())
    &&& s.share().0 == tally_count(t, s.key(), s.owner())
    &&& forall|a: Seq<char>| #[trigger] tally_count(t, s.key(), a) <= s.share().0
}

/// Scores of a tally: one per key whose total reaches `min_total` (and 1),
/// ranked.
pub open spec fn tally_scores<T: Ranked>(t: Seq<KeyCounts>, min_total: nat, r: Seq<T>) -> bool {
    &&& forall|k: int|
        0 <= k < r.len() ==> tally_score(#[trigger] r[k], t) && r[k].share().1 >= min_total
    &&& forall|d: Seq<char>|
        #![trigger tally_total(t, d)]
        tally_total(t, d) >= min_total && tally_total(t, d) >= 1 ==> exists|k: int|
            0 <= k < r.len() && #[trigger] r[k].key() == d
    &&& keys_distinct(r)
    &&& ranked(r)
}

proof fn lemma_empty_total(c: Seq<AuthorCount>)
    requires
        c.len() == 0,
    ensures
        count_total(c) == 0,
{
}

/// Scores every key of the tally whose total reaches `min_total`.
pub fn scores_from_tally<T: Ranked>(t: &Vec<KeyCounts>, min_total: u64) -> (r: Vec<T>)
    requires
        tally_wf(t@),
    ensures
        tally_scores(t@, min_total as nat, r@),
{
    let mut pre: Vec<T> = Vec::new();
    let mut i: usize = 0;
    while i < t.len()
        invariant
            i <= t.len(),
            tally_wf(t@),
            forall|k: int|
                0 <= k < pre@.len() ==> tally_score(#[trigger] pre@[k], t@) && pre@[k].share().1
                    >= min_total,
            forall|k: int|
                0 <= k < pre@.len() ==> exists|j: int|
                    0 <= j < i && #[trigger] pre@[k].key() == t@[j].key@,
            forall|j: int|
                0 <= j < i && t@[j].total >= min_total && t@[j].total >= 1 ==> exists|k: int|
                    0 <= k < pre@.len() && #[trigger] pre@[k].key() == t@[j].key@,
            keys_distinct(pre@),
        decreases t.len() - i,
    {
        let row = &t[i];
        proof {
            assert(row_ok(t@[i as int]));
        }
        if row.total >= min_total && row.total >= 1 {
            if row.counts.len() == 0 {
                proof {
                    lemma_empty_total(row.counts@);
                }
            }
            let k = top_index(&row.counts);
            let s = T::make(
                row.key.clone(),
                row.counts[k].author.clone(),
                row.counts[k].count,
                row.total,
            );
            proof {
                let c = row.counts@;
                lemma_top_dominates(c, k as int);
                lemma_tally_row(t@, row.key@);
                crate::counts::lemma_count_le_total(c, c[k as int].author@);
                assert forall|a: Seq<char>| #[trigger] tally_count(t@, s.key(), a)
                    <= s.share().0 by {
                    assert(tally_count(t@, row.key@, a) == count_of(t@[i as int].counts@, a));
                }
                assert(tally_count(t@, row.key@, c[k as int].author@) == count_of(
                    t@[i as int].counts@,
                    c[k as int].author@,
                ));
            }
            let ghost before = pre@;
            pre.push(s);
            proof {
                assert forall|k2: int|
                    0 <= k2 < pre@.len() implies exists|j: int|
                    0 <= j < i + 1 && #[trigger] pre@[k2].key() == t@[j].key@ by {
                    if k2 < before.len() {
                        assert(pre@[k2] == before[k2]);
                        let j = choose|j: int| 0 <= j < i && before[k2].key() == t@[j].key@;
                        assert(pre@[k2].key() == t@[j].key@);
                    } else {
                        assert(pre@[k2].key() == t@[i as int].key@);
                    }
                }
                assert forall|a: int, b: int| 0
                    <= a < b < pre@.len() implies #[trigger] pre@[a].key()
                    != #[trigger] pre@[b].key() by {
                    assert(pre@[a] == before[a]);
                    if b < before.len() {
                        assert(pre@[b] == before[b]);
                    } else {
                        let j = choose|j: int| 0 <= j < i && before[a].key() == t@[j].key@;
                        assert(t@[j].key@ != t@[i as int].key@);
                    }
                }
                assert forall|j: int|
                    0 <= j < i + 1 && t@[j].total >= min_total && t@[j].total >= 1 implies exists|
                    k2: int,
                | 0 <= k2 < pre@.len() && #[trigger] pre@[k2].key() == t@[j].key@ by {
                    if j < i {
                        let k2 = choose|k2: int|
                            0 <= k2 < before.len() && #[trigger] before[k2].key() == t@[j].key@;
                        assert(pre@[k2] == before[k2]);
                    } else {
                        assert(pre@[before.len() as int].key() == t@[j].key@);
                    }
                }
                assert forall|k2: int|
                    0 <= k2 < pre@.len() implies tally_score(#[trigger] pre@[k2], t@)
                    && pre@[k2].share().1 >= min_total by {
                    if k2 < before.len() {
                        assert(pre@[k2] == before[k2]);
                    }
                }
            }
        }
        i += 1;
    }
    assert(totals_positive(pre@)) by {
        assert forall|k: int| 0 <= k < pre@.len() implies #[trigger] pre@[k].share().1 > 0 by {
            assert(tally_score(pre@[k], t@));
        }
    }
    let r = sort_ranked(pre);
    proof {
        lemma_reordered(pre@, r@);
        assert forall|k: int|
            0 <= k < r@.len() implies tally_score(#[trigger] r@[k], t@) && r@[k].share().1
            >= min_total by {
            assert(r@.contains(r@[k]));
            let x = choose|x: int| 0 <= x < pre@.len() && pre@[x] == r@[k];
            assert(tally_score(pre@[x], t@));
        }
        assert forall|d: Seq<char>|
            #![trigger tally_total(t@, d)]
            tally_total(t@, d) >= min_total && tally_total(t@, d) >= 1 implies exists|k: int|
                0 <= k < r@.len() && #[trigger] r@[k].key() == d by {
            lemma_tally_row(t@, d);
            let j = choose|j: int| 0 <= j < t@.len() && t@[j].key@ == d;
            assert(t@[j].total == tally_total(t@, d));
            let x = choose|x: int| 0 <= x < pre@.len() && #[trigger] pre@[x].key() == t@[j].key@;
            assert(pre@.contains(pre@[x]));
            let k = choose|k: int| 0 <= k < r@.len() && r@[k] == pre@[x];
            assert(r@[k].key() == d);
        }
    }
    r
}

} // verus!
