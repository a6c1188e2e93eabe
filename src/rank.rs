//! Ordering of ownership scores and their split at a risk threshold.

use vstd::multiset::Multiset;
use vstd::prelude::*;

verus! {

/// A score with a dominant share: `top` out of `total`.
pub trait Ranked: Sized {
    /// The pair (top, total); the ratio is top / total.
    spec fn share(&self) -> (nat, nat);

    /// The path or directory scored.
    spec fn key(&self) -> Seq<char>;

    /// The dominant author.
    spec fn owner(&self) -> Seq<char>;

    fn make(key: String, owner: String, top: u64, total: u64) -> (r: Self)
        ensures
            r.key() == key@,
            r.owner() == owner@,
            r.share() == (top as nat, total as nat),
    ;

    fn top_total(&self) -> (r: (u64, u64))
        ensures
            r.0 as nat == self.share().0,
            r.1 as nat == self.share().1,
    ;

    fn duplicate(&self) -> (r: Self)
        ensures
            r == *self,
    ;
}

/// `a` ranks before `b`: a larger ratio, or an equal ratio over a larger total.
pub open spec fn share_before(a: (nat, nat), b: (nat, nat)) -> bool {
    a.0 * b.1 > b.0 * a.1 || (a.0 * b.1 == b.0 * a.1 && a.1 > b.1)
}

/// Ordered by ratio, larger first, then by total, larger first.
pub open spec fn ranked<T: Ranked>(s: Seq<T>) -> bool {
    forall|i: int, j: int|
        0 <= i < j < s.len() ==> !share_before(#[trigger] s[j].share(), #[trigger] s[i].share())
}

/// Every score has a positive total.
pub open spec fn totals_positive<T: Ranked>(s: Seq<T>) -> bool {
    forall|i: int| 0 <= i < s.len() ==> #[trigger] s[i].share().1 > 0
}

proof fn lemma_cross_trans(a0: int, a1: int, b0: int, b1: int, c0: int, c1: int)
    requires
        a0 >= 0,
        b0 >= 0,
        c0 >= 0,
        a1 > 0,
        b1 > 0,
        c1 > 0,
        a0 * b1 >= b0 * a1,
        b0 * c1 >= c0 * b1,
    ensures
        a0 * c1 >= c0 * a1,
        (a0 * b1 > b0 * a1 || b0 * c1 > c0 * b1) ==> a0 * c1 > c0 * a1,
{
    assert(a0 * b1 * c1 >= b0 * a1 * c1) by (nonlinear_arith)
        requires
            a0 * b1 >= b0 * a1,
            c1 > 0,
    ;
    assert(b0 * c1 * a1 >= c0 * b1 * a1) by (nonlinear_arith)
        requires
            b0 * c1 >= c0 * b1,
            a1 > 0,
    ;
    assert(a0 * c1 >= c0 * a1) by (nonlinear_arith)
        requires
            a0 * b1 * c1 >= b0 * a1 * c1,
            b0 * c1 * a1 >= c0 * b1 * a1,
            b1 > 0,
    ;
    if a0 * b1 > b0 * a1 {
        assert(a0 * b1 * c1 > b0 * a1 * c1) by (nonlinear_arith)
            requires
                a0 * b1 > b0 * a1,
                c1 > 0,
        ;
        assert(a0 * c1 > c0 * a1) by (nonlinear_arith)
            requires
                a0 * b1 * c1 > b0 * a1 * c1,
                b0 * c1 * a1 >= c0 * b1 * a1,
                b1 > 0,
        ;
    }
    if b0 * c1 > c0 * b1 {
        assert(b0 * c1 * a1 > c0 * b1 * a1) by (nonlinear_arith)
            requires
                b0 * c1 > c0 * b1,
                a1 > 0,
        ;
        assert(a0 * c1 > c0 * a1) by (nonlinear_arith)
            requires
                a0 * b1 * c1 >= b0 * a1 * c1,
                b0 * c1 * a1 > c0 * b1 * a1,
                b1 > 0,
        ;
    }
}

/// Ranking before is transitive over positive totals.
pub proof fn lemma_share_before_trans(a: (nat, nat), b: (nat, nat), c: (nat, nat))
    requires
        a.1 > 0,
        b.1 > 0,
        c.1 > 0,
        share_before(a, b),
        share_before(b, c),
    ensures
        share_before(a, c),
{
    lemma_cross_trans(a.0 as int, a.1 as int, b.0 as int, b.1 as int, c.0 as int, c.1 as int);
}

/// The product of two 64-bit counts, which always fits in 128 bits.
pub fn mul_wide(a: u64, b: u64) -> (r: u128)
    ensures
        r == a as int * b as int,
{
    assert((a as int) * (b as int) <= (u64::MAX as int) * (u64::MAX as int)) by (nonlinear_arith)
        requires
            a <= u64::MAX,
            b <= u64::MAX,
    ;
    (a as u128) * (b as u128)
}

/// Whether the share (top, total) ranks before (top2, total2).
pub fn ranks_before(a: (u64, u64), b: (u64, u64)) -> (r: bool)
    ensures
        r == share_before((a.0 as nat, a.1 as nat), (b.0 as nat, b.1 as nat)),
{
    let l = mul_wide(a.0, b.1);
    let rr = mul_wide(b.0, a.1);
    l > rr || (l == rr && a.1 > b.1)
}

/// Sorts scores by ratio, larger first, then by total, larger first.
pub fn sort_ranked<T: Ranked>(v: Vec<T>) -> (r: Vec<T>)
    requires
        totals_positive(v@),
    ensures
        r@.to_multiset() == v@.to_multiset(),
        ranked(r@),
        totals_positive(r@),
{
    broadcast use vstd::seq_lib::group_to_multiset_ensures;

    let ghost orig = v@;
    let mut rest = v;
    let mut out: Vec<T> = Vec::new();
    assert(out@ =~= Seq::<T>::empty());
    assert(out@.to_multiset() =~= Multiset::empty());
    while rest.len() > 0
        invariant
            out@.to_multiset().add(rest@.to_multiset()) == orig.to_multiset(),
            ranked(out@),
            totals_positive(out@),
            totals_positive(rest@),
        decreases rest.len(),
    {
        let ghost before_rest = rest@;
        let x = rest.pop().unwrap();
        proof {
            assert(before_rest =~= rest@.push(x));
            vstd::seq_lib::to_multiset_build(rest@, x);
            assert(x.share().1 > 0) by {
                assert(before_rest[before_rest.len() - 1] == x);
            }
        }
        let kx = x.top_total();
        let mut k: usize = 0;
        while k < out.len() && !ranks_before(kx, out[k].top_total())
            invariant
                k <= out.len(),
                kx.0 as nat == x.share().0 && kx.1 as nat == x.share().1,
                forall|m: int| 0 <= m < k ==> !share_before(x.share(), #[trigger] out@[m].share()),
            decreases out.len() - k,
        {
            k += 1;
        }
        let ghost before_out = out@;
        out.insert(k, x);
        proof {
            vstd::seq_lib::to_multiset_insert(before_out, k as int, x);
            assert(out@ =~= before_out.insert(k as int, x));
            assert forall|i: int, j: int| 0 <= i < j < out@.len() implies !share_before(
                #[trigger] out@[j].share(),
                #[trigger] out@[i].share(),
            ) by {
                if j < k {
                    assert(out@[i] == before_out[i] && out@[j] == before_out[j]);
                } else if j == k {
                    assert(out@[i] == before_out[i]);
                } else if i == k {
                    assert(out@[j] == before_out[j - 1]);
                    assert(share_before(x.share(), before_out[k as int].share()));
                    if share_before(before_out[j - 1].share(), x.share()) {
                        lemma_share_before_trans(
                            before_out[j - 1].share(),
                            x.share(),
                            before_out[k as int].share(),
                        );
                    }
                } else if i < k {
                    assert(out@[i] == before_out[i] && out@[j] == before_out[j - 1]);
                } else {
                    assert(out@[i] == before_out[i - 1] && out@[j] == before_out[j - 1]);
                }
            }
            assert forall|i: int| 0 <= i < out@.len() implies #[trigger] out@[i].share().1 > 0 by {
                if i < k {
                    assert(out@[i] == before_out[i]);
                } else if i > k {
                    assert(out@[i] == before_out[i - 1]);
                }
            }
        }
    }
    assert(rest@ =~= Seq::<T>::empty());
    assert(rest@.to_multiset() =~= Multiset::empty());
    out
}

/// Some score of `r` has the key of `s`, with the same total and top.
pub open spec fn same_share_in<T: Ranked>(r: Seq<T>, s: T) -> bool {
    exists|m: int| 0 <= m < r.len() && r[m].key() == s.key() && #[trigger] r[m].share() == s.share()
}

/// Each key stands at most once.
pub open spec fn keys_distinct<T: Ranked>(s: Seq<T>) -> bool {
    forall|i: int, j: int| 0 <= i < j < s.len() ==> #[trigger] s[i].key() != #[trigger] s[j].key()
}

/// A reordering keeps the elements, their number, and distinct keys.
pub proof fn lemma_reordered<T: Ranked>(a: Seq<T>, b: Seq<T>)
    requires
        a.to_multiset() == b.to_multiset(),
    ensures
        a.len() == b.len(),
        forall|x: T| a.contains(x) <==> b.contains(x),
        keys_distinct(a) ==> keys_distinct(b),
{
    broadcast use vstd::seq_lib::group_to_multiset_ensures;

    assert(a.len() == a.to_multiset().len());
    assert(b.len() == b.to_multiset().len());
    assert forall|x: T| a.contains(x) <==> b.contains(x) by {
        assert(a.contains(x) <==> a.to_multiset().count(x) > 0);
        assert(b.contains(x) <==> b.to_multiset().count(x) > 0);
    }
    if keys_distinct(a) {
        assert(a.no_duplicates()) by {
            assert forall|i: int, j: int| 0 <= i < a.len() && 0 <= j < a.len()
                && i != j implies a[i]
                != a[j] by {
                if i < j {
                    assert(a[i].key() != a[j].key());
                } else {
                    assert(a[j].key() != a[i].key());
                }
            }
        }
        a.lemma_multiset_has_no_duplicates();
        b.lemma_multiset_has_no_duplicates_conv();
        assert forall|i: int, j: int| 0 <= i < j < b.len() implies #[trigger] b[i].key()
            != #[trigger] b[j].key() by {
            assert(b.contains(b[i]) && b.contains(b[j]));
            let x = choose|x: int| 0 <= x < a.len() && a[x] == b[i];
            let y = choose|y: int| 0 <= y < a.len() && a[y] == b[j];
            assert(b[i] != b[j]);
            assert(x != y);
            if x < y {
                assert(a[x].key() != a[y].key());
            } else {
                assert(a[y].key() != a[x].key());
            }
        }
    }
}

/// Why a ranking was refused.
#[derive(Debug, Clone, Copy, PartialEq, Eq, Structural)]
pub enum ScanError {
    /// The risk threshold lies outside [0, 1].
    ThresholdOutOfRange,
}

/// The threshold num / den lies in [0, 1].
pub open spec fn threshold_valid(num: i64, den: u64) -> bool {
    den > 0 && 0 <= num && num <= den
}

/// Refuses a threshold outside [0, 1]; a scan checks it before any work.
pub fn check_threshold(num: i64, den: u64) -> (r: Result<(), ScanError>)
    ensures
        r is Ok <==> threshold_valid(num, den),
        r is Err ==> r == Err::<(), ScanError>(ScanError::ThresholdOutOfRange),
{
    if den == 0 || num < 0 || num as u64 > den {
        Err(ScanError::ThresholdOutOfRange)
    } else {
        Ok(())
    }
}

/// The ratio top / total lies strictly above num / den.
pub open spec fn above(share: (nat, nat), num: int, den: int) -> bool {
    share.0 * den > num * share.1
}

/// Scores in rank order, and those among them whose ratio is above the
/// threshold, in the same order.
pub struct Ranking<T> {
    pub matches: Vec<T>,
    pub candidates: Vec<T>,
}

/// Ranks `scores` and picks out those above the threshold `num / den`;
/// refuses a threshold outside [0, 1].
pub fn rank_scores<T: Ranked>(scores: Vec<T>, num: i64, den: u64) -> (r: Result<
    Ranking<T>,
    ScanError,
>)
    requires
        totals_positive(scores@),
    ensures
        r is Err <==> !threshold_valid(num, den),
        r is Err ==> r == Err::<Ranking<T>, ScanError>(ScanError::ThresholdOutOfRange),
        r matches Ok(k) ==> {
            &&& k.candidates@.to_multiset() == scores@.to_multiset()
            &&& ranked(k.candidates@)
            &&& k.matches@ == k.candidates@.filter(|s: T| above(s.share(), num as int, den as int))
        },
{
    if check_threshold(num, den).is_err() {
        return Err(ScanError::ThresholdOutOfRange);
    }
    let candidates = sort_ranked(scores);
    let mut matches: Vec<T> = Vec::new();
    let ghost pred = |s: T| above(s.share(), num as int, den as int);
    let mut i: usize = 0;
    proof {
        reveal(Seq::filter);
    }
    assert(candidates@.take(0).filter(pred) =~= Seq::<T>::empty());
    while i < candidates.len()
        invariant
            i <= candidates.len(),
            0 <= num,
            pred == (|s: T| above(s.share(), num as int, den as int)),
            matches@ == candidates@.take(i as int).filter(pred),
        decreases candidates.len() - i,
    {
        assert(candidates@.take(i + 1).drop_last() =~= candidates@.take(i as int));
        let ghost t1 = candidates@.take(i + 1);
        assert(t1.last() == candidates@[i as int]);
        let (top, total) = candidates[i].top_total();
        let hit = mul_wide(top, den) > mul_wide(num as u64, total);
        assert(hit == pred(candidates@[i as int]));
        if hit {
            let c = candidates[i].duplicate();
            matches.push(c);
        }
        proof {
            reveal(Seq::filter);
        }
        assert(t1.filter(pred) == if pred(t1.last()) {
            t1.drop_last().filter(pred).push(t1.last())
        } else {
            t1.drop_last().filter(pred)
        });
        i += 1;
    }
    assert(candidates@.take(candidates.len() as int) =~= candidates@);
    Ok(Ranking { matches, candidates })
}

} // verus!
