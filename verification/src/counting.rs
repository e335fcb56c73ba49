//! Counting arguments shared by the analyses: how many flags of a vector
//! are set, how long a list of distinct small numbers can be, and the
//! measures by which the searches are seen to end.

use vstd::prelude::*;

verus! {

/// The number of positions of `s` that hold `true`.
pub open spec fn count_true(s: Seq<bool>) -> nat
    decreases s.len(),
{
    if s.len() == 0 {
        0
    } else {
        count_true(s.drop_last()) + if s.last() {
            1nat
        } else {
            0nat
        }
    }
}

/// At most every position is set.
pub proof fn lemma_count_true_bound(s: Seq<bool>)
    ensures
        count_true(s) <= s.len(),
    decreases s.len(),
{
    if s.len() > 0 {
        lemma_count_true_bound(s.drop_last());
    }
}

/// Clearing flags never raises the count, and clearing the set flag at `k`
/// lowers it.
pub proof fn lemma_count_true_shrinks(a: Seq<bool>, b: Seq<bool>, k: int)
    requires
        a.len() == b.len(),
        forall|i: int| 0 <= i < a.len() ==> !#[trigger] b[i] || a[i],
    ensures
        count_true(b) <= count_true(a),
        0 <= k < a.len() && a[k] && !b[k] ==> count_true(b) < count_true(a),
    decreases a.len(),
{
    if a.len() > 0 {
        let a0 = a.drop_last();
        let b0 = b.drop_last();
        assert forall|i: int| 0 <= i < a0.len() implies !#[trigger] b0[i] || a0[i] by {
            assert(!b[i] || a[i]);
        }
        lemma_count_true_shrinks(a0, b0, k);
        assert(!b[a.len() - 1] || a[a.len() - 1]);
    }
}

/// Setting the clear flag at `k` raises the count by one.
pub proof fn lemma_count_true_set(a: Seq<bool>, k: int)
    requires
        0 <= k < a.len(),
        !a[k],
    ensures
        count_true(a.update(k, true)) == count_true(a) + 1,
    decreases a.len(),
{
    let b = a.update(k, true);
    if k == a.len() - 1 {
        assert(b.drop_last() =~= a.drop_last());
    } else {
        assert(b.drop_last() =~= a.drop_last().update(k, true));
        lemma_count_true_set(a.drop_last(), k);
    }
}

/// A vector of clear flags counts zero.
pub proof fn lemma_count_true_none(a: Seq<bool>)
    requires
        forall|i: int| 0 <= i < a.len() ==> !#[trigger] a[i],
    ensures
        count_true(a) == 0,
    decreases a.len(),
{
    if a.len() > 0 {
        assert forall|i: int| 0 <= i < a.drop_last().len() implies !#[trigger] a.drop_last()[i] by {
            assert(!a[i]);
        }
        lemma_count_true_none(a.drop_last());
    }
}

/// Distinct positions that are all set are at most as many as the set flags.
pub proof fn lemma_distinct_set_positions(flags: Seq<bool>, s: Seq<usize>)
    requires
        s.no_duplicates(),
        forall|i: int| 0 <= i < s.len() ==> (#[trigger] s[i]) < flags.len() && flags[s[i] as int],
    ensures
        s.len() <= count_true(flags),
    decreases flags.len(),
{
    if flags.len() == 0 {
        if s.len() > 0 {
            assert(s[0] < flags.len());
        }
    } else {
        let top: int = flags.len() - 1;
        let f0 = flags.drop_last();
        if exists|k: int| 0 <= k < s.len() && s[k] == top {
            let k = choose|k: int| 0 <= k < s.len() && s[k] == top;
            let t = s.remove(k);
            assert forall|i: int| 0 <= i < t.len() implies (#[trigger] t[i]) < f0.len()
                && f0[t[i] as int] by {
                let j = if i < k {
                    i
                } else {
                    i + 1
                };
                assert(t[i] == s[j]);
                assert(s[j] < flags.len() && flags[s[j] as int]);
                assert(s[j] != s[k]);
            }
            assert(t.no_duplicates()) by {
                assert forall|i: int, j: int|
                    0 <= i < t.len() && 0 <= j < t.len() && i != j implies t[i] != t[j] by {
                    let i2 = if i < k {
                        i
                    } else {
                        i + 1
                    };
                    let j2 = if j < k {
                        j
                    } else {
                        j + 1
                    };
                    assert(t[i] == s[i2] && t[j] == s[j2]);
                }
            }
            lemma_distinct_set_positions(f0, t);
            assert(flags[s[k] as int]);
        } else {
            assert forall|i: int| 0 <= i < s.len() implies (#[trigger] s[i]) < f0.len()
                && f0[s[i] as int] by {
                assert(s[i] < flags.len() && flags[s[i] as int]);
                assert(s[i] != top);
            }
            lemma_distinct_set_positions(f0, s);
        }
    }
}

/// The work that a stack of frames stands for, where the frame at position
/// `k` has come to item `nexts[k]` of `totals[k]`: the items not yet looked
/// at, and one for each frame.
pub open spec fn work_left(totals: Seq<int>, nexts: Seq<int>) -> int
    decreases totals.len(),
{
    if totals.len() == 0 {
        0
    } else {
        work_left(totals.drop_last(), nexts.drop_last()) + (totals.last() - nexts.last()) + 1
    }
}

/// Frames that have not gone past their last item stand for work: each at
/// least for itself.
pub proof fn lemma_work_bounded(totals: Seq<int>, nexts: Seq<int>)
    requires
        totals.len() == nexts.len(),
        forall|k: int| 0 <= k < totals.len() ==> 0 <= #[trigger] nexts[k] <= totals[k],
    ensures
        work_left(totals, nexts) >= totals.len(),
    decreases totals.len(),
{
    if totals.len() > 0 {
        let totals1 = totals.drop_last();
        let nexts1 = nexts.drop_last();
        assert forall|k: int| 0 <= k < totals1.len() implies 0 <= #[trigger] nexts1[k] <= totals1[k] by {
            assert(nexts1[k] == nexts[k]);
        }
        lemma_work_bounded(totals1, nexts1);
        assert(0 <= nexts[nexts.len() - 1] <= totals[totals.len() - 1]);
    }
}

/// The last frame going on to its next item takes one from the work.
pub proof fn lemma_work_step(totals: Seq<int>, nexts: Seq<int>)
    requires
        totals.len() == nexts.len(),
        totals.len() > 0,
    ensures
        work_left(totals, nexts.update(nexts.len() - 1, nexts.last() + 1)) == work_left(
            totals,
            nexts,
        ) - 1,
{
    let nexts2 = nexts.update(nexts.len() - 1, nexts.last() + 1);
    assert(nexts2.drop_last() =~= nexts.drop_last());
}

/// The last frame leaving, and the frame below it going on to its next
/// item, takes from the work.
pub proof fn lemma_work_pop(totals: Seq<int>, nexts: Seq<int>)
    requires
        totals.len() == nexts.len(),
        totals.len() > 1,
        nexts.last() <= totals.last(),
    ensures
        work_left(
            totals.drop_last(),
            nexts.drop_last().update(nexts.len() - 2, nexts[nexts.len() - 2] + 1),
        ) < work_left(totals, nexts),
{
    let totals1 = totals.drop_last();
    let nexts1 = nexts.drop_last();
    lemma_work_step(totals1, nexts1);
}

/// The number that the digits `m` write in base `b`, the first digit
/// weighing most.
pub open spec fn written(m: Seq<int>, b: int) -> int
    decreases m.len(),
{
    if m.len() == 0 {
        0
    } else {
        written(m.drop_last(), b) * b + m.last()
    }
}

/// Digits write a number that is not negative.
pub proof fn lemma_written_bound(m: Seq<int>, b: int)
    requires
        b > 0,
        forall|k: int| 0 <= k < m.len() ==> 0 <= #[trigger] m[k] < b,
    ensures
        0 <= written(m, b),
    decreases m.len(),
{
    if m.len() > 0 {
        let front = m.drop_last();
        assert forall|k: int| 0 <= k < front.len() implies 0 <= #[trigger] front[k] < b by {
            assert(front[k] == m[k]);
        }
        lemma_written_bound(front, b);
        assert(0 <= m[m.len() - 1]);
        assert(0 <= written(front, b) * b) by (nonlinear_arith)
            requires
                0 <= written(front, b),
                b > 0,
        ;
    }
}

/// Of two rows of digits of one length, the one with the smaller digit at
/// the first place where they differ writes the smaller number.
pub proof fn lemma_written_less(a: Seq<int>, c: Seq<int>, b: int, d: int)
    requires
        a.len() == c.len(),
        0 <= d < a.len(),
        b > 0,
        forall|k: int| 0 <= k < a.len() ==> 0 <= #[trigger] a[k] < b,
        forall|k: int| 0 <= k < c.len() ==> 0 <= #[trigger] c[k] < b,
        forall|k: int| 0 <= k < d ==> a[k] == c[k],
        a[d] < c[d],
    ensures
        written(a, b) < written(c, b),
    decreases a.len(),
{
    let a0 = a.drop_last();
    let c0 = c.drop_last();
    let last = a.len() - 1;
    assert(0 <= a[last] < b);
    assert(0 <= c[last] < b);
    if d == last {
        assert(a0 =~= c0);
    } else {
        assert forall|k: int| 0 <= k < a0.len() implies 0 <= #[trigger] a0[k] < b by {
            assert(a0[k] == a[k]);
        }
        assert forall|k: int| 0 <= k < c0.len() implies 0 <= #[trigger] c0[k] < b by {
            assert(c0[k] == c[k]);
        }
        assert forall|k: int| 0 <= k < d implies a0[k] == c0[k] by {
            assert(a[k] == c[k]);
        }
        lemma_written_less(a0, c0, b, d);
        let wa = written(a0, b);
        let wc = written(c0, b);
        assert(wa * b + b <= wc * b) by (nonlinear_arith)
            requires
                wa + 1 <= wc,
                b > 0,
        ;
    }
}

} // verus!
