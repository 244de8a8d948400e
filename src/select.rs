use vstd::prelude::*;

verus! {

/// How many elements of `s` are below `x`.
pub open spec fn count_lt(s: Seq<i64>, x: int) -> nat
    decreases s.len(),
{
    if s.len() == 0 {
        0
    } else {
        count_lt(s.drop_last(), x) + if (s.last() as int) < x { 1nat } else { 0nat }
    }
}

/// How many elements of `s` are at most `x`.
pub open spec fn count_le(s: Seq<i64>, x: int) -> nat
    decreases s.len(),
{
    if s.len() == 0 {
        0
    } else {
        count_le(s.drop_last(), x) + if (s.last() as int) <= x { 1nat } else { 0nat }
    }
}

/// `v` is the `k`-th smallest element of `s`, counting from zero: at most `k`
/// elements lie below it and more than `k` at or below it.
pub open spec fn is_kth(s: Seq<i64>, k: int, v: int) -> bool {
    count_lt(s, v) <= k < count_le(s, v)
}

proof fn lemma_count_le_lt(s: Seq<i64>, x: int, y: int)
    requires
        x < y,
    ensures
        count_le(s, x) <= count_lt(s, y),
    decreases s.len(),
{
    if s.len() > 0 {
        lemma_count_le_lt(s.drop_last(), x, y);
    }
}

proof fn lemma_count_mono(s: Seq<i64>, x: int, y: int)
    requires
        x <= y,
    ensures
        count_lt(s, x) <= count_lt(s, y),
        count_le(s, x) <= count_le(s, y),
    decreases s.len(),
{
    if s.len() > 0 {
        lemma_count_mono(s.drop_last(), x, y);
    }
}

/// The `k`-th smallest element is unique.
pub proof fn lemma_kth_unique(s: Seq<i64>, k: int, v: int, w: int)
    requires
        is_kth(s, k, v),
        is_kth(s, k, w),
    ensures
        v == w,
{
    if v < w {
        lemma_count_le_lt(s, v, w);
    } else if w < v {
        lemma_count_le_lt(s, w, v);
    }
}

proof fn lemma_count_outside(s: Seq<i64>, lo: int, hi: int, v: int)
    requires
        forall|i: int| 0 <= i < s.len() ==> lo <= #[trigger] s[i] <= hi,
    ensures
        v > hi ==> count_lt(s, v) == s.len(),
        v < lo ==> count_le(s, v) == 0,
    decreases s.len(),
{
    if s.len() > 0 {
        lemma_count_outside(s.drop_last(), lo, hi, v);
    }
}

/// The `k`-th smallest element lies between any bounds of the elements.
pub proof fn lemma_kth_within(s: Seq<i64>, k: int, v: int, lo: int, hi: int)
    requires
        is_kth(s, k, v),
        k < s.len(),
        forall|i: int| 0 <= i < s.len() ==> lo <= #[trigger] s[i] <= hi,
    ensures
        lo <= v <= hi,
{
    lemma_count_outside(s, lo, hi, v);
}

/// Finds the `k`-th smallest element of `v` (from zero) by partitioning around
/// a pivot and descending into the one part that holds it.
pub fn ksmallest(v: Vec<i64>, k: usize) -> (r: i64)
    requires
        k < v.len(),
    ensures
        is_kth(v@, k as int, r as int),
    decreases v.len(),
{
    let n = v.len();
    let mid = n / 2;
    let p = v[mid];
    let mut less: Vec<i64> = Vec::new();
    let mut greater: Vec<i64> = Vec::new();
    let mut eq: usize = 0;
    let mut i: usize = 0;
    while i < n
        invariant
            n == v.len(),
            mid < n,
            p == v@[mid as int],
            i <= n,
            less.len() + eq + greater.len() == i,
            i > mid ==> eq > 0,
            count_le(greater@, p as int) == 0,
            count_lt(v@.take(i as int), p as int) == less.len(),
            count_le(v@.take(i as int), p as int) == less.len() + eq,
            forall|x: int|
                x <= p ==> #[trigger] count_lt(v@.take(i as int), x) == count_lt(less@, x),
            forall|x: int|
                x < p ==> #[trigger] count_le(v@.take(i as int), x) == count_le(less@, x),
            forall|x: int|
                x > p ==> #[trigger] count_lt(v@.take(i as int), x) == count_lt(greater@, x)
                    + less.len() + eq,
            forall|x: int|
                x > p ==> #[trigger] count_le(v@.take(i as int), x) == count_le(greater@, x)
                    + less.len() + eq,
        decreases n - i,
    {
        let e = v[i];
        let ghost pre = v@.take(i as int);
        let ghost less0 = less@;
        let ghost greater0 = greater@;
        assert(v@.take(i + 1).drop_last() =~= pre);
        assert(v@.take(i + 1).last() == e);
        if e < p {
            less.push(e);
            assert(less@.drop_last() =~= less0);
        } else if e == p {
            eq = eq + 1;
        } else {
            greater.push(e);
            assert(greater@.drop_last() =~= greater0);
            assert(count_le(greater@, p as int) == count_le(greater0, p as int));
        }
        i = i + 1;
        proof {
            let cur = v@.take(i as int);
            assert forall|x: int| x <= p implies #[trigger] count_lt(cur, x) == count_lt(less@, x) by {
                assert(count_lt(cur, x) == count_lt(pre, x) + if (e as int) < x { 1nat } else { 0nat });
                if e < p {
                    assert(count_lt(less@, x) == count_lt(less0, x) + if (e as int) < x { 1nat } else { 0nat });
                }
            }
            assert forall|x: int| x < p implies #[trigger] count_le(cur, x) == count_le(less@, x) by {
                assert(count_le(cur, x) == count_le(pre, x) + if (e as int) <= x { 1nat } else { 0nat });
                if e < p {
                    assert(count_le(less@, x) == count_le(less0, x) + if (e as int) <= x { 1nat } else { 0nat });
                }
            }
            assert forall|x: int| x > p implies #[trigger] count_lt(cur, x) == count_lt(greater@, x)
                + less.len() + eq by {
                assert(count_lt(cur, x) == count_lt(pre, x) + if (e as int) < x { 1nat } else { 0nat });
                if e > p {
                    assert(count_lt(greater@, x) == count_lt(greater0, x) + if (e as int) < x { 1nat } else { 0nat });
                }
            }
            assert forall|x: int| x > p implies #[trigger] count_le(cur, x) == count_le(greater@, x)
                + less.len() + eq by {
                assert(count_le(cur, x) == count_le(pre, x) + if (e as int) <= x { 1nat } else { 0nat });
                if e > p {
                    assert(count_le(greater@, x) == count_le(greater0, x) + if (e as int) <= x { 1nat } else { 0nat });
                }
            }
            assert(count_lt(cur, p as int) == count_lt(pre, p as int) + if e < p { 1nat } else { 0nat });
            assert(count_le(cur, p as int) == count_le(pre, p as int) + if e <= p { 1nat } else { 0nat });
        }
    }
    assert(v@.take(n as int) =~= v@);
    let nl = less.len();
    if k < nl {
        let r = ksmallest(less, k);
        proof {
            if r >= p {
                lemma_count_mono(less@, p as int, r as int);
            }
        }
        r
    } else if k < nl + eq {
        p
    } else {
        let r = ksmallest(greater, k - nl - eq);
        proof {
            if r <= p {
                lemma_count_mono(greater@, r as int, p as int);
            }
        }
        r
    }
}

} // verus!
