use vstd::prelude::*;

verus! {

/// Number of entries of `s` that satisfy `p`.
pub open spec fn count_where<T>(s: Seq<T>, p: spec_fn(T) -> bool) -> int
    decreases s.len(),
{
    if s.len() == 0 {
        0
    } else {
        count_where(s.drop_last(), p) + if p(s.last()) {
            1int
        } else {
            0int
        }
    }
}

pub proof fn lemma_count_where_bounds<T>(s: Seq<T>, p: spec_fn(T) -> bool)
    ensures
        0 <= count_where(s, p) <= s.len(),
    decreases s.len(),
{
    if s.len() > 0 {
        lemma_count_where_bounds(s.drop_last(), p);
    }
}

pub proof fn lemma_count_where_push<T>(s: Seq<T>, p: spec_fn(T) -> bool, x: T)
    ensures
        count_where(s.push(x), p) == count_where(s, p) + if p(x) {
            1int
        } else {
            0int
        },
{
    assert(s.push(x).drop_last() =~= s);
}

pub proof fn lemma_count_where_remove<T>(s: Seq<T>, p: spec_fn(T) -> bool, i: int)
    requires
        0 <= i < s.len(),
    ensures
        count_where(s.remove(i), p) == count_where(s, p) - if p(s[i]) {
            1int
        } else {
            0int
        },
    decreases s.len(),
{
    if i == s.len() - 1 {
        assert(s.remove(i) =~= s.drop_last());
    } else {
        assert(s.remove(i).drop_last() =~= s.drop_last().remove(i));
        assert(s.remove(i).last() == s.last());
        lemma_count_where_remove(s.drop_last(), p, i);
    }
}

/// An entry that satisfies `p` witnesses a count of at least one.
pub proof fn lemma_count_where_pos<T>(s: Seq<T>, p: spec_fn(T) -> bool, i: int)
    requires
        0 <= i < s.len(),
        p(s[i]),
    ensures
        count_where(s, p) >= 1,
    decreases s.len(),
{
    if i == s.len() - 1 {
        lemma_count_where_bounds(s.drop_last(), p);
    } else {
        lemma_count_where_pos(s.drop_last(), p, i);
    }
}

/// If no entry satisfies `p`, the count is zero.
pub proof fn lemma_count_where_zero<T>(s: Seq<T>, p: spec_fn(T) -> bool)
    requires
        forall|i: int| 0 <= i < s.len() ==> !p(s[i]),
    ensures
        count_where(s, p) == 0,
    decreases s.len(),
{
    if s.len() > 0 {
        lemma_count_where_zero(s.drop_last(), p);
    }
}

/// Pigeonhole bound: if the entries that satisfy `p` carry pairwise distinct
/// keys and every such key lies in the finite set `m`, then at most `m.len()`
/// entries satisfy `p`.
pub proof fn lemma_count_where_keyed_bound<T>(
    s: Seq<T>,
    p: spec_fn(T) -> bool,
    k: spec_fn(T) -> int,
    m: Set<int>,
)
    requires
        m.finite(),
        forall|i: int, j: int|
            0 <= i < j < s.len() && p(s[i]) && p(s[j]) ==> k(s[i]) != k(s[j]),
        forall|i: int| 0 <= i < s.len() && p(s[i]) ==> m.contains(k(s[i])),
    ensures
        count_where(s, p) <= m.len(),
    decreases s.len(),
{
    if s.len() > 0 {
        let t = s.drop_last();
        if p(s.last()) {
            let m2 = m.remove(k(s.last()));
            assert(forall|i: int|
                0 <= i < t.len() && p(t[i]) ==> m2.contains(k(t[i]))) by {
                assert(forall|i: int| 0 <= i < t.len() ==> t[i] == s[i]);
            }
            lemma_count_where_keyed_bound(t, p, k, m2);
            assert(m.contains(k(s.last())));
            assert(m2.len() == m.len() - 1);
        } else {
            lemma_count_where_keyed_bound(t, p, k, m);
        }
    }
}

/// A sequence of pairwise distinct integers drawn from `[lo, hi)` has at
/// most `hi - lo` entries.
pub proof fn lemma_distinct_in_range_len(s: Seq<int>, lo: int, hi: int)
    requires
        lo <= hi,
        forall|i: int, j: int| 0 <= i < j < s.len() ==> s[i] != s[j],
        forall|i: int| 0 <= i < s.len() ==> lo <= #[trigger] s[i] < hi,
    ensures
        s.len() <= hi - lo,
{
    let m = vstd::set_lib::set_int_range(lo, hi);
    vstd::set_lib::lemma_int_range(lo, hi);
    lemma_count_where_keyed_bound(s, |x: int| true, |x: int| x, m);
    assert(count_where(s, |x: int| true) == s.len()) by {
        lemma_count_where_all(s);
    }
}

proof fn lemma_count_where_all(s: Seq<int>)
    ensures
        count_where(s, |x: int| true) == s.len(),
    decreases s.len(),
{
    if s.len() > 0 {
        lemma_count_where_all(s.drop_last());
    }
}

/// One step of filtering a growing prefix: taking one more entry keeps
/// the filtered prefix, plus the entry when it matches.
pub proof fn lemma_filter_take_step<T>(s: Seq<T>, pred: spec_fn(T) -> bool, i: int)
    requires
        0 <= i < s.len(),
    ensures
        s.take(i + 1).filter(pred) == if pred(s[i]) {
            s.take(i).filter(pred).push(s[i])
        } else {
            s.take(i).filter(pred)
        },
{
    reveal(Seq::filter);
    assert(s.take(i + 1).drop_last() =~= s.take(i));
    assert(s.take(i + 1).last() == s[i]);
}

} // verus!
