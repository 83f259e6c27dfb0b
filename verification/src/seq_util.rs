//! Counting lemmas over sequences.

use vstd::prelude::*;

verus! {

/// Number of elements of `s` satisfying `f`.
pub open spec fn count_if<T>(s: Seq<T>, f: spec_fn(T) -> bool) -> nat
    decreases s.len(),
{
    if s.len() == 0 {
        0
    } else {
        count_if(s.drop_last(), f) + if f(s.last()) {
            1nat
        } else {
            0nat
        }
    }
}

pub proof fn lemma_count_if_le_len<T>(s: Seq<T>, f: spec_fn(T) -> bool)
    ensures
        count_if(s, f) <= s.len(),
    decreases s.len(),
{
    if s.len() > 0 {
        lemma_count_if_le_len(s.drop_last(), f);
    }
}

/// A count is zero exactly when no element satisfies the predicate.
pub proof fn lemma_count_if_zero<T>(s: Seq<T>, f: spec_fn(T) -> bool)
    ensures
        (count_if(s, f) == 0) <==> (forall|i: int| 0 <= i < s.len() ==> !f(s[i])),
    decreases s.len(),
{
    if s.len() > 0 {
        lemma_count_if_zero(s.drop_last(), f);
        assert(forall|i: int| 0 <= i < s.len() - 1 ==> s.drop_last()[i] == s[i]);
    }
}

/// Updating one element changes the count by the two elements' contributions.
pub proof fn lemma_count_if_update<T>(s: Seq<T>, f: spec_fn(T) -> bool, i: int, v: T)
    requires
        0 <= i < s.len(),
    ensures
        count_if(s.update(i, v), f) + (if f(s[i]) {
            1nat
        } else {
            0nat
        }) == count_if(s, f) + (if f(v) {
            1nat
        } else {
            0nat
        }),
    decreases s.len(),
{
    let su = s.update(i, v);
    if i == s.len() - 1 {
        assert(su.drop_last() =~= s.drop_last());
        assert(su.last() == v);
    } else {
        assert(su.drop_last() =~= s.drop_last().update(i, v));
        assert(su.last() == s.last());
        lemma_count_if_update(s.drop_last(), f, i, v);
    }
}

/// Pointwise implication of predicates gives an inequality of counts.
pub proof fn lemma_count_if_pointwise_le<T>(s1: Seq<T>, s2: Seq<T>, f: spec_fn(T) -> bool)
    requires
        s1.len() == s2.len(),
        forall|i: int| 0 <= i < s2.len() && f(#[trigger] s2[i]) ==> f(s1[i]),
    ensures
        count_if(s2, f) <= count_if(s1, f),
    decreases s1.len(),
{
    if s1.len() > 0 {
        assert(forall|i: int| 0 <= i < s1.len() - 1 ==> s1.drop_last()[i] == s1[i]);
        assert(forall|i: int| 0 <= i < s2.len() - 1 ==> s2.drop_last()[i] == s2[i]);
        lemma_count_if_pointwise_le(s1.drop_last(), s2.drop_last(), f);
    }
}

/// As `lemma_count_if_pointwise_le`, and strictly when some element
/// satisfies the predicate on one side only.
pub proof fn lemma_count_if_pointwise_lt<T>(s1: Seq<T>, s2: Seq<T>, f: spec_fn(T) -> bool, k: int)
    requires
        s1.len() == s2.len(),
        forall|i: int| 0 <= i < s2.len() && f(#[trigger] s2[i]) ==> f(s1[i]),
        0 <= k < s1.len(),
        f(s1[k]),
        !f(s2[k]),
    ensures
        count_if(s2, f) < count_if(s1, f),
    decreases s1.len(),
{
    assert(forall|i: int| 0 <= i < s1.len() - 1 ==> s1.drop_last()[i] == s1[i]);
    assert(forall|i: int| 0 <= i < s2.len() - 1 ==> s2.drop_last()[i] == s2[i]);
    if k == s1.len() - 1 {
        lemma_count_if_pointwise_le(s1.drop_last(), s2.drop_last(), f);
    } else {
        lemma_count_if_pointwise_lt(s1.drop_last(), s2.drop_last(), f, k);
    }
}

/// Row-major flat index recovers its row and column by division.
pub proof fn lemma_row_major_divmod(y: int, x: int, w: int)
    requires
        0 <= y,
        0 <= x < w,
    ensures
        (y * w + x) / w == y,
        (y * w + x) % w == x,
{
    assert((y * w + x) / w == y && (y * w + x) % w == x) by (nonlinear_arith)
        requires
            0 <= y,
            0 <= x < w,
    ;
}

} // verus!
