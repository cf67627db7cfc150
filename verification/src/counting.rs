//! Counting elements of a sequence that satisfy a predicate, with the
//! lemmas the engine needs to track such counts across single-cell updates
//! and prefix-by-prefix loops.

use vstd::prelude::*;

verus! {

/// How many elements of `s` satisfy `p`.
pub open spec fn count_matching<T>(s: Seq<T>, p: spec_fn(T) -> bool) -> int
    decreases s.len(),
{
    if s.len() == 0 {
        0
    } else {
        count_matching(s.drop_last(), p) + if p(s.last()) {
            1int
        } else {
            0int
        }
    }
}

/// The count lies between 0 and the length of the sequence.
pub proof fn lemma_count_bounds<T>(s: Seq<T>, p: spec_fn(T) -> bool)
    ensures
        0 <= count_matching(s, p) <= s.len(),
    decreases s.len(),
{
    if s.len() > 0 {
        lemma_count_bounds(s.drop_last(), p);
    }
}

/// Extending a prefix by one element adds exactly that element's contribution.
pub proof fn lemma_count_take_step<T>(s: Seq<T>, p: spec_fn(T) -> bool, i: int)
    requires
        0 <= i < s.len(),
    ensures
        count_matching(s.take(i + 1), p) == count_matching(s.take(i), p) + if p(s[i]) {
            1int
        } else {
            0int
        },
{
    assert(s.take(i + 1).drop_last() =~= s.take(i));
    assert(s.take(i + 1).last() == s[i]);
}

/// The full-length prefix carries the count of the whole sequence.
pub proof fn lemma_count_take_all<T>(s: Seq<T>, p: spec_fn(T) -> bool)
    ensures
        count_matching(s.take(s.len() as int), p) == count_matching(s, p),
{
    assert(s.take(s.len() as int) =~= s);
}

/// Two sequences on which `p` agrees pointwise have the same count.
pub proof fn lemma_count_pointwise<T>(s1: Seq<T>, s2: Seq<T>, p: spec_fn(T) -> bool)
    requires
        s1.len() == s2.len(),
        forall|i: int| 0 <= i < s1.len() ==> p(s1[i]) == p(s2[i]),
    ensures
        count_matching(s1, p) == count_matching(s2, p),
    decreases s1.len(),
{
    if s1.len() > 0 {
        lemma_count_pointwise(s1.drop_last(), s2.drop_last(), p);
    }
}

/// Updating one element changes the count by the difference of the two
/// elements' contributions.
pub proof fn lemma_count_update<T>(s: Seq<T>, p: spec_fn(T) -> bool, i: int, v: T)
    requires
        0 <= i < s.len(),
    ensures
        count_matching(s.update(i, v), p) == count_matching(s, p) - (if p(s[i]) {
            1int
        } else {
            0int
        }) + (if p(v) {
            1int
        } else {
            0int
        }),
    decreases s.len(),
{
    let t = s.update(i, v);
    if i == s.len() - 1 {
        assert(t.drop_last() =~= s.drop_last());
        assert(t.last() == v);
    } else {
        assert(t.drop_last() =~= s.drop_last().update(i, v));
        assert(t.last() == s.last());
        lemma_count_update(s.drop_last(), p, i, v);
    }
}

/// If `p` implies `q` pointwise, the count for `p` is no larger.
pub proof fn lemma_count_le<T>(s: Seq<T>, p: spec_fn(T) -> bool, q: spec_fn(T) -> bool)
    requires
        forall|i: int| 0 <= i < s.len() && p(s[i]) ==> q(s[i]),
    ensures
        count_matching(s, p) <= count_matching(s, q),
    decreases s.len(),
{
    if s.len() > 0 {
        lemma_count_le(s.drop_last(), p, q);
    }
}

/// If `p` implies `q` pointwise and some element satisfies `q` but not `p`,
/// the count for `p` is strictly smaller.
pub proof fn lemma_count_lt<T>(s: Seq<T>, p: spec_fn(T) -> bool, q: spec_fn(T) -> bool, w: int)
    requires
        forall|i: int| 0 <= i < s.len() && p(s[i]) ==> q(s[i]),
        0 <= w < s.len(),
        q(s[w]) && !p(s[w]),
    ensures
        count_matching(s, p) < count_matching(s, q),
    decreases s.len(),
{
    if w == s.len() - 1 {
        lemma_count_le(s.drop_last(), p, q);
    } else {
        lemma_count_lt(s.drop_last(), p, q, w);
    }
}

/// Nothing matches: the count is zero.
pub proof fn lemma_count_none<T>(s: Seq<T>, p: spec_fn(T) -> bool)
    requires
        forall|i: int| 0 <= i < s.len() ==> !p(s[i]),
    ensures
        count_matching(s, p) == 0,
    decreases s.len(),
{
    if s.len() > 0 {
        lemma_count_none(s.drop_last(), p);
    }
}

/// A witness that matches puts the count at one or more.
pub proof fn lemma_count_pos<T>(s: Seq<T>, p: spec_fn(T) -> bool, w: int)
    requires
        0 <= w < s.len(),
        p(s[w]),
    ensures
        count_matching(s, p) >= 1,
    decreases s.len(),
{
    if w == s.len() - 1 {
        lemma_count_bounds(s.drop_last(), p);
    } else {
        lemma_count_pos(s.drop_last(), p, w);
    }
}

/// A witness that does not match keeps the count under the length.
pub proof fn lemma_count_lt_len<T>(s: Seq<T>, p: spec_fn(T) -> bool, w: int)
    requires
        0 <= w < s.len(),
        !p(s[w]),
    ensures
        count_matching(s, p) < s.len(),
    decreases s.len(),
{
    if w == s.len() - 1 {
        lemma_count_bounds(s.drop_last(), p);
    } else {
        lemma_count_lt_len(s.drop_last(), p, w);
        lemma_count_bounds(s, p);
    }
}

/// A predicate and its complement split the length.
pub proof fn lemma_count_complement<T>(s: Seq<T>, p: spec_fn(T) -> bool, q: spec_fn(T) -> bool)
    requires
        forall|i: int| 0 <= i < s.len() ==> p(s[i]) == !q(s[i]),
    ensures
        count_matching(s, p) + count_matching(s, q) == s.len(),
    decreases s.len(),
{
    if s.len() > 0 {
        lemma_count_complement(s.drop_last(), p, q);
    }
}

} // verus!
