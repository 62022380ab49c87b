//! Positions in sequences.

use vstd::prelude::*;

verus! {

/// `n`, or `len` where that is less.
pub open spec fn at_most(n: int, len: int) -> int {
    if n < len {
        n
    } else {
        len
    }
}

/// The position of the first element that satisfies `p`, or the length if there is none.
pub open spec fn first_where<T>(s: Seq<T>, p: spec_fn(T) -> bool) -> int
    decreases s.len(),
{
    if s.len() == 0 || p(s[0]) {
        0
    } else {
        1 + first_where(s.drop_first(), p)
    }
}

/// What `first_where` promises of its result.
pub proof fn lemma_first_where<T>(s: Seq<T>, p: spec_fn(T) -> bool)
    ensures
        0 <= first_where(s, p) <= s.len(),
        first_where(s, p) < s.len() ==> p(s[first_where(s, p)]),
        forall|j: int| 0 <= j < first_where(s, p) ==> !p(#[trigger] s[j]),
    decreases s.len(),
{
    if s.len() > 0 && !p(s[0]) {
        let rest = s.drop_first();
        lemma_first_where(rest, p);
        assert forall|j: int| 0 <= j < first_where(s, p) implies !p(#[trigger] s[j]) by {
            if j > 0 {
                assert(s[j] == rest[j - 1]);
            }
        }
    }
}

/// A position that satisfies `p` after none that does is the first one.
pub proof fn lemma_first_where_at<T>(s: Seq<T>, p: spec_fn(T) -> bool, i: int)
    requires
        0 <= i <= s.len(),
        i < s.len() ==> p(s[i]),
        forall|j: int| 0 <= j < i ==> !p(#[trigger] s[j]),
    ensures
        first_where(s, p) == i,
{
    lemma_first_where(s, p);
    let f = first_where(s, p);
    if f < i {
        assert(!p(s[f]));
    } else if i < f {
        assert(!p(s[i]));
    }
}

/// Filtering a sequence grown by one element.
pub proof fn lemma_filter_step<T>(s: Seq<T>, i: int, p: spec_fn(T) -> bool)
    requires
        0 <= i < s.len(),
    ensures
        s.take(i + 1).filter(p) == (if p(s[i]) {
            s.take(i).filter(p).push(s[i])
        } else {
            s.take(i).filter(p)
        }),
{
    assert(s.take(i + 1).drop_last() =~= s.take(i));
    assert(s.take(i + 1).last() == s[i]);
    reveal(Seq::filter);
}

/// Filtering a sequence, with and without one of its elements.
pub proof fn lemma_filter_around<T>(s: Seq<T>, i: int, p: spec_fn(T) -> bool)
    requires
        0 <= i < s.len(),
    ensures
        s.filter(p) == s.take(i).filter(p) + (if p(s[i]) {
            seq![s[i]]
        } else {
            Seq::empty()
        }) + s.skip(i + 1).filter(p),
        s.remove(i).filter(p) == s.take(i).filter(p) + s.skip(i + 1).filter(p),
{
    let low = s.take(i);
    let one = seq![s[i]];
    let high = s.skip(i + 1);
    assert(s =~= low + one + high);
    assert(s.remove(i) =~= low + high);
    Seq::filter_distributes_over_add(low + one, high, p);
    Seq::filter_distributes_over_add(low, one, p);
    Seq::filter_distributes_over_add(low, high, p);
    assert(one.filter(p) =~= if p(s[i]) {
        seq![s[i]]
    } else {
        Seq::empty()
    }) by {
        reveal_with_fuel(Seq::filter, 2);
        assert(one.drop_last() =~= Seq::empty());
    }
}

/// Nothing is left of a sequence of which no element satisfies the predicate.
pub proof fn lemma_filter_nothing<T>(s: Seq<T>, p: spec_fn(T) -> bool)
    requires
        forall|i: int| 0 <= i < s.len() ==> !p(#[trigger] s[i]),
    ensures
        s.filter(p) == Seq::<T>::empty(),
    decreases s.len(),
{
    reveal(Seq::filter);
    if s.len() > 0 {
        lemma_filter_nothing(s.drop_last(), p);
    }
}

/// All of a sequence is left if every element satisfies the predicate.
pub proof fn lemma_filter_all<T>(s: Seq<T>, p: spec_fn(T) -> bool)
    requires
        forall|i: int| 0 <= i < s.len() ==> p(#[trigger] s[i]),
    ensures
        s.filter(p) == s,
    decreases s.len(),
{
    reveal(Seq::filter);
    if s.len() > 0 {
        lemma_filter_all(s.drop_last(), p);
        assert(s.drop_last().push(s.last()) =~= s);
    } else {
        assert(s.filter(p) =~= s);
    }
}

/// A limit takes away what is over it and nothing else.
pub proof fn law_limit<T>(s: Seq<T>, n: nat)
    ensures
        s.len() <= n ==> s.take(at_most(n as int, s.len() as int)) == s,
        s.len() > n ==> s.take(at_most(n as int, s.len() as int)).len() == n,
{
    assert(s.take(s.len() as int) =~= s);
}

} // verus!
