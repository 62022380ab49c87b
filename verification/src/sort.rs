//! A verified stable merge sort.

use crate::seqs::{first_where, lemma_first_where};
use vstd::prelude::*;

verus! {

/// A value with an integer rank.
pub trait HasRank: Sized {
    /// The rank of the value.
    spec fn rank(&self) -> int;
}

/// A value that can be sorted by its rank.
pub trait Ranked: HasRank {
    /// Whether `self` may stand before `other`.
    fn rank_le(&self, other: &Self) -> (r: bool)
        ensures
            r == (self.rank() <= other.rank()),
    ;
}

/// The values whose rank is `k`.
pub open spec fn of_rank<T: HasRank>(k: int) -> spec_fn(T) -> bool {
    |x: T| x.rank() == k
}

/// Ranks do not decrease along the sequence.
pub open spec fn is_ranked<T: HasRank>(s: Seq<T>) -> bool {
    forall|i: int, j: int|
        #![trigger s[i], s[j]]
        0 <= i <= j < s.len() ==> s[i].rank() <= s[j].rank()
}

/// `out` is the stable sort of `input`: ranks ascend, and the values of each rank are those of
/// `input` in their old order.
pub open spec fn is_stable_sort<T: HasRank>(input: Seq<T>, out: Seq<T>) -> bool {
    &&& is_ranked(out)
    &&& out.to_multiset() =~= input.to_multiset()
    &&& forall|k: int| #[trigger] out.filter(of_rank(k)) =~= input.filter(of_rank(k))
}

/// The stable sort of `s`. `lemma_stable_sort_unique` shows that there is only one.
pub open spec fn stable_sorted<T: HasRank>(s: Seq<T>) -> Seq<T> {
    choose|out: Seq<T>| is_stable_sort(s, out)
}

proof fn lemma_filter_first<T: HasRank>(s: Seq<T>, k: int)
    requires
        s.len() > 0,
    ensures
        s.filter(of_rank(k)) == (if s[0].rank() == k {
            seq![s[0]]
        } else {
            Seq::<T>::empty()
        }) + s.drop_first().filter(of_rank(k)),
{
    assert(s =~= seq![s[0]] + s.drop_first());
    Seq::filter_distributes_over_add(seq![s[0]], s.drop_first(), of_rank(k));
    lemma_filter_one(s[0], k);
}

/// Sequences in rank order that agree on the values of every rank are equal.
proof fn lemma_ranked_determined<T: HasRank>(a: Seq<T>, b: Seq<T>)
    requires
        is_ranked(a),
        is_ranked(b),
        forall|k: int| #[trigger] a.filter(of_rank(k)) =~= b.filter(of_rank(k)),
    ensures
        a == b,
    decreases a.len(),
{
    if a.len() == 0 {
        if b.len() > 0 {
            lemma_filter_first(b, b[0].rank());
            a.lemma_filter_len(of_rank(b[0].rank()));
            assert(a.filter(of_rank(b[0].rank())) =~= b.filter(of_rank(b[0].rank())));
        }
        assert(a =~= b);
    } else {
        let k = a[0].rank();
        lemma_filter_first(a, k);
        assert(a.filter(of_rank(k)) =~= b.filter(of_rank(k)));
        b.lemma_filter_len(of_rank(k));
        assert(b.len() > 0);
        let m = b[0].rank();
        lemma_filter_first(b, m);
        assert(a.filter(of_rank(m)) =~= b.filter(of_rank(m)));
        assert(k <= m) by {
            assert(a.filter(of_rank(m)).contains(b[0])) by {
                assert(b.filter(of_rank(m))[0] == b[0]);
            }
            a.lemma_filter_contains_rev(of_rank(m), b[0]);
            let i = choose|i: int| 0 <= i < a.len() && a[i] == b[0];
            assert(a[0].rank() <= a[i].rank());
        }
        assert(m <= k) by {
            assert(b.filter(of_rank(k)).contains(a[0])) by {
                assert(a.filter(of_rank(k))[0] == a[0]);
            }
            b.lemma_filter_contains_rev(of_rank(k), a[0]);
            let i = choose|i: int| 0 <= i < b.len() && b[i] == a[0];
            assert(b[0].rank() <= b[i].rank());
        }
        lemma_filter_first(b, k);
        assert(a.filter(of_rank(k))[0] == a[0]);
        assert(b.filter(of_rank(k))[0] == b[0]);
        let x = a.drop_first();
        let y = b.drop_first();
        assert forall|j: int| #[trigger] x.filter(of_rank(j)) =~= y.filter(of_rank(j)) by {
            lemma_filter_first(a, j);
            lemma_filter_first(b, j);
            assert(a.filter(of_rank(j)) =~= b.filter(of_rank(j)));
            let head = if a[0].rank() == j {
                seq![a[0]]
            } else {
                Seq::<T>::empty()
            };
            assert(x.filter(of_rank(j)) =~= (head + x.filter(of_rank(j))).skip(head.len() as int));
            assert(y.filter(of_rank(j)) =~= (head + y.filter(of_rank(j))).skip(head.len() as int));
        }
        assert(is_ranked(x)) by {
            assert forall|i: int, j: int|
                #![trigger x[i], x[j]]
                0 <= i <= j < x.len() implies x[i].rank() <= x[j].rank() by {
                assert(a[i + 1].rank() <= a[j + 1].rank());
            }
        }
        assert(is_ranked(y)) by {
            assert forall|i: int, j: int|
                #![trigger y[i], y[j]]
                0 <= i <= j < y.len() implies y[i].rank() <= y[j].rank() by {
                assert(b[i + 1].rank() <= b[j + 1].rank());
            }
        }
        lemma_ranked_determined(x, y);
        assert(a =~= seq![a[0]] + x);
        assert(b =~= seq![b[0]] + y);
    }
}

/// A sequence has exactly one stable sort.
pub proof fn lemma_stable_sort_unique<T: HasRank>(input: Seq<T>, out: Seq<T>)
    requires
        is_stable_sort(input, out),
    ensures
        out == stable_sorted(input),
{
    let other = stable_sorted(input);
    assert(is_stable_sort(input, other));
    assert forall|k: int| #[trigger] out.filter(of_rank(k)) =~= other.filter(of_rank(k)) by {
        assert(other.filter(of_rank(k)) =~= input.filter(of_rank(k)));
    }
    lemma_ranked_determined(out, other);
}

/// Every sequence has a stable sort.
pub proof fn lemma_stable_sort_exists<T: HasRank>(s: Seq<T>)
    ensures
        is_stable_sort(s, stable_sorted(s)),
    decreases s.len(),
{
    if s.len() == 0 {
        assert(is_stable_sort(s, s));
    } else {
        let x = s[0];
        let rest = s.drop_first();
        lemma_stable_sort_exists(rest);
        let t = stable_sorted(rest);
        let after = |y: T| x.rank() <= y.rank();
        let p = first_where(t, after);
        lemma_first_where(t, after);
        let low = t.take(p);
        let high = t.skip(p);
        let out = low + (seq![x] + high);
        assert(t =~= low + high);
        assert(s =~= seq![x] + rest);
        assert(is_ranked(out)) by {
            assert forall|i: int, j: int|
                #![trigger out[i], out[j]]
                0 <= i <= j < out.len() implies out[i].rank() <= out[j].rank() by {
                let oi = if i < p {
                    t[i]
                } else if i == p {
                    x
                } else {
                    t[i - 1]
                };
                let oj = if j < p {
                    t[j]
                } else if j == p {
                    x
                } else {
                    t[j - 1]
                };
                assert(out[i] == oi);
                assert(out[j] == oj);
                if i < p {
                    assert(!after(t[i]));
                }
                if p < t.len() {
                    assert(after(t[p]));
                }
                if j > p {
                    assert(t[p].rank() <= t[j - 1].rank());
                }
            }
        }
        assert(out.to_multiset() =~= s.to_multiset()) by {
            vstd::seq_lib::lemma_multiset_commutative(low, seq![x] + high);
            vstd::seq_lib::lemma_multiset_commutative(seq![x], high);
            vstd::seq_lib::lemma_multiset_commutative(low, high);
            vstd::seq_lib::lemma_multiset_commutative(seq![x], rest);
            broadcast use vstd::multiset::group_multiset_axioms;

        }
        assert forall|k: int| #[trigger] out.filter(of_rank(k)) =~= s.filter(of_rank(k)) by {
            Seq::filter_distributes_over_add(low, seq![x] + high, of_rank(k));
            Seq::filter_distributes_over_add(seq![x], high, of_rank(k));
            Seq::filter_distributes_over_add(low, high, of_rank(k));
            Seq::filter_distributes_over_add(seq![x], rest, of_rank(k));
            assert(t.filter(of_rank(k)) =~= rest.filter(of_rank(k)));
            lemma_filter_one(x, k);
            if x.rank() == k {
                assert forall|i: int| 0 <= i < low.len() implies !of_rank::<T>(k)(low[i]) by {
                    assert(!after(t[i]));
                }
                assert(low.all(|y: T| !of_rank::<T>(k)(y)));
                low.lemma_all_neg_filter_empty(of_rank(k));
                assert(low.filter(of_rank(k)) =~= Seq::<T>::empty());
            }
        }
        assert(is_stable_sort(s, out));
    }
}

/// A sequence whose ranks already ascend is its own stable sort.
pub proof fn lemma_stable_sort_of_ranked<T: HasRank>(s: Seq<T>)
    requires
        is_ranked(s),
    ensures
        stable_sorted(s) == s,
{
    lemma_stable_sort_unique(s, s);
}

proof fn lemma_filter_one<T: HasRank>(x: T, k: int)
    ensures
        seq![x].filter(of_rank(k)) == (if x.rank() == k {
            seq![x]
        } else {
            Seq::<T>::empty()
        }),
{
    let s = seq![x];
    assert(s.drop_last() =~= Seq::<T>::empty());
    reveal_with_fuel(Seq::filter, 2);
    assert(s.filter(of_rank(k)) =~= (if x.rank() == k {
        seq![x]
    } else {
        Seq::<T>::empty()
    }));
}

/// The values of rank `k` among what is left of both halves, followed by those already merged.
spec fn remaining_of_rank<T: HasRank>(left: Seq<T>, right: Seq<T>, merged: Seq<T>, k: int) -> Seq<T> {
    left.filter(of_rank(k)) + right.filter(of_rank(k)) + merged.filter(of_rank(k))
}

proof fn lemma_take_left<T: HasRank>(left: Seq<T>, right: Seq<T>, merged: Seq<T>, k: int)
    requires
        left.len() > 0,
        is_ranked(right),
        right.len() > 0 ==> right.last().rank() < left.last().rank(),
    ensures
        remaining_of_rank(left.drop_last(), right, seq![left.last()] + merged, k)
            == remaining_of_rank(left, right, merged, k),
{
    let x = left.last();
    lemma_filter_one(x, k);
    assert(left =~= left.drop_last() + seq![x]);
    Seq::filter_distributes_over_add(left.drop_last(), seq![x], of_rank(k));
    Seq::filter_distributes_over_add(seq![x], merged, of_rank(k));
    if x.rank() == k {
        assert forall|i: int| 0 <= i < right.len() implies !of_rank::<T>(k)(right[i]) by {
            assert(right[i].rank() <= right[right.len() - 1].rank());
        }
        assert(right.all(|y: T| !of_rank::<T>(k)(y)));
        right.lemma_all_neg_filter_empty(of_rank(k));
        assert(right.filter(of_rank(k)) =~= Seq::<T>::empty());
    }
    assert(remaining_of_rank(left.drop_last(), right, seq![x] + merged, k) =~= remaining_of_rank(
        left,
        right,
        merged,
        k,
    ));
}

proof fn lemma_take_right<T: HasRank>(left: Seq<T>, right: Seq<T>, merged: Seq<T>, k: int)
    requires
        right.len() > 0,
    ensures
        remaining_of_rank(left, right.drop_last(), seq![right.last()] + merged, k)
            == remaining_of_rank(left, right, merged, k),
{
    let y = right.last();
    assert(right =~= right.drop_last() + seq![y]);
    Seq::filter_distributes_over_add(right.drop_last(), seq![y], of_rank(k));
    Seq::filter_distributes_over_add(seq![y], merged, of_rank(k));
    assert(remaining_of_rank(left, right.drop_last(), seq![y] + merged, k) =~= remaining_of_rank(
        left,
        right,
        merged,
        k,
    ));
}

/// The views of a sequence.
pub open spec fn views<T: View>(s: Seq<T>) -> Seq<T::V> {
    s.map_values(|x: T| x@)
}

proof fn lemma_filter_views<T: HasRank + View>(s: Seq<T>, k: int) where T::V: HasRank
    requires
        forall|i: int| 0 <= i < s.len() ==> (#[trigger] s[i]).rank() == s[i]@.rank(),
    ensures
        views(s.filter(of_rank(k))) == views(s).filter(of_rank(k)),
    decreases s.len(),
{
    reveal(Seq::filter);
    if s.len() > 0 {
        let rest = s.drop_last();
        assert forall|i: int| 0 <= i < rest.len() implies (#[trigger] rest[i]).rank()
            == rest[i]@.rank() by {
            assert(s[i].rank() == s[i]@.rank());
        }
        lemma_filter_views(rest, k);
        assert(views(s).drop_last() =~= views(rest));
        assert(views(s).last() == s.last()@);
        assert(s[s.len() - 1].rank() == s[s.len() - 1]@.rank());
        assert(views(s.filter(of_rank(k))) =~= views(s).filter(of_rank(k)));
    } else {
        assert(views(s.filter(of_rank(k))) =~= views(s).filter(of_rank(k)));
    }
}

proof fn lemma_contains_after_sort<T: HasRank>(input: Seq<T>, out: Seq<T>, i: int)
    requires
        is_stable_sort(input, out),
        0 <= i < out.len(),
    ensures
        input.contains(out[i]),
{
    vstd::seq_lib::to_multiset_contains(out, out[i]);
    vstd::seq_lib::to_multiset_contains(input, out[i]);
    assert(out.contains(out[i]));
}

/// Sorting and taking views can be done in either order where the ranks are those of the views.
pub proof fn lemma_sorted_views<T: HasRank + View>(s: Seq<T>) where T::V: HasRank
    requires
        forall|i: int| 0 <= i < s.len() ==> (#[trigger] s[i]).rank() == s[i]@.rank(),
    ensures
        views(stable_sorted(s)) == stable_sorted(views(s)),
{
    lemma_stable_sort_exists(s);
    let out = stable_sorted(s);
    assert forall|i: int| 0 <= i < out.len() implies (#[trigger] out[i]).rank()
        == out[i]@.rank() by {
        lemma_contains_after_sort(s, out, i);
        let j = choose|j: int| 0 <= j < s.len() && s[j] == out[i];
        assert(s[j].rank() == s[j]@.rank());
    }
    lemma_stable_sort_exists(views(s));
    let other = stable_sorted(views(s));
    let mine = views(out);
    assert(is_ranked(mine)) by {
        assert forall|i: int, j: int|
            #![trigger mine[i], mine[j]]
            0 <= i <= j < mine.len() implies mine[i].rank() <= mine[j].rank() by {
            assert(out[i].rank() <= out[j].rank());
        }
    }
    assert forall|k: int| #[trigger] mine.filter(of_rank(k)) =~= other.filter(of_rank(k)) by {
        lemma_filter_views(out, k);
        lemma_filter_views(s, k);
        assert(out.filter(of_rank(k)) =~= s.filter(of_rank(k)));
        assert(other.filter(of_rank(k)) =~= views(s).filter(of_rank(k)));
    }
    lemma_ranked_determined(mine, other);
}

/// Reverses a vector.
fn reversed<T>(mut v: Vec<T>) -> (r: Vec<T>)
    ensures
        r@ == v@.reverse(),
{
    let ghost all = v@;
    let mut out: Vec<T> = Vec::with_capacity(v.len());
    while v.len() > 0
        invariant
            out@ + v@.reverse() == all.reverse(),
        decreases v.len(),
    {
        let ghost before = v@;
        let ghost out_before = out@;
        match v.pop() {
            Some(x) => {
                out.push(x);
                assert(before.reverse() =~= seq![x] + v@.reverse());
                assert(out@ + v@.reverse() =~= out_before + before.reverse());
            },
            None => {},
        }
    }
    assert(out@ =~= all.reverse());
    out
}

/// Merges two sorted vectors; among equal ranks those of `left` come first.
fn merge<T: Ranked>(mut left: Vec<T>, mut right: Vec<T>) -> (r: Vec<T>)
    requires
        is_ranked(left@),
        is_ranked(right@),
    ensures
        is_stable_sort(left@ + right@, r@),
{
    let ghost l0 = left@;
    let ghost r0 = right@;
    let mut back: Vec<T> = Vec::new();
    proof {
        broadcast use vstd::multiset::group_multiset_axioms;
        vstd::seq_lib::lemma_multiset_commutative(l0, r0);
        assert forall|k: int|
            remaining_of_rank(left@, right@, back@.reverse(), k)
                == #[trigger] (l0 + r0).filter(of_rank(k)) by {
            Seq::filter_distributes_over_add(l0, r0, of_rank(k));
            assert(back@.reverse() =~= Seq::<T>::empty());
            assert(remaining_of_rank(left@, right@, back@.reverse(), k) =~= (l0 + r0).filter(
                of_rank(k),
            ));
        }
        assert(back@.reverse() =~= Seq::<T>::empty());
        assert(back@.reverse().to_multiset() =~= vstd::multiset::Multiset::<T>::empty()) by {
            vstd::seq_lib::to_multiset_len(back@.reverse());
            vstd::multiset::lemma_multiset_empty_len(back@.reverse().to_multiset());
        }
    }
    while left.len() > 0 || right.len() > 0
        invariant
            is_ranked(left@),
            is_ranked(right@),
            is_ranked(back@.reverse()),
            left@.len() > 0 && back@.len() > 0 ==> left@.last().rank() <= back@.last().rank(),
            right@.len() > 0 && back@.len() > 0 ==> right@.last().rank() <= back@.last().rank(),
            left@.to_multiset().add(right@.to_multiset()).add(back@.reverse().to_multiset())
                =~= (l0 + r0).to_multiset(),
            forall|k: int|
                remaining_of_rank(left@, right@, back@.reverse(), k)
                    == #[trigger] (l0 + r0).filter(of_rank(k)),
        decreases left.len() + right.len(),
    {
        let ghost ls = left@;
        let ghost rs = right@;
        let ghost bs = back@;
        let from_left: bool = if left.len() == 0 {
            false
        } else if right.len() == 0 {
            true
        } else {
            !left[left.len() - 1].rank_le(&right[right.len() - 1])
        };
        let next: Option<T> = if from_left {
            left.pop()
        } else {
            right.pop()
        };
        match next {
            Some(x) => {
                back.push(x);
                proof {
                    broadcast use vstd::multiset::group_multiset_axioms;
                    broadcast use vstd::seq_lib::group_to_multiset_ensures;
                    assert(back@.reverse() =~= seq![x] + bs.reverse());
                    vstd::seq_lib::lemma_multiset_commutative(seq![x], bs.reverse());
                    if from_left {
                        assert(ls =~= left@.push(x));
                    } else {
                        assert(rs =~= right@.push(x));
                    }
                    assert(seq![x] =~= Seq::<T>::empty().push(x));
                    assert forall|k: int|
                        remaining_of_rank(left@, right@, back@.reverse(), k)
                            == #[trigger] (l0 + r0).filter(of_rank(k)) by {
                        if from_left {
                            lemma_take_left(ls, rs, bs.reverse(), k);
                            assert(left@ =~= ls.drop_last());
                        } else {
                            lemma_take_right(ls, rs, bs.reverse(), k);
                            assert(right@ =~= rs.drop_last());
                        }
                    }
                    assert(is_ranked(back@.reverse())) by {
                        let out = back@.reverse();
                        assert forall|i: int, j: int|
                            #![trigger out[i], out[j]]
                            0 <= i <= j < out.len() implies out[i].rank() <= out[j].rank() by {
                            if i > 0 {
                                assert(out[i] == bs.reverse()[i - 1]);
                                assert(out[j] == bs.reverse()[j - 1]);
                            } else if j > 0 {
                                assert(out[j] == bs.reverse()[j - 1]);
                                assert(bs.reverse()[0] == bs.last());
                                assert(bs.reverse()[0].rank() <= bs.reverse()[j - 1].rank());
                            }
                        }
                    }
                }
            },
            None => {},
        }
    }
    let out: Vec<T> = reversed(back);
    proof {
        broadcast use vstd::multiset::group_multiset_axioms;
        assert(left@ =~= Seq::<T>::empty());
        assert(right@ =~= Seq::<T>::empty());
        assert(out@.to_multiset() =~= (l0 + r0).to_multiset());
        assert forall|k: int| #[trigger]
            out@.filter(of_rank(k)) =~= (l0 + r0).filter(of_rank(k)) by {
            assert(remaining_of_rank(left@, right@, out@, k) == (l0 + r0).filter(of_rank(k)));
            reveal(Seq::filter);
            assert(Seq::<T>::empty().filter(of_rank(k)) =~= Seq::<T>::empty());
        }
    }
    out
}

/// Sorts by rank, keeping values of equal rank in their order.
pub fn stable_sort<T: Ranked>(mut v: Vec<T>) -> (r: Vec<T>)
    ensures
        r@ == stable_sorted(v@),
        is_stable_sort(v@, r@),
    decreases v.len(),
{
    let ghost all = v@;
    if v.len() <= 1 {
        proof {
            lemma_stable_sort_of_ranked(v@);
        }
        return v;
    }
    let mid: usize = v.len() / 2;
    let right: Vec<T> = v.split_off(mid);
    let ghost l0 = v@;
    let ghost r0 = right@;
    let left_sorted: Vec<T> = stable_sort(v);
    let right_sorted: Vec<T> = stable_sort(right);
    let out: Vec<T> = merge(left_sorted, right_sorted);
    proof {
        assert(all =~= l0 + r0);
        vstd::seq_lib::lemma_multiset_commutative(l0, r0);
        vstd::seq_lib::lemma_multiset_commutative(left_sorted@, right_sorted@);
        assert forall|k: int| #[trigger] out@.filter(of_rank(k)) =~= all.filter(of_rank(k)) by {
            Seq::filter_distributes_over_add(l0, r0, of_rank(k));
            Seq::filter_distributes_over_add(left_sorted@, right_sorted@, of_rank(k));
            assert(left_sorted@.filter(of_rank(k)) =~= l0.filter(of_rank(k)));
            assert(right_sorted@.filter(of_rank(k)) =~= r0.filter(of_rank(k)));
        }
        lemma_stable_sort_unique(all, out@);
    }
    out
}

} // verus!
