//! A set of socket addresses in the order in which they came.

use crate::net::SocketAddr;
use crate::sort::{is_ranked, stable_sort, HasRank, Ranked};
use crate::types::{addr_le, addr_rank, lemma_addr_rank_injective};
use vstd::prelude::*;

verus! {

/// A list after one address came: it is appended unless it is there.
pub open spec fn with_addr(s: Seq<SocketAddr>, a: SocketAddr) -> Seq<SocketAddr> {
    if s.contains(a) {
        s
    } else {
        s.push(a)
    }
}

/// A list after several addresses came, one after the other.
pub open spec fn with_addrs(s: Seq<SocketAddr>, addrs: Seq<SocketAddr>) -> Seq<SocketAddr>
    decreases addrs.len(),
{
    if addrs.len() == 0 {
        s
    } else {
        with_addr(with_addrs(s, addrs.drop_last()), addrs.last())
    }
}

/// Whatever comes, the list keeps what it had, gains what came, and holds nothing twice.
pub proof fn lemma_with_addrs(s: Seq<SocketAddr>, addrs: Seq<SocketAddr>)
    requires
        s.no_duplicates(),
    ensures
        with_addrs(s, addrs).no_duplicates(),
        s.len() <= with_addrs(s, addrs).len() <= s.len() + addrs.len(),
        forall|a: SocketAddr| #[trigger]
            with_addrs(s, addrs).contains(a) <==> s.contains(a) || addrs.contains(a),
    decreases addrs.len(),
{
    if addrs.len() > 0 {
        let rest = with_addrs(s, addrs.drop_last());
        let x = addrs.last();
        lemma_with_addrs(s, addrs.drop_last());
        let r = with_addrs(s, addrs);
        assert forall|a: SocketAddr| #[trigger] r.contains(a) <==> s.contains(a) || addrs.contains(
            a,
        ) by {
            if r.contains(a) {
                let i = choose|i: int| 0 <= i < r.len() && r[i] == a;
                if i < rest.len() {
                    assert(rest[i] == a);
                    assert(rest.contains(a));
                    if addrs.drop_last().contains(a) {
                        let j = choose|j: int|
                            0 <= j < addrs.drop_last().len() && addrs.drop_last()[j] == a;
                        assert(addrs[j] == a);
                    }
                } else {
                    assert(a == x);
                    assert(addrs[addrs.len() - 1] == a);
                }
            }
            if rest.contains(a) {
                let i = choose|i: int| 0 <= i < rest.len() && rest[i] == a;
                assert(r[i] == a);
            }
            if addrs.contains(a) {
                let j = choose|j: int| 0 <= j < addrs.len() && addrs[j] == a;
                if j < addrs.len() - 1 {
                    assert(addrs.drop_last()[j] == a);
                    assert(rest.contains(a));
                } else {
                    if rest.contains(x) {
                    } else {
                        assert(r[r.len() - 1] == a);
                    }
                }
            }
        }
    } else {
        assert(forall|a: SocketAddr| !addrs.contains(a));
    }
}

/// A set of socket addresses.
pub struct AddrSet {
    items: Vec<SocketAddr>,
}

impl View for AddrSet {
    type V = Seq<SocketAddr>;

    closed spec fn view(&self) -> Seq<SocketAddr> {
        self.items@
    }
}

impl AddrSet {
    #[verifier::type_invariant]
    spec fn distinct(&self) -> bool {
        self.items@.no_duplicates()
    }

    /// The empty set.
    pub fn new() -> (r: AddrSet)
        ensures
            r@ == Seq::<SocketAddr>::empty(),
    {
        AddrSet { items: Vec::new() }
    }

    /// The number of addresses.
    pub fn len(&self) -> (r: usize)
        ensures
            r == self@.len(),
            self@.no_duplicates(),
    {
        proof {
            use_type_invariant(self);
        }
        self.items.len()
    }

    /// The address at position `i`.
    pub fn at(&self, i: usize) -> (r: SocketAddr)
        requires
            i < self@.len(),
        ensures
            r == self@[i as int],
    {
        self.items[i]
    }

    /// Whether an address is in the set.
    pub fn contains(&self, a: &SocketAddr) -> (r: bool)
        ensures
            r == self@.contains(*a),
    {
        let mut i: usize = 0;
        while i < self.items.len()
            invariant
                i <= self.items@.len(),
                forall|j: int| 0 <= j < i ==> #[trigger] self.items@[j] != *a,
            decreases self.items@.len() - i,
        {
            if self.items[i].same(a) {
                assert(self.items@[i as int] == *a);
                return true;
            }
            i += 1;
        }
        false
    }

    /// Adds an address. Returns whether it was new.
    pub fn insert(&mut self, a: SocketAddr) -> (r: bool)
        ensures
            final(self)@ == with_addr(old(self)@, a),
            r == !old(self)@.contains(a),
    {
        if self.contains(&a) {
            return false;
        }
        proof {
            use_type_invariant(&*self);
        }
        let mut items: Vec<SocketAddr> = Vec::new();
        std::mem::swap(&mut items, &mut self.items);
        let ghost before = items@;
        items.push(a);
        assert(items@.no_duplicates()) by {
            assert forall|i: int, j: int| 0 <= i < j < items@.len() implies items@[i] != items@[j] by {
                assert(items@[i] == before[i]);
                if j == before.len() {
                    assert(!before.contains(a));
                } else {
                    assert(items@[j] == before[j]);
                }
            }
        }
        self.items = items;
        true
    }

    /// Adds several addresses.
    pub fn insert_all(&mut self, addrs: &Vec<SocketAddr>)
        ensures
            final(self)@ == with_addrs(old(self)@, addrs@),
    {
        let mut i: usize = 0;
        assert(with_addrs(self@, addrs@.take(0)) == self@);
        while i < addrs.len()
            invariant
                i <= addrs@.len(),
                self@ == with_addrs(old(self)@, addrs@.take(i as int)),
            decreases addrs@.len() - i,
        {
            let _ = self.insert(addrs[i]);
            i += 1;
            assert(addrs@.take(i as int).drop_last() =~= addrs@.take(i - 1));
        }
        assert(addrs@.take(i as int) =~= addrs@);
    }
}

impl HasRank for SocketAddr {
    open spec fn rank(&self) -> int {
        addr_rank(*self)
    }
}

impl Ranked for SocketAddr {
    fn rank_le(&self, other: &Self) -> (r: bool) {
        addr_le(self, other)
    }
}

/// Whether addresses ascend, none of them twice.
pub open spec fn ascends(s: Seq<SocketAddr>) -> bool {
    forall|i: int, j: int|
        #![trigger s[i], s[j]]
        0 <= i < j < s.len() ==> addr_rank(s[i]) < addr_rank(s[j])
}

/// Whether `out` holds the addresses of `s` in ascending order, each once.
pub open spec fn is_sorted_set(s: Seq<SocketAddr>, out: Seq<SocketAddr>) -> bool {
    &&& ascends(out)
    &&& forall|a: SocketAddr| #[trigger] out.contains(a) <==> s.contains(a)
}

/// Lists that hold the same addresses in ascending order are equal.
pub proof fn law_sorted_set_is_unique(s: Seq<SocketAddr>, a: Seq<SocketAddr>, b: Seq<SocketAddr>)
    requires
        is_sorted_set(s, a),
        is_sorted_set(s, b),
    ensures
        a == b,
    decreases a.len(),
{
    if a.len() == 0 || b.len() == 0 {
        if a.len() > 0 {
            assert(a.contains(a[0]));
            assert(b.contains(a[0]));
        }
        if b.len() > 0 {
            assert(b.contains(b[0]));
            assert(a.contains(b[0]));
        }
        assert(a =~= b);
    } else {
        let x = a.last();
        let y = b.last();
        assert(a.contains(x) && b.contains(y));
        assert(b.contains(x) && a.contains(y));
        let i = choose|i: int| 0 <= i < b.len() && b[i] == x;
        let j = choose|j: int| 0 <= j < a.len() && a[j] == y;
        if i < b.len() - 1 {
            assert(addr_rank(b[i]) < addr_rank(b[b.len() - 1]));
        }
        if j < a.len() - 1 {
            assert(addr_rank(a[j]) < addr_rank(a[a.len() - 1]));
        }
        assert(x == y);
        let a0 = a.drop_last();
        let b0 = b.drop_last();
        assert(ascends(a0));
        assert(ascends(b0));
        assert forall|c: SocketAddr| #[trigger] b0.contains(c) <==> a0.contains(c) by {
            if a0.contains(c) {
                let k = choose|k: int| 0 <= k < a0.len() && a0[k] == c;
                assert(a[k] == c);
                assert(a.contains(c));
                assert(s.contains(c));
                assert(b.contains(c));
                assert(addr_rank(a[k]) < addr_rank(a[a.len() - 1]));
                let m = choose|m: int| 0 <= m < b.len() && b[m] == c;
                assert(b0[m] == c);
            }
            if b0.contains(c) {
                let k = choose|k: int| 0 <= k < b0.len() && b0[k] == c;
                assert(b[k] == c);
                assert(b.contains(c));
                assert(s.contains(c));
                assert(a.contains(c));
                assert(addr_rank(b[k]) < addr_rank(b[b.len() - 1]));
                let m = choose|m: int| 0 <= m < a.len() && a[m] == c;
                assert(a0[m] == c);
            }
        }
        law_sorted_set_is_unique(a0, a0, b0);
        assert(a =~= a0.push(x));
        assert(b =~= b0.push(y));
    }
}

/// The addresses of `s` in ascending order, each once. `law_sorted_set_is_unique` shows that there is
/// only one such list.
pub open spec fn sorted_set_of(s: Seq<SocketAddr>) -> Seq<SocketAddr> {
    choose|out: Seq<SocketAddr>| is_sorted_set(s, out)
}

/// The addresses in ascending order, each once.
pub fn sorted_set(addrs: Vec<SocketAddr>) -> (r: Vec<SocketAddr>)
    ensures
        is_sorted_set(addrs@, r@),
        r@ == sorted_set_of(addrs@),
        r@.len() <= addrs@.len(),
{
    let sorted: Vec<SocketAddr> = stable_sort(addrs);
    proof {
        vstd::seq_lib::to_multiset_len(addrs@);
        vstd::seq_lib::to_multiset_len(sorted@);
        assert forall|a: SocketAddr| #[trigger] sorted@.contains(a) <==> addrs@.contains(a) by {
            vstd::seq_lib::to_multiset_contains(addrs@, a);
            vstd::seq_lib::to_multiset_contains(sorted@, a);
        }
    }
    let mut out: Vec<SocketAddr> = Vec::new();
    let mut i: usize = 0;
    while i < sorted.len()
        invariant
            i <= sorted@.len(),
            is_ranked(sorted@),
            out@.len() <= i,
            ascends(out@),
            out@.len() == 0 <==> i == 0,
            i > 0 ==> out@.last() == sorted@[i - 1],
            forall|j: int| 0 <= j < i ==> out@.contains(#[trigger] sorted@[j]),
            forall|k: int| 0 <= k < out@.len() ==> sorted@.contains(#[trigger] out@[k]),
        decreases sorted@.len() - i,
    {
        let ghost before = out@;
        let fresh: bool = if i == 0 {
            true
        } else {
            !sorted[i].same(&sorted[i - 1])
        };
        if fresh {
            out.push(sorted[i]);
            proof {
                if i > 0 {
                    assert(sorted@[i - 1].rank() <= sorted@[i as int].rank());
                    if addr_rank(sorted@[i - 1]) == addr_rank(sorted@[i as int]) {
                        lemma_addr_rank_injective(sorted@[i - 1], sorted@[i as int]);
                    }
                }
                assert forall|a: int, b: int|
                    #![trigger out@[a], out@[b]]
                    0 <= a < b < out@.len() implies addr_rank(out@[a]) < addr_rank(out@[b]) by {
                    if b == before.len() && a < b - 1 {
                        assert(addr_rank(before[a]) < addr_rank(before[b - 1]));
                    }
                }
            }
        }
        proof {
            assert forall|j: int| 0 <= j < i + 1 implies out@.contains(#[trigger] sorted@[j]) by {
                if j < i {
                    let k = choose|k: int| 0 <= k < before.len() && before[k] == sorted@[j];
                    assert(out@[k] == sorted@[j]);
                } else {
                    assert(out@[out@.len() - 1] == sorted@[j]);
                }
            }
            assert forall|k: int| 0 <= k < out@.len() implies sorted@.contains(#[trigger] out@[k]) by {
                if k < before.len() {
                    assert(before[k] == out@[k]);
                } else {
                    assert(sorted@[i as int] == out@[k]);
                }
            }
        }
        i += 1;
    }
    proof {
        assert forall|a: SocketAddr| #[trigger] out@.contains(a) <==> addrs@.contains(a) by {
            if out@.contains(a) {
                let k = choose|k: int| 0 <= k < out@.len() && out@[k] == a;
                assert(sorted@.contains(out@[k]));
            }
            if addrs@.contains(a) {
                assert(sorted@.contains(a));
                let j = choose|j: int| 0 <= j < sorted@.len() && sorted@[j] == a;
                assert(out@.contains(sorted@[j]));
            }
        }
    }
    proof {
        law_sorted_set_is_unique(addrs@, out@, sorted_set_of(addrs@));
    }
    out
}

} // verus!
