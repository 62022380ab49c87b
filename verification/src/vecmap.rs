//! A map kept as a list of entries with distinct keys.

use crate::bytes::{same_array, same_text};
use crate::net::{IpAddr, SocketAddr};
use vstd::prelude::*;

verus! {

/// A key that can be compared; keys with one view are one key.
pub trait MapKey: View + Sized {
    /// Whether two keys are the same.
    fn same_key(&self, other: &Self) -> (r: bool)
        ensures
            r == (self@ == other@),
    ;
}

impl MapKey for [u8; 20] {
    fn same_key(&self, other: &Self) -> (r: bool) {
        let r: bool = same_array(self, other);
        assert(self@ =~= other@ ==> *self =~= *other);
        r
    }
}

impl MapKey for u64 {
    fn same_key(&self, other: &Self) -> (r: bool) {
        *self == *other
    }
}

impl MapKey for String {
    fn same_key(&self, other: &Self) -> (r: bool) {
        same_text(self.as_str(), other.as_str())
    }
}

impl View for IpAddr {
    type V = IpAddr;

    open spec fn view(&self) -> IpAddr {
        *self
    }
}

impl MapKey for IpAddr {
    fn same_key(&self, other: &Self) -> (r: bool) {
        self.same(other)
    }
}

impl View for SocketAddr {
    type V = SocketAddr;

    open spec fn view(&self) -> SocketAddr {
        *self
    }
}

impl MapKey for SocketAddr {
    fn same_key(&self, other: &Self) -> (r: bool) {
        self.same(other)
    }
}

/// The map that a list of entries stands for.
pub open spec fn map_of<K: View, V>(s: Seq<(K, V)>) -> Map<K::V, V>
    decreases s.len(),
{
    if s.len() == 0 {
        Map::empty()
    } else {
        map_of(s.drop_last()).insert(s.last().0@, s.last().1)
    }
}

/// No two entries have one key.
pub open spec fn distinct_keys<K: View, V>(s: Seq<(K, V)>) -> bool {
    forall|i: int, j: int|
        #![trigger s[i], s[j]]
        0 <= i < j < s.len() ==> s[i].0@ != s[j].0@
}

/// A map is finite, has as many keys as the list has entries, and every entry is in it.
pub proof fn lemma_map_of<K: View, V>(s: Seq<(K, V)>)
    requires
        distinct_keys(s),
    ensures
        map_of(s).dom().finite(),
        map_of(s).len() == s.len(),
        forall|i: int|
            0 <= i < s.len() ==> map_of(s).contains_key((#[trigger] s[i]).0@) && map_of(s)[s[i].0@]
                == s[i].1,
        forall|k: K::V| #[trigger]
            map_of(s).contains_key(k) ==> exists|i: int| 0 <= i < s.len() && (#[trigger] s[i]).0@ == k,
    decreases s.len(),
{
    if s.len() > 0 {
        let rest = s.drop_last();
        let k0 = s.last().0@;
        lemma_map_of(rest);
        if map_of(rest).contains_key(k0) {
            let i = choose|i: int| 0 <= i < rest.len() && (#[trigger] rest[i]).0@ == k0;
            assert(s[i].0@ == s[s.len() - 1].0@);
        }
        assert forall|i: int| 0 <= i < s.len() implies map_of(s).contains_key((#[trigger] s[i]).0@)
            && map_of(s)[s[i].0@] == s[i].1 by {
            if i < rest.len() {
                assert(rest[i] == s[i]);
                assert(s[i].0@ != s[s.len() - 1].0@);
            }
        }
        assert forall|k: K::V| #[trigger] map_of(s).contains_key(k) implies exists|i: int|
            0 <= i < s.len() && (#[trigger] s[i]).0@ == k by {
            if k == k0 {
                assert(s[s.len() - 1].0@ == k);
            } else {
                assert(map_of(rest).contains_key(k));
                let i = choose|i: int| 0 <= i < rest.len() && (#[trigger] rest[i]).0@ == k;
                assert(s[i].0@ == k);
            }
        }
    }
}

/// Lists with distinct keys and the same entries stand for one map.
proof fn lemma_map_ext<K: View, V>(s: Seq<(K, V)>, m: Map<K::V, V>)
    requires
        distinct_keys(s),
        forall|i: int|
            0 <= i < s.len() ==> m.contains_key((#[trigger] s[i]).0@) && m[s[i].0@] == s[i].1,
        forall|k: K::V| #[trigger]
            m.contains_key(k) ==> exists|i: int| 0 <= i < s.len() && (#[trigger] s[i]).0@ == k,
    ensures
        map_of(s) == m,
{
    lemma_map_of(s);
    let t = map_of(s);
    assert forall|k: K::V| t.contains_key(k) <==> m.contains_key(k) by {
        if t.contains_key(k) {
            let i = choose|i: int| 0 <= i < s.len() && (#[trigger] s[i]).0@ == k;
        }
        if m.contains_key(k) {
            let i = choose|i: int| 0 <= i < s.len() && (#[trigger] s[i]).0@ == k;
        }
    }
    assert forall|k: K::V| t.contains_key(k) implies t[k] == m[k] by {
        let i = choose|i: int| 0 <= i < s.len() && (#[trigger] s[i]).0@ == k;
    }
    assert(t =~= m);
}

/// The sum of `f` over the values of a finite map.
pub open spec fn weight<K, V>(m: Map<K, V>, f: spec_fn(V) -> nat) -> nat
    decreases m.len(),
    when m.dom().finite()
{
    if m.dom() =~= Set::empty() {
        0
    } else {
        let k = m.dom().choose();
        f(m[k]) + weight(m.remove(k), f)
    }
}

/// The sum of an empty map is zero.
pub proof fn lemma_weight_empty<K, V>(f: spec_fn(V) -> nat)
    ensures
        weight(Map::<K, V>::empty(), f) == 0,
{
}

/// A key that is taken out takes its share of the sum with it.
pub proof fn lemma_weight_remove<K, V>(m: Map<K, V>, k: K, f: spec_fn(V) -> nat)
    requires
        m.dom().finite(),
        m.contains_key(k),
    ensures
        weight(m, f) == f(m[k]) + weight(m.remove(k), f),
    decreases m.len(),
{
    let c = m.dom().choose();
    assert(m.dom().contains(k));
    assert(!(m.dom() =~= Set::empty()));
    if c != k {
        assert(m.remove(c).dom() =~= m.dom().remove(c));
        assert(m.remove(k).dom() =~= m.dom().remove(k));
        lemma_weight_remove(m.remove(c), k, f);
        lemma_weight_remove(m.remove(k), c, f);
        assert(m.remove(c).remove(k) =~= m.remove(k).remove(c));
    }
}

/// A key that gets a value changes the sum by the difference.
pub proof fn lemma_weight_insert<K, V>(m: Map<K, V>, k: K, v: V, f: spec_fn(V) -> nat)
    requires
        m.dom().finite(),
    ensures
        weight(m.insert(k, v), f) == f(v) + weight(m.remove(k), f),
{
    assert(m.insert(k, v).dom() =~= m.dom().insert(k));
    lemma_weight_remove(m.insert(k, v), k, f);
    assert(m.insert(k, v).remove(k) =~= m.remove(k));
}

/// Maps with the same keys whose values have the same share have the same sum.
pub proof fn lemma_weight_same<K, V>(m: Map<K, V>, n: Map<K, V>, f: spec_fn(V) -> nat)
    requires
        m.dom().finite(),
        m.dom() == n.dom(),
        forall|k: K| #[trigger] m.contains_key(k) ==> f(m[k]) == f(n[k]),
    ensures
        weight(m, f) == weight(n, f),
    decreases m.len(),
{
    if !(m.dom() =~= Set::empty()) {
        let k = m.dom().choose();
        assert(m.contains_key(k));
        assert(m.remove(k).dom() =~= m.dom().remove(k));
        assert(n.remove(k).dom() =~= n.dom().remove(k));
        assert forall|x: K| #[trigger] m.remove(k).contains_key(x) implies f(m.remove(k)[x]) == f(
            n.remove(k)[x],
        ) by {
            assert(m.contains_key(x));
        }
        lemma_weight_same(m.remove(k), n.remove(k), f);
    }
}

/// A list of entries makes a finite map.
proof fn lemma_map_of_finite<K: View, V>(s: Seq<(K, V)>)
    ensures
        map_of(s).dom().finite(),
    decreases s.len(),
{
    if s.len() > 0 {
        lemma_map_of_finite(s.drop_last());
        assert(map_of(s).dom() =~= map_of(s.drop_last()).dom().insert(s.last().0@));
    }
}

/// A map kept as a list of entries with distinct keys.
pub struct VecMap<K: MapKey, V> {
    entries: Vec<(K, V)>,
}

impl<K: MapKey, V> View for VecMap<K, V> {
    type V = Map<K::V, V>;

    closed spec fn view(&self) -> Map<K::V, V> {
        map_of(self.entries@)
    }
}

impl<K: MapKey, V> VecMap<K, V> {
    /// The entries in the order in which they are kept.
    pub closed spec fn seq(&self) -> Seq<(K, V)> {
        self.entries@
    }

    #[verifier::type_invariant]
    spec fn keys_distinct(&self) -> bool {
        distinct_keys(self.entries@)
    }

    /// The map is finite.
    pub proof fn lemma_finite(&self)
        ensures
            self@.dom().finite(),
    {
        lemma_map_of_finite(self.entries@);
    }

    /// The empty map.
    pub fn new() -> (r: VecMap<K, V>)
        ensures
            r@ == Map::<K::V, V>::empty(),
    {
        VecMap { entries: Vec::new() }
    }

    /// The number of keys.
    pub fn len(&self) -> (r: usize)
        ensures
            r == self@.len(),
            r == self.seq().len(),
            self@.dom().finite(),
            self@ == map_of(self.seq()),
            distinct_keys(self.seq()),
    {
        proof {
            use_type_invariant(self);
            lemma_map_of(self.entries@);
        }
        self.entries.len()
    }

    /// The key of entry `i`.
    pub fn key_at(&self, i: usize) -> (r: &K)
        requires
            i < self.seq().len(),
        ensures
            r == self.seq()[i as int].0,
    {
        &self.entries[i].0
    }

    /// The value of entry `i`.
    pub fn value_at(&self, i: usize) -> (r: &V)
        requires
            i < self.seq().len(),
        ensures
            r == self.seq()[i as int].1,
    {
        &self.entries[i].1
    }

    fn find(&self, key: &K) -> (r: Option<usize>)
        ensures
            r matches Some(i) ==> i < self.entries@.len() && self.entries@[i as int].0@ == key@,
            r is None ==> forall|j: int|
                0 <= j < self.entries@.len() ==> (#[trigger] self.entries@[j]).0@ != key@,
    {
        let mut i: usize = 0;
        while i < self.entries.len()
            invariant
                i <= self.entries.len(),
                forall|j: int| 0 <= j < i ==> (#[trigger] self.entries@[j]).0@ != key@,
            decreases self.entries.len() - i,
        {
            if self.entries[i].0.same_key(key) {
                return Some(i);
            }
            i += 1;
        }
        None
    }

    /// Whether `key` is in the map.
    pub fn contains_key(&self, key: &K) -> (r: bool)
        ensures
            r == self@.contains_key(key@),
    {
        proof {
            use_type_invariant(self);
            lemma_map_of(self.entries@);
        }
        self.find(key).is_some()
    }

    /// The value of `key`.
    pub fn get(&self, key: &K) -> (r: Option<&V>)
        ensures
            match r {
                Some(v) => self@.contains_key(key@) && *v == self@[key@],
                None => !self@.contains_key(key@),
            },
    {
        proof {
            use_type_invariant(self);
            lemma_map_of(self.entries@);
        }
        match self.find(key) {
            Some(i) => Some(&self.entries[i].1),
            None => None,
        }
    }

    /// Gives `key` the value `value`.
    pub fn insert(&mut self, key: K, value: V)
        ensures
            final(self)@ == old(self)@.insert(key@, value),
    {
        proof {
            use_type_invariant(&*self);
            lemma_map_of(self.entries@);
        }
        let ghost before = self.entries@;
        let ghost m = map_of(before);
        let found: Option<usize> = self.find(&key);
        let mut entries: Vec<(K, V)> = Vec::new();
        std::mem::swap(&mut entries, &mut self.entries);
        match found {
            Some(i) => {
                let ghost kv = (key@, value);
                entries.set(i, (key, value));
                proof {
                    let after = entries@;
                    assert forall|a: int, b: int|
                        #![trigger after[a], after[b]]
                        0 <= a < b < after.len() implies after[a].0@ != after[b].0@ by {
                        assert(before[a].0@ != before[b].0@);
                    }
                    let target = m.insert(kv.0, kv.1);
                    assert forall|a: int| 0 <= a < after.len() implies target.contains_key(
                        (#[trigger] after[a]).0@,
                    ) && target[after[a].0@] == after[a].1 by {
                        if a != i {
                            assert(before[a].0@ != before[i as int].0@);
                        }
                    }
                    assert forall|k: K::V| #[trigger] target.contains_key(k) implies exists|a: int|
                        0 <= a < after.len() && (#[trigger] after[a]).0@ == k by {
                        if k == kv.0 {
                            assert(after[i as int].0@ == k);
                        } else {
                            assert(m.contains_key(k));
                            let a = choose|a: int|
                                0 <= a < before.len() && (#[trigger] before[a]).0@ == k;
                            assert(after[a].0@ == k);
                        }
                    }
                    lemma_map_ext(after, target);
                }
            },
            None => {
                entries.push((key, value));
                proof {
                    assert(entries@.drop_last() =~= before);
                    assert(entries@.last() == (key, value));
                }
            },
        }
        self.entries = entries;
    }

    /// Gives the key of entry `i` another value.
    pub fn set_value_at(&mut self, i: usize, value: V)
        requires
            i < old(self).seq().len(),
        ensures
            final(self).seq() == old(self).seq().update(
                i as int,
                (old(self).seq()[i as int].0, value),
            ),
            final(self)@ == old(self)@.insert(old(self).seq()[i as int].0@, value),
    {
        proof {
            use_type_invariant(&*self);
            lemma_map_of(self.entries@);
        }
        let ghost before = self.entries@;
        let ghost key = before[i as int].0;
        let mut entries: Vec<(K, V)> = Vec::new();
        std::mem::swap(&mut entries, &mut self.entries);
        entries[i].1 = value;
        proof {
            let after = entries@;
            let target = map_of(before).insert(key@, value);
            assert forall|a: int, b: int|
                #![trigger after[a], after[b]]
                0 <= a < b < after.len() implies after[a].0@ != after[b].0@ by {
                assert(before[a].0@ != before[b].0@);
            }
            assert forall|a: int| 0 <= a < after.len() implies target.contains_key(
                (#[trigger] after[a]).0@,
            ) && target[after[a].0@] == after[a].1 by {
                if a < i {
                    assert(before[a].0@ != before[i as int].0@);
                } else if a > i {
                    assert(before[i as int].0@ != before[a].0@);
                }
            }
            assert forall|k: K::V| #[trigger] target.contains_key(k) implies exists|a: int|
                0 <= a < after.len() && (#[trigger] after[a]).0@ == k by {
                if k == key@ {
                    assert(after[i as int].0@ == k);
                } else {
                    assert(map_of(before).contains_key(k));
                    let a = choose|a: int| 0 <= a < before.len() && (#[trigger] before[a]).0@ == k;
                    assert(after[a].0@ == k);
                }
            }
            lemma_map_ext(after, target);
        }
        self.entries = entries;
    }

    /// Takes `key` out and returns its value.
    pub fn remove(&mut self, key: &K) -> (r: Option<V>)
        ensures
            final(self)@ == old(self)@.remove(key@),
            match r {
                Some(v) => old(self)@.contains_key(key@) && v == old(self)@[key@],
                None => !old(self)@.contains_key(key@),
            },
    {
        proof {
            use_type_invariant(&*self);
            lemma_map_of(self.entries@);
        }
        let ghost before = self.entries@;
        let ghost m = map_of(before);
        let found: Option<usize> = self.find(key);
        match found {
            Some(i) => {
                let mut entries: Vec<(K, V)> = Vec::new();
                std::mem::swap(&mut entries, &mut self.entries);
                let (_, value): (K, V) = entries.remove(i);
                proof {
                    let after = entries@;
                    before.remove_ensures(i as int);
                    assert forall|a: int, b: int|
                        #![trigger after[a], after[b]]
                        0 <= a < b < after.len() implies after[a].0@ != after[b].0@ by {
                        let p = if a < i {
                            a
                        } else {
                            a + 1
                        };
                        let q = if b < i {
                            b
                        } else {
                            b + 1
                        };
                        assert(before[p].0@ != before[q].0@);
                    }
                    let target = m.remove(key@);
                    assert forall|a: int| 0 <= a < after.len() implies target.contains_key(
                        (#[trigger] after[a]).0@,
                    ) && target[after[a].0@] == after[a].1 by {
                        let p = if a < i {
                            a
                        } else {
                            a + 1
                        };
                        assert(after[a] == before[p]);
                        assert(before[p].0@ != before[i as int].0@);
                    }
                    assert forall|k: K::V| #[trigger] target.contains_key(k) implies exists|a: int|
                        0 <= a < after.len() && (#[trigger] after[a]).0@ == k by {
                        assert(m.contains_key(k));
                        let p = choose|p: int|
                            0 <= p < before.len() && (#[trigger] before[p]).0@ == k;
                        let a = if p < i {
                            p
                        } else {
                            p - 1
                        };
                        assert(after[a] == before[p]);
                    }
                    lemma_map_ext(after, target);
                }
                self.entries = entries;
                Some(value)
            },
            None => {
                assert(m.remove(key@) =~= m);
                None
            },
        }
    }

    /// Takes some entry out. `None` if the map is empty.
    pub fn pop(&mut self) -> (r: Option<(K, V)>)
        ensures
            match r {
                Some(kv) => {
                    &&& old(self)@.contains_key(kv.0@)
                    &&& old(self)@[kv.0@] == kv.1
                    &&& final(self)@ == old(self)@.remove(kv.0@)
                    &&& old(self)@ == final(self)@.insert(kv.0@, kv.1)
                    &&& final(self)@.len() + 1 == old(self)@.len()
                },
                None => old(self)@ == Map::<K::V, V>::empty() && final(self)@ == old(self)@,
            },
            old(self)@.dom().finite(),
            final(self)@.dom().finite(),
    {
        proof {
            use_type_invariant(&*self);
            lemma_map_of(self.entries@);
        }
        let ghost before = self.entries@;
        let mut entries: Vec<(K, V)> = Vec::new();
        std::mem::swap(&mut entries, &mut self.entries);
        let r: Option<(K, V)> = entries.pop();
        proof {
            if before.len() > 0 {
                let rest = before.drop_last();
                assert(entries@ =~= rest);
                assert(distinct_keys(rest));
                lemma_map_of(rest);
                let k = before.last().0@;
                assert(!map_of(rest).contains_key(k)) by {
                    if map_of(rest).contains_key(k) {
                        let i = choose|i: int| 0 <= i < rest.len() && (#[trigger] rest[i]).0@ == k;
                        assert(before[i].0@ != before[before.len() - 1].0@);
                    }
                }
                assert(map_of(before).remove(k) =~= map_of(rest));
            }
        }
        self.entries = entries;
        r
    }

    /// Drops the entries whose flag in `keep` is not set.
    pub fn retain(&mut self, keep: &Vec<bool>)
        requires
            keep@.len() == old(self).seq().len(),
        ensures
            final(self).seq() == kept(old(self).seq(), keep@),
            final(self)@.dom().finite(),
            old(self)@.dom().finite(),
            final(self)@.len() <= old(self)@.len(),
            forall|k: K::V| #[trigger]
                final(self)@.contains_key(k) ==> old(self)@.contains_key(k) && final(self)@[k]
                    == old(self)@[k],
            forall|i: int|
                0 <= i < keep@.len() ==> final(self)@.contains_key(
                    (#[trigger] old(self).seq()[i]).0@,
                ) == keep@[i],
    {
        proof {
            use_type_invariant(&*self);
            lemma_map_of(self.entries@);
        }
        let ghost before = self.entries@;
        let mut entries: Vec<(K, V)> = Vec::new();
        std::mem::swap(&mut entries, &mut self.entries);
        let mut reversed: Vec<(K, V)> = Vec::new();
        proof {
            assert(before.take(before.len() as int) =~= before);
            assert(keep@.take(keep@.len() as int) =~= keep@);
            assert(reversed@.reverse() =~= Seq::empty());
            assert(kept(before, keep@) + Seq::empty() =~= kept(before, keep@));
        }
        while entries.len() > 0
            invariant
                keep@.len() == before.len(),
                entries@.len() <= before.len(),
                entries@ == before.take(entries@.len() as int),
                kept(before, keep@) == kept(entries@, keep@.take(entries@.len() as int))
                    + reversed@.reverse(),
            decreases entries@.len(),
        {
            let n: usize = entries.len();
            let ghost rest = before.take(n - 1);
            let ghost flags = keep@.take(n as int);
            let ghost tail = reversed@;
            let ghost last = before[n - 1];
            proof {
                assert(entries@.drop_last() =~= rest);
                assert(entries@.last() == last);
                assert(flags.drop_last() =~= keep@.take(n - 1));
                assert(flags.last() == keep@[n - 1]);
            }
            match entries.pop() {
                Some(e) => {
                    if keep[n - 1] {
                        reversed.push(e);
                        proof {
                            assert(reversed@.reverse() =~= seq![last] + tail.reverse());
                            assert(kept(rest, keep@.take(n - 1)).push(last) + tail.reverse() =~= kept(
                                rest,
                                keep@.take(n - 1),
                            ) + reversed@.reverse());
                        }
                    }
                },
                None => {},
            }
        }
        let mut out: Vec<(K, V)> = Vec::new();
        let ghost all = reversed@;
        proof {
            assert(kept(before, keep@) =~= all.reverse());
            assert(all.take(all.len() as int) =~= all);
        }
        while reversed.len() > 0
            invariant
                reversed@.len() <= all.len(),
                reversed@ == all.take(reversed@.len() as int),
                out@ == all.reverse().take(all.len() - reversed@.len()),
            decreases reversed@.len(),
        {
            let ghost n = reversed@.len();
            match reversed.pop() {
                Some(e) => {
                    out.push(e);
                    assert(reversed@ =~= all.take(n - 1));
                    assert(out@ =~= all.reverse().take(all.len() - n + 1));
                },
                None => {},
            }
        }
        proof {
            assert(out@ =~= kept(before, keep@));
            lemma_kept(before, keep@);
            lemma_kept_map(before, keep@);
            lemma_map_of(out@);
        }
        self.entries = out;
    }
}

/// The entries whose flag is set.
pub open spec fn kept<T>(s: Seq<T>, keep: Seq<bool>) -> Seq<T>
    decreases s.len(),
{
    if s.len() == 0 {
        Seq::empty()
    } else if keep.last() {
        kept(s.drop_last(), keep.drop_last()).push(s.last())
    } else {
        kept(s.drop_last(), keep.drop_last())
    }
}

/// What is kept comes from the list, in its order, and is all that has its flag set.
proof fn lemma_kept<K: View, V>(s: Seq<(K, V)>, keep: Seq<bool>)
    requires
        keep.len() == s.len(),
        distinct_keys(s),
    ensures
        kept(s, keep).len() <= s.len(),
        distinct_keys(kept(s, keep)),
        forall|a: int|
            0 <= a < kept(s, keep).len() ==> exists|j: int|
                0 <= j < s.len() && keep[j] && #[trigger] s[j] == #[trigger] kept(s, keep)[a],
        forall|j: int|
            0 <= j < s.len() && keep[j] ==> exists|a: int|
                0 <= a < kept(s, keep).len() && #[trigger] kept(s, keep)[a] == #[trigger] s[j],
    decreases s.len(),
{
    if s.len() > 0 {
        let s0 = s.drop_last();
        let k0 = keep.drop_last();
        let rest = kept(s0, k0);
        let r = kept(s, keep);
        lemma_kept(s0, k0);
        assert forall|a: int| 0 <= a < r.len() implies exists|j: int|
            0 <= j < s.len() && keep[j] && #[trigger] s[j] == #[trigger] r[a] by {
            if a < rest.len() {
                assert(r[a] == rest[a]);
                let j = choose|j: int| 0 <= j < s0.len() && k0[j] && #[trigger] s0[j] == rest[a];
                assert(s[j] == r[a]);
            } else {
                assert(s[s.len() - 1] == r[a]);
            }
        }
        assert forall|j: int| 0 <= j < s.len() && keep[j] implies exists|a: int|
            0 <= a < r.len() && #[trigger] r[a] == #[trigger] s[j] by {
            if j < s0.len() {
                assert(k0[j]);
                assert(s0[j] == s[j]);
                let a = choose|a: int| 0 <= a < rest.len() && #[trigger] rest[a] == s0[j];
                assert(r[a] == s[j]);
            } else {
                assert(r[r.len() - 1] == s[j]);
            }
        }
        assert forall|a: int, b: int|
            #![trigger r[a], r[b]]
            0 <= a < b < r.len() implies r[a].0@ != r[b].0@ by {
            if b < rest.len() {
                assert(r[a] == rest[a] && r[b] == rest[b]);
            } else {
                assert(r[a] == rest[a]);
                let j = choose|j: int| 0 <= j < s0.len() && k0[j] && #[trigger] s0[j] == rest[a];
                assert(s[j].0@ != s[s.len() - 1].0@);
            }
        }
    }
}

/// The map of what is kept has the keys whose flag is set, with their values.
proof fn lemma_kept_map<K: View, V>(before: Seq<(K, V)>, keep: Seq<bool>)
    requires
        keep.len() == before.len(),
        distinct_keys(before),
    ensures
        forall|k: K::V| #[trigger]
            map_of(kept(before, keep)).contains_key(k) ==> map_of(before).contains_key(k) && map_of(
                kept(before, keep),
            )[k] == map_of(before)[k],
        forall|i: int|
            0 <= i < keep.len() ==> map_of(kept(before, keep)).contains_key(
                (#[trigger] before[i]).0@,
            ) == keep[i],
{
    let out = kept(before, keep);
    lemma_kept(before, keep);
    lemma_map_of(before);
    lemma_map_of(out);
    assert forall|k: K::V| #[trigger] map_of(out).contains_key(k) implies map_of(
        before,
    ).contains_key(k) && map_of(out)[k] == map_of(before)[k] by {
        let i = choose|i: int| 0 <= i < out.len() && (#[trigger] out[i]).0@ == k;
        let j = choose|j: int| 0 <= j < before.len() && keep[j] && #[trigger] before[j] == out[i];
        assert(before[j].0@ == k);
    }
    assert forall|i: int| 0 <= i < keep.len() implies map_of(out).contains_key(
        (#[trigger] before[i]).0@,
    ) == keep[i] by {
        if keep[i] {
            let a = choose|a: int| 0 <= a < out.len() && #[trigger] out[a] == before[i];
            assert(map_of(out).contains_key(out[a].0@));
        } else if map_of(out).contains_key(before[i].0@) {
            let a = choose|a: int|
                0 <= a < out.len() && (#[trigger] out[a]).0@ == before[i].0@;
            let j = choose|j: int|
                0 <= j < before.len() && keep[j] && #[trigger] before[j] == out[a];
            if i < j {
                assert(before[i].0@ != before[j].0@);
            } else {
                assert(before[j].0@ != before[i].0@);
            }
        }
    }
}

} // verus!
