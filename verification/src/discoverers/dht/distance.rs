//! The XOR metric on 20-byte identifiers, and the identifiers closest to a target.

use crate::bytes::{be_value, bytes_less, law_first_difference_decides, lemma_be_value_injective};
use crate::seqs::at_most;
use crate::sort::{is_stable_sort, lemma_stable_sort_exists, stable_sort, stable_sorted, HasRank, Ranked};
use vstd::prelude::*;

verus! {

/// The bytewise exclusive or of two identifiers.
pub open spec fn xor_bytes(a: Seq<u8>, b: Seq<u8>) -> Seq<u8> {
    Seq::new(20, |i: int| a[i] ^ b[i])
}

/// The XOR distance of two identifiers, as a number.
pub open spec fn distance(a: [u8; 20], b: [u8; 20]) -> nat {
    be_value(xor_bytes(a@, b@))
}

/// Bit `i` of a byte string, counted from the most significant bit of the first byte.
pub open spec fn bit_at(s: Seq<u8>, i: int) -> bool {
    (s[i / 8] >> ((7 - i % 8) as u8)) & 1u8 == 1u8
}

/// How many bits from bit `i` on agree before the first one that differs.
pub open spec fn agreement_from(a: Seq<u8>, b: Seq<u8>, i: int) -> nat
    decreases 160 - i,
{
    if i >= 160 || bit_at(a, i) != bit_at(b, i) {
        0
    } else {
        1 + agreement_from(a, b, i + 1)
    }
}

/// The number of leading bits on which two identifiers agree.
pub open spec fn common_prefix(a: [u8; 20], b: [u8; 20]) -> nat {
    agreement_from(a@, b@, 0)
}

proof fn lemma_agreement(a: Seq<u8>, b: Seq<u8>, i: int, n: int)
    requires
        0 <= i <= n <= 160,
        forall|j: int| i <= j < n ==> bit_at(a, j) == bit_at(b, j),
        n < 160 ==> bit_at(a, n) != bit_at(b, n),
    ensures
        agreement_from(a, b, i) == n - i,
    decreases n - i,
{
    if i < n {
        assert(bit_at(a, i) == bit_at(b, i));
        lemma_agreement(a, b, i + 1, n);
    }
}

/// The common prefix is at most 160 bits long.
pub proof fn lemma_agreement_bound(a: Seq<u8>, b: Seq<u8>, i: int)
    requires
        0 <= i <= 160,
    ensures
        agreement_from(a, b, i) <= 160 - i,
    decreases 160 - i,
{
    if i < 160 {
        lemma_agreement_bound(a, b, i + 1);
    }
}

/// An identifier agrees with itself on all 160 bits.
pub proof fn lemma_common_prefix_of_self(a: [u8; 20])
    ensures
        common_prefix(a, a) == 160,
{
    lemma_agreement(a@, a@, 0, 160);
}

/// The first `common_prefix` bits agree, and the bit after them differs.
pub proof fn lemma_common_prefix_bits(a: Seq<u8>, b: Seq<u8>, i: int)
    requires
        0 <= i <= 160,
    ensures
        forall|j: int|
            i <= j < i + agreement_from(a, b, i) ==> #[trigger] bit_at(a, j) == bit_at(b, j),
        i + agreement_from(a, b, i) < 160 ==> bit_at(a, i + agreement_from(a, b, i)) != bit_at(
            b,
            i + agreement_from(a, b, i),
        ),
    decreases 160 - i,
{
    if i < 160 && bit_at(a, i) == bit_at(b, i) {
        lemma_common_prefix_bits(a, b, i + 1);
    }
}

/// The bytewise exclusive or of two identifiers.
pub fn xor_distance(a: &[u8; 20], b: &[u8; 20]) -> (r: [u8; 20])
    ensures
        r@ == xor_bytes(a@, b@),
{
    let mut result: [u8; 20] = [0u8; 20];
    let mut i: usize = 0;
    while i < 20
        invariant
            i <= 20,
            forall|j: int| 0 <= j < i ==> result[j] == a[j] ^ b[j],
        decreases 20 - i,
    {
        result[i] = a[i] ^ b[i];
        i += 1;
    }
    assert(result@ =~= xor_bytes(a@, b@));
    result
}

/// Whether distance `a` is the smaller one, both read as big-endian numbers.
pub fn distance_less(a: &[u8; 20], b: &[u8; 20]) -> (r: bool)
    ensures
        r == (be_value(a@) < be_value(b@)),
{
    bytes_less(a.as_slice(), b.as_slice())
}

proof fn lemma_equal_byte(a: Seq<u8>, b: Seq<u8>, k: int)
    requires
        0 <= k < 20,
        a[k] ^ b[k] == 0u8,
    ensures
        forall|j: int| 8 * k <= j < 8 * k + 8 ==> #[trigger] bit_at(a, j) == bit_at(b, j),
{
    let x = a[k];
    let y = b[k];
    assert(x == y) by (bit_vector)
        requires
            x ^ y == 0u8,
    ;
    assert forall|j: int| 8 * k <= j < 8 * k + 8 implies #[trigger] bit_at(a, j) == bit_at(
        b,
        j,
    ) by {
        assert(j / 8 == k);
    }
}

proof fn lemma_differing_byte(a: Seq<u8>, b: Seq<u8>, k: int, z: int)
    requires
        0 <= k < 20,
        a[k] ^ b[k] != 0u8,
        z == vstd::std_specs::bits::u8_leading_zeros(a[k] ^ b[k]),
    ensures
        0 <= z < 8,
        forall|j: int| 8 * k <= j < 8 * k + z ==> #[trigger] bit_at(a, j) == bit_at(b, j),
        bit_at(a, 8 * k + z) != bit_at(b, 8 * k + z),
{
    let x = a[k];
    let y = b[k];
    let d = x ^ y;
    vstd::std_specs::bits::axiom_u8_leading_zeros(d);
    assert forall|j: int| 8 * k <= j < 8 * k + z implies #[trigger] bit_at(a, j) == bit_at(
        b,
        j,
    ) by {
        assert(j / 8 == k);
        let s = (7 - j % 8) as u8;
        assert((d >> s) & 1u8 == 0u8);
        assert((x >> s) & 1u8 == (y >> s) & 1u8) by (bit_vector)
            requires
                d == x ^ y,
                s < 8,
                (d >> s) & 1u8 == 0u8,
        ;
    }
    let s = (7 - z) as u8;
    assert((8 * k + z) / 8 == k);
    assert((8 * k + z) % 8 == z);
    assert((x >> s) & 1u8 == 1u8 <==> (y >> s) & 1u8 != 1u8) by (bit_vector)
        requires
            d == x ^ y,
            s < 8,
            (d >> s) & 1u8 != 0u8,
    ;
}

/// The number of leading bits on which two identifiers agree, 160 for equal ones.
pub fn common_prefix_len(a: &[u8; 20], b: &[u8; 20]) -> (r: usize)
    ensures
        r == common_prefix(*a, *b),
        r <= 160,
{
    let dist: [u8; 20] = xor_distance(a, b);
    let mut k: usize = 0;
    while k < 20
        invariant
            k <= 20,
            dist@ == xor_bytes(a@, b@),
            forall|j: int| 0 <= j < 8 * k ==> #[trigger] bit_at(a@, j) == bit_at(b@, j),
        decreases 20 - k,
    {
        if dist[k] != 0 {
            let zeros: usize = dist[k].leading_zeros() as usize;
            proof {
                lemma_differing_byte(a@, b@, k as int, zeros as int);
                lemma_agreement(a@, b@, 0, 8 * k + zeros);
            }
            return 8 * k + zeros;
        }
        proof {
            lemma_equal_byte(a@, b@, k as int);
        }
        k += 1;
    }
    proof {
        lemma_agreement(a@, b@, 0, 160);
    }
    160
}

/// The distance of two identifiers does not depend on their order.
pub proof fn law_distance_symmetric(a: [u8; 20], b: [u8; 20])
    ensures
        distance(a, b) == distance(b, a),
{
    assert forall|i: int| 0 <= i < 20 implies a[i] ^ b[i] == b[i] ^ a[i] by {
        let x = a[i];
        let y = b[i];
        assert(x ^ y == y ^ x) by (bit_vector);
    }
    assert(xor_bytes(a@, b@) =~= xor_bytes(b@, a@));
}

/// For a given identifier and distance there is one identifier at that distance.
pub proof fn law_distance_determines(a: [u8; 20], b: [u8; 20], c: [u8; 20])
    requires
        distance(a, b) == distance(a, c),
    ensures
        b == c,
{
    lemma_be_value_injective(xor_bytes(a@, b@), xor_bytes(a@, c@));
    assert forall|i: int| 0 <= i < 20 implies b[i] == c[i] by {
        assert(xor_bytes(a@, b@)[i] == xor_bytes(a@, c@)[i]);
        let x = a[i];
        let y = b[i];
        let z = c[i];
        assert(y == z) by (bit_vector)
            requires
                x ^ y == x ^ z,
        ;
    }
    assert(b =~= c);
}

/// Two identifiers are at distance zero exactly if they are equal.
pub proof fn law_distance_zero(a: [u8; 20], b: [u8; 20])
    ensures
        distance(a, b) == 0 <==> a == b,
{
    let zero = Seq::new(20, |i: int| 0u8);
    assert(xor_bytes(a@, a@) =~= zero) by {
        assert forall|i: int| 0 <= i < 20 implies a[i] ^ a[i] == 0u8 by {
            let x = a[i];
            assert(x ^ x == 0u8) by (bit_vector);
        }
    }
    lemma_zero_value(zero);
    if distance(a, b) == 0 {
        law_distance_determines(a, a, b);
    }
}

proof fn lemma_zero_value(s: Seq<u8>)
    requires
        forall|i: int| 0 <= i < s.len() ==> s[i] == 0u8,
    ensures
        be_value(s) == 0,
    decreases s.len(),
{
    if s.len() > 0 {
        lemma_zero_value(s.drop_last());
    }
}

/// A value that carries an identifier.
pub trait Identified: Copy {
    /// The identifier.
    spec fn ident(&self) -> [u8; 20];

    /// Reads the identifier.
    fn get_ident(&self) -> (r: [u8; 20])
        ensures
            r == self.ident(),
    ;
}

/// A value ranked by its distance to a target.
pub struct Candidate<T: Identified> {
    pub item: T,
    pub target: [u8; 20],
}

impl<T: Identified> HasRank for Candidate<T> {
    open spec fn rank(&self) -> int {
        distance(self.item.ident(), self.target) as int
    }
}

impl<T: Identified> Ranked for Candidate<T> {
    fn rank_le(&self, other: &Self) -> (r: bool) {
        let a: [u8; 20] = xor_distance(&self.item.get_ident(), &self.target);
        let b: [u8; 20] = xor_distance(&other.item.get_ident(), &other.target);
        !distance_less(&b, &a)
    }
}

/// The values of `s`, each with the target to rank it by.
pub open spec fn candidates<T: Identified>(s: Seq<T>, target: [u8; 20]) -> Seq<Candidate<T>> {
    s.map_values(|x: T| Candidate { item: x, target })
}

/// The values themselves.
pub open spec fn items<T: Identified>(s: Seq<Candidate<T>>) -> Seq<T> {
    s.map_values(|c: Candidate<T>| c.item)
}

/// The `count` values of `s` closest to `target`, nearest first, equally near ones in the order
/// of `s`.
pub open spec fn closest_of<T: Identified>(s: Seq<T>, target: [u8; 20], count: int) -> Seq<T> {
    items(stable_sorted(candidates(s, target))).take(at_most(count, s.len() as int))
}

/// The `count` values closest to `target`, nearest first.
pub fn closest<T: Identified>(v: &Vec<T>, target: &[u8; 20], count: usize) -> (r: Vec<T>)
    ensures
        r@ == closest_of(v@, *target, count as int),
{
    let mut ranked: Vec<Candidate<T>> = Vec::with_capacity(v.len());
    let mut i: usize = 0;
    while i < v.len()
        invariant
            i <= v.len(),
            ranked@ == candidates(v@.take(i as int), *target),
        decreases v.len() - i,
    {
        ranked.push(Candidate { item: v[i], target: *target });
        i += 1;
        assert(ranked@ =~= candidates(v@.take(i as int), *target));
    }
    assert(v@.take(i as int) =~= v@);
    let sorted: Vec<Candidate<T>> = stable_sort(ranked);
    proof {
        vstd::seq_lib::to_multiset_len(ranked@);
        vstd::seq_lib::to_multiset_len(sorted@);
    }
    let keep: usize = if count < sorted.len() {
        count
    } else {
        sorted.len()
    };
    let mut out: Vec<T> = Vec::with_capacity(keep);
    let mut k: usize = 0;
    while k < keep
        invariant
            k <= keep <= sorted.len(),
            out@ == items(sorted@).take(k as int),
        decreases keep - k,
    {
        out.push(sorted[k].item);
        k += 1;
        assert(out@ =~= items(sorted@).take(k as int));
    }
    out
}

/// Whether `near` are the `count` values of `s` closest to `target`: as many as asked for and available,
/// none taken more often than it is there, nearest first, and no value left out that is nearer than one
/// that was taken.
pub open spec fn are_closest<T: Identified>(
    s: Seq<T>,
    target: [u8; 20],
    count: nat,
    near: Seq<T>,
) -> bool {
    &&& near.len() == if count < s.len() {
        count
    } else {
        s.len()
    }
    &&& near.to_multiset().subset_of(s.to_multiset())
    &&& forall|i: int| 0 <= i < near.len() ==> s.contains(#[trigger] near[i])
    &&& forall|i: int, j: int|
        #![trigger near[i], near[j]]
        0 <= i <= j < near.len() ==> distance(near[i].ident(), target) <= distance(
            near[j].ident(),
            target,
        )
    &&& forall|k: int, i: int|
        #![trigger s[k], near[i]]
        0 <= k < s.len() && !near.contains(s[k]) && 0 <= i < near.len() ==> distance(
            near[i].ident(),
            target,
        ) <= distance(s[k].ident(), target)
}

/// The closest values are those that the definition of being closest asks for.
pub proof fn law_closest_values<T: Identified>(s: Seq<T>, target: [u8; 20], count: nat)
    ensures
        are_closest(s, target, count, closest_of(s, target, count as int)),
{
    law_closest(s, target, count);
    let near = closest_of(s, target, count as int);
    let c = candidates(s, target);
    lemma_stable_sort_exists(c);
    let sorted = stable_sorted(c);
    vstd::seq_lib::to_multiset_len(c);
    vstd::seq_lib::to_multiset_len(sorted);
    let all = items(sorted);
    assert(all.to_multiset() =~= s.to_multiset()) by {
        lemma_items_multiset(sorted, c);
        assert(items(c) =~= s);
    }
    let rest = all.skip(near.len() as int);
    assert(all =~= near + rest);
    vstd::seq_lib::lemma_multiset_commutative(near, rest);
    assert forall|x: T| near.to_multiset().count(x) <= s.to_multiset().count(x) by {
        assert(s.to_multiset().count(x) == near.to_multiset().count(x) + rest.to_multiset().count(x));
    }
    assert forall|k: int, i: int|
        #![trigger s[k], near[i]]
        0 <= k < s.len() && !near.contains(s[k]) && 0 <= i < near.len() implies distance(
        near[i].ident(),
        target,
    ) <= distance(s[k].ident(), target) by {
        assert(s.contains(s[k]));
    }
}

/// The values of lists that agree but for the order agree but for the order.
proof fn lemma_items_multiset<T: Identified>(a: Seq<Candidate<T>>, b: Seq<Candidate<T>>)
    requires
        a.to_multiset() =~= b.to_multiset(),
    ensures
        items(a).to_multiset() =~= items(b).to_multiset(),
    decreases a.len(),
{
    broadcast use vstd::multiset::group_multiset_axioms;

    vstd::seq_lib::to_multiset_len(a);
    vstd::seq_lib::to_multiset_len(b);
    if a.len() > 0 {
        let x = a.last();
        vstd::seq_lib::to_multiset_contains(a, x);
        vstd::seq_lib::to_multiset_contains(b, x);
        assert(a.contains(x)) by {
            assert(a[a.len() - 1] == x);
        }
        let k = choose|k: int| 0 <= k < b.len() && b[k] == x;
        let a0 = a.drop_last();
        let b0 = b.remove(k);
        assert(a =~= a0.push(x));
        vstd::seq_lib::to_multiset_build(a0, x);
        vstd::seq_lib::to_multiset_remove(b, k);
        assert(b0.to_multiset() =~= b.to_multiset().remove(x));
        assert(a0.to_multiset() =~= a.to_multiset().remove(x));
        lemma_items_multiset(a0, b0);
        assert(items(a) =~= items(a0).push(x.item));
        vstd::seq_lib::to_multiset_build(items(a0), x.item);
        assert(items(b)[k] == x.item);
        assert(items(b0) =~= items(b).remove(k));
        vstd::seq_lib::to_multiset_remove(items(b), k);
        vstd::seq_lib::to_multiset_contains(items(b), x.item);
        assert(items(b).contains(x.item));
        assert(items(b).to_multiset() =~= items(b0).to_multiset().insert(x.item));
    } else {
        assert(a =~= b);
    }
}

/// What `closest_of` promises: as many values as asked for and available, all of them from the
/// given ones, nearest first, and no value left out that is nearer than one that was taken.
pub proof fn law_closest<T: Identified>(s: Seq<T>, target: [u8; 20], count: nat)
    ensures
        closest_of(s, target, count as int).len() == at_most(count as int, s.len() as int),
        forall|i: int|
            0 <= i < closest_of(s, target, count as int).len() ==> s.contains(
                #[trigger] closest_of(s, target, count as int)[i],
            ),
        forall|i: int, j: int|
            #![trigger closest_of(s, target, count as int)[i], closest_of(s, target, count as int)[j]]
            0 <= i <= j < closest_of(s, target, count as int).len() ==> distance(
                closest_of(s, target, count as int)[i].ident(),
                target,
            ) <= distance(closest_of(s, target, count as int)[j].ident(), target),
        forall|x: T, i: int|
            #![trigger s.contains(x), closest_of(s, target, count as int)[i]]
            s.contains(x) && !closest_of(s, target, count as int).contains(x) && 0 <= i
                < closest_of(s, target, count as int).len() ==> distance(
                closest_of(s, target, count as int)[i].ident(),
                target,
            ) <= distance(x.ident(), target),
{
    let c = candidates(s, target);
    lemma_stable_sort_exists(c);
    let sorted = stable_sorted(c);
    assert(is_stable_sort(c, sorted));
    vstd::seq_lib::to_multiset_len(c);
    vstd::seq_lib::to_multiset_len(sorted);
    let r = closest_of(s, target, count as int);
    assert forall|i: int| 0 <= i < r.len() implies s.contains(#[trigger] r[i]) by {
        vstd::seq_lib::to_multiset_contains(sorted, sorted[i]);
        vstd::seq_lib::to_multiset_contains(c, sorted[i]);
        assert(sorted.contains(sorted[i]));
        let j = choose|j: int| 0 <= j < c.len() && c[j] == sorted[i];
        assert(s[j] == r[i]);
    }
    assert forall|i: int| 0 <= i < sorted.len() implies (#[trigger] sorted[i]).target == target by {
        vstd::seq_lib::to_multiset_contains(sorted, sorted[i]);
        vstd::seq_lib::to_multiset_contains(c, sorted[i]);
        assert(sorted.contains(sorted[i]));
        let j = choose|j: int| 0 <= j < c.len() && c[j] == sorted[i];
    }
    assert forall|i: int, j: int|
        #![trigger r[i], r[j]]
        0 <= i <= j < r.len() implies distance(r[i].ident(), target) <= distance(
        r[j].ident(),
        target,
    ) by {
        assert(sorted[i].rank() <= sorted[j].rank());
    }
    assert forall|x: T, i: int|
        #![trigger s.contains(x), r[i]]
        s.contains(x) && !r.contains(x) && 0 <= i < r.len() implies distance(r[i].ident(), target)
        <= distance(x.ident(), target) by {
        let p = choose|p: int| 0 <= p < s.len() && s[p] == x;
        let cx = Candidate { item: x, target };
        assert(c[p] == cx);
        vstd::seq_lib::to_multiset_contains(c, cx);
        vstd::seq_lib::to_multiset_contains(sorted, cx);
        let q = choose|q: int| 0 <= q < sorted.len() && sorted[q] == cx;
        if q < r.len() {
            assert(r[q] == x);
        }
        assert(sorted[i].rank() <= sorted[q].rank());
    }
}

/// Of two identifiers the nearer one to a target is the one whose exclusive or with it is smaller in
/// the first byte in which the two differ.
pub proof fn law_first_byte_decides(a: [u8; 20], b: [u8; 20], target: [u8; 20], i: int)
    requires
        0 <= i < 20,
        forall|j: int| 0 <= j < i ==> #[trigger] a[j] == b[j],
        (a[i] ^ target[i]) < (b[i] ^ target[i]),
    ensures
        distance(a, target) < distance(b, target),
{
    let x = xor_bytes(a@, target@);
    let y = xor_bytes(b@, target@);
    assert forall|j: int| 0 <= j < i implies #[trigger] x[j] == y[j] by {
        assert(a[j] == b[j]);
    }
    law_first_difference_decides(x, y, i);
}

/// The bits on which two identifiers agree are counted from the most significant bit of the first byte
/// up to the first on which they differ.
pub proof fn law_leading_bits_are_counted(a: [u8; 20], b: [u8; 20], j: int)
    requires
        0 <= j < 160,
    ensures
        common_prefix(a, b) <= 160,
        j < common_prefix(a, b) ==> (a[j / 8] >> ((7 - j % 8) as u8)) & 1u8 == (b[j / 8] >> ((7 - j
            % 8) as u8)) & 1u8,
        j == common_prefix(a, b) ==> (a[j / 8] >> ((7 - j % 8) as u8)) & 1u8 != (b[j / 8] >> ((7 - j
            % 8) as u8)) & 1u8,
{
    lemma_agreement_bound(a@, b@, 0);
    lemma_common_prefix_bits(a@, b@, 0);
    let x = a[j / 8] >> ((7 - j % 8) as u8);
    let y = b[j / 8] >> ((7 - j % 8) as u8);
    assert(x & 1u8 == 0 || x & 1u8 == 1) by (bit_vector);
    assert(y & 1u8 == 0 || y & 1u8 == 1) by (bit_vector);
    if j < common_prefix(a, b) {
        assert(bit_at(a@, j) == bit_at(b@, j));
    }
}

} // verus!
