//! Bencode: writing, and reading through `serde_bencode`.

use crate::bytes::{
    decimal, is_digit, law_decimal_round_trip, number_in, parse_number, put_bytes, put_decimal,
    put_signed_decimal, same_bytes, signed_decimal, sub_vec,
};
use crate::seqs::{first_where, lemma_first_where_at};
use serde_bencode::value::Value;
use vstd::prelude::*;
use vstd::string::*;

verus! {

/// The encoding of a byte string: its length, a colon, the bytes.
pub open spec fn bytes_encoding(s: Seq<u8>) -> Seq<u8> {
    decimal(s.len()) + seq![58u8] + s
}

/// The encoding of an integer: `i`, the decimal text, `e`.
pub open spec fn int_encoding(n: int) -> Seq<u8> {
    seq![105u8] + signed_decimal(n) + seq![101u8]
}

/// Appends the encoding of a byte string.
pub fn put_byte_string(out: &mut Vec<u8>, data: &[u8])
    ensures
        final(out)@ == old(out)@ + bytes_encoding(data@),
{
    put_decimal(out, data.len() as u64);
    out.push(58);
    put_bytes(out, data);
    assert(out@ =~= old(out)@ + bytes_encoding(data@));
}

/// Appends the encoding of an integer.
pub fn put_int(out: &mut Vec<u8>, n: i64)
    ensures
        final(out)@ == old(out)@ + int_encoding(n as int),
{
    out.push(105);
    put_signed_decimal(out, n);
    out.push(101);
    assert(out@ =~= old(out)@ + int_encoding(n as int));
}

/// What a bencoded text stands for. The order of a dictionary's entries means nothing.
pub enum Meaning {
    Bytes(Seq<u8>),
    Int(int),
    List(Seq<Meaning>),
    Dict(Map<Seq<u8>, Meaning>),
}

/// A bencoded value.
pub enum Bencode {
    Bytes(Vec<u8>),
    Int(i64),
    List(Vec<Bencode>),
    Dict(Vec<(Vec<u8>, Bencode)>),
}

/// A value as it is written: the entries of a dictionary have an order.
pub enum Tree {
    Bytes(Seq<u8>),
    Int(int),
    List(Seq<Tree>),
    Dict(Seq<(Seq<u8>, Tree)>),
}

/// How a value is written.
pub open spec fn encoding(t: Tree) -> Seq<u8>
    decreases t,
{
    match t {
        Tree::Bytes(s) => bytes_encoding(s),
        Tree::Int(n) => int_encoding(n),
        Tree::List(items) => seq![108u8] + items_encoding(items) + seq![101u8],
        Tree::Dict(entries) => seq![100u8] + entries_encoding(entries) + seq![101u8],
    }
}

/// How the items of a list are written.
pub open spec fn items_encoding(items: Seq<Tree>) -> Seq<u8>
    decreases items,
{
    if items.len() == 0 {
        Seq::empty()
    } else {
        items_encoding(items.drop_last()) + encoding(items.last())
    }
}

/// How the entries of a dictionary are written.
pub open spec fn entries_encoding(entries: Seq<(Seq<u8>, Tree)>) -> Seq<u8>
    decreases entries,
{
    if entries.len() == 0 {
        Seq::empty()
    } else {
        entries_encoding(entries.drop_last()) + bytes_encoding(entries.last().0) + encoding(
            entries.last().1,
        )
    }
}

/// What a written value means: of two entries with one key the later one counts.
pub open spec fn tree_meaning(t: Tree) -> Meaning
    decreases t,
{
    match t {
        Tree::Bytes(s) => Meaning::Bytes(s),
        Tree::Int(n) => Meaning::Int(n),
        Tree::List(items) => Meaning::List(items_meaning(items)),
        Tree::Dict(entries) => Meaning::Dict(entries_meaning(entries)),
    }
}

/// What the items of a list mean.
pub open spec fn items_meaning(items: Seq<Tree>) -> Seq<Meaning>
    decreases items,
{
    if items.len() == 0 {
        Seq::empty()
    } else {
        items_meaning(items.drop_last()).push(tree_meaning(items.last()))
    }
}

/// What the entries of a dictionary mean.
pub open spec fn entries_meaning(entries: Seq<(Seq<u8>, Tree)>) -> Map<Seq<u8>, Meaning>
    decreases entries,
{
    if entries.len() == 0 {
        Map::empty()
    } else {
        entries_meaning(entries.drop_last()).insert(
            entries.last().0,
            tree_meaning(entries.last().1),
        )
    }
}

/// What a value means.
pub open spec fn meaning(b: Bencode) -> Meaning
    decreases b,
{
    match b {
        Bencode::Bytes(v) => Meaning::Bytes(v@),
        Bencode::Int(n) => Meaning::Int(n as int),
        Bencode::List(v) => Meaning::List(list_meaning(v@)),
        Bencode::Dict(v) => Meaning::Dict(dict_meaning(v@)),
    }
}

/// What the items of a list mean.
pub open spec fn list_meaning(s: Seq<Bencode>) -> Seq<Meaning>
    decreases s,
{
    if s.len() == 0 {
        Seq::empty()
    } else {
        list_meaning(s.drop_last()).push(meaning(s.last()))
    }
}

/// What the entries of a dictionary mean.
pub open spec fn dict_meaning(s: Seq<(Vec<u8>, Bencode)>) -> Map<Seq<u8>, Meaning>
    decreases s,
{
    if s.len() == 0 {
        Map::empty()
    } else {
        dict_meaning(s.drop_last()).insert(s.last().0@, meaning(s.last().1))
    }
}

/// `serde_bencode::value::Value`, carried from the parser to [`own_value`].
#[verifier::external_type_specification]
#[verifier::external_body]
pub struct ExValue(Value);

/// What a `serde_bencode::value::Value` holds.
pub uninterp spec fn value_meaning(v: Value) -> Meaning;

/// What `serde_bencode::from_bytes` reads from a byte string, `None` if it refuses it.
pub uninterp spec fn parsed(data: Seq<u8>) -> Option<Meaning>;

/// How deep lists and dictionaries may be nested so that the parser, which calls itself for each of
/// them, has room on the stack: a thread with the usual stack of two megabytes has room for about four
/// times as many.
pub const MAX_NESTING: usize = 512;

/// What is read from a byte string: what the parser reads, as long as it is not nested too deep.
pub open spec fn decoded(data: Seq<u8>) -> Option<Meaning> {
    if nesting_of(data) <= MAX_NESTING {
        parsed(data)
    } else {
        None
    }
}

/// The end of an integer.
pub open spec fn is_end() -> spec_fn(u8) -> bool {
    |b: u8| b == 101
}

/// The end of a length.
pub open spec fn is_colon() -> spec_fn(u8) -> bool {
    |b: u8| b == 58
}

/// The bytes after the integer or the byte string at the start of `s`, `None` if there is neither.
pub open spec fn after_scalar(s: Seq<u8>) -> Option<Seq<u8>> {
    if s.len() == 0 {
        None
    } else if s[0] == 105 {
        let n = first_where(s, is_end());
        if n < s.len() {
            Some(s.skip(n + 1))
        } else {
            None
        }
    } else if is_digit(s[0]) {
        let n = first_where(s, is_colon());
        match number_in(s.take(n), usize::MAX as nat) {
            Some(len) => if n + 1 + len <= s.len() {
                Some(s.skip(n + 1 + len))
            } else {
                None
            },
            None => None,
        }
    } else {
        None
    }
}

/// The most lists and dictionaries that are open at once while `s` is read after the start of `depth`
/// of them, up to the end of the value or to where it is malformed.
pub open spec fn deepest(s: Seq<u8>, depth: nat) -> nat
    decreases s.len(),
{
    if s.len() == 0 {
        depth
    } else if s[0] == 108 || s[0] == 100 {
        deepest(s.skip(1), depth + 1)
    } else if depth == 0 {
        depth
    } else if s[0] == 101 {
        larger(depth, if depth == 1 { 0 } else { deepest(s.skip(1), (depth - 1) as nat) })
    } else {
        match after_scalar(s) {
            Some(rest) => if rest.len() < s.len() {
                deepest(rest, depth)
            } else {
                depth
            },
            None => depth,
        }
    }
}

/// The larger of two numbers.
pub open spec fn larger(a: nat, b: nat) -> nat {
    if a >= b {
        a
    } else {
        b
    }
}

/// How deep lists and dictionaries are nested in the bencoded value at the start of `data`.
pub open spec fn nesting_of(data: Seq<u8>) -> nat {
    deepest(data, 0)
}

/// Whether lists and dictionaries are nested no deeper than `n`.
pub open spec fn nests_within(m: Meaning, n: nat) -> bool
    decreases n,
{
    match m {
        Meaning::Bytes(_) => true,
        Meaning::Int(_) => true,
        Meaning::List(s) => n > 0 && forall|i: int|
            0 <= i < s.len() ==> nests_within(#[trigger] s[i], (n - 1) as nat),
        Meaning::Dict(d) => n > 0 && forall|k: Seq<u8>|
            d.contains_key(k) ==> nests_within(#[trigger] d[k], (n - 1) as nat),
    }
}

/// Whether the integers of a written value fit the parser's, its byte strings fit into memory, and
/// it is not nested too deep.
pub open spec fn writable(t: Tree) -> bool {
    writable_within(t, MAX_NESTING as nat)
}

/// Whether a value can be written with `n` levels of lists and dictionaries.
pub open spec fn writable_within(t: Tree, n: nat) -> bool
    decreases t,
{
    match t {
        Tree::Bytes(s) => s.len() <= usize::MAX,
        Tree::Int(v) => i64::MIN <= v <= i64::MAX,
        Tree::List(items) => n > 0 && items_writable(items, (n - 1) as nat),
        Tree::Dict(entries) => n > 0 && entries_writable(entries, (n - 1) as nat),
    }
}

/// Whether every item can be written with `n` levels.
pub open spec fn items_writable(items: Seq<Tree>, n: nat) -> bool
    decreases items,
{
    items.len() == 0 || (items_writable(items.drop_last(), n) && writable_within(items.last(), n))
}

/// Whether every key and value can be written with `n` levels.
pub open spec fn entries_writable(entries: Seq<(Seq<u8>, Tree)>, n: nat) -> bool
    decreases entries,
{
    entries.len() == 0 || (entries_writable(entries.drop_last(), n) && entries.last().0.len()
        <= usize::MAX && writable_within(entries.last().1, n))
}

/// How deep lists and dictionaries are nested in the bencoded value at the start of `data`.
pub fn nesting(data: &[u8]) -> (r: usize)
    ensures
        r == nesting_of(data@),
{
    let mut at: usize = 0;
    let mut depth: usize = 0;
    let mut best: usize = 0;
    assert(data@.skip(0) =~= data@);
    loop
        invariant
            depth <= at <= data@.len(),
            depth <= best <= at,
            nesting_of(data@) == larger(best as nat, deepest(data@.skip(at as int), depth as nat)),
        ensures
            best == nesting_of(data@),
        decreases data@.len() - at,
    {
        let ghost rest = data@.skip(at as int);
        if at >= data.len() {
            break;
        }
        let b: u8 = data[at];
        assert(rest[0] == b);
        assert(rest.skip(1) =~= data@.skip(at + 1));
        if b == 108 || b == 100 {
            at += 1;
            depth += 1;
            if depth > best {
                best = depth;
            }
            proof {
                lemma_deepest_at_least(data@.skip(at as int), depth as nat);
            }
        } else if depth == 0 {
            break;
        } else if b == 101 {
            if depth == 1 {
                break;
            }
            at += 1;
            depth -= 1;
        } else {
            match scalar_len(data, at) {
                Some(n) => {
                    proof {
                        assert(rest.skip(n as int) =~= data@.skip(at + n));
                    }
                    at += n;
                },
                None => {
                    break;
                },
            }
        }
    }
    best
}

/// The length of the integer or the byte string at a position, `None` if there is neither.
fn scalar_len(data: &[u8], at: usize) -> (r: Option<usize>)
    requires
        at < data@.len(),
    ensures
        match r {
            Some(n) => 0 < n <= data@.len() - at && after_scalar(data@.skip(at as int)) == Some(
                data@.skip(at as int).skip(n as int),
            ),
            None => after_scalar(data@.skip(at as int)) is None,
        },
{
    let ghost s = data@.skip(at as int);
    assert(s[0] == data@[at as int]);
    if data[at] == 105 {
        let mut n: usize = 0;
        while at + n < data.len() && data[at + n] != 101
            invariant
                at + n <= data.len(),
                s == data@.skip(at as int),
                forall|j: int| 0 <= j < n ==> !is_end()(#[trigger] s[j]),
            decreases data@.len() - at - n,
        {
            assert(s[n as int] == data@[at + n]);
            n += 1;
        }
        proof {
            if at + n < data@.len() {
                assert(s[n as int] == data@[at + n]);
            }
            lemma_first_where_at(s, is_end(), n as int);
        }
        if at + n < data.len() {
            Some(n + 1)
        } else {
            None
        }
    } else if 48 <= data[at] && data[at] <= 57 {
        let mut n: usize = 0;
        while at + n < data.len() && data[at + n] != 58
            invariant
                at + n <= data.len(),
                s == data@.skip(at as int),
                forall|j: int| 0 <= j < n ==> !is_colon()(#[trigger] s[j]),
            decreases data@.len() - at - n,
        {
            assert(s[n as int] == data@[at + n]);
            n += 1;
        }
        proof {
            if at + n < data@.len() {
                assert(s[n as int] == data@[at + n]);
            }
            lemma_first_where_at(s, is_colon(), n as int);
        }
        let digits: Vec<u8> = sub_vec(data, at, at + n);
        assert(digits@ =~= s.take(n as int));
        match parse_number(digits.as_slice(), usize::MAX as u64) {
            Some(len) => {
                let left: usize = data.len() - at - n;
                if left > 0 && len <= (left - 1) as u64 {
                    Some(n + 1 + len as usize)
                } else {
                    None
                }
            },
            None => None,
        }
    } else {
        None
    }
}

proof fn lemma_deepest_at_least(s: Seq<u8>, depth: nat)
    ensures
        deepest(s, depth) >= depth,
    decreases s.len(),
{
    if s.len() > 0 {
        if s[0] == 108 || s[0] == 100 {
            lemma_deepest_at_least(s.skip(1), depth + 1);
        } else if depth > 0 && s[0] != 101 {
            if let Some(rest) = after_scalar(s) {
                if rest.len() < s.len() {
                    lemma_deepest_at_least(rest, depth);
                }
            }
        }
    }
}

/// A byte string at the start of `s` is passed over.
proof fn lemma_after_bytes(v: Seq<u8>, rest: Seq<u8>)
    requires
        v.len() <= usize::MAX,
    ensures
        after_scalar(bytes_encoding(v) + rest) == Some(rest),
        is_digit((bytes_encoding(v) + rest)[0]),
        (bytes_encoding(v) + rest).len() > rest.len(),
{
    let s = bytes_encoding(v) + rest;
    let d = decimal(v.len());
    law_decimal_round_trip(v.len());
    assert forall|j: int| 0 <= j < d.len() implies !is_colon()(#[trigger] s[j]) by {
        assert(s[j] == d[j]);
        assert(is_digit(d[j]));
    }
    assert(s[d.len() as int] == 58);
    lemma_first_where_at(s, is_colon(), d.len() as int);
    assert(s.take(d.len() as int) =~= d);
    assert(s[0] == d[0]);
    assert(number_in(d, usize::MAX as nat) == Some(v.len()));
    assert(s.skip((d.len() + 1 + v.len()) as int) =~= rest);
}

/// An integer at the start of `s` is passed over.
proof fn lemma_after_int(v: int, rest: Seq<u8>)
    ensures
        after_scalar(int_encoding(v) + rest) == Some(rest),
        (int_encoding(v) + rest)[0] == 105,
        (int_encoding(v) + rest).len() > rest.len(),
{
    let s = int_encoding(v) + rest;
    let d = signed_decimal(v);
    law_decimal_round_trip(if v < 0 { (-v) as nat } else { v as nat });
    assert forall|j: int| 0 <= j < d.len() + 1 implies !is_end()(#[trigger] s[j]) by {
        if j > 0 {
            assert(s[j] == d[j - 1]);
            if v < 0 {
                if j > 1 {
                    assert(d[j - 1] == decimal((-v) as nat)[j - 2]);
                    assert(is_digit(decimal((-v) as nat)[j - 2]));
                }
            } else {
                assert(is_digit(decimal(v as nat)[j - 1]));
            }
        }
    }
    assert(s[(d.len() + 1) as int] == 101);
    lemma_first_where_at(s, is_end(), (d.len() + 1) as int);
    assert(s.skip((d.len() + 2) as int) =~= rest);
}

/// A written value with `n` levels adds no more than them to what is open.
proof fn lemma_written_nesting(t: Tree, n: nat, rest: Seq<u8>, depth: nat)
    requires
        writable_within(t, n),
        depth > 0,
    ensures
        deepest(encoding(t) + rest, depth) <= larger(depth + n, deepest(rest, depth)),
    decreases t,
{
    let s = encoding(t) + rest;
    lemma_deepest_at_least(rest, depth);
    match t {
        Tree::Bytes(v) => {
            lemma_after_bytes(v, rest);
        },
        Tree::Int(v) => {
            lemma_after_int(v, rest);
        },
        Tree::List(items) => {
            assert(s.skip(1) =~= items_encoding(items) + (seq![101u8] + rest));
            assert(s[0] == 108);
            lemma_items_nesting(items, (n - 1) as nat, seq![101u8] + rest, depth + 1);
            assert((seq![101u8] + rest).skip(1) =~= rest);
        },
        Tree::Dict(entries) => {
            assert(s.skip(1) =~= entries_encoding(entries) + (seq![101u8] + rest));
            assert(s[0] == 100);
            lemma_entries_nesting(entries, (n - 1) as nat, seq![101u8] + rest, depth + 1);
            assert((seq![101u8] + rest).skip(1) =~= rest);
        },
    }
}

proof fn lemma_items_nesting(items: Seq<Tree>, n: nat, rest: Seq<u8>, depth: nat)
    requires
        items_writable(items, n),
        depth > 0,
    ensures
        deepest(items_encoding(items) + rest, depth) <= larger(depth + n, deepest(rest, depth)),
    decreases items,
{
    if items.len() == 0 {
        assert(items_encoding(items) + rest =~= rest);
    } else {
        let tail = encoding(items.last()) + rest;
        assert(items_encoding(items) + rest =~= items_encoding(items.drop_last()) + tail);
        lemma_items_nesting(items.drop_last(), n, tail, depth);
        lemma_written_nesting(items.last(), n, rest, depth);
    }
}

proof fn lemma_entries_nesting(
    entries: Seq<(Seq<u8>, Tree)>,
    n: nat,
    rest: Seq<u8>,
    depth: nat,
)
    requires
        entries_writable(entries, n),
        depth > 0,
    ensures
        deepest(entries_encoding(entries) + rest, depth) <= larger(depth + n, deepest(rest, depth)),
    decreases entries,
{
    if entries.len() == 0 {
        assert(entries_encoding(entries) + rest =~= rest);
    } else {
        let value = encoding(entries.last().1) + rest;
        let tail = bytes_encoding(entries.last().0) + value;
        assert(entries_encoding(entries) + rest =~= entries_encoding(entries.drop_last()) + tail);
        lemma_entries_nesting(entries.drop_last(), n, tail, depth);
        lemma_after_bytes(entries.last().0, value);
        lemma_written_nesting(entries.last().1, n, rest, depth);
    }
}

/// What can be written is not nested too deep to be read.
pub proof fn law_written_value_is_shallow(t: Tree)
    requires
        writable(t),
    ensures
        nesting_of(encoding(t)) <= MAX_NESTING,
{
    let s = encoding(t);
    match t {
        Tree::Bytes(v) => {
            assert(s + Seq::<u8>::empty() =~= s);
            lemma_after_bytes(v, Seq::empty());
        },
        Tree::Int(v) => {},
        Tree::List(items) => {
            assert(s.skip(1) =~= items_encoding(items) + seq![101u8]);
            lemma_items_nesting(items, (MAX_NESTING - 1) as nat, seq![101u8], 1);
        },
        Tree::Dict(entries) => {
            assert(s.skip(1) =~= entries_encoding(entries) + seq![101u8]);
            lemma_entries_nesting(entries, (MAX_NESTING - 1) as nat, seq![101u8], 1);
        },
    }
}

/// `serde_bencode::from_bytes` into a `Value`: reads the bencoded value at the start of `data`,
/// which depends on `data` alone. A value that was written as [`encoding`] says is read back; of
/// two dictionary entries with one key the later one counts. What is read is nested no deeper than
/// the brackets of `data` say. What is read from other byte strings is only given a name. The parser
/// calls itself for each list and dictionary, so how deep they are nested is bounded.
#[verifier::external_body]
fn parse_value(data: &[u8]) -> (r: Option<Value>)
    requires
        nesting_of(data@) <= MAX_NESTING,
    ensures
        r matches Some(v) ==> parsed(data@) == Some(value_meaning(v)),
        r is None ==> parsed(data@) is None,
        r matches Some(v) ==> nests_within(value_meaning(v), MAX_NESTING as nat),
        forall|t: Tree|
            data@ == #[trigger] encoding(t) && writable(t) ==> r is Some && value_meaning(r->0)
                == tree_meaning(t),
{
    serde_bencode::from_bytes::<Value>(data).ok()
}

/// The variants of `serde_bencode::value::Value` as those of [`Bencode`], the entries of a
/// dictionary in the order in which its hash map is walked. It calls itself for each list and
/// dictionary, so how deep they are nested is bounded.
#[verifier::external_body]
fn own_value(value: Value) -> (r: Bencode)
    requires
        nests_within(value_meaning(value), MAX_NESTING as nat),
    ensures
        meaning(r) == value_meaning(value),
{
    match value {
        Value::Bytes(b) => Bencode::Bytes(b),
        Value::Int(i) => Bencode::Int(i),
        Value::List(l) => Bencode::List(l.into_iter().map(own_value).collect()),
        Value::Dict(d) => Bencode::Dict(d.into_iter().map(|(k, v)| (k, own_value(v))).collect()),
    }
}

/// Reads the bencoded value at the start of `data`. One that is nested too deep is refused.
pub fn decode(data: &[u8]) -> (r: Option<Bencode>)
    ensures
        match r {
            Some(b) => decoded(data@) == Some(meaning(b)),
            None => decoded(data@) is None,
        },
        nesting_of(data@) > MAX_NESTING ==> r is None,
        forall|t: Tree|
            data@ == #[trigger] encoding(t) && writable(t) ==> (r matches Some(b) && meaning(b)
                == tree_meaning(t)),
{
    proof {
        assert forall|t: Tree| data@ == #[trigger] encoding(t) && writable(t) implies nesting_of(data@)
            <= MAX_NESTING by {
            law_written_value_is_shallow(t);
        }
    }
    if nesting(data) > MAX_NESTING {
        return None;
    }
    match parse_value(data) {
        Some(v) => Some(own_value(v)),
        None => None,
    }
}

/// There are no more lists and dictionaries open than were before and bytes follow.
proof fn lemma_deepest_bound(s: Seq<u8>, depth: nat)
    ensures
        deepest(s, depth) <= depth + s.len(),
    decreases s.len(),
{
    if s.len() > 0 {
        if s[0] == 108 || s[0] == 100 {
            lemma_deepest_bound(s.skip(1), depth + 1);
        } else if depth > 1 && s[0] == 101 {
            lemma_deepest_bound(s.skip(1), (depth - 1) as nat);
        } else if depth > 0 && s[0] != 101 {
            if let Some(rest) = after_scalar(s) {
                if rest.len() < s.len() {
                    lemma_deepest_bound(rest, depth);
                }
            }
        }
    }
}

/// Only a byte string that is longer than the bound on the nesting can be refused for its nesting.
pub proof fn law_short_data_is_left_to_the_parser(data: Seq<u8>)
    requires
        data.len() <= MAX_NESTING,
    ensures
        decoded(data) == parsed(data),
{
    lemma_deepest_bound(data, 0);
}

/// One more entry at the end of a dictionary.
pub proof fn lemma_entries_push(s: Seq<(Seq<u8>, Tree)>, key: Seq<u8>, t: Tree)
    ensures
        entries_encoding(s.push((key, t))) == entries_encoding(s) + bytes_encoding(key) + encoding(t),
        entries_meaning(s.push((key, t))) == entries_meaning(s).insert(key, tree_meaning(t)),
        forall|n: nat| #[trigger]
            entries_writable(s.push((key, t)), n) == (entries_writable(s, n) && key.len()
                <= usize::MAX && writable_within(t, n)),
{
    assert(s.push((key, t)).drop_last() =~= s);
    assert(s.push((key, t)).last() == (key, t));
}

/// One more item at the end of a list.
pub proof fn lemma_items_push(s: Seq<Tree>, t: Tree)
    ensures
        items_encoding(s.push(t)) == items_encoding(s) + encoding(t),
        items_meaning(s.push(t)) == items_meaning(s).push(tree_meaning(t)),
        forall|n: nat| #[trigger]
            items_writable(s.push(t), n) == (items_writable(s, n) && writable_within(t, n)),
{
    assert(s.push(t).drop_last() =~= s);
    assert(s.push(t).last() == t);
}

/// The empty dictionary and the empty list.
pub proof fn lemma_empty_encodings()
    ensures
        entries_encoding(Seq::empty()) == Seq::<u8>::empty(),
        entries_meaning(Seq::empty()) == Map::<Seq<u8>, Meaning>::empty(),
        forall|n: nat| #[trigger] entries_writable(Seq::empty(), n),
        items_encoding(Seq::empty()) == Seq::<u8>::empty(),
        items_meaning(Seq::empty()) == Seq::<Meaning>::empty(),
        forall|n: nat| #[trigger] items_writable(Seq::empty(), n),
{
}

/// The entry of a dictionary under `key`.
pub open spec fn entry(m: Meaning, key: Seq<u8>) -> Option<Meaning> {
    match m {
        Meaning::Dict(d) => if d.contains_key(key) {
            Some(d[key])
        } else {
            None
        },
        _ => None,
    }
}

/// The byte string under `key`.
pub open spec fn bytes_entry(m: Meaning, key: Seq<u8>) -> Option<Seq<u8>> {
    match entry(m, key) {
        Some(Meaning::Bytes(s)) => Some(s),
        _ => None,
    }
}

/// The integer under `key`.
pub open spec fn int_entry(m: Meaning, key: Seq<u8>) -> Option<int> {
    match entry(m, key) {
        Some(Meaning::Int(n)) => Some(n),
        _ => None,
    }
}

impl Bencode {
    /// Whether the value is a dictionary.
    pub fn is_dict(&self) -> (r: bool)
        ensures
            r == (meaning(*self) is Dict),
    {
        matches!(self, Bencode::Dict(_))
    }

    /// The entry of a dictionary under `key`. `None` if there is none or the value is no
    /// dictionary.
    pub fn get(&self, key: &[u8]) -> (r: Option<&Bencode>)
        ensures
            match r {
                Some(b) => entry(meaning(*self), key@) == Some(meaning(*b)),
                None => entry(meaning(*self), key@) is None,
            },
    {
        match self {
            Bencode::Dict(v) => {
                let mut n: usize = v.len();
                proof {
                    assert(v@.take(n as int) =~= v@);
                }
                while n > 0
                    invariant
                        n <= v@.len(),
                        meaning(*self) == Meaning::Dict(dict_meaning(v@)),
                        dict_meaning(v@).contains_key(key@) == dict_meaning(
                            v@.take(n as int),
                        ).contains_key(key@),
                        dict_meaning(v@).contains_key(key@) ==> dict_meaning(v@)[key@]
                            == dict_meaning(v@.take(n as int))[key@],
                    decreases n,
                {
                    proof {
                        assert(v@.take(n as int).drop_last() =~= v@.take(n - 1));
                        assert(v@.take(n as int).last() == v@[n - 1]);
                    }
                    if same_bytes(v[n - 1].0.as_slice(), key) {
                        return Some(&v[n - 1].1);
                    }
                    n = n - 1;
                }
                None
            },
            _ => None,
        }
    }

    /// The byte string under `key`.
    pub fn get_bytes(&self, key: &[u8]) -> (r: Option<&Vec<u8>>)
        ensures
            match r {
                Some(v) => bytes_entry(meaning(*self), key@) == Some(v@),
                None => bytes_entry(meaning(*self), key@) is None,
            },
    {
        match self.get(key) {
            Some(Bencode::Bytes(v)) => Some(v),
            _ => None,
        }
    }

    /// The integer under `key`.
    pub fn get_int(&self, key: &[u8]) -> (r: Option<i64>)
        ensures
            match r {
                Some(n) => int_entry(meaning(*self), key@) == Some(n as int),
                None => int_entry(meaning(*self), key@) is None,
            },
    {
        match self.get(key) {
            Some(Bencode::Int(n)) => Some(*n),
            _ => None,
        }
    }
}

/// Writes a dictionary entry by entry.
pub struct DictWriter {
    out: Vec<u8>,
    written: Ghost<Seq<(Seq<u8>, Tree)>>,
}

impl DictWriter {
    /// The entries so far.
    pub closed spec fn entries(&self) -> Seq<(Seq<u8>, Tree)> {
        self.written@
    }

    /// What was written is the start of a dictionary with these entries.
    pub closed spec fn wf(&self) -> bool {
        self.out@ == seq![100u8] + entries_encoding(self.written@)
    }

    /// A dictionary without entries.
    pub fn new() -> (r: DictWriter)
        ensures
            r.wf(),
            r.entries() == Seq::<(Seq<u8>, Tree)>::empty(),
    {
        let mut out: Vec<u8> = Vec::new();
        out.push(100);
        proof {
            lemma_empty_encodings();
            assert(out@ =~= seq![100u8] + entries_encoding(Seq::empty()));
        }
        DictWriter { out, written: Ghost(Seq::empty()) }
    }

    /// Adds an entry whose value is already encoded.
    pub fn put_encoded(&mut self, key: &str, value: &[u8], Ghost(t): Ghost<Tree>)
        requires
            old(self).wf(),
            value@ == encoding(t),
        ensures
            final(self).wf(),
            final(self).entries() == old(self).entries().push((key.spec_bytes(), t)),
    {
        let ghost before = self.written@;
        put_byte_string(&mut self.out, key.as_bytes());
        put_bytes(&mut self.out, value);
        self.written = Ghost(before.push((key.spec_bytes(), t)));
        proof {
            lemma_entries_push(before, key.spec_bytes(), t);
            assert(self.out@ =~= seq![100u8] + entries_encoding(self.written@));
        }
    }

    /// Adds a byte string.
    pub fn put_bytes(&mut self, key: &str, value: &[u8])
        requires
            old(self).wf(),
        ensures
            final(self).wf(),
            final(self).entries() == old(self).entries().push(
                (key.spec_bytes(), Tree::Bytes(value@)),
            ),
    {
        let mut encoded: Vec<u8> = Vec::new();
        put_byte_string(&mut encoded, value);
        let ghost t = Tree::Bytes(value@);
        assert(encoded@ =~= encoding(t));
        self.put_encoded(key, encoded.as_slice(), Ghost(t));
    }

    /// Adds an integer.
    pub fn put_int(&mut self, key: &str, value: i64)
        requires
            old(self).wf(),
        ensures
            final(self).wf(),
            final(self).entries() == old(self).entries().push(
                (key.spec_bytes(), Tree::Int(value as int)),
            ),
    {
        let mut encoded: Vec<u8> = Vec::new();
        put_int(&mut encoded, value);
        let ghost t = Tree::Int(value as int);
        assert(encoded@ =~= encoding(t));
        self.put_encoded(key, encoded.as_slice(), Ghost(t));
    }

    /// The whole dictionary.
    pub fn finish(self) -> (r: Vec<u8>)
        requires
            self.wf(),
        ensures
            r@ == encoding(Tree::Dict(self.entries())),
    {
        let mut out: Vec<u8> = self.out;
        out.push(101);
        assert(out@ =~= encoding(Tree::Dict(self.written@)));
        out
    }
}

} // verus!
