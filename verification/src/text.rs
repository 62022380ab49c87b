//! Text and its UTF-8 bytes.

use vstd::prelude::*;
use vstd::string::*;
use vstd::utf8::{encode_utf8, valid_utf8};

verus! {

/// `String::from_utf8`: the text that a byte string encodes, `None` if it is not valid UTF-8.
#[verifier::external_body]
pub(crate) fn text_from_utf8(bytes: &[u8]) -> (r: Option<String>)
    ensures
        r is Some <==> valid_utf8(bytes@),
        r is Some ==> encode_utf8(r->0@) == bytes@,
{
    String::from_utf8(bytes.to_vec()).ok()
}

/// The text that a byte string is read as when what is not valid UTF-8 is replaced.
pub uninterp spec fn lossy_text(bytes: Seq<u8>) -> Seq<char>;

/// `String::from_utf8_lossy`: the text that a byte string is read as, a function of its bytes. Valid
/// UTF-8 is read as it is.
#[verifier::external_body]
pub(crate) fn text_lossy(bytes: &[u8]) -> (r: String)
    ensures
        r@ == lossy_text(bytes@),
        valid_utf8(bytes@) ==> encode_utf8(r@) == bytes@,
{
    String::from_utf8_lossy(bytes).into_owned()
}

/// The contents of a list of texts.
pub open spec fn texts(v: Seq<String>) -> Seq<Seq<char>> {
    v.map_values(|s: String| s@)
}

/// One text if `present`, none otherwise.
pub open spec fn text_if(present: bool, text: Seq<char>) -> Seq<Seq<char>> {
    if present {
        seq![text]
    } else {
        Seq::empty()
    }
}

/// Appends `text` if `present`.
pub(crate) fn push_text_if(out: &mut Vec<String>, present: bool, text: &str)
    ensures
        texts(final(out)@) == texts(old(out)@) + text_if(present, text@),
{
    if present {
        out.push(text.to_string());
    }
    assert(texts(out@) =~= texts(old(out)@) + text_if(present, text@));
}

/// Copies a list of texts.
pub(crate) fn copy_texts(v: &Vec<String>) -> (r: Vec<String>)
    ensures
        r@ == v@,
        texts(r@) == texts(v@),
{
    let mut out: Vec<String> = Vec::with_capacity(v.len());
    let mut i: usize = 0;
    while i < v.len()
        invariant
            i <= v@.len(),
            out@ == v@.take(i as int),
        decreases v@.len() - i,
    {
        out.push(v[i].clone());
        i += 1;
        assert(out@ =~= v@.take(i as int));
    }
    assert(v@.take(i as int) =~= v@);
    out
}

/// The characters of a text.
pub(crate) fn chars_of(text: &str) -> (r: Vec<char>)
    ensures
        r@ == text@,
{
    broadcast use vstd::string::axiom_spec_iter;

    let mut out: Vec<char> = Vec::new();
    for c in it: text.chars()
        invariant
            out@ == it.seq().take(it.index()),
            it.seq() == text@,
    {
        out.push(c);
        assert(out@ =~= it.seq().take(it.index() + 1));
    }
    assert(text@.take(text@.len() as int) =~= text@);
    out
}

/// A part of a text.
pub(crate) fn sub_text(text: &str, from: usize, to: usize) -> (r: String)
    requires
        from <= to <= text@.len(),
    ensures
        r@ == text@.subrange(from as int, to as int),
{
    text.substring_char(from, to).to_string()
}

/// Whether `part` occurs in `whole` at position `i`.
pub open spec fn occurs_at(whole: Seq<char>, part: Seq<char>, i: int) -> bool {
    &&& 0 <= i
    &&& i + part.len() <= whole.len()
    &&& whole.subrange(i, i + part.len()) == part
}

/// Whether `part` occurs in `whole`.
pub open spec fn occurs(whole: Seq<char>, part: Seq<char>) -> bool {
    exists|i: int| #[trigger] occurs_at(whole, part, i)
}

/// Whether `part` stands in `whole` at position `at`.
pub(crate) fn part_at(whole: &Vec<char>, part: &Vec<char>, at: usize) -> (r: bool)
    requires
        at <= whole@.len(),
    ensures
        r == occurs_at(whole@, part@, at as int),
{
    if part.len() > whole.len() - at {
        return false;
    }
    let mut k: usize = 0;
    while k < part.len()
        invariant
            k <= part@.len(),
            at + part.len() <= whole.len(),
            forall|j: int| 0 <= j < k ==> #[trigger] whole@[at + j] == part@[j],
        decreases part@.len() - k,
    {
        if whole[at + k] != part[k] {
            assert(whole@.subrange(at as int, at + part@.len())[k as int] == whole@[at + k]);
            return false;
        }
        k += 1;
    }
    assert forall|j: int| 0 <= j < part@.len() implies whole@.subrange(
        at as int,
        at + part@.len(),
    )[j] == part@[j] by {
        assert(whole@[at + j] == part@[j]);
    }
    assert(whole@.subrange(at as int, at + part@.len()) =~= part@);
    true
}

/// Whether `part` occurs in `whole`.
pub(crate) fn text_contains(whole: &str, part: &str) -> (r: bool)
    ensures
        r == occurs(whole@, part@),
{
    let w: Vec<char> = chars_of(whole);
    let p: Vec<char> = chars_of(part);
    let mut i: usize = 0;
    while i < w.len()
        invariant
            w@ == whole@,
            p@ == part@,
            i <= w@.len(),
            forall|j: int| 0 <= j < i ==> !#[trigger] occurs_at(w@, p@, j),
        decreases w@.len() - i,
    {
        if part_at(&w, &p, i) {
            return true;
        }
        i += 1;
    }
    part_at(&w, &p, i)
}

/// Whether `text` starts with `prefix`.
pub(crate) fn text_starts_with(text: &str, prefix: &str) -> (r: bool)
    ensures
        r == occurs_at(text@, prefix@, 0),
{
    let t: Vec<char> = chars_of(text);
    let p: Vec<char> = chars_of(prefix);
    part_at(&t, &p, 0)
}

/// Whether a character is white space, as Unicode has it.
pub open spec fn is_white_space(c: char) -> bool {
    ||| '\u{9}' <= c <= '\u{d}'
    ||| c == ' '
    ||| c == '\u{85}'
    ||| c == '\u{a0}'
    ||| c == '\u{1680}'
    ||| '\u{2000}' <= c <= '\u{200a}'
    ||| c == '\u{2028}'
    ||| c == '\u{2029}'
    ||| c == '\u{202f}'
    ||| c == '\u{205f}'
    ||| c == '\u{3000}'
}

fn white_space(c: char) -> (r: bool)
    ensures
        r == is_white_space(c),
{
    ('\u{9}' <= c && c <= '\u{d}') || c == ' ' || c == '\u{85}' || c == '\u{a0}' || c == '\u{1680}'
        || ('\u{2000}' <= c && c <= '\u{200a}') || c == '\u{2028}' || c == '\u{2029}' || c
        == '\u{202f}' || c == '\u{205f}' || c == '\u{3000}'
}

/// A text without the white space at its start.
pub open spec fn trimmed_start(s: Seq<char>) -> Seq<char>
    decreases s.len(),
{
    if s.len() > 0 && is_white_space(s[0]) {
        trimmed_start(s.drop_first())
    } else {
        s
    }
}

/// A text without the white space at its end.
pub open spec fn trimmed_end(s: Seq<char>) -> Seq<char>
    decreases s.len(),
{
    if s.len() > 0 && is_white_space(s.last()) {
        trimmed_end(s.drop_last())
    } else {
        s
    }
}

/// A text without the white space around it.
pub open spec fn trimmed(s: Seq<char>) -> Seq<char> {
    trimmed_end(trimmed_start(s))
}

/// Where the part of `chars` between two positions begins and ends without the white space around
/// it.
pub(crate) fn trim(chars: &Vec<char>, from: usize, to: usize) -> (r: (usize, usize))
    requires
        from <= to <= chars@.len(),
    ensures
        from <= r.0 <= r.1 <= to,
        chars@.subrange(r.0 as int, r.1 as int) == trimmed(
            chars@.subrange(from as int, to as int),
        ),
{
    let ghost whole = chars@.subrange(from as int, to as int);
    let mut a: usize = from;
    while a < to && white_space(chars[a])
        invariant
            from <= a <= to <= chars@.len(),
            trimmed_start(chars@.subrange(a as int, to as int)) == trimmed_start(whole),
        decreases to - a,
    {
        proof {
            let s = chars@.subrange(a as int, to as int);
            assert(s[0] == chars@[a as int]);
            assert(s.drop_first() =~= chars@.subrange(a + 1, to as int));
        }
        a += 1;
    }
    proof {
        let s = chars@.subrange(a as int, to as int);
        if a < to {
            assert(s[0] == chars@[a as int]);
        }
        assert(trimmed_start(s) == s);
    }
    let mut b: usize = to;
    while b > a && white_space(chars[b - 1])
        invariant
            from <= a <= b <= to <= chars@.len(),
            trimmed_end(chars@.subrange(a as int, b as int)) == trimmed(whole),
        decreases b - a,
    {
        proof {
            let s = chars@.subrange(a as int, b as int);
            assert(s.last() == chars@[b - 1]);
            assert(s.drop_last() =~= chars@.subrange(a as int, b - 1));
        }
        b -= 1;
    }
    proof {
        let s = chars@.subrange(a as int, b as int);
        if a < b {
            assert(s.last() == chars@[b - 1]);
        }
        assert(trimmed_end(s) == s);
    }
    (a, b)
}

/// White space around a text that neither starts nor ends with any is trimmed away.
pub proof fn lemma_trimmed(before: Seq<char>, s: Seq<char>, after: Seq<char>)
    requires
        forall|i: int| 0 <= i < before.len() ==> is_white_space(#[trigger] before[i]),
        forall|i: int| 0 <= i < after.len() ==> is_white_space(#[trigger] after[i]),
        s.len() > 0 ==> !is_white_space(s[0]) && !is_white_space(s.last()),
    ensures
        trimmed(before + s + after) == s,
    decreases before.len() + after.len(),
{
    let whole = before + s + after;
    if before.len() > 0 {
        assert(whole[0] == before[0]);
        assert(whole.drop_first() =~= before.drop_first() + s + after);
        lemma_trimmed(before.drop_first(), s, after);
    } else if s.len() == 0 {
        assert(whole =~= after);
        if after.len() > 0 {
            assert(whole.drop_first() =~= Seq::<char>::empty() + s + after.drop_first());
            lemma_trimmed(Seq::empty(), s, after.drop_first());
        } else {
            assert(whole =~= s);
        }
    } else {
        assert(whole[0] == s[0]);
        assert(trimmed_start(whole) == whole);
        if after.len() > 0 {
            assert(whole.last() == after.last());
            assert(whole.drop_last() =~= Seq::<char>::empty() + s + after.drop_last());
            lemma_trimmed(Seq::empty(), s, after.drop_last());
            let shorter = whole.drop_last();
            assert(shorter[0] == s[0]);
            assert(trimmed_start(shorter) == shorter);
        } else {
            assert(whole =~= s);
        }
    }
}

/// The lower case of a character, as far as it can be an ASCII letter. Besides the ASCII letters
/// only the Kelvin sign has an ASCII letter as its lower case.
pub open spec fn lower(c: char) -> char {
    if 'A' <= c <= 'Z' {
        (c as u8 + 32) as char
    } else if c == '\u{212a}' {
        'k'
    } else {
        c
    }
}

/// Whether a text in lower case is the ASCII text `name`.
pub open spec fn reads_as(s: Seq<char>, name: Seq<char>) -> bool {
    &&& s.len() == name.len()
    &&& forall|i: int| 0 <= i < s.len() ==> lower(#[trigger] s[i]) == name[i]
}

fn lower_char(c: char) -> (r: char)
    ensures
        r == lower(c),
{
    if 'A' <= c && c <= 'Z' {
        (c as u8 + 32) as char
    } else if c == '\u{212a}' {
        'k'
    } else {
        c
    }
}

/// Whether the part of `chars` between two positions is, in lower case, the ASCII text `name`.
pub(crate) fn part_reads_as(chars: &Vec<char>, from: usize, to: usize, name: &str) -> (r: bool)
    requires
        from <= to <= chars@.len(),
    ensures
        r == reads_as(chars@.subrange(from as int, to as int), name@),
{
    let ghost part = chars@.subrange(from as int, to as int);
    let expected: Vec<char> = chars_of(name);
    if expected.len() != to - from {
        return false;
    }
    let mut i: usize = 0;
    while i < expected.len()
        invariant
            from <= to <= chars@.len(),
            part == chars@.subrange(from as int, to as int),
            expected@ == name@,
            expected@.len() == to - from,
            i <= expected@.len(),
            forall|j: int| 0 <= j < i ==> lower(#[trigger] part[j]) == name@[j],
        decreases expected@.len() - i,
    {
        assert(part[i as int] == chars@[from + i]);
        if lower_char(chars[from + i]) != expected[i] {
            return false;
        }
        i += 1;
    }
    true
}

/// A text with every occurrence of `from` replaced by `to`, from the left.
pub open spec fn replaced(s: Seq<char>, from: Seq<char>, to: Seq<char>) -> Seq<char>
    decreases s.len(),
{
    if s.len() == 0 || from.len() == 0 {
        s
    } else if occurs_at(s, from, 0) {
        to + replaced(s.skip(from.len() as int), from, to)
    } else {
        seq![s[0]] + replaced(s.drop_first(), from, to)
    }
}

/// Replaces every occurrence of `from` by `to`, from the left.
pub(crate) fn replace_all(text: &str, from: &str, to: &str) -> (r: String)
    requires
        from@.len() > 0,
    ensures
        r@ == replaced(text@, from@, to@),
{
    let chars: Vec<char> = chars_of(text);
    let part: Vec<char> = chars_of(from);
    let mut out: String = String::new();
    let mut start: usize = 0;
    let mut i: usize = 0;
    proof {
        assert(chars@.skip(0) =~= chars@);
        assert(out@ + chars@.subrange(0, 0) + replaced(chars@, from@, to@) =~= replaced(
            chars@,
            from@,
            to@,
        ));
    }
    while i < chars.len()
        invariant
            chars@ == text@,
            part@ == from@,
            from@.len() > 0,
            start <= i <= chars@.len(),
            out@ + chars@.subrange(start as int, i as int) + replaced(
                chars@.skip(i as int),
                from@,
                to@,
            ) == replaced(chars@, from@, to@),
        decreases chars@.len() - i,
    {
        let ghost rest = chars@.skip(i as int);
        let found: bool = part_at(&chars, &part, i);
        proof {
            assert(found == occurs_at(rest, from@, 0)) by {
                if i + from@.len() <= chars@.len() {
                    assert(rest.subrange(0, from@.len() as int) =~= chars@.subrange(
                        i as int,
                        i + from@.len(),
                    ));
                }
            }
        }
        if found {
            let ghost before = out@;
            out.append(sub_text(text, start, i).as_str());
            out.append(to);
            proof {
                assert(rest.skip(from@.len() as int) =~= chars@.skip(i + from@.len()));
                let tail = replaced(chars@.skip(i + from@.len()), from@, to@);
                assert(before + chars@.subrange(start as int, i as int) + (to@ + tail) =~= out@
                    + chars@.subrange(i + from@.len(), i + from@.len()) + tail);
            }
            i = i + part.len();
            start = i;
        } else {
            proof {
                assert(rest.drop_first() =~= chars@.skip(i + 1));
                let tail = replaced(chars@.skip(i + 1), from@, to@);
                assert(out@ + chars@.subrange(start as int, i as int) + (seq![rest[0]] + tail) =~= out@
                    + chars@.subrange(start as int, i + 1) + tail);
            }
            i += 1;
        }
    }
    let ghost before = out@;
    out.append(sub_text(text, start, i).as_str());
    proof {
        assert(chars@.skip(i as int) =~= Seq::empty());
        assert(out@ =~= before + chars@.subrange(start as int, i as int) + Seq::empty());
    }
    out
}

/// The path of `name` below the directory `dir`.
pub open spec fn joined(dir: Seq<char>, name: Seq<char>) -> Seq<char> {
    if dir.len() == 0 {
        name
    } else if dir.last() == '/' {
        dir + name
    } else {
        dir + "/"@ + name
    }
}

/// The path of `name` below the directory `dir`.
pub(crate) fn join_path(dir: &str, name: &str) -> (r: String)
    ensures
        r@ == joined(dir@, name@),
{
    let chars: Vec<char> = chars_of(dir);
    let mut path: String = dir.to_string();
    if chars.len() > 0 && chars[chars.len() - 1] != '/' {
        path.append("/");
    }
    path.append(name);
    assert(path@ =~= joined(dir@, name@));
    path
}

/// Whether `a` comes no later than `b` when texts are ordered by their characters.
pub open spec fn text_le(a: Seq<char>, b: Seq<char>) -> bool
    decreases a.len(),
{
    if a.len() == 0 {
        true
    } else if b.len() == 0 {
        false
    } else {
        a[0] < b[0] || (a[0] == b[0] && text_le(a.drop_first(), b.drop_first()))
    }
}

/// Any two texts are in order, one way or the other.
pub proof fn lemma_text_total(a: Seq<char>, b: Seq<char>)
    ensures
        text_le(a, b) || text_le(b, a),
        text_le(a, a),
        text_le(a, b) && text_le(b, a) ==> a == b,
    decreases a.len(),
{
    if a.len() > 0 {
        lemma_text_total(a.drop_first(), a.drop_first());
    }
    if a.len() > 0 && b.len() > 0 {
        lemma_text_total(a.drop_first(), b.drop_first());
        if text_le(a, b) && text_le(b, a) {
            assert(a =~= seq![a[0]] + a.drop_first());
            assert(b =~= seq![b[0]] + b.drop_first());
        }
    } else if text_le(a, b) && text_le(b, a) {
        assert(a =~= b);
    }
}

/// The order of texts carries over.
pub proof fn lemma_text_transitive(a: Seq<char>, b: Seq<char>, c: Seq<char>)
    requires
        text_le(a, b),
        text_le(b, c),
    ensures
        text_le(a, c),
    decreases a.len(),
{
    if a.len() > 0 && a[0] == b[0] && b[0] == c[0] {
        lemma_text_transitive(a.drop_first(), b.drop_first(), c.drop_first());
    }
}

/// Whether `a` comes no later than `b` when texts are ordered by their characters.
pub(crate) fn text_not_after(a: &str, b: &str) -> (r: bool)
    ensures
        r == text_le(a@, b@),
{
    let x: Vec<char> = chars_of(a);
    let y: Vec<char> = chars_of(b);
    let mut i: usize = 0;
    proof {
        assert(x@.skip(0) =~= x@);
        assert(y@.skip(0) =~= y@);
    }
    while i < x.len()
        invariant
            x@ == a@,
            y@ == b@,
            i <= x@.len(),
            i <= y@.len(),
            text_le(a@, b@) == text_le(x@.skip(i as int), y@.skip(i as int)),
        decreases x@.len() - i,
    {
        if i >= y.len() {
            return false;
        }
        proof {
            assert(x@.skip(i as int).drop_first() =~= x@.skip(i + 1));
            assert(y@.skip(i as int).drop_first() =~= y@.skip(i + 1));
        }
        if x[i] < y[i] {
            return true;
        }
        if x[i] != y[i] {
            return false;
        }
        i += 1;
    }
    true
}

/// Texts are ordered by the first character in which they differ; a text comes before all that it
/// begins.
pub proof fn law_order_of_texts(a: Seq<char>, b: Seq<char>, i: int)
    requires
        0 <= i <= a.len(),
        i <= b.len(),
        a.take(i) == b.take(i),
    ensures
        i < a.len() && i < b.len() && a[i] < b[i] ==> text_le(a, b) && !text_le(b, a),
        i == a.len() ==> text_le(a, b),
        i == a.len() && i < b.len() ==> !text_le(b, a),
    decreases i,
{
    if i > 0 {
        assert(a.take(i)[0] == a[0] && b.take(i)[0] == b[0]);
        assert(a.drop_first().take(i - 1) =~= a.take(i).drop_first());
        assert(b.drop_first().take(i - 1) =~= b.take(i).drop_first());
        law_order_of_texts(a.drop_first(), b.drop_first(), i - 1);
    }
}

/// Spaces, tabs and line ends are white space; letters, digits and other visible ASCII characters are
/// not. Of the ASCII characters just the capital letters have another lower case, 32 places further.
pub proof fn law_ascii_characters(c: char)
    ensures
        c == ' ' || c == '\t' || c == '\n' || c == '\r' ==> is_white_space(c),
        '!' <= c <= '~' ==> !is_white_space(c),
        'A' <= c <= 'Z' ==> lower(c) as int == c as int + 32,
        c < 'A' || ('Z' < c && c <= '~') ==> lower(c) == c,
{
}

/// A text reads as a name in whatever case its letters are written.
pub proof fn law_case_does_not_matter(s: Seq<char>, name: Seq<char>)
    requires
        s.len() == name.len(),
        forall|i: int|
            0 <= i < s.len() ==> (#[trigger] s[i] == name[i] && (s[i] < 'A' || ('Z' < s[i] && s[i]
                <= '~'))) || ('A' <= s[i] <= 'Z' && s[i] as int + 32 == name[i] as int),
    ensures
        reads_as(s, name),
{
    assert forall|i: int| 0 <= i < s.len() implies lower(#[trigger] s[i]) == name[i] by {
        law_ascii_characters(s[i]);
    }
}

/// The path of a file in a directory has one slash between the two.
pub proof fn law_paths_have_one_slash(dir: Seq<char>, name: Seq<char>)
    ensures
        dir.len() == 0 ==> joined(dir, name) == name,
        dir.len() > 0 && dir.last() != '/' ==> joined(dir, name) == dir.push('/') + name,
        dir.len() > 0 && dir.last() == '/' ==> joined(dir, name) == dir + name,
{
    reveal_strlit("/");
    assert(dir + "/"@ =~= dir.push('/'));
}

/// Replacing starts with the first place at which the part occurs: what stands before it is kept, the part
/// gives way to what replaces it, and the rest of the text is treated alike. A text in which the part does
/// not occur stays as it is.
pub proof fn law_occurrences_are_replaced(s: Seq<char>, from: Seq<char>, to: Seq<char>, k: int)
    requires
        from.len() > 0,
        0 <= k <= s.len(),
        forall|j: int| 0 <= j < k ==> !#[trigger] occurs_at(s, from, j),
    ensures
        k == s.len() ==> replaced(s, from, to) == s,
        k + from.len() <= s.len() && s.subrange(k, k + from.len()) == from ==> replaced(s, from, to)
            == s.take(k) + to + replaced(s.skip(k + from.len()), from, to),
    decreases s.len(),
{
    if k == 0 {
        assert(s.take(0) + to =~= to);
        if from.len() <= s.len() && s.subrange(0, from.len() as int) == from {
            assert(occurs_at(s, from, 0));
        }
    } else {
        let rest = s.drop_first();
        assert(!occurs_at(s, from, 0));
        assert forall|j: int| 0 <= j < k - 1 implies !#[trigger] occurs_at(rest, from, j) by {
            assert(!occurs_at(s, from, j + 1));
            if occurs_at(rest, from, j) {
                assert(s.subrange(j + 1, j + 1 + from.len()) =~= rest.subrange(j, j + from.len()));
            }
        }
        law_occurrences_are_replaced(rest, from, to, k - 1);
        assert(seq![s[0]] + rest =~= s);
        if k + from.len() <= s.len() && s.subrange(k, k + from.len()) == from {
            assert(rest.subrange(k - 1, k - 1 + from.len()) =~= s.subrange(k, k + from.len()));
            assert(rest.skip(k - 1 + from.len()) =~= s.skip(k + from.len()));
            let tail = replaced(s.skip(k + from.len()), from, to);
            assert(seq![s[0]] + (rest.take(k - 1) + to + tail) =~= s.take(k) + to + tail);
        }
    }
}

} // verus!
