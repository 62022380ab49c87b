//! Byte-level helpers: comparison, big-endian integers and decimal text.

use vstd::prelude::*;
use vstd::string::*;

verus! {

/// The number that a big-endian byte string stands for.
pub open spec fn be_value(s: Seq<u8>) -> nat
    decreases s.len(),
{
    if s.len() == 0 {
        0
    } else {
        be_value(s.drop_last()) * 256 + s.last() as nat
    }
}

/// The `width` low-order bytes of `n`, most significant byte first.
pub open spec fn be_bytes(n: nat, width: nat) -> Seq<u8>
    decreases width,
{
    if width == 0 {
        Seq::empty()
    } else {
        be_bytes(n / 256, (width - 1) as nat).push((n % 256) as u8)
    }
}

/// `256` to the power `width`: how many values `width` bytes can hold.
pub open spec fn byte_capacity(width: nat) -> nat
    decreases width,
{
    if width == 0 {
        1
    } else {
        256 * byte_capacity((width - 1) as nat)
    }
}

/// `be_bytes` always fills the width that was asked for.
pub proof fn lemma_be_bytes_len(n: nat, width: nat)
    ensures
        be_bytes(n, width).len() == width,
    decreases width,
{
    if width > 0 {
        lemma_be_bytes_len(n / 256, (width - 1) as nat);
    }
}

/// A byte string of length `w` stands for a number below `256^w`.
pub proof fn lemma_be_value_bound(s: Seq<u8>)
    ensures
        be_value(s) < byte_capacity(s.len()),
    decreases s.len(),
{
    if s.len() > 0 {
        lemma_be_value_bound(s.drop_last());
    }
}

/// Writing a number that fits and reading it back gives the number.
pub proof fn lemma_be_round_trip(n: nat, width: nat)
    requires
        n < byte_capacity(width),
    ensures
        be_value(be_bytes(n, width)) == n,
    decreases width,
{
    if width > 0 {
        lemma_be_round_trip(n / 256, (width - 1) as nat);
        let s = be_bytes(n, width);
        assert(s.drop_last() =~= be_bytes(n / 256, (width - 1) as nat));
    }
}

/// Reading a byte string and writing the number at the same width gives the bytes back.
pub proof fn lemma_be_bytes_of_value(s: Seq<u8>)
    ensures
        be_bytes(be_value(s), s.len()) == s,
    decreases s.len(),
{
    if s.len() > 0 {
        lemma_be_bytes_of_value(s.drop_last());
        assert(be_value(s) / 256 == be_value(s.drop_last()));
        assert(be_value(s) % 256 == s.last() as nat);
        assert(s.drop_last().push(s.last()) =~= s);
    } else {
        assert(s =~= Seq::<u8>::empty());
    }
}

/// Byte strings of one length that stand for one number are equal.
pub proof fn lemma_be_value_injective(a: Seq<u8>, b: Seq<u8>)
    requires
        a.len() == b.len(),
        be_value(a) == be_value(b),
    ensures
        a == b,
{
    lemma_be_bytes_of_value(a);
    lemma_be_bytes_of_value(b);
}

/// Values of the capacities that fixed-width integers need.
pub proof fn lemma_byte_capacity_values()
    ensures
        byte_capacity(1) == 0x100,
        byte_capacity(2) == 0x1_0000,
        byte_capacity(4) == 0x1_0000_0000,
        byte_capacity(8) == 0x1_0000_0000_0000_0000,
{
    reveal_with_fuel(byte_capacity, 9);
}

/// A shorter width has the smaller capacity.
pub proof fn lemma_byte_capacity_monotone(a: nat, b: nat)
    requires
        a <= b,
    ensures
        byte_capacity(a) <= byte_capacity(b),
    decreases b,
{
    if a < b {
        lemma_byte_capacity_monotone(a, (b - 1) as nat);
    }
}

/// Numbers are read with the most significant byte first, and written so that each byte counts 256
/// times as much as the next.
pub proof fn law_most_significant_byte_first(s: Seq<u8>, t: Seq<u8>, b: u8)
    ensures
        be_value(Seq::<u8>::empty()) == 0,
        be_value(seq![b]) == b,
        be_value(seq![b] + t) == b * byte_capacity(t.len()) + be_value(t),
        be_value(s + t) == be_value(s) * byte_capacity(t.len()) + be_value(t),
        byte_capacity(0) == 1,
        byte_capacity(t.len() + 1) == 256 * byte_capacity(t.len()),
    decreases t.len(),
{
    lemma_concat_value(seq![b], t);
    lemma_concat_value(s, t);
    assert(seq![b].drop_last() =~= Seq::<u8>::empty());
    reveal_with_fuel(be_value, 2);
}

proof fn lemma_concat_value(s: Seq<u8>, t: Seq<u8>)
    ensures
        be_value(s + t) == be_value(s) * byte_capacity(t.len()) + be_value(t),
    decreases t.len(),
{
    if t.len() == 0 {
        assert(s + t =~= s);
        let v = be_value(s);
        let c = byte_capacity(0);
        assert(v * c == v) by (nonlinear_arith)
            requires
                c == 1,
        ;
    } else {
        lemma_concat_value(s, t.drop_last());
        assert((s + t).drop_last() =~= s + t.drop_last());
        let v = be_value(s);
        let c = byte_capacity((t.len() - 1) as nat);
        let w = be_value(t.drop_last());
        assert(byte_capacity(t.len()) == 256 * c);
        assert((v * c + w) * 256 == v * (256 * c) + w * 256) by (nonlinear_arith);
    }
}

/// Two bytes stand for the first one times 256 and the second one, four bytes likewise.
pub proof fn law_short_numbers(s: Seq<u8>)
    ensures
        s.len() == 2 ==> be_value(s) == s[0] * 256 + s[1],
        s.len() == 4 ==> be_value(s) == s[0] * 0x100_0000 + s[1] * 0x1_0000 + s[2] * 256 + s[3],
{
    reveal_with_fuel(be_value, 5);
    if s.len() == 4 {
        assert(s.drop_last().drop_last().drop_last().drop_last() =~= Seq::<u8>::empty());
    } else if s.len() == 2 {
        assert(s.drop_last().drop_last() =~= Seq::<u8>::empty());
    }
}

/// Compares two byte strings.
pub fn same_bytes(a: &[u8], b: &[u8]) -> (r: bool)
    ensures
        r == (a@ == b@),
{
    if a.len() != b.len() {
        return false;
    }
    let mut i: usize = 0;
    while i < a.len()
        invariant
            i <= a.len(),
            a.len() == b.len(),
            forall|j: int| 0 <= j < i ==> a[j] == b[j],
        decreases a.len() - i,
    {
        if a[i] != b[i] {
            return false;
        }
        i += 1;
    }
    assert(a@ =~= b@);
    true
}

proof fn lemma_value_step(a: Seq<u8>, b: Seq<u8>, i: int)
    requires
        a.len() == b.len(),
        0 <= i < a.len(),
    ensures
        be_value(a.take(i + 1)) == be_value(a.take(i)) * 256 + a[i],
        be_value(b.take(i + 1)) == be_value(b.take(i)) * 256 + b[i],
{
    assert(a.take(i + 1).drop_last() =~= a.take(i));
    assert(b.take(i + 1).drop_last() =~= b.take(i));
}

proof fn lemma_less_extends(a: Seq<u8>, b: Seq<u8>, i: int)
    requires
        a.len() == b.len(),
        0 <= i <= a.len(),
        be_value(a.take(i)) < be_value(b.take(i)),
    ensures
        be_value(a) < be_value(b),
    decreases a.len() - i,
{
    if i == a.len() {
        assert(a.take(i) =~= a);
        assert(b.take(i) =~= b);
    } else {
        lemma_value_step(a, b, i);
        lemma_less_extends(a, b, i + 1);
    }
}

/// Whether `a` stands for the smaller number, for byte strings of one length.
pub fn bytes_less(a: &[u8], b: &[u8]) -> (r: bool)
    requires
        a@.len() == b@.len(),
    ensures
        r == (be_value(a@) < be_value(b@)),
{
    let mut i: usize = 0;
    proof {
        assert(a@.take(0) =~= b@.take(0));
    }
    while i < a.len()
        invariant
            i <= a.len(),
            a@.len() == b@.len(),
            be_value(a@.take(i as int)) == be_value(b@.take(i as int)),
        decreases a.len() - i,
    {
        proof {
            lemma_value_step(a@, b@, i as int);
        }
        if a[i] < b[i] {
            proof {
                lemma_less_extends(a@, b@, i + 1);
            }
            return true;
        }
        if a[i] > b[i] {
            proof {
                lemma_less_extends(b@, a@, i + 1);
            }
            return false;
        }
        i += 1;
    }
    proof {
        assert(a@.take(i as int) =~= a@);
        assert(b@.take(i as int) =~= b@);
    }
    false
}

/// Compares two byte arrays.
pub fn same_array<const N: usize>(a: &[u8; N], b: &[u8; N]) -> (r: bool)
    ensures
        r == (a == b),
{
    let r: bool = same_bytes(a.as_slice(), b.as_slice());
    assert(a@ =~= b@ ==> *a =~= *b);
    r
}

/// Compares two texts.
pub fn same_text(a: &str, b: &str) -> (r: bool)
    ensures
        r == (a@ == b@),
{
    let r: bool = same_bytes(a.as_bytes(), b.as_bytes());
    proof {
        vstd::utf8::encode_utf8_decode_utf8(a@);
        vstd::utf8::encode_utf8_decode_utf8(b@);
    }
    r
}

/// Appends the UTF-8 bytes of `text`.
pub fn put_text(out: &mut Vec<u8>, text: &str)
    ensures
        final(out)@ == old(out)@ + text.spec_bytes(),
{
    out.extend_from_slice(text.as_bytes());
}

/// Appends a byte string.
pub fn put_bytes(out: &mut Vec<u8>, data: &[u8])
    ensures
        final(out)@ == old(out)@ + data@,
{
    out.extend_from_slice(data);
}

/// Appends `x` as `width` big-endian bytes.
pub fn put_be(out: &mut Vec<u8>, x: u64, width: usize)
    ensures
        final(out)@ == old(out)@ + be_bytes(x as nat, width as nat),
    decreases width,
{
    if width > 0 {
        put_be(out, x / 256, width - 1);
        out.push((x % 256) as u8);
        assert(out@ =~= old(out)@ + be_bytes(x as nat, width as nat));
    }
}

/// Reads the big-endian integer in `data[from..to]`.
pub fn read_be(data: &[u8], from: usize, to: usize) -> (r: u64)
    requires
        from <= to <= data.len(),
        to - from <= 8,
    ensures
        r == be_value(data@.subrange(from as int, to as int)),
        r < byte_capacity((to - from) as nat),
{
    let mut value: u64 = 0;
    let mut i: usize = from;
    while i < to
        invariant
            from <= i <= to <= data.len(),
            to - from <= 8,
            value == be_value(data@.subrange(from as int, i as int)),
            value < byte_capacity((i - from) as nat),
        decreases to - i,
    {
        let ghost next = data@.subrange(from as int, i + 1);
        proof {
            assert(next.drop_last() =~= data@.subrange(from as int, i as int));
            lemma_be_value_bound(next);
            lemma_byte_capacity_monotone((i + 1 - from) as nat, 8);
            lemma_byte_capacity_values();
        }
        value = value * 256 + data[i] as u64;
        i += 1;
    }
    value
}

/// The two's complement reading of a 32-bit pattern.
pub open spec fn signed_32(v: int) -> int {
    if v < 0x8000_0000 {
        v
    } else {
        v - 0x1_0000_0000
    }
}

/// Reads a 32-bit pattern as a signed number.
pub fn to_signed_32(v: u32) -> (r: i32)
    ensures
        r == signed_32(v as int),
{
    if v < 0x8000_0000 {
        v as i32
    } else {
        -((0xFFFF_FFFF - v) as i32) - 1
    }
}

/// The low-order `8` bits of a number, as two's complement has them.
pub fn low_u8(n: i64) -> (r: u8)
    ensures
        r == n as int % 256,
{
    if n >= 0 {
        (n as u64 % 256) as u8
    } else {
        255 - ((-(n + 1)) as u64 % 256) as u8
    }
}

/// The low-order `16` bits of a number, as two's complement has them.
pub fn low_u16(n: i64) -> (r: u16)
    ensures
        r == n as int % 65536,
{
    if n >= 0 {
        (n as u64 % 65536) as u16
    } else {
        65535 - ((-(n + 1)) as u64 % 65536) as u16
    }
}

/// Copies `data[from..from + 20]` into an array.
pub fn take_20(data: &[u8], from: usize) -> (r: [u8; 20])
    requires
        from + 20 <= data.len(),
    ensures
        r@ == data@.subrange(from as int, from + 20),
{
    let mut out: [u8; 20] = [0u8; 20];
    let mut i: usize = 0;
    while i < 20
        invariant
            i <= 20,
            from + 20 <= data.len(),
            forall|j: int| 0 <= j < i ==> out[j] == data[from + j],
        decreases 20 - i,
    {
        out[i] = data[from + i];
        i += 1;
    }
    assert(out@ =~= data@.subrange(from as int, from + 20));
    out
}

/// Copies `data[from..to]`.
pub fn sub_vec(data: &[u8], from: usize, to: usize) -> (r: Vec<u8>)
    requires
        from <= to <= data.len(),
    ensures
        r@ == data@.subrange(from as int, to as int),
{
    let mut out: Vec<u8> = Vec::with_capacity(to - from);
    let mut i: usize = from;
    while i < to
        invariant
            from <= i <= to <= data.len(),
            out@ == data@.subrange(from as int, i as int),
        decreases to - i,
    {
        out.push(data[i]);
        i += 1;
        assert(out@ =~= data@.subrange(from as int, i as int));
    }
    out
}

/// The decimal digits of `n` as ASCII bytes, without leading zeros.
pub open spec fn decimal(n: nat) -> Seq<u8>
    decreases n,
{
    if n < 10 {
        seq![(48 + n) as u8]
    } else {
        decimal(n / 10).push((48 + n % 10) as u8)
    }
}

/// The decimal text of a signed number as ASCII bytes.
pub open spec fn signed_decimal(n: int) -> Seq<u8> {
    if n < 0 {
        seq![45u8] + decimal((-n) as nat)
    } else {
        decimal(n as nat)
    }
}

/// Appends the decimal digits of `n`.
pub fn put_decimal(out: &mut Vec<u8>, n: u64)
    ensures
        final(out)@ == old(out)@ + decimal(n as nat),
    decreases n,
{
    if n < 10 {
        out.push(48 + n as u8);
        assert(out@ =~= old(out)@ + decimal(n as nat));
    } else {
        put_decimal(out, n / 10);
        out.push(48 + (n % 10) as u8);
        assert(out@ =~= old(out)@ + decimal(n as nat));
    }
}

/// Appends the decimal text of a signed number.
pub fn put_signed_decimal(out: &mut Vec<u8>, n: i64)
    ensures
        final(out)@ == old(out)@ + signed_decimal(n as int),
{
    if n < 0 {
        out.push(45);
        let magnitude: u64 = (-(n + 1)) as u64 + 1;
        put_decimal(out, magnitude);
        assert(out@ =~= old(out)@ + signed_decimal(n as int));
    } else {
        put_decimal(out, n as u64);
    }
}

/// The decimal digits of `n` as text.
pub open spec fn decimal_text(n: nat) -> Seq<char>
    decreases n,
{
    if n < 10 {
        seq![digit_char(n)]
    } else {
        decimal_text(n / 10).push(digit_char(n % 10))
    }
}

/// A number below a power of ten has at most so many digits.
pub proof fn lemma_decimal_text_len(n: nat, digits: nat)
    requires
        n < vstd::arithmetic::power::pow(10, digits),
        digits > 0,
    ensures
        decimal_text(n).len() <= digits,
    decreases digits,
{
    if n >= 10 {
        vstd::arithmetic::power::lemma_pow1(10);
        vstd::arithmetic::power::lemma_pow_adds(10, 1, (digits - 1) as nat);
        if digits == 1 {
            vstd::arithmetic::power::lemma_pow0(10);
        } else {
            lemma_decimal_text_len(n / 10, (digits - 1) as nat);
        }
    }
}

/// The character of a decimal digit.
pub open spec fn digit_char(d: nat) -> char {
    if d == 0 {
        '0'
    } else if d == 1 {
        '1'
    } else if d == 2 {
        '2'
    } else if d == 3 {
        '3'
    } else if d == 4 {
        '4'
    } else if d == 5 {
        '5'
    } else if d == 6 {
        '6'
    } else if d == 7 {
        '7'
    } else if d == 8 {
        '8'
    } else {
        '9'
    }
}

fn digit_text(d: u64) -> (r: &'static str)
    requires
        d < 10,
    ensures
        r@ == seq![digit_char(d as nat)],
{
    proof {
        reveal_strlit("0");
        reveal_strlit("1");
        reveal_strlit("2");
        reveal_strlit("3");
        reveal_strlit("4");
        reveal_strlit("5");
        reveal_strlit("6");
        reveal_strlit("7");
        reveal_strlit("8");
        reveal_strlit("9");
    }
    let r: &'static str = match d {
        0 => "0",
        1 => "1",
        2 => "2",
        3 => "3",
        4 => "4",
        5 => "5",
        6 => "6",
        7 => "7",
        8 => "8",
        _ => "9",
    };
    assert(r@ =~= seq![digit_char(d as nat)]);
    r
}

/// Appends the decimal digits of `n` to a text.
pub fn append_decimal(out: &mut String, n: u64)
    ensures
        final(out)@ == old(out)@ + decimal_text(n as nat),
    decreases n,
{
    if n >= 10 {
        append_decimal(out, n / 10);
    }
    out.append(digit_text(n % 10));
    assert(out@ =~= old(out)@ + decimal_text(n as nat));
}

/// The decimal digits of a number are ASCII digits, and their bytes are those of [`decimal`].
pub proof fn lemma_decimal_text(n: nat)
    ensures
        decimal_text(n).len() > 0,
        forall|i: int| 0 <= i < decimal_text(n).len() ==> '0' <= #[trigger] decimal_text(n)[i] <= '9',
        vstd::utf8::encode_utf8(decimal_text(n)) == decimal(n),
{
    lemma_decimal_chars(n);
    let t = decimal_text(n);
    assert(vstd::utf8::is_ascii_chars(t));
    vstd::utf8::is_ascii_chars_encode_utf8(t);
    assert(vstd::utf8::encode_utf8(t) =~= decimal(n));
}

proof fn lemma_decimal_chars(n: nat)
    ensures
        decimal_text(n).len() == decimal(n).len() > 0,
        forall|i: int|
            0 <= i < decimal_text(n).len() ==> '0' <= #[trigger] decimal_text(n)[i] <= '9'
                && decimal_text(n)[i] as u8 == decimal(n)[i],
    decreases n,
{
    if n >= 10 {
        lemma_decimal_chars(n / 10);
    }
}

/// Whether a byte is a decimal digit.
pub open spec fn is_digit(b: u8) -> bool {
    48 <= b <= 57
}

/// The number that decimal digits stand for.
pub open spec fn digits_value(s: Seq<u8>) -> nat
    decreases s.len(),
{
    if s.len() == 0 {
        0
    } else {
        digits_value(s.drop_last()) * 10 + (s.last() - 48) as nat
    }
}

/// Whether a byte string is made of decimal digits.
pub open spec fn all_digits(s: Seq<u8>) -> bool {
    forall|i: int| 0 <= i < s.len() ==> is_digit(#[trigger] s[i])
}

/// The digits of a number that may start with a plus sign.
pub open spec fn unsigned_digits(s: Seq<u8>) -> Seq<u8> {
    if s.len() > 0 && s[0] == 43 {
        s.drop_first()
    } else {
        s
    }
}

/// The number up to `max` that a text stands for: digits, with a plus sign before them or not.
pub open spec fn number_in(s: Seq<u8>, max: nat) -> Option<nat> {
    let d = unsigned_digits(s);
    if d.len() > 0 && all_digits(d) && digits_value(d) <= max {
        Some(digits_value(d))
    } else {
        None
    }
}

proof fn lemma_digits_prefix(s: Seq<u8>, i: int)
    requires
        0 <= i <= s.len(),
        all_digits(s),
    ensures
        digits_value(s.take(i)) <= digits_value(s),
    decreases s.len() - i,
{
    if i < s.len() {
        lemma_digits_prefix(s, i + 1);
        let t = s.take(i + 1);
        assert(t.drop_last() =~= s.take(i));
        assert(is_digit(s[i]));
        assert(t.last() == s[i]);
    } else {
        assert(s.take(i) =~= s);
    }
}

/// The decimal digits of a number stand for it.
pub proof fn law_decimal_round_trip(n: nat)
    ensures
        digits_value(decimal(n)) == n,
        all_digits(decimal(n)),
        decimal(n).len() > 0,
        number_in(decimal(n), n) == Some(n),
    decreases n,
{
    let d = decimal(n);
    if n < 10 {
        assert(d.drop_last() =~= Seq::empty());
        assert(digits_value(d.drop_last()) == 0);
    } else {
        law_decimal_round_trip(n / 10);
        assert(d.drop_last() =~= decimal(n / 10));
        assert forall|i: int| 0 <= i < d.len() implies is_digit(#[trigger] d[i]) by {
            if i < d.len() - 1 {
                assert(d[i] == decimal(n / 10)[i]);
            }
        }
    }
    assert(is_digit(d[0]));
}

/// Reads a number up to `max`.
pub fn parse_number(s: &[u8], max: u64) -> (r: Option<u64>)
    ensures
        match r {
            Some(n) => number_in(s@, max as nat) == Some(n as nat),
            None => number_in(s@, max as nat) is None,
        },
{
    let start: usize = if s.len() > 0 && s[0] == 43 {
        1
    } else {
        0
    };
    let ghost d = unsigned_digits(s@);
    assert(d =~= s@.skip(start as int));
    if start >= s.len() {
        return None;
    }
    let mut value: u64 = 0;
    let mut i: usize = start;
    assert(d.take(0) =~= Seq::empty());
    while i < s.len()
        invariant
            start <= i <= s@.len(),
            d == s@.skip(start as int),
            d == unsigned_digits(s@),
            value == digits_value(d.take(i - start)),
            value <= max,
            forall|j: int| 0 <= j < i - start ==> is_digit(#[trigger] d[j]),
        decreases s@.len() - i,
    {
        let b: u8 = s[i];
        assert(d[i - start] == b);
        if b < 48 || b > 57 {
            assert(!is_digit(d[i - start]));
            return None;
        }
        let wide: u128 = value as u128 * 10 + (b - 48) as u128;
        proof {
            let t = d.take(i - start + 1);
            assert(t.drop_last() =~= d.take(i - start));
            assert(t.last() == b);
            assert(wide == digits_value(t));
        }
        if wide > max as u128 {
            proof {
                if all_digits(d) {
                    lemma_digits_prefix(d, i - start + 1);
                }
            }
            return None;
        }
        value = wide as u64;
        i += 1;
    }
    assert(d.take(i - start) =~= d);
    Some(value)
}

/// Whether `part` stands in `s` at position `i`.
pub open spec fn bytes_at(s: Seq<u8>, part: Seq<u8>, i: int) -> bool {
    i + part.len() <= s.len() && s.subrange(i, i + part.len()) == part
}

/// The first position from `i` on at which `part` stands in `s`.
pub open spec fn position_from(s: Seq<u8>, part: Seq<u8>, i: int) -> Option<int>
    decreases s.len() + 1 - i,
{
    if i < 0 || i + part.len() > s.len() {
        None
    } else if bytes_at(s, part, i) {
        Some(i)
    } else {
        position_from(s, part, i + 1)
    }
}

/// The first position at which `part` stands in `s`.
pub fn find_bytes(s: &[u8], part: &[u8]) -> (r: Option<usize>)
    ensures
        match r {
            Some(i) => position_from(s@, part@, 0) == Some(i as int) && i + part@.len() <= s@.len(),
            None => position_from(s@, part@, 0) is None,
        },
{
    if part.len() > s.len() {
        return None;
    }
    let last: usize = s.len() - part.len();
    let mut i: usize = 0;
    while i < last
        invariant
            i <= last == s@.len() - part@.len(),
            position_from(s@, part@, 0) == position_from(s@, part@, i as int),
        decreases last - i,
    {
        if same_bytes_at(s, part, i) {
            return Some(i);
        }
        i += 1;
    }
    if same_bytes_at(s, part, last) {
        Some(last)
    } else {
        assert(position_from(s@, part@, last + 1) is None);
        None
    }
}

/// Whether `part` stands in `s` at position `at`.
fn same_bytes_at(s: &[u8], part: &[u8], at: usize) -> (r: bool)
    requires
        at + part@.len() <= s@.len(),
    ensures
        r == bytes_at(s@, part@, at as int),
{
    let mut k: usize = 0;
    while k < part.len()
        invariant
            k <= part@.len(),
            at + part.len() <= s.len(),
            forall|j: int| 0 <= j < k ==> #[trigger] s@[at + j] == part@[j],
        decreases part@.len() - k,
    {
        if s[at + k] != part[k] {
            assert(s@.subrange(at as int, at + part@.len())[k as int] == s@[at + k]);
            return false;
        }
        k += 1;
    }
    assert forall|j: int| 0 <= j < part@.len() implies s@.subrange(
        at as int,
        at + part@.len(),
    )[j] == part@[j] by {
        assert(s@[at + j] == part@[j]);
    }
    assert(s@.subrange(at as int, at + part@.len()) =~= part@);
    true
}

/// The number that a text of decimal digits stands for.
pub open spec fn text_value(s: Seq<char>) -> int
    decreases s.len(),
{
    if s.len() == 0 {
        0
    } else {
        10 * text_value(s.drop_last()) + (s.last() as int - '0' as int)
    }
}

/// The decimal text of a number is made of digits, stands for the number, and does not begin with a
/// zero unless it is one.
pub proof fn law_decimal_text_stands_for_the_number(n: nat)
    ensures
        text_value(decimal_text(n)) == n,
        decimal_text(n).len() > 0,
        n > 0 ==> decimal_text(n)[0] != '0',
        forall|i: int|
            0 <= i < decimal_text(n).len() ==> '0' <= #[trigger] decimal_text(n)[i] <= '9',
    decreases n,
{
    reveal_with_fuel(text_value, 2);
    if n < 10 {
        assert(seq![digit_char(n)].drop_last() =~= Seq::<char>::empty());
    } else {
        law_decimal_text_stands_for_the_number(n / 10);
        let rest = decimal_text(n / 10);
        let all = rest.push(digit_char(n % 10));
        assert(decimal_text(n) == all);
        assert(all.drop_last() =~= rest);
        assert forall|i: int| 0 <= i < all.len() implies '0' <= #[trigger] all[i] <= '9' by {
            if i < rest.len() {
                assert(all[i] == rest[i]);
            }
        }
        assert(all[0] == rest[0]);
    }
}

/// A pattern of 32 bits is read as the number in the signed range that is equal to it but for a
/// multiple of two to the 32nd.
pub proof fn law_signed_reading(v: int)
    requires
        0 <= v < 0x1_0000_0000,
    ensures
        -0x8000_0000 <= signed_32(v) < 0x8000_0000,
        signed_32(v) == v || signed_32(v) == v - 0x1_0000_0000,
{
}

/// What is found is the first place at or after the start: the part stands there, and nowhere before;
/// nothing is found only if it stands nowhere.
pub proof fn law_first_place_is_found(s: Seq<u8>, part: Seq<u8>, i: int, k: int)
    requires
        0 <= i <= k,
        k + part.len() <= s.len(),
        s.subrange(k, k + part.len()) == part,
    ensures
        position_from(s, part, i) is Some,
        i <= position_from(s, part, i)->0 <= k,
        s.subrange(
            position_from(s, part, i)->0,
            position_from(s, part, i)->0 + part.len(),
        ) == part,
    decreases k - i,
{
    assert(bytes_at(s, part, k));
    if !bytes_at(s, part, i) {
        law_first_place_is_found(s, part, i + 1, k);
    }
}

/// Of two byte strings of one length the one with the smaller byte at the first place where they differ
/// stands for the smaller number.
pub proof fn law_first_difference_decides(a: Seq<u8>, b: Seq<u8>, i: int)
    requires
        a.len() == b.len(),
        0 <= i < a.len(),
        forall|j: int| 0 <= j < i ==> #[trigger] a[j] == b[j],
        a[i] < b[i],
    ensures
        be_value(a) < be_value(b),
{
    assert(a.take(i) =~= b.take(i));
    lemma_value_step(a, b, i);
    lemma_less_extends(a, b, i + 1);
}

} // verus!
