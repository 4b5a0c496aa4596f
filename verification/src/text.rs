//! Character- and byte-level helpers shared by the other modules: appending
//! to strings, decimal and fixed-width hexadecimal rendering, and the
//! byte-wise ordering of strings.

use vstd::prelude::*;
use vstd::utf8::*;

verus! {

/// `String::push` appends one character to the string.
pub assume_specification[ String::push ](s: &mut String, ch: char)
    ensures
        final(s)@ == old(s)@.push(ch),
;

/// `char::from_u32` gives the character with that code when the code is a
/// Unicode scalar value (not a surrogate, at most `0x10FFFF`), else `None`.
pub assume_specification[ char::from_u32 ](i: u32) -> (r: Option<char>)
    ensures
        r == (if is_scalar(i) {
            Some(i as char)
        } else {
            None::<char>
        }),
;

/// The characters of a string slice, in order.
pub fn chars_of(s: &str) -> (out: Vec<char>)
    ensures
        out@ == s@,
{
    let mut out: Vec<char> = Vec::new();
    for c in it: s.chars()
        invariant
            out@ == it.seq().take(it.index()),
    {
        out.push(c);
    }
    out
}

/// The ASCII character of a decimal digit.
pub open spec fn digit_char(d: nat) -> char
    recommends
        d < 10,
{
    ((d + 48) as u8) as char
}

/// The ASCII character of a lowercase hexadecimal digit.
pub open spec fn hex_char(d: nat) -> char
    recommends
        d < 16,
{
    if d < 10 {
        ((d + 48) as u8) as char
    } else {
        ((d + 87) as u8) as char
    }
}

/// The shortest decimal rendering of `n` (what `n.to_string()` gives).
pub open spec fn decimal(n: nat) -> Seq<char>
    decreases n,
{
    if n < 10 {
        seq![digit_char(n)]
    } else {
        decimal(n / 10).push(digit_char(n % 10))
    }
}

/// The same rendering as ASCII bytes.
pub open spec fn decimal_bytes(n: nat) -> Seq<u8>
    decreases n,
{
    if n < 10 {
        seq![(n + 48) as u8]
    } else {
        decimal_bytes(n / 10).push((n % 10 + 48) as u8)
    }
}

/// The lowest `width` hexadecimal digits of `n`, most significant first,
/// zero-padded (what `format!("{:0width$x}", n)` gives when `n < 16^width`).
pub open spec fn hex_fixed(n: nat, width: nat) -> Seq<char>
    decreases width,
{
    if width == 0 {
        Seq::empty()
    } else {
        hex_fixed(n / 16, (width - 1) as nat).push(hex_char(n % 16))
    }
}

/// Appends the decimal rendering of `n`.
pub fn push_decimal(out: &mut String, n: u64)
    ensures
        final(out)@ == old(out)@ + decimal(n as nat),
    decreases n,
{
    if n >= 10 {
        push_decimal(out, n / 10);
    }
    let d: u8 = (n % 10) as u8;
    out.push((d + 48) as char);
    proof {
        assert(old(out)@ + decimal(n as nat) =~= old(out)@ + (if n < 10 {
            Seq::<char>::empty()
        } else {
            decimal((n / 10) as nat)
        }).push(digit_char((n % 10) as nat)));
    }
}

/// Appends the decimal rendering of `n` as ASCII bytes.
pub fn push_decimal_bytes(out: &mut Vec<u8>, n: u64)
    ensures
        final(out)@ == old(out)@ + decimal_bytes(n as nat),
    decreases n,
{
    if n >= 10 {
        push_decimal_bytes(out, n / 10);
    }
    let d: u8 = (n % 10) as u8;
    out.push(d + 48);
    proof {
        assert(old(out)@ + decimal_bytes(n as nat) =~= old(out)@ + (if n < 10 {
            Seq::<u8>::empty()
        } else {
            decimal_bytes((n / 10) as nat)
        }).push(((n % 10) + 48) as u8));
    }
}

/// Appends the lowest `width` hexadecimal digits of `n`, zero-padded.
pub fn push_hex_fixed(out: &mut String, n: u64, width: u32)
    ensures
        final(out)@ == old(out)@ + hex_fixed(n as nat, width as nat),
    decreases width,
{
    if width == 0 {
        proof {
            assert(old(out)@ + hex_fixed(n as nat, 0) =~= old(out)@);
        }
        return ;
    }
    push_hex_fixed(out, n / 16, width - 1);
    let d: u8 = (n % 16) as u8;
    let c: char = if d < 10 {
        (d + 48) as char
    } else {
        (d + 87) as char
    };
    out.push(c);
    proof {
        assert(old(out)@ + hex_fixed(n as nat, width as nat) =~= old(out)@ + hex_fixed(
            (n / 16) as nat,
            (width - 1) as nat,
        ).push(hex_char((n % 16) as nat)));
    }
}

/// Byte-wise lexicographic order: `a` sorts before or equal to `b`.
/// This is the order of `String`'s `Ord`, which compares UTF-8 bytes.
pub open spec fn bytes_le(a: Seq<u8>, b: Seq<u8>) -> bool
    decreases a.len(),
{
    if a.len() == 0 {
        true
    } else if b.len() == 0 {
        false
    } else if a[0] != b[0] {
        a[0] < b[0]
    } else {
        bytes_le(a.drop_first(), b.drop_first())
    }
}

/// The byte-wise order of two strings.
pub open spec fn str_le(a: Seq<char>, b: Seq<char>) -> bool {
    bytes_le(encode_utf8(a), encode_utf8(b))
}

/// Compares two byte slices in lexicographic order.
pub fn slice_le(a: &[u8], b: &[u8]) -> (r: bool)
    ensures
        r == bytes_le(a@, b@),
{
    let mut i: usize = 0;
    assert(a@.skip(0) =~= a@);
    assert(b@.skip(0) =~= b@);
    while i < a.len() && i < b.len() && a[i] == b[i]
        invariant
            i <= a@.len(),
            i <= b@.len(),
            bytes_le(a@, b@) == bytes_le(a@.skip(i as int), b@.skip(i as int)),
        decreases a.len() - i,
    {
        proof {
            assert(a@.skip(i as int).drop_first() =~= a@.skip(i + 1));
            assert(b@.skip(i as int).drop_first() =~= b@.skip(i + 1));
        }
        i = i + 1;
    }
    if i == a.len() {
        true
    } else if i == b.len() {
        false
    } else {
        a[i] < b[i]
    }
}

/// Compares two strings in the order of `String`'s `Ord`.
pub fn string_le(a: &String, b: &String) -> (r: bool)
    ensures
        r == str_le(a@, b@),
{
    slice_le(a.as_str().as_bytes(), b.as_str().as_bytes())
}

/// Any two byte strings are ordered one way or the other.
pub proof fn lemma_bytes_le_total(a: Seq<u8>, b: Seq<u8>)
    ensures
        bytes_le(a, b) || bytes_le(b, a),
    decreases a.len(),
{
    if a.len() > 0 && b.len() > 0 && a[0] == b[0] {
        lemma_bytes_le_total(a.drop_first(), b.drop_first());
    }
}

/// Two byte strings that order each other both ways are equal.
pub proof fn lemma_bytes_le_antisymmetric(a: Seq<u8>, b: Seq<u8>)
    requires
        bytes_le(a, b),
        bytes_le(b, a),
    ensures
        a == b,
    decreases a.len(),
{
    if a.len() == 0 {
        assert(b.len() == 0);
        assert(a =~= b);
    } else {
        lemma_bytes_le_antisymmetric(a.drop_first(), b.drop_first());
        assert(a =~= seq![a[0]] + a.drop_first());
        assert(b =~= seq![b[0]] + b.drop_first());
    }
}

/// The byte-wise order is transitive.
pub proof fn lemma_bytes_le_transitive(a: Seq<u8>, b: Seq<u8>, c: Seq<u8>)
    requires
        bytes_le(a, b),
        bytes_le(b, c),
    ensures
        bytes_le(a, c),
    decreases a.len(),
{
    if a.len() > 0 && b.len() > 0 && c.len() > 0 && a[0] == b[0] && b[0] == c[0] {
        lemma_bytes_le_transitive(a.drop_first(), b.drop_first(), c.drop_first());
    }
}

/// Any two strings are ordered one way or the other.
pub proof fn lemma_str_le_total(a: Seq<char>, b: Seq<char>)
    ensures
        str_le(a, b) || str_le(b, a),
{
    lemma_bytes_le_total(encode_utf8(a), encode_utf8(b));
}

/// Two strings that order each other both ways are equal.
pub proof fn lemma_str_le_antisymmetric(a: Seq<char>, b: Seq<char>)
    requires
        str_le(a, b),
        str_le(b, a),
    ensures
        a == b,
{
    lemma_bytes_le_antisymmetric(encode_utf8(a), encode_utf8(b));
    encode_utf8_decode_utf8(a);
    encode_utf8_decode_utf8(b);
}

/// The byte-wise order of strings is transitive.
pub proof fn lemma_str_le_transitive(a: Seq<char>, b: Seq<char>, c: Seq<char>)
    requires
        str_le(a, b),
        str_le(b, c),
    ensures
        str_le(a, c),
{
    lemma_bytes_le_transitive(encode_utf8(a), encode_utf8(b), encode_utf8(c));
}

/// The UTF-8 encoding of a concatenation is the concatenation of encodings.
pub proof fn lemma_encode_utf8_concat(a: Seq<char>, b: Seq<char>)
    ensures
        encode_utf8(a + b) == encode_utf8(a) + encode_utf8(b),
    decreases a.len(),
{
    if a.len() == 0 {
        assert(a + b =~= b);
        assert(encode_utf8(a) =~= Seq::<u8>::empty());
        assert(encode_utf8(a) + encode_utf8(b) =~= encode_utf8(b));
    } else {
        lemma_encode_utf8_concat(a.drop_first(), b);
        assert((a + b).drop_first() =~= a.drop_first() + b);
        assert((a + b)[0] == a[0]);
        assert(encode_utf8(a + b) =~= encode_scalar(a[0] as u32) + (encode_utf8(a.drop_first())
            + encode_utf8(b)));
    }
}

/// The number of bytes UTF-8 takes for one character.
pub open spec fn utf8_width(c: char) -> nat {
    if (c as u32) <= 0x7f {
        1
    } else if (c as u32) <= 0x7ff {
        2
    } else if (c as u32) <= 0xffff {
        3
    } else {
        4
    }
}

/// Appending a character appends its encoding, `utf8_width` bytes long.
pub proof fn lemma_encode_utf8_push(a: Seq<char>, c: char)
    ensures
        encode_utf8(a.push(c)).len() == encode_utf8(a).len() + utf8_width(c),
{
    lemma_encode_utf8_concat(a, seq![c]);
    assert(a.push(c) =~= a + seq![c]);
    assert(seq![c].drop_first() =~= Seq::<char>::empty());
    assert(encode_utf8(seq![c]) =~= encode_scalar(c as u32) + encode_utf8(Seq::<char>::empty()));
    char_is_scalar(c);
}

/// The byte offset of character position `pos` in the UTF-8 encoding of `s`.
pub fn byte_offset(s: &Vec<char>, pos: usize) -> (r: usize)
    requires
        pos <= s@.len(),
        encode_utf8(s@).len() <= usize::MAX,
    ensures
        r == encode_utf8(s@.take(pos as int)).len(),
{
    proof {
        lemma_encode_utf8_concat(s@.take(pos as int), s@.skip(pos as int));
        assert(s@.take(pos as int) + s@.skip(pos as int) =~= s@);
    }
    let mut total: usize = 0;
    let mut i: usize = 0;
    assert(s@.take(0) =~= Seq::<char>::empty());
    while i < pos
        invariant
            i <= pos,
            pos <= s@.len(),
            encode_utf8(s@.take(pos as int)).len() <= usize::MAX,
            total == encode_utf8(s@.take(i as int)).len(),
        decreases pos - i,
    {
        let c = s[i];
        let u: u32 = c as u32;
        let w: usize = if u <= 0x7f {
            1
        } else if u <= 0x7ff {
            2
        } else if u <= 0xffff {
            3
        } else {
            4
        };
        proof {
            lemma_encode_utf8_push(s@.take(i as int), c);
            assert(s@.take(i as int).push(c) =~= s@.take(i + 1));
            lemma_encode_utf8_concat(s@.take(i + 1), s@.subrange(i + 1, pos as int));
            assert(s@.take(i + 1) + s@.subrange(i + 1, pos as int) =~= s@.take(pos as int));
        }
        total = total + w;
        i = i + 1;
    }
    total
}

/// The number that a string of ASCII decimal digits denotes, reading the
/// most significant digit first.
pub open spec fn ascii_digits_value(s: Seq<u8>) -> int
    decreases s.len(),
{
    if s.len() == 0 {
        0
    } else {
        ascii_digits_value(s.drop_last()) * 10 + (s.last() - 48)
    }
}

/// The decimal bytes of `n` are ASCII digits that read back as `n`, with no
/// leading zero (a single `0` for zero): the ordinary rendering, most
/// significant digit first, so `12` is written `"12"`.
pub proof fn lemma_decimal_bytes_reads_back(n: nat)
    ensures
        decimal_bytes(n).len() >= 1,
        forall|i: int| 0 <= i < decimal_bytes(n).len() ==> 48 <= #[trigger] decimal_bytes(n)[i] <= 57,
        ascii_digits_value(decimal_bytes(n)) == n,
        decimal_bytes(n)[0] == 48 ==> n == 0,
        n < 10 <==> decimal_bytes(n).len() == 1,
    decreases n,
{
    let d = decimal_bytes(n);
    if n >= 10 {
        lemma_decimal_bytes_reads_back(n / 10);
        assert(d.drop_last() =~= decimal_bytes(n / 10));
        assert(d[0] == decimal_bytes(n / 10)[0]);
        assert(d.last() == (n % 10 + 48) as u8);
        assert(d.last() - 48 == n % 10);
        assert(ascii_digits_value(d) == ascii_digits_value(d.drop_last()) * 10 + (d.last() - 48));
        assert((n / 10) * 10 + n % 10 == n) by (nonlinear_arith);
    } else {
        assert(d.drop_last() =~= Seq::<u8>::empty());
        assert(ascii_digits_value(d.drop_last()) == 0);
        assert(d.last() - 48 == n);
    }
}

/// A digit character is encoded as its one ASCII byte.
proof fn lemma_encode_digit_char(d: nat)
    requires
        d < 10,
    ensures
        encode_utf8(seq![digit_char(d)]) == seq![(d + 48) as u8],
{
    let c = digit_char(d);
    let v: u32 = (d + 48) as u32;
    assert(c as u32 == v);
    assert(v & 0x7F == v) by (bit_vector)
        requires
            v < 58,
    ;
    assert(seq![c].drop_first() =~= Seq::<char>::empty());
    assert(encode_utf8(seq![c]) =~= encode_scalar(c as u32) + encode_utf8(Seq::<char>::empty()));
    assert(encode_utf8(seq![c]) =~= seq![(d + 48) as u8]);
}

/// The decimal bytes of a number are the ASCII encoding of its decimal
/// characters.
pub proof fn lemma_decimal_bytes_ascii(n: nat)
    ensures
        decimal_bytes(n) == encode_utf8(decimal(n)),
    decreases n,
{
    if n < 10 {
        lemma_encode_digit_char(n);
    } else {
        lemma_decimal_bytes_ascii(n / 10);
        lemma_encode_digit_char(n % 10);
        lemma_encode_utf8_concat(decimal(n / 10), seq![digit_char(n % 10)]);
        assert(decimal(n / 10).push(digit_char(n % 10)) =~= decimal(n / 10) + seq![digit_char(n % 10)]);
        assert(decimal_bytes(n) =~= decimal_bytes(n / 10) + seq![(n % 10 + 48) as u8]);
    }
}

/// Byte strings are compared at their first difference, by byte value: a
/// string sorts before any string that agrees with it up to a smaller byte
/// and then has a larger one there, and not after it.
pub proof fn lemma_bytes_le_first_difference(p: Seq<u8>, x: u8, s: Seq<u8>, y: u8, t: Seq<u8>)
    requires
        x < y,
    ensures
        bytes_le(p + seq![x] + s, p + seq![y] + t),
        !bytes_le(p + seq![y] + t, p + seq![x] + s),
    decreases p.len(),
{
    let a = p + seq![x] + s;
    let b = p + seq![y] + t;
    if p.len() > 0 {
        lemma_bytes_le_first_difference(p.drop_first(), x, s, y, t);
        assert(a.drop_first() =~= p.drop_first() + seq![x] + s);
        assert(b.drop_first() =~= p.drop_first() + seq![y] + t);
    } else {
        assert(a[0] == x);
        assert(b[0] == y);
    }
}

/// A prefix sorts before or equal to every extension of it, and a proper
/// extension never sorts before its prefix.
pub proof fn lemma_bytes_le_prefix(p: Seq<u8>, s: Seq<u8>)
    ensures
        bytes_le(p, p + s),
        s.len() > 0 ==> !bytes_le(p + s, p),
    decreases p.len(),
{
    if p.len() > 0 {
        lemma_bytes_le_prefix(p.drop_first(), s);
        assert((p + s).drop_first() =~= p.drop_first() + s);
    }
}


} // verus!
