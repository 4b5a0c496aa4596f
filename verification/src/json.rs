//! A focused JSON writer and reader.
//!
//! Cairn manifests are simple JSON documents. This module supports exactly
//! the value shapes the manifest format uses: objects, arrays, strings,
//! unsigned integers, and booleans. The writer emits **canonical** JSON:
//! keys in insertion order, no insignificant whitespace, RFC 8259 string
//! escaping, so that manifest bytes are stable and reproducible.

use vstd::prelude::*;
use vstd::utf8::encode_utf8;
use crate::text::{byte_offset, decimal, hex_char, hex_fixed, push_decimal, push_hex_fixed};

verus! {

/// A JSON value restricted to the shapes Cairn needs.
#[derive(Debug, PartialEq)]
pub enum Json {
    Str(String),
    Uint(u64),
    Bool(bool),
    Array(Vec<Json>),
    /// Ordered members, so that serialization is deterministic.
    Object(Vec<(String, Json)>),
}

/// The mathematical value of a [`Json`].
#[verifier::ext_equal]
pub enum JsonView {
    Str(Seq<char>),
    Uint(u64),
    Bool(bool),
    Array(Seq<JsonView>),
    Object(Seq<(Seq<char>, JsonView)>),
}

/// The value of a JSON document.
pub open spec fn json_view(j: Json) -> JsonView
    decreases j,
{
    match j {
        Json::Str(s) => JsonView::Str(s@),
        Json::Uint(n) => JsonView::Uint(n),
        Json::Bool(b) => JsonView::Bool(b),
        Json::Array(items) => JsonView::Array(
            Seq::new(
                items@.len(),
                |i: int|
                    if 0 <= i < items@.len() {
                        json_view(items@[i])
                    } else {
                        JsonView::Bool(false)
                    },
            ),
        ),
        Json::Object(members) => JsonView::Object(
            Seq::new(
                members@.len(),
                |i: int|
                    if 0 <= i < members@.len() {
                        (members@[i].0@, json_view(members@[i].1))
                    } else {
                        (Seq::empty(), JsonView::Bool(false))
                    },
            ),
        ),
    }
}

impl View for Json {
    type V = JsonView;

    open spec fn view(&self) -> JsonView {
        json_view(*self)
    }
}

/// How one character of a string is written inside quotes (RFC 8259):
/// quote and backslash are escaped, newline, carriage return and tab get
/// their short escapes, other control characters `\u00XX`.
pub open spec fn escape_char(c: char) -> Seq<char> {
    if c == '"' {
        seq!['\\', '"']
    } else if c == '\\' {
        seq!['\\', '\\']
    } else if c == '\n' {
        seq!['\\', 'n']
    } else if c == '\r' {
        seq!['\\', 'r']
    } else if c == '\t' {
        seq!['\\', 't']
    } else if (c as u32) < 0x20 {
        seq!['\\', 'u'] + hex_fixed((c as u32) as nat, 4)
    } else {
        seq![c]
    }
}

/// The escaped characters of a string.
pub open spec fn escape(s: Seq<char>) -> Seq<char>
    decreases s.len(),
{
    if s.len() == 0 {
        Seq::empty()
    } else {
        escape(s.drop_last()) + escape_char(s.last())
    }
}

/// A string literal: the escaped characters between double quotes.
pub open spec fn quoted(s: Seq<char>) -> Seq<char> {
    seq!['"'] + escape(s) + seq!['"']
}

/// The literal `true`.
pub open spec fn true_lit() -> Seq<char> {
    seq!['t', 'r', 'u', 'e']
}

/// The literal `false`.
pub open spec fn false_lit() -> Seq<char> {
    seq!['f', 'a', 'l', 's', 'e']
}

/// The canonical encoding of a value: compact, members in order.
pub open spec fn encode_value(v: JsonView) -> Seq<char>
    decreases v,
{
    match v {
        JsonView::Str(s) => quoted(s),
        JsonView::Uint(n) => decimal(n as nat),
        JsonView::Bool(b) => if b {
            true_lit()
        } else {
            false_lit()
        },
        JsonView::Array(items) => seq!['['] + encode_items(items) + seq![']'],
        JsonView::Object(members) => seq!['{'] + encode_members(members) + seq!['}'],
    }
}

/// The encodings of array items, separated by commas.
pub open spec fn encode_items(items: Seq<JsonView>) -> Seq<char>
    decreases items,
{
    if items.len() == 0 {
        Seq::empty()
    } else if items.len() == 1 {
        encode_value(items[0])
    } else {
        encode_items(items.subrange(0, items.len() - 1)) + seq![','] + encode_value(
            items[items.len() - 1],
        )
    }
}

/// The encoding of one object member: `"key":value`.
pub open spec fn encode_member(m: (Seq<char>, JsonView)) -> Seq<char>
    decreases m,
{
    quoted(m.0) + seq![':'] + encode_value(m.1)
}

/// The encodings of object members, separated by commas.
pub open spec fn encode_members(members: Seq<(Seq<char>, JsonView)>) -> Seq<char>
    decreases members,
{
    if members.len() == 0 {
        Seq::empty()
    } else if members.len() == 1 {
        encode_member(members[0])
    } else {
        encode_members(members.subrange(0, members.len() - 1)) + seq![','] + encode_member(
            members[members.len() - 1],
        )
    }
}

/// Appends the escaped characters of `s`.
fn write_escaped(s: &str, out: &mut String)
    ensures
        final(out)@ == old(out)@ + escape(s@),
{
    let cs = crate::text::chars_of(s);
    let n = cs.len();
    let mut i: usize = 0;
    assert(cs@.take(0) =~= Seq::<char>::empty());
    while i < n
        invariant
            n == cs@.len(),
            cs@ == s@,
            i <= n,
            out@ == old(out)@ + escape(cs@.take(i as int)),
        decreases n - i,
    {
        let c = cs[i];
        let ghost before = out@;
        if c == '"' {
            out.push('\\');
            out.push('"');
        } else if c == '\\' {
            out.push('\\');
            out.push('\\');
        } else if c == '\n' {
            out.push('\\');
            out.push('n');
        } else if c == '\r' {
            out.push('\\');
            out.push('r');
        } else if c == '\t' {
            out.push('\\');
            out.push('t');
        } else if (c as u32) < 0x20 {
            out.push('\\');
            out.push('u');
            let u: u32 = c as u32;
            push_hex_fixed(out, u as u64, 4);
        } else {
            out.push(c);
        }
        proof {
            assert(cs@.take(i + 1).drop_last() =~= cs@.take(i as int));
            assert(out@ =~= before + escape_char(c));
            assert(out@ =~= old(out)@ + escape(cs@.take(i + 1)));
        }
        i = i + 1;
    }
    proof {
        assert(cs@.take(n as int) =~= s@);
    }
}

/// Write a JSON string literal, escaping per RFC 8259.
fn write_json_string(s: &str, out: &mut String)
    ensures
        final(out)@ == old(out)@ + quoted(s@),
{
    out.push('"');
    write_escaped(s, out);
    out.push('"');
    proof {
        assert(out@ =~= old(out)@ + quoted(s@));
    }
}

impl Json {
    /// Serialize to canonical, compact JSON (no extra whitespace).
    pub fn encode(&self) -> (s: String)
        ensures
            s@ == encode_value(self@),
    {
        let mut out = String::new();
        self.write_to(&mut out);
        proof {
            assert(out@ =~= encode_value(self@));
        }
        out
    }

    #[verifier::loop_isolation(false)]
    fn write_to(&self, out: &mut String)
        ensures
            final(out)@ == old(out)@ + encode_value(self@),
        decreases self,
    {
        match self {
            Json::Str(s) => write_json_string(s.as_str(), out),
            Json::Uint(n) => push_decimal(out, *n),
            Json::Bool(b) => {
                if *b {
                    out.append("true");
                    proof {
                        reveal_strlit("true");
                        assert("true"@ =~= true_lit());
                    }
                } else {
                    out.append("false");
                    proof {
                        reveal_strlit("false");
                        assert("false"@ =~= false_lit());
                    }
                }
            },
            Json::Array(items) => {
                let ghost vs = match self@ {
                    JsonView::Array(vs) => vs,
                    _ => Seq::empty(),
                };
                out.push('[');
                let ghost start = out@;
                let n = items.len();
                let mut i: usize = 0;
                assert(vs.subrange(0, 0) =~= Seq::<JsonView>::empty());
                while i < n
                    invariant
                        n == items@.len(),
                        *self == Json::Array(*items),
                        vs.len() == n,
                        forall|k: int| 0 <= k < n ==> vs[k] == #[trigger] items@[k]@,
                        i <= n,
                        out@ == start + encode_items(vs.subrange(0, i as int)),
                    decreases n - i,
                {
                    let ghost before = out@;
                    if i > 0 {
                        out.push(',');
                    }
                    proof {
                        assert(decreases_to!(*items => items@));
                        assert(decreases_to!(items@ => items@[i as int]));
                    }
                    items[i].write_to(out);
                    proof {
                        let p = vs.subrange(0, i + 1);
                        assert(p.subrange(0, p.len() - 1) =~= vs.subrange(0, i as int));
                        if i == 0 {
                            assert(vs.subrange(0, 0) =~= Seq::<JsonView>::empty());
                        }
                        assert(out@ =~= start + encode_items(p));
                    }
                    i = i + 1;
                }
                proof {
                    assert(vs.subrange(0, n as int) =~= vs);
                }
                out.push(']');
                proof {
                    assert(out@ =~= old(out)@ + encode_value(self@));
                }
            },
            Json::Object(members) => {
                let ghost ms = match self@ {
                    JsonView::Object(ms) => ms,
                    _ => Seq::empty(),
                };
                out.push('{');
                let ghost start = out@;
                let n = members.len();
                let mut i: usize = 0;
                assert(ms.subrange(0, 0) =~= Seq::<(Seq<char>, JsonView)>::empty());
                while i < n
                    invariant
                        n == members@.len(),
                        *self == Json::Object(*members),
                        ms.len() == n,
                        forall|k: int|
                            0 <= k < n ==> ms[k] == (#[trigger] members@[k].0@, members@[k].1@),
                        i <= n,
                        out@ == start + encode_members(ms.subrange(0, i as int)),
                    decreases n - i,
                {
                    let ghost before = out@;
                    if i > 0 {
                        out.push(',');
                    }
                    let ghost mid = out@;
                    let (k, v) = &members[i];
                    proof {
                        assert(ms[i as int] == (members@[i as int].0@, members@[i as int].1@));
                        assert(decreases_to!(*members => members@));
                        assert(decreases_to!(members@ => members@[i as int]));
                        assert(decreases_to!(members@[i as int] => members@[i as int].1));
                    }
                    write_json_string(k.as_str(), out);
                    out.push(':');
                    v.write_to(out);
                    proof {
                        assert(k@ == ms[i as int].0);
                        assert(v@ == ms[i as int].1);
                        assert(out@ == mid + encode_member(ms[i as int]));
                        if i == 0 {
                            assert(ms.subrange(0, 0) =~= Seq::<(Seq<char>, JsonView)>::empty());
                            assert(mid == before);
                        } else {
                            assert(mid == before.push(','));
                        }
                        let p = ms.subrange(0, i + 1);
                        assert(p.subrange(0, p.len() - 1) =~= ms.subrange(0, i as int));
                        assert(out@ =~= start + encode_members(p));
                    }
                    i = i + 1;
                }
                proof {
                    assert(ms.subrange(0, n as int) =~= ms);
                }
                out.push('}');
                proof {
                    assert(out@ =~= old(out)@ + encode_value(self@));
                }
            },
        }
    }
}

/// The value of the first member named `key`, if any.
pub open spec fn member_value(members: Seq<(Seq<char>, JsonView)>, key: Seq<char>) -> Option<JsonView>
    decreases members.len(),
{
    if members.len() == 0 {
        None
    } else if members[0].0 == key {
        Some(members[0].1)
    } else {
        member_value(members.drop_first(), key)
    }
}

/// Looking `key` up in a value: the first member of that name of an object;
/// nothing in a value that is not an object.
pub open spec fn json_get(v: JsonView, key: Seq<char>) -> Option<JsonView> {
    match v {
        JsonView::Object(members) => member_value(members, key),
        _ => None,
    }
}

/// The views of a sequence of values.
pub open spec fn jsons_view(js: Seq<Json>) -> Seq<JsonView> {
    js.map_values(|j: Json| j@)
}

impl Json {
    /// Borrow this value as an object's members, if it is an object.
    pub fn as_object(&self) -> (r: Option<&[(String, Json)]>)
        ensures
            match *self {
                Json::Object(m) => r matches Some(x) && x@ == m@,
                _ => r is None,
            },
    {
        match self {
            Json::Object(e) => Some(e.as_slice()),
            _ => None,
        }
    }

    /// Look up a key in an object value: the first member with that name.
    pub fn get(&self, key: &str) -> (r: Option<&Json>)
        ensures
            (match r {
                Some(v) => Some(v@),
                None => None,
            }) == json_get(self@, key@),
    {
        let ghost vv = self@;
        match self {
            Json::Object(members) => {
                let ghost ms = match vv {
                    JsonView::Object(ms) => ms,
                    _ => Seq::empty(),
                };
                let n = members.len();
                let mut i: usize = 0;
                assert(ms.skip(0) =~= ms);
                while i < n
                    invariant
                        n == members@.len(),
                        ms.len() == n,
                        forall|k: int|
                            0 <= k < n ==> ms[k] == (#[trigger] members@[k].0@, members@[k].1@),
                        i <= n,
                        json_get(self@, key@) == member_value(ms, key@),
                        member_value(ms, key@) == member_value(ms.skip(i as int), key@),
                    decreases n - i,
                {
                    let (k, v) = &members[i];
                    proof {
                        assert(ms[i as int] == (members@[i as int].0@, members@[i as int].1@));
                        assert(ms.skip(i as int)[0] == ms[i as int]);
                        assert(ms.skip(i as int).drop_first() =~= ms.skip(i + 1));
                    }
                    if crate::cli::str_eq(k.as_str(), key) {
                        proof {
                            assert(v@ == ms[i as int].1);
                            assert(member_value(ms.skip(i as int), key@) == Some(ms[i as int].1));
                        }
                        return Some(v);
                    }
                    i = i + 1;
                }
                None
            },
            _ => None,
        }
    }

    /// Borrow this value as a string.
    pub fn as_str(&self) -> (r: Option<&str>)
        ensures
            match self@ {
                JsonView::Str(s) => r matches Some(x) && x@ == s,
                _ => r is None,
            },
    {
        match self {
            Json::Str(s) => Some(s.as_str()),
            _ => None,
        }
    }

    /// Borrow this value as an unsigned integer.
    pub fn as_uint(&self) -> (r: Option<u64>)
        ensures
            match self@ {
                JsonView::Uint(n) => r == Some(n),
                _ => r is None,
            },
    {
        match self {
            Json::Uint(n) => Some(*n),
            _ => None,
        }
    }

    /// Borrow this value as a boolean.
    pub fn as_bool(&self) -> (r: Option<bool>)
        ensures
            match self@ {
                JsonView::Bool(b) => r == Some(b),
                _ => r is None,
            },
    {
        match self {
            Json::Bool(b) => Some(*b),
            _ => None,
        }
    }

    /// Borrow this value as an array.
    pub fn as_array(&self) -> (r: Option<&[Json]>)
        ensures
            match self@ {
                JsonView::Array(items) => r matches Some(x) && jsons_view(x@) == items,
                _ => r is None,
            },
    {
        match self {
            Json::Array(a) => {
                proof {
                    assert(jsons_view(a@) =~= match self@ {
                        JsonView::Array(items) => items,
                        _ => Seq::empty(),
                    });
                }
                Some(a.as_slice())
            },
            _ => None,
        }
    }
}

/// A whitespace character between tokens: space, tab, newline, carriage return.
pub open spec fn is_ws(c: char) -> bool {
    c == ' ' || c == '\t' || c == '\n' || c == '\r'
}

/// An ASCII decimal digit.
pub open spec fn is_digit(c: char) -> bool {
    '0' <= c <= '9'
}

/// An ASCII hexadecimal digit, either case.
pub open spec fn is_hex_digit(c: char) -> bool {
    ('0' <= c <= '9') || ('a' <= c <= 'f') || ('A' <= c <= 'F')
}

/// The value of a hexadecimal digit.
pub open spec fn hex_value(c: char) -> nat {
    if '0' <= c <= '9' {
        (c as u32 - 48) as nat
    } else if 'a' <= c <= 'f' {
        (c as u32 - 87) as nat
    } else {
        (c as u32 - 55) as nat
    }
}

/// The position of the first non-whitespace character at or after `pos`.
pub open spec fn skip_ws(s: Seq<char>, pos: int) -> int
    decreases s.len() - pos,
{
    if 0 <= pos < s.len() && is_ws(s[pos]) {
        skip_ws(s, pos + 1)
    } else {
        pos
    }
}

/// The position of the first non-digit at or after `pos`.
pub open spec fn digits_end(s: Seq<char>, pos: int) -> int
    decreases s.len() - pos,
{
    if 0 <= pos < s.len() && is_digit(s[pos]) {
        digits_end(s, pos + 1)
    } else {
        pos
    }
}

/// The number written by the digits `s[from..to]`.
pub open spec fn digits_value(s: Seq<char>, from: int, to: int) -> nat
    decreases to - from,
{
    if to <= from {
        0
    } else {
        digits_value(s, from, to - 1) * 10 + (s[to - 1] as u32 - 48) as nat
    }
}

/// A parse error: its message and the character position where it arose.
pub type SpecError = (Seq<char>, int);

/// The outcome of parsing a value: the value and the position after it.
pub type ValueResult = Result<(JsonView, int), SpecError>;

pub open spec fn msg_expected_value() -> Seq<char> {
    "expected a JSON value"@
}

pub open spec fn msg_invalid_literal() -> Seq<char> {
    "invalid literal"@
}

pub open spec fn msg_out_of_range() -> Seq<char> {
    "number out of range"@
}

pub open spec fn msg_unterminated() -> Seq<char> {
    "unterminated string"@
}

pub open spec fn msg_invalid_escape() -> Seq<char> {
    "invalid escape sequence"@
}

pub open spec fn msg_invalid_unicode() -> Seq<char> {
    "invalid unicode escape"@
}

pub open spec fn msg_trailing() -> Seq<char> {
    "trailing characters after JSON value"@
}

pub open spec fn msg_array_delim() -> Seq<char> {
    "expected ',' or ']'"@
}

pub open spec fn msg_object_delim() -> Seq<char> {
    "expected ',' or '}'"@
}

pub open spec fn msg_key() -> Seq<char> {
    "expected string key"@
}

pub open spec fn msg_colon() -> Seq<char> {
    "expected ':'"@
}

/// An unsigned integer starting at the digit at `pos`; it must fit in 64 bits.
pub open spec fn parse_uint_at(s: Seq<char>, pos: int) -> ValueResult {
    let end = digits_end(s, pos);
    let n = digits_value(s, pos, end);
    if n > u64::MAX {
        Err((msg_out_of_range(), end))
    } else {
        Ok((JsonView::Uint(n as u64), end))
    }
}

/// `true` or `false` starting at `pos`.
pub open spec fn parse_bool_at(s: Seq<char>, pos: int) -> ValueResult {
    if pos + 4 <= s.len() && s.subrange(pos, pos + 4) == true_lit() {
        Ok((JsonView::Bool(true), pos + 4))
    } else if pos + 5 <= s.len() && s.subrange(pos, pos + 5) == false_lit() {
        Ok((JsonView::Bool(false), pos + 5))
    } else {
        Err((msg_invalid_literal(), pos))
    }
}

/// The character of a `\uXXXX` escape whose `u` is at `pos`, and the
/// position after it. Four hexadecimal digits must follow, naming a Unicode
/// scalar value (not a surrogate).
pub open spec fn unicode_escape_at(s: Seq<char>, pos: int) -> Result<(char, int), SpecError> {
    if pos + 5 <= s.len() && is_hex_digit(s[pos + 1]) && is_hex_digit(s[pos + 2]) && is_hex_digit(
        s[pos + 3],
    ) && is_hex_digit(s[pos + 4]) {
        let cp = hex_value(s[pos + 1]) * 4096 + hex_value(s[pos + 2]) * 256 + hex_value(s[pos + 3])
            * 16 + hex_value(s[pos + 4]);
        if 0xD800 <= cp <= 0xDFFF {
            Err((msg_invalid_unicode(), pos))
        } else {
            Ok(((cp as u32) as char, pos + 5))
        }
    } else {
        Err((msg_invalid_unicode(), pos))
    }
}

/// The character that a one-letter escape stands for, if it is one.
pub open spec fn short_escape(c: char) -> Option<char> {
    if c == '"' {
        Some('"')
    } else if c == '\\' {
        Some('\\')
    } else if c == '/' {
        Some('/')
    } else if c == 'n' {
        Some('\n')
    } else if c == 'r' {
        Some('\r')
    } else if c == 't' {
        Some('\t')
    } else if c == 'b' {
        Some('\u{8}')
    } else if c == 'f' {
        Some('\u{c}')
    } else {
        None
    }
}

/// The rest of a string literal from `pos`, with `acc` read so far: the
/// characters up to the closing quote, and the position after it.
pub open spec fn string_rest(s: Seq<char>, pos: int, acc: Seq<char>) -> Result<
    (Seq<char>, int),
    SpecError,
>
    decreases s.len() - pos,
{
    if pos < 0 || pos >= s.len() {
        Err((msg_unterminated(), pos))
    } else if s[pos] == '"' {
        Ok((acc, pos + 1))
    } else if s[pos] == '\\' {
        let e = pos + 1;
        if e >= s.len() {
            Err((msg_invalid_escape(), e))
        } else if short_escape(s[e]) is Some {
            string_rest(s, e + 1, acc.push(short_escape(s[e]).unwrap()))
        } else if s[e] == 'u' {
            match unicode_escape_at(s, e) {
                Ok((c, q)) => if q == e + 5 {
                    string_rest(s, q, acc.push(c))
                } else {
                    Err((msg_invalid_unicode(), e))
                },
                Err(x) => Err(x),
            }
        } else {
            Err((msg_invalid_escape(), e))
        }
    } else {
        string_rest(s, pos + 1, acc.push(s[pos]))
    }
}

/// A string literal whose opening quote is at `pos`.
pub open spec fn parse_string_at(s: Seq<char>, pos: int) -> Result<(Seq<char>, int), SpecError> {
    string_rest(s, pos + 1, Seq::empty())
}

/// A value after optional whitespace from `pos`.
pub open spec fn parse_value_at(s: Seq<char>, pos: int) -> ValueResult
    decreases s.len() - pos, 2int,
{
    let p = skip_ws(s, pos);
    if p < pos || p >= s.len() {
        Err((msg_expected_value(), p))
    } else if s[p] == '"' {
        match parse_string_at(s, p) {
            Ok((t, q)) => Ok((JsonView::Str(t), q)),
            Err(e) => Err(e),
        }
    } else if s[p] == '{' {
        parse_object_at(s, p)
    } else if s[p] == '[' {
        parse_array_at(s, p)
    } else if s[p] == 't' || s[p] == 'f' {
        parse_bool_at(s, p)
    } else if is_digit(s[p]) {
        parse_uint_at(s, p)
    } else {
        Err((msg_expected_value(), p))
    }
}

/// An array whose `[` is at `pos`.
pub open spec fn parse_array_at(s: Seq<char>, pos: int) -> ValueResult
    decreases s.len() - pos, 1int,
{
    let q = skip_ws(s, pos + 1);
    if pos < 0 || pos >= s.len() || q < pos + 1 || q > s.len() {
        Err((msg_expected_value(), pos))
    } else if q < s.len() && s[q] == ']' {
        Ok((JsonView::Array(Seq::empty()), q + 1))
    } else {
        array_items(s, q, Seq::empty())
    }
}

/// The items of an array from `pos`, with `acc` read so far, up to and
/// including the closing `]`. (A value always takes at least one character.)
pub open spec fn array_items(s: Seq<char>, pos: int, acc: Seq<JsonView>) -> ValueResult
    decreases s.len() - pos, 3int,
{
    if pos < 0 || pos > s.len() {
        Err((msg_expected_value(), pos))
    } else {
        match parse_value_at(s, pos) {
            Err(e) => Err(e),
            Ok((v, q)) => {
                let r = skip_ws(s, q);
                if q <= pos || r < q {
                    Err((msg_expected_value(), pos))
                } else if r < s.len() && s[r] == ',' {
                    array_items(s, r + 1, acc.push(v))
                } else if r < s.len() && s[r] == ']' {
                    Ok((JsonView::Array(acc.push(v)), r + 1))
                } else {
                    Err((msg_array_delim(), r))
                }
            },
        }
    }
}

/// An object whose `{` is at `pos`.
pub open spec fn parse_object_at(s: Seq<char>, pos: int) -> ValueResult
    decreases s.len() - pos, 1int,
{
    let q = skip_ws(s, pos + 1);
    if pos < 0 || pos >= s.len() || q < pos + 1 || q > s.len() {
        Err((msg_expected_value(), pos))
    } else if q < s.len() && s[q] == '}' {
        Ok((JsonView::Object(Seq::empty()), q + 1))
    } else {
        object_members(s, q, Seq::empty())
    }
}

/// The members of an object from `pos`, with `acc` read so far, up to and
/// including the closing `}`.
pub open spec fn object_members(s: Seq<char>, pos: int, acc: Seq<(Seq<char>, JsonView)>) -> ValueResult
    decreases s.len() - pos, 3int,
{
    let k = skip_ws(s, pos);
    if pos < 0 || pos > s.len() || k < pos {
        Err((msg_expected_value(), pos))
    } else if !(k < s.len() && s[k] == '"') {
        Err((msg_key(), k))
    } else {
        match parse_string_at(s, k) {
            Err(e) => Err(e),
            Ok((key, q1)) => {
                let c = skip_ws(s, q1);
                if !(0 <= c < s.len() && s[c] == ':') {
                    Err((msg_colon(), c))
                } else if c < pos {
                    Err((msg_expected_value(), pos))
                } else {
                    match parse_value_at(s, c + 1) {
                        Err(e) => Err(e),
                        Ok((v, q2)) => {
                            let r = skip_ws(s, q2);
                            if q2 <= c + 1 || r < q2 {
                                Err((msg_expected_value(), pos))
                            } else if r < s.len() && s[r] == ',' {
                                object_members(s, r + 1, acc.push((key, v)))
                            } else if r < s.len() && s[r] == '}' {
                                Ok((JsonView::Object(acc.push((key, v))), r + 1))
                            } else {
                                Err((msg_object_delim(), r))
                            }
                        },
                    }
                }
            },
        }
    }
}

/// A whole document: one value, with optional whitespace around it and
/// nothing else.
pub open spec fn parse_document(s: Seq<char>) -> Result<JsonView, SpecError> {
    match parse_value_at(s, skip_ws(s, 0)) {
        Err(e) => Err(e),
        Ok((v, q)) => {
            let r = skip_ws(s, q);
            if r != s.len() {
                Err((msg_trailing(), r))
            } else {
                Ok(v)
            }
        },
    }
}

/// Skipping whitespace moves forward, stops inside the text, and skips
/// only whitespace.
pub proof fn lemma_skip_ws(s: Seq<char>, pos: int)
    requires
        0 <= pos <= s.len(),
    ensures
        pos <= skip_ws(s, pos) <= s.len(),
        skip_ws(s, pos) < s.len() ==> !is_ws(s[skip_ws(s, pos)]),
        forall|i: int| pos <= i < skip_ws(s, pos) ==> is_ws(#[trigger] s[i]),
    decreases s.len() - pos,
{
    if pos < s.len() && is_ws(s[pos]) {
        lemma_skip_ws(s, pos + 1);
    }
}

/// The digits end after the start and inside the text.
pub proof fn lemma_digits_end(s: Seq<char>, pos: int)
    requires
        0 <= pos <= s.len(),
    ensures
        pos <= digits_end(s, pos) <= s.len(),
        digits_end(s, pos) < s.len() ==> !is_digit(s[digits_end(s, pos)]),
        forall|i: int| pos <= i < digits_end(s, pos) ==> is_digit(#[trigger] s[i]),
    decreases s.len() - pos,
{
    if pos < s.len() && is_digit(s[pos]) {
        lemma_digits_end(s, pos + 1);
    }
}

/// The rest of a string literal ends after where it starts, inside the text.
proof fn lemma_string_rest_advances(s: Seq<char>, pos: int, acc: Seq<char>)
    requires
        0 <= pos,
    ensures
        string_rest(s, pos, acc) matches Ok((_, q)) ==> pos < q <= s.len(),
    decreases s.len() - pos,
{
    if 0 <= pos < s.len() && s[pos] != '"' {
        if s[pos] == '\\' {
            let e = pos + 1;
            if e < s.len() {
                if short_escape(s[e]) is Some {
                    lemma_string_rest_advances(s, e + 1, acc.push(short_escape(s[e]).unwrap()));
                } else if s[e] == 'u' {
                    if let Ok((c, q)) = unicode_escape_at(s, e) {
                        if q == e + 5 {
                            lemma_string_rest_advances(s, q, acc.push(c));
                        }
                    }
                }
            }
        } else {
            lemma_string_rest_advances(s, pos + 1, acc.push(s[pos]));
        }
    }
}

/// A value parsed from `pos` ends after `pos` and inside the text; so do
/// arrays and objects.
pub proof fn lemma_value_advances(s: Seq<char>, pos: int)
    requires
        0 <= pos <= s.len(),
    ensures
        parse_value_at(s, pos) matches Ok((_, q)) ==> pos < q <= s.len(),
    decreases s.len() - pos, 2int,
{
    lemma_skip_ws(s, pos);
    let p = skip_ws(s, pos);
    if p < s.len() {
        if s[p] == '"' {
            lemma_string_rest_advances(s, p + 1, Seq::empty());
        } else if s[p] == '{' {
            lemma_object_advances(s, p);
        } else if s[p] == '[' {
            lemma_array_advances(s, p);
        } else if is_digit(s[p]) {
            lemma_digits_end(s, p);
        }
    }
}

proof fn lemma_array_advances(s: Seq<char>, pos: int)
    requires
        0 <= pos < s.len(),
    ensures
        parse_array_at(s, pos) matches Ok((_, q)) ==> pos < q <= s.len(),
    decreases s.len() - pos, 1int,
{
    lemma_skip_ws(s, pos + 1);
    let q = skip_ws(s, pos + 1);
    if !(q < s.len() && s[q] == ']') {
        lemma_items_advances(s, q, Seq::empty());
    }
}

proof fn lemma_items_advances(s: Seq<char>, pos: int, acc: Seq<JsonView>)
    requires
        0 <= pos <= s.len(),
    ensures
        array_items(s, pos, acc) matches Ok((_, q)) ==> pos < q <= s.len(),
    decreases s.len() - pos, 3int,
{
    lemma_value_advances(s, pos);
    if let Ok((v, q)) = parse_value_at(s, pos) {
        lemma_skip_ws(s, q);
        let r = skip_ws(s, q);
        if r < s.len() && s[r] == ',' {
            lemma_items_advances(s, r + 1, acc.push(v));
        }
    }
}

proof fn lemma_object_advances(s: Seq<char>, pos: int)
    requires
        0 <= pos < s.len(),
    ensures
        parse_object_at(s, pos) matches Ok((_, q)) ==> pos < q <= s.len(),
    decreases s.len() - pos, 1int,
{
    lemma_skip_ws(s, pos + 1);
    let q = skip_ws(s, pos + 1);
    if !(q < s.len() && s[q] == '}') {
        lemma_members_advances(s, q, Seq::empty());
    }
}

proof fn lemma_members_advances(s: Seq<char>, pos: int, acc: Seq<(Seq<char>, JsonView)>)
    requires
        0 <= pos <= s.len(),
    ensures
        object_members(s, pos, acc) matches Ok((_, q)) ==> pos < q <= s.len(),
    decreases s.len() - pos, 3int,
{
    lemma_skip_ws(s, pos);
    let k = skip_ws(s, pos);
    if k < s.len() && s[k] == '"' {
        lemma_string_rest_advances(s, k + 1, Seq::empty());
        if let Ok((key, q1)) = parse_string_at(s, k) {
            lemma_skip_ws(s, q1);
            let c = skip_ws(s, q1);
            if 0 <= c < s.len() && s[c] == ':' {
                lemma_value_advances(s, c + 1);
                if let Ok((v, q2)) = parse_value_at(s, c + 1) {
                    lemma_skip_ws(s, q2);
                    let r = skip_ws(s, q2);
                    if r < s.len() && s[r] == ',' {
                        lemma_members_advances(s, r + 1, acc.push((key, v)));
                    }
                }
            }
        }
    }
}

/// Parse error with a byte offset for context.
#[derive(Debug)]
pub struct ParseError {
    pub message: String,
    pub offset: usize,
}

impl ParseError {
    /// The error as text: `JSON parse error at byte <offset>: <message>`.
    pub fn describe(&self) -> (t: String)
        ensures
            t@ == "JSON parse error at byte "@ + decimal(self.offset as nat) + ": "@ + self.message@,
    {
        let mut t = String::new();
        t.append("JSON parse error at byte ");
        push_decimal(&mut t, self.offset as u64);
        t.append(": ");
        t.append(self.message.as_str());
        t
    }
}

/// The outcome of an executable parse step, as a specification outcome.
pub open spec fn step_view(r: Result<(Json, usize), (String, usize)>) -> ValueResult {
    match r {
        Ok((j, q)) => Ok((j@, q as int)),
        Err((m, p)) => Err((m@, p as int)),
    }
}

fn is_ws_char(c: char) -> (b: bool)
    ensures
        b == is_ws(c),
{
    c == ' ' || c == '\t' || c == '\n' || c == '\r'
}

fn skip_ws_from(s: &Vec<char>, pos: usize) -> (r: usize)
    requires
        pos <= s@.len(),
    ensures
        r as int == skip_ws(s@, pos as int),
        pos <= r <= s@.len(),
{
    let mut p = pos;
    while p < s.len() && is_ws_char(s[p])
        invariant
            pos <= p <= s@.len(),
            skip_ws(s@, p as int) == skip_ws(s@, pos as int),
        decreases s@.len() - p,
    {
        p = p + 1;
    }
    p
}

/// More digits never make a smaller number.
proof fn lemma_digits_value_monotone(s: Seq<char>, from: int, k: int, to: int)
    requires
        from <= k <= to,
    ensures
        digits_value(s, from, k) <= digits_value(s, from, to),
    decreases to - k,
{
    if k < to {
        lemma_digits_value_monotone(s, from, k, to - 1);
    }
}

fn parse_uint_from(s: &Vec<char>, pos: usize) -> (r: Result<(Json, usize), (String, usize)>)
    requires
        pos < s@.len(),
    ensures
        step_view(r) == parse_uint_at(s@, pos as int),
        r matches Err((_, p)) ==> p <= s@.len(),
{
    let mut end = pos;
    while end < s.len() && '0' <= s[end] && s[end] <= '9'
        invariant
            pos <= end <= s@.len(),
            digits_end(s@, end as int) == digits_end(s@, pos as int),
        decreases s@.len() - end,
    {
        end = end + 1;
    }
    proof {
        lemma_digits_end(s@, pos as int);
    }
    let mut value: u64 = 0;
    let mut i = pos;
    while i < end
        invariant
            pos <= i <= end,
            forall|k: int| pos <= k < end ==> is_digit(#[trigger] s@[k]),
            end == digits_end(s@, pos as int),
            end <= s@.len(),
            value as nat == digits_value(s@, pos as int, i as int),
        decreases end - i,
    {
        let d = (s[i] as u32 - 48) as u64;
        let next: u128 = (value as u128) * 10 + (d as u128);
        if next > u64::MAX as u128 {
            proof {
                lemma_digits_value_monotone(s@, pos as int, i + 1, end as int);
            }
            return Err(("number out of range".to_owned(), end));
        }
        value = next as u64;
        i = i + 1;
    }
    Ok((Json::Uint(value), end))
}

fn parse_bool_from(s: &Vec<char>, pos: usize) -> (r: Result<(Json, usize), (String, usize)>)
    requires
        pos < s@.len(),
    ensures
        step_view(r) == parse_bool_at(s@, pos as int),
        r matches Err((_, p)) ==> p <= s@.len(),
{
    let n = s.len();
    if n - pos >= 4 && s[pos] == 't' && s[pos + 1] == 'r' && s[pos + 2] == 'u' && s[pos + 3] == 'e' {
        proof {
            assert(s@.subrange(pos as int, pos + 4) =~= true_lit());
        }
        return Ok((Json::Bool(true), pos + 4));
    }
    proof {
        if pos + 4 <= n && s@.subrange(pos as int, pos + 4) == true_lit() {
            assert(s@.subrange(pos as int, pos + 4)[1] == 'r');
        }
    }
    if n - pos >= 5 && s[pos] == 'f' && s[pos + 1] == 'a' && s[pos + 2] == 'l' && s[pos + 3] == 's'
        && s[pos + 4] == 'e' {
        proof {
            assert(s@.subrange(pos as int, pos + 5) =~= false_lit());
        }
        return Ok((Json::Bool(false), pos + 5));
    }
    proof {
        if pos + 5 <= n && s@.subrange(pos as int, pos + 5) == false_lit() {
            assert(s@.subrange(pos as int, pos + 5)[1] == 'a');
        }
    }
    Err(("invalid literal".to_owned(), pos))
}

fn hex_digit_value(c: char) -> (r: Option<u32>)
    ensures
        match r {
            Some(v) => is_hex_digit(c) && v as nat == hex_value(c) && v < 16,
            None => !is_hex_digit(c),
        },
{
    if '0' <= c && c <= '9' {
        Some(c as u32 - 48)
    } else if 'a' <= c && c <= 'f' {
        Some(c as u32 - 87)
    } else if 'A' <= c && c <= 'F' {
        Some(c as u32 - 55)
    } else {
        None
    }
}

fn unicode_escape_from(s: &Vec<char>, pos: usize) -> (r: Result<(char, usize), (String, usize)>)
    requires
        pos < s@.len(),
    ensures
        (match r {
            Ok((c, q)) => Ok((c, q as int)),
            Err((m, p)) => Err((m@, p as int)),
        }) == unicode_escape_at(s@, pos as int),
        r matches Ok((_, q)) ==> q == pos + 5,
        r matches Err((_, p)) ==> p == pos,
{
    if s.len() - pos < 5 {
        return Err(("invalid unicode escape".to_owned(), pos));
    }
    let h1 = hex_digit_value(s[pos + 1]);
    let h2 = hex_digit_value(s[pos + 2]);
    let h3 = hex_digit_value(s[pos + 3]);
    let h4 = hex_digit_value(s[pos + 4]);
    match (h1, h2, h3, h4) {
        (Some(a), Some(b), Some(c), Some(d)) => {
            let cp: u32 = a * 4096 + b * 256 + c * 16 + d;
            if 0xD800 <= cp && cp <= 0xDFFF {
                return Err(("invalid unicode escape".to_owned(), pos));
            }
            match char::from_u32(cp) {
                Some(ch) => Ok((ch, pos + 5)),
                None => Err(("invalid unicode escape".to_owned(), pos)),
            }
        },
        _ => Err(("invalid unicode escape".to_owned(), pos)),
    }
}

fn short_escape_of(c: char) -> (r: Option<char>)
    ensures
        r == short_escape(c),
{
    if c == '"' {
        Some('"')
    } else if c == '\\' {
        Some('\\')
    } else if c == '/' {
        Some('/')
    } else if c == 'n' {
        Some('\n')
    } else if c == 'r' {
        Some('\r')
    } else if c == 't' {
        Some('\t')
    } else if c == 'b' {
        Some('\u{8}')
    } else if c == 'f' {
        Some('\u{c}')
    } else {
        None
    }
}

/// The outcome of an executable string read, as a specification outcome.
pub open spec fn string_step_view(r: Result<(String, usize), (String, usize)>) -> Result<
    (Seq<char>, int),
    SpecError,
> {
    match r {
        Ok((t, q)) => Ok((t@, q as int)),
        Err((m, p)) => Err((m@, p as int)),
    }
}

fn parse_string_from(s: &Vec<char>, pos: usize) -> (r: Result<(String, usize), (String, usize)>)
    requires
        pos < s@.len(),
        s@[pos as int] == '"',
    ensures
        string_step_view(r) == parse_string_at(s@, pos as int),
        r matches Err((_, p)) ==> p <= s@.len(),
{
    let mut out = String::new();
    let n = s.len();
    let mut p = pos + 1;
    while p < n
        invariant
            n == s@.len(),
            pos < p <= n,
            string_rest(s@, p as int, out@) == parse_string_at(s@, pos as int),
        decreases n - p,
    {
        let c = s[p];
        if c == '"' {
            return Ok((out, p + 1));
        } else if c == '\\' {
            let e = p + 1;
            if e >= n {
                return Err(("invalid escape sequence".to_owned(), e));
            }
            match short_escape_of(s[e]) {
                Some(x) => {
                    out.push(x);
                    p = e + 1;
                },
                None => {
                    if s[e] == 'u' {
                        match unicode_escape_from(s, e) {
                            Ok((x, q)) => {
                                out.push(x);
                                p = q;
                            },
                            Err(err) => {
                                return Err(err);
                            },
                        }
                    } else {
                        return Err(("invalid escape sequence".to_owned(), e));
                    }
                },
            }
        } else {
            out.push(c);
            p = p + 1;
        }
    }
    Err(("unterminated string".to_owned(), p))
}

/// The value of an array is the sequence of its items' values.
pub proof fn lemma_array_json_view(items: Vec<Json>)
    ensures
        Json::Array(items)@ == JsonView::Array(jsons_view(items@)),
{
    let j = Json::Array(items);
    let v = json_view(j);
    assert(v is Array);
    let x = v->Array_0;
    assert(x.len() == items@.len());
    assert(x =~= jsons_view(items@));
}

/// The value of an object is the sequence of its members' values.
pub proof fn lemma_object_json_view(members: Vec<(String, Json)>)
    ensures
        Json::Object(members)@ == JsonView::Object(members_view(members@)),
{
    let j = Json::Object(members);
    let v = json_view(j);
    assert(v is Object);
    let x = v->Object_0;
    assert(x.len() == members@.len());
    assert(x =~= members_view(members@));
}

fn parse_value_from(s: &Vec<char>, pos: usize) -> (r: Result<(Json, usize), (String, usize)>)
    requires
        pos <= s@.len(),
    ensures
        step_view(r) == parse_value_at(s@, pos as int),
        r matches Err((_, p)) ==> p <= s@.len(),
    decreases s@.len() - pos, 2int,
{
    let p = skip_ws_from(s, pos);
    if p >= s.len() {
        return Err(("expected a JSON value".to_owned(), p));
    }
    let c = s[p];
    if c == '"' {
        match parse_string_from(s, p) {
            Ok((t, q)) => Ok((Json::Str(t), q)),
            Err(e) => Err(e),
        }
    } else if c == '{' {
        parse_object_from(s, p)
    } else if c == '[' {
        parse_array_from(s, p)
    } else if c == 't' || c == 'f' {
        parse_bool_from(s, p)
    } else if '0' <= c && c <= '9' {
        parse_uint_from(s, p)
    } else {
        Err(("expected a JSON value".to_owned(), p))
    }
}

#[verifier::loop_isolation(false)]
fn parse_array_from(s: &Vec<char>, pos: usize) -> (r: Result<(Json, usize), (String, usize)>)
    requires
        pos < s@.len(),
        s@[pos as int] == '[',
    ensures
        step_view(r) == parse_array_at(s@, pos as int),
        r matches Err((_, p)) ==> p <= s@.len(),
    decreases s@.len() - pos, 1int,
{
    let n = s.len();
    let q = skip_ws_from(s, pos + 1);
    if q < n && s[q] == ']' {
        let empty: Vec<Json> = Vec::new();
        let ghost ev = empty;
        let j = Json::Array(empty);
        proof {
            lemma_array_json_view(ev);
            assert(jsons_view(ev@) =~= Seq::<JsonView>::empty());
        }
        return Ok((j, q + 1));
    }
    let mut items: Vec<Json> = Vec::new();
    proof {
        assert(jsons_view(items@) =~= Seq::<JsonView>::empty());
    }
    let mut cur = q;
    loop
        invariant
            n == s@.len(),
            pos < cur <= n,
            array_items(s@, cur as int, jsons_view(items@)) == parse_array_at(s@, pos as int),
        decreases n - cur,
    {
        proof {
            lemma_value_advances(s@, cur as int);
        }
        let (v, q) = match parse_value_from(s, cur) {
            Ok(x) => x,
            Err(e) => {
                return Err(e);
            },
        };
        let r = skip_ws_from(s, q);
        let ghost vv = v@;
        let ghost before = items@;
        items.push(v);
        proof {
            assert(jsons_view(items@) =~= jsons_view(before).push(vv));
        }
        if r < n && s[r] == ',' {
            cur = r + 1;
        } else if r < n && s[r] == ']' {
            let ghost iv = items;
            let j = Json::Array(items);
            proof {
                lemma_array_json_view(iv);
            }
            return Ok((j, r + 1));
        } else {
            return Err(("expected ',' or ']'".to_owned(), r));
        }
    }
}

/// The views of a sequence of object members.
pub open spec fn members_view(ms: Seq<(String, Json)>) -> Seq<(Seq<char>, JsonView)> {
    ms.map_values(|m: (String, Json)| (m.0@, m.1@))
}

/// A copy of a JSON value, member by member.
#[verifier::loop_isolation(false)]
fn clone_value(v: &Json) -> (r: Json)
    ensures
        r@ == v@,
    decreases v,
{
    match v {
        Json::Str(s) => Json::Str(s.clone()),
        Json::Uint(n) => Json::Uint(*n),
        Json::Bool(b) => Json::Bool(*b),
        Json::Array(items) => {
            let mut out: Vec<Json> = Vec::new();
            let n = items.len();
            let mut i: usize = 0;
            while i < n
                invariant
                    n == items@.len(),
                    *v == Json::Array(*items),
                    i <= n,
                    out@.len() == i,
                    forall|k: int| 0 <= k < i ==> (#[trigger] out@[k])@ == items@[k]@,
                decreases n - i,
            {
                proof {
                    assert(decreases_to!(*items => items@));
                    assert(decreases_to!(items@ => items@[i as int]));
                }
                let c = clone_value(&items[i]);
                out.push(c);
                i = i + 1;
            }
            proof {
                lemma_array_json_view(*items);
                lemma_array_json_view(out);
                assert(jsons_view(out@) =~= jsons_view(items@));
            }
            Json::Array(out)
        },
        Json::Object(members) => {
            let mut out: Vec<(String, Json)> = Vec::new();
            let n = members.len();
            let mut i: usize = 0;
            while i < n
                invariant
                    n == members@.len(),
                    *v == Json::Object(*members),
                    i <= n,
                    out@.len() == i,
                    forall|k: int|
                        0 <= k < i ==> (#[trigger] out@[k]).0@ == members@[k].0@ && out@[k].1@
                            == members@[k].1@,
                decreases n - i,
            {
                proof {
                    assert(decreases_to!(*members => members@));
                    assert(decreases_to!(members@ => members@[i as int]));
                    assert(decreases_to!(members@[i as int] => members@[i as int].1));
                }
                let c = clone_value(&members[i].1);
                out.push((members[i].0.clone(), c));
                i = i + 1;
            }
            proof {
                lemma_object_json_view(*members);
                lemma_object_json_view(out);
                assert(members_view(out@) =~= members_view(members@));
            }
            Json::Object(out)
        },
    }
}

impl Clone for Json {
    fn clone(&self) -> (r: Json)
        ensures
            r@ == self@,
    {
        clone_value(self)
    }
}

#[verifier::loop_isolation(false)]
fn parse_object_from(s: &Vec<char>, pos: usize) -> (r: Result<(Json, usize), (String, usize)>)
    requires
        pos < s@.len(),
        s@[pos as int] == '{',
    ensures
        step_view(r) == parse_object_at(s@, pos as int),
        r matches Err((_, p)) ==> p <= s@.len(),
    decreases s@.len() - pos, 1int,
{
    let n = s.len();
    let q = skip_ws_from(s, pos + 1);
    if q < n && s[q] == '}' {
        let empty: Vec<(String, Json)> = Vec::new();
        let ghost ev = empty;
        let j = Json::Object(empty);
        proof {
            lemma_object_json_view(ev);
            assert(members_view(ev@) =~= Seq::<(Seq<char>, JsonView)>::empty());
        }
        return Ok((j, q + 1));
    }
    let mut members: Vec<(String, Json)> = Vec::new();
    proof {
        assert(members_view(members@) =~= Seq::<(Seq<char>, JsonView)>::empty());
    }
    let mut cur = q;
    loop
        invariant
            n == s@.len(),
            pos < cur <= n,
            object_members(s@, cur as int, members_view(members@)) == parse_object_at(
                s@,
                pos as int,
            ),
        decreases n - cur,
    {
        let k = skip_ws_from(s, cur);
        if !(k < n && s[k] == '"') {
            return Err(("expected string key".to_owned(), k));
        }
        let (key, q1) = match parse_string_from(s, k) {
            Ok(x) => x,
            Err(e) => {
                return Err(e);
            },
        };
        proof {
            lemma_string_rest_advances(s@, k + 1, Seq::empty());
        }
        let c = skip_ws_from(s, q1);
        if !(c < n && s[c] == ':') {
            return Err(("expected ':'".to_owned(), c));
        }
        proof {
            lemma_value_advances(s@, c + 1);
        }
        let (v, q2) = match parse_value_from(s, c + 1) {
            Ok(x) => x,
            Err(e) => {
                return Err(e);
            },
        };
        let r = skip_ws_from(s, q2);
        let ghost kv = key@;
        let ghost vv = v@;
        let ghost before = members@;
        members.push((key, v));
        proof {
            assert(members_view(members@) =~= members_view(before).push((kv, vv)));
        }
        if r < n && s[r] == ',' {
            cur = r + 1;
        } else if r < n && s[r] == '}' {
            let ghost mv = members;
            let j = Json::Object(members);
            proof {
                lemma_object_json_view(mv);
            }
            return Ok((j, r + 1));
        } else {
            return Err(("expected ',' or '}'".to_owned(), r));
        }
    }
}

/// The outcome of parsing a document, with error positions given as byte
/// offsets into its UTF-8 encoding.
pub open spec fn document_result(s: Seq<char>) -> Result<JsonView, (Seq<char>, int)> {
    match parse_document(s) {
        Ok(v) => Ok(v),
        Err((m, p)) => Err((m, encode_utf8(s.take(p)).len() as int)),
    }
}

/// Parse a JSON document into a [`Json`] value. (A string in memory never
/// takes more than `usize::MAX` bytes.)
pub fn parse(input: &str) -> (r: Result<Json, ParseError>)
    requires
        encode_utf8(input@).len() <= usize::MAX,
    ensures
        (match r {
            Ok(v) => Ok(v@),
            Err(e) => Err((e.message@, e.offset as int)),
        }) == document_result(input@),
{
    let s = crate::text::chars_of(input);
    let start = skip_ws_from(&s, 0);
    let fail = |m: String, p: usize| -> (e: ParseError)
        requires
            p <= s@.len(),
        ensures
            e.message@ == m@,
            e.offset == encode_utf8(s@.take(p as int)).len(),
        { ParseError { message: m, offset: byte_offset(&s, p) } };
    match parse_value_from(&s, start) {
        Err((m, p)) => Err(fail(m, p)),
        Ok((v, q)) => {
            proof {
                lemma_value_advances(s@, start as int);
            }
            let r = skip_ws_from(&s, q);
            if r != s.len() {
                Err(fail("trailing characters after JSON value".to_owned(), r))
            } else {
                Ok(v)
            }
        },
    }
}

/// Escaping distributes over concatenation.
proof fn lemma_escape_concat(a: Seq<char>, b: Seq<char>)
    ensures
        escape(a + b) == escape(a) + escape(b),
    decreases b.len(),
{
    if b.len() == 0 {
        assert(a + b =~= a);
        assert(escape(a) + escape(b) =~= escape(a));
    } else {
        lemma_escape_concat(a, b.drop_last());
        assert((a + b).drop_last() =~= a + b.drop_last());
        assert(escape(a) + escape(b) =~= escape(a) + escape(b.drop_last()) + escape_char(b.last()));
    }
}

/// The escaped text of a non-empty string starts with its first character's escape.
proof fn lemma_escape_front(t: Seq<char>)
    requires
        t.len() > 0,
    ensures
        escape(t) == escape_char(t[0]) + escape(t.drop_first()),
{
    lemma_escape_concat(seq![t[0]], t.drop_first());
    assert(seq![t[0]] + t.drop_first() =~= t);
    let x = seq![t[0]];
    assert(x.drop_last() =~= Seq::<char>::empty());
    assert(escape(x.drop_last()) =~= Seq::<char>::empty());
    assert(x.last() == t[0]);
    assert(escape(x) =~= escape_char(t[0]));
}

/// A hexadecimal digit character reads back as its value.
proof fn lemma_hex_char_value(d: nat)
    requires
        d < 16,
    ensures
        is_hex_digit(hex_char(d)),
        hex_value(hex_char(d)) == d,
{
}

/// Four hex digits of a code below 0x20 read back as the code.
proof fn lemma_hex4_small(n: nat)
    requires
        n < 0x20,
    ensures
        hex_fixed(n, 4).len() == 4,
        hex_fixed(n, 4)[0] == hex_char(0),
        hex_fixed(n, 4)[1] == hex_char(0),
        hex_fixed(n, 4)[2] == hex_char(n / 16),
        hex_fixed(n, 4)[3] == hex_char(n % 16),
{
    reveal_with_fuel(hex_fixed, 5);
    assert(n / 16 / 16 == 0);
    assert(n / 16 / 16 / 16 == 0);
    assert(n / 16 % 16 == n / 16);
}

/// A string literal's escaped text, followed by its closing quote, reads
/// back as the string.
proof fn lemma_string_roundtrip(s: Seq<char>, p: int, acc: Seq<char>, t: Seq<char>)
    requires
        0 <= p,
        p + escape(t).len() < s.len(),
        s.subrange(p, p + escape(t).len()) == escape(t),
        s[p + escape(t).len()] == '"',
    ensures
        string_rest(s, p, acc) == Ok::<(Seq<char>, int), SpecError>(
            (acc + t, p + escape(t).len() + 1),
        ),
    decreases t.len(),
{
    if t.len() == 0 {
        assert(escape(t) =~= Seq::<char>::empty());
        assert(acc + t =~= acc);
    } else {
        let c = t[0];
        let e = escape_char(c);
        let rest = t.drop_first();
        lemma_escape_front(t);
        let l = e.len() as int;
        assert forall|k: int| 0 <= k < l implies s[p + k] == e[k] by {
            assert(s.subrange(p, p + escape(t).len())[k] == escape(t)[k]);
        }
        assert(s.subrange(p + l, p + l + escape(rest).len()) =~= escape(rest)) by {
            assert forall|k: int| 0 <= k < escape(rest).len() implies s[p + l + k] == escape(rest)[k] by {
                assert(s.subrange(p, p + escape(t).len())[l + k] == escape(t)[l + k]);
            }
        }
        lemma_string_roundtrip(s, p + l, acc.push(c), rest);
        assert(acc.push(c) + rest =~= acc + t);
        assert(s[p] == e[0]);
        if c == '"' || c == '\\' || c == '\n' || c == '\r' || c == '\t' {
            assert(s[p + 1] == e[1]);
            assert(s[p] == '\\');
            assert(short_escape(s[p + 1]) == Some(c));
        } else if (c as u32) < 0x20 {
            let n = (c as u32) as nat;
            lemma_hex4_small(n);
            lemma_hex_char_value(0);
            lemma_hex_char_value(n / 16);
            lemma_hex_char_value(n % 16);
            assert(s[p + 1] == e[1]);
            assert(s[p + 2] == e[2]);
            assert(s[p + 3] == e[3]);
            assert(s[p + 4] == e[4]);
            assert(s[p + 5] == e[5]);
            assert(s[p] == '\\');
            assert(s[p + 1] == 'u');
            assert(s[p + 2] == hex_char(0));
            assert(s[p + 3] == hex_char(0));
            assert(s[p + 4] == hex_char(n / 16));
            assert(s[p + 5] == hex_char(n % 16));
            assert(short_escape('u') is None);
            vstd::utf8::char_u32_cast(c, c as u32);
            assert(unicode_escape_at(s, p + 1) == Ok::<(char, int), SpecError>((c, p + 6)));
        } else {
            assert(s[p] == c);
        }
    }
}

/// Every character of a decimal rendering is a digit, and the digits read
/// back as the number.
proof fn lemma_decimal_digits(s: Seq<char>, p: int, n: nat)
    requires
        0 <= p,
        p + decimal(n).len() <= s.len(),
        s.subrange(p, p + decimal(n).len()) == decimal(n),
    ensures
        decimal(n).len() >= 1,
        forall|k: int| p <= k < p + decimal(n).len() ==> is_digit(#[trigger] s[k]),
        digits_value(s, p, p + decimal(n).len()) == n,
    decreases n,
{
    let l = decimal(n).len() as int;
    let d = n % 10;
    assert((((d + 48) as u8) as char) as u32 == d + 48);
    if n < 10 {
        assert(s[p] == decimal(n)[0]);
        assert(digits_value(s, p, p) == 0);
    } else {
        let m = n / 10;
        let lm = decimal(m).len() as int;
        assert(l == lm + 1);
        assert(s.subrange(p, p + lm) =~= decimal(m)) by {
            assert forall|k: int| 0 <= k < lm implies s[p + k] == decimal(m)[k] by {
                assert(s.subrange(p, p + l)[k] == decimal(n)[k]);
            }
        }
        lemma_decimal_digits(s, p, m);
        assert(s[p + lm] == decimal(n)[lm]);
        assert forall|k: int| p <= k < p + l implies is_digit(#[trigger] s[k]) by {
            if k < p + lm {
            } else {
                assert(k == p + lm);
            }
        }
    }
}

/// Digits that stop at a non-digit (or at the end) end exactly there.
proof fn lemma_digits_end_at(s: Seq<char>, p: int, e: int)
    requires
        0 <= p <= e <= s.len(),
        forall|k: int| p <= k < e ==> is_digit(#[trigger] s[k]),
        e == s.len() || !is_digit(s[e]),
    ensures
        digits_end(s, p) == e,
    decreases e - p,
{
    if p < e {
        lemma_digits_end_at(s, p + 1, e);
    }
}

/// The first character of an encoded value: never whitespace, never `]`,
/// `}`, `,` or `:`; a digit only for a number.
proof fn lemma_encode_first(v: JsonView)
    ensures
        encode_value(v).len() >= 1,
        !is_ws(encode_value(v)[0]),
        v is Str <==> encode_value(v)[0] == '"',
        v is Array <==> encode_value(v)[0] == '[',
        v is Object <==> encode_value(v)[0] == '{',
        v is Bool <==> (encode_value(v)[0] == 't' || encode_value(v)[0] == 'f'),
        v is Uint <==> is_digit(encode_value(v)[0]),
{
    match v {
        JsonView::Uint(n) => {
            let s = decimal(n as nat);
            assert(s.subrange(0, s.len() as int) =~= s);
            lemma_decimal_digits(s, 0, n as nat);
        },
        _ => {},
    }
}

/// The items of a non-empty array, encoded, start with the first item.
proof fn lemma_items_front(items: Seq<JsonView>)
    requires
        items.len() >= 1,
    ensures
        encode_items(items) == encode_value(items[0]) + (if items.len() > 1 {
            seq![','] + encode_items(items.subrange(1, items.len() as int))
        } else {
            Seq::empty()
        }),
    decreases items.len(),
{
    if items.len() == 1 {
        assert(encode_value(items[0]) + Seq::<char>::empty() =~= encode_value(items[0]));
    } else if items.len() == 2 {
        let t = items.subrange(1, 2);
        assert(items.subrange(0, 1).len() == 1);
        assert(items.subrange(0, 1)[0] == items[0]);
        assert(t.len() == 1 && t[0] == items[1]);
        assert(encode_items(items.subrange(0, 1)) == encode_value(items[0]));
        assert(encode_items(t) == encode_value(items[1]));
        assert(encode_items(items) =~= encode_value(items[0]) + (seq![','] + encode_items(t)));
    } else {
        let init = items.subrange(0, items.len() - 1);
        lemma_items_front(init);
        let rest = items.subrange(1, items.len() as int);
        assert(init.subrange(1, init.len() as int) =~= rest.subrange(0, rest.len() - 1));
        assert(init[0] == items[0]);
        assert(rest[rest.len() - 1] == items[items.len() - 1]);
        assert(encode_items(items) =~= encode_value(items[0]) + (seq![','] + encode_items(rest)));
    }
}

/// The members of a non-empty object, encoded, start with the first member.
proof fn lemma_members_front(ms: Seq<(Seq<char>, JsonView)>)
    requires
        ms.len() >= 1,
    ensures
        encode_members(ms) == encode_member(ms[0]) + (if ms.len() > 1 {
            seq![','] + encode_members(ms.subrange(1, ms.len() as int))
        } else {
            Seq::empty()
        }),
    decreases ms.len(),
{
    if ms.len() == 1 {
        assert(encode_member(ms[0]) + Seq::<char>::empty() =~= encode_member(ms[0]));
    } else if ms.len() == 2 {
        let t = ms.subrange(1, 2);
        assert(ms.subrange(0, 1).len() == 1);
        assert(ms.subrange(0, 1)[0] == ms[0]);
        assert(t.len() == 1 && t[0] == ms[1]);
        assert(encode_members(ms.subrange(0, 1)) == encode_member(ms[0]));
        assert(encode_members(t) == encode_member(ms[1]));
        assert(encode_members(ms) =~= encode_member(ms[0]) + (seq![','] + encode_members(t)));
    } else {
        let init = ms.subrange(0, ms.len() - 1);
        lemma_members_front(init);
        let rest = ms.subrange(1, ms.len() as int);
        assert(init.subrange(1, init.len() as int) =~= rest.subrange(0, rest.len() - 1));
        assert(init[0] == ms[0]);
        assert(rest[rest.len() - 1] == ms[ms.len() - 1]);
        assert(encode_members(ms) =~= encode_member(ms[0]) + (seq![','] + encode_members(rest)));
    }
}

/// `t` is written in `s` at position `p`.
pub open spec fn written_at(s: Seq<char>, p: int, t: Seq<char>) -> bool {
    0 <= p && p + t.len() <= s.len() && s.subrange(p, p + t.len()) == t
}

/// A piece written inside a larger piece is written at the matching place.
proof fn lemma_written_sub(s: Seq<char>, p: int, t: Seq<char>, a: int, b: int)
    requires
        written_at(s, p, t),
        0 <= a <= b <= t.len(),
    ensures
        written_at(s, p + a, t.subrange(a, b)),
{
    assert(s.subrange(p + a, p + b) =~= t.subrange(a, b)) by {
        assert forall|k: int| 0 <= k < b - a implies #[trigger] s.subrange(p + a, p + b)[k]
            == t.subrange(a, b)[k] by {
            assert(s.subrange(p, p + t.len())[a + k] == t[a + k]);
        }
    }
}

/// A character inside a written piece is the piece's character.
proof fn lemma_written_char(s: Seq<char>, p: int, t: Seq<char>, k: int)
    requires
        written_at(s, p, t),
        0 <= k < t.len(),
    ensures
        s[p + k] == t[k],
{
    assert(s.subrange(p, p + t.len())[k] == t[k]);
}

/// The canonical encoding of a value, found in a text where it is not
/// followed by a digit, parses back as the value and ends right after it.
proof fn lemma_value_roundtrip(s: Seq<char>, p: int, v: JsonView)
    requires
        written_at(s, p, encode_value(v)),
        p + encode_value(v).len() == s.len() || !is_digit(s[p + encode_value(v).len()]),
    ensures
        parse_value_at(s, p) == Ok::<(JsonView, int), SpecError>((v, p + encode_value(v).len())),
    decreases v,
{
    let e = encode_value(v);
    let l = e.len() as int;
    lemma_encode_first(v);
    lemma_written_char(s, p, e, 0);
    assert(skip_ws(s, p) == p);
    match v {
        JsonView::Str(t) => {
            assert(e == seq!['"'] + escape(t) + seq!['"']);
            lemma_written_sub(s, p, e, 1, (1 + escape(t).len()) as int);
            assert(e.subrange(1, (1 + escape(t).len()) as int) =~= escape(t));
            lemma_written_char(s, p, e, l - 1);
            lemma_string_roundtrip(s, p + 1, Seq::empty(), t);
            assert(Seq::<char>::empty() + t =~= t);
        },
        JsonView::Uint(n) => {
            lemma_decimal_digits(s, p, n as nat);
            lemma_digits_end_at(s, p, p + l);
        },
        JsonView::Bool(b) => {
            assert(s.subrange(p, p + l) == e);
            if b {
                assert(s.subrange(p, p + 4) == true_lit());
            } else {
                assert(s.subrange(p, p + 4)[1] == 'a');
                assert(s.subrange(p, p + 5) == false_lit());
            }
        },
        JsonView::Array(items) => {
            let body = encode_items(items);
            assert(e == seq!['['] + body + seq![']']);
            lemma_written_char(s, p, e, l - 1);
            if items.len() == 0 {
                assert(body =~= Seq::<char>::empty());
                assert(skip_ws(s, p + 1) == p + 1);
                assert(items =~= Seq::<JsonView>::empty());
            } else {
                lemma_items_front(items);
                lemma_encode_first(items[0]);
                lemma_written_sub(s, p, e, 1, (1 + body.len()) as int);
                assert(e.subrange(1, (1 + body.len()) as int) =~= body);
                lemma_written_char(s, p + 1, body, 0);
                assert(skip_ws(s, p + 1) == p + 1);
                lemma_items_roundtrip(s, p + 1, Seq::empty(), items);
                assert(Seq::<JsonView>::empty() + items =~= items);
            }
        },
        JsonView::Object(ms) => {
            let body = encode_members(ms);
            assert(e == seq!['{'] + body + seq!['}']);
            lemma_written_char(s, p, e, l - 1);
            if ms.len() == 0 {
                assert(body =~= Seq::<char>::empty());
                assert(skip_ws(s, p + 1) == p + 1);
                assert(ms =~= Seq::<(Seq<char>, JsonView)>::empty());
            } else {
                lemma_members_front(ms);
                lemma_written_sub(s, p, e, 1, (1 + body.len()) as int);
                assert(e.subrange(1, (1 + body.len()) as int) =~= body);
                lemma_written_char(s, p + 1, body, 0);
                assert(skip_ws(s, p + 1) == p + 1);
                lemma_members_roundtrip(s, p + 1, Seq::empty(), ms);
                assert(Seq::<(Seq<char>, JsonView)>::empty() + ms =~= ms);
            }
        },
    }
}

/// Encoded array items followed by `]` parse back as the items.
proof fn lemma_items_roundtrip(s: Seq<char>, p: int, acc: Seq<JsonView>, items: Seq<JsonView>)
    requires
        items.len() >= 1,
        written_at(s, p, encode_items(items)),
        p + encode_items(items).len() < s.len(),
        s[p + encode_items(items).len()] == ']',
    ensures
        array_items(s, p, acc) == Ok::<(JsonView, int), SpecError>(
            (JsonView::Array(acc + items), p + encode_items(items).len() + 1),
        ),
    decreases items,
{
    let body = encode_items(items);
    let v0 = items[0];
    let e0 = encode_value(v0);
    lemma_items_front(items);
    lemma_written_sub(s, p, body, 0, e0.len() as int);
    assert(body.subrange(0, e0.len() as int) =~= e0);
    let q = p + e0.len();
    if items.len() > 1 {
        let rest = items.subrange(1, items.len() as int);
        let rb = encode_items(rest);
        lemma_written_char(s, p, body, e0.len() as int);
        assert(s[q] == ',');
        lemma_value_roundtrip(s, p, v0);
        assert(skip_ws(s, q) == q);
        lemma_written_sub(s, p, body, (e0.len() + 1) as int, body.len() as int);
        assert(body.subrange((e0.len() + 1) as int, body.len() as int) =~= rb);
        assert(q + 1 + rb.len() == p + body.len());
        lemma_items_roundtrip(s, q + 1, acc.push(v0), rest);
        assert(acc.push(v0) + rest =~= acc + items);
    } else {
        assert(body =~= e0);
        lemma_value_roundtrip(s, p, v0);
        assert(skip_ws(s, q) == q);
        assert(acc.push(v0) =~= acc + items);
    }
}

/// Encoded object members followed by `}` parse back as the members.
proof fn lemma_members_roundtrip(
    s: Seq<char>,
    p: int,
    acc: Seq<(Seq<char>, JsonView)>,
    ms: Seq<(Seq<char>, JsonView)>,
)
    requires
        ms.len() >= 1,
        written_at(s, p, encode_members(ms)),
        p + encode_members(ms).len() < s.len(),
        s[p + encode_members(ms).len()] == '}',
    ensures
        object_members(s, p, acc) == Ok::<(JsonView, int), SpecError>(
            (JsonView::Object(acc + ms), p + encode_members(ms).len() + 1),
        ),
    decreases ms,
{
    let body = encode_members(ms);
    let m0 = ms[0];
    let key = m0.0;
    let v0 = m0.1;
    let em = encode_member(m0);
    let qk = quoted(key);
    let ev = encode_value(v0);
    lemma_members_front(ms);
    assert(em == qk + seq![':'] + ev);
    lemma_written_sub(s, p, body, 0, em.len() as int);
    assert(body.subrange(0, em.len() as int) =~= em);
    lemma_written_char(s, p, em, 0);
    assert(skip_ws(s, p) == p);
    // The key.
    lemma_written_sub(s, p, em, 1, (1 + escape(key).len()) as int);
    assert(em.subrange(1, (1 + escape(key).len()) as int) =~= escape(key));
    lemma_written_char(s, p, em, qk.len() - 1);
    lemma_string_roundtrip(s, p + 1, Seq::empty(), key);
    assert(Seq::<char>::empty() + key =~= key);
    let q1 = p + qk.len();
    lemma_written_char(s, p, em, qk.len() as int);
    assert(skip_ws(s, q1) == q1);
    // The value.
    lemma_written_sub(s, p, em, (qk.len() + 1) as int, em.len() as int);
    assert(em.subrange((qk.len() + 1) as int, em.len() as int) =~= ev);
    let q2 = q1 + 1 + ev.len();
    assert(q2 == p + em.len());
    if ms.len() > 1 {
        lemma_written_char(s, p, body, em.len() as int);
        let rest = ms.subrange(1, ms.len() as int);
        let rb = encode_members(rest);
        assert(s[q2] == ',');
        lemma_value_roundtrip(s, q1 + 1, v0);
        assert(skip_ws(s, q2) == q2);
        lemma_written_sub(s, p, body, (em.len() + 1) as int, body.len() as int);
        assert(body.subrange((em.len() + 1) as int, body.len() as int) =~= rb);
        assert(decreases_to!(ms => rest));
        lemma_members_roundtrip(s, q2 + 1, acc.push((key, v0)), rest);
        assert(acc.push((key, v0)) + rest =~= acc + ms);
    } else {
        assert(body =~= em);
        assert(s[q2] == '}');
        assert(decreases_to!(ms => ms[0]));
        assert(decreases_to!(ms[0] => ms[0].1));
        lemma_value_roundtrip(s, q1 + 1, v0);
        assert(skip_ws(s, q2) == q2);
        assert(acc.push((key, v0)) =~= acc + ms);
    }
}

/// What the writer writes, the reader reads back: parsing the canonical
/// encoding of any value gives that value.
pub proof fn lemma_encode_parse_roundtrip(v: JsonView)
    ensures
        parse_document(encode_value(v)) == Ok::<JsonView, SpecError>(v),
{
    let s = encode_value(v);
    lemma_encode_first(v);
    assert(s.subrange(0, s.len() as int) =~= s);
    assert(skip_ws(s, 0) == 0);
    lemma_value_roundtrip(s, 0, v);
    assert(skip_ws(s, s.len() as int) == s.len());
}

/// Space, tab, line feed or carriage return: the whitespace of RFC 8259.
spec fn is_blank(c: char) -> bool {
    c == ' ' || c == '\t' || c == '\n' || c == '\r'
}

/// Skipping whitespace from `p` passes a run of blanks and stops at `q`.
proof fn lemma_skip_blank_run(s: Seq<char>, p: int, q: int)
    requires
        0 <= p <= q <= s.len(),
        forall|i: int| p <= i < q ==> is_blank(#[trigger] s[i]),
        q < s.len() ==> !is_ws(s[q]),
    ensures
        skip_ws(s, p) == q,
    decreases q - p,
{
    if p < q {
        assert(is_blank(s[p]));
        lemma_skip_blank_run(s, p + 1, q);
    }
}

/// A document may be surrounded by any whitespace of RFC 8259 (spaces,
/// tabs, line feeds, carriage returns, as in CRLF or tab-indented files):
/// it still reads as the value written between.
pub proof fn lemma_parse_ignores_surrounding_whitespace(v: JsonView, w1: Seq<char>, w2: Seq<char>)
    requires
        forall|i: int|
            0 <= i < w1.len() ==> #[trigger] w1[i] == ' ' || w1[i] == '\t' || w1[i] == '\n' || w1[i]
                == '\r',
        forall|i: int|
            0 <= i < w2.len() ==> #[trigger] w2[i] == ' ' || w2[i] == '\t' || w2[i] == '\n' || w2[i]
                == '\r',
    ensures
        parse_document(w1 + encode_value(v) + w2) == Ok::<JsonView, SpecError>(v),
{
    let e = encode_value(v);
    let s = w1 + e + w2;
    let p = w1.len() as int;
    let q = p + e.len();
    lemma_encode_first(v);
    assert(s[p] == e[0]);
    assert forall|i: int| 0 <= i < p implies is_blank(#[trigger] s[i]) by {
        assert(s[i] == w1[i]);
        assert(w1[i] == ' ' || w1[i] == '\t' || w1[i] == '\n' || w1[i] == '\r');
    }
    lemma_skip_blank_run(s, 0, p);
    assert(s.subrange(p, q) =~= e);
    assert(written_at(s, p, e));
    if q < s.len() {
        assert(s[q] == w2[0]);
        assert(w2[0] == ' ' || w2[0] == '\t' || w2[0] == '\n' || w2[0] == '\r');
    }
    lemma_value_roundtrip(s, p, v);
    assert forall|i: int| q <= i < s.len() implies is_blank(#[trigger] s[i]) by {
        assert(s[i] == w2[i - q]);
        assert(w2[i - q] == ' ' || w2[i - q] == '\t' || w2[i - q] == '\n' || w2[i - q] == '\r');
    }
    lemma_skip_blank_run(s, q, s.len() as int);
}

/// A value written with the whitespace `w` around every structural
/// character inside it: after `[`, `{`, `:` and `,`, and before `]`, `}`,
/// `:` and `,` (with `w` a newline and indentation, a pretty-printed
/// document). Strings, numbers and literals are written as they are.
pub open spec fn spaced(v: JsonView, w: Seq<char>) -> Seq<char>
    decreases v,
{
    match v {
        JsonView::Array(items) => seq!['['] + w + spaced_items(items, w) + seq![']'],
        JsonView::Object(ms) => seq!['{'] + w + spaced_members(ms, w) + seq!['}'],
        _ => encode_value(v),
    }
}

/// Array items written with `w` around their separating commas, and `w`
/// after the last one.
pub open spec fn spaced_items(items: Seq<JsonView>, w: Seq<char>) -> Seq<char>
    decreases items,
{
    if items.len() == 0 {
        Seq::empty()
    } else if items.len() == 1 {
        spaced(items[0], w) + w
    } else {
        spaced(items[0], w) + w + seq![','] + w + spaced_items(items.subrange(1, items.len() as int), w)
    }
}

/// One object member written with `w` around its colon, and `w` after it.
pub open spec fn spaced_member(m: (Seq<char>, JsonView), w: Seq<char>) -> Seq<char>
    decreases m,
{
    quoted(m.0) + w + seq![':'] + w + spaced(m.1, w) + w
}

/// Object members written with `w` around their separating commas.
pub open spec fn spaced_members(ms: Seq<(Seq<char>, JsonView)>, w: Seq<char>) -> Seq<char>
    decreases ms,
{
    if ms.len() == 0 {
        Seq::empty()
    } else if ms.len() == 1 {
        spaced_member(ms[0], w)
    } else {
        spaced_member(ms[0], w) + seq![','] + w + spaced_members(ms.subrange(1, ms.len() as int), w)
    }
}

/// Every character of `w` is RFC 8259 whitespace.
spec fn all_blank(w: Seq<char>) -> bool {
    forall|i: int| 0 <= i < w.len() ==> is_blank(#[trigger] w[i])
}

/// Skipping whitespace across a blank stretch of a written piece stops at
/// its end, when the next character is no whitespace.
proof fn lemma_skip_written_blank(s: Seq<char>, p: int, t: Seq<char>, a: int, b: int)
    requires
        written_at(s, p, t),
        0 <= a <= b <= t.len(),
        forall|i: int| a <= i < b ==> is_blank(#[trigger] t[i]),
        p + b < s.len() ==> !is_ws(s[p + b]),
    ensures
        skip_ws(s, p + a) == p + b,
{
    assert forall|i: int| p + a <= i < p + b implies is_blank(#[trigger] s[i]) by {
        lemma_written_char(s, p, t, i - p);
    }
    lemma_skip_blank_run(s, p + a, p + b);
}

/// Reading a value after blanks is reading it where the blanks end.
proof fn lemma_value_after_blanks(s: Seq<char>, a: int, b: int)
    requires
        0 <= a <= b,
        skip_ws(s, a) == b,
        skip_ws(s, b) == b,
    ensures
        parse_value_at(s, a) == parse_value_at(s, b),
{
}

/// What a spaced value starts with: never whitespace nor a closing or
/// separating character, and a digit only for a number.
proof fn lemma_spaced_first(v: JsonView, w: Seq<char>)
    ensures
        spaced(v, w).len() >= 1,
        !is_ws(spaced(v, w)[0]),
        spaced(v, w)[0] != ']' && spaced(v, w)[0] != '}' && spaced(v, w)[0] != ','
            && spaced(v, w)[0] != ':',
        is_digit(spaced(v, w)[0]) ==> v is Uint,
{
    lemma_encode_first(v);
    match v {
        JsonView::Array(items) => {},
        JsonView::Object(ms) => {},
        _ => {},
    }
}

/// A spaced value, found in a text where it is not followed by a digit,
/// parses back as the value and ends right after it.
proof fn lemma_spaced_value(s: Seq<char>, p: int, v: JsonView, w: Seq<char>)
    requires
        all_blank(w),
        written_at(s, p, spaced(v, w)),
        p + spaced(v, w).len() == s.len() || !is_digit(s[p + spaced(v, w).len()]),
    ensures
        parse_value_at(s, p) == Ok::<(JsonView, int), SpecError>((v, p + spaced(v, w).len())),
    decreases v, 1int,
{
    let e = spaced(v, w);
    let l = e.len() as int;
    let wl = w.len() as int;
    lemma_spaced_first(v, w);
    lemma_written_char(s, p, e, 0);
    assert(skip_ws(s, p) == p);
    match v {
        JsonView::Array(items) => {
            let si = spaced_items(items, w);
            assert(e == seq!['['] + w + si + seq![']']);
            let q = p + 1 + wl;
            lemma_written_char(s, p, e, l - 1);
            if items.len() == 0 {
                assert(si =~= Seq::<char>::empty());
                lemma_skip_written_blank(s, p, e, 1, 1 + wl);
                assert(items =~= Seq::<JsonView>::empty());
            } else {
                lemma_spaced_first(items[0], w);
                assert(si[0] == spaced(items[0], w)[0]);
                lemma_written_char(s, p, e, 1 + wl);
                lemma_skip_written_blank(s, p, e, 1, 1 + wl);
                lemma_written_sub(s, p, e, 1 + wl, l - 1);
                assert(e.subrange(1 + wl, l - 1) =~= Seq::<char>::empty() + si);
                lemma_spaced_items(s, q, Seq::empty(), items, w, Seq::empty());
                assert(Seq::<JsonView>::empty() + items =~= items);
            }
        },
        JsonView::Object(ms) => {
            let sm = spaced_members(ms, w);
            assert(e == seq!['{'] + w + sm + seq!['}']);
            let q = p + 1 + wl;
            lemma_written_char(s, p, e, l - 1);
            if ms.len() == 0 {
                assert(sm =~= Seq::<char>::empty());
                lemma_skip_written_blank(s, p, e, 1, 1 + wl);
                assert(ms =~= Seq::<(Seq<char>, JsonView)>::empty());
            } else {
                lemma_spaced_members_first(ms, w);
                assert(e[1 + wl] == sm[0]);
                lemma_written_char(s, p, e, 1 + wl);
                lemma_skip_written_blank(s, p, e, 1, 1 + wl);
                lemma_written_sub(s, p, e, 1 + wl, l - 1);
                assert(e.subrange(1 + wl, l - 1) =~= Seq::<char>::empty() + sm);
                lemma_spaced_members(s, q, Seq::empty(), ms, w, Seq::empty());
                assert(Seq::<(Seq<char>, JsonView)>::empty() + ms =~= ms);
            }
        },
        _ => {
            lemma_value_roundtrip(s, p, v);
        },
    }
}

/// Spaced array items after the blanks `l`, followed by `]`, parse back
/// as the items.
proof fn lemma_spaced_items(
    s: Seq<char>,
    p: int,
    acc: Seq<JsonView>,
    items: Seq<JsonView>,
    w: Seq<char>,
    l: Seq<char>,
)
    requires
        items.len() >= 1,
        all_blank(w),
        all_blank(l),
        written_at(s, p, l + spaced_items(items, w)),
        p + l.len() + spaced_items(items, w).len() < s.len(),
        s[p + l.len() + spaced_items(items, w).len()] == ']',
    ensures
        array_items(s, p, acc) == Ok::<(JsonView, int), SpecError>(
            (JsonView::Array(acc + items), p + l.len() + spaced_items(items, w).len() + 1),
        ),
    decreases items, 0int,
{
    let si = spaced_items(items, w);
    let t = l + si;
    let v0 = items[0];
    let e0 = spaced(v0, w);
    let a = p + l.len();
    let q = a + e0.len();
    let r = q + w.len();
    let ln = l.len() as int;
    lemma_spaced_first(v0, w);
    assert(t[ln] == e0[0]);
    lemma_written_char(s, p, t, ln);
    lemma_skip_written_blank(s, p, t, 0, ln);
    assert(skip_ws(s, a) == a);
    lemma_value_after_blanks(s, p, a);
    lemma_written_sub(s, p, t, ln, ln + e0.len());
    assert(t.subrange(ln, ln + e0.len()) =~= e0);
    assert(decreases_to!(items => items[0]));
    if items.len() > 1 {
        let rest = items.subrange(1, items.len() as int);
        let rs = spaced_items(rest, w);
        assert(si == e0 + w + seq![','] + w + rs);
        assert(t[ln + e0.len() + w.len()] == ',');
        lemma_written_char(s, p, t, ln + e0.len() + w.len());
        if w.len() > 0 {
            assert(t[ln + e0.len()] == w[0]);
            lemma_written_char(s, p, t, ln + e0.len());
        }
        lemma_spaced_value(s, a, v0, w);
        lemma_skip_written_blank(s, p, t, ln + e0.len(), ln + e0.len() + w.len());
        lemma_written_sub(s, p, t, ln + e0.len() + w.len() + 1, t.len() as int);
        assert(t.subrange(ln + e0.len() + w.len() + 1, t.len() as int) =~= w + rs);
        assert(decreases_to!(items => rest));
        lemma_spaced_items(s, r + 1, acc.push(v0), rest, w, w);
        assert(acc.push(v0) + rest =~= acc + items);
    } else {
        assert(si == e0 + w);
        if w.len() > 0 {
            assert(t[ln + e0.len()] == w[0]);
            lemma_written_char(s, p, t, ln + e0.len());
        }
        lemma_spaced_value(s, a, v0, w);
        lemma_skip_written_blank(s, p, t, ln + e0.len(), ln + e0.len() + w.len());
        assert(acc.push(v0) =~= acc + items);
    }
}

/// Spaced members start with the opening quote of the first key.
proof fn lemma_spaced_members_first(ms: Seq<(Seq<char>, JsonView)>, w: Seq<char>)
    requires
        ms.len() >= 1,
    ensures
        spaced_members(ms, w).len() >= 1,
        spaced_members(ms, w)[0] == '"',
{
    let em = spaced_member(ms[0], w);
    assert(em[0] == '"');
    if ms.len() > 1 {
        assert(spaced_members(ms, w) == em + seq![','] + w + spaced_members(ms.subrange(1, ms.len() as int), w));
    }
}

/// Spaced object members after the blanks `l`, followed by `}`, parse
/// back as the members.
#[verifier::spinoff_prover]
#[verifier::rlimit(60)]
proof fn lemma_spaced_members(
    s: Seq<char>,
    p: int,
    acc: Seq<(Seq<char>, JsonView)>,
    ms: Seq<(Seq<char>, JsonView)>,
    w: Seq<char>,
    l: Seq<char>,
)
    requires
        ms.len() >= 1,
        all_blank(w),
        all_blank(l),
        written_at(s, p, l + spaced_members(ms, w)),
        p + l.len() + spaced_members(ms, w).len() < s.len(),
        s[p + l.len() + spaced_members(ms, w).len()] == '}',
    ensures
        object_members(s, p, acc) == Ok::<(JsonView, int), SpecError>(
            (JsonView::Object(acc + ms), p + l.len() + spaced_members(ms, w).len() + 1),
        ),
    decreases ms, 0int,
{
    let sm = spaced_members(ms, w);
    let t = l + sm;
    let m0 = ms[0];
    let key = m0.0;
    let v0 = m0.1;
    let qk = quoted(key);
    let e0 = spaced(v0, w);
    let em = spaced_member(m0, w);
    let ln = l.len() as int;
    let wl = w.len() as int;
    let k = p + ln;
    assert(em == qk + w + seq![':'] + w + e0 + w);
    // Offsets inside `t`.
    let o_colon = ln + qk.len() + wl;
    let o_val = o_colon + 1 + wl;
    let o_end = o_val + e0.len();
    let o_after = o_end + wl;
    assert(o_after == ln + em.len());
    if ms.len() > 1 {
        assert(sm == em + seq![','] + w + spaced_members(ms.subrange(1, ms.len() as int), w));
    } else {
        assert(sm == em);
    }
    assert(t.subrange(ln, ln + em.len()) =~= em);
    // The key.
    assert(t[ln] == '"');
    lemma_written_char(s, p, t, ln);
    lemma_skip_written_blank(s, p, t, 0, ln);
    lemma_written_sub(s, p, t, ln + 1, ln + 1 + escape(key).len());
    assert(t.subrange(ln + 1, ln + 1 + escape(key).len()) =~= escape(key));
    assert(t[ln + qk.len() - 1] == '"');
    lemma_written_char(s, p, t, ln + qk.len() - 1);
    lemma_string_roundtrip(s, k + 1, Seq::empty(), key);
    assert(Seq::<char>::empty() + key =~= key);
    // The colon.
    assert(t[o_colon] == ':');
    lemma_written_char(s, p, t, o_colon);
    lemma_skip_written_blank(s, p, t, ln + qk.len(), o_colon);
    // The value.
    lemma_spaced_first(v0, w);
    assert(t[o_val] == e0[0]);
    lemma_written_char(s, p, t, o_val);
    lemma_skip_written_blank(s, p, t, o_colon + 1, o_val);
    assert(skip_ws(s, p + o_val) == p + o_val);
    lemma_value_after_blanks(s, p + o_colon + 1, p + o_val);
    lemma_written_sub(s, p, t, o_val, o_end);
    assert(t.subrange(o_val, o_end) =~= e0);
    if wl > 0 {
        assert(t[o_end] == w[0]);
        lemma_written_char(s, p, t, o_end);
    }
    assert(decreases_to!(ms => ms[0]));
    assert(decreases_to!(ms[0] => ms[0].1));
    if ms.len() > 1 {
        let rest = ms.subrange(1, ms.len() as int);
        let rs = spaced_members(rest, w);
        assert(t[o_after] == ',');
        lemma_written_char(s, p, t, o_after);
        lemma_spaced_value(s, p + o_val, v0, w);
        lemma_skip_written_blank(s, p, t, o_end, o_after);
        lemma_written_sub(s, p, t, o_after + 1, t.len() as int);
        assert(t.subrange(o_after + 1, t.len() as int) =~= w + rs);
        assert(decreases_to!(ms => rest));
        lemma_spaced_members(s, p + o_after + 1, acc.push((key, v0)), rest, w, w);
        assert(acc.push((key, v0)) + rest =~= acc + ms);
    } else {
        lemma_spaced_value(s, p + o_val, v0, w);
        lemma_skip_written_blank(s, p, t, o_end, o_after);
        assert(acc.push((key, v0)) =~= acc + ms);
    }
}

/// Whitespace of RFC 8259 (spaces, tabs, line feeds, carriage returns) may
/// stand around the document and between any two tokens inside it, as in
/// a pretty-printed, tab-indented or CRLF file: the document still reads
/// as the value it writes.
pub proof fn lemma_parse_ignores_whitespace_between_tokens(v: JsonView, w: Seq<char>)
    requires
        forall|i: int|
            0 <= i < w.len() ==> #[trigger] w[i] == ' ' || w[i] == '\t' || w[i] == '\n' || w[i]
                == '\r',
    ensures
        parse_document(w + spaced(v, w) + w) == Ok::<JsonView, SpecError>(v),
{
    let e = spaced(v, w);
    let s = w + e + w;
    let p = w.len() as int;
    let q = p + e.len();
    assert forall|i: int| 0 <= i < w.len() implies is_blank(#[trigger] w[i]) by {
        assert(w[i] == ' ' || w[i] == '\t' || w[i] == '\n' || w[i] == '\r');
    }
    lemma_spaced_first(v, w);
    assert(s.subrange(0, s.len() as int) =~= s);
    assert(written_at(s, 0, s));
    assert(s[p] == e[0]);
    lemma_skip_written_blank(s, 0, s, 0, p);
    assert(s.subrange(p, q) =~= e);
    assert(written_at(s, p, e));
    if q < s.len() {
        assert(s[q] == w[0]);
    }
    lemma_spaced_value(s, p, v, w);
    lemma_skip_written_blank(s, 0, s, q, s.len() as int);
}

} // verus!
