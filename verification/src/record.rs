//! The record the library stores: a name and an integer value, written
//! to disk as the compact JSON object `{"name":"<name>","value":<value>}`.
//!
//! The encoder delegates to the JSON library and is trusted against its
//! source; every record encodes, quotes and backslashes behind a
//! backslash and control characters in their `\b`-style or `\u00XX`
//! forms.  The decoder is this crate's own, verified to accept the JSON
//! texts of the record's shape — whitespace between tokens, the fields
//! in either order, the string escapes up to the basic plane — and to
//! reject all others.

use vstd::prelude::*;

verus! {

use crate::StoreError;
use crate::store::Storable;
use crate::json::plain_char;
use crate::json::is_ws;
use crate::json::is_digit;
use crate::json::digit_val;
use crate::json::is_hex;
use crate::json::hex_val;
use crate::json::hex4;
use crate::json::unicode_ok;
use crate::json::short_escape;
use crate::json::digits_value;
use crate::json::record_text;
use crate::json::skip_ws;
use crate::json::scan_name;
use crate::json::scan_int;
use crate::json::key_name;
use crate::json::key_value;
use crate::json::key_name_at;
use crate::json::key_value_at;
use crate::json::parse_string_at;
use crate::json::close_ok;
use crate::json::spec_parse;
use crate::json::lemma_skip_ws_at;
use crate::json::lemma_digits_end_at;
use crate::json::lemma_digits_value_prefix_le;
use crate::json::lemma_spec_parse_complete;
use crate::json::lemma_record_text_injective;
use vstd::string::StrSliceExecFns;

/// A stored document: a name and an integer value.
#[derive(Debug, PartialEq)]
pub struct Record {
    pub name: String,
    pub value: i64,
}

/// Tells a decimal digit from any other character, with its value.
fn digit_of(c: char) -> (r: Option<u64>)
    ensures
        r matches Some(d) ==> is_digit(c) && d == digit_val(c),
        r is None ==> !is_digit(c),
{
    match c {
        '0' => Some(0u64),
        '1' => Some(1u64),
        '2' => Some(2u64),
        '3' => Some(3u64),
        '4' => Some(4u64),
        '5' => Some(5u64),
        '6' => Some(6u64),
        '7' => Some(7u64),
        '8' => Some(8u64),
        '9' => Some(9u64),
        _ => None,
    }
}

/// Tells a hexadecimal digit from any other character, with its value.
fn hex_digit_of(c: char) -> (r: Option<u32>)
    ensures
        r matches Some(d) ==> is_hex(c) && d == hex_val(c) && d < 16,
        r is None ==> !is_hex(c),
{
    match c {
        '0' => Some(0u32),
        '1' => Some(1u32),
        '2' => Some(2u32),
        '3' => Some(3u32),
        '4' => Some(4u32),
        '5' => Some(5u32),
        '6' => Some(6u32),
        '7' => Some(7u32),
        '8' => Some(8u32),
        '9' => Some(9u32),
        'a' => Some(10u32),
        'A' => Some(10u32),
        'b' => Some(11u32),
        'B' => Some(11u32),
        'c' => Some(12u32),
        'C' => Some(12u32),
        'd' => Some(13u32),
        'D' => Some(13u32),
        'e' => Some(14u32),
        'E' => Some(14u32),
        'f' => Some(15u32),
        'F' => Some(15u32),
        _ => None,
    }
}

/// What a character after a backslash stands for, for the two-character
/// escapes.
fn short_unescape(c: char) -> (r: Option<char>)
    ensures
        r == short_escape(c),
{
    match c {
        '"' => Some('"'),
        '\\' => Some('\\'),
        '/' => Some('/'),
        'b' => Some('\u{8}'),
        'f' => Some('\u{c}'),
        'n' => Some('\n'),
        'r' => Some('\r'),
        't' => Some('\t'),
        _ => None,
    }
}

/// Relies on String::push: appends exactly the one character.
#[verifier::external_body]
fn push_char(s: &mut String, c: char)
    ensures
        final(s)@ == old(s)@.push(c),
{
    s.push(c);
}

/// Relies on char::from_u32: the character with that scalar value, which
/// exists for every non-surrogate code admitted here.
#[verifier::external_body]
fn char_from_code(code: u32) -> (r: char)
    requires
        code < 0xD800 || (0xE000 <= code && code <= 0x10FFFF),
    ensures
        r == (code as char),
{
    char::from_u32(code).unwrap()
}

/// Relies on serde_json: a `serde_json::Map` is a `BTreeMap` ordered by
/// its string keys (so `name` comes before `value`), and
/// `serde_json::Value::to_string` prints it as the compact object
/// `{"name":"<name>","value":<value>}`.  In the string, its escape table
/// writes a backslash form for the quote, the backslash and the named
/// control characters, `\u00` and two lowercase hex digits for the other
/// control characters, and every other character as it is; the integer
/// is printed in decimal.
#[verifier::external_body]
fn record_to_json(name: &String, value: i64) -> (r: String)
    ensures
        r@ == record_text(name@, value as int),
{
    let mut fields = serde_json::Map::new();
    fields.insert("name".to_owned(), serde_json::Value::String(name.clone()));
    fields.insert("value".to_owned(), serde_json::Value::from(value));
    serde_json::Value::Object(fields).to_string()
}

/// Skips insignificant whitespace, exactly as the specification's
/// `skip_ws` does.
#[verifier::loop_isolation(false)]
fn skip_ws_exec(t: &str, from: usize) -> (r: usize)
    requires
        from as int <= t@.len(),
    ensures
        r as int == skip_ws(t@, from as int),
        from <= r,
        r as int <= t@.len(),
{
    let n = t.unicode_len();
    let mut i = from;
    while i < n
        invariant
            from <= i <= n,
            forall|j: int| from <= j < i ==> is_ws(t@[j]),
        decreases n - i,
    {
        let c = t.get_char(i);
        if !(c == ' ' || c == '\t' || c == '\n' || c == '\r') {
            proof {
                lemma_skip_ws_at(t@, from as int, i as int);
            }
            return i;
        }
        assert(is_ws(t@[i as int]));
        i += 1;
    }
    proof {
        lemma_skip_ws_at(t@, from as int, n as int);
    }
    n
}

/// Whether a decimal digit stands at position `i`.
fn digit_at(t: &str, i: usize) -> (r: bool)
    ensures
        r == (i < t@.len() && is_digit(t@[i as int])),
{
    let n = t.unicode_len();
    if i < n {
        digit_of(t.get_char(i)).is_some()
    } else {
        false
    }
}

/// Reads a JSON string's content up to its closing quote, undoing the
/// escapes, exactly as the specification's `scan_name` does.
#[verifier::loop_isolation(false)]
fn scan_name_exec(t: &str, from: usize) -> (r: Option<(usize, String)>)
    requires
        from as int <= t@.len(),
    ensures
        r matches Some(p) ==> (scan_name(t@, from as int) == Some((p.0 as int, p.1@)) && from
            <= p.0 && (p.0 as int) < t@.len()),
        r is None ==> scan_name(t@, from as int) is None,
{
    let n = t.unicode_len();
    let mut i = from;
    let mut buf = String::new();
    while i < n
        invariant
            from <= i <= n,
            (match scan_name(t@, i as int) {
                Option::None => scan_name(t@, from as int) is None,
                Option::Some(p) => scan_name(t@, from as int) == Some((p.0, buf@ + p.1)),
            }),
        decreases n - i,
    {
        let c = t.get_char(i);
        if c == '"' {
            proof {
                assert(scan_name(t@, i as int) == Some((i as int, Seq::<char>::empty())));
                assert(buf@ + Seq::<char>::empty() =~= buf@);
            }
            return Some((i, buf));
        }
        if c == '\\' {
            if i + 1 >= n {
                proof {
                    assert(scan_name(t@, i as int) is None);
                }
                return None;
            }
            let e = t.get_char(i + 1);
            match short_unescape(e) {
                Some(u) => {
                    let ghost prev = buf@;
                    push_char(&mut buf, u);
                    proof {
                        assert(buf@ =~= prev + seq![u]);
                        if scan_name(t@, i as int + 2) is Some {
                            let p = scan_name(t@, i as int + 2)->Some_0;
                            assert(scan_name(t@, i as int) == Some((p.0, seq![u] + p.1)));
                            assert(prev + (seq![u] + p.1) =~= buf@ + p.1);
                        } else {
                            assert(scan_name(t@, i as int) is None);
                        }
                    }
                    i = i + 2;
                },
                None => {
                    if e != 'u' {
                        proof {
                            assert(scan_name(t@, i as int) is None);
                        }
                        return None;
                    }
                    if n - i < 6 {
                        proof {
                            assert(scan_name(t@, i as int) is None);
                        }
                        return None;
                    }
                    let d3: u32;
                    let d2: u32;
                    let d1: u32;
                    let d0: u32;
                    match hex_digit_of(t.get_char(i + 2)) {
                        Some(d) => {
                            d3 = d;
                        },
                        None => {
                            proof {
                                assert(scan_name(t@, i as int) is None);
                            }
                            return None;
                        },
                    }
                    match hex_digit_of(t.get_char(i + 3)) {
                        Some(d) => {
                            d2 = d;
                        },
                        None => {
                            proof {
                                assert(scan_name(t@, i as int) is None);
                            }
                            return None;
                        },
                    }
                    match hex_digit_of(t.get_char(i + 4)) {
                        Some(d) => {
                            d1 = d;
                        },
                        None => {
                            proof {
                                assert(scan_name(t@, i as int) is None);
                            }
                            return None;
                        },
                    }
                    match hex_digit_of(t.get_char(i + 5)) {
                        Some(d) => {
                            d0 = d;
                        },
                        None => {
                            proof {
                                assert(scan_name(t@, i as int) is None);
                            }
                            return None;
                        },
                    }
                    let code: u32 = d3 * 4096 + d2 * 256 + d1 * 16 + d0;
                    proof {
                        assert(code as nat == hex4(t@, i as int + 2));
                    }
                    if !(code < 0xD800 || code >= 0xE000) {
                        proof {
                            assert(!unicode_ok(hex4(t@, i as int + 2)));
                            assert(scan_name(t@, i as int) is None);
                        }
                        return None;
                    }
                    let u = char_from_code(code);
                    let ghost prev = buf@;
                    push_char(&mut buf, u);
                    proof {
                        assert(u == ((hex4(t@, i as int + 2) as u32) as char));
                        assert(buf@ =~= prev + seq![u]);
                        if scan_name(t@, i as int + 6) is Some {
                            let p = scan_name(t@, i as int + 6)->Some_0;
                            assert(scan_name(t@, i as int) == Some((p.0, seq![u] + p.1)));
                            assert(prev + (seq![u] + p.1) =~= buf@ + p.1);
                        } else {
                            assert(scan_name(t@, i as int) is None);
                        }
                    }
                    i = i + 6;
                },
            }
        } else if (c as u32) < 32 {
            proof {
                assert(!plain_char(t@[i as int]));
                assert(scan_name(t@, i as int) is None);
            }
            return None;
        } else {
            let ghost prev = buf@;
            push_char(&mut buf, c);
            proof {
                assert(plain_char(t@[i as int]));
                assert(buf@ =~= prev + seq![c]);
                if scan_name(t@, i as int + 1) is Some {
                    let p = scan_name(t@, i as int + 1)->Some_0;
                    assert(scan_name(t@, i as int) == Some((p.0, seq![c] + p.1)));
                    assert(prev + (seq![c] + p.1) =~= buf@ + p.1);
                } else {
                    assert(scan_name(t@, i as int) is None);
                }
            }
            i = i + 1;
        }
    }
    proof {
        assert(scan_name(t@, i as int) is None);
    }
    None
}

/// Reads an integer number and the position after its last digit,
/// exactly as the specification's `scan_int` does.
#[verifier::loop_isolation(false)]
fn scan_int_exec(t: &str, from: usize) -> (r: Option<(usize, i64)>)
    requires
        from as int <= t@.len(),
    ensures
        r matches Some(p) ==> (scan_int(t@, from as int) == Some((p.0 as int, p.1 as int))
            && from <= p.0 && p.0 as int <= t@.len()),
        r is None ==> scan_int(t@, from as int) is None,
{
    let n = t.unicode_len();
    if from >= n {
        return None;
    }
    let mut j = from;
    let mut neg = false;
    if t.get_char(from) == '-' {
        neg = true;
        j = from + 1;
    }
    let mut e = j;
    while digit_at(t, e)
        invariant
            j <= e <= n,
            forall|m: int| j <= m < e ==> is_digit(t@[m]),
        decreases n - e,
    {
        e += 1;
    }
    proof {
        lemma_digits_end_at(t@, j as int, e as int);
    }
    let ghost dseq = t@.subrange(j as int, e as int);
    if e == j {
        return None;
    }
    if t.get_char(j) == '0' && e - j > 1 {
        proof {
            assert(dseq[0] == '0');
        }
        return None;
    }
    let mut acc: u64 = 0;
    let mut k = j;
    while k < e
        invariant
            j <= k <= e,
            acc == digits_value(t@.subrange(j as int, k as int)),
            acc <= 9223372036854775808,
        decreases e - k,
    {
        let c = t.get_char(k);
        let d: u64;
        match digit_of(c) {
            Some(dd) => {
                d = dd;
            },
            None => {
                proof {
                    assert(is_digit(t@[k as int]));
                }
                d = 0;
            },
        }
        proof {
            assert(t@.subrange(j as int, k as int + 1).drop_last() =~= t@.subrange(
                j as int,
                k as int,
            ));
            assert(t@.subrange(j as int, k as int + 1).last() == t@[k as int]);
            assert(digits_value(t@.subrange(j as int, k as int + 1)) == acc * 10 + digit_val(c));
            assert(dseq =~= t@.subrange(j as int, k as int + 1) + t@.subrange(
                k as int + 1,
                e as int,
            ));
            lemma_digits_value_prefix_le(
                t@.subrange(j as int, k as int + 1),
                t@.subrange(k as int + 1, e as int),
            );
        }
        if acc > 922337203685477580 {
            proof {
                assert(digits_value(dseq) > 9223372036854775808);
            }
            return None;
        }
        let next = acc * 10 + d;
        if next > 9223372036854775808 {
            proof {
                assert(digits_value(dseq) > 9223372036854775808);
            }
            return None;
        }
        acc = next;
        k += 1;
    }
    proof {
        assert(dseq =~= t@.subrange(j as int, k as int));
        assert(acc == digits_value(dseq));
    }
    let v: i64;
    if neg {
        if acc == 0 {
            return None;
        }
        if acc == 9223372036854775808 {
            v = i64::MIN;
        } else {
            v = -(acc as i64);
        }
        proof {
            assert(scan_int(t@, from as int) == Some((e as int, v as int)));
        }
    } else {
        if acc > 9223372036854775807 {
            return None;
        }
        v = acc as i64;
        proof {
            assert(is_digit(dseq[0]));
            assert(t@[from as int] != '-');
            assert(scan_int(t@, from as int) == Some((e as int, v as int)));
        }
    }
    Some((e, v))
}

/// Whether the `name` key stands at position `i`.
fn match_key_name(t: &str, i: usize) -> (r: bool)
    requires
        i as int <= t@.len(),
    ensures
        r == key_name_at(t@, i as int),
{
    let n = t.unicode_len();
    if n - i < 6 {
        return false;
    }
    if t.get_char(i) == '"' && t.get_char(i + 1) == 'n' && t.get_char(i + 2) == 'a' && t.get_char(
        i + 3,
    ) == 'm' && t.get_char(i + 4) == 'e' && t.get_char(i + 5) == '"' {
        proof {
            assert(t@.subrange(i as int, i as int + 6) =~= key_name());
        }
        true
    } else {
        proof {
            if t@.subrange(i as int, i as int + 6) == key_name() {
                assert(forall|k: int|
                    0 <= k < 6 ==> t@[i as int + k] == #[trigger] t@.subrange(
                        i as int,
                        i as int + 6,
                    )[k]);
                assert(false);
            }
        }
        false
    }
}

/// Whether the `value` key stands at position `i`.
fn match_key_value(t: &str, i: usize) -> (r: bool)
    requires
        i as int <= t@.len(),
    ensures
        r == key_value_at(t@, i as int),
{
    let n = t.unicode_len();
    if n - i < 7 {
        return false;
    }
    if t.get_char(i) == '"' && t.get_char(i + 1) == 'v' && t.get_char(i + 2) == 'a' && t.get_char(
        i + 3,
    ) == 'l' && t.get_char(i + 4) == 'u' && t.get_char(i + 5) == 'e' && t.get_char(i + 6) == '"' {
        proof {
            assert(t@.subrange(i as int, i as int + 7) =~= key_value());
        }
        true
    } else {
        proof {
            if t@.subrange(i as int, i as int + 7) == key_value() {
                assert(forall|k: int|
                    0 <= k < 7 ==> t@[i as int + k] == #[trigger] t@.subrange(
                        i as int,
                        i as int + 7,
                    )[k]);
                assert(false);
            }
        }
        false
    }
}

/// Reads a JSON string at `i`, exactly as the specification's
/// `parse_string_at` does.
fn parse_string_exec(t: &str, i: usize) -> (r: Option<(usize, String)>)
    requires
        i as int <= t@.len(),
    ensures
        r matches Some(p) ==> (parse_string_at(t@, i as int) == Some((p.0 as int, p.1@)) && i
            < p.0 && p.0 as int <= t@.len()),
        r is None ==> parse_string_at(t@, i as int) is None,
{
    let n = t.unicode_len();
    if i >= n {
        return None;
    }
    if t.get_char(i) != '"' {
        return None;
    }
    match scan_name_exec(t, i + 1) {
        Some((q, name)) => Some((q + 1, name)),
        None => None,
    }
}

/// Whether the object closes at `i` with nothing but whitespace after,
/// exactly as the specification's `close_ok` says.
fn check_close(t: &str, i: usize) -> (r: bool)
    requires
        i as int <= t@.len(),
    ensures
        r == close_ok(t@, i as int),
{
    let n = t.unicode_len();
    let j = skip_ws_exec(t, i);
    if j >= n {
        return false;
    }
    if t.get_char(j) != '}' {
        return false;
    }
    let k = skip_ws_exec(t, j + 1);
    k == n
}

/// Parses a JSON text of the record's shape into its name and value;
/// every other text is rejected.
fn parse_record(t: &str) -> (r: Option<(String, i64)>)
    ensures
        r matches Some(p) ==> spec_parse(t@) == Some((p.0@, p.1 as int)),
        r is None ==> spec_parse(t@) is None,
{
    let n = t.unicode_len();
    let i0 = skip_ws_exec(t, 0);
    if i0 >= n {
        return None;
    }
    if t.get_char(i0) != '{' {
        return None;
    }
    let i1 = skip_ws_exec(t, i0 + 1);
    if match_key_name(t, i1) {
        let i2 = skip_ws_exec(t, i1 + 6);
        if i2 >= n {
            return None;
        }
        if t.get_char(i2) != ':' {
            return None;
        }
        let i3s = skip_ws_exec(t, i2 + 1);
        let parsed = parse_string_exec(t, i3s);
        let i3: usize;
        let name: String;
        match parsed {
            Some(p) => {
                i3 = p.0;
                name = p.1;
            },
            None => {
                return None;
            },
        }
        let i4 = skip_ws_exec(t, i3);
        if i4 >= n {
            return None;
        }
        if t.get_char(i4) != ',' {
            return None;
        }
        let i5 = skip_ws_exec(t, i4 + 1);
        if !match_key_value(t, i5) {
            return None;
        }
        let i6 = skip_ws_exec(t, i5 + 7);
        if i6 >= n {
            return None;
        }
        if t.get_char(i6) != ':' {
            return None;
        }
        let i7s = skip_ws_exec(t, i6 + 1);
        let scanned = scan_int_exec(t, i7s);
        let i7: usize;
        let value: i64;
        match scanned {
            Some(p) => {
                i7 = p.0;
                value = p.1;
            },
            None => {
                return None;
            },
        }
        if !check_close(t, i7) {
            return None;
        }
        proof {
            assert(spec_parse(t@) == Some((name@, value as int)));
        }
        Some((name, value))
    } else if match_key_value(t, i1) {
        let i2 = skip_ws_exec(t, i1 + 7);
        if i2 >= n {
            return None;
        }
        if t.get_char(i2) != ':' {
            return None;
        }
        let i3s = skip_ws_exec(t, i2 + 1);
        let scanned = scan_int_exec(t, i3s);
        let i3: usize;
        let value: i64;
        match scanned {
            Some(p) => {
                i3 = p.0;
                value = p.1;
            },
            None => {
                return None;
            },
        }
        let i4 = skip_ws_exec(t, i3);
        if i4 >= n {
            return None;
        }
        if t.get_char(i4) != ',' {
            return None;
        }
        let i5 = skip_ws_exec(t, i4 + 1);
        if !match_key_name(t, i5) {
            return None;
        }
        let i6 = skip_ws_exec(t, i5 + 6);
        if i6 >= n {
            return None;
        }
        if t.get_char(i6) != ':' {
            return None;
        }
        let i7s = skip_ws_exec(t, i6 + 1);
        let parsed = parse_string_exec(t, i7s);
        let i7: usize;
        let name: String;
        match parsed {
            Some(p) => {
                i7 = p.0;
                name = p.1;
            },
            None => {
                return None;
            },
        }
        if !check_close(t, i7) {
            return None;
        }
        proof {
            assert(spec_parse(t@) == Some((name@, value as int)));
        }
        Some((name, value))
    } else {
        None
    }
}

impl Storable for Record {
    /// Every record can be written: anything a name holds is escaped.
    open spec fn encodable(self) -> bool {
        true
    }

    /// The canonical text: `{"name":"<name>","value":<value>}`.
    open spec fn text_of(self) -> Seq<char> {
        record_text(self.name@, self.value as int)
    }

    /// Records are the same value when their field contents agree.
    open spec fn same_value(self, other: Self) -> bool {
        self.name@ == other.name@ && self.value == other.value
    }

    /// The decoder accepts a text for a record exactly when the text is
    /// a JSON object of the record's shape denoting its fields.
    open spec fn accepts(t: Seq<char>, v: Self) -> bool {
        spec_parse(t) == Some((v.name@, v.value as int))
    }

    proof fn lemma_text_injective(v1: Self, v2: Self) {
        lemma_record_text_injective(v1.name@, v1.value as int, v2.name@, v2.value as int);
    }

    proof fn lemma_canonical_accepted(v: Self) {
        lemma_spec_parse_complete(v.name@, v.value as int);
    }

    proof fn lemma_accepts_functional(t: Seq<char>, v1: Self, v2: Self) {
    }

    fn encode(&self) -> (r: Result<String, StoreError>) {
        Ok(record_to_json(&self.name, self.value))
    }

    fn decode(t: &str) -> (r: Result<Self, StoreError>) {
        match parse_record(t) {
            Some((name, value)) => Ok(Record { name, value }),
            None => {
                proof {
                    if exists|v: Record| #![trigger Record::accepts(t@, v)] Record::accepts(
                        t@,
                        v,
                    ) {
                        let v = choose|v: Record| #![trigger Record::accepts(t@, v)]
                            Record::accepts(t@, v);
                        assert(spec_parse(t@) is Some);
                        assert(false);
                    }
                }
                Err(StoreError::DecodeFailure)
            },
        }
    }
}

/// Round trip for records: the canonical text written for any record
/// parses back to exactly the record's name and value, so loading what
/// was saved restores the record.
pub proof fn lemma_record_round_trip(r: Record)
    ensures
        spec_parse(r.text_of()) == Some((r.name@, r.value as int)),
{
    lemma_spec_parse_complete(r.name@, r.value as int);
}

} // verus!
