//! The JSON text of a stored record, as a mathematical model: the exact
//! text the encoder emits, and a parser specification for the texts the
//! loader accepts.
//!
//! A record with a string field `name` and an integer field `value` is
//! written as the compact object `{"name":"<name>","value":<value>}`.
//! In the name, a quote or a backslash is escaped with a backslash, the
//! named control characters as `\b`, `\t`, `\n`, `\f`, `\r`, and every
//! other control character as `\u00` and two hex digits; everything else
//! stands for itself.  The loader accepts the JSON texts of that shape:
//! insignificant whitespace between tokens, the two fields in either
//! order, and the string escapes, `\uXXXX` forms of the basic plane
//! included (a surrogate pair is not read).

use vstd::prelude::*;

verus! {

use vstd::arithmetic::div_mod::lemma_fundamental_div_mod;
use vstd::utf8::char_u32_cast;

/// A character that stands for itself inside a JSON string: not a quote,
/// not a backslash, not a control character.
pub open spec fn plain_char(c: char) -> bool {
    c != '"' && c != '\\' && (c as u32) >= 32
}

/// JSON's insignificant whitespace.
pub open spec fn is_ws(c: char) -> bool {
    c == ' ' || c == '\t' || c == '\n' || c == '\r'
}

/// The decimal digit characters.
pub open spec fn is_digit(c: char) -> bool {
    ||| c == '0'
    ||| c == '1'
    ||| c == '2'
    ||| c == '3'
    ||| c == '4'
    ||| c == '5'
    ||| c == '6'
    ||| c == '7'
    ||| c == '8'
    ||| c == '9'
}

/// The numeric value of a digit character.
pub open spec fn digit_val(c: char) -> nat {
    if c == '0' {
        0
    } else if c == '1' {
        1
    } else if c == '2' {
        2
    } else if c == '3' {
        3
    } else if c == '4' {
        4
    } else if c == '5' {
        5
    } else if c == '6' {
        6
    } else if c == '7' {
        7
    } else if c == '8' {
        8
    } else {
        9
    }
}

/// The digit character of a value below ten.
pub open spec fn digit_char(d: nat) -> char {
    if d == 0 {
        '0'
    } else if d == 1 {
        '1'
    } else if d == 2 {
        '2'
    } else if d == 3 {
        '3'
    } else if d == 4 {
        '4'
    } else if d == 5 {
        '5'
    } else if d == 6 {
        '6'
    } else if d == 7 {
        '7'
    } else if d == 8 {
        '8'
    } else {
        '9'
    }
}

/// The hexadecimal digit characters, both cases.
pub open spec fn is_hex(c: char) -> bool {
    ||| is_digit(c)
    ||| c == 'a' || c == 'A'
    ||| c == 'b' || c == 'B'
    ||| c == 'c' || c == 'C'
    ||| c == 'd' || c == 'D'
    ||| c == 'e' || c == 'E'
    ||| c == 'f' || c == 'F'
}

/// The numeric value of a hexadecimal digit character.
pub open spec fn hex_val(c: char) -> nat {
    if is_digit(c) {
        digit_val(c)
    } else if c == 'a' || c == 'A' {
        10
    } else if c == 'b' || c == 'B' {
        11
    } else if c == 'c' || c == 'C' {
        12
    } else if c == 'd' || c == 'D' {
        13
    } else if c == 'e' || c == 'E' {
        14
    } else {
        15
    }
}

/// The lowercase hexadecimal digit character of a value below sixteen,
/// as the encoder writes it.
pub open spec fn hex_char(d: nat) -> char {
    if d < 10 {
        digit_char(d)
    } else if d == 10 {
        'a'
    } else if d == 11 {
        'b'
    } else if d == 12 {
        'c'
    } else if d == 13 {
        'd'
    } else if d == 14 {
        'e'
    } else {
        'f'
    }
}

/// The decimal digit string of a natural number, most significant first,
/// without leading zeros (`0` is written as the single digit `0`).
pub open spec fn digits_of(n: nat) -> Seq<char>
    decreases n,
{
    if n < 10 {
        seq![digit_char(n)]
    } else {
        digits_of(n / 10) + seq![digit_char(n % 10)]
    }
}

/// The decimal text of an integer: a minus sign for negative values,
/// then the digit string of the magnitude.
pub open spec fn int_text(v: int) -> Seq<char> {
    if v < 0 {
        seq!['-'] + digits_of((-v) as nat)
    } else {
        digits_of(v as nat)
    }
}

/// Every character of the sequence is a decimal digit.
pub open spec fn all_digits(s: Seq<char>) -> bool {
    forall|i: int| 0 <= i < s.len() ==> is_digit(s[i])
}

/// A digit string as the encoder writes it: nonempty, digits only, and
/// no leading zero unless it is the single digit `0`.
pub open spec fn canonical_digits(s: Seq<char>) -> bool {
    &&& s.len() >= 1
    &&& all_digits(s)
    &&& (s.len() > 1 ==> s[0] != '0')
}

/// The value of a digit string, read in base ten.
pub open spec fn digits_value(s: Seq<char>) -> nat
    decreases s.len(),
{
    if s.len() == 0 {
        0
    } else {
        digits_value(s.drop_last()) * 10 + digit_val(s.last())
    }
}

/// How one character is written inside the stored string: serde_json's
/// escape table — a backslash form for the quote, the backslash and the
/// named control characters, `\u00` and two lowercase hex digits for the
/// other control characters, and the character itself for the rest.
pub open spec fn escaped_char(c: char) -> Seq<char> {
    if c == '"' {
        seq!['\\', '"']
    } else if c == '\\' {
        seq!['\\', '\\']
    } else if c == '\u{8}' {
        seq!['\\', 'b']
    } else if c == '\t' {
        seq!['\\', 't']
    } else if c == '\n' {
        seq!['\\', 'n']
    } else if c == '\u{c}' {
        seq!['\\', 'f']
    } else if c == '\r' {
        seq!['\\', 'r']
    } else if (c as u32) < 32 {
        seq!['\\', 'u', '0', '0', hex_char(((c as u32) / 16) as nat), hex_char(
            ((c as u32) % 16) as nat,
        )]
    } else {
        seq![c]
    }
}

/// The stored form of a name: each character escaped as needed.
pub open spec fn escaped(s: Seq<char>) -> Seq<char>
    decreases s.len(),
{
    if s.len() == 0 {
        Seq::empty()
    } else {
        escaped_char(s[0]) + escaped(s.drop_first())
    }
}

/// The opening of the canonical record text, up to and including the
/// quote that starts the name: `{"name":"`.
pub open spec fn obj_open() -> Seq<char> {
    seq!['{', '"', 'n', 'a', 'm', 'e', '"', ':', '"']
}

/// The middle of the canonical record text, from the quote that ends the
/// name up to and including the colon before the value: `","value":`.
pub open spec fn obj_mid() -> Seq<char> {
    seq!['"', ',', '"', 'v', 'a', 'l', 'u', 'e', '"', ':']
}

/// The canonical text of a record, exactly as the encoder writes it:
/// `{"name":"<name>","value":<value>}`, the name in its escaped form.
pub open spec fn record_text(name: Seq<char>, value: int) -> Seq<char> {
    obj_open() + escaped(name) + obj_mid() + int_text(value) + seq!['}']
}

/// The values an `i64` field can hold.
pub open spec fn in_i64_range(v: int) -> bool {
    i64::MIN <= v <= i64::MAX
}

/// The first position at or after `i` that does not hold whitespace.
pub open spec fn skip_ws(t: Seq<char>, i: int) -> int
    decreases t.len() - i,
{
    if 0 <= i < t.len() && is_ws(t[i]) {
        skip_ws(t, i + 1)
    } else {
        i
    }
}

/// The first position at or after `i` that does not hold a decimal
/// digit.
pub open spec fn digits_end(t: Seq<char>, i: int) -> int
    decreases t.len() - i,
{
    if 0 <= i < t.len() && is_digit(t[i]) {
        digits_end(t, i + 1)
    } else {
        i
    }
}

/// What a single character after a backslash stands for, for the
/// two-character escapes JSON knows.
pub open spec fn short_escape(c: char) -> Option<char> {
    if c == '"' {
        Some('"')
    } else if c == '\\' {
        Some('\\')
    } else if c == '/' {
        Some('/')
    } else if c == 'b' {
        Some('\u{8}')
    } else if c == 'f' {
        Some('\u{c}')
    } else if c == 'n' {
        Some('\n')
    } else if c == 'r' {
        Some('\r')
    } else if c == 't' {
        Some('\t')
    } else {
        None
    }
}

/// The value of the four hex digits at `i`.
pub open spec fn hex4(t: Seq<char>, i: int) -> nat {
    hex_val(t[i]) * 4096 + hex_val(t[i + 1]) * 256 + hex_val(t[i + 2]) * 16 + hex_val(t[i + 3])
}

/// A code a single `\u` escape may denote: any scalar value of the basic
/// plane, that is, not a surrogate.
pub open spec fn unicode_ok(code: nat) -> bool {
    code < 0xD800 || code >= 0xE000
}

/// Reads a JSON string's content from position `i` up to its closing
/// quote: the position of that quote and the content, unescaped.  The
/// two-character escapes and the basic-plane `\uXXXX` forms are
/// understood; an unterminated string, an unknown or dangling escape, a
/// surrogate code or a raw control character fails the read.
pub open spec fn scan_name(t: Seq<char>, i: int) -> Option<(int, Seq<char>)>
    decreases t.len() - i,
{
    if i < 0 || i >= t.len() {
        None
    } else if t[i] == '"' {
        Some((i, Seq::empty()))
    } else if t[i] == '\\' {
        if i + 2 <= t.len() && short_escape(t[i + 1]) is Some {
            match scan_name(t, i + 2) {
                None => None,
                Some((q, rest)) => Some((q, seq![short_escape(t[i + 1])->Some_0] + rest)),
            }
        } else if i + 6 <= t.len() && t[i + 1] == 'u' && is_hex(t[i + 2]) && is_hex(t[i + 3])
            && is_hex(t[i + 4]) && is_hex(t[i + 5]) && unicode_ok(hex4(t, i + 2)) {
            match scan_name(t, i + 6) {
                None => None,
                Some((q, rest)) => Some((q, seq![(hex4(t, i + 2) as u32) as char] + rest)),
            }
        } else {
            None
        }
    } else if plain_char(t[i]) {
        match scan_name(t, i + 1) {
            None => None,
            Some((q, rest)) => Some((q, seq![t[i]] + rest)),
        }
    } else {
        None
    }
}

/// The integer number starting at `i` and the position after its last
/// digit: an optional minus sign, then digits without a leading zero,
/// in the range of an `i64`.  A lone or signed zero with more digits, an
/// empty digit string and an out-of-range value fail, as they do in the
/// JSON library when an `i64` is asked for.
pub open spec fn scan_int(t: Seq<char>, i: int) -> Option<(int, int)> {
    if 0 <= i < t.len() && t[i] == '-' {
        let e = digits_end(t, i + 1);
        let d = t.subrange(i + 1, e);
        if d.len() >= 1 && (d.len() > 1 ==> d[0] != '0') && 1 <= digits_value(d)
            <= 0x8000000000000000 {
            Some((e, -(digits_value(d) as int)))
        } else {
            None
        }
    } else if 0 <= i < t.len() {
        let e = digits_end(t, i);
        let d = t.subrange(i, e);
        if d.len() >= 1 && (d.len() > 1 ==> d[0] != '0') && digits_value(d)
            <= 0x7fffffffffffffff {
            Some((e, digits_value(d) as int))
        } else {
            None
        }
    } else {
        None
    }
}

/// The text of the `name` key.
pub open spec fn key_name() -> Seq<char> {
    seq!['"', 'n', 'a', 'm', 'e', '"']
}

/// The text of the `value` key.
pub open spec fn key_value() -> Seq<char> {
    seq!['"', 'v', 'a', 'l', 'u', 'e', '"']
}

/// Whether the `name` key stands at position `i`.
pub open spec fn key_name_at(t: Seq<char>, i: int) -> bool {
    0 <= i && i + 6 <= t.len() && t.subrange(i, i + 6) == key_name()
}

/// Whether the `value` key stands at position `i`.
pub open spec fn key_value_at(t: Seq<char>, i: int) -> bool {
    0 <= i && i + 7 <= t.len() && t.subrange(i, i + 7) == key_value()
}

/// A JSON string at position `i`: an opening quote, then its content up
/// to the closing quote; the result is the position after that quote and
/// the unescaped content.
pub open spec fn parse_string_at(t: Seq<char>, i: int) -> Option<(int, Seq<char>)> {
    if 0 <= i < t.len() && t[i] == '"' {
        match scan_name(t, i + 1) {
            None => None,
            Some((q, name)) => Some((q + 1, name)),
        }
    } else {
        None
    }
}

/// The closing of the object at position `i`: optional whitespace, the
/// closing brace, and nothing but whitespace to the end of the text.
pub open spec fn close_ok(t: Seq<char>, i: int) -> bool {
    let j = skip_ws(t, i);
    j < t.len() && t[j] == '}' && skip_ws(t, j + 1) == t.len()
}

/// The name and value a text denotes, when it is a JSON object of the
/// record's shape: exactly the keys `name` (a string) and `value` (an
/// `i64` integer), in either order, with insignificant whitespace
/// anywhere between tokens; `None` for every other text.
pub open spec fn spec_parse(t: Seq<char>) -> Option<(Seq<char>, int)> {
    let i0 = skip_ws(t, 0);
    if !(i0 < t.len() && t[i0] == '{') {
        None
    } else {
        let i1 = skip_ws(t, i0 + 1);
        if key_name_at(t, i1) {
            let i2 = skip_ws(t, i1 + 6);
            if !(i2 < t.len() && t[i2] == ':') {
                None
            } else {
                match parse_string_at(t, skip_ws(t, i2 + 1)) {
                    None => None,
                    Some((i3, name)) => {
                        let i4 = skip_ws(t, i3);
                        if !(i4 < t.len() && t[i4] == ',') {
                            None
                        } else {
                            let i5 = skip_ws(t, i4 + 1);
                            if !key_value_at(t, i5) {
                                None
                            } else {
                                let i6 = skip_ws(t, i5 + 7);
                                if !(i6 < t.len() && t[i6] == ':') {
                                    None
                                } else {
                                    match scan_int(t, skip_ws(t, i6 + 1)) {
                                        None => None,
                                        Some((i7, v)) => if close_ok(t, i7) {
                                            Some((name, v))
                                        } else {
                                            None
                                        },
                                    }
                                }
                            }
                        }
                    },
                }
            }
        } else if key_value_at(t, i1) {
            let i2 = skip_ws(t, i1 + 7);
            if !(i2 < t.len() && t[i2] == ':') {
                None
            } else {
                match scan_int(t, skip_ws(t, i2 + 1)) {
                    None => None,
                    Some((i3, v)) => {
                        let i4 = skip_ws(t, i3);
                        if !(i4 < t.len() && t[i4] == ',') {
                            None
                        } else {
                            let i5 = skip_ws(t, i4 + 1);
                            if !key_name_at(t, i5) {
                                None
                            } else {
                                let i6 = skip_ws(t, i5 + 6);
                                if !(i6 < t.len() && t[i6] == ':') {
                                    None
                                } else {
                                    match parse_string_at(t, skip_ws(t, i6 + 1)) {
                                        None => None,
                                        Some((i7, name)) => if close_ok(t, i7) {
                                            Some((name, v))
                                        } else {
                                            None
                                        },
                                    }
                                }
                            }
                        }
                    },
                }
            }
        } else {
            None
        }
    }
}

/// The digit string of a number is canonical, and starts with a nonzero
/// digit whenever the number is nonzero.
pub proof fn lemma_digits_of_canonical(n: nat)
    ensures
        canonical_digits(digits_of(n)),
        n >= 1 ==> digits_of(n)[0] != '0',
    decreases n,
{
    if n < 10 {
        assert(digits_of(n) == seq![digit_char(n)]);
        assert(is_digit(digit_char(n)));
        assert(canonical_digits(digits_of(n)));
    } else {
        lemma_digits_of_canonical(n / 10);
        let a = digits_of(n / 10);
        let s = digits_of(n);
        assert(s == a + seq![digit_char(n % 10)]);
        assert(is_digit(digit_char(n % 10)));
        assert forall|i: int| 0 <= i < s.len() implies is_digit(s[i]) by {
            if i < a.len() {
                assert(s[i] == a[i]);
            } else {
                assert(s[i] == digit_char(n % 10));
            }
        }
        assert(n / 10 >= 1);
        assert(s[0] == a[0]);
    }
}

/// Reading the digit string of a number back yields the number.
pub proof fn lemma_digits_of_value(n: nat)
    ensures
        digits_value(digits_of(n)) == n,
    decreases n,
{
    if n < 10 {
        let s = seq![digit_char(n)];
        assert(digits_of(n) == s);
        assert(s.len() == 1);
        assert(s.last() == digit_char(n));
        assert(s.drop_last().len() == 0);
        assert(digits_value(s.drop_last()) == 0);
        assert(digits_value(s) == digits_value(s.drop_last()) * 10 + digit_val(s.last()));
        assert(digit_val(digit_char(n)) == n);
    } else {
        lemma_digits_of_value(n / 10);
        let a = digits_of(n / 10);
        let s = digits_of(n);
        assert(s == a + seq![digit_char(n % 10)]);
        assert(s.drop_last() =~= a);
        assert(s.last() == digit_char(n % 10));
        assert(digit_val(digit_char(n % 10)) == n % 10);
        assert(digits_value(s) == digits_value(a) * 10 + n % 10);
        lemma_fundamental_div_mod(n as int, 10);
        assert((n / 10) * 10 + n % 10 == n);
    }
}

/// Appending digits to a digit string never lowers its value.
pub proof fn lemma_digits_value_prefix_le(a: Seq<char>, b: Seq<char>)
    ensures
        digits_value(a + b) >= digits_value(a),
    decreases b.len(),
{
    if b.len() == 0 {
        assert(a + b =~= a);
    } else {
        let s = a + b;
        assert(s.drop_last() =~= a + b.drop_last());
        lemma_digits_value_prefix_le(a, b.drop_last());
        assert(digits_value(s) == digits_value(a + b.drop_last()) * 10 + digit_val(s.last()));
        assert(digits_value(a + b.drop_last()) * 10 >= digits_value(a) * 10);
        assert(digits_value(a) * 10 >= digits_value(a));
    }
}

/// Between `i` and `m` nothing but whitespace, and `m` holds none (or is
/// the end): the whitespace after `i` ends exactly at `m`.
pub proof fn lemma_skip_ws_at(t: Seq<char>, i: int, m: int)
    requires
        0 <= i <= m <= t.len(),
        forall|j: int| i <= j < m ==> is_ws(t[j]),
        m == t.len() || !is_ws(t[m]),
    ensures
        skip_ws(t, i) == m,
    decreases m - i,
{
    if i < m {
        assert(is_ws(t[i]));
        lemma_skip_ws_at(t, i + 1, m);
    }
}

/// Between `i` and `m` nothing but digits, and `m` holds none (or is the
/// end): the digits after `i` end exactly at `m`.
pub proof fn lemma_digits_end_at(t: Seq<char>, i: int, m: int)
    requires
        0 <= i <= m <= t.len(),
        forall|j: int| i <= j < m ==> is_digit(t[j]),
        m == t.len() || !is_digit(t[m]),
    ensures
        digits_end(t, i) == m,
    decreases m - i,
{
    if i < m {
        assert(is_digit(t[i]));
        lemma_digits_end_at(t, i + 1, m);
    }
}

/// Reading the escaped form of a name stops exactly at the closing quote
/// and restores the name.
pub proof fn lemma_scan_name_complete(t: Seq<char>, i: int, q: int, name: Seq<char>)
    requires
        0 <= i <= q < t.len(),
        t[q] == '"',
        t.subrange(i, q) == escaped(name),
    ensures
        scan_name(t, i) == Some((q, name)),
    decreases name.len(),
{
    if name.len() == 0 {
        assert(escaped(name).len() == 0);
        assert(i == q);
        assert(name =~= Seq::<char>::empty());
    } else {
        let c = name[0];
        let rest = name.drop_first();
        let ec = escaped_char(c);
        assert(escaped(name) == ec + escaped(rest));
        if c == '"' || c == '\\' || c == '\u{8}' || c == '\t' || c == '\n' || c == '\u{c}' || c
            == '\r' {
            assert(ec.len() == 2);
            assert(ec[0] == '\\');
            assert(short_escape(ec[1]) == Some(c));
            assert(t[i] == escaped(name)[0]);
            assert(t[i] == '\\');
            assert(t[i + 1] == escaped(name)[1]);
            assert(t[i + 1] == ec[1]);
            assert(t.subrange(i + 2, q) =~= escaped(rest)) by {
                assert(forall|k: int|
                    0 <= k < escaped(rest).len() ==> #[trigger] escaped(rest)[k] == escaped(
                        name,
                    )[k + 2]);
            }
            lemma_scan_name_complete(t, i + 2, q, rest);
            assert(seq![short_escape(t[i + 1])->Some_0] + rest =~= name);
        } else if (c as u32) < 32 {
            let hi = ((c as u32) / 16) as nat;
            let lo = ((c as u32) % 16) as nat;
            assert(ec == seq!['\\', 'u', '0', '0', hex_char(hi), hex_char(lo)]);
            assert(ec.len() == 6);
            assert(t[i] == escaped(name)[0]);
            assert(t[i] == '\\');
            assert(t[i + 1] == escaped(name)[1]);
            assert(t[i + 1] == 'u');
            assert(short_escape('u') is None);
            assert(t[i + 2] == escaped(name)[2]);
            assert(t[i + 3] == escaped(name)[3]);
            assert(t[i + 4] == escaped(name)[4]);
            assert(t[i + 5] == escaped(name)[5]);
            assert(t[i + 2] == '0' && t[i + 3] == '0');
            assert(hi < 2 && lo < 16);
            assert(is_hex(hex_char(hi)) && hex_val(hex_char(hi)) == hi);
            assert(is_hex(hex_char(lo)) && hex_val(hex_char(lo)) == lo);
            assert(is_hex('0') && hex_val('0') == 0);
            lemma_fundamental_div_mod((c as u32) as int, 16);
            assert(hex4(t, i + 2) == hi * 16 + lo);
            assert(hex4(t, i + 2) == c as u32);
            assert(unicode_ok(hex4(t, i + 2)));
            assert(((hex4(t, i + 2) as u32) as char) == c) by {
                char_u32_cast(c, c as u32);
            }
            assert(t.subrange(i + 6, q) =~= escaped(rest)) by {
                assert(forall|k: int|
                    0 <= k < escaped(rest).len() ==> #[trigger] escaped(rest)[k] == escaped(
                        name,
                    )[k + 6]);
            }
            lemma_scan_name_complete(t, i + 6, q, rest);
            assert(seq![(hex4(t, i + 2) as u32) as char] + rest =~= name);
        } else {
            assert(ec == seq![c]);
            assert(t[i] == escaped(name)[0]);
            assert(t[i] == c);
            assert(plain_char(c));
            assert(t.subrange(i + 1, q) =~= escaped(rest)) by {
                assert(forall|k: int|
                    0 <= k < escaped(rest).len() ==> #[trigger] escaped(rest)[k] == escaped(
                        name,
                    )[k + 1]);
            }
            lemma_scan_name_complete(t, i + 1, q, rest);
            assert(seq![t[i]] + rest =~= name);
        }
    }
}

/// Reading the decimal text of an `i64` value, bounded by a non-digit,
/// stops after its last digit and restores the value.
pub proof fn lemma_scan_int_complete(t: Seq<char>, i: int, v: int)
    requires
        in_i64_range(v),
        0 <= i,
        i + int_text(v).len() <= t.len(),
        t.subrange(i, i + int_text(v).len()) == int_text(v),
        i + int_text(v).len() == t.len() || !is_digit(t[i + int_text(v).len()]),
    ensures
        scan_int(t, i) == Some((i + int_text(v).len(), v)),
{
    let it = int_text(v);
    let e = i + it.len();
    if v < 0 {
        let m = (-v) as nat;
        lemma_digits_of_canonical(m);
        lemma_digits_of_value(m);
        let dg = digits_of(m);
        assert(it == seq!['-'] + dg);
        assert(t[i] == it[0]);
        assert(t[i] == '-');
        assert(t.subrange(i + 1, e) =~= dg) by {
            assert(forall|k: int| 0 <= k < dg.len() ==> #[trigger] dg[k] == it[k + 1]);
        }
        assert forall|j: int| i + 1 <= j < e implies is_digit(t[j]) by {
            assert(t[j] == dg[j - (i + 1)]);
        }
        lemma_digits_end_at(t, i + 1, e);
        assert(digits_value(dg) == m);
        assert(1 <= m <= 0x8000000000000000);
        assert(scan_int(t, i) == Some((e, -(m as int))));
    } else {
        lemma_digits_of_canonical(v as nat);
        lemma_digits_of_value(v as nat);
        let dg = digits_of(v as nat);
        assert(it == dg);
        assert(t[i] == dg[0]);
        assert(is_digit(t[i]));
        assert(t[i] != '-');
        assert(t.subrange(i, e) =~= dg);
        assert forall|j: int| i <= j < e implies is_digit(t[j]) by {
            assert(t[j] == dg[j - i]);
        }
        lemma_digits_end_at(t, i, e);
        assert(digits_value(dg) == v);
        assert(v <= 0x7fffffffffffffff);
        assert(scan_int(t, i) == Some((e, v)));
    }
}

/// Parser completeness: the canonical text written for any name and any
/// `i64` value parses back to exactly that name and value.
#[verifier::rlimit(60)]
pub proof fn lemma_spec_parse_complete(name: Seq<char>, v: int)
    requires
        in_i64_range(v),
    ensures
        spec_parse(record_text(name, v)) == Some((name, v)),
{
    let t = record_text(name, v);
    let esc = escaped(name);
    let it = int_text(v);
    if v >= 0 {
        lemma_digits_of_canonical(v as nat);
    } else {
        lemma_digits_of_canonical((-v) as nat);
    }
    assert(it.len() >= 1);
    let q = 9 + esc.len() as int;
    assert(t.len() == 9 + esc.len() + 10 + it.len() + 1);
    assert(t[0] == obj_open()[0]);
    assert(t[0] == '{');
    assert(skip_ws(t, 0) == 0);
    assert forall|k: int| 1 <= k < 9 implies t[k] == obj_open()[k] by {}
    assert(skip_ws(t, 1) == 1);
    assert(t.subrange(1, 7) =~= key_name());
    assert(key_name_at(t, 1));
    assert(t[7] == ':');
    assert(skip_ws(t, 7) == 7);
    assert(t[8] == '"');
    assert(skip_ws(t, 8) == 8);
    assert(t[q] == obj_mid()[0]);
    assert(t[q] == '"');
    assert(t.subrange(9, q) =~= esc);
    lemma_scan_name_complete(t, 9, q, name);
    assert(parse_string_at(t, 8) == Some((q + 1, name)));
    assert forall|k: int| 0 <= k < 10 implies t[q + k] == obj_mid()[k] by {}
    assert(t[q + 1] == ',');
    assert(skip_ws(t, q + 1) == q + 1);
    assert(t.subrange(q + 2, q + 9) =~= key_value());
    assert(key_value_at(t, q + 2));
    assert(t[q + 9] == ':');
    assert(skip_ws(t, q + 9) == q + 9);
    assert(t[q + 10] == it[0]);
    assert(!is_ws(it[0])) by {
        if v < 0 {
            assert(it[0] == '-');
        } else {
            assert(is_digit(it[0]));
        }
    }
    assert(skip_ws(t, q + 10) == q + 10);
    assert(t.subrange(q + 10, q + 10 + it.len()) =~= it);
    assert(t[t.len() - 1] == '}');
    lemma_scan_int_complete(t, q + 10, v);
    assert(scan_int(t, q + 10) == Some((t.len() - 1, v)));
    assert(skip_ws(t, t.len() - 1) == t.len() - 1);
    assert(skip_ws(t, t.len() as int) == t.len());
    assert(close_ok(t, t.len() - 1));
    assert(spec_parse(t) == Some((name, v)));
}

/// Two records with equal canonical texts are equal: the encoding is
/// injective.
pub proof fn lemma_record_text_injective(n1: Seq<char>, v1: int, n2: Seq<char>, v2: int)
    requires
        in_i64_range(v1),
        in_i64_range(v2),
        record_text(n1, v1) == record_text(n2, v2),
    ensures
        n1 == n2,
        v1 == v2,
{
    lemma_spec_parse_complete(n1, v1);
    lemma_spec_parse_complete(n2, v2);
}

} // verus!
