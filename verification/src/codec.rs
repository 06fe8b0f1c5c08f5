//! The persistence adapter: record collections as JSON text.
//!
//! A collection is written as an array of objects with the keys `ssid`,
//! `bssid`, `bandwidth`, `channel` and `signal`. Deserializing what
//! serialization produced gives back the same collection; malformed input
//! fails with a decoding error.

use vstd::prelude::*;
use vstd::string::{StrSliceExecFns, StringExecFns};

use crate::parse::{digits_val, is_digit};
use crate::wifi::{WiFi, WiFiView};

verus! {

/// The failure deserialization reports for malformed input.
#[derive(Debug, PartialEq, Eq, Structural, Clone, Copy)]
pub struct DecodeError;

/// A string value with the two JSON metacharacters escaped: `"` becomes
/// `\"` and `\` becomes `\\`; all other characters stand as themselves.
pub open spec fn escape_json(s: Seq<char>) -> Seq<char>
    decreases s.len(),
{
    if s.len() == 0 {
        Seq::empty()
    } else if s[0] == '"' {
        seq!['\\', '"'] + escape_json(s.skip(1))
    } else if s[0] == '\\' {
        seq!['\\', '\\'] + escape_json(s.skip(1))
    } else {
        seq![s[0]] + escape_json(s.skip(1))
    }
}

/// The decimal digit character for a value below ten.
pub open spec fn digit_char(d: int) -> char {
    if d == 0 {
        '0'
    } else if d == 1 {
        '1'
    } else if d == 2 {
        '2'
    } else if d == 3 {
        '3'
    } else if d == 4 {
        '4'
    } else if d == 5 {
        '5'
    } else if d == 6 {
        '6'
    } else if d == 7 {
        '7'
    } else if d == 8 {
        '8'
    } else {
        '9'
    }
}

/// The decimal digit string of a non-negative value, most significant digit
/// first and without leading zeros.
pub open spec fn itoa_nat(v: int) -> Seq<char>
    decreases v,
{
    if v < 10 {
        seq![digit_char(v)]
    } else {
        itoa_nat(v / 10) + seq![digit_char(v % 10)]
    }
}

/// The decimal text of a signed value: a minus sign for negatives, then the
/// digits of its magnitude.
pub open spec fn ser_i32(v: int) -> Seq<char> {
    if v < 0 {
        seq!['-'] + itoa_nat(-v)
    } else {
        itoa_nat(v)
    }
}

/// The object key tokens, each with its following colon.
pub open spec fn key_ssid() -> Seq<char> {
    "\"ssid\":"@
}

pub open spec fn key_bssid() -> Seq<char> {
    "\"bssid\":"@
}

pub open spec fn key_bandwidth() -> Seq<char> {
    "\"bandwidth\":"@
}

pub open spec fn key_channel() -> Seq<char> {
    "\"channel\":"@
}

pub open spec fn key_signal() -> Seq<char> {
    "\"signal\":"@
}

/// One record as a JSON object, fields in declaration order.
pub open spec fn ser_record(r: WiFiView) -> Seq<char> {
    seq!['{'] + key_ssid() + seq!['"'] + escape_json(r.ssid) + seq!['"', ','] + key_bssid()
        + seq!['"'] + escape_json(r.bssid) + seq!['"', ','] + key_bandwidth() + ser_i32(
        r.bandwidth,
    ) + seq![','] + key_channel() + ser_i32(r.channel) + seq![','] + key_signal() + ser_i32(
        r.signal,
    ) + seq!['}']
}

/// The records after the first, each preceded by a comma.
pub open spec fn ser_rest(rs: Seq<WiFiView>) -> Seq<char>
    decreases rs.len(),
{
    if rs.len() == 0 {
        Seq::empty()
    } else {
        seq![','] + ser_record(rs[0]) + ser_rest(rs.skip(1))
    }
}

/// A whole collection as a JSON array of record objects, in order.
pub open spec fn spec_serialize(rs: Seq<WiFiView>) -> Seq<char> {
    if rs.len() == 0 {
        seq!['[', ']']
    } else {
        seq!['['] + ser_record(rs[0]) + ser_rest(rs.skip(1)) + seq![']']
    }
}

/// Whether `c` is JSON insignificant whitespace.
pub open spec fn is_ws(c: char) -> bool {
    c == ' ' || c == '\t' || c == '\n' || c == '\r'
}

/// The input with leading whitespace dropped.
pub open spec fn skip_ws(s: Seq<char>) -> Seq<char>
    decreases s.len(),
{
    if s.len() > 0 && is_ws(s[0]) {
        skip_ws(s.skip(1))
    } else {
        s
    }
}

proof fn lemma_skip_ws_len(s: Seq<char>)
    ensures
        skip_ws(s).len() <= s.len(),
    decreases s.len(),
{
    if s.len() > 0 && is_ws(s[0]) {
        lemma_skip_ws_len(s.skip(1));
    }
}

/// The input after a required literal prefix, or nothing if the prefix is
/// absent.
pub open spec fn expect(s: Seq<char>, lit: Seq<char>) -> Option<Seq<char>> {
    if lit.len() <= s.len() && s.take(lit.len() as int) == lit {
        Some(s.skip(lit.len() as int))
    } else {
        None
    }
}

/// The character a single-letter JSON escape stands for.
pub open spec fn unescape_char(c: char) -> Option<char> {
    if c == '"' {
        Some('"')
    } else if c == '\\' {
        Some('\\')
    } else if c == '/' {
        Some('/')
    } else if c == 'n' {
        Some('\n')
    } else if c == 't' {
        Some('\t')
    } else if c == 'r' {
        Some('\r')
    } else {
        None
    }
}

/// The decoded value and the remaining input of a JSON string read after its
/// opening quote, or nothing if the input is malformed.
pub open spec fn de_string_body(s: Seq<char>) -> Option<(Seq<char>, Seq<char>)>
    decreases s.len(),
{
    if s.len() == 0 {
        None
    } else if s[0] == '"' {
        Some((Seq::empty(), s.skip(1)))
    } else if s[0] == '\\' {
        if s.len() >= 2 {
            match unescape_char(s[1]) {
                Some(c) => match de_string_body(s.skip(2)) {
                    Some(p) => Some((seq![c] + p.0, p.1)),
                    None => None,
                },
                None => None,
            }
        } else {
            None
        }
    } else {
        match de_string_body(s.skip(1)) {
            Some(p) => Some((seq![s[0]] + p.0, p.1)),
            None => None,
        }
    }
}

proof fn lemma_de_string_body_len(s: Seq<char>)
    requires
        de_string_body(s) is Some,
    ensures
        de_string_body(s)->Some_0.1.len() < s.len(),
    decreases s.len(),
{
    if s[0] == '"' {
    } else if s[0] == '\\' {
        lemma_de_string_body_len(s.skip(2));
    } else {
        lemma_de_string_body_len(s.skip(1));
    }
}

/// The length of the run of decimal digits the input begins with.
pub open spec fn digits_len(s: Seq<char>) -> int
    decreases s.len(),
{
    if s.len() > 0 && is_digit(s[0]) {
        1 + digits_len(s.skip(1))
    } else {
        0
    }
}

proof fn lemma_digits_len_bounds(s: Seq<char>)
    ensures
        0 <= digits_len(s) <= s.len(),
    decreases s.len(),
{
    if s.len() > 0 && is_digit(s[0]) {
        lemma_digits_len_bounds(s.skip(1));
    }
}

/// The leading digit run is all digits.
proof fn lemma_digits_len_all_digits(s: Seq<char>)
    ensures
        crate::parse::all_digits(s.take(digits_len(s))),
    decreases s.len(),
{
    lemma_digits_len_bounds(s);
    if s.len() > 0 && is_digit(s[0]) {
        lemma_digits_len_all_digits(s.skip(1));
        lemma_digits_len_bounds(s.skip(1));
        let t = s.take(digits_len(s));
        assert(s.skip(1).take(digits_len(s.skip(1))) =~= t.skip(1));
        assert forall|i: int| 0 <= i < t.len() implies is_digit(#[trigger] t[i]) by {
            if i == 0 {
                assert(t[0] == s[0]);
            } else {
                assert(t[i] == t.skip(1)[i - 1]);
            }
        }
    } else {
        assert(s.take(0) =~= Seq::<char>::empty());
    }
}

/// The value and remaining input of a JSON integer: an optional minus sign,
/// then one or more digits, in 32-bit signed range; nothing otherwise.
pub open spec fn de_i32(s: Seq<char>) -> Option<(int, Seq<char>)> {
    let neg = s.len() > 0 && s[0] == '-';
    let t = if neg {
        s.skip(1)
    } else {
        s
    };
    let dl = digits_len(t);
    if dl == 0 {
        None
    } else {
        let v = if neg {
            -digits_val(t.take(dl))
        } else {
            digits_val(t.take(dl))
        };
        if -0x8000_0000 <= v <= 0x7FFF_FFFF {
            Some((v, t.skip(dl)))
        } else {
            None
        }
    }
}

proof fn lemma_de_i32_len(s: Seq<char>)
    requires
        de_i32(s) is Some,
    ensures
        de_i32(s)->Some_0.1.len() < s.len(),
{
    let neg = s.len() > 0 && s[0] == '-';
    let t = if neg {
        s.skip(1)
    } else {
        s
    };
    lemma_digits_len_bounds(t);
}

/// The input after a key token (the quoted key and its colon), with the
/// whitespace around it dropped; nothing if the key is absent.
pub open spec fn de_key(s: Seq<char>, kl: Seq<char>) -> Option<Seq<char>> {
    match expect(skip_ws(s), kl) {
        Some(r) => Some(skip_ws(r)),
        None => None,
    }
}

proof fn lemma_de_key_len(s: Seq<char>, kl: Seq<char>)
    requires
        de_key(s, kl) is Some,
    ensures
        de_key(s, kl)->Some_0.len() <= s.len() - kl.len(),
{
    lemma_skip_ws_len(s);
    let r = expect(skip_ws(s), kl)->Some_0;
    lemma_skip_ws_len(r);
}

/// A string-valued field: its key token, an opening quote, and the string
/// body.
pub open spec fn de_string_field(s: Seq<char>, kl: Seq<char>) -> Option<(Seq<char>, Seq<char>)> {
    match de_key(s, kl) {
        Some(r) => match expect(r, seq!['"']) {
            Some(r2) => de_string_body(r2),
            None => None,
        },
        None => None,
    }
}

proof fn lemma_de_string_field_len(s: Seq<char>, kl: Seq<char>)
    requires
        de_string_field(s, kl) is Some,
        kl.len() >= 1,
    ensures
        de_string_field(s, kl)->Some_0.1.len() < s.len(),
{
    lemma_de_key_len(s, kl);
    let r = de_key(s, kl)->Some_0;
    let r2 = expect(r, seq!['"'])->Some_0;
    lemma_de_string_body_len(r2);
}

/// An integer-valued field: its key token, then the number.
pub open spec fn de_i32_field(s: Seq<char>, kl: Seq<char>) -> Option<(int, Seq<char>)> {
    match de_key(s, kl) {
        Some(r) => de_i32(r),
        None => None,
    }
}

proof fn lemma_de_i32_field_len(s: Seq<char>, kl: Seq<char>)
    requires
        de_i32_field(s, kl) is Some,
        kl.len() >= 1,
    ensures
        de_i32_field(s, kl)->Some_0.1.len() < s.len(),
{
    lemma_de_key_len(s, kl);
    let r = de_key(s, kl)->Some_0;
    lemma_de_i32_len(r);
}

/// One record object: braces around the five fields, in declaration order,
/// separated by commas; whitespace is allowed around the tokens.
pub open spec fn de_record(s: Seq<char>) -> Option<(WiFiView, Seq<char>)> {
    match expect(skip_ws(s), seq!['{']) {
        Some(r0) => match de_string_field(r0, key_ssid()) {
            Some((ssid, r1)) => match expect(skip_ws(r1), seq![',']) {
                Some(r1b) => match de_string_field(r1b, key_bssid()) {
                    Some((bssid, r2)) => match expect(skip_ws(r2), seq![',']) {
                        Some(r2b) => match de_i32_field(r2b, key_bandwidth()) {
                            Some((bw, r3)) => match expect(skip_ws(r3), seq![',']) {
                                Some(r3b) => match de_i32_field(r3b, key_channel()) {
                                    Some((ch, r4)) => match expect(skip_ws(r4), seq![',']) {
                                        Some(r4b) => match de_i32_field(r4b, key_signal()) {
                                            Some((sg, r5)) => match expect(
                                                skip_ws(r5),
                                                seq!['}'],
                                            ) {
                                                Some(r6) => Some(
                                                    (
                                                        WiFiView {
                                                            ssid,
                                                            bssid,
                                                            bandwidth: bw,
                                                            channel: ch,
                                                            signal: sg,
                                                        },
                                                        r6,
                                                    ),
                                                ),
                                                None => None,
                                            },
                                            None => None,
                                        },
                                        None => None,
                                    },
                                    None => None,
                                },
                                None => None,
                            },
                            None => None,
                        },
                        None => None,
                    },
                    None => None,
                },
                None => None,
            },
            None => None,
        },
        None => None,
    }
}

proof fn lemma_de_record_len(s: Seq<char>)
    requires
        de_record(s) is Some,
    ensures
        de_record(s)->Some_0.1.len() < s.len(),
{
    proof_keys_nonempty();
    lemma_skip_ws_len(s);
    let r0 = expect(skip_ws(s), seq!['{'])->Some_0;
    lemma_de_string_field_len(r0, key_ssid());
    let r1 = de_string_field(r0, key_ssid())->Some_0.1;
    lemma_skip_ws_len(r1);
    let r1b = expect(skip_ws(r1), seq![','])->Some_0;
    lemma_de_string_field_len(r1b, key_bssid());
    let r2 = de_string_field(r1b, key_bssid())->Some_0.1;
    lemma_skip_ws_len(r2);
    let r2b = expect(skip_ws(r2), seq![','])->Some_0;
    lemma_de_i32_field_len(r2b, key_bandwidth());
    let r3 = de_i32_field(r2b, key_bandwidth())->Some_0.1;
    lemma_skip_ws_len(r3);
    let r3b = expect(skip_ws(r3), seq![','])->Some_0;
    lemma_de_i32_field_len(r3b, key_channel());
    let r4 = de_i32_field(r3b, key_channel())->Some_0.1;
    lemma_skip_ws_len(r4);
    let r4b = expect(skip_ws(r4), seq![','])->Some_0;
    lemma_de_i32_field_len(r4b, key_signal());
    let r5 = de_i32_field(r4b, key_signal())->Some_0.1;
    lemma_skip_ws_len(r5);
}

/// The key tokens are non-empty.
proof fn proof_keys_nonempty()
    ensures
        key_ssid().len() >= 1,
        key_bssid().len() >= 1,
        key_bandwidth().len() >= 1,
        key_channel().len() >= 1,
        key_signal().len() >= 1,
{
    reveal_strlit("\"ssid\":");
    reveal_strlit("\"bssid\":");
    reveal_strlit("\"bandwidth\":");
    reveal_strlit("\"channel\":");
    reveal_strlit("\"signal\":");
}

/// The records after the first: either the closing bracket, or a comma and
/// another record, repeatedly.
pub open spec fn de_records_rest(s: Seq<char>) -> Option<(Seq<WiFiView>, Seq<char>)>
    decreases s.len(),
    via de_records_rest_dec
{
    let t = skip_ws(s);
    if t.len() == 0 {
        None
    } else if t[0] == ']' {
        Some((Seq::empty(), t.skip(1)))
    } else if t[0] == ',' {
        match de_record(t.skip(1)) {
            Some((r, rest)) => match de_records_rest(rest) {
                Some((rs, rest2)) => Some((seq![r] + rs, rest2)),
                None => None,
            },
            None => None,
        }
    } else {
        None
    }
}

#[via_fn]
proof fn de_records_rest_dec(s: Seq<char>) {
    let t = skip_ws(s);
    lemma_skip_ws_len(s);
    if t.len() > 0 && t[0] == ',' {
        if de_record(t.skip(1)) is Some {
            lemma_de_record_len(t.skip(1));
        }
    }
}

/// A whole collection: a bracketed, comma-separated list of record objects
/// with nothing but whitespace after it; nothing if the input is malformed.
pub open spec fn spec_deserialize(s: Seq<char>) -> Option<Seq<WiFiView>> {
    match expect(skip_ws(s), seq!['[']) {
        Some(r) => {
            let t = skip_ws(r);
            if t.len() > 0 && t[0] == ']' {
                if skip_ws(t.skip(1)).len() == 0 {
                    Some(Seq::empty())
                } else {
                    None
                }
            } else {
                match de_record(r) {
                    Some((r0, rest)) => match de_records_rest(rest) {
                        Some((rs, rest2)) => if skip_ws(rest2).len() == 0 {
                            Some(seq![r0] + rs)
                        } else {
                            None
                        },
                        None => None,
                    },
                    None => None,
                }
            }
        },
        None => None,
    }
}

proof fn lemma_expect_prefix(a: Seq<char>, b: Seq<char>)
    ensures
        expect(a + b, a) == Some(b),
{
    assert((a + b).take(a.len() as int) =~= a);
    assert((a + b).skip(a.len() as int) =~= b);
}

proof fn lemma_skip_ws_no_ws(s: Seq<char>)
    requires
        s.len() == 0 || !is_ws(s[0]),
    ensures
        skip_ws(s) == s,
{
}

/// Reading a string body back from its escaped form, up to the closing
/// quote, recovers the original value and leaves the rest untouched.
proof fn lemma_de_string_body_round(v: Seq<char>, rest: Seq<char>)
    ensures
        de_string_body(escape_json(v) + seq!['"'] + rest) == Some((v, rest)),
    decreases v.len(),
{
    let s = escape_json(v) + seq!['"'] + rest;
    if v.len() == 0 {
        assert(s =~= seq!['"'] + rest);
        assert(s[0] == '"');
        assert(s.skip(1) =~= rest);
        assert(de_string_body(s) == Some((Seq::<char>::empty(), rest)));
        assert(v =~= Seq::<char>::empty());
    } else {
        let v1 = v.skip(1);
        lemma_de_string_body_round(v1, rest);
        if v[0] == '"' {
            assert(escape_json(v) =~= seq!['\\', '"'] + escape_json(v1));
            assert(s =~= seq!['\\', '"'] + (escape_json(v1) + seq!['"'] + rest));
            assert(s[0] == '\\' && s[1] == '"');
            assert(unescape_char('"') == Some('"'));
            assert(s.skip(2) =~= escape_json(v1) + seq!['"'] + rest);
            assert(seq!['"'] + v1 =~= v);
        } else if v[0] == '\\' {
            assert(escape_json(v) =~= seq!['\\', '\\'] + escape_json(v1));
            assert(s =~= seq!['\\', '\\'] + (escape_json(v1) + seq!['"'] + rest));
            assert(s[0] == '\\' && s[1] == '\\');
            assert(unescape_char('\\') == Some('\\'));
            assert(s.skip(2) =~= escape_json(v1) + seq!['"'] + rest);
            assert(seq!['\\'] + v1 =~= v);
        } else {
            assert(escape_json(v) =~= seq![v[0]] + escape_json(v1));
            assert(s =~= seq![v[0]] + (escape_json(v1) + seq!['"'] + rest));
            assert(s[0] == v[0]);
            assert(s.skip(1) =~= escape_json(v1) + seq!['"'] + rest);
            assert(seq![v[0]] + v1 =~= v);
        }
    }
}

/// The digit string of a non-negative value is non-empty, all digits, and
/// reads back to the value.
proof fn lemma_itoa_digits(v: int)
    requires
        v >= 0,
    ensures
        itoa_nat(v).len() >= 1,
        crate::parse::all_digits(itoa_nat(v)),
        digits_val(itoa_nat(v)) == v,
    decreases v,
{
    if v < 10 {
        let t = seq![digit_char(v)];
        assert(is_digit(digit_char(v)));
        assert(t.drop_last() =~= Seq::<char>::empty());
        assert(digits_val(Seq::<char>::empty()) == 0);
        assert(t.last() == digit_char(v));
        assert(digits_val(t) == crate::parse::digit_val(digit_char(v)));
        assert(crate::parse::digit_val(digit_char(v)) == v);
    } else {
        lemma_itoa_digits(v / 10);
        let a = itoa_nat(v / 10);
        let c = digit_char(v % 10);
        let t = a + seq![c];
        assert(0 <= v % 10 < 10);
        assert(is_digit(c));
        assert(crate::parse::digit_val(c) == v % 10);
        assert(t.drop_last() =~= a);
        assert(t.last() == c);
        assert(digits_val(t) == digits_val(a) * 10 + crate::parse::digit_val(c));
        vstd::arithmetic::div_mod::lemma_fundamental_div_mod(v, 10);
        assert forall|i: int| 0 <= i < t.len() implies is_digit(#[trigger] t[i]) by {
            if i < a.len() {
                assert(t[i] == a[i]);
            } else {
                assert(t[i] == c);
            }
        }
    }
}

/// A run of digits followed by a non-digit reads as exactly that run.
proof fn lemma_digits_len_concat(a: Seq<char>, rest: Seq<char>)
    requires
        crate::parse::all_digits(a),
        rest.len() == 0 || !is_digit(rest[0]),
    ensures
        digits_len(a + rest) == a.len(),
    decreases a.len(),
{
    if a.len() == 0 {
        assert(a + rest =~= rest);
    } else {
        assert((a + rest)[0] == a[0]);
        assert(is_digit(a[0]));
        assert((a + rest).skip(1) =~= a.skip(1) + rest);
        assert(crate::parse::all_digits(a.skip(1)));
        lemma_digits_len_concat(a.skip(1), rest);
    }
}

/// Reading a serialized integer back gives the value and leaves the rest,
/// whenever what follows does not begin with a digit.
proof fn lemma_de_i32_round(v: int, rest: Seq<char>)
    requires
        -0x8000_0000 <= v <= 0x7FFF_FFFF,
        rest.len() == 0 || !is_digit(rest[0]),
    ensures
        de_i32(ser_i32(v) + rest) == Some((v, rest)),
{
    if v < 0 {
        lemma_itoa_digits(-v);
        let a = itoa_nat(-v);
        let s = ser_i32(v) + rest;
        assert(s =~= seq!['-'] + (a + rest));
        assert(s[0] == '-');
        let t = s.skip(1);
        assert(t =~= a + rest);
        lemma_digits_len_concat(a, rest);
        assert(digits_len(t) == a.len());
        assert(t.take(a.len() as int) =~= a);
        assert(t.skip(a.len() as int) =~= rest);
        assert(digits_val(a) == -v);
    } else {
        lemma_itoa_digits(v);
        let a = itoa_nat(v);
        let s = ser_i32(v) + rest;
        assert(s =~= a + rest);
        assert(s[0] == a[0]);
        assert(is_digit(a[0]));
        assert(s[0] != '-');
        lemma_digits_len_concat(a, rest);
        assert(digits_len(s) == a.len());
        assert(s.take(a.len() as int) =~= a);
        assert(s.skip(a.len() as int) =~= rest);
        assert(digits_val(a) == v);
    }
}

/// A string field as the serializer lays it out, with what follows nested to
/// the right.
pub open spec fn ser_string_field(kl: Seq<char>, v: Seq<char>, rest: Seq<char>) -> Seq<char> {
    kl + (seq!['"'] + (escape_json(v) + (seq!['"'] + rest)))
}

/// An integer field as the serializer lays it out.
pub open spec fn ser_i32_field(kl: Seq<char>, v: int, rest: Seq<char>) -> Seq<char> {
    kl + (ser_i32(v) + rest)
}

/// One record as the serializer lays it out, followed by `rest`, with every
/// token nested to the right.
pub open spec fn ser_record_from(r: WiFiView, rest: Seq<char>) -> Seq<char> {
    seq!['{'] + ser_string_field(
        key_ssid(),
        r.ssid,
        seq![','] + ser_string_field(
            key_bssid(),
            r.bssid,
            seq![','] + ser_i32_field(
                key_bandwidth(),
                r.bandwidth,
                seq![','] + ser_i32_field(
                    key_channel(),
                    r.channel,
                    seq![','] + ser_i32_field(key_signal(), r.signal, seq!['}'] + rest),
                ),
            ),
        ),
    )
}

proof fn lemma_field_string_round(kl: Seq<char>, v: Seq<char>, rest: Seq<char>)
    requires
        kl.len() > 0,
        kl[0] == '"',
    ensures
        de_string_field(ser_string_field(kl, v, rest), kl) == Some((v, rest)),
{
    let s = ser_string_field(kl, v, rest);
    let t = seq!['"'] + (escape_json(v) + (seq!['"'] + rest));
    assert(s[0] == kl[0]);
    lemma_skip_ws_no_ws(s);
    lemma_expect_prefix(kl, t);
    assert(t[0] == '"');
    lemma_skip_ws_no_ws(t);
    let t2 = escape_json(v) + (seq!['"'] + rest);
    lemma_expect_prefix(seq!['"'], t2);
    lemma_de_string_body_round(v, rest);
    assert(escape_json(v) + seq!['"'] + rest =~= t2);
}

proof fn lemma_field_i32_round(kl: Seq<char>, v: int, rest: Seq<char>)
    requires
        kl.len() > 0,
        kl[0] == '"',
        -0x8000_0000 <= v <= 0x7FFF_FFFF,
        rest.len() == 0 || !is_digit(rest[0]),
    ensures
        de_i32_field(ser_i32_field(kl, v, rest), kl) == Some((v, rest)),
{
    let s = ser_i32_field(kl, v, rest);
    let t = ser_i32(v) + rest;
    assert(s[0] == kl[0]);
    lemma_skip_ws_no_ws(s);
    lemma_expect_prefix(kl, t);
    if v >= 0 {
        lemma_itoa_digits(v);
        assert(t[0] == itoa_nat(v)[0]);
    } else {
        assert(t[0] == '-');
    }
    assert(!is_ws(t[0]));
    lemma_skip_ws_no_ws(t);
    lemma_de_i32_round(v, rest);
}

proof fn lemma_comma_round(x: Seq<char>)
    ensures
        expect(skip_ws(seq![','] + x), seq![',']) == Some(x),
{
    let s = seq![','] + x;
    assert(s[0] == ',');
    lemma_skip_ws_no_ws(s);
    lemma_expect_prefix(seq![','], x);
}

/// The key tokens are quoted and non-empty.
proof fn proof_keys_heads()
    ensures
        key_ssid().len() > 0 && key_ssid()[0] == '"',
        key_bssid().len() > 0 && key_bssid()[0] == '"',
        key_bandwidth().len() > 0 && key_bandwidth()[0] == '"',
        key_channel().len() > 0 && key_channel()[0] == '"',
        key_signal().len() > 0 && key_signal()[0] == '"',
{
    reveal_strlit("\"ssid\":");
    reveal_strlit("\"bssid\":");
    reveal_strlit("\"bandwidth\":");
    reveal_strlit("\"channel\":");
    reveal_strlit("\"signal\":");
}

/// Reading a right-nested serialized record back gives the record and leaves
/// the rest.
proof fn lemma_de_record_from_round(r: WiFiView, rest: Seq<char>)
    requires
        crate::wifi::wifi_view_in_range(r),
    ensures
        de_record(ser_record_from(r, rest)) == Some((r, rest)),
{
    proof_keys_heads();
    let s5 = seq!['}'] + rest;
    let f5 = ser_i32_field(key_signal(), r.signal, s5);
    let s4 = seq![','] + f5;
    let f4 = ser_i32_field(key_channel(), r.channel, s4);
    let s3 = seq![','] + f4;
    let f3 = ser_i32_field(key_bandwidth(), r.bandwidth, s3);
    let s2 = seq![','] + f3;
    let f2 = ser_string_field(key_bssid(), r.bssid, s2);
    let s1 = seq![','] + f2;
    let f1 = ser_string_field(key_ssid(), r.ssid, s1);
    let s0 = ser_record_from(r, rest);
    assert(s0 == seq!['{'] + f1);
    assert(s0[0] == '{');
    lemma_skip_ws_no_ws(s0);
    lemma_expect_prefix(seq!['{'], f1);
    lemma_field_string_round(key_ssid(), r.ssid, s1);
    lemma_comma_round(f2);
    lemma_field_string_round(key_bssid(), r.bssid, s2);
    lemma_comma_round(f3);
    assert(s3[0] == ',');
    lemma_field_i32_round(key_bandwidth(), r.bandwidth, s3);
    lemma_comma_round(f4);
    assert(s4[0] == ',');
    lemma_field_i32_round(key_channel(), r.channel, s4);
    lemma_comma_round(f5);
    assert(s5[0] == '}');
    lemma_field_i32_round(key_signal(), r.signal, s5);
    lemma_skip_ws_no_ws(s5);
    lemma_expect_prefix(seq!['}'], rest);
    let out = WiFiView {
        ssid: r.ssid,
        bssid: r.bssid,
        bandwidth: r.bandwidth,
        channel: r.channel,
        signal: r.signal,
    };
    assert(out =~= r);
    assert(de_record(s0) == Some((r, rest)));
}

/// The serializer's flat record text, with `rest` appended, is the same text
/// as the right-nested form.
#[verifier::rlimit(100)]
proof fn lemma_ser_record_from(r: WiFiView, rest: Seq<char>)
    ensures
        ser_record(r) + rest == ser_record_from(r, rest),
{
    assert(ser_record(r) + rest =~= ser_record_from(r, rest));
}

/// Reading a serialized record back gives the record and leaves the rest.
proof fn lemma_de_record_round(r: WiFiView, rest: Seq<char>)
    requires
        crate::wifi::wifi_view_in_range(r),
    ensures
        de_record(ser_record(r) + rest) == Some((r, rest)),
{
    lemma_ser_record_from(r, rest);
    lemma_de_record_from_round(r, rest);
}

/// Reading the serialized remainder of a collection back gives its records
/// and leaves the trailing text.
#[verifier::rlimit(60)]
proof fn lemma_de_records_rest_round(rs: Seq<WiFiView>, tail: Seq<char>)
    requires
        forall|i: int| 0 <= i < rs.len() ==> crate::wifi::wifi_view_in_range(#[trigger] rs[i]),
    ensures
        de_records_rest(ser_rest(rs) + seq![']'] + tail) == Some((rs, tail)),
    decreases rs.len(),
{
    let s = ser_rest(rs) + seq![']'] + tail;
    if rs.len() == 0 {
        assert(s =~= seq![']'] + tail);
        assert(s[0] == ']');
        lemma_skip_ws_no_ws(s);
        assert(s.skip(1) =~= tail);
        assert(rs =~= Seq::<WiFiView>::empty());
    } else {
        let rs1 = rs.skip(1);
        assert(forall|i: int|
            0 <= i < rs1.len() ==> crate::wifi::wifi_view_in_range(#[trigger] rs1[i]));
        let inner = ser_rest(rs1) + seq![']'] + tail;
        assert(s =~= seq![','] + (ser_record(rs[0]) + inner));
        assert(s[0] == ',');
        lemma_skip_ws_no_ws(s);
        assert(s.skip(1) =~= ser_record(rs[0]) + inner);
        lemma_de_record_round(rs[0], inner);
        lemma_de_records_rest_round(rs1, tail);
        assert(seq![rs[0]] + rs1 =~= rs);
    }
}

/// Deserializing what serialization produced gives back the same
/// collection, preserving field values and order.
#[verifier::rlimit(100)]
pub proof fn lemma_deserialize_serialize(rs: Seq<WiFiView>)
    requires
        forall|i: int| 0 <= i < rs.len() ==> crate::wifi::wifi_view_in_range(#[trigger] rs[i]),
    ensures
        spec_deserialize(spec_serialize(rs)) == Some(rs),
{
    let s = spec_serialize(rs);
    if rs.len() == 0 {
        assert(s =~= seq!['['] + seq![']']);
        assert(s[0] == '[');
        lemma_skip_ws_no_ws(s);
        lemma_expect_prefix(seq!['['], seq![']']);
        assert(expect(skip_ws(s), seq!['[']) == Some(seq![']']));
        let t = skip_ws(seq![']']);
        lemma_skip_ws_no_ws(seq![']']);
        assert(t[0] == ']');
        assert(t.skip(1) =~= Seq::<char>::empty());
        assert(skip_ws(t.skip(1)).len() == 0);
        assert(spec_deserialize(s) == Some(Seq::<WiFiView>::empty()));
        assert(rs =~= Seq::<WiFiView>::empty());
    } else {
        let body = ser_record(rs[0]) + ser_rest(rs.skip(1)) + seq![']'];
        assert(s =~= seq!['['] + body);
        assert(s[0] == '[');
        lemma_skip_ws_no_ws(s);
        lemma_expect_prefix(seq!['['], body);
        assert(expect(skip_ws(s), seq!['[']) == Some(body));
        reveal_strlit("\"ssid\":");
        assert(body[0] == '{');
        lemma_skip_ws_no_ws(body);
        assert(skip_ws(body)[0] != ']');
        let after = ser_rest(rs.skip(1)) + seq![']'] + Seq::<char>::empty();
        assert(body =~= ser_record(rs[0]) + after);
        lemma_de_record_round(rs[0], after);
        lemma_de_records_rest_round(rs.skip(1), Seq::<char>::empty());
        assert(skip_ws(Seq::<char>::empty()).len() == 0);
        assert(seq![rs[0]] + rs.skip(1) =~= rs);
    }
}

fn is_digit_char(c: char) -> (b: bool)
    ensures
        b == is_digit(c),
{
    let d = c as u32;
    48 <= d && d <= 57
}

fn is_ws_char(c: char) -> (b: bool)
    ensures
        b == is_ws(c),
{
    c == ' ' || c == '\t' || c == '\n' || c == '\r'
}

/// Advances the cursor past leading whitespace.
fn skip_ws_exec(s: &str, i: usize) -> (r: usize)
    requires
        i as int <= s@.len(),
    ensures
        i <= r,
        r as int <= s@.len(),
        skip_ws(s@.skip(i as int)) == s@.skip(r as int),
{
    let n = s.unicode_len();
    let mut j = i;
    while j < n && is_ws_char(s.get_char(j))
        invariant
            i <= j <= n,
            n as int == s@.len(),
            skip_ws(s@.skip(i as int)) == skip_ws(s@.skip(j as int)),
        decreases n - j,
    {
        proof {
            assert(s@.skip(j as int)[0] == s@[j as int]);
            assert(s@.skip(j as int).skip(1) =~= s@.skip(j as int + 1));
        }
        j += 1;
    }
    proof {
        let t = s@.skip(j as int);
        if j == n {
            assert(t.len() == 0);
        } else {
            assert(t[0] == s@[j as int]);
            assert(!is_ws(t[0]));
        }
        assert(skip_ws(t) == t);
    }
    j
}

/// Consumes a literal token at the cursor, or reports its absence.
fn expect_lit(s: &str, i: usize, lit: &str) -> (r: Option<usize>)
    requires
        i as int <= s@.len(),
    ensures
        match r {
            Some(j) => i <= j && j as int <= s@.len() && expect(s@.skip(i as int), lit@) == Some(
                s@.skip(j as int),
            ),
            None => expect(s@.skip(i as int), lit@) is None,
        },
{
    let ghost t = s@.skip(i as int);
    let n = s.unicode_len();
    let m = lit.unicode_len();
    if n - i < m {
        proof {
            assert(t.len() < lit@.len());
        }
        return None;
    }
    let mut k: usize = 0;
    while k < m
        invariant
            k <= m,
            i + m <= n,
            n as int == s@.len(),
            m as int == lit@.len(),
            t == s@.skip(i as int),
            forall|x: int| 0 <= x < k ==> t[x] == lit@[x],
        decreases m - k,
    {
        let ca = s.get_char(i + k);
        let cb = lit.get_char(k);
        proof {
            assert(t[k as int] == s@[i as int + k]);
        }
        if ca != cb {
            proof {
                assert(t[k as int] != lit@[k as int]);
                if t.take(m as int) == lit@ {
                    assert(t.take(m as int)[k as int] == t[k as int]);
                }
            }
            return None;
        }
        k += 1;
    }
    proof {
        assert(t.take(m as int) =~= lit@);
        assert(t.skip(m as int) =~= s@.skip(i as int + m));
    }
    Some(i + m)
}

/// Reads a JSON string body after its opening quote, decoding escapes.
fn read_string_body(s: &str, i: usize) -> (r: Option<(String, usize)>)
    requires
        i as int <= s@.len(),
    ensures
        match r {
            Some(p) => i <= p.1 && p.1 as int <= s@.len() && de_string_body(s@.skip(i as int))
                == Some((p.0@, s@.skip(p.1 as int))),
            None => de_string_body(s@.skip(i as int)) is None,
        },
{
    let n = s.unicode_len();
    let mut out = String::new();
    let mut j = i;
    proof {
        assert(out@ =~= Seq::<char>::empty());
    }
    loop
        invariant
            i <= j <= n,
            n as int == s@.len(),
            match de_string_body(s@.skip(j as int)) {
                Some(p) => de_string_body(s@.skip(i as int)) == Some((out@ + p.0, p.1)),
                None => de_string_body(s@.skip(i as int)) is None,
            },
        decreases n - j,
    {
        if j == n {
            proof {
                assert(s@.skip(j as int).len() == 0);
            }
            return None;
        }
        let ghost t = s@.skip(j as int);
        proof {
            assert(t[0] == s@[j as int]);
            assert(t.skip(1) =~= s@.skip(j as int + 1));
        }
        let c = s.get_char(j);
        if c == '"' {
            proof {
                assert(de_string_body(t) == Some((Seq::<char>::empty(), t.skip(1))));
                assert(out@ + Seq::<char>::empty() =~= out@);
            }
            return Some((out, j + 1));
        }
        if c == '\\' {
            if j + 1 == n {
                proof {
                    assert(t.len() == 1);
                }
                return None;
            }
            let c2 = s.get_char(j + 1);
            proof {
                assert(t[1] == s@[j as int + 1]);
                assert(t.skip(2) =~= s@.skip(j as int + 2));
            }
            let piece: &str;
            if c2 == '"' {
                piece = "\"";
                proof {
                    reveal_strlit("\"");
                    assert(piece@ =~= seq!['"']);
                }
            } else if c2 == '\\' {
                piece = "\\";
                proof {
                    reveal_strlit("\\");
                    assert(piece@ =~= seq!['\\']);
                }
            } else if c2 == '/' {
                piece = "/";
                proof {
                    reveal_strlit("/");
                    assert(piece@ =~= seq!['/']);
                }
            } else if c2 == 'n' {
                piece = "\n";
                proof {
                    reveal_strlit("\n");
                    assert(piece@ =~= seq!['\n']);
                }
            } else if c2 == 't' {
                piece = "\t";
                proof {
                    reveal_strlit("\t");
                    assert(piece@ =~= seq!['\t']);
                }
            } else if c2 == 'r' {
                piece = "\r";
                proof {
                    reveal_strlit("\r");
                    assert(piece@ =~= seq!['\r']);
                }
            } else {
                proof {
                    assert(unescape_char(t[1]) is None);
                }
                return None;
            }
            let ghost old_out = out@;
            out.append(piece);
            proof {
                let ch = unescape_char(t[1])->Some_0;
                assert(piece@ =~= seq![ch]);
                match de_string_body(s@.skip(j as int + 2)) {
                    Some(p) => {
                        assert(de_string_body(t) == Some((seq![ch] + p.0, p.1)));
                        assert(old_out + (seq![ch] + p.0) =~= out@ + p.0);
                    },
                    None => {
                        assert(de_string_body(t) is None);
                    },
                }
            }
            j += 2;
        } else {
            let piece = s.substring_char(j, j + 1);
            let ghost old_out = out@;
            out.append(piece);
            proof {
                assert(piece@ =~= seq![t[0]]);
                match de_string_body(s@.skip(j as int + 1)) {
                    Some(p) => {
                        assert(de_string_body(t) == Some((seq![t[0]] + p.0, p.1)));
                        assert(old_out + (seq![t[0]] + p.0) =~= out@ + p.0);
                    },
                    None => {
                        assert(de_string_body(t) is None);
                    },
                }
            }
            j += 1;
        }
    }
}

/// Reads a JSON integer at the cursor into a 32-bit value.
fn read_i32(s: &str, i: usize) -> (r: Option<(i32, usize)>)
    requires
        i as int <= s@.len(),
    ensures
        match r {
            Some(p) => i <= p.1 && p.1 as int <= s@.len() && de_i32(s@.skip(i as int)) == Some(
                (p.0 as int, s@.skip(p.1 as int)),
            ),
            None => de_i32(s@.skip(i as int)) is None,
        },
{
    let ghost whole = s@.skip(i as int);
    let n = s.unicode_len();
    let mut j = i;
    let mut neg = false;
    if j < n && s.get_char(j) == '-' {
        neg = true;
        j += 1;
    }
    proof {
        assert(whole.len() > 0 ==> whole[0] == s@[i as int]);
    }
    let ghost t = if neg {
        whole.skip(1)
    } else {
        whole
    };
    let b = j;
    proof {
        assert(t =~= s@.skip(b as int));
        assert(t.take(0) =~= Seq::<char>::empty());
        assert(crate::parse::digits_val(Seq::<char>::empty()) == 0);
    }
    let mut acc: u64 = 0;
    while j < n && is_digit_char(s.get_char(j))
        invariant
            i <= b <= j <= n,
            n as int == s@.len(),
            t == s@.skip(b as int),
            neg ==> b == i + 1 && whole.len() > 0 && whole[0] == '-' && t == whole.skip(1),
            !neg ==> b == i && t == whole,
            whole == s@.skip(i as int),
            acc <= 0x8000_0000,
            crate::parse::all_digits(t.take(j - b)),
            acc as int == digits_val(t.take(j - b)),
            digits_len(t) == (j - b) + digits_len(s@.skip(j as int)),
        decreases n - j,
    {
        let c = s.get_char(j);
        let d = c as u32;
        proof {
            assert(s@.skip(j as int)[0] == s@[j as int]);
            assert(s@.skip(j as int).skip(1) =~= s@.skip(j as int + 1));
            assert(t[j - b] == s@[j as int]);
            assert(is_digit(t[j - b]));
            assert(t.take(j - b + 1).drop_last() =~= t.take(j - b));
            assert(t.take(j - b + 1).last() == t[j - b]);
            assert(crate::parse::digit_val(t[j - b]) == d as int - 48);
        }
        acc = acc * 10 + ((d - 48) as u64);
        j += 1;
        if acc > 0x8000_0000 {
            // the digits already read exceed the 32-bit range
            proof {
                lemma_digits_len_bounds(t);
                lemma_digits_len_all_digits(t);
                let dl = digits_len(t);
                assert(digits_len(s@.skip(j as int - 1)) == 1 + digits_len(s@.skip(j as int)));
                lemma_digits_len_bounds(s@.skip(j as int));
                assert(dl >= j - b);
                assert(t.take(dl).take(j - b) =~= t.take(j - b));
                crate::parse::lemma_digits_val_prefix_le(t.take(dl), j - b);
                assert(digits_val(t.take(dl)) > 0x8000_0000);
                assert(de_i32(whole) is None);
            }
            return None;
        }
    }
    proof {
        if j < n {
            assert(s@.skip(j as int)[0] == s@[j as int]);
            assert(!is_digit(s@.skip(j as int)[0]));
        } else {
            assert(s@.skip(j as int).len() == 0);
        }
        assert(digits_len(s@.skip(j as int)) == 0);
        assert(digits_len(t) == j - b);
        assert(t.take(j - b) =~= t.take(digits_len(t)));
        assert(t.skip(j - b) =~= s@.skip(j as int));
    }
    if j == b {
        // no digits at all
        proof {
            assert(de_i32(whole) is None);
        }
        return None;
    }
    if neg {
        let v: i64 = 0i64 - (acc as i64);
        proof {
            assert(de_i32(whole) == Some((v as int, s@.skip(j as int))));
        }
        return Some((v as i32, j));
    }
    if acc > 0x7FFF_FFFF {
        proof {
            assert(de_i32(whole) is None);
        }
        return None;
    }
    proof {
        assert(de_i32(whole) == Some((acc as int, s@.skip(j as int))));
    }
    Some((acc as i32, j))
}

/// Consumes a key token and the whitespace around it.
fn read_key(s: &str, i: usize, kl: &str) -> (r: Option<usize>)
    requires
        i as int <= s@.len(),
    ensures
        match r {
            Some(j) => i <= j && j as int <= s@.len() && de_key(s@.skip(i as int), kl@) == Some(
                s@.skip(j as int),
            ),
            None => de_key(s@.skip(i as int), kl@) is None,
        },
{
    let w = skip_ws_exec(s, i);
    match expect_lit(s, w, kl) {
        Some(j) => Some(skip_ws_exec(s, j)),
        None => None,
    }
}

/// Reads a string-valued field: its key token, then the quoted value.
fn read_string_field(s: &str, i: usize, kl: &str) -> (r: Option<(String, usize)>)
    requires
        i as int <= s@.len(),
    ensures
        match r {
            Some(p) => i <= p.1 && p.1 as int <= s@.len() && de_string_field(
                s@.skip(i as int),
                kl@,
            ) == Some((p.0@, s@.skip(p.1 as int))),
            None => de_string_field(s@.skip(i as int), kl@) is None,
        },
{
    let j = match read_key(s, i, kl) {
        Some(j) => j,
        None => {
            return None;
        },
    };
    proof {
        reveal_strlit("\"");
        assert("\""@ =~= seq!['"']);
    }
    let j2 = match expect_lit(s, j, "\"") {
        Some(j2) => j2,
        None => {
            return None;
        },
    };
    read_string_body(s, j2)
}

/// Reads an integer-valued field: its key token, then the number.
fn read_i32_field(s: &str, i: usize, kl: &str) -> (r: Option<(i32, usize)>)
    requires
        i as int <= s@.len(),
    ensures
        match r {
            Some(p) => i <= p.1 && p.1 as int <= s@.len() && de_i32_field(s@.skip(i as int), kl@)
                == Some((p.0 as int, s@.skip(p.1 as int))),
            None => de_i32_field(s@.skip(i as int), kl@) is None,
        },
{
    let j = match read_key(s, i, kl) {
        Some(j) => j,
        None => {
            return None;
        },
    };
    read_i32(s, j)
}

/// Reads one record object at the cursor.
fn read_record(s: &str, i: usize) -> (r: Option<(WiFi, usize)>)
    requires
        i as int <= s@.len(),
    ensures
        match r {
            Some(p) => i <= p.1 && p.1 as int <= s@.len() && de_record(s@.skip(i as int)) == Some(
                (p.0@, s@.skip(p.1 as int)),
            ),
            None => de_record(s@.skip(i as int)) is None,
        },
{
    proof {
        reveal_strlit("{");
        reveal_strlit("}");
        reveal_strlit(",");
        assert("{"@ =~= seq!['{']);
        assert("}"@ =~= seq!['}']);
        assert(","@ =~= seq![',']);
    }
    let w0 = skip_ws_exec(s, i);
    let r0 = match expect_lit(s, w0, "{") {
        Some(j) => j,
        None => {
            return None;
        },
    };
    let (ssid, r1) = match read_string_field(s, r0, "\"ssid\":") {
        Some(p) => p,
        None => {
            return None;
        },
    };
    let w1 = skip_ws_exec(s, r1);
    let r1b = match expect_lit(s, w1, ",") {
        Some(j) => j,
        None => {
            return None;
        },
    };
    let (bssid, r2) = match read_string_field(s, r1b, "\"bssid\":") {
        Some(p) => p,
        None => {
            return None;
        },
    };
    let w2 = skip_ws_exec(s, r2);
    let r2b = match expect_lit(s, w2, ",") {
        Some(j) => j,
        None => {
            return None;
        },
    };
    let (bw, r3) = match read_i32_field(s, r2b, "\"bandwidth\":") {
        Some(p) => p,
        None => {
            return None;
        },
    };
    let w3 = skip_ws_exec(s, r3);
    let r3b = match expect_lit(s, w3, ",") {
        Some(j) => j,
        None => {
            return None;
        },
    };
    let (ch, r4) = match read_i32_field(s, r3b, "\"channel\":") {
        Some(p) => p,
        None => {
            return None;
        },
    };
    let w4 = skip_ws_exec(s, r4);
    let r4b = match expect_lit(s, w4, ",") {
        Some(j) => j,
        None => {
            return None;
        },
    };
    let (sg, r5) = match read_i32_field(s, r4b, "\"signal\":") {
        Some(p) => p,
        None => {
            return None;
        },
    };
    let w5 = skip_ws_exec(s, r5);
    let r6 = match expect_lit(s, w5, "}") {
        Some(j) => j,
        None => {
            return None;
        },
    };
    let w = WiFi::new(ssid.as_str(), bssid.as_str(), bw, ch, sg);
    Some((w, r6))
}

/// Deserializes JSON text into a record collection: an array of objects
/// with the keys `ssid`, `bssid`, `bandwidth`, `channel` and `signal`.
/// Returns a decoding error exactly when the text is not such an array.
pub fn deserialize(s: &str) -> (r: Result<Vec<WiFi>, DecodeError>)
    ensures
        match r {
            Ok(aps) => spec_deserialize(s@) == Some(aps.deep_view()),
            Err(_) => spec_deserialize(s@) is None,
        },
{
    proof {
        reveal_strlit("[");
        assert("["@ =~= seq!['[']);
        assert(s@.skip(0) =~= s@);
    }
    let n = s.unicode_len();
    let w0 = skip_ws_exec(s, 0);
    let r0 = match expect_lit(s, w0, "[") {
        Some(j) => j,
        None => {
            return Err(DecodeError);
        },
    };
    let t = skip_ws_exec(s, r0);
    if t < n && s.get_char(t) == ']' {
        proof {
            assert(s@.skip(t as int)[0] == s@[t as int]);
            assert(s@.skip(t as int).skip(1) =~= s@.skip(t as int + 1));
        }
        let e = skip_ws_exec(s, t + 1);
        if e == n {
            let empty_out: Vec<WiFi> = Vec::new();
            proof {
                assert(s@.skip(e as int).len() == 0);
                assert(empty_out.deep_view() =~= Seq::<WiFiView>::empty());
            }
            return Ok(empty_out);
        }
        proof {
            assert(s@.skip(e as int).len() > 0);
        }
        return Err(DecodeError);
    }
    proof {
        let tv = skip_ws(s@.skip(r0 as int));
        if t < n {
            assert(tv[0] == s@[t as int]);
        } else {
            assert(tv.len() == 0);
        }
    }
    let (w, j) = match read_record(s, r0) {
        Some(p) => p,
        None => {
            return Err(DecodeError);
        },
    };
    let mut out: Vec<WiFi> = Vec::new();
    out.push(w);
    proof {
        assert(out.deep_view() =~= seq![w@]);
    }
    let mut i = j;
    loop
        invariant
            i <= n,
            n as int == s@.len(),
            out.deep_view().len() >= 1,
            spec_deserialize(s@) == (match de_records_rest(s@.skip(i as int)) {
                Some(p) => if skip_ws(p.1).len() == 0 {
                    Some(out.deep_view() + p.0)
                } else {
                    None::<Seq<WiFiView>>
                },
                None => None::<Seq<WiFiView>>,
            }),
        decreases n - i,
    {
        let t2 = skip_ws_exec(s, i);
        if t2 == n {
            proof {
                assert(skip_ws(s@.skip(i as int)).len() == 0);
            }
            return Err(DecodeError);
        }
        let ghost tv = skip_ws(s@.skip(i as int));
        proof {
            assert(tv == s@.skip(t2 as int));
            assert(tv[0] == s@[t2 as int]);
            assert(tv.skip(1) =~= s@.skip(t2 as int + 1));
        }
        let c = s.get_char(t2);
        if c == ']' {
            proof {
                assert(de_records_rest(s@.skip(i as int)) == Some(
                    (Seq::<WiFiView>::empty(), s@.skip(t2 as int + 1)),
                ));
            }
            let e = skip_ws_exec(s, t2 + 1);
            if e == n {
                proof {
                    assert(s@.skip(e as int).len() == 0);
                    assert(out.deep_view() + Seq::<WiFiView>::empty() =~= out.deep_view());
                }
                return Ok(out);
            }
            proof {
                assert(s@.skip(e as int).len() > 0);
            }
            return Err(DecodeError);
        }
        if c == ',' {
            let ghost old_out = out.deep_view();
            let (w2, j2) = match read_record(s, t2 + 1) {
                Some(p) => p,
                None => {
                    proof {
                        assert(de_records_rest(s@.skip(i as int)) is None);
                    }
                    return Err(DecodeError);
                },
            };
            out.push(w2);
            proof {
                lemma_de_record_len(s@.skip(t2 as int + 1));
                assert(s@.skip(j2 as int).len() < s@.skip(t2 as int + 1).len());
                assert(out.deep_view() =~= old_out.push(w2@));
                match de_records_rest(s@.skip(j2 as int)) {
                    Some(p) => {
                        assert(de_records_rest(s@.skip(i as int)) == Some(
                            (seq![w2@] + p.0, p.1),
                        ));
                        assert(old_out + (seq![w2@] + p.0) =~= out.deep_view() + p.0);
                    },
                    None => {
                        assert(de_records_rest(s@.skip(i as int)) is None);
                    },
                }
            }
            i = j2;
        } else {
            proof {
                assert(tv[0] != ']' && tv[0] != ',');
                assert(de_records_rest(s@.skip(i as int)) is None);
            }
            return Err(DecodeError);
        }
    }
}

/// The decimal digit string of a value below ten.
fn digit_str(d: u32) -> (r: &'static str)
    requires
        d < 10,
    ensures
        r@ == seq![digit_char(d as int)],
{
    let r: &'static str = match d {
        0 => "0",
        1 => "1",
        2 => "2",
        3 => "3",
        4 => "4",
        5 => "5",
        6 => "6",
        7 => "7",
        8 => "8",
        _ => "9",
    };
    proof {
        reveal_strlit("0");
        reveal_strlit("1");
        reveal_strlit("2");
        reveal_strlit("3");
        reveal_strlit("4");
        reveal_strlit("5");
        reveal_strlit("6");
        reveal_strlit("7");
        reveal_strlit("8");
        reveal_strlit("9");
        assert(r@ =~= seq![digit_char(d as int)]);
    }
    r
}

/// Appends the decimal digits of `v`.
fn append_u32(out: &mut String, v: u32)
    ensures
        final(out)@ == old(out)@ + itoa_nat(v as int),
    decreases v,
{
    if v < 10 {
        out.append(digit_str(v));
    } else {
        append_u32(out, v / 10);
        out.append(digit_str(v % 10));
        proof {
            assert(old(out)@ + (itoa_nat(v as int / 10) + seq![digit_char(v as int % 10)])
                =~= old(out)@ + itoa_nat(v as int / 10) + seq![digit_char(v as int % 10)]);
        }
    }
}

/// Appends the decimal text of `v`: a minus sign, then the magnitude.
fn append_i32(out: &mut String, v: i32)
    ensures
        final(out)@ == old(out)@ + ser_i32(v as int),
{
    if v < 0 {
        out.append("-");
        let m: u32 = (0i64 - (v as i64)) as u32;
        append_u32(out, m);
        proof {
            reveal_strlit("-");
            assert("-"@ =~= seq!['-']);
            assert(old(out)@ + (seq!['-'] + itoa_nat(m as int)) =~= old(out)@ + "-"@ + itoa_nat(
                m as int,
            ));
        }
    } else {
        append_u32(out, v as u32);
    }
}

/// Appends the value of a string field with JSON metacharacters escaped.
fn append_escaped(out: &mut String, s: &str)
    ensures
        final(out)@ == old(out)@ + escape_json(s@),
{
    let n = s.unicode_len();
    proof {
        assert(s@.skip(0) =~= s@);
        assert(old(out)@ + escape_json(s@.skip(0)) =~= old(out)@ + escape_json(s@));
    }
    let mut i: usize = 0;
    while i < n
        invariant
            i <= n,
            n as int == s@.len(),
            out@ + escape_json(s@.skip(i as int)) == old(out)@ + escape_json(s@),
        decreases n - i,
    {
        let ghost t = s@.skip(i as int);
        proof {
            assert(t[0] == s@[i as int]);
            assert(t.skip(1) =~= s@.skip(i as int + 1));
        }
        let c = s.get_char(i);
        if c == '"' {
            out.append("\\\"");
            proof {
                reveal_strlit("\\\"");
                assert("\\\""@ =~= seq!['\\', '"']);
                assert(escape_json(t) =~= seq!['\\', '"'] + escape_json(t.skip(1)));
                assert(out@ + escape_json(s@.skip(i as int + 1)) =~= old(out)@ + escape_json(s@));
            }
        } else if c == '\\' {
            out.append("\\\\");
            proof {
                reveal_strlit("\\\\");
                assert("\\\\"@ =~= seq!['\\', '\\']);
                assert(escape_json(t) =~= seq!['\\', '\\'] + escape_json(t.skip(1)));
                assert(out@ + escape_json(s@.skip(i as int + 1)) =~= old(out)@ + escape_json(s@));
            }
        } else {
            let piece = s.substring_char(i, i + 1);
            out.append(piece);
            proof {
                assert(piece@ =~= seq![t[0]]);
                assert(escape_json(t) =~= seq![t[0]] + escape_json(t.skip(1)));
                assert(out@ + escape_json(s@.skip(i as int + 1)) =~= old(out)@ + escape_json(s@));
            }
        }
        i += 1;
    }
    proof {
        assert(escape_json(s@.skip(n as int)) =~= Seq::<char>::empty());
        assert(out@ =~= old(out)@ + escape_json(s@));
    }
}

/// Appends one record as a JSON object.
fn append_record(out: &mut String, w: &WiFi)
    ensures
        final(out)@ == old(out)@ + ser_record(w@),
{
    proof {
        reveal_strlit("{");
        reveal_strlit("\"");
        reveal_strlit("\",");
        reveal_strlit(",");
        reveal_strlit("}");
        assert("{"@ =~= seq!['{']);
        assert("\""@ =~= seq!['"']);
        assert("\","@ =~= seq!['"', ',']);
        assert(","@ =~= seq![',']);
        assert("}"@ =~= seq!['}']);
    }
    out.append("{");
    out.append("\"ssid\":");
    out.append("\"");
    append_escaped(out, w.ssid().as_str());
    out.append("\",");
    out.append("\"bssid\":");
    out.append("\"");
    append_escaped(out, w.bssid().as_str());
    out.append("\",");
    out.append("\"bandwidth\":");
    append_i32(out, *w.bandwidth());
    out.append(",");
    out.append("\"channel\":");
    append_i32(out, *w.channel());
    out.append(",");
    out.append("\"signal\":");
    append_i32(out, *w.signal());
    out.append("}");
    proof {
        assert(final(out)@ =~= old(out)@ + ser_record(w@));
    }
}

/// Serializes a record collection to JSON text: an array of objects with
/// the keys `ssid`, `bssid`, `bandwidth`, `channel` and `signal`, in
/// collection order.
pub fn serialize(aps: &Vec<WiFi>) -> (r: String)
    ensures
        r@ == spec_serialize(aps.deep_view()),
{
    let ghost dv = aps.deep_view();
    proof {
        reveal_strlit("[");
        reveal_strlit("]");
        assert("["@ =~= seq!['[']);
        assert("]"@ =~= seq![']']);
    }
    let mut out = String::new();
    out.append("[");
    if aps.len() == 0 {
        out.append("]");
        proof {
            assert(dv.len() == 0);
            assert(out@ =~= spec_serialize(dv));
        }
        return out;
    }
    append_record(&mut out, &aps[0]);
    proof {
        assert(dv[0] == aps@[0].deep_view());
        assert(out@ + ser_rest(dv.skip(1)) + seq![']'] =~= spec_serialize(dv));
    }
    let mut i: usize = 1;
    while i < aps.len()
        invariant
            1 <= i <= aps.len(),
            dv == aps.deep_view(),
            dv.len() == aps@.len(),
            out@ + ser_rest(dv.skip(i as int)) + seq![']'] == spec_serialize(dv),
        decreases aps.len() - i,
    {
        let ghost rest = dv.skip(i as int);
        proof {
            reveal_strlit(",");
            assert(","@ =~= seq![',']);
            assert(rest[0] == dv[i as int]);
            assert(dv[i as int] == aps@[i as int].deep_view());
            assert(rest.skip(1) =~= dv.skip(i as int + 1));
        }
        out.append(",");
        append_record(&mut out, &aps[i]);
        proof {
            assert(ser_rest(rest) =~= seq![','] + ser_record(rest[0]) + ser_rest(rest.skip(1)));
            assert(out@ + ser_rest(dv.skip(i as int + 1)) + seq![']'] =~= spec_serialize(dv));
        }
        i += 1;
    }
    out.append("]");
    proof {
        assert(ser_rest(dv.skip(i as int)) =~= Seq::<char>::empty());
        assert(out@ =~= spec_serialize(dv));
    }
    out
}

} // verus!
