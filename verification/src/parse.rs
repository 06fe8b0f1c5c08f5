//! The line-oriented multi-record scanner-output parser.
//!
//! Input is a sequence of `key:value` lines (colons inside values escaped as
//! `\:`), interspersed with possibly malformed lines. The parser accumulates
//! one record at a time and flushes it after a fixed number of lines have
//! been consumed (fixed-stride framing); a trailing partial record is
//! discarded. Malformed lines and unknown keys are skipped; numeric values
//! that do not parse degrade to `0`. The parse never fails.

use vstd::prelude::*;
use vstd::string::StrSliceExecFns;

use crate::wifi::{default_wifi_view, WiFi, WiFiView};

verus! {

/// Index of the first occurrence of `c` in `s`, or `s.len()` if absent.
pub open spec fn find_char(s: Seq<char>, c: char) -> int
    decreases s.len(),
{
    if s.len() == 0 {
        0
    } else if s[0] == c {
        0
    } else {
        1 + find_char(s.skip(1), c)
    }
}

/// The input with every `\:` pair decoded to a literal `:`, scanning left to
/// right without overlap.
pub open spec fn unescape(s: Seq<char>) -> Seq<char>
    decreases s.len(),
{
    if s.len() == 0 {
        Seq::empty()
    } else if s.len() >= 2 && s[0] == '\\' && s[1] == ':' {
        seq![':'] + unescape(s.skip(2))
    } else {
        seq![s[0]] + unescape(s.skip(1))
    }
}

/// Drops one carriage return at the end of a line body, as line splitting
/// does for lines terminated by a newline.
pub open spec fn strip_cr(s: Seq<char>) -> Seq<char> {
    if s.len() > 0 && s[s.len() - 1] == '\r' {
        s.drop_last()
    } else {
        s
    }
}

/// The lines of `s`: segments split at `'\n'`, each terminated segment with
/// one trailing `'\r'` stripped; a final segment is emitted only if
/// non-empty (a trailing newline produces no empty last line).
pub open spec fn spec_lines(s: Seq<char>) -> Seq<Seq<char>>
    decreases s.len(),
{
    if s.len() == 0 {
        Seq::empty()
    } else {
        let i = find_char(s, '\n');
        if 0 <= i < s.len() {
            seq![strip_cr(s.take(i))] + spec_lines(s.skip(i + 1))
        } else {
            seq![s]
        }
    }
}

/// Whether `c` is an ASCII decimal digit.
pub open spec fn is_digit(c: char) -> bool {
    48 <= c as u32 <= 57
}

/// The numeric value of a digit character.
pub open spec fn digit_val(c: char) -> int {
    c as u32 as int - 48
}

/// Whether every character of `s` is a decimal digit.
pub open spec fn all_digits(s: Seq<char>) -> bool {
    forall|i: int| 0 <= i < s.len() ==> is_digit(#[trigger] s[i])
}

/// The value of a digit string read in base ten.
pub open spec fn digits_val(s: Seq<char>) -> int
    decreases s.len(),
{
    if s.len() == 0 {
        0
    } else {
        digits_val(s.drop_last()) * 10 + digit_val(s.last())
    }
}

/// The body of an optionally signed integer string: the digits after an
/// initial `+` or `-`, or the whole string if unsigned.
pub open spec fn int_body(s: Seq<char>) -> Seq<char> {
    if s.len() >= 1 && (s[0] == '+' || s[0] == '-') {
        s.skip(1)
    } else {
        s
    }
}

/// The sign an optionally signed integer string carries.
pub open spec fn int_sign(s: Seq<char>) -> int {
    if s.len() >= 1 && s[0] == '-' {
        -1
    } else {
        1
    }
}

/// Whether `s` is a well-formed decimal string whose value fits a 32-bit
/// signed integer: an optional sign, then one or more digits, in range.
pub open spec fn is_i32_string(s: Seq<char>) -> bool {
    &&& int_body(s).len() >= 1
    &&& all_digits(int_body(s))
    &&& -0x8000_0000 <= int_sign(s) * digits_val(int_body(s)) <= 0x7FFF_FFFF
}

/// The value a numeric field takes from the text `s`: its decimal value when
/// well formed and in range, and the default `0` otherwise.
pub open spec fn spec_parse_i32(s: Seq<char>) -> int {
    if is_i32_string(s) {
        int_sign(s) * digits_val(int_body(s))
    } else {
        0
    }
}

/// The record that consuming one input line into the accumulator `cur`
/// produces. A line without a colon, or with an unknown key, changes
/// nothing; a known key replaces its field with the parsed value.
pub open spec fn apply_line(cur: WiFiView, l: Seq<char>) -> WiFiView {
    let p = find_char(l, ':');
    if p == l.len() {
        cur
    } else {
        let k = l.take(p);
        let v = l.skip(p + 1);
        if k == "SSID"@ {
            WiFiView { ssid: v, ..cur }
        } else if k == "CHAN"@ {
            WiFiView { channel: spec_parse_i32(v), ..cur }
        } else if k == "SIGNAL"@ {
            WiFiView { signal: spec_parse_i32(v), ..cur }
        } else if k == "BW"@ {
            WiFiView { bandwidth: spec_parse_i32(v), ..cur }
        } else if k == "BSSID"@ {
            WiFiView { bssid: v, ..cur }
        } else {
            cur
        }
    }
}

/// The records that the remaining lines `ls` produce, with `cur` the
/// accumulating record into which `count` lines have already been consumed
/// and `n` the fixed stride. The accumulator is flushed whenever `n` lines
/// have been consumed into it; a trailing partial record is discarded.
pub open spec fn parse_lines(ls: Seq<Seq<char>>, n: int, cur: WiFiView, count: int) -> Seq<
    WiFiView,
>
    decreases ls.len(),
{
    if ls.len() == 0 {
        Seq::empty()
    } else {
        let cur2 = apply_line(cur, ls[0]);
        if count + 1 == n {
            seq![cur2] + parse_lines(ls.skip(1), n, default_wifi_view(), 0)
        } else {
            parse_lines(ls.skip(1), n, cur2, count + 1)
        }
    }
}

/// The full parse: unescape the raw text, split it into lines, and fold the
/// lines into records with stride `n`, starting from a blank accumulator.
pub open spec fn spec_parse(input: Seq<char>, n: int) -> Seq<WiFiView> {
    parse_lines(spec_lines(unescape(input)), n, default_wifi_view(), 0)
}

/// Whether `k` is one of the field keys the parser recognizes.
pub open spec fn is_known_key(k: Seq<char>) -> bool {
    k == "SSID"@ || k == "CHAN"@ || k == "SIGNAL"@ || k == "BW"@ || k == "BSSID"@
}

/// The record obtained by consuming the lines `ls`, in order, into the
/// accumulator `cur`.
pub open spec fn fold_record(cur: WiFiView, ls: Seq<Seq<char>>) -> WiFiView
    decreases ls.len(),
{
    if ls.len() == 0 {
        cur
    } else {
        fold_record(apply_line(cur, ls[0]), ls.skip(1))
    }
}

/// The record that the `k`-th group of `n` consecutive lines of `ls`
/// produces, starting from a blank accumulator.
pub open spec fn record_of_group(ls: Seq<Seq<char>>, n: int, k: int) -> WiFiView {
    fold_record(default_wifi_view(), ls.subrange(k * n, k * n + n))
}

/// A line without a colon, or whose key is unknown, never contributes to any
/// field: the accumulating record is unchanged. (The parse itself is a total
/// function, so no line aborts it.)
pub proof fn lemma_unrecognized_line_changes_nothing(cur: WiFiView, l: Seq<char>)
    requires
        find_char(l, ':') == l.len() || !is_known_key(l.take(find_char(l, ':'))),
    ensures
        apply_line(cur, l) == cur,
{
}

/// A numeric field whose text is not a well-formed in-range decimal integer
/// defaults to zero.
pub proof fn lemma_bad_number_defaults_to_zero(s: Seq<char>)
    requires
        !is_i32_string(s),
    ensures
        spec_parse_i32(s) == 0,
{
}

/// The input with a backslash inserted before every colon: the escaped form
/// that a scanner emits for colons inside values.
pub open spec fn escape_colons(s: Seq<char>) -> Seq<char>
    decreases s.len(),
{
    if s.len() == 0 {
        Seq::empty()
    } else if s[0] == ':' {
        seq!['\\', ':'] + escape_colons(s.skip(1))
    } else {
        seq![s[0]] + escape_colons(s.skip(1))
    }
}

proof fn lemma_escape_colons_head(s: Seq<char>)
    requires
        s.len() > 0,
    ensures
        escape_colons(s).len() > 0,
        escape_colons(s)[0] != ':',
{
}

/// Unescaping inverts escaping: a value whose colons were escaped decodes to
/// the literal value, whatever characters it holds.
pub proof fn lemma_unescape_inverts_escape(s: Seq<char>)
    ensures
        unescape(escape_colons(s)) == s,
    decreases s.len(),
{
    if s.len() == 0 {
        assert(unescape(escape_colons(s)) =~= s);
    } else {
        let rest = s.skip(1);
        lemma_unescape_inverts_escape(rest);
        if s[0] == ':' {
            let e = seq!['\\', ':'] + escape_colons(rest);
            assert(e[0] == '\\' && e[1] == ':');
            assert(e.skip(2) =~= escape_colons(rest));
            assert(unescape(e) =~= seq![':'] + rest);
            assert(seq![':'] + rest =~= s);
        } else {
            let e = seq![s[0]] + escape_colons(rest);
            assert(e[0] == s[0]);
            if e.len() >= 2 {
                lemma_escape_colons_head(rest);
                assert(e[1] == escape_colons(rest)[0]);
                assert(e[1] != ':');
            }
            assert(e.skip(1) =~= escape_colons(rest));
            assert(unescape(e) =~= seq![s[0]] + rest);
            assert(seq![s[0]] + rest =~= s);
        }
    }
}

/// Adding one full stride to a non-negative total adds exactly one record.
proof fn lemma_div_shift(x: int, n: int)
    requires
        n >= 1,
        x >= 0,
    ensures
        (x + n) / n == x / n + 1,
{
    vstd::arithmetic::div_mod::lemma_fundamental_div_mod(x, n);
    vstd::arithmetic::div_mod::lemma_mod_division_less_than_divisor(x, n);
    assert(x + n == (x / n + 1) * n + x % n) by (nonlinear_arith)
        requires
            x == n * (x / n) + x % n,
    ;
    vstd::arithmetic::div_mod::lemma_fundamental_div_mod_converse_div(
        x + n,
        n,
        x / n + 1,
        x % n,
    );
}

/// The number of records the parse of the remaining lines emits: one for
/// every `n` lines consumed, counting the `count` lines already in the
/// accumulator; the lines of a trailing partial record produce none.
pub proof fn lemma_parse_lines_count(ls: Seq<Seq<char>>, n: int, cur: WiFiView, count: int)
    requires
        n >= 1,
        0 <= count < n,
    ensures
        parse_lines(ls, n, cur, count).len() == (count + ls.len()) / n,
    decreases ls.len(),
{
    if ls.len() == 0 {
        vstd::arithmetic::div_mod::lemma_fundamental_div_mod_converse_div(count, n, 0, count);
    } else {
        let cur2 = apply_line(cur, ls[0]);
        if count + 1 == n {
            lemma_parse_lines_count(ls.skip(1), n, default_wifi_view(), 0);
            let rest = ls.len() - 1;
            lemma_div_shift(rest, n);
            assert(count + ls.len() == rest + n);
        } else {
            lemma_parse_lines_count(ls.skip(1), n, cur2, count + 1);
        }
    }
}

/// While the accumulator still needs `n - count` lines and at least that
/// many remain, the parse emits first the record those lines complete, then
/// the parse of the rest from a blank accumulator.
proof fn lemma_parse_lines_group_step(ls: Seq<Seq<char>>, n: int, cur: WiFiView, count: int)
    requires
        n >= 1,
        0 <= count < n,
        ls.len() >= n - count,
    ensures
        parse_lines(ls, n, cur, count) == seq![fold_record(cur, ls.take(n - count))] + parse_lines(
            ls.skip(n - count),
            n,
            default_wifi_view(),
            0,
        ),
    decreases ls.len(),
{
    let m = n - count;
    let cur2 = apply_line(cur, ls[0]);
    assert(ls.take(m)[0] == ls[0]);
    if count + 1 == n {
        let t = ls.take(1);
        assert(t[0] == ls[0]);
        assert(t.skip(1).len() == 0);
        assert(fold_record(cur2, t.skip(1)) == cur2);
        assert(fold_record(cur, t) == fold_record(apply_line(cur, t[0]), t.skip(1)));
        assert(fold_record(cur, ls.take(1)) == cur2);
        assert(parse_lines(ls, n, cur, count) =~= seq![fold_record(cur, ls.take(m))]
            + parse_lines(ls.skip(m), n, default_wifi_view(), 0));
    } else {
        lemma_parse_lines_group_step(ls.skip(1), n, cur2, count + 1);
        assert(ls.take(m).skip(1) =~= ls.skip(1).take(m - 1));
        assert(fold_record(cur, ls.take(m)) == fold_record(cur2, ls.skip(1).take(m - 1)));
        assert(ls.skip(1).skip(m - 1) =~= ls.skip(m));
    }
}

/// The parse of `ls` with stride `n` is exactly the sequence of the records
/// of its complete groups of `n` lines, in input order.
pub proof fn lemma_parse_lines_groups(ls: Seq<Seq<char>>, n: int)
    requires
        n >= 1,
    ensures
        parse_lines(ls, n, default_wifi_view(), 0) == Seq::new(
            (ls.len() as int / n) as nat,
            |k: int| record_of_group(ls, n, k),
        ),
    decreases ls.len(),
{
    let q: int = ls.len() as int / n;
    vstd::arithmetic::div_mod::lemma_fundamental_div_mod(ls.len() as int, n);
    vstd::arithmetic::div_mod::lemma_mod_division_less_than_divisor(ls.len() as int, n);
    if ls.len() < n {
        vstd::arithmetic::div_mod::lemma_fundamental_div_mod_converse_div(
            ls.len() as int,
            n,
            0,
            ls.len() as int,
        );
        lemma_parse_lines_count(ls, n, default_wifi_view(), 0);
        assert(parse_lines(ls, n, default_wifi_view(), 0) =~= Seq::new(
            (ls.len() as int / n) as nat,
            |k: int| record_of_group(ls, n, k),
        ));
    } else {
        lemma_parse_lines_group_step(ls, n, default_wifi_view(), 0);
        lemma_parse_lines_groups(ls.skip(n), n);
        let rest = ls.len() - n;
        lemma_div_shift(rest, n);
        assert(q == ls.skip(n).len() as int / n + 1);
        assert(ls.take(n) =~= ls.subrange(0, n));
        assert(fold_record(default_wifi_view(), ls.take(n)) == record_of_group(ls, n, 0));
        let qr = ls.skip(n).len() as int / n;
        vstd::arithmetic::div_mod::lemma_fundamental_div_mod(rest, n);
        vstd::arithmetic::div_mod::lemma_mod_division_less_than_divisor(rest, n);
        assert forall|k: int| 0 <= k < qr implies record_of_group(ls.skip(n), n, k)
            == record_of_group(ls, n, k + 1) by {
            assert(0 <= k * n && k * n + n <= rest) by (nonlinear_arith)
                requires
                    0 <= k,
                    k + 1 <= qr,
                    n >= 1,
                    qr == rest / n,
                    rest == n * (rest / n) + rest % n,
                    rest % n >= 0,
            ;
            assert((k + 1) * n == k * n + n) by (nonlinear_arith);
            assert(ls.skip(n).subrange(k * n, k * n + n) =~= ls.subrange(
                (k + 1) * n,
                (k + 1) * n + n,
            ));
        }
        assert(parse_lines(ls, n, default_wifi_view(), 0) =~= Seq::new(
            q as nat,
            |k: int| record_of_group(ls, n, k),
        ));
    }
}

/// For input whose unescaped text splits into exactly `nrec * n` lines —
/// well-formed input with `nrec` complete records — the parse returns
/// exactly `nrec` records, in input order: the `k`-th output record is the
/// one accumulated from the `k`-th group of `n` lines.
pub proof fn lemma_parse_complete_records(input: Seq<char>, n: int, nrec: int)
    requires
        n >= 1,
        nrec >= 0,
        spec_lines(unescape(input)).len() == nrec * n,
    ensures
        spec_parse(input, n).len() == nrec,
        forall|k: int| 0 <= k < nrec ==> spec_parse(input, n)[k] == record_of_group(
            spec_lines(unescape(input)),
            n,
            k,
        ),
{
    let ls = spec_lines(unescape(input));
    lemma_parse_lines_groups(ls, n);
    vstd::arithmetic::div_mod::lemma_fundamental_div_mod_converse_div(ls.len() as int, n, nrec, 0);
}

/// Truncated input — a trailing partial record of fewer than `n` lines —
/// yields only the records of the complete groups: the partial record is
/// discarded, and the parse equals that of the input cut after its last
/// complete group.
pub proof fn lemma_trailing_partial_record_discarded(input: Seq<char>, n: int)
    requires
        n >= 1,
    ensures
        spec_parse(input, n).len() == spec_lines(unescape(input)).len() as int / n,
        spec_parse(input, n) == parse_lines(
            spec_lines(unescape(input)).take((spec_lines(unescape(input)).len() as int / n) * n),
            n,
            default_wifi_view(),
            0,
        ),
{
    let ls = spec_lines(unescape(input));
    let q: int = ls.len() as int / n;
    lemma_parse_lines_count(ls, n, default_wifi_view(), 0);
    lemma_parse_lines_groups(ls, n);
    lemma_parse_lines_groups(ls.take(q * n), n);
    vstd::arithmetic::div_mod::lemma_fundamental_div_mod(ls.len() as int, n);
    vstd::arithmetic::div_mod::lemma_mod_division_less_than_divisor(ls.len() as int, n);
    assert(q * n >= 0) by (nonlinear_arith)
        requires
            q >= 0,
            n >= 1,
    ;
    vstd::arithmetic::div_mod::lemma_fundamental_div_mod_converse_div(q * n, n, q, 0);
    assert(ls.take(q * n).len() == q * n);
    assert forall|k: int| 0 <= k < q implies record_of_group(ls.take(q * n), n, k)
        == record_of_group(ls, n, k) by {
        assert(k * n + n <= q * n) by (nonlinear_arith)
            requires
                0 <= k < q,
                n >= 1,
        ;
        assert(k * n >= 0) by (nonlinear_arith)
            requires
                0 <= k,
                n >= 1,
        ;
        assert(ls.take(q * n).subrange(k * n, k * n + n) =~= ls.subrange(k * n, k * n + n));
    }
    assert(spec_parse(input, n) =~= parse_lines(ls.take(q * n), n, default_wifi_view(), 0));
}

/// Whether two string slices hold the same characters.
pub fn str_eq(a: &str, b: &str) -> (r: bool)
    ensures
        r == (a@ == b@),
{
    let na = a.unicode_len();
    let nb = b.unicode_len();
    if na != nb {
        proof {
            assert(a@ != b@);
        }
        return false;
    }
    let mut i: usize = 0;
    while i < na
        invariant
            i <= na,
            na == nb,
            na as int == a@.len(),
            nb as int == b@.len(),
            forall|j: int| 0 <= j < i ==> a@[j] == b@[j],
        decreases na - i,
    {
        let ca = a.get_char(i);
        let cb = b.get_char(i);
        if ca != cb {
            proof {
                assert(a@[i as int] != b@[i as int]);
            }
            return false;
        }
        i += 1;
    }
    proof {
        assert(a@ =~= b@);
    }
    true
}

/// Index of the first occurrence of `c` in `s`, or the character length of
/// `s` if absent.
pub fn find_char_in(s: &str, c: char) -> (r: usize)
    ensures
        r as int == find_char(s@, c),
        r <= s@.len(),
{
    let n = s.unicode_len();
    proof {
        assert(s@.skip(0) =~= s@);
    }
    let mut i: usize = 0;
    while i < n
        invariant
            i <= n,
            n as int == s@.len(),
            find_char(s@, c) == i + find_char(s@.skip(i as int), c),
        decreases n - i,
    {
        let ch = s.get_char(i);
        proof {
            assert(s@.skip(i as int)[0] == s@[i as int]);
        }
        if ch == c {
            proof {
                assert(find_char(s@.skip(i as int), c) == 0);
            }
            return i;
        }
        proof {
            assert(s@.skip(i as int).skip(1) =~= s@.skip(i as int + 1));
        }
        i += 1;
    }
    proof {
        assert(s@.skip(n as int).len() == 0);
        assert(find_char(s@.skip(n as int), c) == 0);
    }
    i
}

/// Decodes every `\:` pair of `s` to a literal `:`.
pub fn unescape_str(s: &str) -> (r: String)
    ensures
        r@ == unescape(s@),
{
    let n = s.unicode_len();
    let mut out = String::new();
    proof {
        assert(s@.skip(0) =~= s@);
        assert(out@ + unescape(s@.skip(0)) =~= unescape(s@));
    }
    let mut i: usize = 0;
    while i < n
        invariant
            i <= n,
            n as int == s@.len(),
            out@ + unescape(s@.skip(i as int)) == unescape(s@),
        decreases n - i,
    {
        let ghost t = s@.skip(i as int);
        proof {
            assert(t[0] == s@[i as int]);
            if t.len() >= 2 {
                assert(t[1] == s@[i as int + 1]);
            }
        }
        let c = s.get_char(i);
        if c == '\\' && i + 1 < n && s.get_char(i + 1) == ':' {
            out.append(":");
            proof {
                reveal_strlit(":");
                assert(t.skip(2) =~= s@.skip(i as int + 2));
                assert(unescape(t) =~= ":"@ + unescape(t.skip(2)));
                assert((out@ + unescape(s@.skip(i as int + 2))) =~= unescape(s@));
            }
            i += 2;
        } else {
            let piece = s.substring_char(i, i + 1);
            out.append(piece);
            proof {
                assert(piece@ =~= seq![t[0]]);
                assert(t.skip(1) =~= s@.skip(i as int + 1));
                assert(unescape(t) =~= piece@ + unescape(t.skip(1)));
                assert((out@ + unescape(s@.skip(i as int + 1))) =~= unescape(s@));
            }
            i += 1;
        }
    }
    proof {
        assert(unescape(s@.skip(n as int)) =~= Seq::<char>::empty());
        assert(out@ =~= unescape(s@));
    }
    out
}

/// Splits `s` into its lines: segments at `'\n'`, one trailing `'\r'`
/// stripped from each terminated segment, and no empty final line after a
/// trailing newline.
pub fn split_lines(s: &str) -> (r: Vec<String>)
    ensures
        r.deep_view() == spec_lines(s@),
{
    let n = s.unicode_len();
    let mut r: Vec<String> = Vec::new();
    proof {
        assert(s@.skip(0) =~= s@);
        assert(r.deep_view() + spec_lines(s@.skip(0)) =~= spec_lines(s@));
    }
    let mut start: usize = 0;
    while start < n
        invariant
            start <= n,
            n as int == s@.len(),
            r.deep_view() + spec_lines(s@.skip(start as int)) == spec_lines(s@),
        decreases n - start,
    {
        let ghost t = s@.skip(start as int);
        let suffix = s.substring_char(start, n);
        proof {
            assert(suffix@ =~= t);
        }
        let f = find_char_in(suffix, '\n');
        let ghost old_r = r.deep_view();
        let line: String;
        let next: usize;
        if f == n - start {
            // no newline left: the remainder is the final line, kept as is
            line = suffix.to_owned();
            next = n;
            proof {
                assert(spec_lines(t) =~= seq![t]);
                assert(spec_lines(s@.skip(n as int)) =~= Seq::<Seq<char>>::empty());
            }
        } else {
            // segment terminated by a newline: strip one trailing '\r'
            let end: usize = if f > 0 && s.get_char(start + f - 1) == '\r' {
                f - 1
            } else {
                f
            };
            line = s.substring_char(start, start + end).to_owned();
            next = start + f + 1;
            proof {
                assert(t.take(f as int) =~= s@.subrange(start as int, start as int + f));
                assert(line@ =~= strip_cr(t.take(f as int))) by {
                    if f > 0 && t.take(f as int)[f - 1] == '\r' {
                        assert(t.take(f as int)[f - 1] == s@[start as int + f - 1]);
                        assert(strip_cr(t.take(f as int)) =~= t.take(f as int).drop_last());
                    }
                }
                assert(t.skip(f as int + 1) =~= s@.skip(next as int));
                assert(spec_lines(t) =~= seq![strip_cr(t.take(f as int))] + spec_lines(
                    s@.skip(next as int),
                ));
            }
        }
        r.push(line);
        proof {
            assert(r.deep_view() =~= old_r.push(line@));
            assert(r.deep_view() + spec_lines(s@.skip(next as int)) =~= spec_lines(s@));
        }
        start = next;
    }
    proof {
        assert(spec_lines(s@.skip(n as int)) =~= Seq::<Seq<char>>::empty());
        assert(r.deep_view() =~= spec_lines(s@));
    }
    r
}

/// Every digit string has a non-negative value.
proof fn lemma_digits_val_nonneg(s: Seq<char>)
    requires
        all_digits(s),
    ensures
        digits_val(s) >= 0,
    decreases s.len(),
{
    if s.len() > 0 {
        assert(all_digits(s.drop_last()));
        lemma_digits_val_nonneg(s.drop_last());
    }
}

/// The value of a digit string is at least the value of any of its prefixes.
pub(crate) proof fn lemma_digits_val_prefix_le(s: Seq<char>, j: int)
    requires
        all_digits(s),
        0 <= j <= s.len(),
    ensures
        digits_val(s.take(j)) <= digits_val(s),
    decreases s.len(),
{
    if j < s.len() {
        assert(all_digits(s.drop_last()));
        assert(s.drop_last().take(j) =~= s.take(j));
        lemma_digits_val_prefix_le(s.drop_last(), j);
        lemma_digits_val_nonneg(s.drop_last());
    } else {
        assert(s.take(j) =~= s);
    }
}

/// Reads a numeric field: the decimal value of `s` when it is a well-formed
/// in-range 32-bit integer string, and the default `0` otherwise.
pub fn parse_i32(s: &str) -> (v: i32)
    ensures
        v as int == spec_parse_i32(s@),
{
    let n = s.unicode_len();
    let mut i: usize = 0;
    let mut neg = false;
    if n > 0 {
        let c0 = s.get_char(0);
        if c0 == '+' {
            i = 1;
        } else if c0 == '-' {
            neg = true;
            i = 1;
        }
    }
    let ghost body = int_body(s@);
    proof {
        if i == 1 {
            assert(body =~= s@.skip(1));
        } else {
            assert(body =~= s@.skip(0));
        }
    }
    if i == n {
        // no digits at all
        proof {
            assert(!is_i32_string(s@));
        }
        return 0;
    }
    let ghost off = i as int;
    let mut acc: u64 = 0;
    let mut j = i;
    proof {
        assert(body.take(0) =~= Seq::<char>::empty());
    }
    while j < n
        invariant
            0 <= off <= j <= n,
            n as int == s@.len(),
            body == int_body(s@),
            body == s@.skip(off),
            acc <= 0x8000_0000,
            all_digits(body.take(j - off)),
            acc as int == digits_val(body.take(j - off)),
        decreases n - j,
    {
        proof {
            assert(0 <= off <= s@.len());
            assert(s@.skip(off).len() == n - off);
            assert(body.len() == n - off);
            assert(body[j - off] == s@.skip(off)[j - off]);
            assert(s@.skip(off)[j - off] == s@[j as int]);
        }
        let c = s.get_char(j);
        let d = c as u32;
        if !(48 <= d && d <= 57) {
            // a non-digit in the body: the string is malformed
            proof {
                assert(0 <= j - off < body.len());
                assert(body[j - off] == s@[j as int]);
                assert(!is_digit(body[j - off]));
                assert(!all_digits(body));
                assert(!is_i32_string(s@));
            }
            return 0;
        }
        proof {
            assert(0 <= j - off < body.len());
            assert(body[j - off] == s@[j as int]);
            assert(body.take(j - off + 1).drop_last() =~= body.take(j - off));
            assert(body.take(j - off + 1).last() == body[j - off]);
            assert(digit_val(body[j - off]) == d as int - 48);
        }
        acc = acc * 10 + ((d - 48) as u64);
        j += 1;
        if acc > 0x8000_0000 {
            // the value exceeds the 32-bit range whatever follows
            proof {
                if all_digits(body) {
                    lemma_digits_val_prefix_le(body, j - off);
                    assert(digits_val(body) > 0x8000_0000);
                }
                assert(!is_i32_string(s@));
            }
            return 0;
        }
    }
    proof {
        assert(body.take(j - off) =~= body);
    }
    if neg {
        proof {
            assert(is_i32_string(s@));
            assert(int_sign(s@) == -1);
        }
        let r: i64 = 0i64 - (acc as i64);
        return r as i32;
    }
    if acc > 0x7FFF_FFFF {
        // 2^31 is out of range for a value without a minus sign
        proof {
            assert(!is_i32_string(s@));
        }
        return 0;
    }
    proof {
        assert(is_i32_string(s@));
        assert(int_sign(s@) == 1);
    }
    acc as i32
}

impl WiFi {
    /// Parses raw scanner text into access-point records.
    ///
    /// The text is unescaped (`\:` to `:`) and split into lines; each line
    /// is consumed into an accumulating record, which is flushed after every
    /// `params_count` lines; a trailing partial record is discarded.
    /// Malformed lines never abort the parse.
    pub fn parse_nmcli(input: &str, params_count: usize) -> (res: Vec<WiFi>)
        requires
            1 <= params_count,
        ensures
            res.deep_view() == spec_parse(input@, params_count as int),
    {
        let ghost n = params_count as int;
        let unescaped = unescape_str(input);
        let lines = split_lines(unescaped.as_str());
        let ghost ls = lines.deep_view();
        let mut out: Vec<WiFi> = Vec::new();
        let mut cur: WiFi = WiFi::default();
        let mut count: usize = 0;
        let mut idx: usize = 0;
        proof {
            assert(ls.skip(0) =~= ls);
            assert(out.deep_view() =~= Seq::<WiFiView>::empty());
            assert(out.deep_view() + parse_lines(ls, n, default_wifi_view(), 0) =~= parse_lines(
                ls,
                n,
                default_wifi_view(),
                0,
            ));
        }
        while idx < lines.len()
            invariant
                idx <= lines.len(),
                count < params_count,
                n == params_count as int,
                ls == lines.deep_view(),
                ls.len() == lines@.len(),
                spec_parse(input@, n) == out.deep_view() + parse_lines(
                    ls.skip(idx as int),
                    n,
                    cur@,
                    count as int,
                ),
            decreases lines.len() - idx,
        {
            let ghost rest = ls.skip(idx as int);
            let ghost old_out = out.deep_view();
            let ghost old_cur = cur@;
            proof {
                assert(rest[0] == ls[idx as int]);
                assert(rest.skip(1) =~= ls.skip(idx as int + 1));
            }
            let l: &String = &lines[idx];
            cur.apply_scan_line(l.as_str());
            count += 1;
            proof {
                assert(cur@ == apply_line(old_cur, rest[0]));
            }
            if count == params_count {
                out.push(cur);
                cur = WiFi::default();
                count = 0;
                proof {
                    assert(out.deep_view() =~= old_out.push(apply_line(old_cur, rest[0])));
                    assert(old_out + parse_lines(rest, n, old_cur, params_count as int - 1)
                        =~= out.deep_view() + parse_lines(
                        ls.skip(idx as int + 1),
                        n,
                        default_wifi_view(),
                        0,
                    ));
                }
            }
            idx += 1;
        }
        proof {
            assert(ls.skip(idx as int).len() == 0);
            assert(parse_lines(ls.skip(idx as int), n, cur@, count as int)
                =~= Seq::<WiFiView>::empty());
            assert(out.deep_view() + Seq::<WiFiView>::empty() =~= out.deep_view());
        }
        out
    }
}

} // verus!
