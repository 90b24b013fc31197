//! The persisted encoding of the session log: one JSON array whose elements
//! are objects with exactly the fields `datetime` (number), `duration`
//! (number), `category` (string) and `speaker` (string).
//!
//! The writer emits a single canonical text for each log, and the reader
//! accepts exactly that canonical grammar; anything else decodes to `None`,
//! which the store treats as an empty log. Decoding what was encoded gives
//! the original records back ([`lemma_round_trip`]).

use vstd::prelude::*;

use crate::record::MeditationData;
use crate::record::RecordView;

verus! {

// ---------------------------------------------------------------------------
// The canonical text: spec-level encoder
// ---------------------------------------------------------------------------

/// The object key before the timestamp, with its opening brace.
pub open spec fn key_datetime() -> Seq<char> {
    seq!['{', '"', 'd', 'a', 't', 'e', 't', 'i', 'm', 'e', '"', ':']
}

/// The object key before the duration, with the comma that precedes it.
pub open spec fn key_duration() -> Seq<char> {
    seq![',', '"', 'd', 'u', 'r', 'a', 't', 'i', 'o', 'n', '"', ':']
}

/// The object key before the category, with the comma that precedes it.
pub open spec fn key_category() -> Seq<char> {
    seq![',', '"', 'c', 'a', 't', 'e', 'g', 'o', 'r', 'y', '"', ':']
}

/// The object key before the speaker, with the comma that precedes it.
pub open spec fn key_speaker() -> Seq<char> {
    seq![',', '"', 's', 'p', 'e', 'a', 'k', 'e', 'r', '"', ':']
}

pub open spec fn is_digit(c: char) -> bool {
    48 <= c as u32 && c as u32 <= 57
}

pub open spec fn digit_val(c: char) -> int {
    c as u32 - 48
}

pub open spec fn digit_char(d: int) -> char {
    (48 + d) as char
}

/// The decimal digits of `n`, most significant first, without a sign or
/// leading zeros; meaningful for `n >= 1`.
pub open spec fn dec_digits(n: int) -> Seq<char>
    decreases n,
{
    if n < 10 {
        seq![digit_char(n)]
    } else {
        dec_digits(n / 10).push(digit_char(n % 10))
    }
}

/// A lowercase hexadecimal digit; meaningful for `0 <= d < 16`.
pub open spec fn hex_char(d: int) -> char {
    if d < 10 {
        (48 + d) as char
    } else {
        (87 + d) as char
    }
}

/// How one character appears inside a JSON string literal: quote and
/// backslash get a two-character escape, control characters a `\u00xy`
/// escape, and every other character stands for itself.
pub open spec fn esc_char(c: char) -> Seq<char> {
    if c == '"' {
        seq!['\\', '"']
    } else if c == '\\' {
        seq!['\\', '\\']
    } else if (c as u32) < 32 {
        seq!['\\', 'u', '0', '0', hex_char(c as u32 as int / 16), hex_char(c as u32 as int % 16)]
    } else {
        seq![c]
    }
}

pub open spec fn esc_string(s: Seq<char>) -> Seq<char>
    decreases s.len(),
{
    if s.len() == 0 {
        Seq::empty()
    } else {
        esc_char(s[0]) + esc_string(s.drop_first())
    }
}

/// A JSON string literal: the escaped characters between two quotes.
pub open spec fn json_of_string(s: Seq<char>) -> Seq<char> {
    seq!['"'] + esc_string(s) + seq!['"']
}

/// One record as a JSON object with exactly the four fields, in a fixed
/// order.
pub open spec fn json_of_record(r: RecordView) -> Seq<char> {
    key_datetime() + dec_digits(r.datetime) + key_duration() + dec_digits(r.duration)
        + key_category() + json_of_string(r.category) + key_speaker() + json_of_string(r.speaker)
        + seq!['}']
}

/// The comma-separated objects between the array brackets.
pub open spec fn records_body(rs: Seq<RecordView>) -> Seq<char>
    decreases rs.len(),
{
    if rs.len() == 0 {
        Seq::empty()
    } else if rs.len() == 1 {
        json_of_record(rs[0])
    } else {
        json_of_record(rs[0]) + seq![','] + records_body(rs.drop_first())
    }
}

/// A whole log as one JSON array.
pub open spec fn json_of_records(rs: Seq<RecordView>) -> Seq<char> {
    seq!['['] + records_body(rs) + seq![']']
}

// ---------------------------------------------------------------------------
// The canonical text: spec-level parser
// ---------------------------------------------------------------------------

/// Consumes an expected literal fragment, returning the remainder.
pub open spec fn parse_lit(s: Seq<char>, lit: Seq<char>) -> Option<Seq<char>> {
    if lit.is_prefix_of(s) {
        Some(s.skip(lit.len() as int))
    } else {
        None
    }
}

/// The length of the leading run of decimal digits.
pub open spec fn digit_run(s: Seq<char>) -> int
    decreases s.len(),
{
    if s.len() > 0 && is_digit(s[0]) {
        1 + digit_run(s.drop_first())
    } else {
        0
    }
}

/// The value of a sequence of decimal digits, most significant first.
pub open spec fn digits_value(ds: Seq<char>) -> int
    decreases ds.len(),
{
    if ds.len() == 0 {
        0
    } else {
        10 * digits_value(ds.drop_last()) + digit_val(ds.last())
    }
}

/// Consumes a positive decimal number without leading zeros whose value
/// fits the stored 32-bit range, returning the value and the remainder.
pub open spec fn parse_number(s: Seq<char>) -> Option<(int, Seq<char>)> {
    let k = digit_run(s);
    if k == 0 {
        None
    } else if s[0] == '0' {
        None
    } else {
        let n = digits_value(s.take(k));
        if n > i32::MAX {
            None
        } else {
            Some((n, s.skip(k)))
        }
    }
}

pub open spec fn is_hex_lower(c: char) -> bool {
    (48 <= c as u32 && c as u32 <= 57) || (97 <= c as u32 && c as u32 <= 102)
}

pub open spec fn hex_val(c: char) -> int {
    if c as u32 <= 57 {
        c as u32 - 48
    } else {
        c as u32 - 87
    }
}

/// Consumes the body of a string literal up to and including the closing
/// quote, returning the unescaped characters and the remainder. Accepts
/// exactly the escapes the encoder emits: `\"`, `\\`, and `\u00xy` for a
/// control character.
pub open spec fn parse_str_body(s: Seq<char>) -> Option<(Seq<char>, Seq<char>)>
    decreases s.len(),
{
    if s.len() == 0 {
        None
    } else if s[0] == '"' {
        Some((Seq::empty(), s.drop_first()))
    } else if s[0] == '\\' {
        if s.len() >= 2 && (s[1] == '"' || s[1] == '\\') {
            match parse_str_body(s.skip(2)) {
                Some((t, rest)) => Some((seq![s[1]] + t, rest)),
                None => None,
            }
        } else if s.len() >= 6 && s[1] == 'u' && s[2] == '0' && s[3] == '0' && is_hex_lower(s[4])
            && is_hex_lower(s[5]) && 16 * hex_val(s[4]) + hex_val(s[5]) < 32 {
            match parse_str_body(s.skip(6)) {
                Some((t, rest)) => Some(
                    (seq![((16 * hex_val(s[4]) + hex_val(s[5])) as u32 as char)] + t, rest),
                ),
                None => None,
            }
        } else {
            None
        }
    } else if (s[0] as u32) < 32 {
        None
    } else {
        match parse_str_body(s.drop_first()) {
            Some((t, rest)) => Some((seq![s[0]] + t, rest)),
            None => None,
        }
    }
}

/// Consumes a whole string literal, opening quote included.
pub open spec fn parse_string(s: Seq<char>) -> Option<(Seq<char>, Seq<char>)> {
    if s.len() > 0 && s[0] == '"' {
        parse_str_body(s.drop_first())
    } else {
        None
    }
}

/// Consumes one record object. Succeeds only when the decoded record is
/// valid, so every decoded log holds valid records only.
pub open spec fn parse_record(s: Seq<char>) -> Option<(RecordView, Seq<char>)> {
    match parse_lit(s, key_datetime()) {
        None => None,
        Some(s1) => match parse_number(s1) {
            None => None,
            Some((datetime, s2)) => match parse_lit(s2, key_duration()) {
                None => None,
                Some(s3) => match parse_number(s3) {
                    None => None,
                    Some((duration, s4)) => match parse_lit(s4, key_category()) {
                        None => None,
                        Some(s5) => match parse_string(s5) {
                            None => None,
                            Some((category, s6)) => match parse_lit(s6, key_speaker()) {
                                None => None,
                                Some(s7) => match parse_string(s7) {
                                    None => None,
                                    Some((speaker, s8)) => match parse_lit(s8, seq!['}']) {
                                        None => None,
                                        Some(s9) => {
                                            let r = RecordView {
                                                datetime,
                                                duration,
                                                category,
                                                speaker,
                                            };
                                            if r.valid() {
                                                Some((r, s9))
                                            } else {
                                                None
                                            }
                                        },
                                    },
                                },
                            },
                        },
                    },
                },
            },
        },
    }
}

/// Consumes `,record` groups until the closing bracket, which must end the
/// text.
pub open spec fn parse_more(s: Seq<char>, acc: Seq<RecordView>) -> Option<Seq<RecordView>>
    decreases s.len(),
{
    if s.len() == 1 && s[0] == ']' {
        Some(acc)
    } else if s.len() > 0 && s[0] == ',' {
        match parse_record(s.drop_first()) {
            Some((r, rest)) => {
                if rest.len() < s.len() {
                    parse_more(rest, acc.push(r))
                } else {
                    None
                }
            },
            None => None,
        }
    } else {
        None
    }
}

/// Decodes a whole log: `None` unless the text is exactly one canonical
/// JSON array of valid records.
pub open spec fn parse_records(s: Seq<char>) -> Option<Seq<RecordView>> {
    if s.len() == 2 && s[0] == '[' && s[1] == ']' {
        Some(Seq::empty())
    } else if s.len() > 0 && s[0] == '[' {
        match parse_record(s.drop_first()) {
            Some((r, rest)) => parse_more(rest, seq![r]),
            None => None,
        }
    } else {
        None
    }
}

/// What a reader gets from a stored text: the decoded records, or an empty
/// log when the text does not decode.
pub open spec fn decoded_or_empty(s: Seq<char>) -> Seq<RecordView> {
    match parse_records(s) {
        Some(rs) => rs,
        None => Seq::empty(),
    }
}

/// Every record of a sequence is valid.
pub open spec fn all_valid(rs: Seq<RecordView>) -> bool {
    forall|i: int| 0 <= i < rs.len() ==> (#[trigger] rs[i]).valid()
}

// ---------------------------------------------------------------------------
// Decoding inverts encoding
// ---------------------------------------------------------------------------

proof fn lemma_parse_lit_concat(lit: Seq<char>, rest: Seq<char>)
    ensures
        parse_lit(lit + rest, lit) == Some(rest),
{
    let s = lit + rest;
    assert(s.subrange(0, lit.len() as int) =~= lit);
    assert(s.skip(lit.len() as int) =~= rest);
}

/// The decimal digits of a positive number are digits, carry no leading
/// zero, and evaluate back to the number.
proof fn lemma_dec_digits(n: int)
    requires
        1 <= n,
    ensures
        dec_digits(n).len() >= 1,
        forall|i: int| 0 <= i < dec_digits(n).len() ==> is_digit(#[trigger] dec_digits(n)[i]),
        dec_digits(n)[0] != '0',
        digits_value(dec_digits(n)) == n,
    decreases n,
{
    if n < 10 {
        let ds = dec_digits(n);
        assert(ds == seq![digit_char(n)]);
        assert(ds.drop_last() =~= Seq::<char>::empty());
        assert(digits_value(ds) == 10 * digits_value(ds.drop_last()) + digit_val(digit_char(n)));
    } else {
        lemma_dec_digits(n / 10);
        let ds = dec_digits(n / 10);
        let full = dec_digits(n);
        assert(full == ds.push(digit_char(n % 10)));
        assert(full.drop_last() =~= ds);
        assert(digits_value(full) == 10 * digits_value(ds) + digit_val(full.last()));
        assert(n == 10 * (n / 10) + n % 10) by {
            vstd::arithmetic::div_mod::lemma_fundamental_div_mod(n, 10);
        };
        assert(full[0] == ds[0]);
        assert forall|i: int| 0 <= i < full.len() implies is_digit(#[trigger] full[i]) by {
            if i < ds.len() {
                assert(full[i] == ds[i]);
            }
        }
    }
}

proof fn lemma_digit_run_concat(ds: Seq<char>, rest: Seq<char>)
    requires
        forall|i: int| 0 <= i < ds.len() ==> is_digit(#[trigger] ds[i]),
        rest.len() == 0 || !is_digit(rest[0]),
    ensures
        digit_run(ds + rest) == ds.len(),
    decreases ds.len(),
{
    let s = ds + rest;
    if ds.len() == 0 {
        assert(s =~= rest);
    } else {
        assert(s[0] == ds[0]);
        assert(s.drop_first() =~= ds.drop_first() + rest);
        lemma_digit_run_concat(ds.drop_first(), rest);
    }
}

proof fn lemma_parse_number_concat(n: int, rest: Seq<char>)
    requires
        1 <= n <= i32::MAX,
        rest.len() == 0 || !is_digit(rest[0]),
    ensures
        parse_number(dec_digits(n) + rest) == Some((n, rest)),
{
    let ds = dec_digits(n);
    let s = ds + rest;
    lemma_dec_digits(n);
    lemma_digit_run_concat(ds, rest);
    assert(digit_run(s) == ds.len());
    assert(s[0] == ds[0]);
    assert(s.take(ds.len() as int) =~= ds);
    assert(s.skip(ds.len() as int) =~= rest);
}

proof fn lemma_parse_str_body_concat(x: Seq<char>, rest: Seq<char>)
    ensures
        parse_str_body(esc_string(x) + seq!['"'] + rest) == Some((x, rest)),
    decreases x.len(),
{
    let s = esc_string(x) + seq!['"'] + rest;
    if x.len() == 0 {
        assert(s =~= seq!['"'] + rest);
        assert(s[0] == '"');
        assert(s.drop_first() =~= rest);
        assert(x =~= Seq::<char>::empty());
    } else {
        let c = x[0];
        let x1 = x.drop_first();
        lemma_parse_str_body_concat(x1, rest);
        let s1 = esc_string(x1) + seq!['"'] + rest;
        assert(esc_string(x) == esc_char(c) + esc_string(x1));
        if c == '"' {
            assert(s[0] == '\\');
            assert(s[1] == '"');
            assert(s.len() >= 2);
            assert(s.skip(2) =~= s1);
            assert(seq![s[1]] + x1 =~= x);
        } else if c == '\\' {
            assert(s[0] == '\\');
            assert(s[1] == '\\');
            assert(s.len() >= 2);
            assert(s.skip(2) =~= s1);
            assert(seq![s[1]] + x1 =~= x);
        } else if (c as u32) < 32 {
            let v = c as u32 as int;
            assert(0 <= v < 32);
            assert(v == 16 * (v / 16) + v % 16) by {
                vstd::arithmetic::div_mod::lemma_fundamental_div_mod(v, 16);
            };
            assert(0 <= v / 16 <= 1);
            assert(0 <= v % 16 <= 15);
            assert(s[0] == '\\');
            assert(s[1] == 'u');
            assert(s[2] == '0');
            assert(s[3] == '0');
            assert(s[4] == hex_char(v / 16));
            assert(s[5] == hex_char(v % 16));
            assert(is_hex_lower(s[4]));
            assert(is_hex_lower(s[5]));
            assert(hex_val(s[4]) == v / 16);
            assert(hex_val(s[5]) == v % 16);
            assert(16 * hex_val(s[4]) + hex_val(s[5]) == v);
            assert(s.len() >= 6);
            assert((v as u32 as char) == c) by {
                vstd::utf8::char_u32_cast(c, c as u32);
            };
            assert(s.skip(6) =~= s1);
            assert(seq![(16 * hex_val(s[4]) + hex_val(s[5])) as u32 as char] + x1 =~= x);
        } else {
            assert(s[0] == c);
            assert(s[0] != '"' && s[0] != '\\');
            assert(!((s[0] as u32) < 32));
            assert(s.drop_first() =~= s1);
            assert(seq![s[0]] + x1 =~= x);
        }
    }
}

proof fn lemma_parse_string_concat(x: Seq<char>, rest: Seq<char>)
    ensures
        parse_string(json_of_string(x) + rest) == Some((x, rest)),
{
    let s = json_of_string(x) + rest;
    assert(s[0] == '"');
    assert(s.len() > 0);
    lemma_parse_str_body_concat(x, rest);
    assert(s.drop_first() =~= esc_string(x) + seq!['"'] + rest);
}

#[verifier::rlimit(50)]
proof fn lemma_parse_record_concat(r: RecordView, rest: Seq<char>)
    requires
        r.valid(),
    ensures
        parse_record(json_of_record(r) + rest) == Some((r, rest)),
{
    let s = json_of_record(r) + rest;
    let jstr_cat = json_of_string(r.category);
    let jstr_spk = json_of_string(r.speaker);
    let t8 = seq!['}'] + rest;
    let t7 = jstr_spk + t8;
    let t6 = key_speaker() + t7;
    let t5 = jstr_cat + t6;
    let t4 = key_category() + t5;
    let t3 = dec_digits(r.duration) + t4;
    let t2 = key_duration() + t3;
    let t1 = dec_digits(r.datetime) + t2;
    assert(s =~= key_datetime() + t1);
    lemma_parse_lit_concat(key_datetime(), t1);
    assert(t2[0] == ',');
    lemma_parse_number_concat(r.datetime, t2);
    lemma_parse_lit_concat(key_duration(), t3);
    assert(t4[0] == ',');
    lemma_parse_number_concat(r.duration, t4);
    lemma_parse_lit_concat(key_category(), t5);
    lemma_parse_string_concat(r.category, t6);
    lemma_parse_lit_concat(key_speaker(), t7);
    lemma_parse_string_concat(r.speaker, t8);
    lemma_parse_lit_concat(seq!['}'], rest);
    assert((RecordView {
        datetime: r.datetime,
        duration: r.duration,
        category: r.category,
        speaker: r.speaker,
    }) =~= r);
}

/// The text that follows the first record of a non-empty log: each further
/// record behind its comma, then the closing bracket.
spec fn more_text(rs: Seq<RecordView>) -> Seq<char>
    decreases rs.len(),
{
    if rs.len() == 0 {
        seq![']']
    } else {
        seq![','] + json_of_record(rs[0]) + more_text(rs.drop_first())
    }
}

proof fn lemma_records_body_split(rs: Seq<RecordView>)
    requires
        rs.len() >= 1,
    ensures
        records_body(rs) + seq![']'] =~= json_of_record(rs[0]) + more_text(rs.drop_first()),
    decreases rs.len(),
{
    if rs.len() == 1 {
        assert(more_text(rs.drop_first()) == seq![']']);
    } else {
        let rs1 = rs.drop_first();
        lemma_records_body_split(rs1);
        assert(rs1.len() >= 1);
        assert(rs1[0] == rs[1]);
        assert(records_body(rs) == json_of_record(rs[0]) + seq![','] + records_body(rs1));
        assert(more_text(rs1) =~= seq![','] + json_of_record(rs1[0]) + more_text(rs1.drop_first()));
        assert(records_body(rs) + seq![']'] =~= json_of_record(rs[0]) + seq![','] + (
        records_body(rs1) + seq![']']));
    }
}

proof fn lemma_parse_more_concat(rs: Seq<RecordView>, acc: Seq<RecordView>)
    requires
        all_valid(rs),
    ensures
        parse_more(more_text(rs), acc) == Some(acc + rs),
    decreases rs.len(),
{
    if rs.len() == 0 {
        let s = more_text(rs);
        assert(s.len() == 1 && s[0] == ']');
        assert(acc + rs =~= acc);
    } else {
        let s = more_text(rs);
        let jr = json_of_record(rs[0]);
        let tail = more_text(rs.drop_first());
        assert(s == seq![','] + jr + tail);
        assert(s[0] == ',');
        assert(s.drop_first() =~= jr + tail);
        assert(rs[0].valid());
        lemma_parse_record_concat(rs[0], tail);
        assert(key_datetime().len() == 12);
        assert(jr.len() >= 12);
        assert(s.len() == 1 + jr.len() + tail.len());
        assert(tail.len() < s.len());
        assert(all_valid(rs.drop_first())) by {
            assert(forall|i: int|
                0 <= i < rs.drop_first().len() ==> #[trigger] rs.drop_first()[i] == rs[i + 1]);
        };
        lemma_parse_more_concat(rs.drop_first(), acc.push(rs[0]));
        assert(acc.push(rs[0]) + rs.drop_first() =~= acc + rs);
    }
}

/// Decoding inverts encoding: the canonical text of any sequence of valid
/// records decodes to exactly that sequence, field for field and in order.
#[verifier::rlimit(50)]
pub proof fn lemma_round_trip(rs: Seq<RecordView>)
    requires
        all_valid(rs),
    ensures
        parse_records(json_of_records(rs)) == Some(rs),
{
    let s = json_of_records(rs);
    if rs.len() == 0 {
        assert(records_body(rs) == Seq::<char>::empty());
        assert(s =~= seq!['[', ']']);
        assert(s.len() == 2 && s[0] == '[' && s[1] == ']');
        assert(rs =~= Seq::<RecordView>::empty());
    } else {
        lemma_records_body_split(rs);
        assert(key_datetime().len() == 12);
        assert(json_of_record(rs[0]).len() >= 12);
        assert(records_body(rs).len() >= 12);
        assert(s.len() >= 14);
        assert(s[0] == '[');
        assert(s.drop_first() =~= records_body(rs) + seq![']']);
        assert(s.drop_first() =~= json_of_record(rs[0]) + more_text(rs.drop_first()));
        assert(rs[0].valid());
        lemma_parse_record_concat(rs[0], more_text(rs.drop_first()));
        assert(all_valid(rs.drop_first())) by {
            assert(forall|i: int|
                0 <= i < rs.drop_first().len() ==> #[trigger] rs.drop_first()[i] == rs[i + 1]);
        };
        lemma_parse_more_concat(rs.drop_first(), seq![rs[0]]);
        assert(seq![rs[0]] + rs.drop_first() =~= rs);
    }
}

// ---------------------------------------------------------------------------
// Executable encoder
// ---------------------------------------------------------------------------

proof fn lemma_esc_string_push(a: Seq<char>, c: char)
    ensures
        esc_string(a.push(c)) == esc_string(a) + esc_char(c),
    decreases a.len(),
{
    let ap = a.push(c);
    if a.len() == 0 {
        assert(ap[0] == c);
        assert(ap.drop_first() =~= Seq::<char>::empty());
        assert(esc_string(ap) == esc_char(c) + esc_string(Seq::<char>::empty()));
        assert(esc_char(c) + Seq::<char>::empty() =~= esc_char(c));
        assert(esc_string(a) + esc_char(c) =~= esc_char(c));
    } else {
        assert(ap[0] == a[0]);
        assert(ap.drop_first() =~= a.drop_first().push(c));
        lemma_esc_string_push(a.drop_first(), c);
        assert(esc_char(a[0]) + (esc_string(a.drop_first()) + esc_char(c)) =~= (esc_char(a[0])
            + esc_string(a.drop_first())) + esc_char(c));
    }
}

proof fn lemma_records_body_push(rs: Seq<RecordView>, r: RecordView)
    requires
        rs.len() >= 1,
    ensures
        records_body(rs.push(r)) == records_body(rs) + seq![','] + json_of_record(r),
    decreases rs.len(),
{
    let p = rs.push(r);
    assert(p[0] == rs[0]);
    if rs.len() == 1 {
        assert(p.drop_first() =~= seq![r]);
        assert(records_body(seq![r]) == json_of_record(seq![r][0]));
        assert(seq![r][0] == r);
    } else {
        assert(p.drop_first() =~= rs.drop_first().push(r));
        lemma_records_body_push(rs.drop_first(), r);
        assert(json_of_record(rs[0]) + seq![','] + (records_body(rs.drop_first()) + seq![',']
            + json_of_record(r)) =~= (json_of_record(rs[0]) + seq![','] + records_body(
        rs.drop_first())) + seq![','] + json_of_record(r));
    }
}

fn push_lit(out: &mut Vec<char>, lit: &str)
    ensures
        final(out)@ == old(out)@ + lit@,
{
    let n = lit.unicode_len();
    let mut k: usize = 0;
    assert(out@ =~= old(out)@ + lit@.take(0));
    while k < n
        invariant
            n == lit@.len(),
            0 <= k <= n,
            out@ == old(out)@ + lit@.take(k as int),
        decreases n - k,
    {
        out.push(lit.get_char(k));
        k = k + 1;
        assert(out@ =~= old(out)@ + lit@.take(k as int));
    }
    assert(out@ =~= old(out)@ + lit@);
}

fn hex_digit(d: u8) -> (c: char)
    requires
        d < 16,
    ensures
        c == hex_char(d as int),
{
    if d < 10 {
        (48 + d) as char
    } else {
        (87 + d) as char
    }
}

fn push_esc_char(out: &mut Vec<char>, c: char)
    ensures
        final(out)@ == old(out)@ + esc_char(c),
{
    if c == '"' {
        out.push('\\');
        out.push('"');
        assert(out@ =~= old(out)@ + esc_char(c));
    } else if c == '\\' {
        out.push('\\');
        out.push('\\');
        assert(out@ =~= old(out)@ + esc_char(c));
    } else {
        let u = c as u32;
        if u < 32 {
            out.push('\\');
            out.push('u');
            out.push('0');
            out.push('0');
            out.push(hex_digit((u / 16) as u8));
            out.push(hex_digit((u % 16) as u8));
            assert(out@ =~= old(out)@ + esc_char(c));
        } else {
            out.push(c);
            assert(out@ =~= old(out)@ + esc_char(c));
        }
    }
}

fn push_dec(out: &mut Vec<char>, n: i32)
    requires
        1 <= n,
    ensures
        final(out)@ == old(out)@ + dec_digits(n as int),
    decreases n,
{
    if n < 10 {
        out.push((48 + n as u8) as char);
        assert(out@ =~= old(out)@ + dec_digits(n as int));
    } else {
        push_dec(out, n / 10);
        let d = (n % 10) as u8;
        out.push((48 + d) as char);
        assert((48 + d) as char == digit_char(n as int % 10));
        assert(out@ =~= old(out)@ + dec_digits(n as int));
    }
}

fn push_json_string(out: &mut Vec<char>, s: &str)
    ensures
        final(out)@ == old(out)@ + json_of_string(s@),
{
    out.push('"');
    let n = s.unicode_len();
    let mut k: usize = 0;
    assert(out@ =~= old(out)@ + seq!['"'] + esc_string(s@.take(0)));
    while k < n
        invariant
            n == s@.len(),
            0 <= k <= n,
            out@ == old(out)@ + seq!['"'] + esc_string(s@.take(k as int)),
        decreases n - k,
    {
        let c = s.get_char(k);
        push_esc_char(out, c);
        proof {
            lemma_esc_string_push(s@.take(k as int), c);
            assert(s@.take(k as int).push(c) =~= s@.take(k as int + 1));
        }
        k = k + 1;
        assert(out@ =~= old(out)@ + seq!['"'] + esc_string(s@.take(k as int)));
    }
    out.push('"');
    assert(s@.take(n as int) =~= s@);
    assert(out@ =~= old(out)@ + json_of_string(s@));
}

fn push_record(out: &mut Vec<char>, m: &MeditationData)
    requires
        m@.valid(),
    ensures
        final(out)@ == old(out)@ + json_of_record(m@),
{
    proof {
        reveal_strlit("{\"datetime\":");
        reveal_strlit(",\"duration\":");
        reveal_strlit(",\"category\":");
        reveal_strlit(",\"speaker\":");
        assert("{\"datetime\":"@ =~= key_datetime());
        assert(",\"duration\":"@ =~= key_duration());
        assert(",\"category\":"@ =~= key_category());
        assert(",\"speaker\":"@ =~= key_speaker());
    }
    push_lit(out, "{\"datetime\":");
    push_dec(out, m.datetime);
    push_lit(out, ",\"duration\":");
    push_dec(out, m.duration);
    push_lit(out, ",\"category\":");
    push_json_string(out, m.category.as_str());
    push_lit(out, ",\"speaker\":");
    push_json_string(out, m.speaker.as_str());
    out.push('}');
    assert(out@ =~= old(out)@ + json_of_record(m@));
}

/// Encodes a log as its canonical JSON-array text.
pub fn serialize_records(records: &Vec<MeditationData>) -> (r: String)
    requires
        all_valid(records.deep_view()),
    ensures
        r@ == json_of_records(records.deep_view()),
{
    let ghost dv = records.deep_view();
    let mut out: Vec<char> = Vec::new();
    out.push('[');
    let n = records.len();
    let mut i: usize = 0;
    assert(records_body(dv.take(0)) =~= Seq::<char>::empty());
    assert(out@ =~= seq!['['] + records_body(dv.take(0)));
    while i < n
        invariant
            n == records@.len(),
            0 <= i <= n,
            dv == records.deep_view(),
            all_valid(dv),
            out@ == seq!['['] + records_body(dv.take(i as int)),
        decreases n - i,
    {
        let m = &records[i];
        assert(dv[i as int] == m@);
        if i > 0 {
            out.push(',');
            push_record(&mut out, m);
            proof {
                assert(dv.take(i as int).len() >= 1);
                lemma_records_body_push(dv.take(i as int), dv[i as int]);
                assert(dv.take(i as int).push(dv[i as int]) =~= dv.take(i as int + 1));
                assert(out@ =~= seq!['['] + records_body(dv.take(i as int + 1)));
            }
        } else {
            push_record(&mut out, m);
            proof {
                assert(dv.take(1).len() == 1);
                assert(dv.take(1)[0] == dv[0]);
                assert(records_body(dv.take(1)) == json_of_record(dv[0]));
                assert(out@ =~= seq!['['] + records_body(dv.take(1)));
            }
        }
        i = i + 1;
    }
    out.push(']');
    proof {
        assert(dv.take(n as int) =~= dv);
        assert(out@ =~= json_of_records(dv));
    }
    crate::text::chars_to_string(out)
}

// ---------------------------------------------------------------------------
// Executable decoder
// ---------------------------------------------------------------------------

proof fn lemma_digit_run_bounds(s: Seq<char>)
    ensures
        0 <= digit_run(s) <= s.len(),
        forall|m: int| 0 <= m < digit_run(s) ==> is_digit(#[trigger] s[m]),
    decreases s.len(),
{
    if s.len() > 0 && is_digit(s[0]) {
        lemma_digit_run_bounds(s.drop_first());
        assert forall|m: int| 0 <= m < digit_run(s) implies is_digit(#[trigger] s[m]) by {
            if m > 0 {
                assert(s.drop_first()[m - 1] == s[m]);
            }
        }
    }
}

proof fn lemma_digits_value_nonneg(ds: Seq<char>)
    requires
        forall|m: int| 0 <= m < ds.len() ==> is_digit(#[trigger] ds[m]),
    ensures
        0 <= digits_value(ds),
    decreases ds.len(),
{
    if ds.len() > 0 {
        assert(forall|m: int|
            0 <= m < ds.drop_last().len() ==> #[trigger] ds.drop_last()[m] == ds[m]);
        lemma_digits_value_nonneg(ds.drop_last());
    }
}

proof fn lemma_digits_value_prefix(ds: Seq<char>, m: int)
    requires
        forall|q: int| 0 <= q < ds.len() ==> is_digit(#[trigger] ds[q]),
        0 <= m <= ds.len(),
    ensures
        digits_value(ds.take(m)) <= digits_value(ds),
    decreases ds.len() - m,
{
    if m == ds.len() {
        assert(ds.take(m) =~= ds);
    } else {
        lemma_digits_value_prefix(ds, m + 1);
        let t1 = ds.take(m + 1);
        assert(t1.drop_last() =~= ds.take(m));
        assert(t1.last() == ds[m]);
        assert(forall|q: int| 0 <= q < ds.take(m).len() ==> #[trigger] ds.take(m)[q] == ds[q]);
        lemma_digits_value_nonneg(ds.take(m));
    }
}

fn is_digit_exec(c: char) -> (r: bool)
    ensures
        r == is_digit(c),
{
    let u = c as u32;
    48 <= u && u <= 57
}

fn parse_number_exec(chars: &Vec<char>, i: usize) -> (r: Option<(i32, usize)>)
    requires
        i <= chars@.len(),
    ensures
        match r {
            Some((v, j)) => i < j <= chars@.len() && parse_number(chars@.skip(i as int)) == Some(
                (v as int, chars@.skip(j as int)),
            ),
            None => parse_number(chars@.skip(i as int)) is None,
        },
{
    let ghost s = chars@.skip(i as int);
    let n = chars.len();
    if i >= n || !is_digit_exec(chars[i]) {
        assert(digit_run(s) == 0);
        return None;
    }
    assert(s[0] == chars@[i as int]);
    if chars[i] == '0' {
        proof {
            assert(s.len() > 0);
            lemma_digit_run_bounds(s.drop_first());
            assert(digit_run(s) != 0);
        }
        return None;
    }
    let mut j: usize = i;
    let mut acc: i64 = 0;
    assert(chars@.subrange(i as int, i as int) =~= Seq::<char>::empty());
    while j < n && is_digit_exec(chars[j])
        invariant
            i <= j <= n,
            n == chars@.len(),
            s == chars@.skip(i as int),
            i < n && is_digit(chars@[i as int]),
            forall|m: int| i <= m < j ==> is_digit(#[trigger] chars@[m]),
            digit_run(s) == (j - i) + digit_run(chars@.skip(j as int)),
            0 <= acc <= i32::MAX,
            acc == digits_value(chars@.subrange(i as int, j as int)),
        decreases n - j,
    {
        let d = (chars[j] as u32 - 48) as u8;
        assert(d as int == digit_val(chars@[j as int]));
        let next = acc * 10 + d as i64;
        proof {
            assert(chars@.subrange(i as int, j as int + 1).drop_last() =~= chars@.subrange(
                i as int,
                j as int,
            ));
            assert(chars@.subrange(i as int, j as int + 1).last() == chars@[j as int]);
            assert(next == digits_value(chars@.subrange(i as int, j as int + 1)));
        }
        if next > 2147483647i64 {
            proof {
                let k = digit_run(s);
                lemma_digit_run_bounds(s);
                assert(chars@.skip(j as int)[0] == chars@[j as int]);
                lemma_digit_run_bounds(chars@.skip(j as int).drop_first());
                assert(digit_run(chars@.skip(j as int)) >= 1);
                assert(k >= j + 1 - i);
                assert(s.take(k) =~= chars@.subrange(i as int, i as int + k));
                assert(forall|m: int|
                    0 <= m < s.take(k).len() ==> is_digit(#[trigger] s.take(k)[m]));
                assert(s.take(k).take(j as int + 1 - i as int) =~= chars@.subrange(
                    i as int,
                    j as int + 1,
                ));
                lemma_digits_value_prefix(s.take(k), j as int + 1 - i as int);
                assert(digits_value(s.take(k)) > i32::MAX);
            }
            return None;
        }
        acc = next;
        proof {
            assert(chars@.skip(j as int).drop_first() =~= chars@.skip(j as int + 1));
            assert(digit_run(chars@.skip(j as int)) == 1 + digit_run(chars@.skip(j as int + 1)));
        }
        j = j + 1;
    }
    proof {
        assert(digit_run(chars@.skip(j as int)) == 0);
        assert(j > i);
        assert(digit_run(s) == j - i);
        assert(s.take((j - i) as int) =~= chars@.subrange(i as int, j as int));
        assert(s.skip((j - i) as int) =~= chars@.skip(j as int));
    }
    Some((acc as i32, j))
}

/// How the decoded characters accumulated so far relate what remains of a
/// string-literal body to the whole body.
spec fn body_continues(
    whole: Option<(Seq<char>, Seq<char>)>,
    done: Seq<char>,
    rem: Option<(Seq<char>, Seq<char>)>,
) -> bool {
    match rem {
        Some((t, rest)) => whole == Some((done + t, rest)),
        None => whole is None,
    }
}

fn parse_string_exec(chars: &Vec<char>, i: usize) -> (r: Option<(String, usize)>)
    requires
        i <= chars@.len(),
    ensures
        match r {
            Some((t, j)) => i < j <= chars@.len() && parse_string(chars@.skip(i as int)) == Some(
                (t@, chars@.skip(j as int)),
            ),
            None => parse_string(chars@.skip(i as int)) is None,
        },
{
    let n = chars.len();
    if i >= n || chars[i] != '"' {
        return None;
    }
    proof {
        assert(chars@.skip(i as int)[0] == '"');
        assert(chars@.skip(i as int).drop_first() =~= chars@.skip(i as int + 1));
    }
    let ghost body = chars@.skip(i as int + 1);
    let mut out: Vec<char> = Vec::new();
    let mut cur: usize = i + 1;
    loop
        invariant
            i + 1 <= cur <= n,
            n == chars@.len(),
            body == chars@.skip(i as int + 1),
            parse_string(chars@.skip(i as int)) == parse_str_body(body),
            body_continues(parse_str_body(body), out@, parse_str_body(chars@.skip(cur as int))),
        decreases n - cur,
    {
        let ghost srem = chars@.skip(cur as int);
        if cur >= n {
            assert(srem.len() == 0);
            return None;
        }
        assert(srem.len() == n - cur);
        let c = chars[cur];
        assert(srem[0] == c);
        if c == '"' {
            proof {
                assert(srem.drop_first() =~= chars@.skip(cur as int + 1));
                assert(parse_str_body(srem) == Some(
                    (Seq::<char>::empty(), chars@.skip(cur as int + 1)),
                ));
                assert(out@ + Seq::<char>::empty() =~= out@);
            }
            let res = crate::text::chars_to_string(out);
            return Some((res, cur + 1));
        }
        if c == '\\' {
            if n - cur < 2 {
                return None;
            }
            let c2 = chars[cur + 1];
            assert(srem[1] == c2);
            if c2 == '"' || c2 == '\\' {
                proof {
                    assert(srem.skip(2) =~= chars@.skip(cur as int + 2));
                }
                let ghost prev = out@;
                out.push(c2);
                cur = cur + 2;
                proof {
                    let rem2 = parse_str_body(chars@.skip(cur as int));
                    if rem2 is Some {
                        let t2 = rem2->Some_0.0;
                        assert(parse_str_body(srem) == Some((seq![c2] + t2, rem2->Some_0.1)));
                        assert(prev + (seq![c2] + t2) =~= out@ + t2);
                    }
                }
            } else if c2 == 'u' {
                if n - cur < 6 {
                    return None;
                }
                if chars[cur + 2] != '0' || chars[cur + 3] != '0' {
                    assert(srem[2] == chars@[cur as int + 2] && srem[3] == chars@[cur as int + 3]);
                    return None;
                }
                let u4 = chars[cur + 4] as u32;
                let u5 = chars[cur + 5] as u32;
                assert(srem[4] == chars@[cur as int + 4] && srem[5] == chars@[cur as int + 5]);
                let h4 = (48 <= u4 && u4 <= 57) || (97 <= u4 && u4 <= 102);
                let h5 = (48 <= u5 && u5 <= 57) || (97 <= u5 && u5 <= 102);
                if !h4 || !h5 {
                    return None;
                }
                let v4 = if u4 <= 57 {
                    u4 - 48
                } else {
                    u4 - 87
                };
                let v5 = if u5 <= 57 {
                    u5 - 48
                } else {
                    u5 - 87
                };
                let v = 16 * v4 + v5;
                assert(v as int == 16 * hex_val(srem[4]) + hex_val(srem[5]));
                if v >= 32 {
                    return None;
                }
                proof {
                    assert(srem.skip(6) =~= chars@.skip(cur as int + 6));
                }
                let ghost prev = out@;
                let decoded = (v as u8) as char;
                assert(decoded == ((16 * hex_val(srem[4]) + hex_val(srem[5])) as u32 as char));
                out.push(decoded);
                cur = cur + 6;
                proof {
                    let rem2 = parse_str_body(chars@.skip(cur as int));
                    if rem2 is Some {
                        let t2 = rem2->Some_0.0;
                        assert(parse_str_body(srem) == Some((seq![decoded] + t2, rem2->Some_0.1)));
                        assert(prev + (seq![decoded] + t2) =~= out@ + t2);
                    }
                }
            } else {
                return None;
            }
        } else if (c as u32) < 32 {
            return None;
        } else {
            proof {
                assert(srem.drop_first() =~= chars@.skip(cur as int + 1));
            }
            let ghost prev = out@;
            out.push(c);
            cur = cur + 1;
            proof {
                let rem2 = parse_str_body(chars@.skip(cur as int));
                if rem2 is Some {
                    let t2 = rem2->Some_0.0;
                    assert(parse_str_body(srem) == Some((seq![c] + t2, rem2->Some_0.1)));
                    assert(prev + (seq![c] + t2) =~= out@ + t2);
                }
            }
        }
    }
}

fn eat_lit(chars: &Vec<char>, i: usize, lit: &str) -> (r: Option<usize>)
    requires
        i <= chars@.len(),
    ensures
        match r {
            Some(j) => i <= j <= chars@.len() && j - i == lit@.len() && parse_lit(
                chars@.skip(i as int),
                lit@,
            ) == Some(chars@.skip(j as int)),
            None => parse_lit(chars@.skip(i as int), lit@) is None,
        },
{
    let ghost s = chars@.skip(i as int);
    let n = lit.unicode_len();
    let clen = chars.len();
    if clen - i < n {
        assert(!lit@.is_prefix_of(s));
        return None;
    }
    let mut k: usize = 0;
    while k < n
        invariant
            0 <= k <= n,
            n == lit@.len(),
            clen == chars@.len(),
            i + n <= clen,
            s == chars@.skip(i as int),
            forall|m: int| 0 <= m < k ==> lit@[m] == #[trigger] s[m],
        decreases n - k,
    {
        let lc = lit.get_char(k);
        let cc = chars[i + k];
        assert(s[k as int] == chars@[i as int + k as int]);
        if lc != cc {
            proof {
                assert(s.subrange(0, n as int)[k as int] != lit@[k as int]);
                assert(!lit@.is_prefix_of(s));
            }
            return None;
        }
        k = k + 1;
    }
    proof {
        assert(lit@ =~= s.subrange(0, n as int));
        assert(lit@.is_prefix_of(s));
        assert(s.skip(n as int) =~= chars@.skip((i + n) as int));
    }
    Some(i + n)
}

fn parse_record_exec(chars: &Vec<char>, i: usize) -> (r: Option<(MeditationData, usize)>)
    requires
        i <= chars@.len(),
    ensures
        match r {
            Some((m, j)) => i < j <= chars@.len() && m@.valid() && parse_record(
                chars@.skip(i as int),
            ) == Some((m@, chars@.skip(j as int))),
            None => parse_record(chars@.skip(i as int)) is None,
        },
{
    proof {
        reveal_strlit("{\"datetime\":");
        reveal_strlit(",\"duration\":");
        reveal_strlit(",\"category\":");
        reveal_strlit(",\"speaker\":");
        reveal_strlit("}");
        assert("{\"datetime\":"@ =~= key_datetime());
        assert(",\"duration\":"@ =~= key_duration());
        assert(",\"category\":"@ =~= key_category());
        assert(",\"speaker\":"@ =~= key_speaker());
        assert("}"@ =~= seq!['}']);
    }
    let j1 = match eat_lit(chars, i, "{\"datetime\":") {
        Some(j) => j,
        None => {
            return None;
        },
    };
    let (datetime, j2) = match parse_number_exec(chars, j1) {
        Some(p) => p,
        None => {
            return None;
        },
    };
    let j3 = match eat_lit(chars, j2, ",\"duration\":") {
        Some(j) => j,
        None => {
            return None;
        },
    };
    let (duration, j4) = match parse_number_exec(chars, j3) {
        Some(p) => p,
        None => {
            return None;
        },
    };
    let j5 = match eat_lit(chars, j4, ",\"category\":") {
        Some(j) => j,
        None => {
            return None;
        },
    };
    let (category, j6) = match parse_string_exec(chars, j5) {
        Some(p) => p,
        None => {
            return None;
        },
    };
    let j7 = match eat_lit(chars, j6, ",\"speaker\":") {
        Some(j) => j,
        None => {
            return None;
        },
    };
    let (speaker, j8) = match parse_string_exec(chars, j7) {
        Some(p) => p,
        None => {
            return None;
        },
    };
    let j9 = match eat_lit(chars, j8, "}") {
        Some(j) => j,
        None => {
            return None;
        },
    };
    if datetime < 1 {
        return None;
    }
    if duration < 1 {
        return None;
    }
    if crate::text::str_is_blank(category.as_str()) {
        return None;
    }
    if crate::text::str_is_blank(speaker.as_str()) {
        return None;
    }
    let m = MeditationData { datetime, duration, category, speaker };
    assert(m@ =~= (RecordView {
        datetime: datetime as int,
        duration: duration as int,
        category: m.category@,
        speaker: m.speaker@,
    }));
    Some((m, j9))
}

/// Decodes a log from its stored text: `Some` exactly when the text is the
/// canonical JSON array of valid records, and then the records field for
/// field.
pub fn deserialize_records(value: &str) -> (r: Option<Vec<MeditationData>>)
    ensures
        match r {
            Some(v) => parse_records(value@) == Some(v.deep_view()) && all_valid(v.deep_view()),
            None => parse_records(value@) is None,
        },
{
    let chars = crate::text::str_to_chars(value);
    let n = chars.len();
    if n == 2 && chars[0] == '[' && chars[1] == ']' {
        let out: Vec<MeditationData> = Vec::new();
        assert(out.deep_view() =~= Seq::<RecordView>::empty());
        return Some(out);
    }
    if n == 0 || chars[0] != '[' {
        return None;
    }
    proof {
        assert(chars@.drop_first() =~= chars@.skip(1));
    }
    let (m0, j0) = match parse_record_exec(&chars, 1) {
        Some(p) => p,
        None => {
            return None;
        },
    };
    let mut acc: Vec<MeditationData> = Vec::new();
    let ghost m0v = m0@;
    acc.push(m0);
    let mut cur: usize = j0;
    proof {
        assert(acc.deep_view() =~= seq![m0v]);
    }
    loop
        invariant
            1 <= cur <= n,
            n == chars@.len(),
            chars@ == value@,
            all_valid(acc.deep_view()),
            parse_records(value@) == parse_more(chars@.skip(cur as int), acc.deep_view()),
        decreases n - cur,
    {
        let ghost s = chars@.skip(cur as int);
        if cur >= n {
            assert(s.len() == 0);
            return None;
        }
        assert(s[0] == chars@[cur as int]);
        assert(s.len() == n - cur);
        let c = chars[cur];
        if c == ']' {
            if cur + 1 == n {
                assert(parse_more(s, acc.deep_view()) == Some(acc.deep_view()));
                return Some(acc);
            }
            return None;
        }
        if c != ',' {
            return None;
        }
        proof {
            assert(s.drop_first() =~= chars@.skip(cur as int + 1));
        }
        match parse_record_exec(&chars, cur + 1) {
            None => {
                return None;
            },
            Some((m, j)) => {
                proof {
                    assert(chars@.skip(j as int).len() < s.len());
                }
                let ghost prev = acc.deep_view();
                let ghost mv = m@;
                acc.push(m);
                proof {
                    assert(acc.deep_view() =~= prev.push(mv));
                }
                cur = j;
            },
        }
    }
}

} // verus!
