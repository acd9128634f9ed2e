//! The line codec: the exact text of an encoded message, as spec-level
//! functions over character sequences.  A message encodes to a single-line
//! JSON object whose first key is `command`; an absent tag is omitted
//! entirely; numeric values print as JSON numbers, text as JSON strings,
//! absent values as `null`.
use vstd::prelude::*;

use crate::message::{
    GetDataRequestView, GetDataResponseView, LabeledValueView, MessageView, SetDataRequestView,
    SetDataResponseView, Status, ValueView,
};

verus! {

/// JSON insignificant whitespace.
pub open spec fn is_ws(c: char) -> bool {
    c == ' ' || c == '\t' || c == '\n' || c == '\r'
}

/// ASCII decimal digit.
pub open spec fn is_digit(c: char) -> bool {
    '0' <= c && c <= '9'
}

/// Control characters must be escaped inside JSON strings.
pub open spec fn is_control(c: char) -> bool {
    (c as u32) < 0x20
}

/// The hex digit (lower case) for a value below 16.
pub open spec fn hex_digit_char(d: int) -> char {
    if d < 10 {
        ((d + 48) as u8) as char
    } else {
        ((d + 87) as u8) as char
    }
}

/// How one character appears inside an encoded JSON string: itself, a
/// two-character short escape, or a `\u00XX` escape for the control
/// characters without a short form.
pub open spec fn escape_char(c: char) -> Seq<char> {
    if c == '"' {
        seq!['\\', '"']
    } else if c == '\\' {
        seq!['\\', '\\']
    } else if c == '\u{8}' {
        seq!['\\', 'b']
    } else if c == '\t' {
        seq!['\\', 't']
    } else if c == '\n' {
        seq!['\\', 'n']
    } else if c == '\u{c}' {
        seq!['\\', 'f']
    } else if c == '\r' {
        seq!['\\', 'r']
    } else if is_control(c) {
        seq!['\\', 'u', '0', '0', hex_digit_char((c as u32) as int / 16), hex_digit_char(
            (c as u32) as int % 16,
        )]
    } else {
        seq![c]
    }
}

/// A whole string content, escaped character by character.
pub open spec fn escape_seq(s: Seq<char>) -> Seq<char>
    decreases s.len(),
{
    if s.len() == 0 {
        Seq::empty()
    } else {
        escape_char(s[0]) + escape_seq(s.drop_first())
    }
}

/// A JSON string token: quoted, escaped content.
pub open spec fn quoted(s: Seq<char>) -> Seq<char> {
    seq!['"'] + escape_seq(s) + seq!['"']
}

/// The decimal digits of a non-negative integer, most significant first.
pub open spec fn dec_digits(n: nat) -> Seq<char>
    decreases n,
{
    if n < 10 {
        seq![((n + 48) as u8) as char]
    } else {
        dec_digits(n / 10) + seq![(((n % 10) + 48) as u8) as char]
    }
}

/// The decimal text of an integer.
pub open spec fn int_text(v: int) -> Seq<char> {
    if v < 0 {
        seq!['-'] + dec_digits((-v) as nat)
    } else {
        dec_digits(v as nat)
    }
}

pub open spec fn kw_command() -> Seq<char> {
    "command"@
}

pub open spec fn kw_tag() -> Seq<char> {
    "tag"@
}

pub open spec fn kw_params() -> Seq<char> {
    "params"@
}

pub open spec fn kw_status() -> Seq<char> {
    "status"@
}

pub open spec fn kw_results() -> Seq<char> {
    "results"@
}

pub open spec fn kw_label() -> Seq<char> {
    "label"@
}

pub open spec fn kw_value() -> Seq<char> {
    "value"@
}

pub open spec fn kw_null() -> Seq<char> {
    "null"@
}

pub open spec fn kw_get_request() -> Seq<char> {
    "GetDataRequest"@
}

pub open spec fn kw_get_response() -> Seq<char> {
    "GetDataResponse"@
}

pub open spec fn kw_set_request() -> Seq<char> {
    "SetDataRequest"@
}

pub open spec fn kw_set_response() -> Seq<char> {
    "SetDataResponse"@
}

pub open spec fn status_kw(st: Status) -> Seq<char> {
    match st {
        Status::OK => "OK"@,
        Status::InvalidRequest => "InvalidRequest"@,
        Status::NotFound => "NotFound"@,
    }
}

/// What the text of a canonical float literal looks like: the shape facts
/// the codec relies on, stated over the literal's characters.
pub open spec fn is_float_literal(t: Seq<char>) -> bool {
    &&& t.len() > 0
    &&& (is_digit(t[0]) || t[0] == '-')
    &&& (t[0] == '-' ==> t.len() > 1 && is_digit(t[1]))
    &&& forall|i: int|
        0 <= i < t.len() ==> (is_digit(#[trigger] t[i]) || t[i] == '-' || t[i] == '+' || t[i]
            == '.' || t[i] == 'e' || t[i] == 'E')
}

/// The canonical text of the JSON number literal `t` under the outside
/// JSON library: the literal is parsed as a number (64-bit unsigned,
/// signed, or floating depending on its shape and range) and printed back
/// in that library's canonical notation.  `None` when the literal's value
/// overflows the floating range.  This is a function of the characters of
/// `t` alone.
pub uninterp spec fn float_canon_of(t: Seq<char>) -> Option<Seq<char>>;

/// The text of one value inside an encoded message.
pub open spec fn value_text(v: ValueView) -> Seq<char> {
    match v {
        ValueView::Int(i) => int_text(i),
        ValueView::Float(t) => t,
        ValueView::Text(s) => quoted(s),
        ValueView::Null => kw_null(),
    }
}

/// The text of one labelled value: `{"label":...,"value":...}`.
pub open spec fn lv_text(lv: LabeledValueView) -> Seq<char> {
    seq!['{'] + quoted(kw_label()) + seq![':'] + quoted(lv.label) + seq![','] + quoted(kw_value())
        + seq![':'] + value_text(lv.value) + seq!['}']
}

/// The comma-separated items of an array, each already rendered.
pub open spec fn join_items(items: Seq<Seq<char>>) -> Seq<char>
    decreases items.len(),
{
    if items.len() == 0 {
        Seq::empty()
    } else if items.len() == 1 {
        items[0]
    } else {
        join_items(items.drop_last()) + seq![','] + items.last()
    }
}

/// The text of a label array: `["a","b",...]`.
pub open spec fn label_array_text(params: Seq<Seq<char>>) -> Seq<char> {
    seq!['['] + join_items(params.map_values(|l: Seq<char>| quoted(l))) + seq![']']
}

/// The text of a labelled-value array.
pub open spec fn lv_array_text(params: Seq<LabeledValueView>) -> Seq<char> {
    seq!['['] + join_items(params.map_values(|lv: LabeledValueView| lv_text(lv))) + seq![']']
}

/// The optional tag member: omitted entirely when the tag is absent.
pub open spec fn tag_part(tag: Option<Seq<char>>) -> Seq<char> {
    match tag {
        Option::None => Seq::empty(),
        Option::Some(t) => seq![','] + quoted(kw_tag()) + seq![':'] + quoted(t),
    }
}

/// The opening of every encoded object: `{"command":"<Kind>"`.
pub open spec fn head_part(cmd: Seq<char>) -> Seq<char> {
    seq!['{'] + quoted(kw_command()) + seq![':'] + quoted(cmd)
}

/// One member introduced by a comma: `,"<key>":<text>`.
pub open spec fn member_part(key: Seq<char>, text: Seq<char>) -> Seq<char> {
    seq![','] + quoted(key) + seq![':'] + text
}

/// The single-line JSON text of a message: key order is `command`, `tag`
/// (if present), then the kind's own members in declaration order.
pub open spec fn encode_spec(m: MessageView) -> Seq<char> {
    match m {
        MessageView::GetDataRequest(r) => head_part(kw_get_request()) + tag_part(r.tag)
            + member_part(kw_params(), label_array_text(r.params)) + seq!['}'],
        MessageView::GetDataResponse(r) => head_part(kw_get_response()) + tag_part(r.tag)
            + member_part(kw_status(), quoted(status_kw(r.status))) + member_part(
            kw_results(),
            lv_array_text(r.results),
        ) + seq!['}'],
        MessageView::SetDataRequest(r) => head_part(kw_set_request()) + tag_part(r.tag)
            + member_part(kw_params(), lv_array_text(r.params)) + seq!['}'],
        MessageView::SetDataResponse(r) => head_part(kw_set_response()) + tag_part(r.tag)
            + member_part(kw_status(), quoted(status_kw(r.status))) + seq!['}'],
    }
}

// ---------------------------------------------------------------------------
// Decoding: a deterministic recursive-descent grammar over character
// sequences.  Each parser consumes a prefix of its input and returns the
// parsed value together with the remaining suffix, or `None` on a decode
// error.
// ---------------------------------------------------------------------------
/// Leading insignificant whitespace removed.
pub open spec fn skip_ws(s: Seq<char>) -> Seq<char>
    decreases s.len(),
{
    if s.len() > 0 && is_ws(s[0]) {
        skip_ws(s.drop_first())
    } else {
        s
    }
}

/// The value of a hex digit, or -1.
pub open spec fn hex_val(c: char) -> int {
    if '0' <= c && c <= '9' {
        c as int - '0' as int
    } else if 'a' <= c && c <= 'f' {
        c as int - 'a' as int + 10
    } else if 'A' <= c && c <= 'F' {
        c as int - 'A' as int + 10
    } else {
        -1
    }
}

pub open spec fn is_hex(c: char) -> bool {
    hex_val(c) >= 0
}

/// A Unicode scalar value usable as a `char`.
pub open spec fn is_scalar(v: int) -> bool {
    (0 <= v < 0xD800) || (0xE000 <= v <= 0x10FFFF)
}

/// One escape sequence after the backslash: the character it denotes and
/// the remaining input.  A `\uXXXX` escape denotes the scalar with that
/// code, with a high surrogate followed by a `\uXXXX` low surrogate
/// denoting one supplementary character; lone surrogates are rejected.
pub open spec fn parse_escape(s: Seq<char>) -> Option<(char, Seq<char>)> {
    if s.len() == 0 {
        None
    } else if s[0] == '"' {
        Some(('"', s.drop_first()))
    } else if s[0] == '\\' {
        Some(('\\', s.drop_first()))
    } else if s[0] == '/' {
        Some(('/', s.drop_first()))
    } else if s[0] == 'b' {
        Some(('\u{8}', s.drop_first()))
    } else if s[0] == 'f' {
        Some(('\u{c}', s.drop_first()))
    } else if s[0] == 'n' {
        Some(('\n', s.drop_first()))
    } else if s[0] == 'r' {
        Some(('\r', s.drop_first()))
    } else if s[0] == 't' {
        Some(('\t', s.drop_first()))
    } else if s[0] == 'u' && s.len() >= 5 && is_hex(s[1]) && is_hex(s[2]) && is_hex(s[3])
        && is_hex(s[4]) {
        let h = hex_val(s[1]) * 0x1000 + hex_val(s[2]) * 0x100 + hex_val(s[3]) * 16 + hex_val(s[4]);
        if 0xD800 <= h < 0xDC00 {
            if s.len() >= 11 && s[5] == '\\' && s[6] == 'u' && is_hex(s[7]) && is_hex(s[8])
                && is_hex(s[9]) && is_hex(s[10]) {
                let l = hex_val(s[7]) * 0x1000 + hex_val(s[8]) * 0x100 + hex_val(s[9]) * 16
                    + hex_val(s[10]);
                if 0xDC00 <= l < 0xE000 {
                    Some(((0x10000 + (h - 0xD800) * 0x400 + (l - 0xDC00)) as char, s.skip(11)))
                } else {
                    None
                }
            } else {
                None
            }
        } else if 0xDC00 <= h < 0xE000 {
            None
        } else {
            Some((h as char, s.skip(5)))
        }
    } else {
        None
    }
}

proof fn lemma_parse_escape_len(s: Seq<char>)
    ensures
        match parse_escape(s) {
            Some((c, r)) => r.len() < s.len(),
            None => true,
        },
{
}

/// A string body after the opening quote: the content up to the closing
/// quote, unescaped, and the input after the closing quote.  Raw control
/// characters are a decode error.
pub open spec fn parse_string_tail(s: Seq<char>) -> Option<(Seq<char>, Seq<char>)>
    decreases s.len(),
    via parse_string_tail_decreases
{
    if s.len() == 0 {
        None
    } else if s[0] == '"' {
        Some((Seq::empty(), s.drop_first()))
    } else if s[0] == '\\' {
        match parse_escape(s.drop_first()) {
            Some((c, rest1)) => match parse_string_tail(rest1) {
                Some((content, rest)) => Some((seq![c] + content, rest)),
                None => None,
            },
            None => None,
        }
    } else if is_control(s[0]) {
        None
    } else {
        match parse_string_tail(s.drop_first()) {
            Some((content, rest)) => Some((seq![s[0]] + content, rest)),
            None => None,
        }
    }
}

#[via_fn]
proof fn parse_string_tail_decreases(s: Seq<char>) {
    if s.len() > 0 && s[0] == '\\' {
        lemma_parse_escape_len(s.drop_first());
    }
}

/// A whole string token: an opening quote, then the body.
pub open spec fn parse_string(s: Seq<char>) -> Option<(Seq<char>, Seq<char>)> {
    if s.len() > 0 && s[0] == '"' {
        parse_string_tail(s.drop_first())
    } else {
        None
    }
}

pub proof fn lemma_parse_string_tail_len(s: Seq<char>)
    ensures
        match parse_string_tail(s) {
            Some((c, r)) => r.len() < s.len(),
            None => true,
        },
    decreases s.len(),
{
    if s.len() > 0 && s[0] == '\\' {
        lemma_parse_escape_len(s.drop_first());
        match parse_escape(s.drop_first()) {
            Some((c, rest1)) => lemma_parse_string_tail_len(rest1),
            None => {},
        }
    } else if s.len() > 0 && s[0] != '"' && !is_control(s[0]) {
        lemma_parse_string_tail_len(s.drop_first());
    }
}

pub proof fn lemma_parse_string_len(s: Seq<char>)
    ensures
        match parse_string(s) {
            Some((c, r)) => r.len() < s.len(),
            None => true,
        },
{
    if s.len() > 0 && s[0] == '"' {
        lemma_parse_string_tail_len(s.drop_first());
    }
}

pub proof fn lemma_skip_ws_len(s: Seq<char>)
    ensures
        skip_ws(s).len() <= s.len(),
    decreases s.len(),
{
    if s.len() > 0 && is_ws(s[0]) {
        lemma_skip_ws_len(s.drop_first());
    }
}

// ---------------------------------------------------------------------------
// Numbers.
// ---------------------------------------------------------------------------
/// The longest digit prefix and the rest.
pub open spec fn take_digits(s: Seq<char>) -> (Seq<char>, Seq<char>)
    decreases s.len(),
{
    if s.len() > 0 && is_digit(s[0]) {
        let (d, r) = take_digits(s.drop_first());
        (seq![s[0]] + d, r)
    } else {
        (Seq::empty(), s)
    }
}

pub open spec fn all_digits(t: Seq<char>) -> bool {
    forall|i: int| 0 <= i < t.len() ==> is_digit(#[trigger] t[i])
}

/// The numeric value of a digit sequence.
pub open spec fn digits_val(t: Seq<char>) -> int
    decreases t.len(),
{
    if t.len() == 0 {
        0
    } else {
        digits_val(t.drop_last()) * 10 + (t.last() as int - '0' as int)
    }
}

/// An integer-shaped literal: an optional minus sign, then digits only.
pub open spec fn int_shaped(t: Seq<char>) -> bool {
    if t.len() == 0 {
        false
    } else if t[0] == '-' {
        t.len() >= 2 && all_digits(t.drop_first())
    } else {
        all_digits(t)
    }
}

/// The value of an integer-shaped literal.
pub open spec fn int_token_val(t: Seq<char>) -> int {
    if t.len() > 0 && t[0] == '-' {
        -digits_val(t.drop_first())
    } else {
        digits_val(t)
    }
}

pub open spec fn fits_i64(v: int) -> bool {
    -0x8000000000000000 <= v <= 0x7fffffffffffffff
}

/// An integer-shaped literal whose value fits a 64-bit signed integer:
/// exactly the literals decoded as `Int`.
pub open spec fn int64_shaped(t: Seq<char>) -> bool {
    int_shaped(t) && fits_i64(int_token_val(t))
}

/// The number token starting the input, per the JSON number grammar
/// (optional minus; `0` or a nonzero-led digit run; optional fraction;
/// optional exponent), and the rest of the input.
pub open spec fn number_token(s: Seq<char>) -> Option<(Seq<char>, Seq<char>)> {
    let (sign, s1) = if s.len() > 0 && s[0] == '-' {
        (seq!['-'], s.drop_first())
    } else {
        (Seq::<char>::empty(), s)
    };
    if s1.len() == 0 || !is_digit(s1[0]) {
        None
    } else {
        let (ip, s2) = if s1[0] == '0' {
            (seq!['0'], s1.drop_first())
        } else {
            take_digits(s1)
        };
        if s2.len() > 0 && s2[0] == '.' {
            let (fd, s3) = take_digits(s2.drop_first());
            if fd.len() == 0 {
                None
            } else {
                number_token_exp(sign + ip + seq!['.'] + fd, s3)
            }
        } else {
            number_token_exp(sign + ip, s2)
        }
    }
}

/// The optional exponent part, given the token so far.
pub open spec fn number_token_exp(pre: Seq<char>, s: Seq<char>) -> Option<(Seq<char>, Seq<char>)> {
    if s.len() > 0 && (s[0] == 'e' || s[0] == 'E') {
        let (es, s1) = if s.len() > 1 && (s[1] == '+' || s[1] == '-') {
            (seq![s[0], s[1]], s.skip(2))
        } else {
            (seq![s[0]], s.drop_first())
        };
        let (ed, s2) = take_digits(s1);
        if ed.len() == 0 {
            None
        } else {
            Some((pre + es + ed, s2))
        }
    } else {
        Some((pre, s))
    }
}

/// A number in value position: an integer-shaped token in the 64-bit
/// signed range is an `Int`; any other valid token is a `Float` carrying
/// the canonical text of its value, or a decode error when that value
/// overflows.
pub open spec fn parse_number(s: Seq<char>) -> Option<(ValueView, Seq<char>)> {
    match number_token(s) {
        None => None,
        Some((t, rest)) => if int64_shaped(t) {
            Some((ValueView::Int(int_token_val(t)), rest))
        } else {
            match float_canon_of(t) {
                Some(c) => Some((ValueView::Float(c), rest)),
                None => None,
            }
        },
    }
}

/// Relies on serde_json (1.x): `serde_json::from_str::<serde_json::Number>`
/// parses a JSON number literal — a pure-digit literal into an unsigned or
/// signed 64-bit integer, anything else into a 64-bit float, erring when
/// the value overflows the float range — and `ToString` prints the parsed
/// number back canonically (integers as their exact digits via `itoa`,
/// floats as their shortest round-tripping literal via `zmij`).  Printing
/// a parsed value depends on the literal's characters alone, the printed
/// text re-parses to the same value, a printed float always carries a `.`
/// or an exponent, and a printed integer here exceeds the 64-bit signed
/// range, since the literals handed in are not integer-shaped within it.
#[verifier::external_body]
pub(crate) fn canon_float(t: &str) -> (r: Option<String>)
    requires
        number_token(t@) == Some((t@, Seq::<char>::empty())),
        !int64_shaped(t@),
    ensures
        r.deep_view() == float_canon_of(t@),
        match r {
            Some(c) => float_canon_of(c@) == Some(c@) && is_float_literal(c@) && !int64_shaped(c@)
                && number_token(c@) == Some((c@, Seq::<char>::empty())),
            None => true,
        },
{
    match serde_json::from_str::<serde_json::Number>(t) {
        Ok(n) => Some(n.to_string()),
        Err(_) => None,
    }
}

/// Relies on `String`'s `FromIterator<char>` impl: collecting characters
/// yields the string of exactly those characters in order.
#[verifier::external_body]
pub(crate) fn chars_to_string(v: &Vec<char>) -> (r: String)
    ensures
        r@ == v@,
{
    v.iter().collect()
}

/// A scalar value: a string, a number, or `null`.
pub open spec fn parse_value(s: Seq<char>) -> Option<(ValueView, Seq<char>)> {
    if s.len() == 0 {
        None
    } else if s[0] == '"' {
        match parse_string(s) {
            Some((c, rest)) => Some((ValueView::Text(c), rest)),
            None => None,
        }
    } else if s[0] == 'n' {
        if s.len() >= 4 && s[1] == 'u' && s[2] == 'l' && s[3] == 'l' {
            Some((ValueView::Null, s.skip(4)))
        } else {
            None
        }
    } else if s[0] == '-' || is_digit(s[0]) {
        parse_number(s)
    } else {
        None
    }
}

/// Concatenation of character sequences is associative.
pub proof fn lemma_add_assoc(a: Seq<char>, b: Seq<char>, c: Seq<char>)
    ensures
        (a + b) + c == a + (b + c),
{
    assert((a + b) + c =~= a + (b + c));
}

pub proof fn lemma_take_digits(s: Seq<char>)
    ensures
        take_digits(s).0 + take_digits(s).1 =~= s,
        all_digits(take_digits(s).0),
        take_digits(s).1.len() <= s.len(),
        take_digits(s).1.len() > 0 ==> !is_digit(take_digits(s).1[0]),
    decreases s.len(),
{
    if s.len() > 0 && is_digit(s[0]) {
        lemma_take_digits(s.drop_first());
        let (d, r) = take_digits(s.drop_first());
        assert(take_digits(s) == (seq![s[0]] + d, r));
        lemma_add_assoc(seq![s[0]], d, r);
        assert(seq![s[0]] + (d + r) =~= s);
    }
}

pub proof fn lemma_number_token_len(s: Seq<char>)
    ensures
        match number_token(s) {
            Some((t, r)) => t + r =~= s && t.len() >= 1 && r.len() < s.len(),
            None => true,
        },
{
    let (sign, s1) = if s.len() > 0 && s[0] == '-' {
        (seq!['-'], s.drop_first())
    } else {
        (Seq::<char>::empty(), s)
    };
    assert(sign + s1 =~= s);
    if s1.len() > 0 && is_digit(s1[0]) {
        lemma_take_digits(s1);
        let (ip, s2) = if s1[0] == '0' {
            (seq!['0'], s1.drop_first())
        } else {
            take_digits(s1)
        };
        assert(ip + s2 =~= s1);
        lemma_add_assoc(sign, ip, s2);
        assert(sign + ip + s2 =~= s);
        if s2.len() > 0 && s2[0] == '.' {
            lemma_take_digits(s2.drop_first());
            let (fd, s3) = take_digits(s2.drop_first());
            if fd.len() > 0 {
                assert(fd + s3 =~= s2.drop_first());
                assert(seq!['.'] + (fd + s3) =~= s2);
                lemma_add_assoc(sign + ip, seq!['.'], fd + s3);
                lemma_add_assoc(sign + ip + seq!['.'], fd, s3);
                assert(sign + ip + seq!['.'] + fd + s3 =~= s);
                lemma_number_token_exp_len(sign + ip + seq!['.'] + fd, s3);
            }
        } else {
            lemma_number_token_exp_len(sign + ip, s2);
        }
    }
}

proof fn lemma_number_token_exp_len(pre: Seq<char>, s: Seq<char>)
    ensures
        match number_token_exp(pre, s) {
            Some((t, r)) => pre + s =~= t + r && t.len() >= pre.len() && r.len() <= s.len(),
            None => true,
        },
{
    if s.len() > 0 && (s[0] == 'e' || s[0] == 'E') {
        let (es, s1) = if s.len() > 1 && (s[1] == '+' || s[1] == '-') {
            (seq![s[0], s[1]], s.skip(2))
        } else {
            (seq![s[0]], s.drop_first())
        };
        lemma_take_digits(s1);
        let (ed, s2) = take_digits(s1);
        if ed.len() > 0 {
            assert(ed + s2 =~= s1);
            assert(es + (ed + s2) =~= s);
            lemma_add_assoc(pre, es, ed + s2);
            lemma_add_assoc(pre + es, ed, s2);
            assert(pre + s =~= (pre + es + ed) + s2);
        }
    } else {
        assert(pre + s =~= pre + s);
    }
}

pub proof fn lemma_parse_value_len(s: Seq<char>)
    ensures
        match parse_value(s) {
            Some((v, r)) => r.len() < s.len(),
            None => true,
        },
{
    lemma_parse_string_len(s);
    lemma_number_token_len(s);
}

// ---------------------------------------------------------------------------
// Arrays and objects.
// ---------------------------------------------------------------------------
/// The elements of a label array after the first element: `,"x"` repeated,
/// then `]`.
pub open spec fn label_array_rest(s: Seq<char>, acc: Seq<Seq<char>>) -> Option<
    (Seq<Seq<char>>, Seq<char>),
>
    decreases s.len(),
    via label_array_rest_decreases
{
    let s0 = skip_ws(s);
    if s0.len() == 0 {
        None
    } else if s0[0] == ']' {
        Some((acc, s0.drop_first()))
    } else if s0[0] == ',' {
        let s1 = skip_ws(s0.drop_first());
        match parse_string(s1) {
            Some((l, s2)) => label_array_rest(s2, acc.push(l)),
            None => None,
        }
    } else {
        None
    }
}

#[via_fn]
proof fn label_array_rest_decreases(s: Seq<char>, acc: Seq<Seq<char>>) {
    lemma_skip_ws_len(s);
    let s0 = skip_ws(s);
    if s0.len() > 0 && s0[0] == ',' {
        lemma_skip_ws_len(s0.drop_first());
        lemma_parse_string_len(skip_ws(s0.drop_first()));
    }
}

/// A label array: `[` then strings separated by commas.
pub open spec fn parse_label_array(s: Seq<char>) -> Option<(Seq<Seq<char>>, Seq<char>)> {
    if s.len() > 0 && s[0] == '[' {
        let s1 = skip_ws(s.drop_first());
        if s1.len() == 0 {
            None
        } else if s1[0] == ']' {
            Some((Seq::empty(), s1.drop_first()))
        } else {
            match parse_string(s1) {
                Some((l, s2)) => label_array_rest(s2, seq![l]),
                None => None,
            }
        }
    } else {
        None
    }
}

/// One `{"label":...,"value":...}` object, keys in either order, both
/// required, duplicates rejected.
pub open spec fn lv_fields(
    s: Seq<char>,
    label: Option<Seq<char>>,
    value: Option<ValueView>,
) -> Option<(LabeledValueView, Seq<char>)>
    decreases s.len(),
    via lv_fields_decreases
{
    let s0 = skip_ws(s);
    if s0.len() == 0 {
        None
    } else if s0[0] == '}' {
        match (label, value) {
            (Some(l), Some(v)) => Some((LabeledValueView { label: l, value: v }, s0.drop_first())),
            _ => None,
        }
    } else if s0[0] != ',' {
        None
    } else {
        let s1 = skip_ws(s0.drop_first());
        match parse_string(s1) {
            Some((k, s2)) => {
                let s3 = skip_ws(s2);
                if s3.len() == 0 || s3[0] != ':' {
                    None
                } else {
                    let s4 = skip_ws(s3.drop_first());
                    if k == kw_label() {
                        if label is Some {
                            None
                        } else {
                            match parse_string(s4) {
                                Some((l, s5)) => lv_fields(s5, Some(l), value),
                                None => None,
                            }
                        }
                    } else if k == kw_value() {
                        if value is Some {
                            None
                        } else {
                            match parse_value(s4) {
                                Some((v, s5)) => lv_fields(s5, label, Some(v)),
                                None => None,
                            }
                        }
                    } else {
                        None
                    }
                }
            },
            None => None,
        }
    }
}

#[via_fn]
proof fn lv_fields_decreases(s: Seq<char>, label: Option<Seq<char>>, value: Option<ValueView>) {
    lemma_skip_ws_len(s);
    let s0 = skip_ws(s);
    if s0.len() > 0 && s0[0] == ',' {
        let s1 = skip_ws(s0.drop_first());
        lemma_skip_ws_len(s0.drop_first());
        lemma_parse_string_len(s1);
        match parse_string(s1) {
            Some((k, s2)) => {
                lemma_skip_ws_len(s2);
                let s3 = skip_ws(s2);
                if s3.len() > 0 && s3[0] == ':' {
                    lemma_skip_ws_len(s3.drop_first());
                    let s4 = skip_ws(s3.drop_first());
                    lemma_parse_string_len(s4);
                    lemma_parse_value_len(s4);
                }
            },
            None => {},
        }
    }
}

/// A labelled-value object in an array: requires the opening brace, then
/// its two members.  The member loop starts with no comma before the
/// first member.
pub open spec fn parse_lv_object(s: Seq<char>) -> Option<(LabeledValueView, Seq<char>)> {
    if s.len() > 0 && s[0] == '{' {
        let s1 = skip_ws(s.drop_first());
        if s1.len() > 0 && s1[0] == '}' {
            None
        } else {
            lv_fields_first(s1)
        }
    } else {
        None
    }
}

/// The first member of a labelled-value object (no leading comma), then
/// the member loop.
pub open spec fn lv_fields_first(s: Seq<char>) -> Option<(LabeledValueView, Seq<char>)> {
    match parse_string(s) {
        Some((k, s2)) => {
            let s3 = skip_ws(s2);
            if s3.len() == 0 || s3[0] != ':' {
                None
            } else {
                let s4 = skip_ws(s3.drop_first());
                if k == kw_label() {
                    match parse_string(s4) {
                        Some((l, s5)) => lv_fields(s5, Some(l), None),
                        None => None,
                    }
                } else if k == kw_value() {
                    match parse_value(s4) {
                        Some((v, s5)) => lv_fields(s5, None, Some(v)),
                        None => None,
                    }
                } else {
                    None
                }
            }
        },
        None => None,
    }
}

pub proof fn lemma_lv_fields_len(s: Seq<char>, label: Option<Seq<char>>, value: Option<ValueView>)
    ensures
        match lv_fields(s, label, value) {
            Some((lv, r)) => r.len() <= s.len(),
            None => true,
        },
    decreases s.len(),
{
    lemma_skip_ws_len(s);
    let s0 = skip_ws(s);
    if s0.len() > 0 && s0[0] == ',' {
        let s1 = skip_ws(s0.drop_first());
        lemma_skip_ws_len(s0.drop_first());
        lemma_parse_string_len(s1);
        match parse_string(s1) {
            Some((k, s2)) => {
                lemma_skip_ws_len(s2);
                let s3 = skip_ws(s2);
                if s3.len() > 0 && s3[0] == ':' {
                    lemma_skip_ws_len(s3.drop_first());
                    let s4 = skip_ws(s3.drop_first());
                    lemma_parse_string_len(s4);
                    lemma_parse_value_len(s4);
                    match parse_string(s4) {
                        Some((l, s5)) => {
                            lemma_lv_fields_len(s5, Some(l), value);
                        },
                        None => {},
                    }
                    match parse_value(s4) {
                        Some((v, s5)) => {
                            lemma_lv_fields_len(s5, label, Some(v));
                        },
                        None => {},
                    }
                }
            },
            None => {},
        }
    }
}

pub proof fn lemma_parse_lv_object_len(s: Seq<char>)
    ensures
        match parse_lv_object(s) {
            Some((lv, r)) => r.len() < s.len(),
            None => true,
        },
{
    if s.len() > 0 && s[0] == '{' {
        lemma_skip_ws_len(s.drop_first());
        let s1 = skip_ws(s.drop_first());
        lemma_parse_string_len(s1);
        match parse_string(s1) {
            Some((k, s2)) => {
                lemma_skip_ws_len(s2);
                let s3 = skip_ws(s2);
                if s3.len() > 0 && s3[0] == ':' {
                    lemma_skip_ws_len(s3.drop_first());
                    let s4 = skip_ws(s3.drop_first());
                    lemma_parse_string_len(s4);
                    lemma_parse_value_len(s4);
                    match parse_string(s4) {
                        Some((l, s5)) => {
                            lemma_lv_fields_len(s5, Some(l), None);
                        },
                        None => {},
                    }
                    match parse_value(s4) {
                        Some((v, s5)) => {
                            lemma_lv_fields_len(s5, None, Some(v));
                        },
                        None => {},
                    }
                }
            },
            None => {},
        }
    }
}

/// The elements of a labelled-value array after the first element.
pub open spec fn lv_array_rest(s: Seq<char>, acc: Seq<LabeledValueView>) -> Option<
    (Seq<LabeledValueView>, Seq<char>),
>
    decreases s.len(),
    via lv_array_rest_decreases
{
    let s0 = skip_ws(s);
    if s0.len() == 0 {
        None
    } else if s0[0] == ']' {
        Some((acc, s0.drop_first()))
    } else if s0[0] == ',' {
        let s1 = skip_ws(s0.drop_first());
        match parse_lv_object(s1) {
            Some((lv, s2)) => lv_array_rest(s2, acc.push(lv)),
            None => None,
        }
    } else {
        None
    }
}

#[via_fn]
proof fn lv_array_rest_decreases(s: Seq<char>, acc: Seq<LabeledValueView>) {
    lemma_skip_ws_len(s);
    let s0 = skip_ws(s);
    if s0.len() > 0 && s0[0] == ',' {
        lemma_skip_ws_len(s0.drop_first());
        lemma_parse_lv_object_len(skip_ws(s0.drop_first()));
    }
}

/// A labelled-value array: `[` then objects separated by commas.
pub open spec fn parse_lv_array(s: Seq<char>) -> Option<(Seq<LabeledValueView>, Seq<char>)> {
    if s.len() > 0 && s[0] == '[' {
        let s1 = skip_ws(s.drop_first());
        if s1.len() == 0 {
            None
        } else if s1[0] == ']' {
            Some((Seq::empty(), s1.drop_first()))
        } else {
            match parse_lv_object(s1) {
                Some((lv, s2)) => lv_array_rest(s2, seq![lv]),
                None => None,
            }
        }
    } else {
        None
    }
}

/// A status in value position: one of the three status names as a string.
pub open spec fn parse_status(s: Seq<char>) -> Option<(Status, Seq<char>)> {
    match parse_string(s) {
        Some((t, rest)) => if t == status_kw(Status::OK) {
            Some((Status::OK, rest))
        } else if t == status_kw(Status::InvalidRequest) {
            Some((Status::InvalidRequest, rest))
        } else if t == status_kw(Status::NotFound) {
            Some((Status::NotFound, rest))
        } else {
            None
        },
        None => None,
    }
}

pub proof fn lemma_label_array_rest_len(s: Seq<char>, acc: Seq<Seq<char>>)
    ensures
        match label_array_rest(s, acc) {
            Some((p, r)) => r.len() < s.len(),
            None => true,
        },
    decreases s.len(),
{
    lemma_skip_ws_len(s);
    let s0 = skip_ws(s);
    if s0.len() > 0 && s0[0] == ',' {
        lemma_skip_ws_len(s0.drop_first());
        let s1 = skip_ws(s0.drop_first());
        lemma_parse_string_len(s1);
        match parse_string(s1) {
            Some((l, s2)) => {
                lemma_label_array_rest_len(s2, acc.push(l));
            },
            None => {},
        }
    }
}

pub proof fn lemma_parse_label_array_len(s: Seq<char>)
    ensures
        match parse_label_array(s) {
            Some((p, r)) => r.len() < s.len(),
            None => true,
        },
{
    if s.len() > 0 && s[0] == '[' {
        lemma_skip_ws_len(s.drop_first());
        let s1 = skip_ws(s.drop_first());
        lemma_parse_string_len(s1);
        match parse_string(s1) {
            Some((l, s2)) => {
                lemma_label_array_rest_len(s2, seq![l]);
            },
            None => {},
        }
    }
}

pub proof fn lemma_lv_array_rest_len(s: Seq<char>, acc: Seq<LabeledValueView>)
    ensures
        match lv_array_rest(s, acc) {
            Some((p, r)) => r.len() < s.len(),
            None => true,
        },
    decreases s.len(),
{
    lemma_skip_ws_len(s);
    let s0 = skip_ws(s);
    if s0.len() > 0 && s0[0] == ',' {
        lemma_skip_ws_len(s0.drop_first());
        let s1 = skip_ws(s0.drop_first());
        lemma_parse_lv_object_len(s1);
        match parse_lv_object(s1) {
            Some((lv, s2)) => {
                lemma_lv_array_rest_len(s2, acc.push(lv));
            },
            None => {},
        }
    }
}

pub proof fn lemma_parse_lv_array_len(s: Seq<char>)
    ensures
        match parse_lv_array(s) {
            Some((p, r)) => r.len() < s.len(),
            None => true,
        },
{
    if s.len() > 0 && s[0] == '[' {
        lemma_skip_ws_len(s.drop_first());
        let s1 = skip_ws(s.drop_first());
        lemma_parse_lv_object_len(s1);
        match parse_lv_object(s1) {
            Some((lv, s2)) => {
                lemma_lv_array_rest_len(s2, seq![lv]);
            },
            None => {},
        }
    }
}

/// A tag in value position: a string, or `null` for an absent tag.
pub open spec fn parse_tag_value(s: Seq<char>) -> Option<(Option<Seq<char>>, Seq<char>)> {
    if s.len() > 0 && s[0] == 'n' {
        if s.len() >= 4 && s[1] == 'u' && s[2] == 'l' && s[3] == 'l' {
            Some((None, s.skip(4)))
        } else {
            None
        }
    } else {
        match parse_string(s) {
            Some((t, r)) => Some((Some(t), r)),
            None => None,
        }
    }
}

pub proof fn lemma_parse_tag_value_len(s: Seq<char>)
    ensures
        match parse_tag_value(s) {
            Some((t, r)) => r.len() < s.len(),
            None => true,
        },
{
    lemma_parse_string_len(s);
}

pub proof fn lemma_parse_status_len(s: Seq<char>)
    ensures
        match parse_status(s) {
            Some((t, r)) => r.len() < s.len(),
            None => true,
        },
{
    lemma_parse_string_len(s);
}

/// One member key and its `:`, shared by all the member loops: the key
/// and the input at the start of the member's value.
pub open spec fn parse_member_key(s: Seq<char>) -> Option<(Seq<char>, Seq<char>)> {
    let s0 = skip_ws(s);
    if s0.len() == 0 || s0[0] != ',' {
        None
    } else {
        let s1 = skip_ws(s0.drop_first());
        match parse_string(s1) {
            Some((k, s2)) => {
                let s3 = skip_ws(s2);
                if s3.len() == 0 || s3[0] != ':' {
                    None
                } else {
                    Some((k, skip_ws(s3.drop_first())))
                }
            },
            None => None,
        }
    }
}

pub proof fn lemma_parse_member_key_len(s: Seq<char>)
    ensures
        match parse_member_key(s) {
            Some((k, r)) => r.len() < s.len(),
            None => true,
        },
{
    lemma_skip_ws_len(s);
    let s0 = skip_ws(s);
    if s0.len() > 0 && s0[0] == ',' {
        lemma_skip_ws_len(s0.drop_first());
        let s1 = skip_ws(s0.drop_first());
        lemma_parse_string_len(s1);
        match parse_string(s1) {
            Some((k, s2)) => {
                lemma_skip_ws_len(s2);
                let s3 = skip_ws(s2);
                if s3.len() > 0 && s3[0] == ':' {
                    lemma_skip_ws_len(s3.drop_first());
                }
            },
            None => {},
        }
    }
}

/// The members of a get request after `"command"`: an optional `tag`, a
/// required `params` label array, duplicates and unknown keys rejected,
/// then the closing brace.
pub open spec fn get_request_fields(
    s: Seq<char>,
    tag: Option<Option<Seq<char>>>,
    params: Option<Seq<Seq<char>>>,
) -> Option<(MessageView, Seq<char>)>
    decreases s.len(),
    via get_request_fields_decreases
{
    let s0 = skip_ws(s);
    if s0.len() > 0 && s0[0] == '}' {
        match params {
            Some(p) => Some(
                (
                    MessageView::GetDataRequest(
                        GetDataRequestView {
                            tag: match tag {
                                Some(t) => t,
                                None => None,
                            },
                            params: p,
                        },
                    ),
                    s0.drop_first(),
                ),
            ),
            None => None,
        }
    } else {
        match parse_member_key(s) {
            Some((k, s4)) => if k == kw_tag() {
                if tag is Some {
                    None
                } else {
                    match parse_tag_value(s4) {
                        Some((t, s5)) => get_request_fields(s5, Some(t), params),
                        None => None,
                    }
                }
            } else if k == kw_params() {
                if params is Some {
                    None
                } else {
                    match parse_label_array(s4) {
                        Some((p, s5)) => get_request_fields(s5, tag, Some(p)),
                        None => None,
                    }
                }
            } else {
                None
            },
            None => None,
        }
    }
}

#[via_fn]
proof fn get_request_fields_decreases(
    s: Seq<char>,
    tag: Option<Option<Seq<char>>>,
    params: Option<Seq<Seq<char>>>,
) {
    lemma_skip_ws_len(s);
    lemma_parse_member_key_len(s);
    match parse_member_key(s) {
        Some((k, s4)) => {
            lemma_parse_tag_value_len(s4);
            lemma_parse_label_array_len(s4);
        },
        None => {},
    }
}

/// The members of a set request after `"command"`.
pub open spec fn set_request_fields(
    s: Seq<char>,
    tag: Option<Option<Seq<char>>>,
    params: Option<Seq<LabeledValueView>>,
) -> Option<(MessageView, Seq<char>)>
    decreases s.len(),
    via set_request_fields_decreases
{
    let s0 = skip_ws(s);
    if s0.len() > 0 && s0[0] == '}' {
        match params {
            Some(p) => Some(
                (
                    MessageView::SetDataRequest(
                        SetDataRequestView {
                            tag: match tag {
                                Some(t) => t,
                                None => None,
                            },
                            params: p,
                        },
                    ),
                    s0.drop_first(),
                ),
            ),
            None => None,
        }
    } else {
        match parse_member_key(s) {
            Some((k, s4)) => if k == kw_tag() {
                if tag is Some {
                    None
                } else {
                    match parse_tag_value(s4) {
                        Some((t, s5)) => set_request_fields(s5, Some(t), params),
                        None => None,
                    }
                }
            } else if k == kw_params() {
                if params is Some {
                    None
                } else {
                    match parse_lv_array(s4) {
                        Some((p, s5)) => set_request_fields(s5, tag, Some(p)),
                        None => None,
                    }
                }
            } else {
                None
            },
            None => None,
        }
    }
}

#[via_fn]
proof fn set_request_fields_decreases(
    s: Seq<char>,
    tag: Option<Option<Seq<char>>>,
    params: Option<Seq<LabeledValueView>>,
) {
    lemma_skip_ws_len(s);
    lemma_parse_member_key_len(s);
    match parse_member_key(s) {
        Some((k, s4)) => {
            lemma_parse_tag_value_len(s4);
            lemma_parse_lv_array_len(s4);
        },
        None => {},
    }
}

/// The members of a get response after `"command"`: optional `tag`,
/// required `status` and `results`.
pub open spec fn get_response_fields(
    s: Seq<char>,
    tag: Option<Option<Seq<char>>>,
    status: Option<Status>,
    results: Option<Seq<LabeledValueView>>,
) -> Option<(MessageView, Seq<char>)>
    decreases s.len(),
    via get_response_fields_decreases
{
    let s0 = skip_ws(s);
    if s0.len() > 0 && s0[0] == '}' {
        match (status, results) {
            (Some(st), Some(rs)) => Some(
                (
                    MessageView::GetDataResponse(
                        GetDataResponseView {
                            tag: match tag {
                                Some(t) => t,
                                None => None,
                            },
                            status: st,
                            results: rs,
                        },
                    ),
                    s0.drop_first(),
                ),
            ),
            _ => None,
        }
    } else {
        match parse_member_key(s) {
            Some((k, s4)) => if k == kw_tag() {
                if tag is Some {
                    None
                } else {
                    match parse_tag_value(s4) {
                        Some((t, s5)) => get_response_fields(s5, Some(t), status, results),
                        None => None,
                    }
                }
            } else if k == kw_status() {
                if status is Some {
                    None
                } else {
                    match parse_status(s4) {
                        Some((st, s5)) => get_response_fields(s5, tag, Some(st), results),
                        None => None,
                    }
                }
            } else if k == kw_results() {
                if results is Some {
                    None
                } else {
                    match parse_lv_array(s4) {
                        Some((rs, s5)) => get_response_fields(s5, tag, status, Some(rs)),
                        None => None,
                    }
                }
            } else {
                None
            },
            None => None,
        }
    }
}

#[via_fn]
proof fn get_response_fields_decreases(
    s: Seq<char>,
    tag: Option<Option<Seq<char>>>,
    status: Option<Status>,
    results: Option<Seq<LabeledValueView>>,
) {
    lemma_skip_ws_len(s);
    lemma_parse_member_key_len(s);
    match parse_member_key(s) {
        Some((k, s4)) => {
            lemma_parse_tag_value_len(s4);
            lemma_parse_status_len(s4);
            lemma_parse_lv_array_len(s4);
        },
        None => {},
    }
}

/// The members of a set response after `"command"`: optional `tag`,
/// required `status`.
pub open spec fn set_response_fields(
    s: Seq<char>,
    tag: Option<Option<Seq<char>>>,
    status: Option<Status>,
) -> Option<(MessageView, Seq<char>)>
    decreases s.len(),
    via set_response_fields_decreases
{
    let s0 = skip_ws(s);
    if s0.len() > 0 && s0[0] == '}' {
        match status {
            Some(st) => Some(
                (
                    MessageView::SetDataResponse(
                        SetDataResponseView {
                            tag: match tag {
                                Some(t) => t,
                                None => None,
                            },
                            status: st,
                        },
                    ),
                    s0.drop_first(),
                ),
            ),
            None => None,
        }
    } else {
        match parse_member_key(s) {
            Some((k, s4)) => if k == kw_tag() {
                if tag is Some {
                    None
                } else {
                    match parse_tag_value(s4) {
                        Some((t, s5)) => set_response_fields(s5, Some(t), status),
                        None => None,
                    }
                }
            } else if k == kw_status() {
                if status is Some {
                    None
                } else {
                    match parse_status(s4) {
                        Some((st, s5)) => set_response_fields(s5, tag, Some(st)),
                        None => None,
                    }
                }
            } else {
                None
            },
            None => None,
        }
    }
}

#[via_fn]
proof fn set_response_fields_decreases(
    s: Seq<char>,
    tag: Option<Option<Seq<char>>>,
    status: Option<Status>,
) {
    lemma_skip_ws_len(s);
    lemma_parse_member_key_len(s);
    match parse_member_key(s) {
        Some((k, s4)) => {
            lemma_parse_tag_value_len(s4);
            lemma_parse_status_len(s4);
        },
        None => {},
    }
}

/// The message denoted by one line of text, or `None` when the line is
/// not a well-formed encoded message.  The object must open with the
/// `command` member naming the kind; the remaining members may come in
/// any order, each at most once, required ones present; only trailing
/// whitespace may follow the closing brace.
pub open spec fn decode_spec(s: Seq<char>) -> Option<MessageView> {
    let s0 = skip_ws(s);
    if s0.len() == 0 || s0[0] != '{' {
        None
    } else {
        let s1 = skip_ws(s0.drop_first());
        match parse_string(s1) {
            Some((k, s2)) => if k != kw_command() {
                None
            } else {
                let s3 = skip_ws(s2);
                if s3.len() == 0 || s3[0] != ':' {
                    None
                } else {
                    let s4 = skip_ws(s3.drop_first());
                    match parse_string(s4) {
                        Some((cmd, s5)) => {
                            let parsed = if cmd == kw_get_request() {
                                get_request_fields(s5, None, None)
                            } else if cmd == kw_get_response() {
                                get_response_fields(s5, None, None, None)
                            } else if cmd == kw_set_request() {
                                set_request_fields(s5, None, None)
                            } else if cmd == kw_set_response() {
                                set_response_fields(s5, None, None)
                            } else {
                                None
                            };
                            match parsed {
                                Some((m, rest)) => if skip_ws(rest).len() == 0 {
                                    Some(m)
                                } else {
                                    None
                                },
                                None => None,
                            }
                        },
                        None => None,
                    }
                }
            },
            None => None,
        }
    }
}


// ---------------------------------------------------------------------------
// Facts about number tokens, shared by the decoder and the codec laws.
// ---------------------------------------------------------------------------
/// Ten to the `n`.
pub open spec fn pow10(n: nat) -> int
    decreases n,
{
    if n == 0 {
        1
    } else {
        10 * pow10((n - 1) as nat)
    }
}

pub proof fn lemma_digits_val_lower(d: Seq<char>)
    requires
        all_digits(d),
        d.len() > 0,
        d[0] != '0',
    ensures
        digits_val(d) >= pow10((d.len() - 1) as nat),
    decreases d.len(),
{
    if d.len() > 1 {
        assert(d.drop_last()[0] == d[0]);
        assert(is_digit(d.drop_last()[0]));
        lemma_digits_val_lower(d.drop_last());
        assert(is_digit(d.last()));
        assert(48 <= d.last() as int <= 57);
        assert(digits_val(d.drop_last()) >= pow10((d.len() - 2) as nat));
        assert(pow10((d.len() - 1) as nat) == 10 * pow10((d.len() - 2) as nat));
        assert(digits_val(d) == digits_val(d.drop_last()) * 10 + (d.last() as int - 48));
    } else {
        assert(is_digit(d[0]));
        assert(49 <= d[0] as int <= 57);
        assert(digits_val(d) == digits_val(d.drop_last()) * 10 + (d.last() as int - 48));
        assert(d.drop_last().len() == 0);
    }
}

/// Taking digits off `d + rest` takes exactly `d` when `rest` does not
/// begin with a digit.
pub proof fn lemma_take_digits_ext(d: Seq<char>, rest: Seq<char>)
    requires
        all_digits(d),
        rest.len() > 0 ==> !is_digit(rest[0]),
    ensures
        take_digits(d + rest) == (d, rest),
    decreases d.len(),
{
    if d.len() == 0 {
        assert(d + rest =~= rest);
    } else {
        lemma_take_digits_ext(d.drop_first(), rest);
        assert((d + rest)[0] == d[0]);
        assert(is_digit(d[0]));
        assert((d + rest).drop_first() =~= d.drop_first() + rest);
        assert(seq![d[0]] + d.drop_first() =~= d);
    }
}

/// A well-shaped exponent head: `e` or `E`, optionally followed by a sign.
pub open spec fn exp_head_ok(eh: Seq<char>) -> bool {
    ||| eh == seq!['e']
    ||| eh == seq!['E']
    ||| eh == seq!['e', '+']
    ||| eh == seq!['e', '-']
    ||| eh == seq!['E', '+']
    ||| eh == seq!['E', '-']
}

/// Parsing a number off well-shaped parts followed by a non-extending
/// boundary consumes exactly the parts.
pub proof fn lemma_number_token_compose(
    sign: Seq<char>,
    ip: Seq<char>,
    fr: Seq<char>,
    eh: Seq<char>,
    ed: Seq<char>,
    rest: Seq<char>,
)
    requires
        sign == Seq::<char>::empty() || sign == seq!['-'],
        ip.len() > 0,
        all_digits(ip),
        ip[0] == '0' ==> ip.len() == 1,
        fr == Seq::<char>::empty() || (fr.len() >= 2 && fr[0] == '.' && all_digits(
            fr.drop_first(),
        )),
        (eh == Seq::<char>::empty() && ed == Seq::<char>::empty()) || (exp_head_ok(eh)
            && ed.len() > 0 && all_digits(ed)),
        rest.len() > 0 ==> !is_digit(rest[0]),
        rest.len() > 0 && fr == Seq::<char>::empty() && eh == Seq::<char>::empty() ==> rest[0]
            != '.',
        rest.len() > 0 && eh == Seq::<char>::empty() ==> rest[0] != 'e' && rest[0] != 'E',
    ensures
        number_token(sign + ip + fr + eh + ed + rest) == Some(
            (sign + ip + fr + eh + ed, rest),
        ),
{
    let tail1 = fr + (eh + (ed + rest));
    let s = sign + ip + fr + eh + ed + rest;
    lemma_add_assoc(sign + ip + fr + eh, ed, rest);
    lemma_add_assoc(sign + ip + fr, eh, ed + rest);
    lemma_add_assoc(sign + ip, fr, eh + (ed + rest));
    lemma_add_assoc(sign, ip, tail1);
    assert(s == sign + (ip + tail1));
    assert(tail1.len() > 0 ==> !is_digit(tail1[0])) by {
        if fr.len() > 0 {
            assert(tail1[0] == fr[0]);
        } else if eh.len() > 0 {
            assert(tail1[0] == eh[0]);
        } else if ed.len() > 0 {
        } else if rest.len() > 0 {
            assert(tail1 =~= rest);
        }
    }
    // the sign branch leaves ip + tail1
    let s1 = ip + tail1;
    assert(s1[0] == ip[0] && is_digit(s1[0]));
    if sign == seq!['-'] {
        assert(s[0] == '-');
        assert(s.drop_first() =~= s1);
    } else {
        assert(s =~= s1);
        assert(s[0] != '-');
    }
    // the integer part leaves tail1
    if ip[0] == '0' {
        assert(ip =~= seq!['0']);
        assert(s1.drop_first() =~= tail1);
    } else {
        lemma_take_digits_ext(ip, tail1);
    }
    let token = sign + ip + fr + eh + ed;
    if fr.len() > 0 {
        lemma_number_token_frac(sign, ip, fr, eh, ed, rest);
    } else {
        assert(tail1 =~= eh + (ed + rest));
        assert(tail1.len() > 0 ==> tail1[0] != '.') by {
            if eh.len() > 0 {
                assert(tail1[0] == eh[0]);
            } else if rest.len() > 0 {
                assert(tail1 =~= rest);
            }
        }
        lemma_number_token_exp_compose(sign + ip, eh, ed, rest);
        lemma_add_assoc(sign + ip, eh, ed);
        assert(sign + ip + fr =~= sign + ip);
        assert(token == sign + ip + eh + ed);
    }
}

proof fn lemma_number_token_frac(
    sign: Seq<char>,
    ip: Seq<char>,
    fr: Seq<char>,
    eh: Seq<char>,
    ed: Seq<char>,
    rest: Seq<char>,
)
    requires
        sign == Seq::<char>::empty() || sign == seq!['-'],
        ip.len() > 0,
        all_digits(ip),
        fr.len() >= 2,
        fr[0] == '.',
        all_digits(fr.drop_first()),
        (eh == Seq::<char>::empty() && ed == Seq::<char>::empty()) || (exp_head_ok(eh)
            && ed.len() > 0 && all_digits(ed)),
        rest.len() > 0 ==> !is_digit(rest[0]),
        rest.len() > 0 && eh == Seq::<char>::empty() ==> rest[0] != 'e' && rest[0] != 'E',
        number_token(sign + ip + fr + eh + ed + rest) == number_token_frac_state(
            sign,
            ip,
            fr + (eh + (ed + rest)),
        ),
    ensures
        number_token(sign + ip + fr + eh + ed + rest) == Some(
            (sign + ip + fr + eh + ed, rest),
        ),
{
    let tail1 = fr + (eh + (ed + rest));
    let fd = fr.drop_first();
    let tail2 = eh + (ed + rest);
    assert(tail1[0] == '.');
    assert(tail1.drop_first() =~= fd + tail2);
    assert(tail2.len() > 0 ==> !is_digit(tail2[0])) by {
        if eh.len() > 0 {
            assert(tail2[0] == eh[0]);
        } else if rest.len() > 0 {
            assert(tail2 =~= rest);
        }
    }
    lemma_take_digits_ext(fd, tail2);
    let pre = sign + ip + seq!['.'] + fd;
    lemma_number_token_exp_compose(pre, eh, ed, rest);
    lemma_add_assoc(pre, eh, ed);
    assert(pre =~= sign + ip + fr);
    assert(pre + (eh + ed) == (sign + ip + fr) + (eh + ed));
    lemma_add_assoc(sign + ip + fr, eh, ed);
}

/// The state of the number parser after sign and integer part, when a
/// fraction follows: used to hand one unfolding step to a helper proof.
pub open spec fn number_token_frac_state(sign: Seq<char>, ip: Seq<char>, tail1: Seq<char>) -> Option<
    (Seq<char>, Seq<char>),
> {
    if tail1.len() > 0 && tail1[0] == '.' {
        let (fd, s3) = take_digits(tail1.drop_first());
        if fd.len() == 0 {
            None
        } else {
            number_token_exp(sign + ip + seq!['.'] + fd, s3)
        }
    } else {
        number_token_exp(sign + ip, tail1)
    }
}

proof fn lemma_number_token_exp_compose(pre: Seq<char>, eh: Seq<char>, ed: Seq<char>, rest: Seq<char>)
    requires
        (eh == Seq::<char>::empty() && ed == Seq::<char>::empty()) || (exp_head_ok(eh)
            && ed.len() > 0 && all_digits(ed)),
        rest.len() > 0 ==> !is_digit(rest[0]),
        rest.len() > 0 && eh == Seq::<char>::empty() ==> rest[0] != 'e' && rest[0] != 'E',
    ensures
        number_token_exp(pre, eh + (ed + rest)) == Some((pre + eh + ed, rest)),
{
    let s = eh + (ed + rest);
    if eh.len() == 0 {
        assert(ed.len() == 0);
        assert(s =~= rest);
        assert(number_token_exp(pre, s) == Some((pre, s)));
        assert(pre + eh + ed =~= pre);
    } else {
        assert(s[0] == eh[0]);
        assert(s[0] == 'e' || s[0] == 'E');
        if eh.len() == 2 {
            assert(s[1] == eh[1]);
            assert(s[1] == '+' || s[1] == '-');
            assert(s.skip(2) =~= ed + rest);
            lemma_take_digits_ext(ed, rest);
            assert(seq![s[0], s[1]] =~= eh);
        } else {
            assert(eh.len() == 1);
            assert(s.len() > 1 ==> s[1] == ed[0]);
            assert(s.len() > 1 ==> is_digit(s[1]));
            assert(s.drop_first() =~= ed + rest);
            lemma_take_digits_ext(ed, rest);
            assert(seq![s[0]] =~= eh);
        }
        lemma_add_assoc(pre, eh, ed);
    }
}

pub proof fn lemma_pow10_pos(n: nat)
    ensures
        pow10(n) >= 1,
    decreases n,
{
    if n > 0 {
        lemma_pow10_pos((n - 1) as nat);
    }
}

pub proof fn lemma_pow10_mono(a: nat, b: nat)
    requires
        a <= b,
    ensures
        pow10(a) <= pow10(b),
    decreases b,
{
    if a < b {
        lemma_pow10_mono(a, (b - 1) as nat);
        lemma_pow10_pos((b - 1) as nat);
        assert(pow10(b) == 10 * pow10((b - 1) as nat));
    }
}


/// A float payload the library considers well formed: canonical literal
/// text, exactly as the codec produces it.
pub open spec fn float_wf(t: Seq<char>) -> bool {
    &&& float_canon_of(t) == Some(t)
    &&& is_float_literal(t)
    &&& !int64_shaped(t)
    &&& number_token(t) == Some((t, Seq::<char>::empty()))
}

/// A value the library can construct from the wire: any integer, text or
/// absent value, and floats carrying canonical literal text.
pub open spec fn value_wf(v: ValueView) -> bool {
    match v {
        ValueView::Int(i) => fits_i64(i),
        ValueView::Float(t) => float_wf(t),
        ValueView::Text(s) => true,
        ValueView::Null => true,
    }
}

pub open spec fn lv_wf(lv: LabeledValueView) -> bool {
    value_wf(lv.value)
}

/// A message the library can construct: every value it carries is well
/// formed.
pub open spec fn message_wf(m: MessageView) -> bool {
    match m {
        MessageView::GetDataRequest(r) => true,
        MessageView::GetDataResponse(r) => forall|i: int|
            0 <= i < r.results.len() ==> lv_wf(#[trigger] r.results[i]),
        MessageView::SetDataRequest(r) => forall|i: int|
            0 <= i < r.params.len() ==> lv_wf(#[trigger] r.params[i]),
        MessageView::SetDataResponse(r) => true,
    }
}


} // verus!

