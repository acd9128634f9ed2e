//! The executable decoder: one pass over a line's characters, returning
//! exactly what the grammar in [`crate::codec`] denotes.
use vstd::prelude::*;

use crate::codec::{
    all_digits, canon_float, chars_to_string, decode_spec, digits_val, exp_head_ok, fits_i64,
    get_request_fields, get_response_fields, hex_val, int64_shaped, int_shaped, int_token_val,
    is_digit, is_hex, is_scalar, is_ws, label_array_rest, lemma_add_assoc, lemma_digits_val_lower,
    lemma_number_token_compose, lemma_number_token_len, lemma_parse_string_len,
    lemma_parse_value_len, lemma_pow10_mono, lemma_take_digits, lv_array_rest, lv_fields,
    lv_wf, message_wf, number_token, number_token_exp, parse_escape, parse_label_array,
    parse_lv_array, value_wf,
    parse_lv_object, parse_member_key, parse_number, parse_status, parse_string,
    parse_string_tail, parse_tag_value, parse_value, pow10, set_request_fields,
    set_response_fields, skip_ws, take_digits,
};
use crate::message::{
    GetDataRequest, GetDataResponse, LabeledValue, Message, SetDataRequest, SetDataResponse,
    Status, Value,
};

verus! {

/// A line that is not a well-formed encoded message.
#[derive(Debug, PartialEq, Eq, Structural, Clone, Copy)]
pub struct DecodeError;

pub proof fn lemma_char_code(c: char, x: u32)
    requires
        c as u32 == x,
        is_scalar(x as int),
    ensures
        (x as int) as char == c,
{
    assert((x as int) as char == c);
}

proof fn lemma_skip_step(s: Seq<char>, i: int)
    requires
        0 <= i < s.len(),
    ensures
        s.skip(i).len() == s.len() - i,
        s.skip(i)[0] == s[i],
        s.skip(i).drop_first() =~= s.skip(i + 1),
{
}

/// Relies on `char::from_u32`: `Some` exactly for Unicode scalar values,
/// returning the character with that code.
#[verifier::external_body]
fn char_of_u32(x: u32) -> (r: Option<char>)
    ensures
        r is Some <==> is_scalar(x as int),
        match r {
            Some(c) => c as u32 == x,
            None => true,
        },
{
    char::from_u32(x)
}

fn hex_val_exec(c: char) -> (r: Option<u8>)
    ensures
        match r {
            Some(v) => is_hex(c) && v as int == hex_val(c) && v < 16,
            None => !is_hex(c),
        },
{
    let x = c as u32;
    if 48 <= x && x <= 57 {
        Some((x - 48) as u8)
    } else if 97 <= x && x <= 102 {
        Some((x - 97 + 10) as u8)
    } else if 65 <= x && x <= 70 {
        Some((x - 65 + 10) as u8)
    } else {
        None
    }
}

fn is_ws_exec(c: char) -> (r: bool)
    ensures
        r == is_ws(c),
{
    c == ' ' || c == '\t' || c == '\n' || c == '\r'
}

fn is_digit_exec(c: char) -> (r: bool)
    ensures
        r == is_digit(c),
{
    '0' <= c && c <= '9'
}

/// The index after the leading whitespace run at `i`.
fn skip_ws_exec(s: &Vec<char>, i: usize) -> (j: usize)
    requires
        i <= s@.len(),
    ensures
        i <= j <= s@.len(),
        s@.skip(j as int) == skip_ws(s@.skip(i as int)),
{
    let mut j = i;
    loop
        invariant
            i <= j <= s@.len(),
            skip_ws(s@.skip(i as int)) == skip_ws(s@.skip(j as int)),
        decreases s@.len() - j,
    {
        if j < s.len() && is_ws_exec(s[j]) {
            proof {
                lemma_skip_step(s@, j as int);
            }
            j = j + 1;
        } else {
            proof {
                if j < s@.len() {
                    lemma_skip_step(s@, j as int);
                }
                assert(skip_ws(s@.skip(j as int)) == s@.skip(j as int));
            }
            return j;
        }
    }
}

/// One escape sequence starting after the backslash at `i`.
fn parse_escape_exec(s: &Vec<char>, i: usize) -> (r: Option<(char, usize)>)
    requires
        i <= s@.len(),
    ensures
        match r {
            Some((c, j)) => i < j <= s@.len() && parse_escape(s@.skip(i as int)) == Some(
                (c, s@.skip(j as int)),
            ),
            None => parse_escape(s@.skip(i as int)) is None,
        },
{
    let ghost t = s@.skip(i as int);
    if i >= s.len() {
        return None;
    }
    proof {
        lemma_skip_step(s@, i as int);
    }
    let c0 = s[i];
    if c0 == '"' || c0 == '\\' || c0 == '/' {
        return Some((c0, i + 1));
    }
    if c0 == 'b' {
        return Some(('\u{8}', i + 1));
    }
    if c0 == 'f' {
        return Some(('\u{c}', i + 1));
    }
    if c0 == 'n' {
        return Some(('\n', i + 1));
    }
    if c0 == 'r' {
        return Some(('\r', i + 1));
    }
    if c0 == 't' {
        return Some(('\t', i + 1));
    }
    if c0 != 'u' {
        return None;
    }
    if s.len() - i < 5 {
        proof {
            assert(t.len() < 5);
        }
        return None;
    }
    proof {
        assert(t[1] == s@[i + 1]);
        assert(t[2] == s@[i + 2]);
        assert(t[3] == s@[i + 3]);
        assert(t[4] == s@[i + 4]);
    }
    let h1 = hex_val_exec(s[i + 1]);
    let h2 = hex_val_exec(s[i + 2]);
    let h3 = hex_val_exec(s[i + 3]);
    let h4 = hex_val_exec(s[i + 4]);
    match (h1, h2, h3, h4) {
        (Some(a), Some(b), Some(c), Some(d)) => {
            let h: u32 = (a as u32) * 0x1000 + (b as u32) * 0x100 + (c as u32) * 16 + (d as u32);
            if 0xD800 <= h && h < 0xDC00 {
                // expect a low surrogate escape to follow
                if s.len() - i < 11 {
                    proof {
                        assert(t.len() < 11);
                    }
                    return None;
                }
                proof {
                    assert(t[5] == s@[i + 5]);
                    assert(t[6] == s@[i + 6]);
                    assert(t[7] == s@[i + 7]);
                    assert(t[8] == s@[i + 8]);
                    assert(t[9] == s@[i + 9]);
                    assert(t[10] == s@[i + 10]);
                }
                if !(s[i + 5] == '\\' && s[i + 6] == 'u') {
                    return None;
                }
                let l1 = hex_val_exec(s[i + 7]);
                let l2 = hex_val_exec(s[i + 8]);
                let l3 = hex_val_exec(s[i + 9]);
                let l4 = hex_val_exec(s[i + 10]);
                match (l1, l2, l3, l4) {
                    (Some(la), Some(lb), Some(lc), Some(ld)) => {
                        let l: u32 = (la as u32) * 0x1000 + (lb as u32) * 0x100 + (lc as u32) * 16
                            + (ld as u32);
                        if 0xDC00 <= l && l < 0xE000 {
                            let code: u32 = 0x10000 + (h - 0xD800) * 0x400 + (l - 0xDC00);
                            match char_of_u32(code) {
                                Some(ch) => {
                                    proof {
                                        assert(t.skip(11) =~= s@.skip(i as int + 11));
                                        assert(is_scalar(code as int));
                                        assert(ch as u32 == code);
                                        lemma_char_code(ch, code);
                                    }
                                    Some((ch, i + 11))
                                },
                                None => {
                                    proof {
                                        assert(is_scalar(code as int));
                                    }
                                    None
                                },
                            }
                        } else {
                            None
                        }
                    },
                    _ => None,
                }
            } else if 0xDC00 <= h && h < 0xE000 {
                None
            } else {
                match char_of_u32(h) {
                    Some(ch) => {
                        proof {
                            assert(t.skip(5) =~= s@.skip(i as int + 5));
                            assert(is_scalar(h as int));
                            assert(ch as u32 == h);
                            lemma_char_code(ch, h);
                        }
                        Some((ch, i + 5))
                    },
                    None => {
                        proof {
                            assert(is_scalar(h as int));
                        }
                        None
                    },
                }
            }
        },
        _ => None,
    }
}

/// A string token starting at `i` (at its opening quote): the unescaped
/// content and the index after the closing quote.
fn parse_string_exec(s: &Vec<char>, i: usize) -> (r: Option<(Vec<char>, usize)>)
    requires
        i <= s@.len(),
    ensures
        match r {
            Some((content, j)) => i < j <= s@.len() && parse_string(s@.skip(i as int)) == Some(
                (content@, s@.skip(j as int)),
            ),
            None => parse_string(s@.skip(i as int)) is None,
        },
{
    if i >= s.len() {
        return None;
    }
    proof {
        lemma_skip_step(s@, i as int);
    }
    if s[i] != '"' {
        return None;
    }
    let ghost start = i as int + 1;
    let mut acc: Vec<char> = Vec::new();
    let mut cur = i + 1;
    loop
        invariant
            i as int + 1 == start,
            start <= cur as int <= s@.len(),
            s@[i as int] == '"',
            i < s@.len(),
            parse_string_tail(s@.skip(start)) == (match parse_string_tail(s@.skip(cur as int)) {
                Some((c2, rest)) => Some((acc@ + c2, rest)),
                None => None::<(Seq<char>, Seq<char>)>,
            }),
        decreases s@.len() - cur,
    {
        if cur >= s.len() {
            proof {
                lemma_skip_step(s@, i as int);
                assert(s@.skip(i as int).drop_first() =~= s@.skip(start));
                assert(s@.skip(cur as int).len() == 0);
            }
            return None;
        }
        proof {
            lemma_skip_step(s@, cur as int);
        }
        let c = s[cur];
        if c == '"' {
            proof {
                assert(parse_string_tail(s@.skip(cur as int)) == Some(
                    (Seq::<char>::empty(), s@.skip(cur as int + 1)),
                ));
                assert(acc@ + Seq::<char>::empty() =~= acc@);
                lemma_skip_step(s@, i as int);
                assert(s@.skip(i as int).drop_first() =~= s@.skip(start));
                assert(parse_string(s@.skip(i as int)) == parse_string_tail(s@.skip(start)));
            }
            return Some((acc, cur + 1));
        }
        if c == '\\' {
            match parse_escape_exec(s, cur + 1) {
                Some((ch, j)) => {
                    proof {
                        let c2rest = parse_string_tail(s@.skip(j as int));
                        match c2rest {
                            Some((c2, rest)) => {
                                assert(acc@.push(ch) + c2 =~= acc@ + (seq![ch] + c2));
                            },
                            None => {},
                        }
                    }
                    acc.push(ch);
                    cur = j;
                },
                None => {
                    proof {
                        lemma_skip_step(s@, i as int);
                        assert(s@.skip(i as int).drop_first() =~= s@.skip(start));
                    }
                    return None;
                },
            }
        } else if (c as u32) < 0x20 {
            proof {
                lemma_skip_step(s@, i as int);
                assert(s@.skip(i as int).drop_first() =~= s@.skip(start));
            }
            return None;
        } else {
            proof {
                let c2rest = parse_string_tail(s@.skip(cur as int + 1));
                match c2rest {
                    Some((c2, rest)) => {
                        assert(acc@.push(c) + c2 =~= acc@ + (seq![c] + c2));
                    },
                    None => {},
                }
            }
            acc.push(c);
            cur = cur + 1;
        }
    }
}

/// The end of the digit run starting at `i`.
fn take_digits_exec(s: &Vec<char>, i: usize) -> (j: usize)
    requires
        i <= s@.len(),
    ensures
        i <= j <= s@.len(),
        take_digits(s@.skip(i as int)) == (s@.subrange(i as int, j as int), s@.skip(j as int)),
{
    let mut j = i;
    loop
        invariant
            i <= j <= s@.len(),
            take_digits(s@.skip(i as int)).0 == s@.subrange(i as int, j as int) + take_digits(
                s@.skip(j as int),
            ).0,
            take_digits(s@.skip(i as int)).1 == take_digits(s@.skip(j as int)).1,
        decreases s@.len() - j,
    {
        if j < s.len() && is_digit_exec(s[j]) {
            proof {
                lemma_skip_step(s@, j as int);
                let x = take_digits(s@.skip(j as int + 1));
                assert(take_digits(s@.skip(j as int)) == (seq![s@[j as int]] + x.0, x.1));
                assert(s@.subrange(i as int, j as int) + (seq![s@[j as int]] + x.0) =~= s@.subrange(
                    i as int,
                    j as int + 1,
                ) + x.0);
            }
            j = j + 1;
        } else {
            proof {
                if j < s@.len() {
                    lemma_skip_step(s@, j as int);
                }
                assert(take_digits(s@.skip(j as int)) == (
                    Seq::<char>::empty(),
                    s@.skip(j as int),
                ));
                assert(s@.subrange(i as int, j as int) + Seq::<char>::empty() =~= s@.subrange(
                    i as int,
                    j as int,
                ));
            }
            return j;
        }
    }
}

/// A copy of the characters in `[i, j)`.
pub(crate) fn copy_range(s: &Vec<char>, i: usize, j: usize) -> (out: Vec<char>)
    requires
        i <= j <= s@.len(),
    ensures
        out@ == s@.subrange(i as int, j as int),
{
    let mut out: Vec<char> = Vec::new();
    let mut k = i;
    while k < j
        invariant
            i <= k <= j <= s@.len(),
            out@ == s@.subrange(i as int, k as int),
        decreases j - k,
    {
        out.push(s[k]);
        proof {
            assert(s@.subrange(i as int, k as int).push(s@[k as int]) =~= s@.subrange(
                i as int,
                k as int + 1,
            ));
        }
        k = k + 1;
    }
    out
}

/// The value of the digit run in `[i, j)`, or `None` when it exceeds the
/// 64-bit signed magnitude range.
fn digits_to_u64(s: &Vec<char>, i: usize, j: usize) -> (r: Option<u64>)
    requires
        i < j <= s@.len(),
        all_digits(s@.subrange(i as int, j as int)),
        j - i > 1 ==> s@[i as int] != '0',
    ensures
        match r {
            Some(m) => m as int == digits_val(s@.subrange(i as int, j as int)),
            None => digits_val(s@.subrange(i as int, j as int)) > 0x8000000000000000,
        },
{
    let ghost d = s@.subrange(i as int, j as int);
    proof {
        assert(pow10(19) == 10000000000000000000) by {
            reveal_with_fuel(pow10, 21);
        }
    }
    if j - i >= 20 {
        proof {
            assert(d[0] == s@[i as int]);
            lemma_digits_val_lower(d);
            lemma_pow10_mono(19, (d.len() - 1) as nat);
        }
        return None;
    }
    let mut m: u64 = 0;
    let mut k = i;
    while k < j
        invariant
            i <= k <= j <= s@.len(),
            j - i <= 19,
            all_digits(d),
            d == s@.subrange(i as int, j as int),
            m as int == digits_val(s@.subrange(i as int, k as int)),
            (m as int) < pow10((k - i) as nat),
            pow10(19) == 10000000000000000000,
        decreases j - k,
    {
        let c = s[k];
        proof {
            assert(d[k - i] == c);
            assert(is_digit(c));
            assert(48 <= c as int <= 57);
            let pre = s@.subrange(i as int, k as int);
            let pre1 = s@.subrange(i as int, k as int + 1);
            assert(pre1.drop_last() =~= pre);
            assert(pre1.last() == c);
            assert(digits_val(pre1) == digits_val(pre) * 10 + (c as int - 48));
            lemma_pow10_mono((k - i + 1) as nat, 19);
            assert(pow10((k - i + 1) as nat) == 10 * pow10((k - i) as nat));
        }
        m = m * 10 + (((c as u32) as u64) - 48);
        k = k + 1;
    }
    proof {
        assert(s@.subrange(i as int, k as int) == d);
    }
    Some(m)
}

/// The indices of one scanned number token.
struct NumScan {
    p1: usize,
    ip_end: usize,
    fr_end: usize,
    es_end: usize,
    j: usize,
    neg: bool,
    has_frac: bool,
    has_exp: bool,
}

/// Scans the number token starting at `i`, returning its piece indices.
#[verifier::rlimit(100)]
#[verifier::spinoff_prover]
fn scan_number(s: &Vec<char>, i: usize) -> (r: Option<NumScan>)
    requires
        i <= s@.len(),
    ensures
        match r {
            Some(sc) => walk_facts(
                s@,
                i as int,
                sc.p1 as int,
                sc.ip_end as int,
                sc.fr_end as int,
                sc.es_end as int,
                sc.j as int,
                sc.neg,
                sc.has_frac,
                sc.has_exp,
            ) && i < sc.j <= s@.len(),
            None => number_token(s@.skip(i as int)) is None,
        },
{
    let ghost t0 = s@.skip(i as int);
    // the sign
    let neg = i < s.len() && s[i] == '-';
    let p1 = if neg {
        i + 1
    } else {
        i
    };
    proof {
        if i < s@.len() {
            lemma_skip_step(s@, i as int);
        }
    }
    // the integer part must start with a digit
    if p1 >= s.len() {
        return None;
    }
    proof {
        lemma_skip_step(s@, p1 as int);
    }
    if !is_digit_exec(s[p1]) {
        return None;
    }
    let ip_end = if s[p1] == '0' {
        p1 + 1
    } else {
        take_digits_exec(s, p1)
    };
    proof {
        if s@[p1 as int] == '0' {
            assert(s@.subrange(p1 as int, ip_end as int) =~= seq![s@[p1 as int]]);
        } else {
            lemma_take_digits(s@.skip(p1 as int));
            if ip_end == p1 {
                assert(take_digits(s@.skip(p1 as int)).1 == s@.skip(p1 as int));
                assert(false);
            }
        }
    }
    // the fraction
    let mut fr_end = ip_end;
    let mut has_frac = false;
    if ip_end < s.len() && s[ip_end] == '.' {
        proof {
            lemma_skip_step(s@, ip_end as int);
        }
        let fd_end = take_digits_exec(s, ip_end + 1);
        if fd_end == ip_end + 1 {
            proof {
                assert(take_digits(s@.skip(ip_end as int + 1)).0 =~= Seq::<char>::empty());
            }
            return None;
        }
        proof {
            lemma_take_digits(s@.skip(ip_end as int + 1));
        }
        fr_end = fd_end;
        has_frac = true;
    }
    // the exponent
    let mut e_end = fr_end;
    let mut es_end = fr_end;
    let mut has_exp = false;
    if fr_end < s.len() && (s[fr_end] == 'e' || s[fr_end] == 'E') {
        proof {
            lemma_skip_step(s@, fr_end as int);
        }
        let mut e_sign_end = fr_end + 1;
        if e_sign_end < s.len() && (s[e_sign_end] == '+' || s[e_sign_end] == '-') {
            e_sign_end = e_sign_end + 1;
        }
        let ed_end = take_digits_exec(s, e_sign_end);
        if ed_end == e_sign_end {
            proof {
                assert(take_digits(s@.skip(e_sign_end as int)).0 =~= Seq::<char>::empty());
                lemma_number_scan_abort(
                    s@,
                    i as int,
                    p1 as int,
                    ip_end as int,
                    fr_end as int,
                    e_sign_end as int,
                    neg,
                    has_frac,
                );
            }
            return None;
        }
        proof {
            lemma_take_digits(s@.skip(e_sign_end as int));
        }
        es_end = e_sign_end;
        e_end = ed_end;
        has_exp = true;
    }
    Some(NumScan { p1, ip_end, fr_end, es_end, j: e_end, neg, has_frac, has_exp })
}

/// When the exponent head has no digits, the token is a decode error.
#[verifier::rlimit(100)]
proof fn lemma_number_scan_abort(
    s: Seq<char>,
    i: int,
    p1: int,
    ip_end: int,
    fr_end: int,
    e_sign_end: int,
    neg: bool,
    has_frac: bool,
)
    requires
        0 <= i <= s.len(),
        p1 == if neg {
            i + 1
        } else {
            i
        },
        neg ==> i < s.len() && s[i] == '-',
        !neg && i < s.len() ==> s[i] != '-',
        p1 < s.len(),
        is_digit(s[p1]),
        p1 < ip_end <= s.len(),
        s[p1] == '0' ==> ip_end == p1 + 1,
        s[p1] != '0' ==> take_digits(s.skip(p1)) == (s.subrange(p1, ip_end), s.skip(ip_end)),
        has_frac == (ip_end < s.len() && s[ip_end] == '.'),
        has_frac ==> ip_end + 1 < fr_end <= s.len() && take_digits(s.skip(ip_end + 1)) == (
            s.subrange(ip_end + 1, fr_end),
            s.skip(fr_end),
        ),
        !has_frac ==> fr_end == ip_end,
        fr_end < s.len(),
        s[fr_end] == 'e' || s[fr_end] == 'E',
        fr_end < e_sign_end <= fr_end + 2,
        e_sign_end == fr_end + 2 ==> (s[fr_end + 1] == '+' || s[fr_end + 1] == '-'),
        e_sign_end == fr_end + 1 && fr_end + 1 < s.len() ==> !(s[fr_end + 1] == '+' || s[fr_end
            + 1] == '-'),
        e_sign_end <= s.len(),
        take_digits(s.skip(e_sign_end)).0 == Seq::<char>::empty(),
    ensures
        number_token(s.skip(i)) is None,
{
    let t0 = s.skip(i);
    assert(t0[0] == s[i]);
    assert(s.skip(p1) == (if neg {
        t0.drop_first()
    } else {
        t0
    })) by {
        if neg {
            assert(t0.drop_first() =~= s.skip(i + 1));
        }
    }
    let spec_s1 = s.skip(p1);
    assert(spec_s1[0] == s[p1]);
    if s[p1] == '0' {
        assert(spec_s1.drop_first() =~= s.skip(ip_end));
    }
    let spec_s2 = s.skip(ip_end);
    if has_frac {
        assert(spec_s2[0] == '.');
        assert(spec_s2.drop_first() =~= s.skip(ip_end + 1));
    } else {
        if spec_s2.len() > 0 {
            assert(spec_s2[0] == s[ip_end]);
        }
    }
    let s3 = s.skip(fr_end);
    assert(s3[0] == s[fr_end]);
    if e_sign_end == fr_end + 2 {
        assert(s3[1] == s[fr_end + 1]);
        assert(s3.skip(2) =~= s.skip(e_sign_end));
    } else {
        if s3.len() > 1 {
            assert(s3[1] == s[fr_end + 1]);
        }
        assert(s3.drop_first() =~= s.skip(e_sign_end));
    }
}

/// A number in value position starting at `i`.
fn parse_number_exec(s: &Vec<char>, i: usize) -> (r: Option<(Value, usize)>)
    requires
        i <= s@.len(),
    ensures
        match r {
            Some((v, j)) => i < j <= s@.len() && parse_number(s@.skip(i as int)) == Some(
                (v@, s@.skip(j as int)),
            ) && value_wf(v@),
            None => parse_number(s@.skip(i as int)) is None,
        },
{
    let ghost t0 = s@.skip(i as int);
    let sc = match scan_number(s, i) {
        Some(sc) => sc,
        None => {
            return None;
        },
    };
    let NumScan { p1, ip_end, fr_end, es_end, j, neg, has_frac, has_exp } = sc;
    let ghost token = s@.subrange(i as int, j as int);
    let ghost ip = s@.subrange(p1 as int, ip_end as int);
    proof {
        lemma_number_walk(
            s@,
            i as int,
            p1 as int,
            ip_end as int,
            fr_end as int,
            es_end as int,
            j as int,
            neg,
            has_frac,
            has_exp,
        );
        lemma_number_props(
            s@,
            i as int,
            p1 as int,
            ip_end as int,
            fr_end as int,
            es_end as int,
            j as int,
            neg,
            has_frac,
            has_exp,
        );
    }
    let intish = !has_frac && !has_exp;
    let ip_lo = p1;
    if intish {
        proof {
            assert(ip == s@.subrange(ip_lo as int, ip_end as int));
            assert(ip_end - ip_lo > 1 ==> s@[ip_lo as int] != '0');
        }
        match digits_to_u64(s, ip_lo, ip_end) {
            Some(m) => {
                if neg {
                    if m <= 9223372036854775808u64 {
                        let v: i64 = if m == 9223372036854775808u64 {
                            i64::MIN
                        } else {
                            -(m as i64)
                        };
                        proof {
                            assert(v as int == -(m as int));
                            assert(fits_i64(int_token_val(token)));
                            assert(int64_shaped(token));
                        }
                        return Some((Value::Int(v), j));
                    }
                    proof {
                        assert(int_token_val(token) < -0x8000000000000000);
                        assert(!fits_i64(int_token_val(token)));
                    }
                } else {
                    if m <= 9223372036854775807u64 {
                        proof {
                            assert(fits_i64(int_token_val(token)));
                            assert(int64_shaped(token));
                        }
                        return Some((Value::Int(m as i64), j));
                    }
                    proof {
                        assert(int_token_val(token) > 0x7fffffffffffffff);
                        assert(!fits_i64(int_token_val(token)));
                    }
                }
            },
            None => {
                proof {
                    assert(digits_val(ip) > 0x8000000000000000);
                    assert(!fits_i64(int_token_val(token)));
                }
            },
        }
    }
    proof {
        assert(!int64_shaped(token));
    }
    let tok_vec = copy_range(s, i, j);
    let tok_str = chars_to_string(&tok_vec);
    proof {
        assert(tok_str@ == token);
    }
    match canon_float(tok_str.as_str()) {
        Some(c) => Some((Value::Float(c), j)),
        None => None,
    }
}

/// The scanner's pieces, reassembled.
pub open spec fn walk_token(
    s: Seq<char>,
    i: int,
    p1: int,
    ip_end: int,
    fr_end: int,
    es_end: int,
    j: int,
    neg: bool,
    has_frac: bool,
    has_exp: bool,
) -> Seq<char> {
    let sign: Seq<char> = if neg {
        seq!['-']
    } else {
        Seq::empty()
    };
    sign + s.subrange(p1, ip_end) + s.subrange(ip_end, fr_end) + s.subrange(fr_end, es_end)
        + s.subrange(es_end, j)
}

/// The facts the scanner establishes about its indices.
pub open spec fn walk_facts(
    s: Seq<char>,
    i: int,
    p1: int,
    ip_end: int,
    fr_end: int,
    es_end: int,
    j: int,
    neg: bool,
    has_frac: bool,
    has_exp: bool,
) -> bool {
    &&& 0 <= i <= s.len()
    &&& p1 == if neg {
        i + 1
    } else {
        i
    }
    &&& (neg ==> i < s.len() && s[i] == '-')
    &&& (!neg && i < s.len() ==> s[i] != '-')
    &&& p1 < s.len()
    &&& is_digit(s[p1])
    &&& p1 < ip_end <= s.len()
    &&& (s[p1] == '0' ==> ip_end == p1 + 1)
    &&& (s[p1] != '0' ==> take_digits(s.skip(p1)) == (s.subrange(p1, ip_end), s.skip(ip_end)))
    &&& all_digits(s.subrange(p1, ip_end))
    &&& has_frac == (ip_end < s.len() && s[ip_end] == '.')
    &&& (has_frac ==> ip_end + 1 < fr_end <= s.len() && take_digits(s.skip(ip_end + 1)) == (
        s.subrange(ip_end + 1, fr_end),
        s.skip(fr_end),
    ) && all_digits(s.subrange(ip_end + 1, fr_end)))
    &&& (!has_frac ==> fr_end == ip_end)
    &&& has_exp == (fr_end < s.len() && (s[fr_end] == 'e' || s[fr_end] == 'E'))
    &&& (has_exp ==> fr_end < es_end <= fr_end + 2 && es_end <= s.len() && (es_end == fr_end + 2
        ==> (s[fr_end + 1] == '+' || s[fr_end + 1] == '-')) && (es_end == fr_end + 1 && fr_end + 1
        < s.len() ==> !(s[fr_end + 1] == '+' || s[fr_end + 1] == '-')) && es_end < j <= s.len()
        && take_digits(s.skip(es_end)) == (s.subrange(es_end, j), s.skip(j)) && all_digits(
        s.subrange(es_end, j),
    ))
    &&& (!has_exp ==> es_end == fr_end && j == fr_end)
}

/// The number grammar, walked along the scanner's indices.
#[verifier::rlimit(100)]
#[verifier::spinoff_prover]
proof fn lemma_number_walk(
    s: Seq<char>,
    i: int,
    p1: int,
    ip_end: int,
    fr_end: int,
    es_end: int,
    j: int,
    neg: bool,
    has_frac: bool,
    has_exp: bool,
)
    requires
        walk_facts(s, i, p1, ip_end, fr_end, es_end, j, neg, has_frac, has_exp),
    ensures
        number_token(s.skip(i)) == Some(
            (walk_token(s, i, p1, ip_end, fr_end, es_end, j, neg, has_frac, has_exp), s.skip(j)),
        ),
        walk_token(s, i, p1, ip_end, fr_end, es_end, j, neg, has_frac, has_exp) =~= s.subrange(
            i,
            j,
        ),
{
    let t0 = s.skip(i);
    let sign: Seq<char> = if neg {
        seq!['-']
    } else {
        Seq::empty()
    };
    let ip = s.subrange(p1, ip_end);
    let fr = s.subrange(ip_end, fr_end);
    let fd = s.subrange(ip_end + 1, fr_end);
    let eh = s.subrange(fr_end, es_end);
    let ed = s.subrange(es_end, j);
    let token = sign + ip + fr + eh + ed;
    assert(t0[0] == s[i]);
    assert(s.skip(p1) == (if neg {
        t0.drop_first()
    } else {
        t0
    })) by {
        if neg {
            assert(t0.drop_first() =~= s.skip(i + 1));
        }
    }
    let spec_s1 = s.skip(p1);
    assert(spec_s1[0] == s[p1]);
    assert(is_digit(spec_s1[0]));
    if s[p1] == '0' {
        assert(ip =~= seq!['0']);
        assert(spec_s1.drop_first() =~= s.skip(ip_end));
    }
    let spec_s2 = s.skip(ip_end);
    let pre = if has_frac {
        sign + ip + seq!['.'] + fd
    } else {
        sign + ip
    };
    if has_frac {
        assert(spec_s2[0] == '.');
        assert(spec_s2.drop_first() =~= s.skip(ip_end + 1));
        assert(fd.len() > 0);
        assert(fr =~= seq!['.'] + fd);
        assert(number_token(t0) == number_token_exp(pre, s.skip(fr_end)));
    } else {
        assert(fr =~= Seq::<char>::empty());
        if spec_s2.len() > 0 {
            assert(spec_s2[0] == s[ip_end]);
        }
        assert(number_token(t0) == number_token_exp(pre, s.skip(fr_end)));
    }
    let s3 = s.skip(fr_end);
    if has_exp {
        assert(s3[0] == s[fr_end]);
        if es_end == fr_end + 2 {
            assert(s3[1] == s[fr_end + 1]);
            assert(s3.skip(2) =~= s.skip(es_end));
            assert(eh =~= seq![s3[0], s3[1]]);
        } else {
            if s3.len() > 1 {
                assert(s3[1] == s[fr_end + 1]);
            }
            assert(s3.drop_first() =~= s.skip(es_end));
            assert(eh =~= seq![s3[0]]);
        }
        assert(ed.len() > 0);
        assert(number_token_exp(pre, s3) == Some((pre + eh + ed, s.skip(j))));
    } else {
        assert(eh =~= Seq::<char>::empty());
        assert(ed =~= Seq::<char>::empty());
        if s3.len() > 0 {
            assert(s3[0] == s[fr_end]);
        }
        assert(number_token_exp(pre, s3) == Some((pre, s3)));
    }
    if has_frac {
        lemma_add_assoc(sign + ip, seq!['.'], fd);
        assert(sign + ip + fr =~= (sign + ip) + (seq!['.'] + fd));
        assert(pre == sign + ip + fr);
    } else {
        assert(sign + ip + fr =~= sign + ip);
        assert(pre == sign + ip + fr);
    }
    if has_exp {
        assert(token == pre + eh + ed);
    } else {
        assert(sign + ip + fr + eh =~= sign + ip + fr);
        assert(token =~= sign + ip + fr);
        assert(token == pre);
    }
    assert(number_token(t0) == Some((token, s.skip(j))));
    lemma_number_token_len(t0);
    assert(token + s.skip(j) =~= t0);
    assert(token =~= s.subrange(i, j));
}

/// Shape facts about the scanned token: it re-parses alone as itself, and
/// its integer-shapedness matches the scanner's outcome.
#[verifier::rlimit(100)]
#[verifier::spinoff_prover]
proof fn lemma_number_props(
    s: Seq<char>,
    i: int,
    p1: int,
    ip_end: int,
    fr_end: int,
    es_end: int,
    j: int,
    neg: bool,
    has_frac: bool,
    has_exp: bool,
)
    requires
        walk_facts(s, i, p1, ip_end, fr_end, es_end, j, neg, has_frac, has_exp),
    ensures
        number_token(s.subrange(i, j)) == Some(
            (s.subrange(i, j), Seq::<char>::empty()),
        ),
        (has_frac || has_exp) ==> !int_shaped(s.subrange(i, j)),
        !(has_frac || has_exp) ==> int_shaped(s.subrange(i, j)) && int_token_val(
            s.subrange(i, j),
        ) == (if neg {
            -digits_val(s.subrange(p1, ip_end))
        } else {
            digits_val(s.subrange(p1, ip_end))
        }),
{
    let sign: Seq<char> = if neg {
        seq!['-']
    } else {
        Seq::empty()
    };
    let ip = s.subrange(p1, ip_end);
    let fr = s.subrange(ip_end, fr_end);
    let fd = s.subrange(ip_end + 1, fr_end);
    let eh = s.subrange(fr_end, es_end);
    let ed = s.subrange(es_end, j);
    let token = sign + ip + fr + eh + ed;
    lemma_number_walk(s, i, p1, ip_end, fr_end, es_end, j, neg, has_frac, has_exp);
    assert(token =~= s.subrange(i, j));
    assert(ip[0] == s[p1]);
    assert(ip[0] == '0' ==> ip.len() == 1);
    if has_frac {
        assert(fr[0] == '.');
        assert(fr.drop_first() =~= fd);
    } else {
        assert(fr =~= Seq::<char>::empty());
    }
    if has_exp {
        lemma_exp_skip_shape(s, fr_end, es_end);
    } else {
        assert(eh =~= Seq::<char>::empty());
        assert(ed =~= Seq::<char>::empty());
    }
    lemma_number_token_compose(sign, ip, fr, eh, ed, Seq::empty());
    assert(sign + ip + fr + eh + ed + Seq::<char>::empty() =~= token);
    if has_frac || has_exp {
        let pos = sign.len() + ip.len();
        assert(token[pos as int] == (if has_frac {
            fr[0]
        } else {
            eh[0]
        }));
        assert(!is_digit(token[pos as int]));
        if neg {
            assert(token[0] == '-');
            assert(token.drop_first()[pos as int - 1] == token[pos as int]);
            assert(!all_digits(token.drop_first()));
        } else {
            assert(!all_digits(token));
        }
        assert(!int_shaped(token));
    } else {
        assert(token =~= sign + ip);
        if neg {
            assert(token[0] == '-');
            assert(token.drop_first() =~= ip);
            assert(int_shaped(token));
            assert(int_token_val(token) == -digits_val(ip));
        } else {
            assert(token =~= ip);
            assert(token[0] != '-');
            assert(int_shaped(token));
            assert(int_token_val(token) == digits_val(ip));
        }
    }
}

/// The exponent head characters at `[h, k)` are a well-shaped head.
proof fn lemma_exp_skip_shape(s: Seq<char>, h: int, k: int)
    requires
        0 <= h < k <= s.len(),
        s[h] == 'e' || s[h] == 'E',
        k - h <= 2,
        k - h == 2 ==> s[h + 1] == '+' || s[h + 1] == '-',
    ensures
        exp_head_ok(s.subrange(h, k)),
{
    let eh = s.subrange(h, k);
    if k - h == 1 {
        assert(eh =~= seq![s[h]]);
        if s[h] == 'e' {
            assert(eh =~= seq!['e']);
        } else {
            assert(eh =~= seq!['E']);
        }
    } else {
        assert(eh =~= seq![s[h], s[h + 1]]);
        if s[h] == 'e' {
            if s[h + 1] == '+' {
                assert(eh =~= seq!['e', '+']);
            } else {
                assert(eh =~= seq!['e', '-']);
            }
        } else {
            if s[h + 1] == '+' {
                assert(eh =~= seq!['E', '+']);
            } else {
                assert(eh =~= seq!['E', '-']);
            }
        }
    }
}


/// A scalar value starting at `i`.
fn parse_value_exec(s: &Vec<char>, i: usize) -> (r: Option<(Value, usize)>)
    requires
        i <= s@.len(),
    ensures
        match r {
            Some((v, j)) => i < j <= s@.len() && parse_value(s@.skip(i as int)) == Some(
                (v@, s@.skip(j as int)),
            ) && value_wf(v@),
            None => parse_value(s@.skip(i as int)) is None,
        },
{
    let ghost t = s@.skip(i as int);
    if i >= s.len() {
        return None;
    }
    proof {
        lemma_skip_step(s@, i as int);
    }
    let c = s[i];
    if c == '"' {
        match parse_string_exec(s, i) {
            Some((content, j)) => {
                let text = chars_to_string(&content);
                Some((Value::Text(text), j))
            },
            None => None,
        }
    } else if c == 'n' {
        if s.len() - i >= 4 && s[i + 1] == 'u' && s[i + 2] == 'l' && s[i + 3] == 'l' {
            proof {
                assert(t[1] == s@[i + 1]);
                assert(t[2] == s@[i + 2]);
                assert(t[3] == s@[i + 3]);
                assert(t.skip(4) =~= s@.skip(i as int + 4));
            }
            Some((Value::Null, i + 4))
        } else {
            proof {
                if t.len() >= 4 {
                    assert(t[1] == s@[i + 1]);
                    assert(t[2] == s@[i + 2]);
                    assert(t[3] == s@[i + 3]);
                }
            }
            None
        }
    } else if c == '-' || is_digit_exec(c) {
        parse_number_exec(s, i)
    } else {
        None
    }
}

/// Whether the characters equal the literal's characters.
fn vec_eq_str(v: &Vec<char>, lit: &str) -> (r: bool)
    ensures
        r == (v@ == lit@),
{
    let n = lit.unicode_len();
    if v.len() != n {
        proof {
            assert(v@.len() != lit@.len());
        }
        return false;
    }
    let mut k: usize = 0;
    while k < n
        invariant
            0 <= k <= n,
            n == lit@.len(),
            v@.len() == n,
            forall|m: int| 0 <= m < k ==> v@[m] == lit@[m],
        decreases n - k,
    {
        if v[k] != lit.get_char(k) {
            return false;
        }
        k = k + 1;
    }
    proof {
        assert(v@ =~= lit@);
    }
    true
}

/// A copy of a string's characters.
pub(crate) fn str_to_chars(s: &str) -> (v: Vec<char>)
    ensures
        v@ == s@,
{
    let n = s.unicode_len();
    let mut v: Vec<char> = Vec::new();
    let mut k: usize = 0;
    while k < n
        invariant
            0 <= k <= n,
            n == s@.len(),
            v@ == s@.subrange(0, k as int),
        decreases n - k,
    {
        let c = s.get_char(k);
        v.push(c);
        proof {
            assert(s@.subrange(0, k as int).push(s@[k as int]) =~= s@.subrange(0, k as int + 1));
        }
        k = k + 1;
    }
    proof {
        assert(s@.subrange(0, n as int) =~= s@);
    }
    v
}

/// One `,"key":` member head starting at `i`; the key and the index of
/// the member's value.
fn parse_member_key_exec(s: &Vec<char>, i: usize) -> (r: Option<(Vec<char>, usize)>)
    requires
        i <= s@.len(),
    ensures
        match r {
            Some((k, j)) => j <= s@.len() && parse_member_key(s@.skip(i as int)) == Some(
                (k@, s@.skip(j as int)),
            ),
            None => parse_member_key(s@.skip(i as int)) is None,
        },
{
    let w = skip_ws_exec(s, i);
    if w >= s.len() {
        return None;
    }
    proof {
        lemma_skip_step(s@, w as int);
    }
    if s[w] != ',' {
        return None;
    }
    let w1 = skip_ws_exec(s, w + 1);
    match parse_string_exec(s, w1) {
        Some((k, p)) => {
            let w2 = skip_ws_exec(s, p);
            if w2 >= s.len() {
                return None;
            }
            proof {
                lemma_skip_step(s@, w2 as int);
            }
            if s[w2] != ':' {
                return None;
            }
            let w3 = skip_ws_exec(s, w2 + 1);
            Some((k, w3))
        },
        None => None,
    }
}

/// A tag value: a string, or `null` meaning an absent tag.
fn parse_tag_value_exec(s: &Vec<char>, i: usize) -> (r: Option<(Option<String>, usize)>)
    requires
        i <= s@.len(),
    ensures
        match r {
            Some((t, j)) => j <= s@.len() && parse_tag_value(s@.skip(i as int)) == Some(
                (t.deep_view(), s@.skip(j as int)),
            ),
            None => parse_tag_value(s@.skip(i as int)) is None,
        },
{
    let ghost t0 = s@.skip(i as int);
    if i < s.len() && s[i] == 'n' {
        proof {
            lemma_skip_step(s@, i as int);
        }
        if s.len() - i >= 4 && s[i + 1] == 'u' && s[i + 2] == 'l' && s[i + 3] == 'l' {
            proof {
                assert(t0[1] == s@[i + 1]);
                assert(t0[2] == s@[i + 2]);
                assert(t0[3] == s@[i + 3]);
                assert(t0.skip(4) =~= s@.skip(i as int + 4));
            }
            Some((None, i + 4))
        } else {
            proof {
                if t0.len() >= 4 {
                    assert(t0[1] == s@[i + 1]);
                    assert(t0[2] == s@[i + 2]);
                    assert(t0[3] == s@[i + 3]);
                }
            }
            None
        }
    } else {
        proof {
            if i < s@.len() {
                lemma_skip_step(s@, i as int);
            }
        }
        match parse_string_exec(s, i) {
            Some((content, j)) => {
                let text = chars_to_string(&content);
                Some((Some(text), j))
            },
            None => None,
        }
    }
}

/// A label array starting at `i`.
#[verifier::rlimit(100)]
fn parse_label_array_exec(s: &Vec<char>, i: usize) -> (r: Option<(Vec<String>, usize)>)
    requires
        i <= s@.len(),
    ensures
        match r {
            Some((p, j)) => i < j <= s@.len() && parse_label_array(s@.skip(i as int)) == Some(
                (p.deep_view(), s@.skip(j as int)),
            ),
            None => parse_label_array(s@.skip(i as int)) is None,
        },
{
    let ghost t0 = s@.skip(i as int);
    if i >= s.len() {
        return None;
    }
    proof {
        lemma_skip_step(s@, i as int);
    }
    if s[i] != '[' {
        return None;
    }
    let w = skip_ws_exec(s, i + 1);
    if w >= s.len() {
        proof {
            assert(s@.skip(w as int).len() == 0);
        }
        return None;
    }
    proof {
        lemma_skip_step(s@, w as int);
    }
    let mut acc: Vec<String> = Vec::new();
    if s[w] == ']' {
        proof {
            assert(acc.deep_view() =~= Seq::<Seq<char>>::empty());
        }
        return Some((acc, w + 1));
    }
    let mut cur: usize;
    match parse_string_exec(s, w) {
        Some((l0, p)) => {
            acc.push(chars_to_string(&l0));
            cur = p;
            proof {
                assert(acc.deep_view() =~= seq![l0@]);
                assert(parse_label_array(t0) == label_array_rest(
                    s@.skip(cur as int),
                    acc.deep_view(),
                ));
            }
        },
        None => {
            return None;
        },
    }
    let ghost final0 = label_array_rest(s@.skip(cur as int), acc.deep_view());
    loop
        invariant
            i < cur <= s@.len(),
            t0 == s@.skip(i as int),
            label_array_rest(s@.skip(cur as int), acc.deep_view()) == final0,
            parse_label_array(t0) == final0,
        decreases s@.len() - cur,
    {
        let w1 = skip_ws_exec(s, cur);
        if w1 >= s.len() {
            proof {
                assert(s@.skip(w1 as int).len() == 0);
                assert(label_array_rest(s@.skip(cur as int), acc.deep_view()) is None);
            }
            return None;
        }
        proof {
            lemma_skip_step(s@, w1 as int);
        }
        if s[w1] == ']' {
            proof {
                assert(label_array_rest(s@.skip(cur as int), acc.deep_view()) == Some(
                    (acc.deep_view(), s@.skip(w1 as int + 1)),
                ));
            }
            return Some((acc, w1 + 1));
        }
        if s[w1] != ',' {
            proof {
                assert(label_array_rest(s@.skip(cur as int), acc.deep_view()) is None);
            }
            return None;
        }
        let w2 = skip_ws_exec(s, w1 + 1);
        match parse_string_exec(s, w2) {
            Some((l, p)) => {
                let ghost oldacc = acc.deep_view();
                proof {
                    assert(label_array_rest(s@.skip(cur as int), oldacc) == label_array_rest(
                        s@.skip(p as int),
                        oldacc.push(l@),
                    ));
                }
                acc.push(chars_to_string(&l));
                proof {
                    assert(acc.deep_view() =~= oldacc.push(l@));
                }
                if p <= cur {
                    proof {
                        lemma_parse_string_len(s@.skip(w2 as int));
                        assert(false);
                    }
                }
                cur = p;
            },
            None => {
                proof {
                    assert(label_array_rest(s@.skip(cur as int), acc.deep_view()) is None);
                }
                return None;
            },
        }
    }
}

/// A labelled-value object starting at `i` (at its opening brace).
#[verifier::rlimit(100)]
fn parse_lv_object_exec(s: &Vec<char>, i: usize) -> (r: Option<(LabeledValue, usize)>)
    requires
        i <= s@.len(),
    ensures
        match r {
            Some((lv, j)) => i < j <= s@.len() && parse_lv_object(s@.skip(i as int)) == Some(
                (lv@, s@.skip(j as int)),
            ) && lv_wf(lv@),
            None => parse_lv_object(s@.skip(i as int)) is None,
        },
{
    let ghost t0 = s@.skip(i as int);
    if i >= s.len() {
        return None;
    }
    proof {
        lemma_skip_step(s@, i as int);
    }
    if s[i] != '{' {
        return None;
    }
    let w = skip_ws_exec(s, i + 1);
    proof {
        if w < s@.len() {
            lemma_skip_step(s@, w as int);
        }
    }
    if w < s.len() && s[w] == '}' {
        return None;
    }
    // the first member, without a leading comma
    let mut label_slot: Option<String> = None;
    let mut value_slot: Option<Value> = None;
    let mut cur: usize;
    match parse_string_exec(s, w) {
        Some((k, p)) => {
            let w2 = skip_ws_exec(s, p);
            if w2 >= s.len() {
                proof {
                    assert(s@.skip(w2 as int).len() == 0);
                }
                return None;
            }
            proof {
                lemma_skip_step(s@, w2 as int);
            }
            if s[w2] != ':' {
                return None;
            }
            let w3 = skip_ws_exec(s, w2 + 1);
            if vec_eq_str(&k, "label") {
                match parse_string_exec(s, w3) {
                    Some((l, p2)) => {
                        label_slot = Some(chars_to_string(&l));
                        cur = p2;
                        proof {
                            assert(label_slot.deep_view() == Some(l@));
                            assert(parse_lv_object(t0) == lv_fields(
                                s@.skip(cur as int),
                                label_slot.deep_view(),
                                value_slot.deep_view(),
                            ));
                        }
                    },
                    None => {
                        return None;
                    },
                }
            } else if vec_eq_str(&k, "value") {
                match parse_value_exec(s, w3) {
                    Some((v, p2)) => {
                        let ghost vv = v@;
                        value_slot = Some(v);
                        cur = p2;
                        proof {
                            assert(value_slot.deep_view() == Some(vv));
                            assert(parse_lv_object(t0) == lv_fields(
                                s@.skip(cur as int),
                                label_slot.deep_view(),
                                value_slot.deep_view(),
                            ));
                        }
                    },
                    None => {
                        return None;
                    },
                }
            } else {
                return None;
            }
        },
        None => {
            return None;
        },
    }
    let ghost final0 = lv_fields(s@.skip(cur as int), label_slot.deep_view(), value_slot.deep_view());
    loop
        invariant
            i < cur <= s@.len(),
            t0 == s@.skip(i as int),
            lv_fields(s@.skip(cur as int), label_slot.deep_view(), value_slot.deep_view())
                == final0,
            parse_lv_object(t0) == final0,
            value_slot matches Some(v) ==> value_wf(v@),
        decreases s@.len() - cur,
    {
        let w1 = skip_ws_exec(s, cur);
        if w1 >= s.len() {
            proof {
                assert(s@.skip(w1 as int).len() == 0);
                assert(lv_fields(
                    s@.skip(cur as int),
                    label_slot.deep_view(),
                    value_slot.deep_view(),
                ) is None);
            }
            return None;
        }
        proof {
            lemma_skip_step(s@, w1 as int);
        }
        if s[w1] == '}' {
            proof {
                assert(lv_fields(
                    s@.skip(cur as int),
                    label_slot.deep_view(),
                    value_slot.deep_view(),
                ) == (match (label_slot.deep_view(), value_slot.deep_view()) {
                    (Some(l), Some(v)) => Some(
                        (
                            crate::message::LabeledValueView { label: l, value: v },
                            s@.skip(w1 as int + 1),
                        ),
                    ),
                    _ => None,
                }));
            }
            match (label_slot, value_slot) {
                (Some(l), Some(v)) => {
                    return Some((LabeledValue { label: l, value: v }, w1 + 1));
                },
                _ => {
                    return None;
                },
            }
        }
        if s[w1] != ',' {
            proof {
                assert(lv_fields(
                    s@.skip(cur as int),
                    label_slot.deep_view(),
                    value_slot.deep_view(),
                ) is None);
            }
            return None;
        }
        let w2 = skip_ws_exec(s, w1 + 1);
        match parse_string_exec(s, w2) {
            Some((k, p)) => {
                let w3 = skip_ws_exec(s, p);
                if w3 >= s.len() {
                    proof {
                        assert(s@.skip(w3 as int).len() == 0);
                    }
                    return None;
                }
                proof {
                    lemma_skip_step(s@, w3 as int);
                }
                if s[w3] != ':' {
                    return None;
                }
                let w4 = skip_ws_exec(s, w3 + 1);
                if vec_eq_str(&k, "label") {
                    if label_slot.is_some() {
                        return None;
                    }
                    match parse_string_exec(s, w4) {
                        Some((l, p2)) => {
                            let ghost old_label = label_slot.deep_view();
                            let ghost old_value = value_slot.deep_view();
                            label_slot = Some(chars_to_string(&l));
                            if p2 <= cur {
                                proof {
                                    lemma_parse_string_len(s@.skip(w4 as int));
                                    assert(false);
                                }
                            }
                            proof {
                                assert(label_slot.deep_view() == Some(l@));
                                assert(lv_fields(s@.skip(cur as int), old_label, old_value)
                                    == lv_fields(
                                    s@.skip(p2 as int),
                                    label_slot.deep_view(),
                                    value_slot.deep_view(),
                                ));
                            }
                            cur = p2;
                        },
                        None => {
                            return None;
                        },
                    }
                } else if vec_eq_str(&k, "value") {
                    if value_slot.is_some() {
                        return None;
                    }
                    match parse_value_exec(s, w4) {
                        Some((v, p2)) => {
                            let ghost old_label = label_slot.deep_view();
                            let ghost old_value = value_slot.deep_view();
                            let ghost vv = v@;
                            value_slot = Some(v);
                            if p2 <= cur {
                                proof {
                                    lemma_parse_value_len(s@.skip(w4 as int));
                                    assert(false);
                                }
                            }
                            proof {
                                assert(value_slot.deep_view() == Some(vv));
                                assert(lv_fields(s@.skip(cur as int), old_label, old_value)
                                    == lv_fields(
                                    s@.skip(p2 as int),
                                    label_slot.deep_view(),
                                    value_slot.deep_view(),
                                ));
                            }
                            cur = p2;
                        },
                        None => {
                            return None;
                        },
                    }
                } else {
                    return None;
                }
            },
            None => {
                return None;
            },
        }
    }
}

/// A labelled-value array starting at `i`.
#[verifier::rlimit(100)]
fn parse_lv_array_exec(s: &Vec<char>, i: usize) -> (r: Option<(Vec<LabeledValue>, usize)>)
    requires
        i <= s@.len(),
    ensures
        match r {
            Some((p, j)) => i < j <= s@.len() && parse_lv_array(s@.skip(i as int)) == Some(
                (p.deep_view(), s@.skip(j as int)),
            ) && (forall|k: int| 0 <= k < p@.len() ==> lv_wf(#[trigger] p@[k]@)),
            None => parse_lv_array(s@.skip(i as int)) is None,
        },
{
    let ghost t0 = s@.skip(i as int);
    if i >= s.len() {
        return None;
    }
    proof {
        lemma_skip_step(s@, i as int);
    }
    if s[i] != '[' {
        return None;
    }
    let w = skip_ws_exec(s, i + 1);
    if w >= s.len() {
        proof {
            assert(s@.skip(w as int).len() == 0);
        }
        return None;
    }
    proof {
        lemma_skip_step(s@, w as int);
    }
    let mut acc: Vec<LabeledValue> = Vec::new();
    if s[w] == ']' {
        proof {
            assert(acc.deep_view() =~= Seq::<crate::message::LabeledValueView>::empty());
        }
        return Some((acc, w + 1));
    }
    let mut cur: usize;
    match parse_lv_object_exec(s, w) {
        Some((lv0, p)) => {
            let ghost lv0v = lv0@;
            acc.push(lv0);
            cur = p;
            proof {
                assert(acc.deep_view() =~= seq![lv0v]);
                assert(parse_lv_array(t0) == lv_array_rest(s@.skip(cur as int), acc.deep_view()));
            }
        },
        None => {
            return None;
        },
    }
    let ghost final0 = lv_array_rest(s@.skip(cur as int), acc.deep_view());
    loop
        invariant
            i < cur <= s@.len(),
            t0 == s@.skip(i as int),
            lv_array_rest(s@.skip(cur as int), acc.deep_view()) == final0,
            parse_lv_array(t0) == final0,
            forall|k: int| 0 <= k < acc@.len() ==> lv_wf(#[trigger] acc@[k]@),
        decreases s@.len() - cur,
    {
        let w1 = skip_ws_exec(s, cur);
        if w1 >= s.len() {
            proof {
                assert(s@.skip(w1 as int).len() == 0);
                assert(lv_array_rest(s@.skip(cur as int), acc.deep_view()) is None);
            }
            return None;
        }
        proof {
            lemma_skip_step(s@, w1 as int);
        }
        if s[w1] == ']' {
            proof {
                assert(lv_array_rest(s@.skip(cur as int), acc.deep_view()) == Some(
                    (acc.deep_view(), s@.skip(w1 as int + 1)),
                ));
            }
            return Some((acc, w1 + 1));
        }
        if s[w1] != ',' {
            proof {
                assert(lv_array_rest(s@.skip(cur as int), acc.deep_view()) is None);
            }
            return None;
        }
        let w2 = skip_ws_exec(s, w1 + 1);
        match parse_lv_object_exec(s, w2) {
            Some((lv, p)) => {
                let ghost oldacc = acc.deep_view();
                let ghost lvv = lv@;
                proof {
                    assert(lv_array_rest(s@.skip(cur as int), oldacc) == lv_array_rest(
                        s@.skip(p as int),
                        oldacc.push(lvv),
                    ));
                }
                acc.push(lv);
                proof {
                    assert(acc.deep_view() =~= oldacc.push(lvv));
                }
                if p <= cur {
                    proof {
                        assert(false);
                    }
                }
                cur = p;
            },
            None => {
                proof {
                    assert(lv_array_rest(s@.skip(cur as int), acc.deep_view()) is None);
                }
                return None;
            },
        }
    }
}

/// A status value starting at `i`.
fn parse_status_exec(s: &Vec<char>, i: usize) -> (r: Option<(Status, usize)>)
    requires
        i <= s@.len(),
    ensures
        match r {
            Some((st, j)) => j <= s@.len() && parse_status(s@.skip(i as int)) == Some(
                (st, s@.skip(j as int)),
            ),
            None => parse_status(s@.skip(i as int)) is None,
        },
{
    match parse_string_exec(s, i) {
        Some((t, j)) => {
            if vec_eq_str(&t, "OK") {
                Some((Status::OK, j))
            } else if vec_eq_str(&t, "InvalidRequest") {
                Some((Status::InvalidRequest, j))
            } else if vec_eq_str(&t, "NotFound") {
                Some((Status::NotFound, j))
            } else {
                None
            }
        },
        None => None,
    }
}


/// The members of a get request, after the `command` member.
#[verifier::rlimit(100)]
fn get_request_fields_exec(s: &Vec<char>, i: usize) -> (r: Option<(Message, usize)>)
    requires
        i <= s@.len(),
    ensures
        match r {
            Some((m, j)) => j <= s@.len() && get_request_fields(s@.skip(i as int), None, None)
                == Some((m@, s@.skip(j as int))) && message_wf(m@),
            None => get_request_fields(s@.skip(i as int), None, None) is None,
        },
{
    let ghost t0 = s@.skip(i as int);
    let mut tag_slot: Option<Option<String>> = None;
    let mut params_slot: Option<Vec<String>> = None;
    let mut cur = i;
    let ghost final0 = get_request_fields(t0, None, None);
    proof {
        assert(tag_slot.deep_view() == None::<Option<Seq<char>>>);
        assert(params_slot.deep_view() == None::<Seq<Seq<char>>>);
    }
    loop
        invariant
            i <= cur <= s@.len(),
            t0 == s@.skip(i as int),
            get_request_fields(s@.skip(cur as int), tag_slot.deep_view(), params_slot.deep_view())
                == final0,
            get_request_fields(t0, None, None) == final0,
        decreases s@.len() - cur,
    {
        let w = skip_ws_exec(s, cur);
        if w < s.len() && s[w] == '}' {
            proof {
                lemma_skip_step(s@, w as int);
            }
            match params_slot {
                Some(p) => {
                    let tag: Option<String> = match tag_slot {
                        Some(t) => t,
                        None => None,
                    };
                    let m = Message::GetDataRequest(GetDataRequest { tag, params: p });
                    return Some((m, w + 1));
                },
                None => {
                    return None;
                },
            }
        }
        match parse_member_key_exec(s, cur) {
            Some((k, v4)) => {
                proof {
                    crate::codec::lemma_parse_member_key_len(s@.skip(cur as int));
                }
                if vec_eq_str(&k, "tag") {
                    if tag_slot.is_some() {
                        return None;
                    }
                    match parse_tag_value_exec(s, v4) {
                        Some((t, p2)) => {
                            let ghost tv = t.deep_view();
                            tag_slot = Some(t);
                            proof {
                                crate::codec::lemma_parse_tag_value_len(s@.skip(v4 as int));
                                assert(tag_slot.deep_view() == Some(tv));
                            }
                            if p2 <= cur {
                                proof {
                                    assert(false);
                                }
                            }
                            cur = p2;
                        },
                        None => {
                            return None;
                        },
                    }
                } else if vec_eq_str(&k, "params") {
                    if params_slot.is_some() {
                        return None;
                    }
                    match parse_label_array_exec(s, v4) {
                        Some((p, p2)) => {
                            let ghost pv = p.deep_view();
                            params_slot = Some(p);
                            proof {
                                assert(params_slot.deep_view() == Some(pv));
                            }
                            if p2 <= cur {
                                proof {
                                    assert(false);
                                }
                            }
                            cur = p2;
                        },
                        None => {
                            return None;
                        },
                    }
                } else {
                    return None;
                }
            },
            None => {
                return None;
            },
        }
    }
}

/// The members of a set request, after the `command` member.
#[verifier::rlimit(100)]
fn set_request_fields_exec(s: &Vec<char>, i: usize) -> (r: Option<(Message, usize)>)
    requires
        i <= s@.len(),
    ensures
        match r {
            Some((m, j)) => j <= s@.len() && set_request_fields(s@.skip(i as int), None, None)
                == Some((m@, s@.skip(j as int))) && message_wf(m@),
            None => set_request_fields(s@.skip(i as int), None, None) is None,
        },
{
    let ghost t0 = s@.skip(i as int);
    let mut tag_slot: Option<Option<String>> = None;
    let mut params_slot: Option<Vec<LabeledValue>> = None;
    let mut cur = i;
    let ghost final0 = set_request_fields(t0, None, None);
    proof {
        assert(tag_slot.deep_view() == None::<Option<Seq<char>>>);
        assert(params_slot.deep_view() == None::<Seq<crate::message::LabeledValueView>>);
    }
    loop
        invariant
            i <= cur <= s@.len(),
            t0 == s@.skip(i as int),
            set_request_fields(s@.skip(cur as int), tag_slot.deep_view(), params_slot.deep_view())
                == final0,
            set_request_fields(t0, None, None) == final0,
            params_slot matches Some(p) ==> forall|k: int|
                0 <= k < p@.len() ==> lv_wf(#[trigger] p@[k]@),
        decreases s@.len() - cur,
    {
        let w = skip_ws_exec(s, cur);
        if w < s.len() && s[w] == '}' {
            proof {
                lemma_skip_step(s@, w as int);
            }
            match params_slot {
                Some(p) => {
                    let tag: Option<String> = match tag_slot {
                        Some(t) => t,
                        None => None,
                    };
                    let m = Message::SetDataRequest(SetDataRequest { tag, params: p });
                    return Some((m, w + 1));
                },
                None => {
                    return None;
                },
            }
        }
        match parse_member_key_exec(s, cur) {
            Some((k, v4)) => {
                proof {
                    crate::codec::lemma_parse_member_key_len(s@.skip(cur as int));
                }
                if vec_eq_str(&k, "tag") {
                    if tag_slot.is_some() {
                        return None;
                    }
                    match parse_tag_value_exec(s, v4) {
                        Some((t, p2)) => {
                            let ghost tv = t.deep_view();
                            tag_slot = Some(t);
                            proof {
                                crate::codec::lemma_parse_tag_value_len(s@.skip(v4 as int));
                                assert(tag_slot.deep_view() == Some(tv));
                            }
                            if p2 <= cur {
                                proof {
                                    assert(false);
                                }
                            }
                            cur = p2;
                        },
                        None => {
                            return None;
                        },
                    }
                } else if vec_eq_str(&k, "params") {
                    if params_slot.is_some() {
                        return None;
                    }
                    match parse_lv_array_exec(s, v4) {
                        Some((p, p2)) => {
                            let ghost pv = p.deep_view();
                            params_slot = Some(p);
                            proof {
                                assert(params_slot.deep_view() == Some(pv));
                            }
                            if p2 <= cur {
                                proof {
                                    assert(false);
                                }
                            }
                            cur = p2;
                        },
                        None => {
                            return None;
                        },
                    }
                } else {
                    return None;
                }
            },
            None => {
                return None;
            },
        }
    }
}

/// The members of a get response, after the `command` member.
#[verifier::rlimit(100)]
fn get_response_fields_exec(s: &Vec<char>, i: usize) -> (r: Option<(Message, usize)>)
    requires
        i <= s@.len(),
    ensures
        match r {
            Some((m, j)) => j <= s@.len() && get_response_fields(
                s@.skip(i as int),
                None,
                None,
                None,
            ) == Some((m@, s@.skip(j as int))) && message_wf(m@),
            None => get_response_fields(s@.skip(i as int), None, None, None) is None,
        },
{
    let ghost t0 = s@.skip(i as int);
    let mut tag_slot: Option<Option<String>> = None;
    let mut status_slot: Option<Status> = None;
    let mut results_slot: Option<Vec<LabeledValue>> = None;
    let mut cur = i;
    let ghost final0 = get_response_fields(t0, None, None, None);
    proof {
        assert(tag_slot.deep_view() == None::<Option<Seq<char>>>);
        assert(results_slot.deep_view() == None::<Seq<crate::message::LabeledValueView>>);
    }
    loop
        invariant
            i <= cur <= s@.len(),
            t0 == s@.skip(i as int),
            get_response_fields(
                s@.skip(cur as int),
                tag_slot.deep_view(),
                status_slot,
                results_slot.deep_view(),
            ) == final0,
            get_response_fields(t0, None, None, None) == final0,
            results_slot matches Some(p) ==> forall|k: int|
                0 <= k < p@.len() ==> lv_wf(#[trigger] p@[k]@),
        decreases s@.len() - cur,
    {
        let w = skip_ws_exec(s, cur);
        if w < s.len() && s[w] == '}' {
            proof {
                lemma_skip_step(s@, w as int);
            }
            match (status_slot, results_slot) {
                (Some(st), Some(rs)) => {
                    let tag: Option<String> = match tag_slot {
                        Some(t) => t,
                        None => None,
                    };
                    let m = Message::GetDataResponse(
                        GetDataResponse { tag, status: st, results: rs },
                    );
                    return Some((m, w + 1));
                },
                _ => {
                    return None;
                },
            }
        }
        match parse_member_key_exec(s, cur) {
            Some((k, v4)) => {
                proof {
                    crate::codec::lemma_parse_member_key_len(s@.skip(cur as int));
                }
                if vec_eq_str(&k, "tag") {
                    if tag_slot.is_some() {
                        return None;
                    }
                    match parse_tag_value_exec(s, v4) {
                        Some((t, p2)) => {
                            let ghost tv = t.deep_view();
                            tag_slot = Some(t);
                            proof {
                                crate::codec::lemma_parse_tag_value_len(s@.skip(v4 as int));
                                assert(tag_slot.deep_view() == Some(tv));
                            }
                            if p2 <= cur {
                                proof {
                                    assert(false);
                                }
                            }
                            cur = p2;
                        },
                        None => {
                            return None;
                        },
                    }
                } else if vec_eq_str(&k, "status") {
                    if status_slot.is_some() {
                        return None;
                    }
                    match parse_status_exec(s, v4) {
                        Some((st, p2)) => {
                            status_slot = Some(st);
                            proof {
                                crate::codec::lemma_parse_status_len(s@.skip(v4 as int));
                            }
                            if p2 <= cur {
                                proof {
                                    assert(false);
                                }
                            }
                            cur = p2;
                        },
                        None => {
                            return None;
                        },
                    }
                } else if vec_eq_str(&k, "results") {
                    if results_slot.is_some() {
                        return None;
                    }
                    match parse_lv_array_exec(s, v4) {
                        Some((rs, p2)) => {
                            let ghost rv = rs.deep_view();
                            results_slot = Some(rs);
                            proof {
                                assert(results_slot.deep_view() == Some(rv));
                            }
                            if p2 <= cur {
                                proof {
                                    assert(false);
                                }
                            }
                            cur = p2;
                        },
                        None => {
                            return None;
                        },
                    }
                } else {
                    return None;
                }
            },
            None => {
                return None;
            },
        }
    }
}

/// The members of a set response, after the `command` member.
#[verifier::rlimit(100)]
fn set_response_fields_exec(s: &Vec<char>, i: usize) -> (r: Option<(Message, usize)>)
    requires
        i <= s@.len(),
    ensures
        match r {
            Some((m, j)) => j <= s@.len() && set_response_fields(s@.skip(i as int), None, None)
                == Some((m@, s@.skip(j as int))) && message_wf(m@),
            None => set_response_fields(s@.skip(i as int), None, None) is None,
        },
{
    let ghost t0 = s@.skip(i as int);
    let mut tag_slot: Option<Option<String>> = None;
    let mut status_slot: Option<Status> = None;
    let mut cur = i;
    let ghost final0 = set_response_fields(t0, None, None);
    proof {
        assert(tag_slot.deep_view() == None::<Option<Seq<char>>>);
    }
    loop
        invariant
            i <= cur <= s@.len(),
            t0 == s@.skip(i as int),
            set_response_fields(s@.skip(cur as int), tag_slot.deep_view(), status_slot) == final0,
            set_response_fields(t0, None, None) == final0,
        decreases s@.len() - cur,
    {
        let w = skip_ws_exec(s, cur);
        if w < s.len() && s[w] == '}' {
            proof {
                lemma_skip_step(s@, w as int);
            }
            match status_slot {
                Some(st) => {
                    let tag: Option<String> = match tag_slot {
                        Some(t) => t,
                        None => None,
                    };
                    let m = Message::SetDataResponse(SetDataResponse { tag, status: st });
                    return Some((m, w + 1));
                },
                None => {
                    return None;
                },
            }
        }
        match parse_member_key_exec(s, cur) {
            Some((k, v4)) => {
                proof {
                    crate::codec::lemma_parse_member_key_len(s@.skip(cur as int));
                }
                if vec_eq_str(&k, "tag") {
                    if tag_slot.is_some() {
                        return None;
                    }
                    match parse_tag_value_exec(s, v4) {
                        Some((t, p2)) => {
                            let ghost tv = t.deep_view();
                            tag_slot = Some(t);
                            proof {
                                crate::codec::lemma_parse_tag_value_len(s@.skip(v4 as int));
                                assert(tag_slot.deep_view() == Some(tv));
                            }
                            if p2 <= cur {
                                proof {
                                    assert(false);
                                }
                            }
                            cur = p2;
                        },
                        None => {
                            return None;
                        },
                    }
                } else if vec_eq_str(&k, "status") {
                    if status_slot.is_some() {
                        return None;
                    }
                    match parse_status_exec(s, v4) {
                        Some((st, p2)) => {
                            status_slot = Some(st);
                            proof {
                                crate::codec::lemma_parse_status_len(s@.skip(v4 as int));
                            }
                            if p2 <= cur {
                                proof {
                                    assert(false);
                                }
                            }
                            cur = p2;
                        },
                        None => {
                            return None;
                        },
                    }
                } else {
                    return None;
                }
            },
            None => {
                return None;
            },
        }
    }
}

/// Decodes one line of text into the message it denotes, exactly as the
/// grammar says: `Err` exactly on the lines the grammar rejects.  Every
/// decoded message is well formed — in particular its float payloads are
/// canonical — so it encodes back to a line denoting the same message.
#[verifier::rlimit(100)]
pub fn decode(line: &str) -> (r: Result<Message, DecodeError>)
    ensures
        match r {
            Ok(m) => decode_spec(line@) == Some(m@) && message_wf(m@),
            Err(e) => decode_spec(line@) is None,
        },
{
    let s = str_to_chars(line);
    proof {
        assert(s@.skip(0) =~= s@);
    }
    let w0 = skip_ws_exec(&s, 0);
    if w0 >= s.len() {
        return Err(DecodeError);
    }
    proof {
        lemma_skip_step(s@, w0 as int);
    }
    if s[w0] != '{' {
        return Err(DecodeError);
    }
    let w1 = skip_ws_exec(&s, w0 + 1);
    let (k, p) = match parse_string_exec(&s, w1) {
        Some(kp) => kp,
        None => {
            return Err(DecodeError);
        },
    };
    if !vec_eq_str(&k, "command") {
        return Err(DecodeError);
    }
    let w2 = skip_ws_exec(&s, p);
    if w2 >= s.len() {
        return Err(DecodeError);
    }
    proof {
        lemma_skip_step(s@, w2 as int);
    }
    if s[w2] != ':' {
        return Err(DecodeError);
    }
    let w3 = skip_ws_exec(&s, w2 + 1);
    let (cmd, p2) = match parse_string_exec(&s, w3) {
        Some(cp) => cp,
        None => {
            return Err(DecodeError);
        },
    };
    let parsed: Option<(Message, usize)> = if vec_eq_str(&cmd, "GetDataRequest") {
        get_request_fields_exec(&s, p2)
    } else if vec_eq_str(&cmd, "GetDataResponse") {
        get_response_fields_exec(&s, p2)
    } else if vec_eq_str(&cmd, "SetDataRequest") {
        set_request_fields_exec(&s, p2)
    } else if vec_eq_str(&cmd, "SetDataResponse") {
        set_response_fields_exec(&s, p2)
    } else {
        proof {
            assert(decode_spec(line@) is None);
        }
        return Err(DecodeError);
    };
    match parsed {
        Some((m, j)) => {
            let wend = skip_ws_exec(&s, j);
            if wend >= s.len() {
                proof {
                    assert(s@.skip(wend as int).len() == 0);
                }
                Ok(m)
            } else {
                proof {
                    assert(s@.skip(wend as int).len() > 0);
                }
                Err(DecodeError)
            }
        },
        None => Err(DecodeError),
    }
}


} // verus!
