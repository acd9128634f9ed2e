//! The codec laws: every message value the library can hold decodes, from
//! its own encoding, back to itself.
use vstd::prelude::*;

use crate::codec::{
    all_digits, dec_digits, decode_spec, digits_val, encode_spec, escape_char, escape_seq,
    exp_head_ok, fits_i64, float_canon_of, get_request_fields, get_response_fields, head_part,
    hex_digit_char, int64_shaped, int_shaped, int_text, int_token_val, is_control, is_digit,
    is_float_literal, is_ws, hex_val, join_items, kw_command, kw_get_request,
    kw_get_response, kw_label, kw_null, kw_params, kw_results, kw_set_request, kw_set_response,
    kw_status, kw_tag, kw_value, label_array_rest, label_array_text, lemma_add_assoc,
    lemma_number_token_compose, lemma_take_digits, lv_array_rest, lv_array_text, lv_fields,
    lv_fields_first, lv_text, member_part, number_token, number_token_exp, parse_escape,
    parse_label_array, parse_lv_array, parse_lv_object, parse_member_key, parse_number,
    parse_status, parse_string, parse_string_tail, parse_tag_value, parse_value, quoted,
    set_request_fields, set_response_fields, skip_ws, status_kw, tag_part, take_digits, value_text,
    float_wf, value_wf, lv_wf, message_wf,
};
use crate::decode::lemma_char_code;
use crate::message::{
    GetDataRequestView, GetDataResponseView, LabeledValueView, MessageView, SetDataRequestView,
    SetDataResponseView, Status, ValueView,
};

verus! {

proof fn ws_id(s: Seq<char>)
    requires
        s.len() > 0,
        !is_ws(s[0]),
    ensures
        skip_ws(s) == s,
{
}

proof fn lemma_parse_tail(content: Seq<char>, rest: Seq<char>)
    ensures
        parse_string_tail(escape_seq(content) + (seq!['"'] + rest)) == Some((content, rest)),
    decreases content.len(),
{
    let close = seq!['"'] + rest;
    if content.len() == 0 {
        assert(escape_seq(content) + close =~= close);
        assert(close[0] == '"');
        assert(close.drop_first() =~= rest);
    } else {
        let c = content[0];
        let ct = content.drop_first();
        let b = escape_seq(ct) + close;
        lemma_add_assoc(escape_char(c), escape_seq(ct), close);
        let s = escape_seq(content) + close;
        assert(s == escape_char(c) + b);
        lemma_parse_tail(ct, rest);
        assert(seq![c] + ct =~= content);
        if c == '"' {
            assert(s[0] == '\\');
            assert(s.drop_first() =~= seq!['"'] + b);
            assert((seq!['"'] + b)[0] == '"');
            assert((seq!['"'] + b).drop_first() =~= b);
            assert(parse_escape(seq!['"'] + b) == Some(('"', b)));
        } else if c == '\\' {
            assert(s[0] == '\\');
            assert(s.drop_first() =~= seq!['\\'] + b);
            assert((seq!['\\'] + b)[0] == '\\');
            assert((seq!['\\'] + b).drop_first() =~= b);
            assert(parse_escape(seq!['\\'] + b) == Some(('\\', b)));
        } else if c == '\u{8}' {
            assert(s[0] == '\\');
            assert(s.drop_first() =~= seq!['b'] + b);
            assert((seq!['b'] + b)[0] == 'b');
            assert((seq!['b'] + b).drop_first() =~= b);
            assert(parse_escape(seq!['b'] + b) == Some(('\u{8}', b)));
        } else if c == '\t' {
            assert(s[0] == '\\');
            assert(s.drop_first() =~= seq!['t'] + b);
            assert((seq!['t'] + b)[0] == 't');
            assert((seq!['t'] + b).drop_first() =~= b);
            assert(parse_escape(seq!['t'] + b) == Some(('\t', b)));
        } else if c == '\n' {
            assert(s[0] == '\\');
            assert(s.drop_first() =~= seq!['n'] + b);
            assert((seq!['n'] + b)[0] == 'n');
            assert((seq!['n'] + b).drop_first() =~= b);
            assert(parse_escape(seq!['n'] + b) == Some(('\n', b)));
        } else if c == '\u{c}' {
            assert(s[0] == '\\');
            assert(s.drop_first() =~= seq!['f'] + b);
            assert((seq!['f'] + b)[0] == 'f');
            assert((seq!['f'] + b).drop_first() =~= b);
            assert(parse_escape(seq!['f'] + b) == Some(('\u{c}', b)));
        } else if c == '\r' {
            assert(s[0] == '\\');
            assert(s.drop_first() =~= seq!['r'] + b);
            assert((seq!['r'] + b)[0] == 'r');
            assert((seq!['r'] + b).drop_first() =~= b);
            assert(parse_escape(seq!['r'] + b) == Some(('\r', b)));
        } else if is_control(c) {
            let x = c as u32;
            let h1 = hex_digit_char((x as int) / 16);
            let h2 = hex_digit_char((x as int) % 16);
            assert(s[0] == '\\');
            let e = seq!['u', '0', '0', h1, h2] + b;
            assert(s.drop_first() =~= e);
            assert(e[0] == 'u' && e[1] == '0' && e[2] == '0' && e[3] == h1 && e[4] == h2);
            assert(hex_val('0') == 0);
            assert(hex_val(h1) == (x as int) / 16 && hex_val(h2) == (x as int) % 16) by {
                assert((x as int) / 16 < 10 && (x as int) % 16 < 16);
            }
            let h = hex_val(e[1]) * 0x1000 + hex_val(e[2]) * 0x100 + hex_val(e[3]) * 16 + hex_val(
                e[4],
            );
            assert(h == x);
            lemma_char_code(c, x);
            assert(e.skip(5) =~= b);
            assert(parse_escape(e) == Some((c, b)));
        } else {
            assert(escape_char(c) == seq![c]);
            assert(s[0] == c);
            assert(s.drop_first() =~= b);
            assert(!is_control(c) && c != '"' && c != '\\');
        }
    }
}

proof fn lemma_parse_quoted(content: Seq<char>, rest: Seq<char>)
    ensures
        parse_string(quoted(content) + rest) == Some((content, rest)),
{
    let s = quoted(content) + rest;
    lemma_add_assoc(seq!['"'] + escape_seq(content), seq!['"'], rest);
    lemma_add_assoc(seq!['"'], escape_seq(content), seq!['"'] + rest);
    assert(s == seq!['"'] + (escape_seq(content) + (seq!['"'] + rest)));
    assert(s[0] == '"');
    assert(s.drop_first() =~= escape_seq(content) + (seq!['"'] + rest));
    lemma_parse_tail(content, rest);
}

/// A character that cannot continue a number token.
pub open spec fn num_boundary(c: char) -> bool {
    !is_digit(c) && c != '.' && c != 'e' && c != 'E'
}

/// A complete number token followed by a boundary parses as itself.
#[verifier::rlimit(100)]
proof fn lemma_number_token_extend(t: Seq<char>, rest: Seq<char>)
    requires
        number_token(t) == Some((t, Seq::<char>::empty())),
        rest.len() > 0,
        num_boundary(rest[0]),
    ensures
        number_token(t + rest) == Some((t, rest)),
{
    // walk the parse of `t` to recover its pieces
    assert(t.len() > 0);
    let (sign, s1) = if t[0] == '-' {
        (seq!['-'], t.drop_first())
    } else {
        (Seq::<char>::empty(), t)
    };
    assert(s1.len() > 0 && is_digit(s1[0]));
    lemma_take_digits(s1);
    let (ip, s2) = if s1[0] == '0' {
        (seq!['0'], s1.drop_first())
    } else {
        take_digits(s1)
    };
    assert(all_digits(ip)) by {
        if s1[0] == '0' {
        } else {
            lemma_take_digits(s1);
        }
    }
    assert(ip.len() > 0 && ip[0] == s1[0]);
    assert(ip[0] == '0' ==> ip.len() == 1);
    if s2.len() > 0 && s2[0] == '.' {
        lemma_take_digits(s2.drop_first());
        let (fd, s3) = take_digits(s2.drop_first());
        assert(fd.len() > 0);
        let fr = seq!['.'] + fd;
        assert(fr[0] == '.' && fr.drop_first() =~= fd && fr.len() >= 2);
        let pre = sign + ip + seq!['.'] + fd;
        assert(number_token_exp(pre, s3) == Some((t, Seq::<char>::empty())));
        lemma_exp_pieces(pre, s3, t);
        let (eh, ed) = exp_pieces(s3);
        lemma_number_token_compose(sign, ip, fr, eh, ed, rest);
        assert(sign + ip + fr + eh + ed =~= t);
        assert(sign + ip + fr + eh + ed + rest =~= t + rest);
    } else {
        let fr = Seq::<char>::empty();
        let pre = sign + ip;
        assert(number_token_exp(pre, s2) == Some((t, Seq::<char>::empty())));
        lemma_exp_pieces(pre, s2, t);
        let (eh, ed) = exp_pieces(s2);
        lemma_number_token_compose(sign, ip, fr, eh, ed, rest);
        assert(sign + ip + fr + eh + ed =~= t);
        assert(sign + ip + fr + eh + ed + rest =~= t + rest);
    }
}

/// The head and digit parts of the exponent at the front of `s`.
pub open spec fn exp_pieces(s: Seq<char>) -> (Seq<char>, Seq<char>) {
    if s.len() > 0 && (s[0] == 'e' || s[0] == 'E') {
        if s.len() > 1 && (s[1] == '+' || s[1] == '-') {
            (seq![s[0], s[1]], s.skip(2))
        } else {
            (seq![s[0]], s.drop_first())
        }
    } else {
        (Seq::<char>::empty(), Seq::<char>::empty())
    }
}

/// When the exponent parser consumes all of `s`, `s` is a well-shaped
/// head plus digits, and the parsed token appends exactly them.
proof fn lemma_exp_pieces(pre: Seq<char>, s: Seq<char>, t: Seq<char>)
    requires
        number_token_exp(pre, s) == Some((t, Seq::<char>::empty())),
    ensures
        ({
            let (eh, ed) = exp_pieces(s);
            &&& (eh == Seq::<char>::empty() && ed == Seq::<char>::empty()) || (exp_head_ok(eh)
                && ed.len() > 0 && all_digits(ed))
            &&& t == pre + eh + ed
            &&& eh + (ed + Seq::<char>::empty()) =~= s
        }),
{
    let (eh, ed) = exp_pieces(s);
    if s.len() > 0 && (s[0] == 'e' || s[0] == 'E') {
        if s.len() > 1 && (s[1] == '+' || s[1] == '-') {
            lemma_take_digits(s.skip(2));
            let (d, r) = take_digits(s.skip(2));
            assert(d.len() > 0);
            assert(r =~= Seq::<char>::empty());
            assert(ed =~= d);
            assert(exp_head_ok(eh)) by {
                if s[0] == 'e' {
                    if s[1] == '+' {
                        assert(eh =~= seq!['e', '+']);
                    } else {
                        assert(eh =~= seq!['e', '-']);
                    }
                } else {
                    if s[1] == '+' {
                        assert(eh =~= seq!['E', '+']);
                    } else {
                        assert(eh =~= seq!['E', '-']);
                    }
                }
            }
            assert(eh + (ed + Seq::<char>::empty()) =~= s);
        } else {
            lemma_take_digits(s.drop_first());
            let (d, r) = take_digits(s.drop_first());
            assert(d.len() > 0);
            assert(r =~= Seq::<char>::empty());
            assert(ed =~= d);
            assert(exp_head_ok(eh)) by {
                if s[0] == 'e' {
                    assert(eh =~= seq!['e']);
                } else {
                    assert(eh =~= seq!['E']);
                }
            }
            assert(eh + (ed + Seq::<char>::empty()) =~= s);
        }
    } else {
        assert(t == pre);
        assert(s =~= Seq::<char>::empty());
        assert(t == pre + eh + ed) by {
            assert(pre + eh =~= pre);
            assert(pre + eh + ed =~= pre);
        }
        assert(eh + (ed + Seq::<char>::empty()) =~= s);
    }
}

proof fn lemma_dec_digits_facts(n: nat)
    ensures
        all_digits(dec_digits(n)),
        dec_digits(n).len() > 0,
        n >= 1 ==> dec_digits(n)[0] != '0',
        n < 10 ==> dec_digits(n).len() == 1,
        digits_val(dec_digits(n)) == n,
    decreases n,
{
    if n < 10 {
        let d = dec_digits(n);
        assert(d == seq![((n + 48) as u8) as char]);
        assert(is_digit(d[0]));
        assert(d.drop_last() =~= Seq::<char>::empty());
        assert(digits_val(Seq::<char>::empty()) == 0);
        assert(digits_val(d) == d.last() as int - 48);
    } else {
        lemma_dec_digits_facts(n / 10);
        let d = dec_digits(n);
        let hd = dec_digits(n / 10);
        let last = (((n % 10) + 48) as u8) as char;
        assert(d == hd + seq![last]);
        assert(is_digit(last));
        assert(all_digits(d)) by {
            assert(forall|i: int| 0 <= i < hd.len() ==> d[i] == hd[i]);
            assert(d[d.len() - 1] == last);
        }
        assert(d[0] == hd[0]);
        assert(d.drop_last() =~= hd);
        assert(d.last() == last);
        assert(digits_val(d) == digits_val(hd) * 10 + (last as int - 48));
        assert(digits_val(d) == (n / 10) * 10 + (n % 10));
    }
}

/// An integer in the 64-bit signed range, printed and followed by a
/// boundary, parses back to itself.
#[verifier::rlimit(100)]
proof fn lemma_int_round(v: int, rest: Seq<char>)
    requires
        fits_i64(v),
        rest.len() > 0,
        num_boundary(rest[0]),
    ensures
        parse_value(int_text(v) + rest) == Some((ValueView::Int(v), rest)),
{
    let t = int_text(v);
    let s = t + rest;
    if v < 0 {
        let m = (-v) as nat;
        lemma_dec_digits_facts(m);
        let ip = dec_digits(m);
        assert(t == seq!['-'] + ip);
        lemma_number_token_compose(
            seq!['-'],
            ip,
            Seq::<char>::empty(),
            Seq::<char>::empty(),
            Seq::<char>::empty(),
            rest,
        );
        let token = seq!['-'] + ip + Seq::<char>::empty() + Seq::<char>::empty()
            + Seq::<char>::empty();
        assert(token =~= t);
        assert(token + rest =~= s);
        assert(number_token(s) == Some((t, rest)));
        assert(t[0] == '-');
        assert(t.drop_first() =~= ip);
        assert(int_shaped(t));
        assert(int_token_val(t) == -digits_val(ip));
        assert(int_token_val(t) == v);
        assert(int64_shaped(t));
        assert(s[0] == '-');
        assert(!is_digit('"') && '-' != '"');
        assert(s[0] != '"' && s[0] != 'n');
        assert(parse_number(s) == Some((ValueView::Int(v), rest)));
    } else {
        let m = v as nat;
        lemma_dec_digits_facts(m);
        let ip = dec_digits(m);
        assert(t == ip);
        lemma_number_token_compose(
            Seq::<char>::empty(),
            ip,
            Seq::<char>::empty(),
            Seq::<char>::empty(),
            Seq::<char>::empty(),
            rest,
        );
        let token = Seq::<char>::empty() + ip + Seq::<char>::empty() + Seq::<char>::empty()
            + Seq::<char>::empty();
        assert(token =~= t);
        assert(token + rest =~= s);
        assert(number_token(s) == Some((t, rest)));
        assert(t[0] != '-') by {
            assert(is_digit(t[0]));
        }
        assert(int_shaped(t));
        assert(int_token_val(t) == digits_val(ip));
        assert(int64_shaped(t));
        assert(s[0] == t[0]);
        assert(is_digit(s[0]));
        assert(s[0] != '"' && s[0] != 'n' && s[0] != '-');
        assert(parse_number(s) == Some((ValueView::Int(v), rest)));
    }
}

/// A well-formed value's text, followed by a boundary, parses back to the
/// value.
#[verifier::rlimit(100)]
proof fn lemma_value_round(v: ValueView, rest: Seq<char>)
    requires
        value_wf(v),
        rest.len() > 0,
        num_boundary(rest[0]),
        rest[0] != '"',
    ensures
        parse_value(value_text(v) + rest) == Some((v, rest)),
{
    match v {
        ValueView::Int(i) => {
            lemma_int_round(i, rest);
        },
        ValueView::Float(t) => {
            lemma_number_token_extend(t, rest);
            let s = t + rest;
            assert(is_float_literal(t));
            assert(s[0] == t[0]);
            assert(is_digit(s[0]) || s[0] == '-');
            assert(s[0] != '"' && s[0] != 'n');
            assert(parse_number(s) == Some((ValueView::Float(t), rest)));
        },
        ValueView::Text(c) => {
            lemma_parse_quoted(c, rest);
            let s = quoted(c) + rest;
            assert(s[0] == '"');
        },
        ValueView::Null => {
            let s = kw_null() + rest;
            reveal_strlit("null");
            assert(kw_null().len() == 4);
            assert(s[0] == 'n' && s[1] == 'u' && s[2] == 'l' && s[3] == 'l');
            assert(s.skip(4) =~= rest);
        },
    }
}


proof fn lemma_status_round(st: Status, rest: Seq<char>)
    ensures
        parse_status(quoted(status_kw(st)) + rest) == Some((st, rest)),
{
    lemma_parse_quoted(status_kw(st), rest);
    reveal_strlit("OK");
    reveal_strlit("InvalidRequest");
    reveal_strlit("NotFound");
    assert(status_kw(Status::OK).len() == 2);
    assert(status_kw(Status::InvalidRequest).len() == 14);
    assert(status_kw(Status::NotFound).len() == 8);
    match st {
        Status::OK => {},
        Status::InvalidRequest => {
            assert(status_kw(st) != status_kw(Status::OK));
        },
        Status::NotFound => {
            assert(status_kw(st) != status_kw(Status::OK));
            assert(status_kw(st) != status_kw(Status::InvalidRequest));
        },
    }
}

/// One `,"key":` member head followed by a value text parses as the key
/// and the value's start.
proof fn lemma_member_key_round(k: Seq<char>, vtxt: Seq<char>)
    requires
        vtxt.len() > 0,
        !is_ws(vtxt[0]),
    ensures
        parse_member_key(seq![','] + (quoted(k) + (seq![':'] + vtxt))) == Some((k, vtxt)),
{
    let s = seq![','] + (quoted(k) + (seq![':'] + vtxt));
    assert(!is_ws(','));
    ws_id(s);
    assert(s[0] == ',');
    assert(s.drop_first() =~= quoted(k) + (seq![':'] + vtxt));
    let s1 = quoted(k) + (seq![':'] + vtxt);
    assert(s1[0] == '"');
    assert(!is_ws('"'));
    ws_id(s1);
    lemma_parse_quoted(k, seq![':'] + vtxt);
    let s2 = seq![':'] + vtxt;
    assert(!is_ws(':'));
    ws_id(s2);
    assert(s2[0] == ':');
    assert(s2.drop_first() =~= vtxt);
    ws_id(vtxt);
}

/// The member text of `member_part`, rewritten right-associated.
proof fn lemma_member_decomp(k: Seq<char>, txt: Seq<char>, suffix: Seq<char>)
    ensures
        member_part(k, txt) + suffix == seq![','] + (quoted(k) + (seq![':'] + (txt + suffix))),
{
    lemma_add_assoc(seq![','] + quoted(k) + seq![':'], txt, suffix);
    lemma_add_assoc(seq![','] + quoted(k), seq![':'], txt + suffix);
    lemma_add_assoc(seq![','], quoted(k), seq![':'] + (txt + suffix));
}

/// The tag member text, rewritten right-associated.
proof fn lemma_tag_decomp(t: Seq<char>, suffix: Seq<char>)
    ensures
        tag_part(Some(t)) + suffix == seq![','] + (quoted(kw_tag()) + (seq![':'] + (quoted(t)
            + suffix))),
{
    lemma_add_assoc(seq![','] + quoted(kw_tag()) + seq![':'], quoted(t), suffix);
    lemma_add_assoc(seq![','] + quoted(kw_tag()), seq![':'], quoted(t) + suffix);
    lemma_add_assoc(seq![','], quoted(kw_tag()), seq![':'] + (quoted(t) + suffix));
}

/// A value's text begins with a non-whitespace character.
proof fn lemma_value_text_head(v: ValueView)
    requires
        value_wf(v),
    ensures
        value_text(v).len() > 0,
        !is_ws(value_text(v)[0]),
{
    match v {
        ValueView::Int(i) => {
            if i < 0 {
                assert(value_text(v)[0] == '-');
            } else {
                lemma_dec_digits_facts(i as nat);
                assert(is_digit(value_text(v)[0]));
            }
        },
        ValueView::Float(t) => {
            assert(is_digit(t[0]) || t[0] == '-');
        },
        ValueView::Text(c) => {
            assert(value_text(v)[0] == '"');
        },
        ValueView::Null => {
            reveal_strlit("null");
            assert(value_text(v)[0] == 'n');
        },
    }
}

/// One encoded labelled value followed by a boundary parses back.
#[verifier::rlimit(100)]
proof fn lemma_lv_round(lv: LabeledValueView, rest: Seq<char>)
    requires
        lv_wf(lv),
        rest.len() > 0,
        !is_ws(rest[0]),
    ensures
        parse_lv_object(lv_text(lv) + rest) == Some((lv, rest)),
{
    reveal_strlit("label");
    reveal_strlit("value");
    assert(kw_label().len() == 5);
    assert(kw_value().len() == 5);
    assert(kw_label() != kw_value()) by {
        assert(kw_label()[0] == 'l' && kw_value()[0] == 'v');
    }
    let vtxt = value_text(lv.value);
    // right-associate the object's text
    let tail4 = seq![':'] + (vtxt + (seq!['}'] + rest));
    let tail3 = quoted(kw_value()) + tail4;
    let tail2 = seq![','] + tail3;
    let tail1 = quoted(lv.label) + tail2;
    let s = lv_text(lv) + rest;
    assert(s == seq!['{'] + (quoted(kw_label()) + (seq![':'] + (tail1)))) by {
        let a = seq!['{'] + quoted(kw_label()) + seq![':'] + quoted(lv.label) + seq![','] + quoted(
            kw_value(),
        ) + seq![':'] + vtxt + seq!['}'];
        lemma_add_assoc(a.drop_last(), seq!['}'], rest);
        assert(a.drop_last() =~= seq!['{'] + quoted(kw_label()) + seq![':'] + quoted(lv.label)
            + seq![','] + quoted(kw_value()) + seq![':'] + vtxt);
        assert(a == lv_text(lv));
        assert(s =~= seq!['{'] + (quoted(kw_label()) + (seq![':'] + (quoted(lv.label) + (seq![',']
            + (quoted(kw_value()) + (seq![':'] + (vtxt + (seq!['}'] + rest)))))))));
    }
    assert(s[0] == '{');
    assert(s.drop_first() =~= quoted(kw_label()) + (seq![':'] + tail1));
    let s1 = quoted(kw_label()) + (seq![':'] + tail1);
    assert(s1[0] == '"');
    ws_id(s1);
    // first member: "label"
    lemma_parse_quoted(kw_label(), seq![':'] + tail1);
    let s2 = seq![':'] + tail1;
    ws_id(s2);
    assert(s2[0] == ':');
    assert(s2.drop_first() =~= tail1);
    assert(tail1[0] == '"');
    ws_id(tail1);
    lemma_parse_quoted(lv.label, tail2);
    // member loop: ","value":...
    assert(lv_fields_first(s1) == lv_fields(tail2, Some(lv.label), None));
    lemma_value_text_head(lv.value);
    assert((vtxt + (seq!['}'] + rest))[0] == vtxt[0]);
    lemma_member_key_round(kw_value(), vtxt + (seq!['}'] + rest));
    assert(tail2 == seq![','] + (quoted(kw_value()) + (seq![':'] + (vtxt + (seq!['}'] + rest)))));
    ws_id(tail2);
    assert(tail2[0] == ',');
    // the value, bounded by the closing brace
    let close = seq!['}'] + rest;
    assert(close[0] == '}');
    assert(num_boundary('}') && '}' != '"');
    lemma_value_round(lv.value, close);
    assert(lv_fields(tail2, Some(lv.label), None) == lv_fields(close, Some(lv.label), Some(
        lv.value,
    )));
    // and the closing brace
    ws_id(close);
    assert(close.drop_first() =~= rest);
    assert(lv_fields(close, Some(lv.label), Some(lv.value)) == Some(
        (LabeledValueView { label: lv.label, value: lv.value }, rest),
    ));
    assert(LabeledValueView { label: lv.label, value: lv.value } == lv);
}


/// The text of an array's elements after the first: `,<item>` repeated.
pub open spec fn items_tail_text(items: Seq<Seq<char>>) -> Seq<char>
    decreases items.len(),
{
    if items.len() == 0 {
        Seq::empty()
    } else {
        seq![','] + items[0] + items_tail_text(items.drop_first())
    }
}

proof fn lemma_items_tail_snoc(items: Seq<Seq<char>>, x: Seq<char>)
    ensures
        items_tail_text(items.push(x)) == items_tail_text(items) + (seq![','] + x),
    decreases items.len(),
{
    if items.len() == 0 {
        assert(items.push(x)[0] == x);
        assert(items.push(x).drop_first() =~= Seq::<Seq<char>>::empty());
        assert(items_tail_text(Seq::<Seq<char>>::empty()) == Seq::<char>::empty());
        assert(items_tail_text(items.push(x)) == seq![','] + x + Seq::<char>::empty());
        assert(seq![','] + x + Seq::<char>::empty() =~= seq![','] + x);
        assert(items_tail_text(items) + (seq![','] + x) =~= seq![','] + x);
    } else {
        assert(items.push(x)[0] == items[0]);
        assert(items.push(x).drop_first() =~= items.drop_first().push(x));
        lemma_items_tail_snoc(items.drop_first(), x);
        lemma_add_assoc(seq![','] + items[0], items_tail_text(items.drop_first()), seq![','] + x);
    }
}

/// A nonempty joined item list is its first item, then the tail text.
proof fn lemma_join_decomp(items: Seq<Seq<char>>)
    requires
        items.len() >= 1,
    ensures
        join_items(items) == items[0] + items_tail_text(items.drop_first()),
    decreases items.len(),
{
    if items.len() == 1 {
        assert(items.drop_first() =~= Seq::<Seq<char>>::empty());
        assert(items[0] + Seq::<char>::empty() =~= items[0]);
    } else {
        let butlast = items.drop_last();
        lemma_join_decomp(butlast);
        assert(butlast[0] == items[0]);
        assert(join_items(items) == join_items(butlast) + seq![','] + items.last());
        lemma_items_tail_snoc(butlast.drop_first(), items.last());
        assert(butlast.drop_first().push(items.last()) =~= items.drop_first());
        lemma_add_assoc(items[0], items_tail_text(butlast.drop_first()), seq![','] + items.last());
        lemma_add_assoc(join_items(butlast), seq![','], items.last());
        assert((join_items(butlast) + seq![',']) + items.last() =~= join_items(butlast) + (seq![
            ','
        ] + items.last()));
        assert(join_items(butlast) + (seq![','] + items.last()) == (items[0] + items_tail_text(
            butlast.drop_first(),
        )) + (seq![','] + items.last()));
    }
}

/// Label-array elements after the first parse back, appending to what is
/// already parsed.
proof fn lemma_label_rest_round(done: Seq<Seq<char>>, ls: Seq<Seq<char>>, rest: Seq<char>)
    ensures
        label_array_rest(
            items_tail_text(ls.map_values(|l: Seq<char>| quoted(l))) + (seq![']'] + rest),
            done,
        ) == Some((done + ls, rest)),
    decreases ls.len(),
{
    let js = ls.map_values(|l: Seq<char>| quoted(l));
    if ls.len() == 0 {
        let s = items_tail_text(js) + (seq![']'] + rest);
        assert(s =~= seq![']'] + rest);
        ws_id(s);
        assert(s[0] == ']');
        assert(s.drop_first() =~= rest);
        assert(done + ls =~= done);
    } else {
        let l0 = ls[0];
        let tailjs = js.drop_first();
        assert(tailjs =~= ls.drop_first().map_values(|l: Seq<char>| quoted(l)));
        let s = items_tail_text(js) + (seq![']'] + rest);
        assert(js[0] == quoted(l0));
        assert(items_tail_text(js) == seq![','] + quoted(l0) + items_tail_text(tailjs));
        lemma_add_assoc(seq![','] + quoted(l0), items_tail_text(tailjs), seq![']'] + rest);
        lemma_add_assoc(seq![','], quoted(l0), items_tail_text(tailjs) + (seq![']'] + rest));
        assert(s == seq![','] + (quoted(l0) + (items_tail_text(tailjs) + (seq![']'] + rest))));
        ws_id(s);
        assert(s[0] == ',');
        assert(s.drop_first() =~= quoted(l0) + (items_tail_text(tailjs) + (seq![']'] + rest)));
        let s1 = quoted(l0) + (items_tail_text(tailjs) + (seq![']'] + rest));
        assert(s1[0] == '"');
        ws_id(s1);
        lemma_parse_quoted(l0, items_tail_text(tailjs) + (seq![']'] + rest));
        lemma_label_rest_round(done.push(l0), ls.drop_first(), rest);
        assert(done.push(l0) + ls.drop_first() =~= done + ls);
    }
}

/// A label array's text, followed by anything, parses back.
proof fn lemma_label_array_round(ls: Seq<Seq<char>>, rest: Seq<char>)
    ensures
        parse_label_array(label_array_text(ls) + rest) == Some((ls, rest)),
{
    let js = ls.map_values(|l: Seq<char>| quoted(l));
    let s = label_array_text(ls) + rest;
    lemma_add_assoc(seq!['['] + join_items(js), seq![']'], rest);
    lemma_add_assoc(seq!['['], join_items(js), seq![']'] + rest);
    assert(s == seq!['['] + (join_items(js) + (seq![']'] + rest)));
    assert(s[0] == '[');
    assert(s.drop_first() =~= join_items(js) + (seq![']'] + rest));
    if ls.len() == 0 {
        let s1 = join_items(js) + (seq![']'] + rest);
        assert(s1 =~= seq![']'] + rest);
        ws_id(s1);
        assert(s1[0] == ']');
        assert(s1.drop_first() =~= rest);
        assert(Seq::<Seq<char>>::empty() =~= ls);
    } else {
        lemma_join_decomp(js);
        assert(js[0] == quoted(ls[0]));
        let s1 = join_items(js) + (seq![']'] + rest);
        lemma_add_assoc(quoted(ls[0]), items_tail_text(js.drop_first()), seq![']'] + rest);
        assert(s1 == quoted(ls[0]) + (items_tail_text(js.drop_first()) + (seq![']'] + rest)));
        assert(s1[0] == '"');
        ws_id(s1);
        lemma_parse_quoted(ls[0], items_tail_text(js.drop_first()) + (seq![']'] + rest));
        assert(js.drop_first() =~= ls.drop_first().map_values(|l: Seq<char>| quoted(l)));
        lemma_label_rest_round(seq![ls[0]], ls.drop_first(), rest);
        assert(seq![ls[0]] + ls.drop_first() =~= ls);
    }
}

/// Labelled-value array elements after the first parse back.
#[verifier::rlimit(100)]
#[verifier::spinoff_prover]
proof fn lemma_lv_rest_round(done: Seq<LabeledValueView>, ps: Seq<LabeledValueView>, rest: Seq<char>)
    requires
        forall|i: int| 0 <= i < ps.len() ==> lv_wf(#[trigger] ps[i]),
        rest.len() > 0,
        !is_ws(rest[0]),
    ensures
        lv_array_rest(
            items_tail_text(ps.map_values(|lv: LabeledValueView| lv_text(lv))) + (seq![']']
                + rest),
            done,
        ) == Some((done + ps, rest)),
    decreases ps.len(),
{
    let js = ps.map_values(|lv: LabeledValueView| lv_text(lv));
    if ps.len() == 0 {
        let s = items_tail_text(js) + (seq![']'] + rest);
        assert(s =~= seq![']'] + rest);
        ws_id(s);
        assert(s[0] == ']');
        assert(s.drop_first() =~= rest);
        assert(done + ps =~= done);
    } else {
        let p0 = ps[0];
        let tailjs = js.drop_first();
        assert(tailjs =~= ps.drop_first().map_values(|lv: LabeledValueView| lv_text(lv)));
        let s = items_tail_text(js) + (seq![']'] + rest);
        assert(js[0] == lv_text(p0));
        assert(items_tail_text(js) == seq![','] + lv_text(p0) + items_tail_text(tailjs));
        lemma_add_assoc(seq![','] + lv_text(p0), items_tail_text(tailjs), seq![']'] + rest);
        lemma_add_assoc(seq![','], lv_text(p0), items_tail_text(tailjs) + (seq![']'] + rest));
        assert(s == seq![','] + (lv_text(p0) + (items_tail_text(tailjs) + (seq![']'] + rest))));
        ws_id(s);
        assert(s[0] == ',');
        assert(s.drop_first() =~= lv_text(p0) + (items_tail_text(tailjs) + (seq![']'] + rest)));
        let s1 = lv_text(p0) + (items_tail_text(tailjs) + (seq![']'] + rest));
        assert(s1[0] == '{');
        ws_id(s1);
        let after = items_tail_text(tailjs) + (seq![']'] + rest);
        assert(after.len() > 0 && !is_ws(after[0])) by {
            if ps.len() == 1 {
                assert(after =~= seq![']'] + rest);
            } else {
                assert(items_tail_text(tailjs) == seq![','] + tailjs[0] + items_tail_text(
                    tailjs.drop_first(),
                ));
                assert(after[0] == ',');
            }
        }
        assert(lv_wf(p0));
        lemma_lv_round(p0, after);
        lemma_lv_rest_round(done.push(p0), ps.drop_first(), rest);
        assert(done.push(p0) + ps.drop_first() =~= done + ps);
    }
}

/// A labelled-value array's text, followed by a boundary, parses back.
#[verifier::rlimit(100)]
#[verifier::spinoff_prover]
proof fn lemma_lv_array_round(ps: Seq<LabeledValueView>, rest: Seq<char>)
    requires
        forall|i: int| 0 <= i < ps.len() ==> lv_wf(#[trigger] ps[i]),
        rest.len() > 0,
        !is_ws(rest[0]),
    ensures
        parse_lv_array(lv_array_text(ps) + rest) == Some((ps, rest)),
{
    let js = ps.map_values(|lv: LabeledValueView| lv_text(lv));
    let s = lv_array_text(ps) + rest;
    lemma_add_assoc(seq!['['] + join_items(js), seq![']'], rest);
    lemma_add_assoc(seq!['['], join_items(js), seq![']'] + rest);
    assert(s == seq!['['] + (join_items(js) + (seq![']'] + rest)));
    assert(s[0] == '[');
    assert(s.drop_first() =~= join_items(js) + (seq![']'] + rest));
    if ps.len() == 0 {
        let s1 = join_items(js) + (seq![']'] + rest);
        assert(s1 =~= seq![']'] + rest);
        ws_id(s1);
        assert(s1[0] == ']');
        assert(s1.drop_first() =~= rest);
        assert(Seq::<LabeledValueView>::empty() =~= ps);
    } else {
        lemma_join_decomp(js);
        assert(js[0] == lv_text(ps[0]));
        let s1 = join_items(js) + (seq![']'] + rest);
        lemma_add_assoc(lv_text(ps[0]), items_tail_text(js.drop_first()), seq![']'] + rest);
        assert(s1 == lv_text(ps[0]) + (items_tail_text(js.drop_first()) + (seq![']'] + rest)));
        assert(s1[0] == '{');
        ws_id(s1);
        let after = items_tail_text(js.drop_first()) + (seq![']'] + rest);
        assert(after.len() > 0 && !is_ws(after[0])) by {
            if ps.len() == 1 {
                assert(after =~= seq![']'] + rest);
            } else {
                assert(js.drop_first()[0] == lv_text(ps[1]));
                assert(items_tail_text(js.drop_first()) == seq![','] + js.drop_first()[0]
                    + items_tail_text(js.drop_first().drop_first()));
                assert(after[0] == ',');
            }
        }
        assert(lv_wf(ps[0]));
        lemma_lv_round(ps[0], after);
        assert(js.drop_first() =~= ps.drop_first().map_values(
            |lv: LabeledValueView| lv_text(lv),
        ));
        lemma_lv_rest_round(seq![ps[0]], ps.drop_first(), rest);
        assert(seq![ps[0]] + ps.drop_first() =~= ps);
    }
}


proof fn lemma_head_decomp(cmd: Seq<char>, fields: Seq<char>)
    ensures
        head_part(cmd) + fields == seq!['{'] + (quoted(kw_command()) + (seq![':'] + (quoted(cmd)
            + fields))),
{
    lemma_add_assoc(seq!['{'] + quoted(kw_command()) + seq![':'], quoted(cmd), fields);
    lemma_add_assoc(seq!['{'] + quoted(kw_command()), seq![':'], quoted(cmd) + fields);
    lemma_add_assoc(seq!['{'], quoted(kw_command()), seq![':'] + (quoted(cmd) + fields));
}

/// The flattened tag a member loop builds from its slot.
pub open spec fn slot_tag(tagslot: Option<Option<Seq<char>>>) -> Option<Seq<char>> {
    match tagslot {
        Some(t) => t,
        None => None,
    }
}

#[verifier::rlimit(100)]
proof fn lemma_get_req_members(tagslot: Option<Option<Seq<char>>>, params: Seq<Seq<char>>)
    ensures
        get_request_fields(
            member_part(kw_params(), label_array_text(params)) + seq!['}'],
            tagslot,
            None,
        ) == Some(
            (
                MessageView::GetDataRequest(
                    GetDataRequestView { tag: slot_tag(tagslot), params },
                ),
                Seq::<char>::empty(),
            ),
        ),
{
    reveal_strlit("tag");
    reveal_strlit("params");
    assert(kw_tag().len() == 3 && kw_params().len() == 6);
    let atxt = label_array_text(params);
    let s = member_part(kw_params(), atxt) + seq!['}'];
    lemma_member_decomp(kw_params(), atxt, seq!['}']);
    assert(s == seq![','] + (quoted(kw_params()) + (seq![':'] + (atxt + seq!['}']))));
    ws_id(s);
    assert(s[0] == ',');
    assert(atxt[0] == '[');
    assert((atxt + seq!['}'])[0] == '[');
    lemma_member_key_round(kw_params(), atxt + seq!['}']);
    lemma_label_array_round(params, seq!['}']);
    let close = seq!['}'];
    ws_id(close);
    assert(close[0] == '}');
    assert(close.drop_first() =~= Seq::<char>::empty());
    assert(get_request_fields(close, tagslot, Some(params)) == Some(
        (
            MessageView::GetDataRequest(GetDataRequestView { tag: slot_tag(tagslot), params }),
            Seq::<char>::empty(),
        ),
    ));
}

#[verifier::rlimit(100)]
proof fn lemma_set_req_members(tagslot: Option<Option<Seq<char>>>, params: Seq<LabeledValueView>)
    requires
        forall|i: int| 0 <= i < params.len() ==> lv_wf(#[trigger] params[i]),
    ensures
        set_request_fields(
            member_part(kw_params(), lv_array_text(params)) + seq!['}'],
            tagslot,
            None,
        ) == Some(
            (
                MessageView::SetDataRequest(
                    SetDataRequestView { tag: slot_tag(tagslot), params },
                ),
                Seq::<char>::empty(),
            ),
        ),
{
    reveal_strlit("tag");
    reveal_strlit("params");
    assert(kw_tag().len() == 3 && kw_params().len() == 6);
    let atxt = lv_array_text(params);
    let s = member_part(kw_params(), atxt) + seq!['}'];
    lemma_member_decomp(kw_params(), atxt, seq!['}']);
    assert(s == seq![','] + (quoted(kw_params()) + (seq![':'] + (atxt + seq!['}']))));
    ws_id(s);
    assert(s[0] == ',');
    assert(atxt[0] == '[');
    assert((atxt + seq!['}'])[0] == '[');
    lemma_member_key_round(kw_params(), atxt + seq!['}']);
    lemma_lv_array_round(params, seq!['}']);
    let close = seq!['}'];
    ws_id(close);
    assert(close[0] == '}');
    assert(close.drop_first() =~= Seq::<char>::empty());
    assert(set_request_fields(close, tagslot, Some(params)) == Some(
        (
            MessageView::SetDataRequest(SetDataRequestView { tag: slot_tag(tagslot), params }),
            Seq::<char>::empty(),
        ),
    ));
}

#[verifier::rlimit(100)]
proof fn lemma_set_resp_members(tagslot: Option<Option<Seq<char>>>, st: Status)
    ensures
        set_response_fields(
            member_part(kw_status(), quoted(status_kw(st))) + seq!['}'],
            tagslot,
            None,
        ) == Some(
            (
                MessageView::SetDataResponse(
                    SetDataResponseView { tag: slot_tag(tagslot), status: st },
                ),
                Seq::<char>::empty(),
            ),
        ),
{
    reveal_strlit("tag");
    reveal_strlit("status");
    assert(kw_tag().len() == 3 && kw_status().len() == 6);
    let stxt = quoted(status_kw(st));
    let s = member_part(kw_status(), stxt) + seq!['}'];
    lemma_member_decomp(kw_status(), stxt, seq!['}']);
    assert(s == seq![','] + (quoted(kw_status()) + (seq![':'] + (stxt + seq!['}']))));
    ws_id(s);
    assert(s[0] == ',');
    assert(stxt[0] == '"');
    assert((stxt + seq!['}'])[0] == '"');
    lemma_member_key_round(kw_status(), stxt + seq!['}']);
    lemma_status_round(st, seq!['}']);
    let close = seq!['}'];
    ws_id(close);
    assert(close[0] == '}');
    assert(close.drop_first() =~= Seq::<char>::empty());
    assert(set_response_fields(close, tagslot, Some(st)) == Some(
        (
            MessageView::SetDataResponse(
                SetDataResponseView { tag: slot_tag(tagslot), status: st },
            ),
            Seq::<char>::empty(),
        ),
    ));
}

#[verifier::rlimit(100)]
proof fn lemma_get_resp_members(
    tagslot: Option<Option<Seq<char>>>,
    st: Status,
    results: Seq<LabeledValueView>,
)
    requires
        forall|i: int| 0 <= i < results.len() ==> lv_wf(#[trigger] results[i]),
    ensures
        get_response_fields(
            member_part(kw_status(), quoted(status_kw(st))) + member_part(
                kw_results(),
                lv_array_text(results),
            ) + seq!['}'],
            tagslot,
            None,
            None,
        ) == Some(
            (
                MessageView::GetDataResponse(
                    GetDataResponseView { tag: slot_tag(tagslot), status: st, results },
                ),
                Seq::<char>::empty(),
            ),
        ),
{
    reveal_strlit("tag");
    reveal_strlit("status");
    reveal_strlit("results");
    assert(kw_tag().len() == 3 && kw_status().len() == 6 && kw_results().len() == 7);
    let stxt = quoted(status_kw(st));
    let atxt = lv_array_text(results);
    let m2 = member_part(kw_results(), atxt);
    let s = member_part(kw_status(), stxt) + m2 + seq!['}'];
    lemma_add_assoc(member_part(kw_status(), stxt), m2, seq!['}']);
    lemma_member_decomp(kw_status(), stxt, m2 + seq!['}']);
    assert(s == seq![','] + (quoted(kw_status()) + (seq![':'] + (stxt + (m2 + seq!['}'])))));
    ws_id(s);
    assert(s[0] == ',');
    assert(stxt[0] == '"');
    assert((stxt + (m2 + seq!['}']))[0] == '"');
    lemma_member_key_round(kw_status(), stxt + (m2 + seq!['}']));
    lemma_status_round(st, m2 + seq!['}']);
    // the results member
    let s2 = m2 + seq!['}'];
    lemma_member_decomp(kw_results(), atxt, seq!['}']);
    assert(s2 == seq![','] + (quoted(kw_results()) + (seq![':'] + (atxt + seq!['}']))));
    ws_id(s2);
    assert(s2[0] == ',');
    assert(atxt[0] == '[');
    assert((atxt + seq!['}'])[0] == '[');
    lemma_member_key_round(kw_results(), atxt + seq!['}']);
    lemma_lv_array_round(results, seq!['}']);
    let close = seq!['}'];
    ws_id(close);
    assert(close[0] == '}');
    assert(close.drop_first() =~= Seq::<char>::empty());
    assert(get_response_fields(close, tagslot, Some(st), Some(results)) == Some(
        (
            MessageView::GetDataResponse(
                GetDataResponseView { tag: slot_tag(tagslot), status: st, results },
            ),
            Seq::<char>::empty(),
        ),
    ));
    assert(get_response_fields(s2, tagslot, Some(st), None) == get_response_fields(
        close,
        tagslot,
        Some(st),
        Some(results),
    ));
}

/// The walk shared by every kind: the object head, the command member,
/// and the dispatch on the command name.
#[verifier::rlimit(100)]
proof fn lemma_head_walk(cmd: Seq<char>, fields: Seq<char>)
    requires
        fields.len() > 0,
        !is_ws(fields[0]),
    ensures
        ({
            let s = head_part(cmd) + fields;
            &&& skip_ws(s) == s
            &&& s.len() > 0 && s[0] == '{'
            &&& parse_string(skip_ws(s.drop_first())) == Some(
                (kw_command(), seq![':'] + (quoted(cmd) + fields)),
            )
            &&& skip_ws(seq![':'] + (quoted(cmd) + fields)) == seq![':'] + (quoted(cmd) + fields)
            &&& parse_string(skip_ws((seq![':'] + (quoted(cmd) + fields)).drop_first())) == Some(
                (cmd, fields),
            )
        }),
{
    lemma_head_decomp(cmd, fields);
    let s = head_part(cmd) + fields;
    assert(s == seq!['{'] + (quoted(kw_command()) + (seq![':'] + (quoted(cmd) + fields))));
    assert(s[0] == '{');
    ws_id(s);
    assert(s.drop_first() =~= quoted(kw_command()) + (seq![':'] + (quoted(cmd) + fields)));
    let s1 = quoted(kw_command()) + (seq![':'] + (quoted(cmd) + fields));
    assert(s1[0] == '"');
    ws_id(s1);
    lemma_parse_quoted(kw_command(), seq![':'] + (quoted(cmd) + fields));
    let s2 = seq![':'] + (quoted(cmd) + fields);
    ws_id(s2);
    assert(s2[0] == ':');
    assert(s2.drop_first() =~= quoted(cmd) + fields);
    let s3 = quoted(cmd) + fields;
    assert(s3[0] == '"');
    ws_id(s3);
    lemma_parse_quoted(cmd, fields);
}

/// The four command names are pairwise distinct.
proof fn lemma_commands_distinct()
    ensures
        kw_get_request() != kw_get_response(),
        kw_get_request() != kw_set_request(),
        kw_get_request() != kw_set_response(),
        kw_get_response() != kw_set_request(),
        kw_get_response() != kw_set_response(),
        kw_set_request() != kw_set_response(),
{
    reveal_strlit("GetDataRequest");
    reveal_strlit("GetDataResponse");
    reveal_strlit("SetDataRequest");
    reveal_strlit("SetDataResponse");
    assert(kw_get_request().len() == 14);
    assert(kw_get_response().len() == 15);
    assert(kw_set_request().len() == 14);
    assert(kw_set_response().len() == 15);
    assert(kw_get_request()[0] == 'G' && kw_set_request()[0] == 'S');
    assert(kw_get_response()[0] == 'G' && kw_set_response()[0] == 'S');
}

/// The law of the codec: every well-formed message value decodes, from
/// its own encoding, back to itself — field order and the omission of an
/// absent tag do not change what the line denotes.
#[verifier::rlimit(100)]
pub proof fn lemma_round_trip(m: MessageView)
    ensures
        message_wf(m) ==> decode_spec(encode_spec(m)) == Some(m),
{
    if message_wf(m) {
        lemma_commands_distinct();
        match m {
            MessageView::GetDataRequest(r) => {
                let mtxt = member_part(kw_params(), label_array_text(r.params));
                let fields = tag_part(r.tag) + (mtxt + seq!['}']);
                assert(encode_spec(m) == head_part(kw_get_request()) + fields) by {
                    lemma_add_assoc(
                        head_part(kw_get_request()) + tag_part(r.tag),
                        mtxt,
                        seq!['}'],
                    );
                    lemma_add_assoc(head_part(kw_get_request()), tag_part(r.tag), mtxt + seq!['}']);
                }
                lemma_fields_head(r.tag, mtxt);
                lemma_head_walk(kw_get_request(), fields);
                match r.tag {
                    Some(t) => {
                        lemma_tag_member_walk_gr(t, mtxt);
                        lemma_get_req_members(Some(Some(t)), r.params);
                    },
                    None => {
                        assert(fields =~= mtxt + seq!['}']);
                        lemma_get_req_members(None, r.params);
                    },
                }
                assert(skip_ws(Seq::<char>::empty()).len() == 0);
            },
            MessageView::SetDataRequest(r) => {
                let mtxt = member_part(kw_params(), lv_array_text(r.params));
                let fields = tag_part(r.tag) + (mtxt + seq!['}']);
                assert(encode_spec(m) == head_part(kw_set_request()) + fields) by {
                    lemma_add_assoc(
                        head_part(kw_set_request()) + tag_part(r.tag),
                        mtxt,
                        seq!['}'],
                    );
                    lemma_add_assoc(head_part(kw_set_request()), tag_part(r.tag), mtxt + seq!['}']);
                }
                lemma_fields_head(r.tag, mtxt);
                lemma_head_walk(kw_set_request(), fields);
                match r.tag {
                    Some(t) => {
                        lemma_tag_member_walk_sr(t, mtxt);
                        lemma_set_req_members(Some(Some(t)), r.params);
                    },
                    None => {
                        assert(fields =~= mtxt + seq!['}']);
                        lemma_set_req_members(None, r.params);
                    },
                }
                assert(skip_ws(Seq::<char>::empty()).len() == 0);
            },
            MessageView::SetDataResponse(r) => {
                let mtxt = member_part(kw_status(), quoted(status_kw(r.status)));
                let fields = tag_part(r.tag) + (mtxt + seq!['}']);
                assert(encode_spec(m) == head_part(kw_set_response()) + fields) by {
                    lemma_add_assoc(
                        head_part(kw_set_response()) + tag_part(r.tag),
                        mtxt,
                        seq!['}'],
                    );
                    lemma_add_assoc(
                        head_part(kw_set_response()),
                        tag_part(r.tag),
                        mtxt + seq!['}'],
                    );
                }
                lemma_fields_head(r.tag, mtxt);
                lemma_head_walk(kw_set_response(), fields);
                match r.tag {
                    Some(t) => {
                        lemma_tag_member_walk_ss(t, mtxt);
                        lemma_set_resp_members(Some(Some(t)), r.status);
                    },
                    None => {
                        assert(fields =~= mtxt + seq!['}']);
                        lemma_set_resp_members(None, r.status);
                    },
                }
                assert(skip_ws(Seq::<char>::empty()).len() == 0);
            },
            MessageView::GetDataResponse(r) => {
                let mtxt = member_part(kw_status(), quoted(status_kw(r.status))) + member_part(
                    kw_results(),
                    lv_array_text(r.results),
                );
                let fields = tag_part(r.tag) + (mtxt + seq!['}']);
                assert(encode_spec(m) == head_part(kw_get_response()) + fields) by {
                    lemma_add_assoc(
                        head_part(kw_get_response()) + tag_part(r.tag),
                        mtxt,
                        seq!['}'],
                    );
                    lemma_add_assoc(
                        head_part(kw_get_response()),
                        tag_part(r.tag),
                        mtxt + seq!['}'],
                    );
                }
                assert(mtxt[0] == ',');
                lemma_fields_head(r.tag, mtxt);
                lemma_head_walk(kw_get_response(), fields);
                match r.tag {
                    Some(t) => {
                        lemma_tag_member_walk_gs(t, mtxt);
                        lemma_get_resp_members(Some(Some(t)), r.status, r.results);
                    },
                    None => {
                        assert(fields =~= mtxt + seq!['}']);
                        lemma_get_resp_members(None, r.status, r.results);
                    },
                }
                assert(skip_ws(Seq::<char>::empty()).len() == 0);
            },
        }
    }
}

/// The member text after the head starts with a comma, so the whole
/// fields text starts with a comma either way.
proof fn lemma_fields_head(tag: Option<Seq<char>>, mtxt: Seq<char>)
    requires
        mtxt.len() > 0,
        mtxt[0] == ',',
    ensures
        (tag_part(tag) + (mtxt + seq!['}'])).len() > 0,
        (tag_part(tag) + (mtxt + seq!['}']))[0] == ',',
{
    match tag {
        Some(t) => {
            assert(tag_part(tag)[0] == ',');
        },
        None => {
            assert(tag_part(tag) + (mtxt + seq!['}']) =~= mtxt + seq!['}']);
        },
    }
}


#[verifier::rlimit(100)]
proof fn lemma_tag_member_walk_gr(t: Seq<char>, mtxt: Seq<char>)
    requires
        mtxt.len() > 0,
        mtxt[0] == ',',
    ensures
        get_request_fields(tag_part(Some(t)) + (mtxt + seq!['}']), None, None) == get_request_fields(
            mtxt + seq!['}'],
            Some(Some(t)), None,
        ),
{
    let fields = tag_part(Some(t)) + (mtxt + seq!['}']);
    lemma_tag_decomp(t, mtxt + seq!['}']);
    assert(fields == seq![','] + (quoted(kw_tag()) + (seq![':'] + (quoted(t) + (mtxt + seq![
        '}'
    ])))));
    ws_id(fields);
    assert(fields[0] == ',');
    assert((quoted(t) + (mtxt + seq!['}']))[0] == '"');
    lemma_member_key_round(kw_tag(), quoted(t) + (mtxt + seq!['}']));
    lemma_parse_quoted(t, mtxt + seq!['}']);
    assert(parse_tag_value(quoted(t) + (mtxt + seq!['}'])) == Some((Some(t), mtxt + seq!['}'])));
}

#[verifier::rlimit(100)]
proof fn lemma_tag_member_walk_sr(t: Seq<char>, mtxt: Seq<char>)
    requires
        mtxt.len() > 0,
        mtxt[0] == ',',
    ensures
        set_request_fields(tag_part(Some(t)) + (mtxt + seq!['}']), None, None) == set_request_fields(
            mtxt + seq!['}'],
            Some(Some(t)), None,
        ),
{
    let fields = tag_part(Some(t)) + (mtxt + seq!['}']);
    lemma_tag_decomp(t, mtxt + seq!['}']);
    assert(fields == seq![','] + (quoted(kw_tag()) + (seq![':'] + (quoted(t) + (mtxt + seq![
        '}'
    ])))));
    ws_id(fields);
    assert(fields[0] == ',');
    assert((quoted(t) + (mtxt + seq!['}']))[0] == '"');
    lemma_member_key_round(kw_tag(), quoted(t) + (mtxt + seq!['}']));
    lemma_parse_quoted(t, mtxt + seq!['}']);
    assert(parse_tag_value(quoted(t) + (mtxt + seq!['}'])) == Some((Some(t), mtxt + seq!['}'])));
}

#[verifier::rlimit(100)]
proof fn lemma_tag_member_walk_ss(t: Seq<char>, mtxt: Seq<char>)
    requires
        mtxt.len() > 0,
        mtxt[0] == ',',
    ensures
        set_response_fields(tag_part(Some(t)) + (mtxt + seq!['}']), None, None) == set_response_fields(
            mtxt + seq!['}'],
            Some(Some(t)), None,
        ),
{
    let fields = tag_part(Some(t)) + (mtxt + seq!['}']);
    lemma_tag_decomp(t, mtxt + seq!['}']);
    assert(fields == seq![','] + (quoted(kw_tag()) + (seq![':'] + (quoted(t) + (mtxt + seq![
        '}'
    ])))));
    ws_id(fields);
    assert(fields[0] == ',');
    assert((quoted(t) + (mtxt + seq!['}']))[0] == '"');
    lemma_member_key_round(kw_tag(), quoted(t) + (mtxt + seq!['}']));
    lemma_parse_quoted(t, mtxt + seq!['}']);
    assert(parse_tag_value(quoted(t) + (mtxt + seq!['}'])) == Some((Some(t), mtxt + seq!['}'])));
}

#[verifier::rlimit(100)]
proof fn lemma_tag_member_walk_gs(t: Seq<char>, mtxt: Seq<char>)
    requires
        mtxt.len() > 0,
        mtxt[0] == ',',
    ensures
        get_response_fields(tag_part(Some(t)) + (mtxt + seq!['}']), None, None, None) == get_response_fields(
            mtxt + seq!['}'],
            Some(Some(t)), None, None,
        ),
{
    let fields = tag_part(Some(t)) + (mtxt + seq!['}']);
    lemma_tag_decomp(t, mtxt + seq!['}']);
    assert(fields == seq![','] + (quoted(kw_tag()) + (seq![':'] + (quoted(t) + (mtxt + seq![
        '}'
    ])))));
    ws_id(fields);
    assert(fields[0] == ',');
    assert((quoted(t) + (mtxt + seq!['}']))[0] == '"');
    lemma_member_key_round(kw_tag(), quoted(t) + (mtxt + seq!['}']));
    lemma_parse_quoted(t, mtxt + seq!['}']);
    assert(parse_tag_value(quoted(t) + (mtxt + seq!['}'])) == Some((Some(t), mtxt + seq!['}'])));
}

} // verus!
