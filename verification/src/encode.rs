//! The executable encoder: builds exactly the line of text that
//! [`crate::codec::encode_spec`] denotes for a message.
use vstd::prelude::*;

use crate::codec::{
    chars_to_string, dec_digits, encode_spec, escape_char, escape_seq, head_part, hex_digit_char,
    int_text, is_control, join_items, kw_null, label_array_text, lv_array_text, lv_text,
    member_part, quoted, status_kw, tag_part, value_text, lemma_add_assoc,
};
use crate::message::{LabeledValue, Message, Status, Value};

verus! {

proof fn lemma_escape_seq_snoc(t: Seq<char>, c: char)
    ensures
        escape_seq(t.push(c)) == escape_seq(t) + escape_char(c),
    decreases t.len(),
{
    if t.len() == 0 {
        assert(t.push(c)[0] == c);
        assert(t.push(c).drop_first() =~= Seq::<char>::empty());
        assert(escape_seq(t.push(c)) == escape_char(c) + escape_seq(Seq::<char>::empty()));
        assert(escape_char(c) + Seq::<char>::empty() =~= escape_char(c));
        assert(escape_seq(t) + escape_char(c) =~= escape_char(c));
    } else {
        assert(t.push(c)[0] == t[0]);
        assert(t.push(c).drop_first() =~= t.drop_first().push(c));
        lemma_escape_seq_snoc(t.drop_first(), c);
        lemma_add_assoc(escape_char(t[0]), escape_seq(t.drop_first()), escape_char(c));
    }
}

fn hex_digit_exec(d: u8) -> (r: char)
    requires
        d < 16,
    ensures
        r == hex_digit_char(d as int),
{
    if d < 10 {
        (d + 48) as char
    } else {
        (d + 87) as char
    }
}

fn push_escaped_char(out: &mut Vec<char>, c: char)
    ensures
        final(out)@ == old(out)@ + escape_char(c),
{
    let ghost start = out@;
    if c == '"' {
        out.push('\\');
        out.push('"');
        proof {
            assert(out@ =~= start + escape_char(c));
        }
    } else if c == '\\' {
        out.push('\\');
        out.push('\\');
        proof {
            assert(out@ =~= start + escape_char(c));
        }
    } else if c == '\u{8}' {
        out.push('\\');
        out.push('b');
        proof {
            assert(out@ =~= start + escape_char(c));
        }
    } else if c == '\t' {
        out.push('\\');
        out.push('t');
        proof {
            assert(out@ =~= start + escape_char(c));
        }
    } else if c == '\n' {
        out.push('\\');
        out.push('n');
        proof {
            assert(out@ =~= start + escape_char(c));
        }
    } else if c == '\u{c}' {
        out.push('\\');
        out.push('f');
        proof {
            assert(out@ =~= start + escape_char(c));
        }
    } else if c == '\r' {
        out.push('\\');
        out.push('r');
        proof {
            assert(out@ =~= start + escape_char(c));
        }
    } else if (c as u32) < 0x20 {
        let x = c as u32;
        out.push('\\');
        out.push('u');
        out.push('0');
        out.push('0');
        out.push(hex_digit_exec((x / 16) as u8));
        out.push(hex_digit_exec((x % 16) as u8));
        proof {
            assert(is_control(c));
            assert(out@ =~= start + escape_char(c));
        }
    } else {
        out.push(c);
        proof {
            assert(escape_char(c) == seq![c]);
            assert(out@ =~= start + escape_char(c));
        }
    }
}

fn push_escaped(out: &mut Vec<char>, s: &str)
    ensures
        final(out)@ == old(out)@ + escape_seq(s@),
{
    let ghost start = out@;
    let n = s.unicode_len();
    let mut k: usize = 0;
    proof {
        assert(s@.take(0) =~= Seq::<char>::empty());
        assert(start + Seq::<char>::empty() =~= start);
        assert(escape_seq(Seq::<char>::empty()) =~= Seq::<char>::empty());
    }
    while k < n
        invariant
            0 <= k <= n,
            n == s@.len(),
            out@ == start + escape_seq(s@.take(k as int)),
        decreases n - k,
    {
        let c = s.get_char(k);
        proof {
            assert(s@.take(k as int + 1) =~= s@.take(k as int).push(s@[k as int]));
            lemma_escape_seq_snoc(s@.take(k as int), s@[k as int]);
            lemma_add_assoc(start, escape_seq(s@.take(k as int)), escape_char(s@[k as int]));
        }
        push_escaped_char(out, c);
        k = k + 1;
    }
    proof {
        assert(s@.take(n as int) =~= s@);
    }
}

fn push_quoted(out: &mut Vec<char>, s: &str)
    ensures
        final(out)@ == old(out)@ + quoted(s@),
{
    let ghost start = out@;
    out.push('"');
    proof {
        assert(out@ =~= start + seq!['"']);
    }
    push_escaped(out, s);
    out.push('"');
    proof {
        assert(out@ =~= start + (seq!['"'] + escape_seq(s@) + seq!['"']));
    }
}

/// Appends the literal's characters unchanged.
fn push_lit(out: &mut Vec<char>, s: &str)
    ensures
        final(out)@ == old(out)@ + s@,
{
    let ghost start = out@;
    let n = s.unicode_len();
    let mut k: usize = 0;
    proof {
        assert(start + s@.take(0) =~= start);
    }
    while k < n
        invariant
            0 <= k <= n,
            n == s@.len(),
            out@ == start + s@.take(k as int),
        decreases n - k,
    {
        out.push(s.get_char(k));
        proof {
            assert((start + s@.take(k as int)).push(s@[k as int]) =~= start + s@.take(
                k as int + 1,
            ));
        }
        k = k + 1;
    }
    proof {
        assert(s@.take(n as int) =~= s@);
    }
}

fn push_uint(out: &mut Vec<char>, n: u64)
    ensures
        final(out)@ == old(out)@ + dec_digits(n as nat),
    decreases n,
{
    let ghost start = out@;
    if n < 10 {
        out.push((48 + n as u8) as char);
        proof {
            assert(out@ =~= start + dec_digits(n as nat));
        }
    } else {
        push_uint(out, n / 10);
        out.push((48 + (n % 10) as u8) as char);
        proof {
            assert(out@ =~= start + dec_digits((n / 10) as nat) + seq![(((n as nat % 10) + 48)
                as u8) as char]);
            assert(out@ =~= start + dec_digits(n as nat));
        }
    }
}

fn push_int(out: &mut Vec<char>, v: i64)
    ensures
        final(out)@ == old(out)@ + int_text(v as int),
{
    let ghost start = out@;
    if v < 0 {
        out.push('-');
        let m: u64 = (-(v as i128)) as u64;
        proof {
            assert(m as int == -(v as int));
        }
        push_uint(out, m);
        proof {
            assert(out@ =~= start + (seq!['-'] + dec_digits((-(v as int)) as nat)));
        }
    } else {
        push_uint(out, v as u64);
    }
}

fn push_value(out: &mut Vec<char>, v: &Value)
    ensures
        final(out)@ == old(out)@ + value_text(v@),
{
    match v {
        Value::Int(i) => push_int(out, *i),
        Value::Float(t) => push_lit(out, t.as_str()),
        Value::Text(s) => push_quoted(out, s.as_str()),
        Value::Null => push_lit(out, "null"),
    }
}

fn push_lv(out: &mut Vec<char>, lv: &LabeledValue)
    ensures
        final(out)@ == old(out)@ + lv_text(lv@),
{
    let ghost start = out@;
    out.push('{');
    push_quoted(out, "label");
    out.push(':');
    push_quoted(out, lv.label.as_str());
    out.push(',');
    push_quoted(out, "value");
    out.push(':');
    push_value(out, &lv.value);
    out.push('}');
    proof {
        assert(out@ =~= start + lv_text(lv@));
    }
}

fn push_status(out: &mut Vec<char>, st: Status)
    ensures
        final(out)@ == old(out)@ + quoted(status_kw(st)),
{
    match st {
        Status::OK => push_quoted(out, "OK"),
        Status::InvalidRequest => push_quoted(out, "InvalidRequest"),
        Status::NotFound => push_quoted(out, "NotFound"),
    }
}

proof fn lemma_join_snoc(items: Seq<Seq<char>>, x: Seq<char>)
    ensures
        join_items(items.push(x)) == (if items.len() == 0 {
            x
        } else {
            join_items(items) + seq![','] + x
        }),
{
    let p = items.push(x);
    assert(p.drop_last() =~= items);
    assert(p.last() == x);
    if items.len() == 0 {
        assert(p.len() == 1);
        assert(p[0] == x);
    }
}

fn push_label_array(out: &mut Vec<char>, params: &Vec<String>)
    ensures
        final(out)@ == old(out)@ + label_array_text(params.deep_view()),
{
    let ghost start = out@;
    let ghost js = params.deep_view().map_values(|l: Seq<char>| quoted(l));
    out.push('[');
    let n = params.len();
    let mut k: usize = 0;
    proof {
        assert(js.take(0) =~= Seq::<Seq<char>>::empty());
        assert(out@ =~= start + seq!['['] + join_items(js.take(0)));
    }
    while k < n
        invariant
            0 <= k <= n,
            n == params@.len(),
            js == params.deep_view().map_values(|l: Seq<char>| quoted(l)),
            js.len() == n,
            forall|m: int| 0 <= m < n ==> js[m] == quoted(params.deep_view()[m]),
            out@ == start + seq!['['] + join_items(js.take(k as int)),
        decreases n - k,
    {
        proof {
            assert(js.take(k as int + 1) =~= js.take(k as int).push(js[k as int]));
            lemma_join_snoc(js.take(k as int), js[k as int]);
            assert(params.deep_view()[k as int] == params@[k as int]@);
        }
        if k > 0 {
            out.push(',');
        }
        push_quoted(out, params[k].as_str());
        proof {
            if k == 0 {
                assert(out@ =~= start + seq!['['] + join_items(js.take(1)));
            } else {
                assert(out@ =~= start + seq!['['] + join_items(js.take(k as int + 1)));
            }
        }
        k = k + 1;
    }
    out.push(']');
    proof {
        assert(js.take(n as int) =~= js);
        assert(out@ =~= (start + (seq!['['] + join_items(js) + seq![']'])));
    }
}

fn push_lv_array(out: &mut Vec<char>, params: &Vec<LabeledValue>)
    ensures
        final(out)@ == old(out)@ + lv_array_text(params.deep_view()),
{
    let ghost start = out@;
    let ghost js = params.deep_view().map_values(
        |lv: crate::message::LabeledValueView| lv_text(lv),
    );
    out.push('[');
    let n = params.len();
    let mut k: usize = 0;
    proof {
        assert(js.take(0) =~= Seq::<Seq<char>>::empty());
        assert(out@ =~= start + seq!['['] + join_items(js.take(0)));
    }
    while k < n
        invariant
            0 <= k <= n,
            n == params@.len(),
            js == params.deep_view().map_values(
                |lv: crate::message::LabeledValueView| lv_text(lv),
            ),
            js.len() == n,
            forall|m: int| 0 <= m < n ==> js[m] == lv_text(params.deep_view()[m]),
            out@ == start + seq!['['] + join_items(js.take(k as int)),
        decreases n - k,
    {
        proof {
            assert(js.take(k as int + 1) =~= js.take(k as int).push(js[k as int]));
            lemma_join_snoc(js.take(k as int), js[k as int]);
            assert(params.deep_view()[k as int] == params@[k as int]@);
        }
        if k > 0 {
            out.push(',');
        }
        push_lv(out, &params[k]);
        proof {
            if k == 0 {
                assert(out@ =~= start + seq!['['] + join_items(js.take(1)));
            } else {
                assert(out@ =~= start + seq!['['] + join_items(js.take(k as int + 1)));
            }
        }
        k = k + 1;
    }
    out.push(']');
    proof {
        assert(js.take(n as int) =~= js);
        assert(out@ =~= (start + (seq!['['] + join_items(js) + seq![']'])));
    }
}

fn push_tag(out: &mut Vec<char>, tag: &Option<String>)
    ensures
        final(out)@ == old(out)@ + tag_part(tag.deep_view()),
{
    let ghost start = out@;
    match tag {
        Option::Some(t) => {
            out.push(',');
            push_quoted(out, "tag");
            out.push(':');
            push_quoted(out, t.as_str());
            proof {
                assert(out@ =~= start + tag_part(tag.deep_view()));
            }
        },
        Option::None => {
            proof {
                assert(start + tag_part(tag.deep_view()) =~= start);
            }
        },
    }
}

fn push_head(out: &mut Vec<char>, cmd: &str)
    ensures
        final(out)@ == old(out)@ + head_part(cmd@),
{
    let ghost start = out@;
    out.push('{');
    push_quoted(out, "command");
    out.push(':');
    push_quoted(out, cmd);
    proof {
        assert(out@ =~= start + head_part(cmd@));
    }
}

fn push_member_key(out: &mut Vec<char>, key: &str)
    ensures
        final(out)@ == old(out)@ + (seq![','] + quoted(key@) + seq![':']),
{
    let ghost start = out@;
    out.push(',');
    push_quoted(out, key);
    out.push(':');
    proof {
        assert(out@ =~= start + (seq![','] + quoted(key@) + seq![':']));
    }
}

/// Encodes a message as its single-line JSON text, without a newline.
#[verifier::rlimit(100)]
pub fn encode(m: &Message) -> (r: String)
    ensures
        r@ == encode_spec(m@),
{
    let mut out: Vec<char> = Vec::new();
    proof {
        assert(out@ =~= Seq::<char>::empty());
    }
    match m {
        Message::GetDataRequest(req) => {
            push_head(&mut out, "GetDataRequest");
            proof {
                assert(out@ =~= head_part("GetDataRequest"@));
            }
            push_tag(&mut out, &req.tag);
            push_member_key(&mut out, "params");
            push_label_array(&mut out, &req.params);
            out.push('}');
            proof {
                lemma_add_assoc(
                    head_part("GetDataRequest"@) + tag_part(req.tag.deep_view()),
                    seq![','] + quoted("params"@) + seq![':'],
                    label_array_text(req.params.deep_view()),
                );
                assert(out@ =~= encode_spec(m@));
            }
        },
        Message::SetDataRequest(req) => {
            push_head(&mut out, "SetDataRequest");
            proof {
                assert(out@ =~= head_part("SetDataRequest"@));
            }
            push_tag(&mut out, &req.tag);
            push_member_key(&mut out, "params");
            push_lv_array(&mut out, &req.params);
            out.push('}');
            proof {
                lemma_add_assoc(
                    head_part("SetDataRequest"@) + tag_part(req.tag.deep_view()),
                    seq![','] + quoted("params"@) + seq![':'],
                    lv_array_text(req.params.deep_view()),
                );
                assert(out@ =~= encode_spec(m@));
            }
        },
        Message::GetDataResponse(resp) => {
            push_head(&mut out, "GetDataResponse");
            proof {
                assert(out@ =~= head_part("GetDataResponse"@));
            }
            push_tag(&mut out, &resp.tag);
            push_member_key(&mut out, "status");
            push_status(&mut out, resp.status);
            push_member_key(&mut out, "results");
            push_lv_array(&mut out, &resp.results);
            out.push('}');
            proof {
                let a = head_part("GetDataResponse"@) + tag_part(resp.tag.deep_view());
                lemma_add_assoc(
                    a,
                    seq![','] + quoted("status"@) + seq![':'],
                    quoted(status_kw(resp.status)),
                );
                lemma_add_assoc(
                    a + member_part("status"@, quoted(status_kw(resp.status))),
                    seq![','] + quoted("results"@) + seq![':'],
                    lv_array_text(resp.results.deep_view()),
                );
                assert(out@ =~= encode_spec(m@));
            }
        },
        Message::SetDataResponse(resp) => {
            push_head(&mut out, "SetDataResponse");
            proof {
                assert(out@ =~= head_part("SetDataResponse"@));
            }
            push_tag(&mut out, &resp.tag);
            push_member_key(&mut out, "status");
            push_status(&mut out, resp.status);
            out.push('}');
            proof {
                lemma_add_assoc(
                    head_part("SetDataResponse"@) + tag_part(resp.tag.deep_view()),
                    seq![','] + quoted("status"@) + seq![':'],
                    quoted(status_kw(resp.status)),
                );
                assert(out@ =~= encode_spec(m@));
            }
        },
    }
    chars_to_string(&out)
}

/// Encodes a message as one line: its JSON text and a terminating newline.
pub fn encode_line(m: &Message) -> (r: String)
    ensures
        r@ == encode_spec(m@) + seq!['\n'],
{
    let mut out: Vec<char> = Vec::new();
    let text = encode(m);
    push_lit(&mut out, text.as_str());
    out.push('\n');
    proof {
        assert(Seq::<char>::empty() + text@ =~= text@);
        assert(out@ =~= encode_spec(m@) + seq!['\n']);
    }
    chars_to_string(&out)
}

} // verus!
