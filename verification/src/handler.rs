//! Dispatch of decoded messages against the connection's store: the decision
//! core of connection handling.  Pulling messages off the stream and writing
//! responses back are the surrounding transport's business; this module says
//! exactly which response (if any) a message earns and how the store changes.
use vstd::prelude::*;

use crate::codec::{chars_to_string, decode_spec, encode_spec};
use crate::decode::{copy_range, decode, str_to_chars, DecodeError};
use crate::encode::encode_line;
use crate::message::{
    GetDataResponse, GetDataResponseView, LabeledValue, LabeledValueView, Message, MessageView,
    SetDataResponse, SetDataResponseView, Status, Value, ValueView,
};
use crate::store::Store;

verus! {

/// Whether every requested label is present in the store.
pub open spec fn all_present(store: Map<Seq<char>, ValueView>, params: Seq<Seq<char>>) -> bool {
    forall|i: int| 0 <= i < params.len() ==> store.contains_key(params[i])
}

/// The results of a get request: one entry per requested label, in request
/// order (duplicates looked up independently), a missing label reported
/// with value `Null`.
pub open spec fn get_results(
    store: Map<Seq<char>, ValueView>,
    params: Seq<Seq<char>>,
) -> Seq<LabeledValueView> {
    Seq::new(
        params.len(),
        |i: int|
            LabeledValueView {
                label: params[i],
                value: if store.contains_key(params[i]) {
                    store[params[i]]
                } else {
                    ValueView::Null
                },
            },
    )
}

/// The store after a set request: each pair upserted in order, so later
/// entries win on a repeated label.
pub open spec fn apply_sets(
    store: Map<Seq<char>, ValueView>,
    params: Seq<LabeledValueView>,
) -> Map<Seq<char>, ValueView>
    decreases params.len(),
{
    if params.len() == 0 {
        store
    } else {
        apply_sets(store, params.drop_last()).insert(params.last().label, params.last().value)
    }
}

/// What handling one decoded message does: the store afterwards, and the
/// response to send (`None` for the response kinds, which are ignored).
pub open spec fn handle_spec(store: Map<Seq<char>, ValueView>, m: MessageView) -> (
    Map<Seq<char>, ValueView>,
    Option<MessageView>,
) {
    match m {
        MessageView::GetDataRequest(r) => (
            store,
            Some(
                MessageView::GetDataResponse(
                    GetDataResponseView {
                        tag: r.tag,
                        status: if all_present(store, r.params) {
                            Status::OK
                        } else {
                            Status::NotFound
                        },
                        results: get_results(store, r.params),
                    },
                ),
            ),
        ),
        MessageView::SetDataRequest(r) => (
            apply_sets(store, r.params),
            Some(
                MessageView::SetDataResponse(
                    SetDataResponseView { tag: r.tag, status: Status::OK },
                ),
            ),
        ),
        _ => (store, None),
    }
}

proof fn lemma_apply_sets_take_step(
    store: Map<Seq<char>, ValueView>,
    params: Seq<LabeledValueView>,
    i: int,
)
    requires
        0 <= i < params.len(),
    ensures
        apply_sets(store, params.take(i + 1)) == apply_sets(store, params.take(i)).insert(
            params[i].label,
            params[i].value,
        ),
{
    assert(params.take(i + 1).drop_last() =~= params.take(i));
    assert(params.take(i + 1).last() == params[i]);
}

/// Applies one decoded message to the store and returns the response owed
/// for it, exactly as [`handle_spec`] says.
pub fn handle_message(store: &mut Store, m: Message) -> (r: Option<Message>)
    requires
        old(store).wf(),
    ensures
        final(store).wf(),
        final(store)@ == handle_spec(old(store)@, m@).0,
        r.deep_view() == handle_spec(old(store)@, m@).1,
{
    let ghost store0 = old(store)@;
    let ghost m0 = m@;
    match m {
        Message::GetDataRequest(req) => {
            let ghost params0 = req.params.deep_view();
            let mut results: Vec<LabeledValue> = Vec::new();
            let mut all_found = true;
            let n = req.params.len();
            for i in 0..n
                invariant
                    store.wf(),
                    store@ == store0,
                    n == req.params@.len(),
                    params0 == req.params.deep_view(),
                    results@.len() == i,
                    forall|k: int|
                        0 <= k < i ==> results@[k]@ == get_results(store0, params0)[k],
                    all_found <==> forall|k: int|
                        0 <= k < i ==> store0.contains_key(params0[k]),
            {
                let label = &req.params[i];
                assert(label@ == params0[i as int]);
                match store.get(label) {
                    Some(v) => {
                        results.push(LabeledValue { label: label.clone(), value: v.dup() });
                    },
                    None => {
                        results.push(LabeledValue { label: label.clone(), value: Value::Null });
                        all_found = false;
                    },
                }
            }
            let status = if all_found {
                Status::OK
            } else {
                Status::NotFound
            };
            proof {
                assert(forall|k: int|
                    0 <= k < results@.len() ==> results.deep_view()[k] == results@[k]@);
                assert(results.deep_view() =~= get_results(store0, params0));
            }
            let response = Message::GetDataResponse(
                GetDataResponse { tag: req.tag, status, results },
            );
            Some(response)
        },
        Message::SetDataRequest(req) => {
            let ghost params0 = req.params.deep_view();
            let n = req.params.len();
            for i in 0..n
                invariant
                    store.wf(),
                    n == req.params@.len(),
                    params0 == req.params.deep_view(),
                    store@ == apply_sets(store0, params0.take(i as int)),
            {
                let lv = &req.params[i];
                store.insert(lv.label.clone(), lv.value.dup());
                proof {
                    lemma_apply_sets_take_step(store0, params0, i as int);
                }
            }
            proof {
                assert(params0.take(n as int) =~= params0);
            }
            let response = Message::SetDataResponse(
                SetDataResponse { tag: req.tag, status: Status::OK },
            );
            Some(response)
        },
        _ => None,
    }
}

/// Handles one received line: decodes it, applies the message to the
/// store, and returns the encoded response line owed for it (`None` for
/// the silently ignored kinds).  A malformed line is an error and leaves
/// the store untouched; the caller must stop the connection on it.
pub fn handle_line(store: &mut Store, line: &str) -> (r: Result<Option<String>, DecodeError>)
    requires
        old(store).wf(),
    ensures
        final(store).wf(),
        match decode_spec(line@) {
            Some(m) => {
                &&& r is Ok
                &&& final(store)@ == handle_spec(old(store)@, m).0
                &&& match handle_spec(old(store)@, m).1 {
                    Some(rm) => match r {
                        Ok(Some(text)) => text@ == encode_spec(rm) + seq!['\n'],
                        _ => false,
                    },
                    None => r == Ok::<Option<String>, DecodeError>(None),
                }
            },
            None => r is Err && final(store)@ == old(store)@,
        },
{
    match decode(line) {
        Ok(m) => {
            match handle_message(store, m) {
                Some(resp) => Ok(Some(encode_line(&resp))),
                None => Ok(None),
            }
        },
        Err(e) => Err(e),
    }
}

/// The index of the first newline in `s`, or its length.
pub open spec fn line_break(s: Seq<char>) -> int
    decreases s.len(),
{
    if s.len() == 0 {
        0
    } else if s[0] == '\n' {
        0
    } else {
        1 + line_break(s.drop_first())
    }
}

pub proof fn lemma_line_break(s: Seq<char>)
    ensures
        0 <= line_break(s) <= s.len(),
        line_break(s) < s.len() ==> s[line_break(s)] == '\n',
        forall|i: int| 0 <= i < line_break(s) ==> s[i] != '\n',
    decreases s.len(),
{
    if s.len() > 0 && s[0] != '\n' {
        lemma_line_break(s.drop_first());
        assert forall|i: int| 0 <= i < line_break(s) implies s[i] != '\n' by {
            if i > 0 {
                assert(s.drop_first()[i - 1] == s[i]);
            }
        }
    }
}

/// One received line with a trailing carriage return removed.
pub open spec fn strip_cr(line: Seq<char>) -> Seq<char> {
    if line.len() > 0 && line.last() == '\r' {
        line.drop_last()
    } else {
        line
    }
}

/// The received text split into lines at each newline, a trailing
/// carriage return removed from each; text after the last newline is a
/// final line when nonempty.
pub open spec fn split_lines(s: Seq<char>) -> Seq<Seq<char>>
    decreases s.len(),
    via split_lines_decreases
{
    if s.len() == 0 {
        Seq::empty()
    } else {
        let i = line_break(s);
        let line = strip_cr(s.take(i));
        if i == s.len() {
            seq![line]
        } else {
            seq![line] + split_lines(s.skip(i + 1))
        }
    }
}

#[via_fn]
proof fn split_lines_decreases(s: Seq<char>) {
    lemma_line_break(s);
}

/// What a whole connection's input text produces: the store at the end,
/// the responses emitted in order, and whether the input ended without a
/// decode error.  Processing stops at the first malformed line; no
/// response is emitted for it or for any later line.
pub open spec fn session_spec(store: Map<Seq<char>, ValueView>, lines: Seq<Seq<char>>) -> (
    Map<Seq<char>, ValueView>,
    Seq<MessageView>,
    bool,
)
    decreases lines.len(),
{
    if lines.len() == 0 {
        (store, Seq::empty(), true)
    } else {
        match decode_spec(lines[0]) {
            None => (store, Seq::empty(), false),
            Some(m) => {
                let next = handle_spec(store, m);
                let rest = session_spec(next.0, lines.drop_first());
                (
                    rest.0,
                    (match next.1 {
                        Some(r) => seq![r],
                        None => Seq::empty(),
                    }) + rest.1,
                    rest.2,
                )
            },
        }
    }
}

/// Runs a whole connection's input against the store, as the transport
/// loop would line by line: returns the responses owed, in order, and the
/// decode error that stopped the session, if one did.
#[verifier::rlimit(100)]
pub fn run_session(store: &mut Store, input: &str) -> (r: (Vec<Message>, Option<DecodeError>))
    requires
        old(store).wf(),
    ensures
        final(store).wf(),
        final(store)@ == session_spec(old(store)@, split_lines(input@)).0,
        r.0.deep_view() == session_spec(old(store)@, split_lines(input@)).1,
        r.1 is None <==> session_spec(old(store)@, split_lines(input@)).2,
{
    let ghost store0 = old(store)@;
    let chars = str_to_chars(input);
    let ghost all = split_lines(input@);
    let n = chars.len();
    let mut responses: Vec<Message> = Vec::new();
    let mut pos: usize = 0;
    proof {
        assert(chars@.skip(0) =~= chars@);
        assert(responses.deep_view() =~= Seq::<MessageView>::empty());
        assert(Seq::<MessageView>::empty() + session_spec(store@, split_lines(chars@)).1
            =~= session_spec(store@, split_lines(chars@)).1);
    }
    loop
        invariant
            store.wf(),
            pos <= n,
            n == chars@.len(),
            chars@ == input@,
            all == split_lines(input@),
            store0 == old(store)@,
            session_spec(store0, all).0 == session_spec(store@, split_lines(chars@.skip(pos as int))).0,
            session_spec(store0, all).1 == responses.deep_view() + session_spec(
                store@,
                split_lines(chars@.skip(pos as int)),
            ).1,
            session_spec(store0, all).2 == session_spec(
                store@,
                split_lines(chars@.skip(pos as int)),
            ).2,
        decreases n - pos,
    {
        if pos >= n {
            proof {
                assert(chars@.skip(pos as int).len() == 0);
                assert(split_lines(chars@.skip(pos as int)) =~= Seq::<Seq<char>>::empty());
                assert(session_spec(store@, Seq::<Seq<char>>::empty()) == (
                    store@,
                    Seq::<MessageView>::empty(),
                    true,
                ));
                assert(responses.deep_view() + Seq::<MessageView>::empty() =~= responses.deep_view());
            }
            return (responses, None);
        }
        let ghost rem = chars@.skip(pos as int);
        // find the end of the current line
        let mut j = pos;
        while j < n && chars[j] != '\n'
            invariant
                pos <= j <= n,
                n == chars@.len(),
                rem == chars@.skip(pos as int),
                line_break(rem) == (j - pos) + line_break(chars@.skip(j as int)),
                forall|k: int| pos <= k < j ==> chars@[k] != '\n',
            decreases n - j,
        {
            proof {
                assert(chars@.skip(j as int)[0] == chars@[j as int]);
                assert(chars@.skip(j as int).drop_first() =~= chars@.skip(j as int + 1));
            }
            j = j + 1;
        }
        proof {
            if j < n {
                assert(chars@.skip(j as int)[0] == chars@[j as int]);
            } else {
                assert(chars@.skip(j as int).len() == 0);
            }
            assert(line_break(rem) == j - pos);
            assert(rem.take(j - pos) =~= chars@.subrange(pos as int, j as int));
        }
        // strip one trailing carriage return
        let mut line_end = j;
        if line_end > pos && chars[line_end - 1] == '\r' {
            line_end = line_end - 1;
        }
        proof {
            let raw = chars@.subrange(pos as int, j as int);
            if j > pos && chars@[j as int - 1] == '\r' {
                assert(raw.last() == '\r');
                assert(strip_cr(raw) =~= chars@.subrange(pos as int, line_end as int));
            } else {
                if raw.len() > 0 {
                    assert(raw.last() == chars@[j as int - 1]);
                }
                assert(strip_cr(raw) =~= chars@.subrange(pos as int, line_end as int));
            }
        }
        let line_vec = copy_range(&chars, pos, line_end);
        let line = chars_to_string(&line_vec);
        let ghost lines_here = split_lines(rem);
        proof {
            assert(rem.len() > 0);
            assert(lines_here[0] == line@);
        }
        match decode(line.as_str()) {
            Err(e) => {
                proof {
                    assert(decode_spec(lines_here[0]) is None);
                    assert(session_spec(store@, lines_here) == (
                        store@,
                        Seq::<MessageView>::empty(),
                        false,
                    ));
                    assert(responses.deep_view() + Seq::<MessageView>::empty()
                        =~= responses.deep_view());
                }
                return (responses, Some(e));
            },
            Ok(m) => {
                let ghost mv = m@;
                let ghost st_before = store@;
                let ghost old_resp = responses.deep_view();
                let resp = handle_message(store, m);
                proof {
                    assert(decode_spec(lines_here[0]) == Some(mv));
                }
                match resp {
                    Some(rm) => {
                        let ghost rv = rm@;
                        responses.push(rm);
                        proof {
                            assert(responses.deep_view() =~= old_resp + seq![rv]);
                        }
                    },
                    None => {
                    },
                }
                let ghost next_pos: int = if j < n {
                    j + 1
                } else {
                    j as int
                };
                proof {
                    if j < n {
                        assert(line_break(rem) < rem.len());
                        assert(rem.skip(line_break(rem) + 1) =~= chars@.skip(j as int + 1));
                        assert(lines_here == seq![line@] + split_lines(chars@.skip(j as int + 1)));
                        assert(lines_here.drop_first() =~= split_lines(chars@.skip(j as int + 1)));
                    } else {
                        assert(line_break(rem) == rem.len());
                        assert(lines_here == seq![line@]);
                        assert(lines_here.drop_first() =~= Seq::<Seq<char>>::empty());
                        assert(chars@.skip(n as int).len() == 0);
                        assert(split_lines(chars@.skip(n as int)) =~= Seq::<Seq<char>>::empty());
                    }
                    let tail_sess = session_spec(store@, lines_here.drop_first());
                    assert(session_spec(st_before, lines_here) == (
                        tail_sess.0,
                        (match handle_spec(st_before, mv).1 {
                            Some(r) => seq![r],
                            None => Seq::<MessageView>::empty(),
                        }) + tail_sess.1,
                        tail_sess.2,
                    ));
                    match handle_spec(st_before, mv).1 {
                        Some(r) => {
                            assert((old_resp + seq![r]) + tail_sess.1 =~= old_resp + (seq![r]
                                + tail_sess.1));
                        },
                        None => {
                            assert(Seq::<MessageView>::empty() + tail_sess.1 =~= tail_sess.1);
                            assert(responses.deep_view() == old_resp);
                        },
                    }
                }
                if j < n {
                    pos = j + 1;
                } else {
                    pos = j;
                }
            },
        }
    }
}


/// Law: whatever response the handler emits for a request carries the
/// request's correlation tag verbatim, including an absent one.
pub proof fn lemma_tag_propagation(store: Map<Seq<char>, ValueView>, m: MessageView)
    ensures
        match handle_spec(store, m).1 {
            Some(resp) => resp.tag() == m.tag(),
            None => true,
        },
{
}

/// Law: a get response carries exactly one result per requested label, in
/// the request's own order (a repeated label looked up independently each
/// time), the store's value where the label is present and `Null` where it
/// is not; and its status is `OK` exactly when every requested label is
/// present.
pub proof fn lemma_get_results_order(store: Map<Seq<char>, ValueView>, params: Seq<Seq<char>>)
    ensures
        get_results(store, params).len() == params.len(),
        forall|i: int|
            0 <= i < params.len() ==> (#[trigger] get_results(store, params)[i]).label
                == params[i],
        forall|i: int|
            0 <= i < params.len() ==> (#[trigger] get_results(store, params)[i]).value == (
            if store.contains_key(params[i]) {
                store[params[i]]
            } else {
                ValueView::Null
            }),
        all_present(store, params) <==> (forall|i: int|
            0 <= i < params.len() ==> store.contains_key(#[trigger] params[i])),
{
}

/// Law: within one set request, the last entry for a label wins: after
/// the request is applied, a label whose last occurrence is at `i` holds
/// that occurrence's value.
pub proof fn lemma_apply_sets_last_wins(
    store: Map<Seq<char>, ValueView>,
    params: Seq<LabeledValueView>,
    i: int,
)
    requires
        0 <= i < params.len(),
        forall|j: int| i < j < params.len() ==> params[j].label != params[i].label,
    ensures
        apply_sets(store, params).contains_key(params[i].label),
        apply_sets(store, params)[params[i].label] == params[i].value,
    decreases params.len(),
{
    if i == params.len() - 1 {
    } else {
        lemma_apply_sets_last_wins(store, params.drop_last(), i);
        assert(params.drop_last()[i] == params[i]);
    }
}


} // verus!
