//! The wire vocabulary: scalar values, labels, statuses, and the four
//! message kinds exchanged over a connection.
//!
//! A `Value` is a tagged scalar payload.  Because this library keeps every
//! number it reasons about as a plain value, a floating-point payload is
//! carried as its JSON number literal text in canonical form (the text the
//! codec emits and the text re-decoding yields), never as a machine float.
use vstd::prelude::*;

verus! {

/// Response outcome code.
#[derive(PartialEq, Eq, Structural, Clone, Copy, Debug)]
pub enum Status {
    OK,
    InvalidRequest,
    NotFound,
}

/// A store key.
pub type Label = String;

/// A scalar payload: integer, float (as canonical JSON number literal text),
/// text, or absent (JSON `null`).
#[derive(Debug)]
pub enum Value {
    Int(i64),
    Float(String),
    Text(String),
    Null,
}

/// Mathematical model of a [`Value`].
pub enum ValueView {
    Int(int),
    Float(Seq<char>),
    Text(Seq<char>),
    Null,
}

/// A (label, value) pair, used both to set and to report one entry.
#[derive(Debug)]
pub struct LabeledValue {
    pub label: Label,
    pub value: Value,
}

/// Mathematical model of a [`LabeledValue`].
pub struct LabeledValueView {
    pub label: Seq<char>,
    pub value: ValueView,
}

/// Request to read the values of `params`, in order.
#[derive(Debug)]
pub struct GetDataRequest {
    pub tag: Option<String>,
    pub params: Vec<Label>,
}

/// Mathematical model of a [`GetDataRequest`].
pub struct GetDataRequestView {
    pub tag: Option<Seq<char>>,
    pub params: Seq<Seq<char>>,
}

/// Response to a [`GetDataRequest`]; `results` matches the request's
/// `params` in order.
#[derive(Debug)]
pub struct GetDataResponse {
    pub tag: Option<String>,
    pub status: Status,
    pub results: Vec<LabeledValue>,
}

/// Mathematical model of a [`GetDataResponse`].
pub struct GetDataResponseView {
    pub tag: Option<Seq<char>>,
    pub status: Status,
    pub results: Seq<LabeledValueView>,
}

/// Request to upsert each (label, value) pair of `params`, in order.
#[derive(Debug)]
pub struct SetDataRequest {
    pub tag: Option<String>,
    pub params: Vec<LabeledValue>,
}

/// Mathematical model of a [`SetDataRequest`].
pub struct SetDataRequestView {
    pub tag: Option<Seq<char>>,
    pub params: Seq<LabeledValueView>,
}

/// Response to a [`SetDataRequest`].
#[derive(Debug)]
pub struct SetDataResponse {
    pub tag: Option<String>,
    pub status: Status,
}

/// Mathematical model of a [`SetDataResponse`].
pub struct SetDataResponseView {
    pub tag: Option<Seq<char>>,
    pub status: Status,
}

/// One wire message: the closed set of request and response shapes.
#[derive(Debug)]
pub enum Message {
    GetDataRequest(GetDataRequest),
    GetDataResponse(GetDataResponse),
    SetDataRequest(SetDataRequest),
    SetDataResponse(SetDataResponse),
}

/// Mathematical model of a [`Message`].
pub enum MessageView {
    GetDataRequest(GetDataRequestView),
    GetDataResponse(GetDataResponseView),
    SetDataRequest(SetDataRequestView),
    SetDataResponse(SetDataResponseView),
}

impl View for Value {
    type V = ValueView;

    open spec fn view(&self) -> ValueView {
        match self {
            Value::Int(i) => ValueView::Int(*i as int),
            Value::Float(s) => ValueView::Float(s@),
            Value::Text(s) => ValueView::Text(s@),
            Value::Null => ValueView::Null,
        }
    }
}

impl DeepView for Value {
    type V = ValueView;

    open spec fn deep_view(&self) -> ValueView {
        self.view()
    }
}

impl View for LabeledValue {
    type V = LabeledValueView;

    open spec fn view(&self) -> LabeledValueView {
        LabeledValueView { label: self.label@, value: self.value@ }
    }
}

impl DeepView for LabeledValue {
    type V = LabeledValueView;

    open spec fn deep_view(&self) -> LabeledValueView {
        self.view()
    }
}

impl View for GetDataRequest {
    type V = GetDataRequestView;

    open spec fn view(&self) -> GetDataRequestView {
        GetDataRequestView { tag: self.tag.deep_view(), params: self.params.deep_view() }
    }
}

impl View for GetDataResponse {
    type V = GetDataResponseView;

    open spec fn view(&self) -> GetDataResponseView {
        GetDataResponseView {
            tag: self.tag.deep_view(),
            status: self.status,
            results: self.results.deep_view(),
        }
    }
}

impl View for SetDataRequest {
    type V = SetDataRequestView;

    open spec fn view(&self) -> SetDataRequestView {
        SetDataRequestView { tag: self.tag.deep_view(), params: self.params.deep_view() }
    }
}

impl View for SetDataResponse {
    type V = SetDataResponseView;

    open spec fn view(&self) -> SetDataResponseView {
        SetDataResponseView { tag: self.tag.deep_view(), status: self.status }
    }
}

impl View for Message {
    type V = MessageView;

    open spec fn view(&self) -> MessageView {
        match self {
            Message::GetDataRequest(m) => MessageView::GetDataRequest(m@),
            Message::GetDataResponse(m) => MessageView::GetDataResponse(m@),
            Message::SetDataRequest(m) => MessageView::SetDataRequest(m@),
            Message::SetDataResponse(m) => MessageView::SetDataResponse(m@),
        }
    }
}

impl DeepView for Message {
    type V = MessageView;

    open spec fn deep_view(&self) -> MessageView {
        self.view()
    }
}

impl MessageView {
    /// The correlation tag carried by a message, whatever its kind.
    pub open spec fn tag(self) -> Option<Seq<char>> {
        match self {
            MessageView::GetDataRequest(m) => m.tag,
            MessageView::GetDataResponse(m) => m.tag,
            MessageView::SetDataRequest(m) => m.tag,
            MessageView::SetDataResponse(m) => m.tag,
        }
    }
}

impl Value {
    /// A structural copy of this value.
    pub fn dup(&self) -> (r: Value)
        ensures
            r@ == self@,
    {
        match self {
            Value::Int(i) => Value::Int(*i),
            Value::Float(s) => Value::Float(s.clone()),
            Value::Text(s) => Value::Text(s.clone()),
            Value::Null => Value::Null,
        }
    }
}

impl PartialEq for Value {
    fn eq(&self, other: &Value) -> (r: bool) {
        match (self, other) {
            (Value::Int(a), Value::Int(b)) => *a == *b,
            (Value::Float(a), Value::Float(b)) => *a == *b,
            (Value::Text(a), Value::Text(b)) => *a == *b,
            (Value::Null, Value::Null) => true,
            _ => false,
        }
    }
}

impl vstd::std_specs::cmp::PartialEqSpecImpl for Value {
    open spec fn obeys_eq_spec() -> bool {
        true
    }

    open spec fn eq_spec(&self, other: &Value) -> bool {
        self@ == other@
    }
}

} // verus!
