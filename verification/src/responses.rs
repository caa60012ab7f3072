//! The canonical response representation and the conversion rules that
//! normalise whatever a handler returns into one `Response`.
//!
//! The conversion rules form a closed, composable set: a handler's native
//! return value is written as a `ReturnValue`, and `into_response` resolves
//! nested shapes — an optional wrapping a pair wrapping a document, say —
//! through repeated application of the rules until one `Response` remains.
//! A return shape outside this set cannot be registered at all, so the rule
//! table is total by construction.

use vstd::prelude::*;

use crate::json::{text_of, JsonValue, JsonView};
use crate::strmap::StrMap;

verus! {

/// A renderable payload: exactly one variant is active.
#[derive(Debug, PartialEq, Eq)]
pub enum Body {
    /// No payload.
    Empty,
    /// An immutable byte sequence with unbounded lifetime.
    StaticBytes(&'static [u8]),
    /// An owned byte sequence.
    OwnedBytes(Vec<u8>),
    /// Immutable text with unbounded lifetime.
    StaticText(&'static str),
    /// Owned text.
    OwnedText(String),
    /// A structured document value.
    Json(JsonValue),
    /// An opaque error description, rendered as text.
    ErrorPayload(String),
    /// An insertion-ordered mapping of keys to nested payloads (reserved).
    Mapping(Vec<(String, Body)>),
    /// An ordered list of nested payloads (reserved).
    Sequence(Vec<Body>),
}

/// The mathematical shape of a `Body`.
pub enum BodyView {
    Empty,
    StaticBytes(Seq<u8>),
    OwnedBytes(Seq<u8>),
    StaticText(Seq<char>),
    OwnedText(Seq<char>),
    Json(JsonView),
    ErrorPayload(Seq<char>),
    Mapping(Seq<(Seq<char>, BodyView)>),
    Sequence(Seq<BodyView>),
}

impl View for Body {
    type V = BodyView;

    open spec fn view(&self) -> BodyView
        decreases self,
    {
        match self {
            Body::Empty => BodyView::Empty,
            Body::StaticBytes(b) => BodyView::StaticBytes(b@),
            Body::OwnedBytes(b) => BodyView::OwnedBytes(b@),
            Body::StaticText(s) => BodyView::StaticText(s@),
            Body::OwnedText(s) => BodyView::OwnedText(s@),
            Body::Json(j) => BodyView::Json(j@),
            Body::ErrorPayload(s) => BodyView::ErrorPayload(s@),
            Body::Mapping(fields) => BodyView::Mapping(body_field_views_of(fields@)),
            Body::Sequence(items) => BodyView::Sequence(body_views_of(items@)),
        }
    }
}

/// The views of a sequence of payloads.
pub open spec fn body_views_of(s: Seq<Body>) -> Seq<BodyView>
    decreases s,
{
    if s.len() == 0 {
        Seq::empty()
    } else {
        body_views_of(s.drop_last()).push(s.last()@)
    }
}

/// The views of a sequence of keyed payloads.
pub open spec fn body_field_views_of(s: Seq<(String, Body)>) -> Seq<(Seq<char>, BodyView)>
    decreases s,
{
    if s.len() == 0 {
        Seq::empty()
    } else {
        body_field_views_of(s.drop_last()).push((s.last().0@, s.last().1@))
    }
}

impl Default for Body {
    /// The default payload is the empty one.
    fn default() -> (r: Body)
        ensures
            r@ == BodyView::Empty,
    {
        Body::Empty
    }
}

/// The canonical output unit: a status code, a header mapping and a payload.
#[derive(Debug, PartialEq, Eq)]
pub struct Response {
    pub status: u16,
    pub headers: StrMap,
    pub body: Body,
}

/// The mathematical shape of a `Response`.
pub struct ResponseView {
    pub status: u16,
    pub headers: Map<Seq<char>, Seq<char>>,
    pub body: BodyView,
}

impl View for Response {
    type V = ResponseView;

    open spec fn view(&self) -> ResponseView {
        ResponseView { status: self.status, headers: self.headers@, body: self.body@ }
    }
}

impl Response {
    /// The representation invariant: the header mapping is well formed.
    pub open spec fn wf(&self) -> bool {
        self.headers.wf()
    }
}

impl Default for Response {
    /// The default response: status 0 (a sentinel the caller must replace),
    /// no headers, empty payload.
    fn default() -> (r: Response)
        ensures
            r.wf(),
            r@.status == 0,
            r@.headers == Map::<Seq<char>, Seq<char>>::empty(),
            r@.body == BodyView::Empty,
    {
        Response { status: 0, headers: StrMap::new(), body: Body::Empty }
    }
}

/// The name of the header that carries a payload's media type.
pub open spec fn content_type_key() -> Seq<char> {
    "content-type"@
}

/// The media type of plain text payloads.
pub open spec fn text_plain() -> Seq<char> {
    "text/plain; charset=utf-8"@
}

/// The media type of document payloads.
pub open spec fn application_json() -> Seq<char> {
    "application/json; charset=utf-8"@
}

/// The media type of byte payloads.
pub open spec fn application_octet_stream() -> Seq<char> {
    "application/octet-stream"@
}

/// A handler's native return value: the closed set of shapes the conversion
/// rules accept. The wrapping shapes compose, each resolving through the
/// conversion of the value it wraps.
#[derive(Debug, PartialEq, Eq)]
pub enum ReturnValue {
    /// No value: becomes 204 with an empty payload.
    Unit,
    /// Immutable text: becomes 200, text/plain.
    StaticText(&'static str),
    /// Owned text: becomes 200, text/plain.
    OwnedText(String),
    /// A structured document: becomes 200, application/json.
    Json(JsonValue),
    /// Immutable bytes: becomes 200, application/octet-stream.
    StaticBytes(&'static [u8]),
    /// Owned bytes: becomes 200, application/octet-stream.
    OwnedBytes(Vec<u8>),
    /// An optional value: present converts as the value, absent as `Unit`.
    Optional(Option<Box<ReturnValue>>),
    /// A fallible value: success converts as the value, failure becomes 500
    /// with the failure's display text as a text/plain payload.
    Fallible(Result<Box<ReturnValue>, String>),
    /// A (status, value) pair: the value's conversion with the status
    /// overridden.
    WithStatus(u16, Box<ReturnValue>),
    /// A (status, headers, value) triple: the value's conversion with the
    /// status overridden and the headers merged, the triple's winning.
    WithHeaders(u16, StrMap, Box<ReturnValue>),
}

impl ReturnValue {
    /// Every header mapping inside the value is well formed, and every
    /// overriding status is a valid code.
    pub open spec fn wf(&self) -> bool
        decreases self,
    {
        match self {
            ReturnValue::Optional(o) => match o {
                Some(b) => b.wf(),
                None => true,
            },
            ReturnValue::Fallible(f) => match f {
                Ok(b) => b.wf(),
                Err(_) => true,
            },
            ReturnValue::WithStatus(s, b) => 100 <= *s <= 599 && b.wf(),
            ReturnValue::WithHeaders(s, h, b) => 100 <= *s <= 599 && h.wf() && b.wf(),
            _ => true,
        }
    }
}

/// The conversion owes the network layer a valid status code: every
/// well-formed return value resolves to a response whose status lies in the
/// 100 to 599 range.
pub proof fn lemma_status_valid(v: ReturnValue)
    requires
        v.wf(),
    ensures
        100 <= convert_spec(v).status <= 599,
    decreases v,
{
    match v {
        ReturnValue::Optional(o) => match o {
            Some(b) => {
                lemma_status_valid(*b);
            },
            None => {},
        },
        ReturnValue::Fallible(f) => match f {
            Ok(b) => {
                lemma_status_valid(*b);
            },
            Err(_) => {},
        },
        _ => {},
    }
}

/// The response that the conversion rules give a return value: the exact
/// model of `into_response`.
pub open spec fn convert_spec(v: ReturnValue) -> ResponseView
    decreases v,
{
    match v {
        ReturnValue::Unit => ResponseView {
            status: 204,
            headers: Map::empty(),
            body: BodyView::Empty,
        },
        ReturnValue::StaticText(s) => ResponseView {
            status: 200,
            headers: Map::empty().insert(content_type_key(), text_plain()),
            body: BodyView::StaticText(s@),
        },
        ReturnValue::OwnedText(s) => ResponseView {
            status: 200,
            headers: Map::empty().insert(content_type_key(), text_plain()),
            body: BodyView::OwnedText(s@),
        },
        ReturnValue::Json(j) => ResponseView {
            status: 200,
            headers: Map::empty().insert(content_type_key(), application_json()),
            body: BodyView::Json(j@),
        },
        ReturnValue::StaticBytes(b) => ResponseView {
            status: 200,
            headers: Map::empty().insert(content_type_key(), application_octet_stream()),
            body: BodyView::StaticBytes(b@),
        },
        ReturnValue::OwnedBytes(b) => ResponseView {
            status: 200,
            headers: Map::empty().insert(content_type_key(), application_octet_stream()),
            body: BodyView::OwnedBytes(b@),
        },
        ReturnValue::Optional(o) => match o {
            Some(b) => convert_spec(*b),
            None => ResponseView { status: 204, headers: Map::empty(), body: BodyView::Empty },
        },
        ReturnValue::Fallible(f) => match f {
            Ok(b) => convert_spec(*b),
            Err(m) => ResponseView {
                status: 500,
                headers: Map::empty().insert(content_type_key(), text_plain()),
                body: BodyView::OwnedText(m@),
            },
        },
        ReturnValue::WithStatus(s, b) => ResponseView { status: s, ..convert_spec(*b) },
        ReturnValue::WithHeaders(s, h, b) => {
            let base = convert_spec(*b);
            ResponseView {
                status: s,
                headers: base.headers.union_prefer_right(h@),
                body: base.body,
            }
        },
    }
}

/// A header mapping holding only a content-type.
fn content_type_headers(value: &str) -> (r: StrMap)
    ensures
        r.wf(),
        r@ == Map::<Seq<char>, Seq<char>>::empty().insert(content_type_key(), value@),
{
    let mut headers = StrMap::new();
    headers.insert(String::from_str("content-type"), String::from_str(value));
    headers
}

impl Response {
    /// Normalise a handler's return value into the canonical response, by
    /// the conversion rules; `convert_spec` pins the result exactly.
    pub fn from_value(v: ReturnValue) -> (r: Response)
        requires
            v.wf(),
        ensures
            r.wf(),
            r@ == convert_spec(v),
        decreases v,
    {
        match v {
            ReturnValue::Unit => Response { status: 204, headers: StrMap::new(), body: Body::Empty },
            ReturnValue::StaticText(s) => Response {
                status: 200,
                headers: content_type_headers("text/plain; charset=utf-8"),
                body: Body::StaticText(s),
            },
            ReturnValue::OwnedText(s) => Response {
                status: 200,
                headers: content_type_headers("text/plain; charset=utf-8"),
                body: Body::OwnedText(s),
            },
            ReturnValue::Json(j) => Response {
                status: 200,
                headers: content_type_headers("application/json; charset=utf-8"),
                body: Body::Json(j),
            },
            ReturnValue::StaticBytes(b) => Response {
                status: 200,
                headers: content_type_headers("application/octet-stream"),
                body: Body::StaticBytes(b),
            },
            ReturnValue::OwnedBytes(b) => Response {
                status: 200,
                headers: content_type_headers("application/octet-stream"),
                body: Body::OwnedBytes(b),
            },
            ReturnValue::Optional(o) => match o {
                Some(b) => Response::from_value(*b),
                None => Response { status: 204, headers: StrMap::new(), body: Body::Empty },
            },
            ReturnValue::Fallible(f) => match f {
                Ok(b) => Response::from_value(*b),
                Err(m) => Response {
                    status: 500,
                    headers: content_type_headers("text/plain; charset=utf-8"),
                    body: Body::OwnedText(m),
                },
            },
            ReturnValue::WithStatus(s, b) => {
                let mut r = Response::from_value(*b);
                r.status = s;
                r
            },
            ReturnValue::WithHeaders(s, h, b) => {
                let mut r = Response::from_value(*b);
                r.status = s;
                r.headers.merge_from(&h);
                r
            },
        }
    }
}

/// What a payload becomes on the wire: empty, text or bytes.
#[derive(Debug, PartialEq, Eq)]
pub enum WirePayload {
    /// Nothing is written.
    Empty,
    /// Text with unbounded lifetime.
    StaticText(&'static str),
    /// Owned text.
    Text(String),
    /// Bytes with unbounded lifetime.
    StaticBytes(&'static [u8]),
    /// Owned bytes.
    Bytes(Vec<u8>),
}

/// The mathematical shape of a wire payload.
pub enum WireView {
    Empty,
    Text(Seq<char>),
    Bytes(Seq<u8>),
}

impl View for WirePayload {
    type V = WireView;

    open spec fn view(&self) -> WireView {
        match self {
            WirePayload::Empty => WireView::Empty,
            WirePayload::StaticText(s) => WireView::Text(s@),
            WirePayload::Text(s) => WireView::Text(s@),
            WirePayload::StaticBytes(b) => WireView::Bytes(b@),
            WirePayload::Bytes(b) => WireView::Bytes(b@),
        }
    }
}

/// A payload that has no defined wire rendering.
#[derive(Debug, PartialEq, Eq)]
pub enum RenderError {
    /// The payload kind has no wire rendering; the boundary should answer
    /// with a plain 500 rather than fail.
    Unsupported,
}

/// The wire rendering of a payload, where one is defined: the empty payload
/// writes nothing, text and bytes pass through, a document renders as its
/// canonical text, an error description renders as its text. The reserved
/// nested payloads have none.
pub open spec fn wire_of(b: BodyView) -> Option<WireView> {
    match b {
        BodyView::Empty => Some(WireView::Empty),
        BodyView::StaticBytes(s) => Some(WireView::Bytes(s)),
        BodyView::OwnedBytes(s) => Some(WireView::Bytes(s)),
        BodyView::StaticText(s) => Some(WireView::Text(s)),
        BodyView::OwnedText(s) => Some(WireView::Text(s)),
        BodyView::Json(j) => Some(WireView::Text(text_of(j))),
        BodyView::ErrorPayload(s) => Some(WireView::Text(s)),
        BodyView::Mapping(_) => None,
        BodyView::Sequence(_) => None,
    }
}

impl Body {
    /// Render the payload for the wire. A payload without a defined wire
    /// rendering is reported as an error, never a fault: the boundary maps it
    /// to a plain 500.
    pub fn into_wire(self) -> (r: Result<WirePayload, RenderError>)
        ensures
            match r {
                Ok(w) => wire_of(self@) == Some(w@),
                Err(e) => wire_of(self@) is None && e == RenderError::Unsupported,
            },
    {
        match self {
            Body::Empty => Ok(WirePayload::Empty),
            Body::StaticBytes(b) => Ok(WirePayload::StaticBytes(b)),
            Body::OwnedBytes(b) => Ok(WirePayload::Bytes(b)),
            Body::StaticText(s) => Ok(WirePayload::StaticText(s)),
            Body::OwnedText(s) => Ok(WirePayload::Text(s)),
            Body::Json(j) => Ok(WirePayload::Text(crate::json::encode(&j))),
            Body::ErrorPayload(s) => Ok(WirePayload::Text(s)),
            Body::Mapping(_) => Err(RenderError::Unsupported),
            Body::Sequence(_) => Err(RenderError::Unsupported),
        }
    }
}

/// Composition of the wrapping rules: a present optional and a successful
/// fallible value resolve through the conversion of the value they wrap,
/// unchanged, so nested shapes terminate in the one response of the
/// innermost value.
pub proof fn lemma_wrappers_compose(b: Box<ReturnValue>)
    ensures
        convert_spec(ReturnValue::Optional(Some(b))) == convert_spec(*b),
        convert_spec(ReturnValue::Fallible(Ok(b))) == convert_spec(*b),
{
}

/// Status-override law: converting a (status, value) pair yields exactly the
/// value's own conversion with the status replaced — headers and payload
/// untouched.
pub proof fn lemma_status_override(s: u16, b: Box<ReturnValue>)
    ensures
        convert_spec(ReturnValue::WithStatus(s, b)).status == s,
        convert_spec(ReturnValue::WithStatus(s, b)).headers == convert_spec(*b).headers,
        convert_spec(ReturnValue::WithStatus(s, b)).body == convert_spec(*b).body,
{
}

/// Header-merge law: converting a (status, headers, value) triple yields the
/// value's own conversion with the status replaced and the triple's headers
/// merged in, the triple's winning on a key collision.
pub proof fn lemma_header_merge(s: u16, h: StrMap, b: Box<ReturnValue>)
    ensures
        convert_spec(ReturnValue::WithHeaders(s, h, b)).status == s,
        convert_spec(ReturnValue::WithHeaders(s, h, b)).body == convert_spec(*b).body,
        convert_spec(ReturnValue::WithHeaders(s, h, b)).headers == convert_spec(
            *b,
        ).headers.union_prefer_right(h@),
        forall|k: Seq<char>|
            h@.contains_key(k) ==> convert_spec(ReturnValue::WithHeaders(s, h, b)).headers.contains_key(k)
                && convert_spec(ReturnValue::WithHeaders(s, h, b)).headers[k] == h@[k],
        forall|k: Seq<char>|
            !h@.contains_key(k) && convert_spec(*b).headers.contains_key(k) ==> convert_spec(
                ReturnValue::WithHeaders(s, h, b),
            ).headers.contains_key(k) && convert_spec(ReturnValue::WithHeaders(s, h, b)).headers[k]
                == convert_spec(*b).headers[k],
{
}

} // verus!
