//! Messages and body encoding.
//!
//! A `Message` is one outbound WebSocket frame: a tagged payload.  An
//! `InboundFrame` is one frame read from a subscriber's socket.  Publishers
//! hand the hub raw body bytes together with a content type; `encode_body`
//! turns them into a `Message` following the content-type routing rule:
//! a content type beginning with `application/json` or `text/` asks for a
//! UTF-8 decode (rejecting invalid bytes), anything else gives a binary
//! frame with the bytes as they are.

use vstd::prelude::*;

verus! {

use vstd::utf8::{valid_utf8, decode_utf8, encode_utf8};

/// Abstract value of one outbound frame.
#[verifier::ext_equal]
pub ghost enum MessageView {
    Text(Seq<char>),
    Binary(Seq<u8>),
    Ping(Seq<u8>),
    Pong(Seq<u8>),
    Close,
}

impl MessageView {
    /// The bytes this frame carries on the wire.
    pub open spec fn payload_bytes(self) -> Seq<u8> {
        match self {
            MessageView::Text(s) => encode_utf8(s),
            MessageView::Binary(b) => b,
            MessageView::Ping(b) => b,
            MessageView::Pong(b) => b,
            MessageView::Close => Seq::empty(),
        }
    }
}

/// One outbound WebSocket frame.
pub enum Message {
    Text(String),
    Binary(Vec<u8>),
    Ping(Vec<u8>),
    Pong(Vec<u8>),
    Close,
}

impl View for Message {
    type V = MessageView;

    open spec fn view(&self) -> MessageView {
        match self {
            Message::Text(s) => MessageView::Text(s@),
            Message::Binary(b) => MessageView::Binary(b@),
            Message::Ping(b) => MessageView::Ping(b@),
            Message::Pong(b) => MessageView::Pong(b@),
            Message::Close => MessageView::Close,
        }
    }
}

impl Message {
    /// A copy of this frame with the same abstract value.
    pub fn duplicate(&self) -> (r: Message)
        ensures
            r@ == self@,
    {
        match self {
            Message::Text(s) => Message::Text(s.clone()),
            Message::Binary(b) => Message::Binary(copy_bytes(b)),
            Message::Ping(b) => Message::Ping(copy_bytes(b)),
            Message::Pong(b) => Message::Pong(copy_bytes(b)),
            Message::Close => Message::Close,
        }
    }
}

fn copy_bytes(b: &Vec<u8>) -> (r: Vec<u8>)
    ensures
        r@ == b@,
{
    let mut r: Vec<u8> = Vec::new();
    let mut i: usize = 0;
    while i < b.len()
        invariant
            i <= b.len(),
            r@ == b@.subrange(0, i as int),
        decreases b.len() - i,
    {
        r.push(b[i]);
        proof {
            assert(r@ =~= b@.subrange(0, i + 1 as int));
        }
        i = i + 1;
    }
    proof {
        assert(r@ =~= b@);
    }
    r
}

/// One frame read from a subscriber's socket.
pub enum InboundFrame {
    Text(Vec<u8>),
    Binary(Vec<u8>),
    Ping(Vec<u8>),
    Pong(Vec<u8>),
    Close,
}

impl InboundFrame {
    /// Data frames (text or binary) are the ones that can service a pending
    /// reply slot; ping, pong and close frames carry no reply.
    pub open spec fn is_data(&self) -> bool {
        match self {
            InboundFrame::Text(_) => true,
            InboundFrame::Binary(_) => true,
            _ => false,
        }
    }

    /// The payload bytes of a data frame.
    pub open spec fn spec_payload(&self) -> Seq<u8> {
        match self {
            InboundFrame::Text(b) => b@,
            InboundFrame::Binary(b) => b@,
            InboundFrame::Ping(b) => b@,
            InboundFrame::Pong(b) => b@,
            InboundFrame::Close => Seq::empty(),
        }
    }
}

/// True when `p` is a prefix of `s`.
pub open spec fn has_prefix(s: Seq<char>, p: Seq<char>) -> bool {
    p.len() <= s.len() && s.subrange(0, p.len() as int) == p
}

/// Content types that ask for a UTF-8 text frame.
pub open spec fn textual_spec(ct: Seq<char>) -> bool {
    has_prefix(ct, "application/json"@) || has_prefix(ct, "text/"@)
}

fn starts_with(s: &str, p: &str) -> (r: bool)
    ensures
        r == has_prefix(s@, p@),
{
    let n = p.unicode_len();
    if s.unicode_len() < n {
        return false;
    }
    let mut i: usize = 0;
    while i < n
        invariant
            i <= n,
            n == p@.len(),
            n <= s@.len(),
            forall|j: int| 0 <= j < i ==> s@[j] == p@[j],
        decreases n - i,
    {
        if s.get_char(i) != p.get_char(i) {
            proof {
                assert(s@.subrange(0, n as int)[i as int] != p@[i as int]);
            }
            return false;
        }
        i = i + 1;
    }
    proof {
        assert(s@.subrange(0, n as int) =~= p@);
    }
    true
}

/// Character-wise string equality.
pub(crate) fn str_eq(a: &str, b: &str) -> (r: bool)
    ensures
        r == (a@ == b@),
{
    let na = a.unicode_len();
    let nb = b.unicode_len();
    if na != nb {
        return false;
    }
    let mut i: usize = 0;
    while i < na
        invariant
            i <= na,
            na == a@.len(),
            na == b@.len(),
            forall|j: int| 0 <= j < i ==> a@[j] == b@[j],
        decreases na - i,
    {
        if a.get_char(i) != b.get_char(i) {
            return false;
        }
        i = i + 1;
    }
    proof {
        assert(a@ =~= b@);
    }
    true
}

/// Whether this content type routes the body through a UTF-8 decode.
pub fn is_textual(content_type: &str) -> (r: bool)
    ensures
        r == textual_spec(content_type@),
{
    starts_with(content_type, "application/json") || starts_with(content_type, "text/")
}

/// Why a publish body was rejected.
pub enum EncodeError {
    /// The content type asked for text but the body is not valid UTF-8.
    InvalidUtf8,
}

/// The message a publish body encodes to, or `None` when the body must be
/// rejected: textual content types demand a UTF-8 decode, everything else
/// passes through as binary.
pub open spec fn spec_encode(ct: Seq<char>, body: Seq<u8>) -> Option<MessageView> {
    if textual_spec(ct) {
        if valid_utf8(body) {
            Some(MessageView::Text(decode_utf8(body)))
        } else {
            None
        }
    } else {
        Some(MessageView::Binary(body))
    }
}

/// Relies on `String::from_utf8` from std: it succeeds exactly on valid
/// UTF-8 input and then returns the string decoded from those bytes.
#[verifier::external_body]
fn utf8_to_string(bytes: Vec<u8>) -> (r: Option<String>)
    ensures
        r is Some <==> valid_utf8(bytes@),
        r matches Some(s) ==> s@ == decode_utf8(bytes@),
{
    match String::from_utf8(bytes) {
        Ok(s) => Some(s),
        Err(_) => None,
    }
}

/// Content-type routing is total and deterministic: a body is put through a
/// UTF-8 decode exactly when the content type begins with `application/json`
/// or `text/`; every other content type gives a binary frame carrying the
/// body bytes as they are, and the only rejection is a textual body that is
/// not valid UTF-8.
pub proof fn lemma_content_type_routing(ct: Seq<char>, body: Seq<u8>)
    ensures
        (spec_encode(ct, body) is None) <==> (textual_spec(ct) && !valid_utf8(body)),
        textual_spec(ct) && valid_utf8(body) ==> spec_encode(ct, body) == Some(
            MessageView::Text(decode_utf8(body)),
        ),
        !textual_spec(ct) ==> spec_encode(ct, body) == Some(MessageView::Binary(body)),
{
}

/// A binary body rides through encoding unchanged: the frame a non-textual
/// publish enqueues carries on the wire exactly the bytes that were posted.
pub proof fn lemma_binary_body_round_trip(ct: Seq<char>, body: Seq<u8>)
    requires
        !textual_spec(ct),
    ensures
        spec_encode(ct, body) == Some(MessageView::Binary(body)),
        MessageView::Binary(body).payload_bytes() == body,
{
}

/// Encode a publish body into the frame it will be delivered as.
///
/// The routing is total and deterministic: the body is decoded as UTF-8
/// exactly when the content type begins with `application/json` or `text/`,
/// and is wrapped as binary otherwise.
pub fn encode_body(content_type: &str, body: Vec<u8>) -> (r: Result<Message, EncodeError>)
    ensures
        r matches Ok(m) ==> spec_encode(content_type@, body@) == Some(m@),
        r is Err <==> spec_encode(content_type@, body@) is None,
        r is Err <==> textual_spec(content_type@) && !valid_utf8(body@),
{
    if is_textual(content_type) {
        match utf8_to_string(body) {
            Some(s) => Ok(Message::Text(s)),
            None => Err(EncodeError::InvalidUtf8),
        }
    } else {
        Ok(Message::Binary(body))
    }
}

} // verus!
