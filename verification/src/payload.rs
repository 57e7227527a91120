//! Payloads and requests of the data service.
//!
//! A payload is a protobuf message of any type, kept as its encoding. The
//! store never interprets it.

use prost::Message as _;
use prost_types::Any;
use vstd::prelude::*;
use vstd::string::*;
use vstd::utf8::encode_utf8;

verus! {

/// A message of any type: the type's URL and the message's encoding.
#[derive(Debug, PartialEq, Eq)]
pub struct AnyMessage {
    pub type_url: String,
    pub value: Vec<u8>,
}

/// A number in base 128, least significant digit first, every digit but the
/// last with its high bit set.
pub open spec fn varint(n: nat) -> Seq<u8>
    decreases n,
{
    if n < 128 {
        seq![n as u8]
    } else {
        seq![(n % 128 + 128) as u8] + varint(n / 128)
    }
}

/// The encoding of a field of bytes: its key, its length and its contents. An
/// empty one is left out.
pub open spec fn bytes_field(key: u8, contents: Seq<u8>) -> Seq<u8> {
    if contents.len() == 0 {
        Seq::empty()
    } else {
        seq![key] + varint(contents.len()) + contents
    }
}

/// The encoding of a message of any type: field 1 is its URL, field 2 its value.
pub open spec fn any_bytes(type_url: Seq<char>, value: Seq<u8>) -> Seq<u8> {
    bytes_field(0x0a, encode_utf8(type_url)) + bytes_field(0x12, value)
}

/// The URL and the value of the message that bytes encode; `None` if they
/// encode none.
pub uninterp spec fn any_decoded(bytes: Seq<u8>) -> Option<(Seq<char>, Seq<u8>)>;

/// `prost::Message::encode_to_vec` on a `prost_types::Any`: the two fields, in
/// the protobuf wire format. Decoding the bytes gives the message back. The
/// encoding has to fit in a vector.
#[verifier::external_body]
fn encode_any(message: &AnyMessage) -> (bytes: Vec<u8>)
    requires
        any_bytes(message.type_url@, message.value@).len() <= isize::MAX,
    ensures
        bytes@ == any_bytes(message.type_url@, message.value@),
        any_decoded(bytes@) == Some((message.type_url@, message.value@)),
{
    Any { type_url: message.type_url.clone(), value: message.value.clone() }.encode_to_vec()
}

/// `prost::Message::decode` on a `prost_types::Any`. What it returns is a
/// function of the bytes alone; which bytes it takes, and why it refuses
/// others, is left unsaid.
#[verifier::external_body]
fn decode_any(bytes: &[u8]) -> (message: Option<AnyMessage>)
    ensures
        match message {
            Some(any) => any_decoded(bytes@) == Some((any.type_url@, any.value@)),
            None => any_decoded(bytes@) is None,
        },
{
    match Any::decode(bytes) {
        Ok(any) => Some(AnyMessage { type_url: any.type_url, value: any.value }),
        Err(_) => None,
    }
}

/// The payload that a reader is shown, where `decoded` is what the stored bytes
/// decode to: no bytes are no payload.
pub open spec fn shown(
    stored: Seq<u8>,
    decoded: Option<(Seq<char>, Seq<u8>)>,
) -> Option<(Seq<char>, Seq<u8>)> {
    if stored.len() == 0 {
        None
    } else {
        decoded
    }
}

/// The URL and the value of a message, if there is one.
pub open spec fn any_parts(message: Option<AnyMessage>) -> Option<(Seq<char>, Seq<u8>)> {
    match message {
        Some(any) => Some((any.type_url@, any.value@)),
        None => None,
    }
}

/// The payload that a reader is shown, where `decoded` is what the stored bytes
/// decode to.
pub fn shown_payload(stored: &[u8], decoded: Option<AnyMessage>) -> (payload: Option<AnyMessage>)
    ensures
        any_parts(payload) == shown(stored@, any_parts(decoded)),
        payload == (if stored@.len() == 0 {
            None
        } else {
            decoded
        }),
{
    if stored.len() == 0 {
        None
    } else {
        decoded
    }
}

/// The payload of a stored observation, as a reader is shown it.
pub fn response_payload(stored: &[u8]) -> (payload: Option<AnyMessage>)
    ensures
        any_parts(payload) == shown(stored@, any_decoded(stored@)),
        stored@.len() == 0 ==> payload is None,
        stored@.len() > 0 ==> match payload {
            Some(any) => any_decoded(stored@) == Some((any.type_url@, any.value@)),
            None => any_decoded(stored@) is None,
        },
{
    let decoded: Option<AnyMessage> = decode_any(stored);
    shown_payload(stored, decoded)
}

/// Why a request to the data service is refused.
#[derive(Debug, Clone, Copy, PartialEq, Eq)]
pub enum RequestError {
    /// There is nothing to store.
    PayloadRequired,
    /// The time window ends before it starts.
    WindowOrder,
}

impl RequestError {
    /// What the error says.
    pub open spec fn text(self) -> Seq<char> {
        match self {
            RequestError::PayloadRequired => "payload is required"@,
            RequestError::WindowOrder => "start_secs must be <= end_secs"@,
        }
    }

    /// What the error says.
    pub fn message(&self) -> (text: String)
        ensures
            text@ == self.text(),
    {
        match *self {
            RequestError::PayloadRequired => "payload is required".to_owned(),
            RequestError::WindowOrder => "start_secs must be <= end_secs".to_owned(),
        }
    }
}

/// A URL with no characters encodes to no bytes, and no other does.
proof fn lemma_any_bytes_empty(type_url: Seq<char>, value: Seq<u8>)
    ensures
        any_bytes(type_url, value).len() == 0 <==> type_url.len() == 0 && value.len() == 0,
{
    reveal_with_fuel(encode_utf8, 2);
    if type_url.len() > 0 {
        assert(encode_utf8(type_url).len() > 0);
    }
}

/// The bytes to store for the payload of a request. What is stored is what a
/// reader is shown, unless it is the empty message: that has no bytes, and is
/// shown as no payload.
pub fn stored_payload(payload: Option<&AnyMessage>) -> (stored: Result<Vec<u8>, RequestError>)
    requires
        payload matches Some(any) ==> any_bytes(any.type_url@, any.value@).len() <= isize::MAX,
    ensures
        match payload {
            None => stored == Err::<Vec<u8>, RequestError>(RequestError::PayloadRequired),
            Some(any) => {
                &&& stored matches Ok(bytes)
                &&& bytes@ == any_bytes(any.type_url@, any.value@)
                &&& shown(bytes@, any_decoded(bytes@)) == (if any.type_url@.len() == 0
                    && any.value@.len() == 0 {
                    None
                } else {
                    Some((any.type_url@, any.value@))
                })
                &&& bytes@.len() == 0 <==> any.type_url@.len() == 0 && any.value@.len() == 0
                &&& any_decoded(bytes@) == Some((any.type_url@, any.value@))
            },
        },
        stored is Err <==> payload is None,
{
    match payload {
        None => Err(RequestError::PayloadRequired),
        Some(any) => {
            proof {
                lemma_any_bytes_empty(any.type_url@, any.value@);
            }
            Ok(encode_any(any))
        },
    }
}

/// Checks the time window of a query.
pub fn check_window(start_secs: u64, end_secs: u64) -> (checked: Result<(), RequestError>)
    ensures
        checked == (if start_secs > end_secs {
            Err(RequestError::WindowOrder)
        } else {
            Ok(())
        }),
{
    if start_secs > end_secs {
        Err(RequestError::WindowOrder)
    } else {
        Ok(())
    }
}

/// A number is written seven bits at a time, the low ones first; each byte but
/// the last has its high bit set.
pub proof fn law_varint_digits(n: nat, low: nat)
    requires
        low < 128,
    ensures
        varint(low) == seq![low as u8],
        n > 0 ==> varint(128 * n + low) == seq![(128 + low) as u8] + varint(n),
{
    assert((128 * n + low) / 128 == n);
    assert((128 * n + low) % 128 == low);
}

/// How a message of any type is written: the URL under the key of field 1, the
/// value under that of field 2, each after its length; what is empty is left
/// out.
pub proof fn law_message_layout(type_url: Seq<char>, value: Seq<u8>)
    ensures
        ({
            let url = encode_utf8(type_url);
            let front = if url.len() == 0 {
                Seq::empty()
            } else {
                seq![0x0au8] + varint(url.len()) + url
            };
            let back = if value.len() == 0 {
                Seq::empty()
            } else {
                seq![0x12u8] + varint(value.len()) + value
            };
            any_bytes(type_url, value) == front + back
        }),
{
}

/// What each refusal says.
pub proof fn law_request_error_texts()
    ensures
        RequestError::PayloadRequired.text() == "payload is required"@,
        RequestError::WindowOrder.text() == "start_secs must be <= end_secs"@,
{
}

} // verus!
