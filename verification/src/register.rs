use vstd::prelude::*;

use crate::text::{push_str, str_eq};

verus! {

/// Canonical contract-facing payload for public events routed through Anchor.
#[derive(Clone, Debug, PartialEq, Eq)]
pub struct PublicEvent {
    pub source: String,
    pub event_type: String,
    pub data: Vec<u8>,
    pub block_number: u64,
    pub transaction_hash: Vec<u8>,
    pub transaction_index: u32,
    pub log_index: u32,
}

/// Request payload for JS-driven public-event ABI encoding.
#[derive(Clone, Debug, PartialEq, Eq)]
pub struct EncodePublicEventRequest {
    pub event_type: String,
    pub data: Vec<u8>,
}

/// Errors of public event checks and ABI decoding.
#[derive(Clone, Debug, PartialEq, Eq)]
pub enum PublicEventError {
    UnexpectedEventType { expected: &'static str, actual: String },
    AbiDecode(String),
}

impl PublicEventError {
    /// The text that the error displays.
    pub open spec fn message_spec(&self) -> Seq<char> {
        match self {
            PublicEventError::UnexpectedEventType { expected, actual } => "unexpected public event type: expected '"@
                + expected@ + "', got '"@ + actual@ + "'"@,
            PublicEventError::AbiDecode(message) => "failed to decode ABI payload: "@ + message@,
        }
    }

    /// The text that the error displays.
    pub fn message(&self) -> (m: String)
        ensures
            m@ == self.message_spec(),
    {
        let mut m = String::new();
        match self {
            PublicEventError::UnexpectedEventType { expected, actual } => {
                push_str(&mut m, "unexpected public event type: expected '");
                push_str(&mut m, expected);
                push_str(&mut m, "', got '");
                push_str(&mut m, actual.as_str());
                push_str(&mut m, "'");
            },
            PublicEventError::AbiDecode(message) => {
                push_str(&mut m, "failed to decode ABI payload: ");
                push_str(&mut m, message.as_str());
            },
        }
        m
    }
}

/// `r` reports that `event` does not have type `expected`.
pub open spec fn is_unexpected_type<R>(r: Result<R, PublicEventError>, event: PublicEvent, expected: &'static str) -> bool {
    r matches Err(PublicEventError::UnexpectedEventType { expected: e, actual: a }) && e == expected && a@
        == event.event_type@
}

/// Checks that a public event has the expected type; otherwise reports the
/// expected and the actual type.
pub fn require_event_type(event: &PublicEvent, expected: &'static str) -> (r: Result<(), PublicEventError>)
    ensures
        event.event_type@ == expected@ ==> r is Ok,
        event.event_type@ != expected@ ==> is_unexpected_type(r, *event, expected),
{
    if str_eq(event.event_type.as_str(), expected) {
        Ok(())
    } else {
        Err(PublicEventError::UnexpectedEventType { expected, actual: event.event_type.clone() })
    }
}

/// Decodes the payload of a public event of the expected type with `decode`.
/// The type is checked first: an event of another type is reported and its
/// payload is not decoded.
pub fn decode_abi_for<R, F: FnOnce(&[u8]) -> Result<R, PublicEventError>>(
    event: &PublicEvent,
    expected_event_type: &'static str,
    decode: F,
) -> (r: Result<R, PublicEventError>)
    requires
        forall|d: &[u8]| d@ == event.data@ ==> decode.requires((d,)),
    ensures
        event.event_type@ != expected_event_type@ ==> is_unexpected_type(r, *event, expected_event_type),
        event.event_type@ == expected_event_type@ ==> exists|d: &[u8]|
            d@ == event.data@ && #[trigger] decode.ensures((d,), r),
{
    match require_event_type(event, expected_event_type) {
        Ok(()) => {
            let data = event.data.as_slice();
            decode(data)
        },
        Err(e) => Err(e),
    }
}

} // verus!
