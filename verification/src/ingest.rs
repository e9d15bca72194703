use vstd::prelude::*;

use crate::text::{push_str, str_eq};

verus! {

#[verifier::external_type_specification]
#[verifier::external_body]
pub struct ExJsonValue(serde_json::Value);

/// Identity metadata for the source Ownable of a cross-ownable event.
#[derive(Clone, Debug, PartialEq, Eq)]
pub struct OwnableEventSource {
    pub id: String,
    pub owner: String,
    pub issuer: String,
}

/// Contract-facing payload for a semantic event emitted by another Ownable.
#[derive(Debug, PartialEq)]
pub struct OwnableEvent {
    pub source: OwnableEventSource,
    pub event_type: String,
    pub attributes: serde_json::Value,
}

/// Errors of cross-ownable event checks.
#[derive(Clone, Debug, PartialEq, Eq)]
pub enum OwnableEventError {
    UnexpectedEventType { expected: &'static str, actual: String },
}

impl OwnableEventError {
    /// The text that the error displays.
    pub open spec fn message_spec(&self) -> Seq<char> {
        match self {
            OwnableEventError::UnexpectedEventType { expected, actual } => "unexpected ownable event type: expected '"@
                + expected@ + "', got '"@ + actual@ + "'"@,
        }
    }

    /// The text that the error displays.
    pub fn message(&self) -> (m: String)
        ensures
            m@ == self.message_spec(),
    {
        match self {
            OwnableEventError::UnexpectedEventType { expected, actual } => {
                let mut m = String::new();
                push_str(&mut m, "unexpected ownable event type: expected '");
                push_str(&mut m, expected);
                push_str(&mut m, "', got '");
                push_str(&mut m, actual.as_str());
                push_str(&mut m, "'");
                m
            },
        }
    }
}

/// Checks that an ownable event has the expected type; otherwise reports the
/// expected and the actual type.
pub fn require_ownable_event_type(event: &OwnableEvent, expected: &'static str) -> (r: Result<(), OwnableEventError>)
    ensures
        event.event_type@ == expected@ ==> r is Ok,
        event.event_type@ != expected@ ==> (r matches Err(OwnableEventError::UnexpectedEventType { expected: e, actual: a })
            && e == expected && a@ == event.event_type@),
{
    if str_eq(event.event_type.as_str(), expected) {
        Ok(())
    } else {
        Err(OwnableEventError::UnexpectedEventType { expected, actual: event.event_type.clone() })
    }
}

/// Whether the event comes from the Ownable with this id, owner and issuer.
pub fn source_matches(event: &OwnableEvent, id: &str, owner: &str, issuer: &str) -> (r: bool)
    ensures
        r == (event.source.id@ == id@ && event.source.owner@ == owner@ && event.source.issuer@ == issuer@),
{
    str_eq(event.source.id.as_str(), id) && str_eq(event.source.owner.as_str(), owner) && str_eq(
        event.source.issuer.as_str(),
        issuer,
    )
}

} // verus!
