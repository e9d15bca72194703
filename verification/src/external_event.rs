//! Public events and cross-ownable events in one place.

pub use crate::ingest::{
    require_ownable_event_type, source_matches, OwnableEvent, OwnableEventError, OwnableEventSource,
};
pub use crate::register::{decode_abi_for, require_event_type, PublicEvent, PublicEventError};
