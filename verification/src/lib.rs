//! Shared types and helpers for Ownables contracts: the host ABI envelope,
//! in-memory contract storage, event payloads and small metadata utilities.

pub mod abi;
pub mod attachment;
pub mod external_event;
pub mod ingest;
pub mod laws;
pub mod memory_storage;
pub mod metadata;
pub mod ownership;
pub mod register;
pub mod storage;
mod text;

pub use attachment::{Attachment, AttachmentInput, GetAttachmentsResponse};
pub use ingest::{
    require_ownable_event_type, source_matches, OwnableEvent, OwnableEventError, OwnableEventSource,
};
pub use memory_storage::{MemoryStorage, Order};
pub use metadata::{derive_rgb_values, get_random_color, package_title_from_name, rgb_hex, Metadata, NFT};
pub use ownership::{ensure_owner, InfoResponse, OwnableInfo, OwnerAddress};
pub use register::{
    decode_abi_for, require_event_type, EncodePublicEventRequest, PublicEvent, PublicEventError,
};
pub use storage::{EmptyApi, EmptyApiError, EmptyQuerier, IdbStateDump, IdbStorage};
