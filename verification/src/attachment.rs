use vstd::prelude::*;

verus! {

/// Input payload for adding a named attachment by content address.
#[derive(Clone, Debug, PartialEq, Eq)]
pub struct AttachmentInput {
    pub name: String,
    pub cid: String,
}

/// A single attachment row returned from an ownable contract.
#[derive(Clone, Debug, PartialEq, Eq)]
pub struct Attachment {
    pub name: String,
    pub cid: String,
}

/// Response payload for attachment listing queries.
#[derive(Clone, Debug, PartialEq, Eq)]
pub struct GetAttachmentsResponse {
    pub attachments: Vec<Attachment>,
}

} // verus!
