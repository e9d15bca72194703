use vstd::prelude::*;

use crate::metadata::NFT;

verus! {

/// Core ownable ownership metadata.
#[derive(Clone, Debug, PartialEq, Eq)]
pub struct OwnableInfo {
    pub owner: String,
    pub issuer: String,
    pub ownable_type: Option<String>,
}

/// Response payload for ownable info queries.
#[derive(Clone, Debug, PartialEq, Eq)]
pub struct InfoResponse {
    pub owner: String,
    pub issuer: String,
    pub nft: Option<NFT>,
    pub ownable_type: Option<String>,
}

/// Types that can provide an owner address for ownership checks.
pub trait OwnerAddress {
    /// The owner address.
    spec fn owner_address_view(&self) -> Seq<char>;

    /// The owner address.
    fn owner_address(&self) -> (a: &String)
        ensures
            a@ == self.owner_address_view(),
    ;
}

impl OwnerAddress for String {
    open spec fn owner_address_view(&self) -> Seq<char> {
        self@
    }

    fn owner_address(&self) -> (a: &String) {
        self
    }
}

impl OwnerAddress for OwnableInfo {
    open spec fn owner_address_view(&self) -> Seq<char> {
        self.owner@
    }

    fn owner_address(&self) -> (a: &String) {
        &self.owner
    }
}

/// Verifies that `sender` is the owner; otherwise returns the error that
/// `unauthorized` makes.
pub fn ensure_owner<T: OwnerAddress + ?Sized, E, F: FnOnce() -> E>(
    owner: &T,
    sender: &String,
    unauthorized: F,
) -> (r: Result<(), E>)
    requires
        unauthorized.requires(()),
    ensures
        sender@ == owner.owner_address_view() ==> r is Ok,
        sender@ != owner.owner_address_view() ==> exists|e: E| #[trigger] unauthorized.ensures((), e) && r == Err::<(), E>(e),
{
    if *sender == *owner.owner_address() {
        Ok(())
    } else {
        let e = unauthorized();
        Err(e)
    }
}

} // verus!
