//! Small chain-side companions of the accumulator: the execution state a
//! stored block can be in, a key-rotation capability resource, and a placeholder
//! chain-state service for tests.

use vstd::prelude::*;

verus! {

/// How far a stored block has come: verified against its parent, or fully
/// executed.
#[derive(Clone, Copy, Debug, Hash, Eq, PartialEq, Structural)]
pub enum BlockState {
    Executed,
    Verified,
}

/// A 16-byte account address.
#[derive(Clone, Copy, Debug)]
pub struct AccountAddress {
    bytes: [u8; 16],
}

impl View for AccountAddress {
    type V = Seq<u8>;

    closed spec fn view(&self) -> Seq<u8> {
        self.bytes@
    }
}

impl AccountAddress {
    pub fn new(bytes: [u8; 16]) -> (r: AccountAddress)
        ensures
            r@ == bytes@,
    {
        AccountAddress { bytes }
    }

    pub fn to_bytes(&self) -> (r: [u8; 16])
        ensures
            r@ == self@,
    {
        self.bytes
    }
}

impl PartialEq for AccountAddress {
    fn eq(&self, other: &AccountAddress) -> (r: bool) {
        let mut i: usize = 0;
        while i < 16
            invariant
                i <= 16,
                forall|j: int| 0 <= j < i ==> self.bytes@[j] == other.bytes@[j],
            decreases 16 - i,
        {
            if self.bytes[i] != other.bytes[i] {
                return false;
            }
            i = i + 1;
        }
        proof {
            assert(self.bytes@ =~= other.bytes@);
        }
        true
    }
}

impl Eq for AccountAddress {
}

impl vstd::std_specs::cmp::PartialEqSpecImpl for AccountAddress {
    open spec fn obeys_eq_spec() -> bool {
        true
    }

    open spec fn eq_spec(&self, other: &AccountAddress) -> bool {
        self@ == other@
    }
}

/// The on-chain capability to rotate an account's authentication key: it names
/// the account it belongs to.
#[derive(Clone, Copy, Debug)]
pub struct KeyRotationCapabilityResource {
    account_address: AccountAddress,
}

impl KeyRotationCapabilityResource {
    pub closed spec fn spec_account_address(&self) -> Seq<u8> {
        self.account_address@
    }

    pub fn new(account_address: AccountAddress) -> (r: KeyRotationCapabilityResource)
        ensures
            r.spec_account_address() == account_address@,
    {
        KeyRotationCapabilityResource { account_address }
    }

    /// The account this capability belongs to.
    pub fn account_address(&self) -> (r: &AccountAddress)
        ensures
            r@ == self.spec_account_address(),
    {
        &self.account_address
    }
}

/// A chain-state service that serves nothing: a stand-in where a test needs
/// the shape of a state service but never reads through it.
#[derive(Clone, Default)]
pub struct MockChainStateService {
}

impl MockChainStateService {
    pub fn new() -> (r: MockChainStateService)
    {
        MockChainStateService {  }
    }
}

} // verus!
