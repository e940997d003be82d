//! Mock identity types for testing: stand-ins for a public key and a
//! signature, and execution contexts tying them to the native and proving
//! stores.

use vstd::prelude::*;

use crate::storage::bytes_eq;

verus! {

/// Mock public key, useful for testing.
#[derive(Clone, Debug)]
pub struct MockPublicKey {
    pub_key: Vec<u8>,
}

impl MockPublicKey {
    /// Wraps raw key bytes.
    pub fn new(pub_key: Vec<u8>) -> (r: Self)
        ensures
            r@ == pub_key@,
    {
        MockPublicKey { pub_key }
    }

    /// The raw key bytes.
    pub fn as_bytes(&self) -> (r: &Vec<u8>)
        ensures
            r@ == self@,
    {
        &self.pub_key
    }
}

impl View for MockPublicKey {
    type V = Seq<u8>;

    closed spec fn view(&self) -> Seq<u8> {
        self.pub_key@
    }
}

impl PartialEq for MockPublicKey {
    fn eq(&self, other: &MockPublicKey) -> (r: bool) {
        bytes_eq(&self.pub_key, &other.pub_key)
    }
}

impl vstd::std_specs::cmp::PartialEqSpecImpl for MockPublicKey {
    open spec fn obeys_eq_spec() -> bool {
        true
    }

    open spec fn eq_spec(&self, other: &MockPublicKey) -> bool {
        self@ == other@
    }
}

/// Mock signature, useful for testing.
#[derive(Clone, Debug)]
pub struct MockSignature {
    sig: Vec<u8>,
}

impl MockSignature {
    /// Wraps raw signature bytes.
    pub fn new(sig: Vec<u8>) -> (r: Self)
        ensures
            r@ == sig@,
    {
        MockSignature { sig }
    }

    /// The raw signature bytes.
    pub fn as_bytes(&self) -> (r: &Vec<u8>)
        ensures
            r@ == self@,
    {
        &self.sig
    }
}

impl View for MockSignature {
    type V = Seq<u8>;

    closed spec fn view(&self) -> Seq<u8> {
        self.sig@
    }
}

impl PartialEq for MockSignature {
    fn eq(&self, other: &MockSignature) -> (r: bool) {
        bytes_eq(&self.sig, &other.sig)
    }
}

impl vstd::std_specs::cmp::PartialEqSpecImpl for MockSignature {
    open spec fn obeys_eq_spec() -> bool {
        true
    }

    open spec fn eq_spec(&self, other: &MockSignature) -> bool {
        self@ == other@
    }
}

/// Mock execution context for the native store, useful for testing.
#[derive(Clone, Debug)]
pub struct MockContext {
    pub sender: MockPublicKey,
}

impl MockContext {
    /// A context acting on behalf of `sender`.
    pub fn new(sender: MockPublicKey) -> (r: Self)
        ensures
            r.sender@ == sender@,
    {
        MockContext { sender }
    }

    /// The public key this context acts on behalf of.
    pub fn sender(&self) -> (r: &MockPublicKey)
        ensures
            r@ == self.sender@,
    {
        &self.sender
    }
}

/// Mock execution context for the proving store, useful for testing.
#[derive(Clone, Debug)]
pub struct ZkMockContext {
    pub sender: MockPublicKey,
}

impl ZkMockContext {
    /// A context acting on behalf of `sender`.
    pub fn new(sender: MockPublicKey) -> (r: Self)
        ensures
            r.sender@ == sender@,
    {
        ZkMockContext { sender }
    }

    /// The public key this context acts on behalf of.
    pub fn sender(&self) -> (r: &MockPublicKey)
        ensures
            r@ == self.sender@,
    {
        &self.sender
    }
}

} // verus!
