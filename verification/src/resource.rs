//! Resources that transactions write, as the storage layer holds them.
use vstd::prelude::*;
use std::collections::BTreeMap;

verus! {

/// A key of the state store, in its encoded form.
#[derive(Debug, PartialEq, Eq, PartialOrd, Ord)]
pub struct StateKey {
    pub encoded: Vec<u8>,
}

/// A value of the state store: the bytes stored under a key.
#[derive(Debug, PartialEq, Eq)]
pub struct StateValue {
    pub bytes: Vec<u8>,
}

/// A resource as the virtual machine reads it from storage.
#[derive(Debug, PartialEq, Eq)]
pub enum Resource {
    /// The serialized form of the resource.
    Serialized(Vec<u8>),
}

impl Resource {
    /// The resource whose serialized form is `blob`.
    pub fn from_blob(blob: Vec<u8>) -> (r: Resource)
        ensures
            r == Resource::Serialized(blob),
    {
        Resource::Serialized(blob)
    }
}

/// What a write of a transaction holds.
pub trait TransactionWrite {
    /// The bytes written, if any.
    fn extract_raw_bytes(&self) -> Option<Vec<u8>>;

    /// The written value as a value of the state store, if any.
    fn as_state_value(&self) -> Option<StateValue>;

    /// The written value as a resource, if it is one.
    fn as_aptos_resource(&self) -> Option<AptosResource>;
}

/// A resource of the chain.
pub enum AptosResource {
    /// The value of an aggregator.
    Aggregator(u128),
    /// A resource on its own.
    Standard(Resource),
    /// A group of resources, by key.
    Group(BTreeMap<StateKey, Resource>),
}

impl AptosResource {
    /// The standard resource whose serialized form is `blob`.
    pub fn from_blob(blob: Vec<u8>) -> (r: AptosResource)
        ensures
            r == AptosResource::Standard(Resource::Serialized(blob)),
    {
        AptosResource::Standard(Resource::from_blob(blob))
    }
}

} // verus!
