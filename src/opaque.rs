//! Messages of other schemas that the route messages nest, carried whole.
use vstd::prelude::*;
use crate::wire::{copy_bytes, copy_range, DecodeError};

verus! {

/// The configuration of a change-data-capture flow: a message of its own schema, carried
/// here as the bytes of its encoding.
#[derive(Clone, Debug, PartialEq, Default)]
pub struct FlowConnectionConfigs {
    /// The encoding of the message.
    pub encoded: Vec<u8>,
}

impl View for FlowConnectionConfigs {
    type V = Seq<u8>;

    open spec fn view(&self) -> Seq<u8> {
        self.encoded@
    }
}

impl FlowConnectionConfigs {
    /// The encoding of `m`: the bytes carried.
    pub open spec fn wire(m: Seq<u8>) -> Seq<u8> {
        m
    }

    /// The protobuf encoding of the message.
    pub fn encode(&self) -> (r: Vec<u8>)
        ensures
            r@ == Self::wire(self@),
    {
        copy_bytes(&self.encoded)
    }

    /// Takes the bytes of an encoded message as they are.
    pub fn decode(bytes: &[u8]) -> (r: Result<Self, DecodeError>)
        ensures
            forall|m: Seq<u8>| #[trigger] Self::wire(m) == bytes@ ==> (r matches Ok(d) && d@ == m),
    {
        let encoded = copy_range(bytes, 0, bytes.len());
        assert(encoded@ =~= bytes@);
        Ok(FlowConnectionConfigs { encoded })
    }
}

/// The configuration of a query-replication flow: a message of its own schema, carried
/// here as the bytes of its encoding.
#[derive(Clone, Debug, PartialEq, Default)]
pub struct QRepConfig {
    /// The encoding of the message.
    pub encoded: Vec<u8>,
}

impl View for QRepConfig {
    type V = Seq<u8>;

    open spec fn view(&self) -> Seq<u8> {
        self.encoded@
    }
}

impl QRepConfig {
    /// The encoding of `m`: the bytes carried.
    pub open spec fn wire(m: Seq<u8>) -> Seq<u8> {
        m
    }

    /// The protobuf encoding of the message.
    pub fn encode(&self) -> (r: Vec<u8>)
        ensures
            r@ == Self::wire(self@),
    {
        copy_bytes(&self.encoded)
    }

    /// Takes the bytes of an encoded message as they are.
    pub fn decode(bytes: &[u8]) -> (r: Result<Self, DecodeError>)
        ensures
            forall|m: Seq<u8>| #[trigger] Self::wire(m) == bytes@ ==> (r matches Ok(d) && d@ == m),
    {
        let encoded = copy_range(bytes, 0, bytes.len());
        assert(encoded@ =~= bytes@);
        Ok(QRepConfig { encoded })
    }
}

/// A data source or sink: a message of its own schema, carried here as the bytes of its
/// encoding.
#[derive(Clone, Debug, PartialEq, Default)]
pub struct Peer {
    /// The encoding of the message.
    pub encoded: Vec<u8>,
}

impl View for Peer {
    type V = Seq<u8>;

    open spec fn view(&self) -> Seq<u8> {
        self.encoded@
    }
}

impl Peer {
    /// The encoding of `m`: the bytes carried.
    pub open spec fn wire(m: Seq<u8>) -> Seq<u8> {
        m
    }

    /// The protobuf encoding of the message.
    pub fn encode(&self) -> (r: Vec<u8>)
        ensures
            r@ == Self::wire(self@),
    {
        copy_bytes(&self.encoded)
    }

    /// Takes the bytes of an encoded message as they are.
    pub fn decode(bytes: &[u8]) -> (r: Result<Self, DecodeError>)
        ensures
            forall|m: Seq<u8>| #[trigger] Self::wire(m) == bytes@ ==> (r matches Ok(d) && d@ == m),
    {
        let encoded = copy_range(bytes, 0, bytes.len());
        assert(encoded@ =~= bytes@);
        Ok(Peer { encoded })
    }
}

} // verus!
