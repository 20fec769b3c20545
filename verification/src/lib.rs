//! A socket.io server core: packet formats (text and MessagePack), rooms and broadcast
//! selection, and the bookkeeping around them.
use vstd::prelude::*;

pub mod extensions;
pub mod text;
pub mod json;
pub mod packet;
pub mod parser;
pub mod adapter;
pub mod errors;
pub mod socket;
pub mod ns;
pub mod client;
pub mod operators;
pub mod extract;
pub mod handler;
pub mod payload_value;

verus! {

/// Socket.IO protocol version.
#[derive(Debug, Copy, Clone, PartialEq, Eq, Structural)]
pub enum ProtocolVersion {
    /// The socket.io protocol version 4
    V4,
    /// The socket.io protocol version 5
    V5,
}

/// The engine.io protocol version a socket.io connection runs over.
#[derive(Debug, Copy, Clone, PartialEq, Eq, Structural)]
pub enum EngineProtocolVersion {
    /// The engine.io protocol version 3
    V3,
    /// The engine.io protocol version 4
    V4,
}

/// The engine.io version of a socket.io version: socket.io v4 runs over engine.io v3, socket.io
/// v5 over engine.io v4.
pub open spec fn spec_to_engine(v: ProtocolVersion) -> EngineProtocolVersion {
    match v {
        ProtocolVersion::V4 => EngineProtocolVersion::V3,
        ProtocolVersion::V5 => EngineProtocolVersion::V4,
    }
}

/// The socket.io version of an engine.io version.
pub open spec fn spec_from_engine(v: EngineProtocolVersion) -> ProtocolVersion {
    match v {
        EngineProtocolVersion::V3 => ProtocolVersion::V4,
        EngineProtocolVersion::V4 => ProtocolVersion::V5,
    }
}

impl ProtocolVersion {
    /// The engine.io protocol version this socket.io version runs over.
    pub fn to_engine(self) -> (e: EngineProtocolVersion)
        ensures
            e == spec_to_engine(self),
    {
        match self {
            ProtocolVersion::V4 => EngineProtocolVersion::V3,
            ProtocolVersion::V5 => EngineProtocolVersion::V4,
        }
    }

    /// The socket.io protocol version of a connection over the engine.io version `e`.
    pub fn from_engine(e: EngineProtocolVersion) -> (v: ProtocolVersion)
        ensures
            v == spec_from_engine(e),
    {
        match e {
            EngineProtocolVersion::V3 => ProtocolVersion::V4,
            EngineProtocolVersion::V4 => ProtocolVersion::V5,
        }
    }
}

/// The socket.io and engine.io versions correspond one to one: converting one way and back gives
/// the version converted.
pub proof fn lemma_protocol_roundtrip(v: ProtocolVersion, e: EngineProtocolVersion)
    ensures
        spec_from_engine(spec_to_engine(v)) == v,
        spec_to_engine(spec_from_engine(e)) == e,
{
}

} // verus!
