//! Core of an authoritative client/server game runtime: a fixed-tick
//! simulation clock, server-to-client state replication with a binary
//! snapshot codec, client-to-server input replication with per-tick
//! history, and client-side prediction with rollback resimulation.
//!
//! The entity/component world, the wire transport and the gameplay systems
//! are external collaborators; this crate holds the protocol state, the
//! packet formats and the tick/rollback state machine, each with a proved
//! contract.

use vstd::prelude::*;

pub mod codec;
pub mod entity_map;
pub mod games;
pub mod history;
pub mod registry;
pub mod replication;
pub mod world;
pub mod sim;
pub mod tick;

verus! {

/// Protocol identifier shared by both peers of a connection.
pub const PROTOCOL_ID: u64 = 7;

/// Memory ceiling for the outstanding bytes of one channel.
pub const CHANNEL_MAX_BYTES: u64 = 5 * 1024 * 1024;

/// Resend timeout of the reliable-ordered channels, in milliseconds.
pub const CHANNEL_RESEND_MS: u64 = 300;

/// The named reliable-ordered channels of the transport.
#[derive(Clone, Copy, Debug, PartialEq, Eq, Structural)]
pub enum Channel {
    /// Server to client snapshots.
    Replication,
    /// Client to server input packets.
    ClientInput,
    /// Other reliable-ordered application traffic.
    ReliableOrdered,
}

impl Channel {
    /// The wire identifier of this channel; both peers must agree on it.
    pub fn id(self) -> (r: u8)
        ensures
            r == self.id_spec(),
    {
        match self {
            Channel::Replication => 0,
            Channel::ClientInput => 1,
            Channel::ReliableOrdered => 2,
        }
    }

    pub open spec fn id_spec(self) -> u8 {
        match self {
            Channel::Replication => 0,
            Channel::ClientInput => 1,
            Channel::ReliableOrdered => 2,
        }
    }
}

/// A failure that drops the connection: the peers disagree about the
/// protocol, or a payload cannot be decoded.
#[derive(Clone, Copy, Debug, PartialEq, Eq, Structural)]
pub enum ProtocolError {
    /// A packet could not be decoded.
    Decode,
    /// A packet named a replication id outside the registry.
    ReplicationIdOutOfRange,
}

} // verus!
