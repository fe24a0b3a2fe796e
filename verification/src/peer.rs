//! Peers, and what is known of them.

use vstd::prelude::*;

use crate::net::{ServiceFlags, SocketAddr};
use crate::time::LocalTime;

verus! {

/// Identifies a peer.
pub type PeerId = SocketAddr;

/// The direction of a connection.
#[derive(Debug, Clone, Copy, PartialEq, Eq, Structural)]
pub enum Link {
    /// The remote peer connected to us.
    Inbound,
    /// We connected to the remote peer.
    Outbound,
}

impl Link {
    /// Whether the remote peer connected to us.
    pub fn is_inbound(&self) -> (inbound: bool)
        ensures
            inbound == (*self is Inbound),
    {
        matches!(self, Link::Inbound)
    }

    /// Whether we connected to the remote peer.
    pub fn is_outbound(&self) -> (outbound: bool)
        ensures
            outbound == (*self is Outbound),
    {
        matches!(self, Link::Outbound)
    }

    /// The name of the direction.
    pub open spec fn spec_name(self) -> Seq<char> {
        match self {
            Link::Inbound => "Inbound"@,
            Link::Outbound => "Outbound"@,
        }
    }

    /// The name of the direction.
    pub fn name(&self) -> (name: &'static str)
        ensures
            name@ == self.spec_name(),
    {
        match self {
            Link::Inbound => "Inbound",
            Link::Outbound => "Outbound",
        }
    }
}

/// Where the address of a peer comes from.
#[derive(Debug, Clone, Copy, PartialEq, Eq, Structural)]
pub enum Source {
    /// Another peer shared the address.
    Peer(PeerId),
    /// A DNS seed gave the address.
    Dns,
    /// The address comes from outside the system, such as from the user.
    Imported,
}

/// Why a peer is disconnected.
#[derive(Debug, PartialEq, Eq)]
pub enum DisconnectReason {
    /// The limit on connections is reached.
    ConnectionLimit,
    /// A reason that another part of the protocol gives.
    Other(String),
}

/// The state of the connection to a peer.
#[derive(Debug, Clone, Copy)]
pub enum Peer {
    /// We are connecting to the peer.
    Connecting,
    /// The peer is connected.
    Connected {
        /// Remote peer address.
        address: SocketAddr,
        /// Local peer address.
        local_address: SocketAddr,
        /// Whether this is an inbound or outbound peer connection.
        link: Link,
        /// Services offered.
        services: ServiceFlags,
        /// Time connected.
        time: LocalTime,
    },
    /// We asked for the peer to be disconnected.
    Disconnecting,
    /// The peer is no longer connected.
    Disconnected,
}

/// The states that peers are looked up by.
#[derive(Debug, Clone, Copy)]
pub enum Standing {
    /// Connected, over an outbound link.
    Outbound,
    /// Connected, over an inbound link.
    Inbound,
    /// Being connected to.
    Connecting,
}

impl Standing {
    /// Whether a peer in the given state has this standing.
    pub open spec fn spec_covers(self, peer: Peer) -> bool {
        match self {
            Standing::Outbound => peer is Connected && peer->link is Outbound,
            Standing::Inbound => peer is Connected && peer->link is Inbound,
            Standing::Connecting => peer is Connecting,
        }
    }

    /// Whether a peer in the given state has this standing.
    pub fn covers(&self, peer: &Peer) -> (covered: bool)
        ensures
            covered == self.spec_covers(*peer),
    {
        match self {
            Standing::Outbound => matches!(peer, Peer::Connected { link, .. } if link.is_outbound()),
            Standing::Inbound => matches!(peer, Peer::Connected { link, .. } if link.is_inbound()),
            Standing::Connecting => matches!(peer, Peer::Connecting),
        }
    }
}

} // verus!
