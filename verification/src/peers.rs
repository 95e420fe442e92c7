//! Peers and the connections to them: a peer is connected or disconnected, a new connection
//! is accepted only from a known peer that is not connected yet, and the two ends of a
//! connection take opposite roles.

use vstd::prelude::*;

verus! {

/// The state of a connected peer.
#[derive(Debug)]
pub struct Connected;

/// The state of a disconnected peer.
#[derive(Debug)]
pub struct Disconnected;

/// A peer, described by `info`, in the state `S`.
#[derive(Debug)]
pub struct Peer<I, S> {
    pub info: I,
    status: S,
}

impl<I, S> Peer<I, S> {
    /// The description of the peer.
    pub closed spec fn peer_info(&self) -> I {
        self.info
    }
}

impl<I> Peer<I, Disconnected> {
    /// A peer that is not connected.
    pub fn new(info: I) -> (r: Self)
        ensures
            r.peer_info() == info,
    {
        Peer { info, status: Disconnected }
    }

    fn connect(self) -> (r: Peer<I, Connected>)
        ensures
            r.peer_info() == self.peer_info(),
    {
        Peer { info: self.info, status: Connected }
    }
}

impl<I> Peer<I, Connected> {
    fn disconnect(self) -> (r: Peer<I, Disconnected>)
        ensures
            r.peer_info() == self.peer_info(),
    {
        Peer { info: self.info, status: Disconnected }
    }
}

/// A peer in either state.
#[derive(Debug)]
pub enum PeerStates<I> {
    Connected(Peer<I, Connected>),
    Disconnected(Peer<I, Disconnected>),
}

impl<I> PeerStates<I> {
    /// A disconnected peer.
    pub fn new(info: I) -> (r: Self)
        ensures
            r is Disconnected,
            r->Disconnected_0.peer_info() == info,
    {
        PeerStates::Disconnected(Peer::new(info))
    }
}

/// The answer to a peer that opens a connection.
#[derive(Debug, PartialEq, Eq, Clone, Copy, Structural)]
pub enum ConnectionStatus {
    Accepted,
    AlreadyConnected,
    UnknownPeer,
}

/// The state of a peer, which changes in place.
#[derive(Debug)]
pub struct MutPeerState<I>(Option<PeerStates<I>>);

impl<I> MutPeerState<I> {
    /// Whether the peer is connected.
    pub closed spec fn connected(&self) -> bool {
        self.0 matches Some(PeerStates::Connected(_))
    }

    /// The state holds a peer.
    pub closed spec fn valid(&self) -> bool {
        self.0 is Some
    }

    /// The description of the peer.
    pub closed spec fn info(&self) -> I {
        match self.0 {
            Some(PeerStates::Connected(p)) => p.peer_info(),
            Some(PeerStates::Disconnected(p)) => p.peer_info(),
            None => arbitrary(),
        }
    }

    /// A known peer that is not connected.
    pub fn new(info: I) -> (r: Self)
        ensures
            r.valid(),
            !r.connected(),
            r.info() == info,
    {
        MutPeerState(Some(PeerStates::new(info)))
    }

    /// The state of the peer.
    pub fn status(&self) -> (r: &PeerStates<I>)
        requires
            self.valid(),
        ensures
            (r is Connected) == self.connected(),
    {
        self.0.as_ref().unwrap()
    }

    /// Marks the peer connected.
    pub fn connect(&mut self)
        requires
            old(self).valid(),
        ensures
            final(self).valid(),
            final(self).connected(),
            final(self).info() == old(self).info(),
    {
        let mut state = None;
        std::mem::swap(&mut state, &mut self.0);
        let next = match state.unwrap() {
            PeerStates::Disconnected(peer) => PeerStates::Connected(peer.connect()),
            PeerStates::Connected(peer) => PeerStates::Connected(peer),
        };
        self.0 = Some(next);
    }

    /// Marks the peer disconnected.
    pub fn disconnect(&mut self)
        requires
            old(self).valid(),
        ensures
            final(self).valid(),
            !final(self).connected(),
            final(self).info() == old(self).info(),
    {
        let mut state = None;
        std::mem::swap(&mut state, &mut self.0);
        let next = match state.unwrap() {
            PeerStates::Connected(peer) => PeerStates::Disconnected(peer.disconnect()),
            PeerStates::Disconnected(peer) => PeerStates::Disconnected(peer),
        };
        self.0 = Some(next);
    }

    /// A new connection from this known peer: accepted, which connects the peer, unless it
    /// is connected already.
    pub fn accept_connection(&mut self) -> (r: ConnectionStatus)
        requires
            old(self).valid(),
        ensures
            old(self).connected() ==> r == ConnectionStatus::AlreadyConnected,
            !old(self).connected() ==> r == ConnectionStatus::Accepted,
            final(self).valid(),
            final(self).connected(),
            final(self).info() == old(self).info(),
    {
        let was = match self.status() {
            PeerStates::Connected(_) => true,
            PeerStates::Disconnected(_) => false,
        };
        if was {
            ConnectionStatus::AlreadyConnected
        } else {
            self.connect();
            ConnectionStatus::Accepted
        }
    }
}

/// Which end of a connection opened it.
#[derive(Debug, PartialEq, Eq, Clone, Copy, Structural)]
pub enum Side {
    Server,
    Client,
}

/// The part a node plays in post-processing a key with a peer.
#[derive(Debug, PartialEq, Eq, Clone, Copy, Structural)]
pub enum Role {
    Leader,
    Follower,
}

/// The other role.
pub open spec fn opposite_role(r: Role) -> Role {
    match r {
        Role::Leader => Role::Follower,
        Role::Follower => Role::Leader,
    }
}

impl Role {
    /// The role of the other end.
    pub fn opposite(&self) -> (r: Self)
        ensures
            r == opposite_role(*self),
    {
        match self {
            Role::Leader => Role::Follower,
            Role::Follower => Role::Leader,
        }
    }
}

/// The two ends of a handshake take different roles, and the opposite of the opposite of a
/// role is the role itself.
pub proof fn law_opposite_involution(r: Role)
    ensures
        opposite_role(r) != r,
        opposite_role(opposite_role(r)) == r,
{
}

} // verus!
