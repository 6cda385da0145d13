//! Value types of a join request: room identity, origins, peer ids,
//! and the readiness threshold.

use vstd::prelude::*;

verus! {

/// Transport-level handle for a connection, before it has a peer id.
pub type Origin = u64;

/// Identifier the transport assigns once a connection is established.
pub type PeerId = u64;

/// Name of a room; the empty string is the default room.
pub struct RoomId(pub String);

impl View for RoomId {
    type V = Seq<char>;

    open spec fn view(&self) -> Seq<char> {
        self.0@
    }
}

impl RoomId {
    /// An owned copy naming the same room.
    pub fn duplicate(&self) -> (r: RoomId)
        ensures
            r@ == self@,
    {
        RoomId(self.0.clone())
    }

    /// Whether both values name the same room.
    pub fn same_id(&self, other: &RoomId) -> (r: bool)
        ensures
            r == (self@ == other@),
    {
        self.0 == other.0
    }
}

/// A join request: the room, and optionally how many peers must be
/// waiting there (the new one included) before the room is ready.
pub struct RequestedRoom {
    pub id: RoomId,
    pub next: Option<usize>,
}

/// Mathematical shape of a join request.
pub ghost struct ReqView {
    pub id: Seq<char>,
    pub next: Option<usize>,
}

impl View for RequestedRoom {
    type V = ReqView;

    open spec fn view(&self) -> ReqView {
        ReqView { id: self.id@, next: self.next }
    }
}

impl RequestedRoom {
    /// An owned copy of the request.
    pub fn duplicate(&self) -> (r: RequestedRoom)
        ensures
            r@ == self@,
    {
        RequestedRoom { id: self.id.duplicate(), next: self.next }
    }
}

/// Peers that must be waiting before a room is ready: the requested
/// count, or 2 (a first pairwise match) when none was asked for.
pub const DEFAULT_THRESHOLD: usize = 2;

/// Threshold a request asks for, the default applied.
pub open spec fn spec_threshold(next: Option<usize>) -> nat {
    match next {
        Some(n) => n as nat,
        None => DEFAULT_THRESHOLD as nat,
    }
}

/// Executable form of [`spec_threshold`].
pub fn threshold(next: Option<usize>) -> (t: usize)
    ensures
        t as nat == spec_threshold(next),
{
    match next {
        Some(n) => n,
        None => DEFAULT_THRESHOLD,
    }
}

} // verus!
