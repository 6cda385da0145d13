//! Laws of the coordinator, proved over its model: overwriting of
//! pending requests, no-op behaviour, pairing, thresholds, and cleanup.

use vstd::prelude::*;
use crate::room::{Origin, PeerId, ReqView, spec_threshold};
use crate::state::{
    spec_add_waiting, spec_assign, spec_assign_ready, spec_remove_peer, wf, StateModel,
};

verus! {

/// Registering twice for one origin before any id arrives leaves exactly
/// one pending entry: the second request.
pub proof fn lemma_add_waiting_overwrites(s: StateModel, o: Origin, r1: ReqView, r2: ReqView)
    ensures
        spec_add_waiting(spec_add_waiting(s, o, r1), o, r2) == spec_add_waiting(s, o, r2),
        spec_add_waiting(spec_add_waiting(s, o, r1), o, r2).pending[o] == r2,
        spec_add_waiting(spec_add_waiting(s, o, r1), o, r2).pending.dom() =~= s.pending.dom()
            + set![o],
{
    assert(s.pending.insert(o, r1).insert(o, r2) =~= s.pending.insert(o, r2));
    assert(spec_add_waiting(spec_add_waiting(s, o, r1), o, r2) =~= spec_add_waiting(s, o, r2));
}

/// An id assignment with no pending request for its origin changes
/// nothing and never reports a room.
pub proof fn lemma_assign_without_pending(s: StateModel, o: Origin, p: PeerId)
    requires
        !s.pending.contains_key(o),
    ensures
        spec_assign(s, o, p) == s,
        !spec_assign_ready(s, o, p),
{
}

/// Removing a peer the coordinator does not track changes nothing.
pub proof fn lemma_remove_unknown_peer(s: StateModel, p: PeerId)
    requires
        !s.peer_room.contains_key(p),
    ensures
        spec_remove_peer(s, p) == s,
{
}

/// Pairing: two distinct origins request the same fresh room without an
/// explicit threshold; after both register, the first id assignment
/// reports nothing and the second reports the room ready, holding
/// exactly the two peers.
pub proof fn lemma_pairing(
    s: StateModel,
    room: Seq<char>,
    o1: Origin,
    o2: Origin,
    p1: PeerId,
    p2: PeerId,
)
    requires
        wf(s),
        o1 != o2,
        p1 != p2,
        !s.rooms.contains_key(room),
        !s.peer_room.contains_key(p1),
        !s.peer_room.contains_key(p2),
    ensures
        ({
            let s1 = spec_add_waiting(s, o1, ReqView { id: room, next: None });
            let s2 = spec_add_waiting(s1, o2, ReqView { id: room, next: None });
            let s3 = spec_assign(s2, o1, p1);
            &&& !spec_assign_ready(s2, o1, p1)
            &&& spec_assign_ready(s3, o2, p2)
            &&& spec_assign(s3, o2, p2).rooms[room] == set![p1, p2]
        }),
{
    let req = ReqView { id: room, next: None };
    let s1 = spec_add_waiting(s, o1, req);
    let s2 = spec_add_waiting(s1, o2, req);
    let s3 = spec_assign(s2, o1, p1);
    assert(s2.pending[o1] == req);
    assert(s2.members(room) =~= Set::<PeerId>::empty());
    let one = Set::<PeerId>::empty().insert(p1);
    assert(s2.members(room).insert(p1) =~= one);
    assert(one.len() == 1) by {
        assert(one.remove(p1) =~= Set::<PeerId>::empty());
    }
    assert(spec_threshold(req.next) == 2);
    assert(!spec_assign_ready(s2, o1, p1));
    assert(s3.rooms[room] == s2.members(room).insert(p1));
    assert(s3.rooms[room] =~= one);
    assert(s3.pending[o2] == req);
    let two = one.insert(p2);
    assert(s3.members(room).insert(p2) =~= two);
    assert(two.len() == 2) by {
        assert(two.remove(p2) =~= one);
        assert(one.len() == 1) by {
            assert(one.remove(p1) =~= Set::<PeerId>::empty());
        }
    }
    assert(spec_assign_ready(s3, o2, p2));
    assert(spec_assign(s3, o2, p2).rooms[room] == s3.members(room).insert(p2));
    assert(spec_assign(s3, o2, p2).rooms[room] =~= set![p1, p2]);
}

/// Threshold: a room requested with an explicit count of three reports
/// readiness only on the third id assignment, never on the first two.
pub proof fn lemma_threshold_of_three(
    s: StateModel,
    room: Seq<char>,
    o1: Origin,
    o2: Origin,
    o3: Origin,
    p1: PeerId,
    p2: PeerId,
    p3: PeerId,
)
    requires
        wf(s),
        o1 != o2 && o1 != o3 && o2 != o3,
        p1 != p2 && p1 != p3 && p2 != p3,
        !s.rooms.contains_key(room),
        !s.peer_room.contains_key(p1),
        !s.peer_room.contains_key(p2),
        !s.peer_room.contains_key(p3),
    ensures
        ({
            let req = ReqView { id: room, next: Some(3) };
            let s1 = spec_add_waiting(spec_add_waiting(spec_add_waiting(s, o1, req), o2, req), o3, req);
            let s2 = spec_assign(s1, o1, p1);
            let s3 = spec_assign(s2, o2, p2);
            &&& !spec_assign_ready(s1, o1, p1)
            &&& !spec_assign_ready(s2, o2, p2)
            &&& spec_assign_ready(s3, o3, p3)
            &&& spec_assign(s3, o3, p3).rooms[room] == set![p1, p2, p3]
        }),
{
    let req = ReqView { id: room, next: Some(3) };
    let s1 = spec_add_waiting(spec_add_waiting(spec_add_waiting(s, o1, req), o2, req), o3, req);
    let s2 = spec_assign(s1, o1, p1);
    let s3 = spec_assign(s2, o2, p2);
    let one = Set::<PeerId>::empty().insert(p1);
    let two = one.insert(p2);
    let three = two.insert(p3);
    assert(one.len() == 1) by {
        assert(one.remove(p1) =~= Set::<PeerId>::empty());
    }
    assert(two.len() == 2) by {
        assert(two.remove(p2) =~= one);
    }
    assert(three.len() == 3) by {
        assert(three.remove(p3) =~= two);
    }
    assert(s1.pending[o1] == req);
    assert(s1.members(room) =~= Set::<PeerId>::empty());
    assert(s1.members(room).insert(p1) =~= one);
    assert(!spec_assign_ready(s1, o1, p1));
    assert(s2.rooms[room] == s1.members(room).insert(p1));
    assert(s2.rooms[room] =~= one);
    assert(s2.pending[o2] == req);
    assert(s2.members(room).insert(p2) =~= two);
    assert(!spec_assign_ready(s2, o2, p2));
    assert(s3.rooms[room] == s2.members(room).insert(p2));
    assert(s3.rooms[room] =~= two);
    assert(s3.pending[o3] == req);
    assert(s3.members(room).insert(p3) =~= three);
    assert(spec_assign_ready(s3, o3, p3));
    assert(spec_assign(s3, o3, p3).rooms[room] == s3.members(room).insert(p3));
    assert(spec_assign(s3, o3, p3).rooms[room] =~= set![p1, p2, p3]);
}

/// Cleanup: with two peers in a room, one disconnect leaves the room
/// with exactly the other member, and the second disconnect removes the
/// room entry entirely.
pub proof fn lemma_cleanup(s: StateModel, room: Seq<char>, p1: PeerId, p2: PeerId)
    requires
        wf(s),
        p1 != p2,
        s.rooms.contains_key(room),
        s.rooms[room] == set![p1, p2],
    ensures
        ({
            let s1 = spec_remove_peer(s, p1);
            &&& s1.rooms.contains_key(room)
            &&& s1.rooms[room] == set![p2]
            &&& !spec_remove_peer(s1, p2).rooms.contains_key(room)
        }),
{
    assert(s.rooms[room].contains(p1));
    assert(s.peer_room.contains_key(p1) && s.peer_room[p1] == room);
    let rest = s.members(room).remove(p1);
    assert(rest =~= set![p2]);
    assert(rest.contains(p2));
    assert(!rest.is_empty());
    let s1 = spec_remove_peer(s, p1);
    assert(s1.rooms.contains_key(room) && s1.rooms[room] == rest);
    assert(s1.rooms[room].contains(p2));
    assert(s.peer_room.contains_key(p2) && s.peer_room[p2] == room);
    assert(s1.peer_room.contains_key(p2) && s1.peer_room[p2] == room);
    let rest2 = s1.members(room).remove(p2);
    assert(rest2 =~= Set::<PeerId>::empty());
    assert(rest2.is_empty());
    assert(!spec_remove_peer(s1, p2).rooms.contains_key(room));
}

} // verus!
