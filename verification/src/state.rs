//! The matchmaking coordinator and its mathematical model: three
//! cross-referenced tables, their transition functions, and the
//! operations the transport's lifecycle hooks drive.

use vstd::prelude::*;
use std::collections::HashMap;
use crate::room::{Origin, PeerId, ReqView, RequestedRoom, RoomId, spec_threshold, threshold};

verus! {

broadcast use vstd::std_specs::hash::group_hash_axioms;

/// One existing room and the peers waiting in it.
pub struct RoomEntry {
    pub id: RoomId,
    pub peers: Vec<PeerId>,
}

/// Mathematical model of the coordinator: three cross-referenced tables.
#[verifier::ext_equal]
pub ghost struct StateModel {
    /// Requests whose peer id has not arrived yet, keyed by origin.
    pub pending: Map<Origin, ReqView>,
    /// Peers waiting per room; a room present here is never empty.
    pub rooms: Map<Seq<char>, Set<PeerId>>,
    /// Reverse index from a peer to the room holding it.
    pub peer_room: Map<PeerId, Seq<char>>,
}

impl StateModel {
    /// Members of the room named `id`; the empty set when no such room exists.
    pub open spec fn members(self, id: Seq<char>) -> Set<PeerId> {
        if self.rooms.contains_key(id) {
            self.rooms[id]
        } else {
            Set::empty()
        }
    }
}

/// Effect of registering a join request: the origin's pending slot is
/// written, a second request from the same origin overwriting the first.
pub open spec fn spec_add_waiting(s: StateModel, origin: Origin, req: ReqView) -> StateModel {
    StateModel { pending: s.pending.insert(origin, req), ..s }
}

/// Effect of an id assignment: when a request is pending for `origin`,
/// it is consumed and the peer joins the requested room; otherwise
/// nothing changes.
pub open spec fn spec_assign(s: StateModel, origin: Origin, peer_id: PeerId) -> StateModel {
    if s.pending.contains_key(origin) {
        let req = s.pending[origin];
        StateModel {
            pending: s.pending.remove(origin),
            rooms: s.rooms.insert(req.id, s.members(req.id).insert(peer_id)),
            peer_room: s.peer_room.insert(peer_id, req.id),
        }
    } else {
        s
    }
}

/// Whether the assignment leaves the requested room holding at least its
/// threshold of peers, so that its membership is reported.
pub open spec fn spec_assign_ready(s: StateModel, origin: Origin, peer_id: PeerId) -> bool {
    s.pending.contains_key(origin) && s.members(s.pending[origin].id).insert(peer_id).len()
        >= spec_threshold(s.pending[origin].next)
}

/// Effect of a disconnect: the peer leaves its room, and a room left
/// empty disappears; an unknown peer changes nothing.
pub open spec fn spec_remove_peer(s: StateModel, peer_id: PeerId) -> StateModel {
    if s.peer_room.contains_key(peer_id) {
        let r = s.peer_room[peer_id];
        let rest = s.members(r).remove(peer_id);
        StateModel {
            pending: s.pending,
            rooms: if rest.is_empty() {
                s.rooms.remove(r)
            } else {
                s.rooms.insert(r, rest)
            },
            peer_room: s.peer_room.remove(peer_id),
        }
    } else {
        s
    }
}

/// Cross-reference invariant: every room is finite and nonempty, every
/// member of a room is indexed back to that room, and every indexed peer
/// sits in the room its index names.
pub open spec fn wf(s: StateModel) -> bool {
    &&& forall|r: Seq<char>|
        #[trigger] s.rooms.contains_key(r) ==> s.rooms[r].finite() && s.rooms[r].len() > 0
    &&& forall|r: Seq<char>, p: PeerId|
        s.rooms.contains_key(r) && #[trigger] s.rooms[r].contains(p) ==> s.peer_room.contains_key(
            p,
        ) && s.peer_room[p] == r
    &&& forall|p: PeerId|
        #[trigger] s.peer_room.contains_key(p) ==> s.rooms.contains_key(s.peer_room[p])
            && s.rooms[s.peer_room[p]].contains(p)
}

/// Registering a request touches only the pending table.
pub proof fn lemma_add_waiting_preserves_wf(s: StateModel, origin: Origin, req: ReqView)
    requires
        wf(s),
    ensures
        wf(spec_add_waiting(s, origin, req)),
{
}

/// An id assignment for a fresh peer keeps the cross references intact.
pub proof fn lemma_assign_preserves_wf(s: StateModel, origin: Origin, peer_id: PeerId)
    requires
        wf(s),
        !s.peer_room.contains_key(peer_id),
    ensures
        wf(spec_assign(s, origin, peer_id)),
{
    if s.pending.contains_key(origin) {
        let req = s.pending[origin];
        let t = spec_assign(s, origin, peer_id);
        assert forall|r: Seq<char>| #[trigger] t.rooms.contains_key(r) implies t.rooms[r].finite()
            && t.rooms[r].len() > 0 by {
            if r == req.id {
                assert(s.members(req.id).finite());
                assert(t.rooms[r] == s.members(req.id).insert(peer_id));
                assert(t.rooms[r].contains(peer_id));
            }
        }
        assert forall|r: Seq<char>, p: PeerId|
            t.rooms.contains_key(r) && #[trigger] t.rooms[r].contains(p) implies t
            .peer_room
            .contains_key(p) && t.peer_room[p] == r by {
            if r == req.id {
                if p != peer_id {
                    assert(s.members(req.id).contains(p));
                    assert(s.rooms.contains_key(req.id) && s.rooms[req.id].contains(p));
                }
            } else {
                assert(s.rooms.contains_key(r) && s.rooms[r].contains(p));
                assert(p != peer_id);
            }
        }
        assert forall|p: PeerId| #[trigger] t.peer_room.contains_key(p) implies t
            .rooms
            .contains_key(t.peer_room[p]) && t.rooms[t.peer_room[p]].contains(p) by {
            if p == peer_id {
                assert(t.peer_room[p] == req.id);
            } else {
                assert(s.peer_room.contains_key(p));
                assert(s.rooms.contains_key(s.peer_room[p]) && s.rooms[s.peer_room[p]].contains(
                    p,
                ));
                assert(s.peer_room[p] == t.peer_room[p]);
                if s.peer_room[p] == req.id {
                    assert(t.rooms[req.id].contains(p));
                }
            }
        }
    }
}

/// A disconnect keeps the cross references intact.
pub proof fn lemma_remove_peer_preserves_wf(s: StateModel, peer_id: PeerId)
    requires
        wf(s),
    ensures
        wf(spec_remove_peer(s, peer_id)),
{
    if s.peer_room.contains_key(peer_id) {
        let r0 = s.peer_room[peer_id];
        let rest = s.members(r0).remove(peer_id);
        let t = spec_remove_peer(s, peer_id);
        assert(s.rooms.contains_key(r0));
        assert forall|r: Seq<char>| #[trigger] t.rooms.contains_key(r) implies t.rooms[r].finite()
            && t.rooms[r].len() > 0 by {
            if r == r0 {
                assert(!rest.is_empty());
                assert(rest.finite());
                if rest.len() == 0 {
                    assert(rest =~= Set::<PeerId>::empty());
                }
            }
        }
        assert forall|r: Seq<char>, p: PeerId|
            t.rooms.contains_key(r) && #[trigger] t.rooms[r].contains(p) implies t
            .peer_room
            .contains_key(p) && t.peer_room[p] == r by {
            assert(s.rooms.contains_key(r) && s.rooms[r].contains(p));
            assert(p != peer_id);
        }
        assert forall|p: PeerId| #[trigger] t.peer_room.contains_key(p) implies t
            .rooms
            .contains_key(t.peer_room[p]) && t.rooms[t.peer_room[p]].contains(p) by {
            assert(p != peer_id);
            assert(s.peer_room.contains_key(p));
            assert(s.rooms.contains_key(s.peer_room[p]) && s.rooms[s.peer_room[p]].contains(p));
            if s.peer_room[p] == r0 {
                assert(rest.contains(p));
                assert(!rest.is_empty());
            }
        }
    }
}

// ---------------------------------------------------------------------------
// The representation: association list for rooms, hash maps for the rest.
// ---------------------------------------------------------------------------

/// Whether some entry of the list names the room `id`.
pub open spec fn has_room(s: Seq<RoomEntry>, id: Seq<char>) -> bool {
    exists|i: int| 0 <= i < s.len() && s[i].id@ == id
}

/// Index of the entry naming `id` (meaningful when ids are distinct).
pub open spec fn room_index(s: Seq<RoomEntry>, id: Seq<char>) -> int {
    choose|i: int| 0 <= i < s.len() && s[i].id@ == id
}

/// The room table the list represents.
pub open spec fn rooms_map(s: Seq<RoomEntry>) -> Map<Seq<char>, Set<PeerId>> {
    Map::new(
        |id: Seq<char>| has_room(s, id),
        |id: Seq<char>| s[room_index(s, id)].peers@.to_set(),
    )
}

/// No two entries name the same room.
pub open spec fn distinct_room_ids(s: Seq<RoomEntry>) -> bool {
    forall|i: int, j: int|
        0 <= i < s.len() && 0 <= j < s.len() && i != j ==> (#[trigger] s[i].id@) != (
        #[trigger] s[j].id@)
}

/// The entry at `i` is what the represented table maps its id to.
proof fn lemma_rooms_map_at(s: Seq<RoomEntry>, i: int)
    requires
        distinct_room_ids(s),
        0 <= i < s.len(),
    ensures
        rooms_map(s).contains_key(s[i].id@),
        rooms_map(s)[s[i].id@] == s[i].peers@.to_set(),
{
    assert(has_room(s, s[i].id@));
    let j = room_index(s, s[i].id@);
    assert(0 <= j < s.len() && s[j].id@ == s[i].id@);
    assert(j == i);
}

/// Replacing the entry at `i` by one with the same id updates the table
/// at that id alone.
proof fn lemma_rooms_map_update(s: Seq<RoomEntry>, i: int, e: RoomEntry)
    requires
        distinct_room_ids(s),
        0 <= i < s.len(),
        e.id@ == s[i].id@,
    ensures
        distinct_room_ids(s.update(i, e)),
        rooms_map(s.update(i, e)) == rooms_map(s).insert(e.id@, e.peers@.to_set()),
{
    let s2 = s.update(i, e);
    assert forall|k: int| 0 <= k < s2.len() implies (#[trigger] s2[k].id@) == s[k].id@ by {}
    assert(distinct_room_ids(s2));
    let lhs = rooms_map(s2);
    let rhs = rooms_map(s).insert(e.id@, e.peers@.to_set());
    assert forall|key: Seq<char>| lhs.contains_key(key) implies rhs.contains_key(key) by {
        let k = choose|k: int| 0 <= k < s2.len() && s2[k].id@ == key;
        if key != e.id@ {
            assert(s[k].id@ == key);
            assert(has_room(s, key));
        }
    }
    assert forall|key: Seq<char>| rhs.contains_key(key) implies lhs.contains_key(key) by {
        if key == e.id@ {
            assert(s2[i].id@ == key);
            assert(has_room(s2, key));
        } else {
            let k = choose|k: int| 0 <= k < s.len() && s[k].id@ == key;
            assert(s2[k].id@ == key);
            assert(has_room(s2, key));
        }
    }
    assert forall|key: Seq<char>| lhs.contains_key(key) implies lhs[key] == rhs[key] by {
        let k = room_index(s2, key);
        assert(0 <= k < s2.len() && s2[k].id@ == key);
        if key == e.id@ {
            assert(k == i);
            assert(lhs[key] == e.peers@.to_set());
        } else {
            assert(k != i);
            assert(s[k].id@ == key);
            let k0 = room_index(s, key);
            assert(0 <= k0 < s.len() && s[k0].id@ == key);
            assert(k0 == k);
            assert(lhs[key] == s[k].peers@.to_set());
        }
    }
    assert(lhs =~= rhs);
}

/// Appending an entry with a fresh id adds exactly that room.
proof fn lemma_rooms_map_push(s: Seq<RoomEntry>, e: RoomEntry)
    requires
        distinct_room_ids(s),
        !has_room(s, e.id@),
    ensures
        distinct_room_ids(s.push(e)),
        rooms_map(s.push(e)) == rooms_map(s).insert(e.id@, e.peers@.to_set()),
{
    let s2 = s.push(e);
    assert forall|i: int, j: int|
        0 <= i < s2.len() && 0 <= j < s2.len() && i != j implies (#[trigger] s2[i].id@) != (
    #[trigger] s2[j].id@) by {
        if i < s.len() && j < s.len() {
            assert(s2[i].id@ == s[i].id@ && s2[j].id@ == s[j].id@);
        } else if i < s.len() {
            assert(s2[j].id@ == e.id@ && s2[i].id@ == s[i].id@);
            assert(has_room(s, s[i].id@));
        } else {
            assert(s2[i].id@ == e.id@ && s2[j].id@ == s[j].id@);
            assert(has_room(s, s[j].id@));
        }
    }
    let lhs = rooms_map(s2);
    let rhs = rooms_map(s).insert(e.id@, e.peers@.to_set());
    assert forall|key: Seq<char>| lhs.contains_key(key) implies rhs.contains_key(key) by {
        let k = choose|k: int| 0 <= k < s2.len() && s2[k].id@ == key;
        if key != e.id@ {
            assert(k < s.len());
            assert(s[k].id@ == key);
            assert(has_room(s, key));
        }
    }
    assert forall|key: Seq<char>| rhs.contains_key(key) implies lhs.contains_key(key) by {
        if key == e.id@ {
            assert(s2[s.len() as int].id@ == key);
            assert(has_room(s2, key));
        } else {
            let k = choose|k: int| 0 <= k < s.len() && s[k].id@ == key;
            assert(s2[k].id@ == key);
            assert(has_room(s2, key));
        }
    }
    assert forall|key: Seq<char>| lhs.contains_key(key) implies lhs[key] == rhs[key] by {
        let k = room_index(s2, key);
        assert(0 <= k < s2.len() && s2[k].id@ == key);
        if key == e.id@ {
            assert(k == s.len());
            assert(lhs[key] == e.peers@.to_set());
        } else {
            assert(k < s.len());
            assert(s[k].id@ == key);
            let k0 = room_index(s, key);
            assert(0 <= k0 < s.len() && s[k0].id@ == key);
            assert(k0 == k);
        }
    }
    assert(lhs =~= rhs);
}

/// Dropping the entry at `i` removes exactly that room.
proof fn lemma_rooms_map_remove(s: Seq<RoomEntry>, i: int)
    requires
        distinct_room_ids(s),
        0 <= i < s.len(),
    ensures
        distinct_room_ids(s.remove(i)),
        rooms_map(s.remove(i)) == rooms_map(s).remove(s[i].id@),
{
    let s2 = s.remove(i);
    assert forall|a: int, b: int|
        0 <= a < s2.len() && 0 <= b < s2.len() && a != b implies (#[trigger] s2[a].id@) != (
    #[trigger] s2[b].id@) by {
        let a0: int = if a < i { a } else { a + 1 };
        let b0: int = if b < i { b } else { b + 1 };
        assert(s2[a].id@ == s[a0].id@ && s2[b].id@ == s[b0].id@);
    }
    let lhs = rooms_map(s2);
    let rhs = rooms_map(s).remove(s[i].id@);
    assert forall|key: Seq<char>| lhs.contains_key(key) implies rhs.contains_key(key) by {
        let k = choose|k: int| 0 <= k < s2.len() && s2[k].id@ == key;
        let k0: int = if k < i { k } else { k + 1 };
        assert(s[k0].id@ == key);
        assert(has_room(s, key));
        assert(k0 != i);
        assert(key != s[i].id@);
    }
    assert forall|key: Seq<char>| rhs.contains_key(key) implies lhs.contains_key(key) by {
        let k = choose|k: int| 0 <= k < s.len() && s[k].id@ == key;
        assert(k != i);
        let k2: int = if k < i { k } else { k - 1 };
        assert(s2[k2].id@ == key);
        assert(has_room(s2, key));
    }
    assert forall|key: Seq<char>| lhs.contains_key(key) implies lhs[key] == rhs[key] by {
        let k = room_index(s2, key);
        assert(0 <= k < s2.len() && s2[k].id@ == key);
        let k0: int = if k < i { k } else { k + 1 };
        assert(s[k0].id@ == key);
        let k1 = room_index(s, key);
        assert(0 <= k1 < s.len() && s[k1].id@ == key);
        assert(k1 == k0);
        assert(lhs[key] == s2[k].peers@.to_set());
        assert(s2[k].peers@ == s[k0].peers@);
    }
    assert(lhs =~= rhs);
}

/// Pushing an element onto a sequence inserts it into the represented set.
proof fn lemma_push_to_set(s: Seq<PeerId>, p: PeerId)
    ensures
        s.push(p).to_set() == s.to_set().insert(p),
{
    let s2 = s.push(p);
    assert forall|x: PeerId| s2.to_set().contains(x) implies s.to_set().insert(p).contains(x) by {
        let k = choose|k: int| 0 <= k < s2.len() && s2[k] == x;
        if k < s.len() {
            assert(s[k] == x);
            assert(s.to_set().contains(x));
        }
    }
    assert forall|x: PeerId| s.to_set().insert(p).contains(x) implies s2.to_set().contains(x) by {
        if x == p {
            assert(s2[s.len() as int] == x);
        } else {
            let k = choose|k: int| 0 <= k < s.len() && s[k] == x;
            assert(s2[k] == x);
        }
    }
    assert(s2.to_set() =~= s.to_set().insert(p));
}

/// Removing position `k` of a duplicate-free sequence removes exactly
/// that element from the represented set.
proof fn lemma_remove_to_set(s: Seq<PeerId>, k: int)
    requires
        s.no_duplicates(),
        0 <= k < s.len(),
    ensures
        s.remove(k).no_duplicates(),
        s.remove(k).to_set() == s.to_set().remove(s[k]),
{
    let s2 = s.remove(k);
    assert forall|a: int, b: int| 0 <= a < s2.len() && 0 <= b < s2.len() && a != b implies s2[a]
        != s2[b] by {
        let a0: int = if a < k { a } else { a + 1 };
        let b0: int = if b < k { b } else { b + 1 };
        assert(s2[a] == s[a0] && s2[b] == s[b0]);
    }
    assert forall|x: PeerId| s2.to_set().contains(x) implies s.to_set().remove(s[k]).contains(
        x,
    ) by {
        let a = choose|a: int| 0 <= a < s2.len() && s2[a] == x;
        let a0: int = if a < k { a } else { a + 1 };
        assert(s[a0] == x);
        assert(s.to_set().contains(x));
        assert(a0 != k);
        assert(x != s[k]);
    }
    assert forall|x: PeerId| s.to_set().remove(s[k]).contains(x) implies s2.to_set().contains(
        x,
    ) by {
        let a = choose|a: int| 0 <= a < s.len() && s[a] == x;
        assert(a != k);
        let a2: int = if a < k { a } else { a - 1 };
        assert(s2[a2] == x);
    }
    assert(s2.to_set() =~= s.to_set().remove(s[k]));
}

/// A fresh element appended to a duplicate-free sequence keeps it so.
proof fn lemma_push_no_duplicates(s: Seq<PeerId>, p: PeerId)
    requires
        s.no_duplicates(),
        !s.contains(p),
    ensures
        s.push(p).no_duplicates(),
{
    let s2 = s.push(p);
    assert forall|a: int, b: int| 0 <= a < s2.len() && 0 <= b < s2.len() && a != b implies s2[a]
        != s2[b] by {
        if a < s.len() && b < s.len() {
        } else if a < s.len() {
            assert(s2[b] == p && s2[a] == s[a]);
            assert(!s.contains(p));
            if s[a] == p {
                assert(s.contains(p));
            }
        } else {
            assert(s2[a] == p && s2[b] == s[b]);
            if s[b] == p {
                assert(s.contains(p));
            }
        }
    }
}

/// The pending table a hash map represents.
pub open spec fn pending_view(m: Map<Origin, RequestedRoom>) -> Map<Origin, ReqView> {
    Map::new(|o: Origin| m.contains_key(o), |o: Origin| m[o]@)
}

/// The reverse index a hash map represents.
pub open spec fn peer_room_view(m: Map<PeerId, RoomId>) -> Map<PeerId, Seq<char>> {
    Map::new(|p: PeerId| m.contains_key(p), |p: PeerId| m[p]@)
}

/// A room that reached its threshold: its id and every current member.
pub struct ReadyRoom {
    pub id: RoomId,
    pub peers: Vec<PeerId>,
}

/// The coordinator: single source of truth for pending requests, room
/// membership, and the peer-to-room reverse index.
pub struct ServerState {
    pending: HashMap<Origin, RequestedRoom>,
    rooms: Vec<RoomEntry>,
    peer_room: HashMap<PeerId, RoomId>,
}

impl View for ServerState {
    type V = StateModel;

    closed spec fn view(&self) -> StateModel {
        StateModel {
            pending: pending_view(self.pending@),
            rooms: rooms_map(self.rooms@),
            peer_room: peer_room_view(self.peer_room@),
        }
    }
}

/// An owned copy of a member list.
fn copy_peers(v: &Vec<PeerId>) -> (r: Vec<PeerId>)
    ensures
        r@ == v@,
{
    let mut r: Vec<PeerId> = Vec::new();
    let n = v.len();
    for i in 0..n
        invariant
            n == v@.len(),
            r@ == v@.subrange(0, i as int),
    {
        r.push(v[i]);
        proof {
            assert(r@ =~= v@.subrange(0, i + 1 as int));
        }
    }
    proof {
        assert(r@ =~= v@);
    }
    r
}

impl Default for ServerState {
    /// Same coordinator as [`ServerState::new`] returns.
    fn default() -> (s: Self)
        ensures
            s.inv(),
            s@.pending == Map::<Origin, ReqView>::empty(),
            s@.rooms == Map::<Seq<char>, Set<PeerId>>::empty(),
            s@.peer_room == Map::<PeerId, Seq<char>>::empty(),
    {
        Self::new()
    }
}

impl ServerState {
    /// Representation invariant: room ids distinct, member lists free of
    /// duplicates and nonempty, and the model's cross references intact.
    pub closed spec fn inv(&self) -> bool {
        &&& distinct_room_ids(self.rooms@)
        &&& forall|i: int|
            0 <= i < self.rooms@.len() ==> (#[trigger] self.rooms@[i]).peers@.no_duplicates()
                && self.rooms@[i].peers@.len() > 0
        &&& wf(self@)
    }

    /// A coordinator holding its invariant is well formed at model level.
    pub proof fn lemma_inv_wf(&self)
        requires
            self.inv(),
        ensures
            wf(self@),
    {
    }

    /// A coordinator with no pending request, no room, and no peer.
    pub fn new() -> (s: ServerState)
        ensures
            s.inv(),
            s@.pending == Map::<Origin, ReqView>::empty(),
            s@.rooms == Map::<Seq<char>, Set<PeerId>>::empty(),
            s@.peer_room == Map::<PeerId, Seq<char>>::empty(),
    {
        let s = ServerState { pending: HashMap::new(), rooms: Vec::new(), peer_room: HashMap::new() };
        proof {
            assert(s@.pending =~= Map::<Origin, ReqView>::empty());
            assert(s@.rooms =~= Map::<Seq<char>, Set<PeerId>>::empty());
            assert(s@.peer_room =~= Map::<PeerId, Seq<char>>::empty());
        }
        s
    }

    /// Index of the entry for the room named `id`, if one exists.
    fn find_room(&self, id: &RoomId) -> (r: Option<usize>)
        ensures
            match r {
                Some(i) => i < self.rooms@.len() && self.rooms@[i as int].id@ == id@,
                None => !has_room(self.rooms@, id@),
            },
    {
        let n = self.rooms.len();
        for i in 0..n
            invariant
                n == self.rooms@.len(),
                forall|j: int| 0 <= j < i ==> (#[trigger] self.rooms@[j].id@) != id@,
        {
            if self.rooms[i].id.same_id(id) {
                return Some(i);
            }
        }
        None
    }

    /// Register `req` as `origin`'s pending request; a second request
    /// from the same origin overwrites the first.
    pub fn add_waiting_client(&mut self, origin: Origin, req: RequestedRoom)
        requires
            old(self).inv(),
        ensures
            final(self).inv(),
            final(self)@ == spec_add_waiting(old(self)@, origin, req@),
    {
        let ghost req_v = req@;
        self.pending.insert(origin, req);
        proof {
            assert(self@.pending =~= old(self)@.pending.insert(origin, req_v));
            assert(self@ =~= spec_add_waiting(old(self)@, origin, req_v));
            lemma_add_waiting_preserves_wf(old(self)@, origin, req_v);
        }
    }

    /// Resolve `origin`'s pending request, if any: the new peer joins the
    /// requested room, and when the room then holds at least its
    /// threshold of peers, the full membership is reported.
    pub fn assign_id_to_waiting_client(&mut self, origin: Origin, peer_id: PeerId) -> (r: Option<
        ReadyRoom,
    >)
        requires
            old(self).inv(),
            !old(self)@.peer_room.contains_key(peer_id),
        ensures
            final(self).inv(),
            final(self)@ == spec_assign(old(self)@, origin, peer_id),
            r.is_some() == spec_assign_ready(old(self)@, origin, peer_id),
            r matches Some(ready) ==> (ready.id@ == old(self)@.pending[origin].id
                && ready.peers@.no_duplicates() && ready.peers@.to_set() == final(self)@.rooms[ready.id@]),
    {
        let taken = self.pending.remove(&origin);
        proof {
            assert(self.pending@ == old(self).pending@.remove(origin));
            assert(self@.pending =~= old(self)@.pending.remove(origin));
        }
        match taken {
            None => {
                proof {
                    assert(!old(self)@.pending.contains_key(origin));
                    assert(old(self)@.pending.remove(origin) =~= old(self)@.pending);
                    assert(self@ =~= old(self)@);
                }
                None
            },
            Some(req) => {
                proof {
                    assert(old(self)@.pending.contains_key(origin));
                    assert(old(self)@.pending[origin] == req@);
                }
                let ghost s0 = old(self)@;
                let ghost old_rooms = self.rooms@;
                let (count, members): (usize, Vec<PeerId>) = match self.find_room(&req.id) {
                    Some(i) => {
                        proof {
                            lemma_rooms_map_at(old_rooms, i as int);
                            assert(s0.rooms.contains_key(req@.id));
                            assert(s0.members(req@.id) == old_rooms[i as int].peers@.to_set());
                        }
                        let mut entry = self.rooms.remove(i);
                        proof {
                            // the fresh peer is in no member list
                            if entry.peers@.contains(peer_id) {
                                assert(entry.peers@.to_set().contains(peer_id));
                                assert(s0.rooms[req@.id].contains(peer_id));
                                assert(s0.peer_room.contains_key(peer_id));
                            }
                            lemma_push_no_duplicates(entry.peers@, peer_id);
                            lemma_push_to_set(entry.peers@, peer_id);
                        }
                        entry.peers.push(peer_id);
                        let count = entry.peers.len();
                        let members = copy_peers(&entry.peers);
                        let ghost entry_v = entry;
                        self.rooms.insert(i, entry);
                        proof {
                            assert(old_rooms.remove(i as int).insert(i as int, entry_v)
                                =~= old_rooms.update(i as int, entry_v));
                            lemma_rooms_map_update(old_rooms, i as int, entry_v);
                            assert(self@.rooms == s0.rooms.insert(
                                req@.id,
                                s0.members(req@.id).insert(peer_id),
                            ));
                        }
                        (count, members)
                    },
                    None => {
                        proof {
                            assert(!s0.rooms.contains_key(req@.id));
                            assert(s0.members(req@.id) =~= Set::<PeerId>::empty());
                        }
                        let mut peers: Vec<PeerId> = Vec::new();
                        peers.push(peer_id);
                        let count = peers.len();
                        let members = copy_peers(&peers);
                        let entry = RoomEntry { id: req.id.duplicate(), peers };
                        let ghost entry_v = entry;
                        self.rooms.push(entry);
                        proof {
                            lemma_rooms_map_push(old_rooms, entry_v);
                            assert(entry_v.peers@ =~= Seq::<PeerId>::empty().push(peer_id));
                            lemma_push_to_set(Seq::<PeerId>::empty(), peer_id);
                            assert(Seq::<PeerId>::empty().to_set() =~= Set::<PeerId>::empty());
                            assert(entry_v.peers@.to_set() == s0.members(req@.id).insert(peer_id));
                            assert(self@.rooms == s0.rooms.insert(
                                req@.id,
                                s0.members(req@.id).insert(peer_id),
                            ));
                        }
                        (count, members)
                    },
                };
                let room_for_index = req.id.duplicate();
                self.peer_room.insert(peer_id, room_for_index);
                proof {
                    assert(self@.peer_room =~= s0.peer_room.insert(peer_id, req@.id));
                    assert(self@ =~= spec_assign(s0, origin, peer_id));
                    lemma_assign_preserves_wf(s0, origin, peer_id);
                    // the reported count is the room's cardinality
                    assert(members@.no_duplicates());
                    members@.unique_seq_to_set();
                    assert(members@.to_set() == s0.members(req@.id).insert(peer_id));
                    assert(count as nat == s0.members(req@.id).insert(peer_id).len());
                }
                let t = threshold(req.next);
                if count >= t {
                    proof {
                        assert(spec_assign_ready(s0, origin, peer_id));
                    }
                    Some(ReadyRoom { id: req.id, peers: members })
                } else {
                    proof {
                        assert(!spec_assign_ready(s0, origin, peer_id));
                    }
                    None
                }
            },
        }
    }

    /// Remove a disconnected peer from its room, dropping the room when
    /// it empties; an unknown peer is ignored.
    pub fn remove_peer(&mut self, peer_id: PeerId)
        requires
            old(self).inv(),
        ensures
            final(self).inv(),
            final(self)@ == spec_remove_peer(old(self)@, peer_id),
    {
        let ghost s0 = old(self)@;
        let taken = self.peer_room.remove(&peer_id);
        proof {
            assert(self@.peer_room =~= s0.peer_room.remove(peer_id));
        }
        match taken {
            None => {
                proof {
                    assert(!s0.peer_room.contains_key(peer_id));
                    assert(s0.peer_room.remove(peer_id) =~= s0.peer_room);
                    assert(self@ =~= s0);
                }
            },
            Some(rid) => {
                proof {
                    assert(s0.peer_room.contains_key(peer_id));
                    assert(s0.peer_room[peer_id] == rid@);
                    assert(s0.rooms.contains_key(rid@) && s0.rooms[rid@].contains(peer_id));
                }
                let ghost old_rooms = self.rooms@;
                match self.find_room(&rid) {
                    Some(i) => {
                        proof {
                            lemma_rooms_map_at(old_rooms, i as int);
                            assert(s0.rooms[rid@] == old_rooms[i as int].peers@.to_set());
                        }
                        let mut entry = self.rooms.remove(i);
                        let k = Self::find_member(&entry.peers, peer_id);
                        proof {
                            assert(entry.peers@.to_set().contains(peer_id));
                        }
                        match k {
                            Some(k) => {
                                proof {
                                    lemma_remove_to_set(entry.peers@, k as int);
                                }
                                let ghost old_peers = entry.peers@;
                                entry.peers.remove(k);
                                proof {
                                    assert(entry.peers@.to_set() == s0.members(rid@).remove(
                                        peer_id,
                                    ));
                                }
                                if entry.peers.len() > 0 {
                                    let ghost entry_v = entry;
                                    let ghost rest = s0.members(rid@).remove(peer_id);
                                    proof {
                                        assert(entry_v.peers@.to_set().contains(
                                            entry_v.peers@[0],
                                        ));
                                        assert(!rest.is_empty());
                                    }
                                    self.rooms.insert(i, entry);
                                    proof {
                                        assert(old_rooms.remove(i as int).insert(
                                            i as int,
                                            entry_v,
                                        ) =~= old_rooms.update(i as int, entry_v));
                                        lemma_rooms_map_update(old_rooms, i as int, entry_v);
                                        assert(self@.rooms == s0.rooms.insert(rid@, rest));
                                        assert(self@ =~= spec_remove_peer(s0, peer_id));
                                        lemma_remove_peer_preserves_wf(s0, peer_id);
                                    }
                                } else {
                                    let ghost rest = s0.members(rid@).remove(peer_id);
                                    proof {
                                        assert(entry.peers@.len() == 0);
                                        assert(entry.peers@.to_set() =~= Set::<PeerId>::empty());
                                        assert(rest.is_empty());
                                        lemma_rooms_map_remove(old_rooms, i as int);
                                        assert(self@.rooms == s0.rooms.remove(rid@));
                                        assert(self@ =~= spec_remove_peer(s0, peer_id));
                                        lemma_remove_peer_preserves_wf(s0, peer_id);
                                    }
                                }
                            },
                            None => {
                                proof {
                                    assert(entry.peers@.contains(peer_id));
                                    assert(false);
                                }
                            },
                        }
                    },
                    None => {
                        proof {
                            assert(has_room(old_rooms, rid@));
                            assert(false);
                        }
                    },
                }
            },
        }
    }

    /// Index of `p` in a member list, if present.
    fn find_member(peers: &Vec<PeerId>, p: PeerId) -> (r: Option<usize>)
        ensures
            match r {
                Some(k) => k < peers@.len() && peers@[k as int] == p,
                None => !peers@.contains(p),
            },
    {
        let n = peers.len();
        for k in 0..n
            invariant
                n == peers@.len(),
                forall|j: int| 0 <= j < k ==> peers@[j] != p,
        {
            if peers[k] == p {
                return Some(k);
            }
        }
        None
    }

    /// The request currently pending for `origin`, if any.
    pub fn pending_request(&self, origin: Origin) -> (r: Option<RequestedRoom>)
        ensures
            match r {
                Some(req) => self@.pending.contains_key(origin) && req@ == self@.pending[origin],
                None => !self@.pending.contains_key(origin),
            },
    {
        match self.pending.get(&origin) {
            Some(req) => Some(req.duplicate()),
            None => None,
        }
    }

    /// Whether the coordinator currently tracks `peer_id`.
    pub fn has_peer(&self, peer_id: PeerId) -> (b: bool)
        ensures
            b == self@.peer_room.contains_key(peer_id),
    {
        self.peer_room.contains_key(&peer_id)
    }

    /// The room `peer_id` waits in, if any.
    pub fn peer_room_of(&self, peer_id: PeerId) -> (r: Option<RoomId>)
        ensures
            match r {
                Some(rid) => self@.peer_room.contains_key(peer_id) && rid@
                    == self@.peer_room[peer_id],
                None => !self@.peer_room.contains_key(peer_id),
            },
    {
        match self.peer_room.get(&peer_id) {
            Some(rid) => Some(rid.duplicate()),
            None => None,
        }
    }

    /// Whether a room named `id` currently exists.
    pub fn contains_room(&self, id: &RoomId) -> (b: bool)
        ensures
            b == self@.rooms.contains_key(id@),
    {
        match self.find_room(id) {
            Some(i) => {
                proof {
                    assert(self.rooms@[i as int].id@ == id@);
                    assert(has_room(self.rooms@, id@));
                }
                true
            },
            None => false,
        }
    }

    /// Members of the room named `id`; empty when no such room exists.
    pub fn room_members(&self, id: &RoomId) -> (r: Vec<PeerId>)
        requires
            self.inv(),
        ensures
            r@.no_duplicates(),
            r@.to_set() == self@.members(id@),
    {
        match self.find_room(id) {
            Some(i) => {
                proof {
                    lemma_rooms_map_at(self.rooms@, i as int);
                }
                copy_peers(&self.rooms[i].peers)
            },
            None => {
                let r: Vec<PeerId> = Vec::new();
                proof {
                    assert(r@.to_set() =~= Set::<PeerId>::empty());
                }
                r
            },
        }
    }
}

} // verus!
