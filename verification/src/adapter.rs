//! Translation of transport lifecycle events into coordinator calls:
//! parsing the requested room and threshold, and the two hooks.

use vstd::prelude::*;
use vstd::string::StrSliceExecFns;
use crate::room::{Origin, PeerId, ReqView, RequestedRoom, RoomId};
use crate::state::{spec_add_waiting, spec_assign, spec_assign_ready, ReadyRoom, ServerState};

verus! {

/// Whether every character is a decimal digit.
pub open spec fn all_digits(s: Seq<char>) -> bool {
    forall|i: int| 0 <= i < s.len() ==> 48 <= (#[trigger] s[i]) as int <= 57
}

/// Numeric value of a digit string, most significant digit first.
pub open spec fn decimal_val(s: Seq<char>) -> int
    decreases s.len(),
{
    if s.len() == 0 {
        0
    } else {
        decimal_val(s.drop_last()) * 10 + (s.last() as int - 48)
    }
}

/// The value of a digit string is never negative.
proof fn lemma_decimal_val_nonneg(s: Seq<char>)
    requires
        all_digits(s),
    ensures
        decimal_val(s) >= 0,
    decreases s.len(),
{
    if s.len() > 0 {
        assert(all_digits(s.drop_last()));
        lemma_decimal_val_nonneg(s.drop_last());
    }
}

/// Every prefix of a digit string is worth at most the whole string.
proof fn lemma_decimal_val_prefix(s: Seq<char>, i: int)
    requires
        all_digits(s),
        0 <= i <= s.len(),
    ensures
        decimal_val(s.subrange(0, i)) <= decimal_val(s),
    decreases s.len() - i,
{
    if i < s.len() {
        let a = s.subrange(0, i);
        let b = s.subrange(0, i + 1);
        assert(b.drop_last() =~= a);
        assert(all_digits(a));
        lemma_decimal_val_nonneg(a);
        assert(decimal_val(b) == decimal_val(a) * 10 + (b.last() as int - 48));
        assert(decimal_val(a) * 10 >= decimal_val(a));
        assert(decimal_val(a) <= decimal_val(b));
        lemma_decimal_val_prefix(s, i + 1);
        assert(s.subrange(0, s.len() as int) =~= s);
    } else {
        assert(s.subrange(0, i) =~= s);
    }
}

/// What a `next` query parameter means: a positive decimal number that
/// fits the machine word; anything else is treated as absent.
pub open spec fn spec_parse_next(s: Seq<char>) -> Option<usize> {
    if s.len() > 0 && all_digits(s) && 1 <= decimal_val(s) <= usize::MAX {
        Some(decimal_val(s) as usize)
    } else {
        None
    }
}

/// Parse a `next` query parameter: the threshold it asks for, or `None`
/// when it is empty, malformed, zero, or too large.
pub fn parse_next_param(s: &str) -> (r: Option<usize>)
    ensures
        r == spec_parse_next(s@),
{
    let n = s.unicode_len();
    if n == 0 {
        return None;
    }
    let mut value: usize = 0;
    let mut i: usize = 0;
    while i < n
        invariant
            n == s@.len(),
            0 <= i <= n,
            all_digits(s@.subrange(0, i as int)),
            value == decimal_val(s@.subrange(0, i as int)),
        decreases n - i,
    {
        let c = s.get_char(i);
        let cv = c as u32;
        if cv < 48 || cv > 57 {
            proof {
                assert(s@[i as int] == c);
                assert(!all_digits(s@));
            }
            return None;
        }
        let d = (cv - 48) as usize;
        let ghost pre = s@.subrange(0, i as int);
        let ghost cur = s@.subrange(0, i + 1 as int);
        proof {
            assert(cur.drop_last() =~= pre);
            assert(cur.last() == s@[i as int]);
            assert(all_digits(cur));
            assert(decimal_val(cur) == value * 10 + d);
        }
        if value > (usize::MAX - d) / 10 {
            proof {
                assert(value >= (usize::MAX - d) / 10 + 1);
                assert(value * 10 >= ((usize::MAX - d) / 10 + 1) * 10) by (nonlinear_arith)
                    requires
                        value >= (usize::MAX - d) / 10 + 1,
                ;
                assert(((usize::MAX - d) / 10) * 10 + 10 > usize::MAX - d) by (nonlinear_arith);
                assert(decimal_val(cur) > usize::MAX);
                if all_digits(s@) {
                    lemma_decimal_val_prefix(s@, i + 1);
                    assert(decimal_val(s@) > usize::MAX);
                }
            }
            return None;
        }
        proof {
            assert(value <= (usize::MAX - d) / 10);
            assert(value * 10 <= ((usize::MAX - d) / 10) * 10) by (nonlinear_arith)
                requires
                    value <= (usize::MAX - d) / 10,
            ;
            assert(((usize::MAX - d) / 10) * 10 <= usize::MAX - d) by (nonlinear_arith);
        }
        value = value * 10 + d;
        i = i + 1;
    }
    proof {
        assert(s@.subrange(0, n as int) =~= s@);
    }
    if value == 0 {
        None
    } else {
        Some(value)
    }
}

/// The request a connection's path and `next` parameter stand for: the
/// path names the room (none meaning the default, empty, room) and a
/// well-formed positive `next` sets the threshold.
pub open spec fn spec_room_request(path: Option<Seq<char>>, next: Option<Seq<char>>) -> ReqView {
    ReqView {
        id: match path {
            Some(p) => p,
            None => Seq::<char>::empty(),
        },
        next: match next {
            Some(q) => spec_parse_next(q),
            None => None,
        },
    }
}

/// Build the room request a connection asks for from its path and its
/// `next` query parameter, exactly as the transport hands them over.
pub fn parse_room_request(path: Option<String>, next_param: Option<&str>) -> (r: RequestedRoom)
    ensures
        r@ == spec_room_request(
            match path {
                Some(p) => Some(p@),
                None => None,
            },
            match next_param {
                Some(q) => Some(q@),
                None => None,
            },
        ),
{
    let id = match path {
        Some(p) => RoomId(p),
        None => RoomId(String::new()),
    };
    let next = match next_param {
        Some(q) => parse_next_param(q),
        None => None,
    };
    RequestedRoom { id, next }
}

/// Connection-request hook: parse the requested room, register it for
/// `origin`, and accept the connection; no turn-away policy is applied.
pub fn handle_connection_request(
    state: &mut ServerState,
    origin: Origin,
    path: Option<String>,
    next_param: Option<&str>,
) -> (accepted: bool)
    requires
        old(state).inv(),
    ensures
        final(state).inv(),
        accepted,
        final(state)@ == spec_add_waiting(
            old(state)@,
            origin,
            spec_room_request(
                match path {
                    Some(p) => Some(p@),
                    None => None,
                },
                match next_param {
                    Some(q) => Some(q@),
                    None => None,
                },
            ),
        ),
{
    let req = parse_room_request(path, next_param);
    state.add_waiting_client(origin, req);
    true
}

/// Id-assignment hook: resolve the pending request for `origin` and
/// report the room when it reached its threshold. A peer id the
/// coordinator already tracks is left exactly where it is.
pub fn handle_id_assignment(state: &mut ServerState, origin: Origin, peer_id: PeerId) -> (r:
    Option<ReadyRoom>)
    requires
        old(state).inv(),
    ensures
        final(state).inv(),
        old(state)@.peer_room.contains_key(peer_id) ==> final(state)@ == old(state)@
            && r.is_none(),
        !old(state)@.peer_room.contains_key(peer_id) ==> {
            &&& final(state)@ == spec_assign(old(state)@, origin, peer_id)
            &&& r.is_some() == spec_assign_ready(old(state)@, origin, peer_id)
            &&& (r matches Some(ready) ==> (ready.id@ == old(state)@.pending[origin].id
                && ready.peers@.no_duplicates() && ready.peers@.to_set()
                == final(state)@.rooms[ready.id@]))
        },
{
    if state.has_peer(peer_id) {
        None
    } else {
        state.assign_id_to_waiting_client(origin, peer_id)
    }
}

} // verus!
