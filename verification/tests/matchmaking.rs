use matchbox_server::adapter::{handle_connection_request, handle_id_assignment};
use matchbox_server::{RequestedRoom, RoomId, ServerState};

fn room(name: &str) -> RoomId {
    RoomId(String::from(name))
}

fn request(name: &str, next: Option<usize>) -> RequestedRoom {
    RequestedRoom { id: room(name), next }
}

fn sorted_members(state: &ServerState, name: &str) -> Vec<u64> {
    let mut m = state.room_members(&room(name));
    m.sort();
    m
}

#[test]
fn default_room_pairs_two_clients() {
    // Origin A and origin B both request the default (empty) room; ids
    // p1 and p2 arrive in that order. Only the second assignment reports
    // the room, with both members.
    let mut state = ServerState::new();
    state.add_waiting_client(1, request("", None));
    state.add_waiting_client(2, request("", None));
    let first = state.assign_id_to_waiting_client(1, 101);
    assert!(first.is_none());
    let second = state.assign_id_to_waiting_client(2, 102);
    let ready = second.expect("second assignment must report the room");
    assert_eq!(ready.id.0, "");
    let mut peers = ready.peers.clone();
    peers.sort();
    assert_eq!(peers, vec![101, 102]);
    assert_eq!(sorted_members(&state, ""), vec![101, 102]);
}

#[test]
fn pairing_reports_on_second_assignment_either_order() {
    // Same pair of requests, ids assigned in the opposite order.
    let mut state = ServerState::new();
    state.add_waiting_client(1, request("lobby", None));
    state.add_waiting_client(2, request("lobby", None));
    assert!(state.assign_id_to_waiting_client(2, 202).is_none());
    let ready = state.assign_id_to_waiting_client(1, 201).expect("room must be ready");
    assert_eq!(ready.id.0, "lobby");
    let mut peers = ready.peers;
    peers.sort();
    assert_eq!(peers, vec![201, 202]);
}

#[test]
fn explicit_threshold_reports_on_third_assignment_only() {
    // Room "trio" with next=3: readiness comes with the third peer only.
    let mut state = ServerState::new();
    state.add_waiting_client(1, request("trio", Some(3)));
    state.add_waiting_client(2, request("trio", Some(3)));
    state.add_waiting_client(3, request("trio", Some(3)));
    assert!(state.assign_id_to_waiting_client(1, 11).is_none());
    assert!(state.assign_id_to_waiting_client(2, 12).is_none());
    let ready = state.assign_id_to_waiting_client(3, 13).expect("third peer completes the room");
    assert_eq!(ready.id.0, "trio");
    let mut peers = ready.peers;
    peers.sort();
    assert_eq!(peers, vec![11, 12, 13]);
}

#[test]
fn threshold_of_five_not_reached_by_one() {
    // Origin C requests room "r" with next=5; one assignment reports
    // nothing and the room holds exactly one member.
    let mut state = ServerState::new();
    state.add_waiting_client(7, request("r", Some(5)));
    assert!(state.assign_id_to_waiting_client(7, 3).is_none());
    assert_eq!(sorted_members(&state, "r"), vec![3]);
}

#[test]
fn second_request_overwrites_pending_entry() {
    // Two requests from one origin before any id: exactly one pending
    // entry remains, the second one.
    let mut state = ServerState::new();
    state.add_waiting_client(5, request("first", None));
    state.add_waiting_client(5, request("second", Some(4)));
    let pending = state.pending_request(5).expect("one entry must be pending");
    assert_eq!(pending.id.0, "second");
    assert_eq!(pending.next, Some(4));
    // resolving it consumes the single entry
    assert!(state.assign_id_to_waiting_client(5, 50).is_none());
    assert!(state.pending_request(5).is_none());
    assert_eq!(sorted_members(&state, "second"), vec![50]);
    assert!(state.room_members(&room("first")).is_empty());
}

#[test]
fn assignment_without_request_is_a_no_op() {
    // No add_waiting_client for this origin: rooms and the reverse index
    // stay unchanged and nothing panics.
    let mut state = ServerState::new();
    state.add_waiting_client(1, request("lobby", None));
    let r = state.assign_id_to_waiting_client(9, 99);
    assert!(r.is_none());
    assert!(!state.has_peer(99));
    assert!(!state.contains_room(&room("lobby")));
    assert!(state.room_members(&room("lobby")).is_empty());
}

#[test]
fn disconnects_empty_and_delete_the_room() {
    // After a pair matches, removing one peer leaves one member; removing
    // the second deletes the room entry entirely.
    let mut state = ServerState::new();
    state.add_waiting_client(1, request("lobby", None));
    state.add_waiting_client(2, request("lobby", None));
    state.assign_id_to_waiting_client(1, 101);
    state.assign_id_to_waiting_client(2, 102);
    state.remove_peer(101);
    assert!(state.contains_room(&room("lobby")));
    assert_eq!(sorted_members(&state, "lobby"), vec![102]);
    assert!(!state.has_peer(101));
    state.remove_peer(102);
    assert!(!state.contains_room(&room("lobby")));
    assert!(state.room_members(&room("lobby")).is_empty());
    assert!(!state.has_peer(102));
}

#[test]
fn removing_unknown_peer_is_a_no_op() {
    let mut state = ServerState::new();
    state.add_waiting_client(1, request("lobby", None));
    state.assign_id_to_waiting_client(1, 101);
    state.remove_peer(4242);
    assert!(state.has_peer(101));
    assert_eq!(sorted_members(&state, "lobby"), vec![101]);
}

#[test]
fn room_growing_past_threshold_keeps_reporting() {
    // Readiness is idempotent: a room that already met its threshold is
    // reported again on every later insertion.
    let mut state = ServerState::new();
    state.add_waiting_client(1, request("big", None));
    state.add_waiting_client(2, request("big", None));
    state.add_waiting_client(3, request("big", None));
    assert!(state.assign_id_to_waiting_client(1, 21).is_none());
    assert!(state.assign_id_to_waiting_client(2, 22).is_some());
    let ready = state.assign_id_to_waiting_client(3, 23).expect("still at threshold");
    let mut peers = ready.peers;
    peers.sort();
    assert_eq!(peers, vec![21, 22, 23]);
}

#[test]
fn peer_room_reverse_index_tracks_membership() {
    let mut state = ServerState::new();
    state.add_waiting_client(1, request("a", Some(5)));
    state.assign_id_to_waiting_client(1, 10);
    let r = state.peer_room_of(10).expect("peer 10 is seated");
    assert_eq!(r.0, "a");
    assert!(state.peer_room_of(11).is_none());
    state.remove_peer(10);
    assert!(state.peer_room_of(10).is_none());
}

#[test]
fn connection_request_hook_registers_and_accepts() {
    let mut state = ServerState::new();
    let accepted = handle_connection_request(
        &mut state,
        1,
        Some(String::from("lobby")),
        Some("2"),
    );
    assert!(accepted);
    let pending = state.pending_request(1).expect("request must be pending");
    assert_eq!(pending.id.0, "lobby");
    assert_eq!(pending.next, Some(2));
}

#[test]
fn id_assignment_hook_matches_a_pair() {
    let mut state = ServerState::new();
    assert!(handle_connection_request(&mut state, 1, Some(String::from("lobby")), None));
    assert!(handle_connection_request(&mut state, 2, Some(String::from("lobby")), None));
    assert!(handle_id_assignment(&mut state, 1, 101).is_none());
    let ready = handle_id_assignment(&mut state, 2, 102).expect("pair must be reported");
    assert_eq!(ready.id.0, "lobby");
    let mut peers = ready.peers;
    peers.sort();
    assert_eq!(peers, vec![101, 102]);
}

#[test]
fn id_assignment_hook_ignores_known_peer() {
    // A peer id the coordinator already tracks is left where it is.
    let mut state = ServerState::new();
    assert!(handle_connection_request(&mut state, 1, Some(String::from("a")), Some("5")));
    assert!(handle_id_assignment(&mut state, 1, 10).is_none());
    assert!(handle_connection_request(&mut state, 2, Some(String::from("b")), Some("5")));
    let r = handle_id_assignment(&mut state, 2, 10);
    assert!(r.is_none());
    assert_eq!(state.peer_room_of(10).expect("still seated in a").0, "a");
    assert!(state.pending_request(2).is_some());
    assert!(!state.contains_room(&RoomId(String::from("b"))));
}

#[test]
fn default_coordinator_is_empty() {
    let state = ServerState::default();
    assert!(state.pending_request(0).is_none());
    assert!(!state.has_peer(0));
    assert!(!state.contains_room(&room("")));
}
