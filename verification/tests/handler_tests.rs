use chat_server::handler::{handle_frame, Session};
use chat_server::registry::RoomRegistry;

#[test]
fn two_clients_chat_in_a_lobby() {
    // C1 ("alice") and C2 ("bob") both join `lobby`; a message from C1 is
    // delivered to C2 alone, as the plain line `alice: hi`.
    let mut reg = RoomRegistry::new();
    let mut c1 = Session::new(reg.next_id());
    let mut c2 = Session::new(reg.next_id());

    assert!(handle_frame(&mut reg, &mut c1, b"JOIN_ROOM:lobby").is_empty());
    assert!(handle_frame(&mut reg, &mut c2, b"JOIN_ROOM:lobby").is_empty());

    let deliveries = handle_frame(&mut reg, &mut c1, b"ROOM_MSG:lobby:alice:hi");
    assert_eq!(deliveries.len(), 1);
    assert_eq!(deliveries[0].to, c2.id);
    assert_eq!(deliveries[0].frame, b"alice: hi".to_vec());
}

#[test]
fn join_tracks_the_current_room() {
    let mut reg = RoomRegistry::new();
    let mut s = Session::new(reg.next_id());
    handle_frame(&mut reg, &mut s, b"JOIN_ROOM:games");
    assert_eq!(s.current, Some(b"games".to_vec()));
}

#[test]
fn any_leave_clears_the_current_room() {
    // The handler clears its tracked room on any leave command, even one
    // naming a room that was never joined.
    let mut reg = RoomRegistry::new();
    let mut s = Session::new(reg.next_id());
    handle_frame(&mut reg, &mut s, b"JOIN_ROOM:games");
    let deliveries = handle_frame(&mut reg, &mut s, b"LEAVE_ROOM:other");
    assert!(deliveries.is_empty());
    assert_eq!(s.current, None);
}

#[test]
fn leave_stops_later_deliveries() {
    let mut reg = RoomRegistry::new();
    let mut c1 = Session::new(reg.next_id());
    let mut c2 = Session::new(reg.next_id());
    handle_frame(&mut reg, &mut c1, b"JOIN_ROOM:lobby");
    handle_frame(&mut reg, &mut c2, b"JOIN_ROOM:lobby");
    handle_frame(&mut reg, &mut c2, b"LEAVE_ROOM:lobby");
    let deliveries = handle_frame(&mut reg, &mut c1, b"ROOM_MSG:lobby:alice:hi");
    assert!(deliveries.is_empty());
}

#[test]
fn message_to_a_room_with_no_other_member_delivers_nothing() {
    let mut reg = RoomRegistry::new();
    let mut c1 = Session::new(reg.next_id());
    handle_frame(&mut reg, &mut c1, b"JOIN_ROOM:lobby");
    assert!(handle_frame(&mut reg, &mut c1, b"ROOM_MSG:lobby:alice:hi").is_empty());
}

#[test]
fn malformed_frames_are_ignored_and_change_nothing() {
    let mut reg = RoomRegistry::new();
    let mut c1 = Session::new(reg.next_id());
    let mut c2 = Session::new(reg.next_id());
    handle_frame(&mut reg, &mut c1, b"JOIN_ROOM:lobby");
    handle_frame(&mut reg, &mut c2, b"JOIN_ROOM:lobby");
    assert!(handle_frame(&mut reg, &mut c1, b"ROOM_MSG:lobby:alice").is_empty());
    assert!(handle_frame(&mut reg, &mut c1, b"nonsense").is_empty());
    let deliveries = handle_frame(&mut reg, &mut c1, b"ROOM_MSG:lobby:alice:still here");
    assert_eq!(deliveries.len(), 1);
    assert_eq!(deliveries[0].to, c2.id);
    assert_eq!(deliveries[0].frame, b"alice: still here".to_vec());
}

#[test]
fn message_names_the_room_it_is_sent_to() {
    // The server trusts the room named in the frame: a message for a room
    // the sender never joined still reaches that room's members.
    let mut reg = RoomRegistry::new();
    let mut c1 = Session::new(reg.next_id());
    let mut c2 = Session::new(reg.next_id());
    handle_frame(&mut reg, &mut c1, b"JOIN_ROOM:alpha");
    handle_frame(&mut reg, &mut c2, b"JOIN_ROOM:beta");
    let deliveries = handle_frame(&mut reg, &mut c1, b"ROOM_MSG:beta:alice:psst");
    assert_eq!(deliveries.len(), 1);
    assert_eq!(deliveries[0].to, c2.id);
}

#[test]
fn disconnect_mid_session_stops_deliveries_to_the_closed_connection() {
    let mut reg = RoomRegistry::new();
    let mut c1 = Session::new(reg.next_id());
    let mut c2 = Session::new(reg.next_id());
    let mut c3 = Session::new(reg.next_id());
    handle_frame(&mut reg, &mut c1, b"JOIN_ROOM:alpha");
    handle_frame(&mut reg, &mut c2, b"JOIN_ROOM:alpha");
    handle_frame(&mut reg, &mut c3, b"JOIN_ROOM:alpha");
    handle_frame(&mut reg, &mut c2, b"JOIN_ROOM:beta");

    // C2's transport closes: its read task purges the connection.
    reg.disconnect(c2.id);

    let deliveries = handle_frame(&mut reg, &mut c1, b"ROOM_MSG:alpha:alice:hi");
    assert_eq!(deliveries.len(), 1);
    assert_eq!(deliveries[0].to, c3.id);
    assert!(handle_frame(&mut reg, &mut c1, b"ROOM_MSG:beta:alice:hi").is_empty());
}
