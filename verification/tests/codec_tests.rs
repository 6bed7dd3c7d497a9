use chat_server::codec::{
    encode_chat_line, encode_join, encode_leave, encode_room_msg, parse_frame, Command,
};

#[test]
fn parse_join_frame() {
    match parse_frame(b"JOIN_ROOM:lobby") {
        Some(Command::Join(room)) => assert_eq!(room, b"lobby".to_vec()),
        _ => panic!("expected a join command"),
    }
}

#[test]
fn parse_join_room_name_may_contain_colons() {
    match parse_frame(b"JOIN_ROOM:a:b:c") {
        Some(Command::Join(room)) => assert_eq!(room, b"a:b:c".to_vec()),
        _ => panic!("expected a join command"),
    }
}

#[test]
fn parse_leave_frame() {
    match parse_frame(b"LEAVE_ROOM:lobby") {
        Some(Command::Leave(room)) => assert_eq!(room, b"lobby".to_vec()),
        _ => panic!("expected a leave command"),
    }
}

#[test]
fn parse_leave_frame_tolerates_leading_space() {
    match parse_frame(b"LEAVE_ROOM: lobby") {
        Some(Command::Leave(room)) => assert_eq!(room, b"lobby".to_vec()),
        _ => panic!("expected a leave command"),
    }
}

#[test]
fn parse_room_msg_frame() {
    match parse_frame(b"ROOM_MSG:lobby:alice:hi") {
        Some(Command::RoomMessage(room, user, text)) => {
            assert_eq!(room, b"lobby".to_vec());
            assert_eq!(user, b"alice".to_vec());
            assert_eq!(text, b"hi".to_vec());
        }
        _ => panic!("expected a room message"),
    }
}

#[test]
fn parse_room_msg_text_keeps_further_colons() {
    match parse_frame(b"ROOM_MSG:lobby:alice:hi: you there?") {
        Some(Command::RoomMessage(room, user, text)) => {
            assert_eq!(room, b"lobby".to_vec());
            assert_eq!(user, b"alice".to_vec());
            assert_eq!(text, b"hi: you there?".to_vec());
        }
        _ => panic!("expected a room message"),
    }
}

#[test]
fn parse_room_msg_with_too_few_fields_is_ignored() {
    assert!(parse_frame(b"ROOM_MSG:lobby:alice").is_none());
    assert!(parse_frame(b"ROOM_MSG:lobby").is_none());
    assert!(parse_frame(b"ROOM_MSG:").is_none());
}

#[test]
fn parse_unknown_frame_is_ignored() {
    assert!(parse_frame(b"HELLO:world").is_none());
    assert!(parse_frame(b"").is_none());
    assert!(parse_frame(b"JOIN_ROOM").is_none());
    assert!(parse_frame(b"join_room:lobby").is_none());
}

#[test]
fn encode_join_frame() {
    assert_eq!(encode_join(b"lobby"), b"JOIN_ROOM:lobby".to_vec());
}

#[test]
fn encode_leave_frame() {
    assert_eq!(encode_leave(b"lobby"), b"LEAVE_ROOM:lobby".to_vec());
}

#[test]
fn encode_room_msg_frame() {
    assert_eq!(
        encode_room_msg(b"lobby", b"alice", b"hi"),
        b"ROOM_MSG:lobby:alice:hi".to_vec()
    );
}

#[test]
fn encoded_chat_line_is_untagged() {
    assert_eq!(encode_chat_line(b"alice", b"hi"), b"alice: hi".to_vec());
}

#[test]
fn encoded_frames_parse_back() {
    match parse_frame(&encode_join(b"games")) {
        Some(Command::Join(room)) => assert_eq!(room, b"games".to_vec()),
        _ => panic!("expected a join command"),
    }
    match parse_frame(&encode_leave(b"games")) {
        Some(Command::Leave(room)) => assert_eq!(room, b"games".to_vec()),
        _ => panic!("expected a leave command"),
    }
    match parse_frame(&encode_room_msg(b"games", b"bob", b"go")) {
        Some(Command::RoomMessage(room, user, text)) => {
            assert_eq!(room, b"games".to_vec());
            assert_eq!(user, b"bob".to_vec());
            assert_eq!(text, b"go".to_vec());
        }
        _ => panic!("expected a room message"),
    }
}
