use chat_server::registry::RoomRegistry;

fn targets(reg: &RoomRegistry, room: &[u8], payload: &[u8], sender: u64) -> Vec<u64> {
    reg.broadcast(room, payload, sender)
        .into_iter()
        .map(|d| d.to)
        .collect()
}

#[test]
fn next_id_is_monotonic_and_unique() {
    let mut reg = RoomRegistry::new();
    let a = reg.next_id();
    let b = reg.next_id();
    let c = reg.next_id();
    assert_eq!(a, 0);
    assert_eq!(b, 1);
    assert_eq!(c, 2);
}

#[test]
fn join_requires_room_to_exist() {
    let mut reg = RoomRegistry::new();
    reg.join(b"lobby", 1);
    assert!(targets(&reg, b"lobby", b"x", 99).is_empty());
    reg.ensure_room(b"lobby");
    reg.join(b"lobby", 1);
    assert_eq!(targets(&reg, b"lobby", b"x", 99), vec![1]);
}

#[test]
fn ensure_room_is_idempotent() {
    let mut reg = RoomRegistry::new();
    reg.ensure_room(b"lobby");
    reg.join(b"lobby", 1);
    reg.ensure_room(b"lobby");
    assert_eq!(targets(&reg, b"lobby", b"x", 99), vec![1]);
}

#[test]
fn double_join_does_not_duplicate_membership() {
    let mut reg = RoomRegistry::new();
    reg.ensure_room(b"lobby");
    reg.join(b"lobby", 1);
    reg.join(b"lobby", 1);
    assert_eq!(targets(&reg, b"lobby", b"x", 99), vec![1]);
}

#[test]
fn many_distinct_joins_each_member_once() {
    let mut reg = RoomRegistry::new();
    reg.ensure_room(b"lobby");
    for id in 0..8u64 {
        reg.join(b"lobby", id);
        reg.join(b"lobby", id);
    }
    let got = targets(&reg, b"lobby", b"x", 99);
    assert_eq!(got, (0..8u64).collect::<Vec<u64>>());
}

#[test]
fn broadcast_excludes_the_sender() {
    let mut reg = RoomRegistry::new();
    reg.ensure_room(b"lobby");
    reg.join(b"lobby", 1);
    reg.join(b"lobby", 2);
    reg.join(b"lobby", 3);
    assert_eq!(targets(&reg, b"lobby", b"x", 2), vec![1, 3]);
}

#[test]
fn broadcast_carries_the_payload_to_everyone() {
    let mut reg = RoomRegistry::new();
    reg.ensure_room(b"lobby");
    reg.join(b"lobby", 1);
    reg.join(b"lobby", 2);
    reg.join(b"lobby", 3);
    let deliveries = reg.broadcast(b"lobby", b"bob: hello", 1);
    assert_eq!(deliveries.len(), 2);
    for d in &deliveries {
        assert_eq!(d.frame, b"bob: hello".to_vec());
    }
}

#[test]
fn broadcast_to_unknown_room_delivers_nothing() {
    let reg = RoomRegistry::new();
    assert!(reg.broadcast(b"nowhere", b"x", 1).is_empty());
}

#[test]
fn leave_removes_from_future_broadcasts() {
    let mut reg = RoomRegistry::new();
    reg.ensure_room(b"lobby");
    reg.join(b"lobby", 1);
    reg.join(b"lobby", 2);
    reg.leave(b"lobby", 2);
    assert!(targets(&reg, b"lobby", b"x", 1).is_empty());
    assert_eq!(targets(&reg, b"lobby", b"x", 2), vec![1]);
}

#[test]
fn leave_without_membership_or_room_is_a_quiet_no_op() {
    let mut reg = RoomRegistry::new();
    reg.leave(b"nowhere", 7);
    reg.ensure_room(b"lobby");
    reg.join(b"lobby", 1);
    reg.leave(b"lobby", 7);
    assert_eq!(targets(&reg, b"lobby", b"x", 99), vec![1]);
}

#[test]
fn disconnect_purges_every_room() {
    let mut reg = RoomRegistry::new();
    reg.ensure_room(b"alpha");
    reg.ensure_room(b"beta");
    reg.join(b"alpha", 1);
    reg.join(b"alpha", 2);
    reg.join(b"beta", 2);
    reg.join(b"beta", 3);
    reg.disconnect(2);
    assert_eq!(targets(&reg, b"alpha", b"x", 1), Vec::<u64>::new());
    assert_eq!(targets(&reg, b"beta", b"x", 3), Vec::<u64>::new());
    assert_eq!(targets(&reg, b"alpha", b"x", 99), vec![1]);
    assert_eq!(targets(&reg, b"beta", b"x", 99), vec![3]);
}

#[test]
fn room_names_are_case_sensitive_and_distinct() {
    let mut reg = RoomRegistry::new();
    reg.ensure_room(b"Lobby");
    reg.ensure_room(b"lobby");
    reg.join(b"Lobby", 1);
    reg.join(b"lobby", 2);
    assert_eq!(targets(&reg, b"Lobby", b"x", 99), vec![1]);
    assert_eq!(targets(&reg, b"lobby", b"x", 99), vec![2]);
}
