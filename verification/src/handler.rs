//! The per-connection handler: the state machine driven by each inbound
//! frame.
//!
//! Each attached client has one `Session` (its id and the room it believes
//! it is in). `handle_frame` decodes one frame and drives the registry: a
//! join creates the room if needed and inserts the connection, a leave
//! removes it and clears the tracked room whatever room was named, a room
//! message fans the chat line out to the other members, and any other frame
//! is ignored. The caller performs the returned deliveries and owns the
//! transport; when the read side ends it calls `RoomRegistry::disconnect`
//! with the session's id.

use vstd::prelude::*;
use crate::codec::{parse_spec, parse_frame, chat_line, encode_chat_line, Command, SpecCommand};
use crate::registry::{RoomRegistry, Delivery, without, recipients, delivery_targets};

verus! {

/// The read-side state of one connection: its id and the room it last
/// joined, if any. The registry, not this field, decides who receives a
/// broadcast; the server trusts the room named in each message frame, as
/// the wire protocol allows a client to address any room.
pub struct Session {
    pub id: u64,
    pub current: Option<Vec<u8>>,
}

impl Session {
    /// The room this session believes it is in.
    pub open spec fn current_room(self) -> Option<Seq<u8>> {
        match self.current {
            Some(v) => Some(v@),
            None => None,
        }
    }

    /// A fresh session: no room joined yet.
    pub fn new(id: u64) -> (s: Session)
        ensures
            s.id == id,
            s.current_room() is None,
    {
        Session { id, current: None }
    }
}

/// Decodes one inbound frame and applies it: the whole effect of the frame
/// on the registry, the session, and the outbound queues of the other
/// members.
pub fn handle_frame(reg: &mut RoomRegistry, session: &mut Session, frame: &[u8]) -> (deliveries:
    Vec<Delivery>)
    requires
        old(reg).wf(),
    ensures
        final(reg).wf(),
        final(reg).id_count == old(reg).id_count,
        final(session).id == old(session).id,
        match parse_spec(frame@) {
            Some(SpecCommand::Join(room)) => {
                &&& (forall|n: Seq<u8>|
                    final(reg).has_room(n) <==> (old(reg).has_room(n) || n == room))
                &&& (forall|n: Seq<u8>|
                    n != room ==> final(reg).members_of(n) == old(reg).members_of(n))
                &&& final(reg).is_member(room, old(session).id)
                &&& final(reg).members_of(room) == (if old(reg).is_member(
                    room,
                    old(session).id,
                ) {
                    old(reg).members_of(room)
                } else {
                    old(reg).members_of(room).push(old(session).id)
                })
                &&& final(session).current_room() == Some(room)
                &&& deliveries@.len() == 0
            },
            Some(SpecCommand::Leave(room)) => {
                &&& (forall|n: Seq<u8>| final(reg).has_room(n) <==> old(reg).has_room(n))
                &&& (forall|n: Seq<u8>|
                    n != room ==> final(reg).members_of(n) == old(reg).members_of(n))
                &&& final(reg).members_of(room) == without(
                    old(reg).members_of(room),
                    old(session).id,
                )
                &&& !final(reg).is_member(room, old(session).id)
                &&& final(session).current_room() is None
                &&& deliveries@.len() == 0
            },
            Some(SpecCommand::RoomMessage(room, user, text)) => {
                &&& *final(reg) == *old(reg)
                &&& *final(session) == *old(session)
                &&& delivery_targets(deliveries@) == recipients(
                    old(reg).members_of(room),
                    old(session).id,
                )
                &&& (forall|k: int|
                    0 <= k < deliveries@.len() ==> deliveries@[k].frame@ == chat_line(user, text))
            },
            None => {
                &&& *final(reg) == *old(reg)
                &&& *final(session) == *old(session)
                &&& deliveries@.len() == 0
            },
        },
{
    let cmd = parse_frame(frame);
    match cmd {
        Some(Command::Join(room)) => {
            reg.ensure_room(room.as_slice());
            reg.join(room.as_slice(), session.id);
            session.current = Some(room);
            Vec::new()
        },
        Some(Command::Leave(room)) => {
            reg.leave(room.as_slice(), session.id);
            session.current = None;
            Vec::new()
        },
        Some(Command::RoomMessage(room, user, text)) => {
            let line = encode_chat_line(user.as_slice(), text.as_slice());
            reg.broadcast(room.as_slice(), line.as_slice(), session.id)
        },
        None => Vec::new(),
    }
}

} // verus!
