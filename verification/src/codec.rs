//! The wire-protocol codec: parses and encodes the three text commands the
//! relay understands, working on raw byte frames.
//!
//! Frames are plain text:
//! - `JOIN_ROOM:<room>` — join (and create if needed) a room,
//! - `LEAVE_ROOM:<room>` — leave a room (an optional blank after the colon is
//!   tolerated, since some clients emit one),
//! - `ROOM_MSG:<room>:<username>:<text>` — broadcast a chat line; the text may
//!   itself contain colons,
//! and the relayed line delivered to other members is `<username>: <text>`,
//! untagged.

use vstd::prelude::*;

verus! {

/// The byte `:` that separates the command tag and the fields of a message.
pub const COLON: u8 = 58;

/// The byte for a blank, tolerated after the `LEAVE_ROOM:` tag.
pub const SPACE: u8 = 32;

/// A decoded client command, at the specification level (fields are byte
/// sequences).
pub enum SpecCommand {
    Join(Seq<u8>),
    Leave(Seq<u8>),
    RoomMessage(Seq<u8>, Seq<u8>, Seq<u8>),
}

/// A decoded client command, as executable data.
pub enum Command {
    Join(Vec<u8>),
    Leave(Vec<u8>),
    RoomMessage(Vec<u8>, Vec<u8>, Vec<u8>),
}

impl DeepView for Command {
    type V = SpecCommand;

    open spec fn deep_view(&self) -> SpecCommand {
        match self {
            Command::Join(room) => SpecCommand::Join(room@),
            Command::Leave(room) => SpecCommand::Leave(room@),
            Command::RoomMessage(room, user, text) => SpecCommand::RoomMessage(
                room@,
                user@,
                text@,
            ),
        }
    }
}

/// The tag `JOIN_ROOM:` as bytes.
pub open spec fn join_tag() -> Seq<u8> {
    seq![74u8, 79u8, 73u8, 78u8, 95u8, 82u8, 79u8, 79u8, 77u8, 58u8]
}

/// The tag `LEAVE_ROOM:` as bytes.
pub open spec fn leave_tag() -> Seq<u8> {
    seq![76u8, 69u8, 65u8, 86u8, 69u8, 95u8, 82u8, 79u8, 79u8, 77u8, 58u8]
}

/// The tag `ROOM_MSG:` as bytes.
pub open spec fn msg_tag() -> Seq<u8> {
    seq![82u8, 79u8, 79u8, 77u8, 95u8, 77u8, 83u8, 71u8, 58u8]
}

/// Whether `s` begins with the bytes of `tag`.
pub open spec fn tagged(s: Seq<u8>, tag: Seq<u8>) -> bool {
    s.len() >= tag.len() && s.take(tag.len() as int) == tag
}

/// The tag `JOIN_ROOM:` as an executable vector.
fn join_tag_vec() -> (r: Vec<u8>)
    ensures
        r@ == join_tag(),
{
    let r: Vec<u8> = vec![74u8, 79u8, 73u8, 78u8, 95u8, 82u8, 79u8, 79u8, 77u8, 58u8];
    proof {
        assert(r@ =~= join_tag());
    }
    r
}

/// The tag `LEAVE_ROOM:` as an executable vector.
fn leave_tag_vec() -> (r: Vec<u8>)
    ensures
        r@ == leave_tag(),
{
    let r: Vec<u8> = vec![76u8, 69u8, 65u8, 86u8, 69u8, 95u8, 82u8, 79u8, 79u8, 77u8, 58u8];
    proof {
        assert(r@ =~= leave_tag());
    }
    r
}

/// The tag `ROOM_MSG:` as an executable vector.
fn msg_tag_vec() -> (r: Vec<u8>)
    ensures
        r@ == msg_tag(),
{
    let r: Vec<u8> = vec![82u8, 79u8, 79u8, 77u8, 95u8, 77u8, 83u8, 71u8, 58u8];
    proof {
        assert(r@ =~= msg_tag());
    }
    r
}

/// Whether the byte slice `s` starts with the bytes of `tag`.
pub fn starts_with(s: &[u8], tag: &[u8]) -> (r: bool)
    ensures
        r == tagged(s@, tag@),
{
    if s.len() < tag.len() {
        proof {
            assert(!tagged(s@, tag@));
        }
        return false;
    }
    let n = tag.len();
    let mut i: usize = 0;
    while i < n
        invariant
            n == tag@.len(),
            s@.len() >= n,
            0 <= i <= n,
            forall|k: int| 0 <= k < i ==> s@[k] == tag@[k],
        decreases n - i,
    {
        if s[i] != tag[i] {
            proof {
                assert(s@.take(tag@.len() as int)[i as int] != tag@[i as int]);
            }
            return false;
        }
        i += 1;
    }
    proof {
        assert(s@.take(tag@.len() as int) =~= tag@);
    }
    true
}

/// Whether two byte slices hold the same bytes.
pub fn bytes_eq(a: &[u8], b: &[u8]) -> (r: bool)
    ensures
        r == (a@ == b@),
{
    if a.len() != b.len() {
        return false;
    }
    let r = starts_with(a, b);
    proof {
        if tagged(a@, b@) {
            assert(a@.take(b@.len() as int) =~= a@);
        }
        if a@ == b@ {
            assert(a@.take(b@.len() as int) =~= b@);
        }
    }
    r
}

/// The position of the first occurrence of `b` in `s`, or `s.len()` if `b`
/// does not occur.
pub open spec fn first_pos(s: Seq<u8>, b: u8) -> int
    decreases s.len(),
{
    if s.len() == 0 {
        0
    } else if s[0] == b {
        0
    } else {
        1 + first_pos(s.skip(1), b)
    }
}

/// What `first_pos` returns: an index within the sequence (or its length),
/// holding `b` if in range, with no occurrence of `b` before it.
pub proof fn lemma_first_pos(s: Seq<u8>, b: u8)
    ensures
        0 <= first_pos(s, b) <= s.len(),
        first_pos(s, b) < s.len() ==> s[first_pos(s, b)] == b,
        forall|k: int| 0 <= k < first_pos(s, b) ==> s[k] != b,
    decreases s.len(),
{
    if s.len() > 0 && s[0] != b {
        lemma_first_pos(s.skip(1), b);
        assert forall|k: int| 0 <= k < first_pos(s, b) implies s[k] != b by {
            if k > 0 {
                assert(s.skip(1)[k - 1] == s[k]);
            }
        }
    }
}

/// `first_pos` is pinned down by its characterization: if no occurrence of `b`
/// lies before `i`, and `i` either holds `b` or is the length, then `i` is
/// the first position.
pub proof fn lemma_first_pos_is(s: Seq<u8>, b: u8, i: int)
    requires
        0 <= i <= s.len(),
        forall|k: int| 0 <= k < i ==> s[k] != b,
        i < s.len() ==> s[i] == b,
    ensures
        first_pos(s, b) == i,
    decreases s.len(),
{
    if i == 0 {
        if s.len() > 0 && s[0] != b {
            lemma_first_pos(s.skip(1), b);
        }
    } else {
        assert(s[0] != b);
        assert forall|k: int| 0 <= k < i - 1 implies s.skip(1)[k] != b by {
            assert(s.skip(1)[k] == s[k + 1]);
        }
        assert(i - 1 < s.skip(1).len() ==> s.skip(1)[i - 1] == b);
        lemma_first_pos_is(s.skip(1), b, i - 1);
    }
}

/// The index of the first occurrence of `b` in `s` at or after position
/// `from`, or `s.len()` if there is none.
fn find_byte(s: &[u8], from: usize, b: u8) -> (i: usize)
    requires
        from <= s@.len(),
    ensures
        i == from + first_pos(s@.skip(from as int), b),
        from <= i <= s@.len(),
{
    let n = s.len();
    let mut i: usize = from;
    while i < n
        invariant
            from <= i <= n,
            n == s@.len(),
            forall|k: int| from <= k < i ==> s@[k] != b,
        decreases n - i,
    {
        if s[i] == b {
            proof {
                assert forall|k: int| 0 <= k < i - from implies s@.skip(from as int)[k] != b by {
                    assert(s@.skip(from as int)[k] == s@[k + from]);
                }
                lemma_first_pos_is(s@.skip(from as int), b, i - from);
            }
            return i;
        }
        i += 1;
    }
    proof {
        assert forall|k: int| 0 <= k < n - from implies s@.skip(from as int)[k] != b by {
            assert(s@.skip(from as int)[k] == s@[k + from]);
        }
        lemma_first_pos_is(s@.skip(from as int), b, n - from);
    }
    n
}

/// Strips one leading blank, if present: the tolerated `LEAVE_ROOM: <room>`
/// form maps to the same room as `LEAVE_ROOM:<room>`.
pub open spec fn strip_leading_space(s: Seq<u8>) -> Seq<u8> {
    if s.len() > 0 && s[0] == SPACE {
        s.skip(1)
    } else {
        s
    }
}

/// The meaning of one inbound frame: which command it decodes to, or `None`
/// for a frame the relay ignores (no recognized tag, or a `ROOM_MSG` with
/// fewer than three fields).
pub open spec fn parse_spec(s: Seq<u8>) -> Option<SpecCommand> {
    if tagged(s, join_tag()) {
        Some(SpecCommand::Join(s.skip(join_tag().len() as int)))
    } else if tagged(s, leave_tag()) {
        Some(SpecCommand::Leave(strip_leading_space(s.skip(leave_tag().len() as int))))
    } else if tagged(s, msg_tag()) {
        parse_msg_fields(s.skip(msg_tag().len() as int))
    } else {
        None
    }
}

/// Splits the remainder of a `ROOM_MSG:` frame into room, username and text
/// on the first two colons; the text keeps any further colons. With fewer
/// than two colons the frame is ignored.
pub open spec fn parse_msg_fields(rest: Seq<u8>) -> Option<SpecCommand> {
    let i = first_pos(rest, COLON);
    if i == rest.len() {
        None
    } else {
        let after = rest.skip(i + 1);
        let j = first_pos(after, COLON);
        if j == after.len() {
            None
        } else {
            Some(SpecCommand::RoomMessage(rest.take(i), after.take(j), after.skip(j + 1)))
        }
    }
}

/// Decodes one inbound frame, returning `None` for frames the relay ignores.
pub fn parse_frame(frame: &[u8]) -> (r: Option<Command>)
    ensures
        r.deep_view() == parse_spec(frame@),
{
    let join = join_tag_vec();
    let leave = leave_tag_vec();
    let msg = msg_tag_vec();
    if starts_with(frame, join.as_slice()) {
        let room = vstd::slice::slice_to_vec(vstd::slice::slice_subrange(
            frame,
            join.len(),
            frame.len(),
        ));
        Some(Command::Join(room))
    } else if starts_with(frame, leave.as_slice()) {
        let mut start = leave.len();
        if start < frame.len() && frame[start] == SPACE {
            start = start + 1;
        }
        let room = vstd::slice::slice_to_vec(vstd::slice::slice_subrange(
            frame,
            start,
            frame.len(),
        ));
        proof {
            let rest = frame@.skip(leave_tag().len() as int);
            assert(room@ =~= strip_leading_space(rest));
        }
        Some(Command::Leave(room))
    } else if starts_with(frame, msg.as_slice()) {
        let base = msg.len();
        proof {
            lemma_first_pos(frame@.skip(base as int), COLON);
        }
        let i = find_byte(frame, base, COLON);
        if i == frame.len() {
            proof {
                assert(parse_spec(frame@) is None);
            }
            None
        } else {
            proof {
                lemma_first_pos(frame@.skip(i + 1), COLON);
            }
            let j = find_byte(frame, i + 1, COLON);
            if j == frame.len() {
                proof {
                    let rest = frame@.skip(base as int);
                    let fi = first_pos(rest, COLON);
                    let after = rest.skip(fi + 1);
                    assert(after =~= frame@.skip(i + 1));
                }
                None
            } else {
                let room = vstd::slice::slice_to_vec(vstd::slice::slice_subrange(frame, base, i));
                let user = vstd::slice::slice_to_vec(vstd::slice::slice_subrange(
                    frame,
                    i + 1,
                    j,
                ));
                let text = vstd::slice::slice_to_vec(vstd::slice::slice_subrange(
                    frame,
                    j + 1,
                    frame.len(),
                ));
                proof {
                    let rest = frame@.skip(base as int);
                    let fi = first_pos(rest, COLON);
                    let after = rest.skip(fi + 1);
                    assert(after =~= frame@.skip(i + 1));
                    assert(room@ =~= rest.take(fi));
                    assert(user@ =~= after.take(first_pos(after, COLON)));
                    assert(text@ =~= after.skip(first_pos(after, COLON) + 1));
                }
                Some(Command::RoomMessage(room, user, text))
            }
        }
    } else {
        None
    }
}

/// Round trip for joins: an encoded `JOIN_ROOM:` frame decodes to a join of
/// the same room, whatever bytes the room name holds.
pub proof fn lemma_join_round_trip(room: Seq<u8>)
    ensures
        parse_spec(join_tag() + room) == Some(SpecCommand::Join(room)),
{
    let s = join_tag() + room;
    assert(tagged(s, join_tag())) by {
        assert(s.take(join_tag().len() as int) =~= join_tag());
    }
    assert(s.skip(join_tag().len() as int) =~= room);
}

/// Round trip for leaves: an encoded `LEAVE_ROOM:` frame decodes to a leave
/// of the same room, up to the tolerated leading blank, which decoding
/// strips.
pub proof fn lemma_leave_round_trip(room: Seq<u8>)
    ensures
        parse_spec(leave_tag() + room) == Some(SpecCommand::Leave(strip_leading_space(room))),
{
    let s = leave_tag() + room;
    assert(!tagged(s, join_tag())) by {
        if tagged(s, join_tag()) {
            assert(s.take(join_tag().len() as int)[0] == join_tag()[0]);
            assert(s[0] == leave_tag()[0]);
        }
    }
    assert(tagged(s, leave_tag())) by {
        assert(s.take(leave_tag().len() as int) =~= leave_tag());
    }
    assert(s.skip(leave_tag().len() as int) =~= room);
}

/// Round trip for messages: an encoded `ROOM_MSG:` frame decodes to the same
/// room, username and text, provided room and username are colon-free (a
/// colon inside either would move the field boundaries); the text may hold
/// any bytes.
pub proof fn lemma_room_msg_round_trip(room: Seq<u8>, user: Seq<u8>, text: Seq<u8>)
    requires
        !room.contains(COLON),
        !user.contains(COLON),
    ensures
        parse_spec(msg_tag() + room + seq![COLON] + user + seq![COLON] + text) == Some(
            SpecCommand::RoomMessage(room, user, text),
        ),
{
    let rest = room + seq![COLON] + user + seq![COLON] + text;
    let s = msg_tag() + rest;
    assert(msg_tag() + room + seq![COLON] + user + seq![COLON] + text =~= s);
    assert(!tagged(s, join_tag())) by {
        if tagged(s, join_tag()) {
            assert(s.take(join_tag().len() as int)[0] == join_tag()[0]);
            assert(s[0] == msg_tag()[0]);
        }
    }
    assert(!tagged(s, leave_tag())) by {
        if tagged(s, leave_tag()) {
            assert(s.take(leave_tag().len() as int)[0] == leave_tag()[0]);
            assert(s[0] == msg_tag()[0]);
        }
    }
    assert(tagged(s, msg_tag())) by {
        assert(s.take(msg_tag().len() as int) =~= msg_tag());
    }
    assert(s.skip(msg_tag().len() as int) =~= rest);
    let rl = room.len() as int;
    assert forall|k: int| 0 <= k < rl implies rest[k] != COLON by {
        assert(rest[k] == room[k]);
        if room[k] == COLON {
            assert(room.contains(COLON));
        }
    }
    assert(rest[rl] == COLON);
    lemma_first_pos_is(rest, COLON, rl);
    let after = rest.skip(rl + 1);
    assert(after =~= user + seq![COLON] + text);
    let ul = user.len() as int;
    assert forall|k: int| 0 <= k < ul implies after[k] != COLON by {
        assert(after[k] == user[k]);
        if user[k] == COLON {
            assert(user.contains(COLON));
        }
    }
    assert(after[ul] == COLON);
    lemma_first_pos_is(after, COLON, ul);
    assert(rest.take(rl) =~= room);
    assert(after.take(ul) =~= user);
    assert(after.skip(ul + 1) =~= text);
}

/// The relayed chat line delivered to room members: `<username>: <text>`,
/// with no tag.
pub open spec fn chat_line(user: Seq<u8>, text: Seq<u8>) -> Seq<u8> {
    user + seq![COLON, SPACE] + text
}

/// Appends every byte of `s` to `v`.
fn push_all(v: &mut Vec<u8>, s: &[u8])
    ensures
        final(v)@ == old(v)@ + s@,
{
    let n = s.len();
    let mut i: usize = 0;
    while i < n
        invariant
            n == s@.len(),
            0 <= i <= n,
            v@ == old(v)@ + s@.take(i as int),
        decreases n - i,
    {
        v.push(s[i]);
        proof {
            assert(old(v)@ + s@.take(i as int) + seq![s@[i as int]] =~= old(v)@ + s@.take(
                i + 1,
            ));
        }
        i += 1;
    }
    proof {
        assert(s@.take(n as int) =~= s@);
    }
}

/// Encodes the chat line broadcast to the other members of a room.
pub fn encode_chat_line(user: &[u8], text: &[u8]) -> (r: Vec<u8>)
    ensures
        r@ == chat_line(user@, text@),
{
    let mut r: Vec<u8> = Vec::new();
    push_all(&mut r, user);
    r.push(COLON);
    r.push(SPACE);
    push_all(&mut r, text);
    proof {
        assert(r@ =~= chat_line(user@, text@));
    }
    r
}

/// Encodes a `JOIN_ROOM:<room>` frame.
pub fn encode_join(room: &[u8]) -> (r: Vec<u8>)
    ensures
        r@ == join_tag() + room@,
{
    let mut r = join_tag_vec();
    push_all(&mut r, room);
    r
}

/// Encodes a `LEAVE_ROOM:<room>` frame (no blank after the colon).
pub fn encode_leave(room: &[u8]) -> (r: Vec<u8>)
    ensures
        r@ == leave_tag() + room@,
{
    let mut r = leave_tag_vec();
    push_all(&mut r, room);
    r
}

/// Encodes a `ROOM_MSG:<room>:<username>:<text>` frame.
pub fn encode_room_msg(room: &[u8], user: &[u8], text: &[u8]) -> (r: Vec<u8>)
    ensures
        r@ == msg_tag() + room@ + seq![COLON] + user@ + seq![COLON] + text@,
{
    let mut r = msg_tag_vec();
    push_all(&mut r, room);
    r.push(COLON);
    push_all(&mut r, user);
    r.push(COLON);
    push_all(&mut r, text);
    proof {
        assert(r@ =~= msg_tag() + room@ + seq![COLON] + user@ + seq![COLON] + text@);
    }
    r
}

} // verus!
