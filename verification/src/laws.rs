//! The laws of the relay: what broadcast fan-out guarantees to the members
//! of a room, stated over the registry's model and proved once for every
//! registry the operations can build.
//!
//! `RoomRegistry::broadcast` and `handle_frame` pin the deliveries of one
//! message to `recipients(members, sender)` and the delivered frame to the
//! encoded chat line; the lemmas here say who that recipient list does and
//! does not contain.

use vstd::prelude::*;
use vstd::seq_lib::group_to_multiset_ensures;
use crate::registry::{
    RoomRegistry,
    recipients,
    without,
    lemma_without_facts,
    lemma_without_no_duplicates,
};

verus! {

/// A message broadcast in room `name` by member `a` reaches every other
/// member `b` exactly once, and is never delivered back to `a`.
pub proof fn lemma_broadcast_reaches_each_other_member_once(
    reg: RoomRegistry,
    name: Seq<u8>,
    a: u64,
    b: u64,
)
    requires
        reg.wf(),
        reg.is_member(name, a),
        reg.is_member(name, b),
        b != a,
    ensures
        recipients(reg.members_of(name), a).contains(b),
        !recipients(reg.members_of(name), a).contains(a),
        recipients(reg.members_of(name), a).to_multiset().count(b) == 1,
{
    broadcast use group_to_multiset_ensures;

    let mem = reg.members_of(name);
    lemma_without_facts(mem, a);
    reg.lemma_members_no_duplicates(name);
    lemma_without_no_duplicates(mem, a);
    without(mem, a).lemma_multiset_has_no_duplicates();
}

/// Two distinct members of one room each receive the other's broadcasts:
/// joining the same name joins the same room.
pub proof fn lemma_members_hear_each_other(reg: RoomRegistry, name: Seq<u8>, a: u64, b: u64)
    requires
        reg.wf(),
        reg.is_member(name, a),
        reg.is_member(name, b),
        a != b,
    ensures
        recipients(reg.members_of(name), a).contains(b),
        recipients(reg.members_of(name), b).contains(a),
{
    let mem = reg.members_of(name);
    lemma_without_facts(mem, a);
    lemma_without_facts(mem, b);
}

/// A connection that is not a member of a room — it left, it never joined,
/// or the room does not exist — receives none of that room's broadcasts,
/// whoever sends.
pub proof fn lemma_nonmember_gets_no_broadcast(
    reg: RoomRegistry,
    name: Seq<u8>,
    id: u64,
    sender: u64,
)
    requires
        !reg.is_member(name, id),
    ensures
        !recipients(reg.members_of(name), sender).contains(id),
{
    lemma_without_facts(reg.members_of(name), sender);
}

/// However many joins inserted it, a member occurs exactly once in its
/// room's member list.
pub proof fn lemma_member_exactly_once(reg: RoomRegistry, name: Seq<u8>, id: u64)
    requires
        reg.wf(),
        reg.is_member(name, id),
    ensures
        reg.members_of(name).to_multiset().count(id) == 1,
{
    broadcast use group_to_multiset_ensures;

    reg.lemma_members_no_duplicates(name);
    reg.members_of(name).lemma_multiset_has_no_duplicates();
}

/// Once a closed connection has been purged from every room, no broadcast
/// in any room reaches it any more.
pub proof fn lemma_purged_connection_receives_nothing(reg: RoomRegistry, id: u64)
    requires
        forall|n: Seq<u8>| !reg.is_member(n, id),
    ensures
        forall|n: Seq<u8>, sender: u64|
            !recipients(reg.members_of(n), sender).contains(id),
{
    assert forall|n: Seq<u8>, sender: u64| !recipients(reg.members_of(n), sender).contains(
        id,
    ) by {
        lemma_nonmember_gets_no_broadcast(reg, n, id, sender);
    }
}

} // verus!
