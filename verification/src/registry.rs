//! The room registry: the shared table that tracks which connection belongs
//! to which room, hands out connection ids, and computes the fan-out of a
//! broadcast.
//!
//! A connection is identified everywhere by its integer id; the registry
//! never touches a socket. `broadcast` therefore returns the list of
//! deliveries to perform — one `(recipient id, frame)` pair per member other
//! than the sender — and the caller pushes each frame onto that recipient's
//! outbound queue. A failure to deliver to one recipient is the caller's to
//! handle and cannot disturb the computed fan-out to the rest.

use vstd::prelude::*;

verus! {

/// One named room and the ids of its current members.
pub struct Room {
    pub name: Vec<u8>,
    pub members: Vec<u64>,
}

/// One frame to hand to one recipient's outbound queue.
pub struct Delivery {
    pub to: u64,
    pub frame: Vec<u8>,
}

/// The registry: every room with its member set, and the counter from which
/// fresh connection ids are drawn.
pub struct RoomRegistry {
    pub rooms: Vec<Room>,
    pub id_count: u64,
}

/// The member list without one id, in the original order.
pub open spec fn without(members: Seq<u64>, id: u64) -> Seq<u64> {
    members.filter(|m: u64| m != id)
}

/// The members of a room that a broadcast by `sender` reaches: every member
/// except the sender, in member order.
pub open spec fn recipients(members: Seq<u64>, sender: u64) -> Seq<u64> {
    without(members, sender)
}

/// The ids a list of deliveries is addressed to, in order.
pub open spec fn delivery_targets(ds: Seq<Delivery>) -> Seq<u64> {
    ds.map_values(|d: Delivery| d.to)
}

/// `without` on a longer list: appending a member extends the result exactly
/// when the member is not the excluded id.
pub proof fn lemma_without_push(s: Seq<u64>, x: u64, id: u64)
    ensures
        without(s.push(x), id) == if x != id {
            without(s, id).push(x)
        } else {
            without(s, id)
        },
{
    broadcast use Seq::lemma_filter_push;

}

/// `without` of an empty list is empty.
pub proof fn lemma_without_empty(id: u64)
    ensures
        without(Seq::<u64>::empty(), id) == Seq::<u64>::empty(),
{
    broadcast use vstd::seq_lib::group_filter_ensures;

    assert(without(Seq::<u64>::empty(), id) =~= Seq::<u64>::empty());
}

/// A member list without duplicates stays free of duplicates when one id is
/// removed.
pub proof fn lemma_without_no_duplicates(s: Seq<u64>, id: u64)
    requires
        s.no_duplicates(),
    ensures
        without(s, id).no_duplicates(),
    decreases s.len(),
{
    reveal(Seq::filter);
    if s.len() > 0 {
        let rest = s.drop_last();
        lemma_without_no_duplicates(rest, id);
        assert(rest.push(s.last()) =~= s);
        lemma_without_push(rest, s.last(), id);
        if s.last() != id {
            assert(!without(rest, id).contains(s.last())) by {
                broadcast use Seq::lemma_filter_contains_rev;

                if without(rest, id).contains(s.last()) {
                    assert(rest.contains(s.last()));
                    let k = choose|k: int| 0 <= k < rest.len() && rest[k] == s.last();
                    assert(s[k] == s.last());
                }
            }
        }
    }
}

/// Nothing in `without(s, id)` is `id`, and every other element of `s` is
/// kept.
pub proof fn lemma_without_facts(s: Seq<u64>, id: u64)
    ensures
        !without(s, id).contains(id),
        forall|x: u64| #[trigger] without(s, id).contains(x) ==> s.contains(x) && x != id,
        forall|x: u64| s.contains(x) && x != id ==> #[trigger] without(s, id).contains(x),
{
    broadcast use vstd::seq_lib::group_filter_ensures;
    broadcast use Seq::lemma_filter_contains_rev;

    if without(s, id).contains(id) {
        let k = choose|k: int| 0 <= k < without(s, id).len() && without(s, id)[k] == id;
    }
    assert forall|x: u64| s.contains(x) && x != id implies #[trigger] without(s, id).contains(
        x,
    ) by {
        let k = choose|k: int| 0 <= k < s.len() && s[k] == x;
        assert(s.filter(|m: u64| m != id).contains(s[k]));
    }
    assert forall|x: u64| #[trigger] without(s, id).contains(x) implies s.contains(x) && x
        != id by {
        let k = choose|k: int| 0 <= k < without(s, id).len() && without(s, id)[k] == x;
    }
}

impl RoomRegistry {
    /// Well-formedness: room names are distinct, and no room lists the same
    /// member twice.
    pub open spec fn wf(self) -> bool {
        &&& forall|i: int, j: int|
            0 <= i < j < self.rooms@.len() ==> self.rooms@[i].name@ != self.rooms@[j].name@
        &&& forall|i: int| 0 <= i < self.rooms@.len() ==> self.rooms@[i].members@.no_duplicates()
    }

    /// Whether a room of this name exists.
    pub open spec fn has_room(self, name: Seq<u8>) -> bool {
        exists|i: int| 0 <= i < self.rooms@.len() && self.rooms@[i].name@ == name
    }

    /// The index of the room of this name (meaningful when it exists).
    pub open spec fn room_at(self, name: Seq<u8>) -> int {
        choose|i: int| 0 <= i < self.rooms@.len() && self.rooms@[i].name@ == name
    }

    /// The member ids of the room of this name; empty if there is no such
    /// room.
    pub open spec fn members_of(self, name: Seq<u8>) -> Seq<u64> {
        if self.has_room(name) {
            self.rooms@[self.room_at(name)].members@
        } else {
            Seq::<u64>::empty()
        }
    }

    /// Whether the connection with this id is a member of the room of this
    /// name.
    pub open spec fn is_member(self, name: Seq<u8>, id: u64) -> bool {
        self.members_of(name).contains(id)
    }

    /// In a well-formed registry the room at index `i` is the one found under
    /// its own name.
    pub proof fn lemma_room_at_index(self, i: int)
        requires
            self.wf(),
            0 <= i < self.rooms@.len(),
        ensures
            self.has_room(self.rooms@[i].name@),
            self.room_at(self.rooms@[i].name@) == i,
            self.members_of(self.rooms@[i].name@) == self.rooms@[i].members@,
    {
        assert(self.has_room(self.rooms@[i].name@));
        let j = self.room_at(self.rooms@[i].name@);
        if j != i {
            assert(self.rooms@[i].name@ != self.rooms@[j].name@);
        }
    }

    /// Two registries whose rooms bear the same names, index for index, hold
    /// the same rooms at the same indices.
    pub proof fn lemma_same_names_same_rooms(pre: RoomRegistry, post: RoomRegistry)
        requires
            pre.wf(),
            post.rooms@.len() == pre.rooms@.len(),
            forall|k: int|
                0 <= k < pre.rooms@.len() ==> post.rooms@[k].name@ == pre.rooms@[k].name@,
        ensures
            forall|n: Seq<u8>| post.has_room(n) <==> pre.has_room(n),
            forall|n: Seq<u8>| pre.has_room(n) ==> post.room_at(n) == pre.room_at(n),
    {
        assert forall|n: Seq<u8>| post.has_room(n) <==> pre.has_room(n) by {
            if post.has_room(n) {
                let k = choose|k: int|
                    0 <= k < post.rooms@.len() && post.rooms@[k].name@ == n;
                assert(pre.rooms@[k].name@ == n);
            }
            if pre.has_room(n) {
                let k = choose|k: int| 0 <= k < pre.rooms@.len() && pre.rooms@[k].name@ == n;
                assert(post.rooms@[k].name@ == n);
            }
        }
        assert forall|n: Seq<u8>| pre.has_room(n) implies post.room_at(n) == pre.room_at(n) by {
            let k = post.room_at(n);
            let k2 = pre.room_at(n);
            assert(0 <= k < post.rooms@.len() && post.rooms@[k].name@ == n);
            assert(pre.rooms@[k].name@ == n);
            if k != k2 {
                assert(pre.rooms@[k].name@ != pre.rooms@[k2].name@);
            }
        }
    }

    /// In a well-formed registry no room lists a member twice.
    pub proof fn lemma_members_no_duplicates(self, name: Seq<u8>)
        requires
            self.wf(),
        ensures
            self.members_of(name).no_duplicates(),
    {
        if self.has_room(name) {
            let i = self.room_at(name);
            assert(0 <= i < self.rooms@.len());
        }
    }

    /// An empty registry; the first id handed out is 0.
    pub fn new() -> (r: RoomRegistry)
        ensures
            r.wf(),
            r.rooms@.len() == 0,
            r.id_count == 0,
            forall|n: Seq<u8>| !r.has_room(n),
    {
        RoomRegistry { rooms: Vec::new(), id_count: 0 }
    }

    /// Hands out a fresh connection id: ids are drawn monotonically and never
    /// reused.
    pub fn next_id(&mut self) -> (id: u64)
        requires
            old(self).wf(),
            old(self).id_count < u64::MAX,
        ensures
            final(self).wf(),
            id == old(self).id_count,
            final(self).id_count == old(self).id_count + 1,
            final(self).rooms == old(self).rooms,
    {
        let id = self.id_count;
        self.id_count = self.id_count + 1;
        id
    }

    /// The index of the room of this name, or the number of rooms if there
    /// is none.
    fn find_room(&self, name: &[u8]) -> (i: usize)
        requires
            self.wf(),
        ensures
            i <= self.rooms@.len(),
            i < self.rooms@.len() ==> self.rooms@[i as int].name@ == name@ && self.has_room(name@)
                && self.room_at(name@) == i,
            i == self.rooms@.len() ==> !self.has_room(name@),
    {
        let n = self.rooms.len();
        let mut i: usize = 0;
        while i < n
            invariant
                self.wf(),
                n == self.rooms@.len(),
                0 <= i <= n,
                forall|k: int| 0 <= k < i ==> self.rooms@[k].name@ != name@,
            decreases n - i,
        {
            if crate::codec::bytes_eq(self.rooms[i].name.as_slice(), name) {
                proof {
                    self.lemma_room_at_index(i as int);
                }
                return i;
            }
            i += 1;
        }
        n
    }

    /// Creates the room of this name if it is absent; a no-op if it exists.
    pub fn ensure_room(&mut self, name: &[u8])
        requires
            old(self).wf(),
        ensures
            final(self).wf(),
            final(self).has_room(name@),
            forall|n: Seq<u8>|
                final(self).has_room(n) <==> (old(self).has_room(n) || n == name@),
            forall|n: Seq<u8>|
                old(self).has_room(n) ==> final(self).members_of(n) == old(self).members_of(n),
            !old(self).has_room(name@) ==> final(self).members_of(name@) == Seq::<u64>::empty(),
            old(self).has_room(name@) ==> *final(self) == *old(self),
            final(self).id_count == old(self).id_count,
    {
        let i = self.find_room(name);
        if i == self.rooms.len() {
            let room = Room { name: vstd::slice::slice_to_vec(name), members: Vec::new() };
            let ghost groom = room;
            self.rooms.push(room);
            proof {
                let ghost pre = *old(self);
                let ghost post = *self;
                let ghost len = pre.rooms@.len() as int;
                assert(post.rooms@ == pre.rooms@.push(groom));
                assert forall|i2: int, j2: int| 0 <= i2 < j2 < post.rooms@.len() implies post.rooms@[
                    i2
                ].name@ != post.rooms@[j2].name@ by {
                    if j2 < len {
                        assert(pre.rooms@[i2].name@ != pre.rooms@[j2].name@);
                    } else {
                        assert(post.rooms@[j2].name@ == name@);
                        assert(pre.rooms@[i2].name@ != name@);
                    }
                }
                assert(post.wf());
                assert(post.rooms@[len].name@ == name@);
                assert(post.has_room(name@));
                assert forall|n: Seq<u8>| post.has_room(n) implies (pre.has_room(n) || n
                    == name@) by {
                    let k = choose|k: int|
                        0 <= k < post.rooms@.len() && post.rooms@[k].name@ == n;
                    if k < len {
                        assert(pre.rooms@[k].name@ == n);
                    }
                }
                assert forall|n: Seq<u8>| pre.has_room(n) implies post.has_room(n)
                    && post.members_of(n) == pre.members_of(n) by {
                    let k = choose|k: int| 0 <= k < len && pre.rooms@[k].name@ == n;
                    assert(post.rooms@[k].name@ == n);
                    post.lemma_room_at_index(k);
                    pre.lemma_room_at_index(k);
                }
                post.lemma_room_at_index(len);
            }
        }
    }

    /// Inserts the connection into the room's member set, deduplicated by
    /// id: a second join by a member already present changes nothing. A
    /// no-op if the room does not exist (`ensure_room` comes first).
    pub fn join(&mut self, name: &[u8], id: u64)
        requires
            old(self).wf(),
        ensures
            final(self).wf(),
            forall|n: Seq<u8>| final(self).has_room(n) <==> old(self).has_room(n),
            forall|n: Seq<u8>|
                n != name@ ==> final(self).members_of(n) == old(self).members_of(n),
            !old(self).has_room(name@) ==> *final(self) == *old(self),
            old(self).is_member(name@, id) ==> *final(self) == *old(self),
            old(self).has_room(name@) && !old(self).is_member(name@, id) ==> final(self)
                .members_of(name@) == old(self).members_of(name@).push(id),
            final(self).is_member(name@, id) <==> old(self).has_room(name@),
            final(self).id_count == old(self).id_count,
    {
        let i = self.find_room(name);
        if i == self.rooms.len() {
            return ;
        }
        proof {
            old(self).lemma_room_at_index(i as int);
        }
        if contains_id(&self.rooms[i].members, id) {
            return ;
        }
        self.rooms[i].members.push(id);
        proof {
            let ghost pre = *old(self);
            let ghost post = *self;
            assert(post.rooms@[i as int].members@ == pre.rooms@[i as int].members@.push(id));
            assert forall|k: int| 0 <= k < pre.rooms@.len() implies post.rooms@[k].name@ == pre
                .rooms@[k].name@ && (k != i ==> post.rooms@[k] == pre.rooms@[k]) by {}
            assert(post.wf());
            RoomRegistry::lemma_same_names_same_rooms(pre, post);
            post.lemma_room_at_index(i as int);
            assert(post.members_of(name@) == pre.members_of(name@).push(id));
            assert(post.members_of(name@).contains(id)) by {
                assert(post.members_of(name@).last() == id);
            }
            assert forall|n: Seq<u8>| n != name@ implies post.members_of(n) == pre.members_of(
                n,
            ) by {
                if pre.has_room(n) {
                    let k = pre.room_at(n);
                    assert(k != i);
                }
            }
        }
    }

    /// Computes the fan-out of one message: one delivery of `payload` to
    /// every member of the room except the sender, in member order. Empty if
    /// the room does not exist. The registry itself is untouched; the caller
    /// pushes each frame onto the recipient's outbound queue, and a failure
    /// there affects that recipient alone.
    pub fn broadcast(&self, name: &[u8], payload: &[u8], sender: u64) -> (deliveries: Vec<
        Delivery,
    >)
        requires
            self.wf(),
        ensures
            delivery_targets(deliveries@) == recipients(self.members_of(name@), sender),
            forall|k: int| 0 <= k < deliveries@.len() ==> deliveries@[k].frame@ == payload@,
    {
        let i = self.find_room(name);
        if i == self.rooms.len() {
            let out: Vec<Delivery> = Vec::new();
            proof {
                lemma_without_empty(sender);
                assert(delivery_targets(out@) =~= Seq::<u64>::empty());
            }
            return out;
        }
        proof {
            self.lemma_room_at_index(i as int);
        }
        let n = self.rooms[i].members.len();
        let mut out: Vec<Delivery> = Vec::new();
        let mut k: usize = 0;
        proof {
            let ghost mem = self.rooms@[i as int].members@;
            assert(mem.take(0) =~= Seq::<u64>::empty());
            lemma_without_empty(sender);
            assert(delivery_targets(out@) =~= Seq::<u64>::empty());
        }
        while k < n
            invariant
                self.wf(),
                i < self.rooms@.len(),
                n == self.rooms@[i as int].members@.len(),
                0 <= k <= n,
                delivery_targets(out@) == recipients(
                    self.rooms@[i as int].members@.take(k as int),
                    sender,
                ),
                forall|t: int| 0 <= t < out@.len() ==> out@[t].frame@ == payload@,
            decreases n - k,
        {
            let ghost mem = self.rooms@[i as int].members@;
            proof {
                assert(mem.take(k + 1) =~= mem.take(k as int).push(mem[k as int]));
                lemma_without_push(mem.take(k as int), mem[k as int], sender);
            }
            let m = self.rooms[i].members[k];
            if m != sender {
                let ghost out_pre = out@;
                let d = Delivery { to: m, frame: vstd::slice::slice_to_vec(payload) };
                out.push(d);
                proof {
                    assert(delivery_targets(out@) =~= delivery_targets(out_pre).push(m));
                }
            }
            k += 1;
        }
        proof {
            self.lemma_room_at_index(i as int);
            let ghost mem = self.rooms@[i as int].members@;
            assert(mem.take(n as int) =~= mem);
            assert(self.members_of(name@) == mem);
        }
        out
    }

    /// Purges a closed connection: removes its id from the member set of
    /// every room, so no later broadcast reaches it.
    pub fn disconnect(&mut self, id: u64)
        requires
            old(self).wf(),
        ensures
            final(self).wf(),
            forall|n: Seq<u8>| final(self).has_room(n) <==> old(self).has_room(n),
            forall|n: Seq<u8>|
                final(self).members_of(n) == without(old(self).members_of(n), id),
            forall|n: Seq<u8>| !final(self).is_member(n, id),
            final(self).id_count == old(self).id_count,
    {
        let n = self.rooms.len();
        let mut j: usize = 0;
        while j < n
            invariant
                old(self).wf(),
                n == old(self).rooms@.len(),
                self.rooms@.len() == n,
                self.id_count == old(self).id_count,
                0 <= j <= n,
                forall|k: int| 0 <= k < n ==> self.rooms@[k].name@ == old(self).rooms@[k].name@,
                forall|k: int|
                    0 <= k < j ==> self.rooms@[k].members@ == without(
                        old(self).rooms@[k].members@,
                        id,
                    ),
                forall|k: int| j <= k < n ==> self.rooms@[k] == old(self).rooms@[k],
            decreases n - j,
        {
            let kept = remove_id(&self.rooms[j].members, id);
            self.rooms[j].members = kept;
            j += 1;
        }
        proof {
            let ghost pre = *old(self);
            let ghost post = *self;
            assert forall|k: int| 0 <= k < n implies post.rooms@[k].members@.no_duplicates() by {
                lemma_without_no_duplicates(pre.rooms@[k].members@, id);
            }
            assert(post.wf());
            RoomRegistry::lemma_same_names_same_rooms(pre, post);
            assert forall|nm: Seq<u8>| post.members_of(nm) == without(pre.members_of(nm), id) by {
                if pre.has_room(nm) {
                    let k = pre.room_at(nm);
                } else {
                    lemma_without_empty(id);
                }
            }
            assert forall|nm: Seq<u8>| !post.is_member(nm, id) by {
                lemma_without_facts(pre.members_of(nm), id);
            }
        }
    }

    /// Removes the connection from the room's member set by id. A no-op,
    /// not an error, if the room does not exist or the connection is not a
    /// member.
    pub fn leave(&mut self, name: &[u8], id: u64)
        requires
            old(self).wf(),
        ensures
            final(self).wf(),
            forall|n: Seq<u8>| final(self).has_room(n) <==> old(self).has_room(n),
            forall|n: Seq<u8>|
                n != name@ ==> final(self).members_of(n) == old(self).members_of(n),
            final(self).members_of(name@) == without(old(self).members_of(name@), id),
            !final(self).is_member(name@, id),
            !old(self).has_room(name@) ==> *final(self) == *old(self),
            final(self).id_count == old(self).id_count,
    {
        let i = self.find_room(name);
        if i == self.rooms.len() {
            proof {
                lemma_without_empty(id);
            }
            return ;
        }
        proof {
            old(self).lemma_room_at_index(i as int);
        }
        let kept = remove_id(&self.rooms[i].members, id);
        self.rooms[i].members = kept;
        proof {
            let ghost pre = *old(self);
            let ghost post = *self;
            assert forall|k: int| 0 <= k < pre.rooms@.len() implies post.rooms@[k].name@ == pre
                .rooms@[k].name@ && (k != i ==> post.rooms@[k] == pre.rooms@[k]) by {}
            assert(post.rooms@[i as int].members@ == without(pre.rooms@[i as int].members@, id));
            assert forall|k: int| 0 <= k < post.rooms@.len() implies post.rooms@[
                k
            ].members@.no_duplicates() by {
                if k == i {
                    lemma_without_no_duplicates(pre.rooms@[k].members@, id);
                }
            }
            assert(post.wf());
            RoomRegistry::lemma_same_names_same_rooms(pre, post);
            post.lemma_room_at_index(i as int);
            assert forall|n: Seq<u8>| n != name@ implies post.members_of(n) == pre.members_of(
                n,
            ) by {
                if pre.has_room(n) {
                    let k = pre.room_at(n);
                    assert(k != i);
                }
            }
            lemma_without_facts(pre.members_of(name@), id);
        }
    }
}

/// Whether `members` contains `id`.
fn contains_id(members: &Vec<u64>, id: u64) -> (r: bool)
    ensures
        r == members@.contains(id),
{
    let n = members.len();
    let mut i: usize = 0;
    while i < n
        invariant
            n == members@.len(),
            0 <= i <= n,
            forall|k: int| 0 <= k < i ==> members@[k] != id,
        decreases n - i,
    {
        if members[i] == id {
            return true;
        }
        i += 1;
    }
    false
}

/// The member list without `id`, in the original order.
fn remove_id(members: &Vec<u64>, id: u64) -> (r: Vec<u64>)
    ensures
        r@ == without(members@, id),
{
    let n = members.len();
    let mut r: Vec<u64> = Vec::new();
    let mut i: usize = 0;
    proof {
        lemma_without_empty(id);
        assert(members@.take(0) =~= Seq::<u64>::empty());
    }
    while i < n
        invariant
            n == members@.len(),
            0 <= i <= n,
            r@ == without(members@.take(i as int), id),
        decreases n - i,
    {
        proof {
            assert(members@.take(i + 1) =~= members@.take(i as int).push(members@[i as int]));
            lemma_without_push(members@.take(i as int), members@[i as int], id);
        }
        if members[i] != id {
            r.push(members[i]);
        }
        i += 1;
    }
    proof {
        assert(members@.take(n as int) =~= members@);
    }
    r
}

} // verus!
