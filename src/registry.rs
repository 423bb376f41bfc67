//! The room registry: which peers are members of which room.

use vstd::prelude::*;

verus! {

/// The members of room `r` in `v`; none where the room is absent.
pub open spec fn members_in(v: Map<Seq<char>, Set<u128>>, r: Seq<char>) -> Set<u128> {
    if v.contains_key(r) {
        v[r]
    } else {
        Set::empty()
    }
}

/// Whether `p` is a member of some room of `v`.
pub open spec fn holds_peer(v: Map<Seq<char>, Set<u128>>, p: u128) -> bool {
    exists|r: Seq<char>| v.contains_key(r) && #[trigger] v[r].contains(p)
}

/// The rooms after `p` joins `r`: the room is created if absent. A peer that
/// is already a member of a room stays where it is.
pub open spec fn joined(v: Map<Seq<char>, Set<u128>>, r: Seq<char>, p: u128) -> Map<
    Seq<char>,
    Set<u128>,
> {
    if holds_peer(v, p) {
        v
    } else {
        v.insert(r, members_in(v, r).insert(p))
    }
}

/// The rooms after `p` leaves `r`: a room left without members is removed.
pub open spec fn left(v: Map<Seq<char>, Set<u128>>, r: Seq<char>, p: u128) -> Map<
    Seq<char>,
    Set<u128>,
> {
    let m = members_in(v, r).remove(p);
    if m.is_empty() {
        v.remove(r)
    } else {
        v.insert(r, m)
    }
}

/// The peers that a message sent by `sender` in room `r` reaches.
pub open spec fn recipients(v: Map<Seq<char>, Set<u128>>, r: Seq<char>, sender: u128) -> Set<
    u128,
> {
    members_in(v, r).remove(sender)
}

/// Every room present has a member, and no peer is a member of two rooms.
pub open spec fn rooms_consistent(v: Map<Seq<char>, Set<u128>>) -> bool {
    &&& forall|r: Seq<char>| v.contains_key(r) ==> !(#[trigger] v[r]).is_empty()
    &&& forall|r1: Seq<char>, r2: Seq<char>, p: u128|
        v.contains_key(r1) && v.contains_key(r2) && #[trigger] v[r1].contains(p)
            && #[trigger] v[r2].contains(p) ==> r1 == r2
}

/// A change of membership: a peer joins or leaves a room.
pub enum MembershipChange {
    Join(Seq<char>, u128),
    Leave(Seq<char>, u128),
}

/// The rooms after applying `changes` to `v`, in order.
pub open spec fn apply_changes(v: Map<Seq<char>, Set<u128>>, changes: Seq<MembershipChange>) -> Map<
    Seq<char>,
    Set<u128>,
>
    decreases changes.len(),
{
    if changes.len() == 0 {
        v
    } else {
        let before = apply_changes(v, changes.drop_last());
        match changes.last() {
            MembershipChange::Join(r, p) => joined(before, r, p),
            MembershipChange::Leave(r, p) => left(before, r, p),
        }
    }
}

proof fn lemma_joined_consistent(v: Map<Seq<char>, Set<u128>>, r: Seq<char>, p: u128)
    requires
        rooms_consistent(v),
    ensures
        rooms_consistent(joined(v, r, p)),
{
    let w = joined(v, r, p);
    if !holds_peer(v, p) {
        assert(w[r].contains(p));
        assert forall|r1: Seq<char>, r2: Seq<char>, x: u128|
            w.contains_key(r1) && w.contains_key(r2) && #[trigger] w[r1].contains(x)
                && #[trigger] w[r2].contains(x) implies r1 == r2 by {
            if x != p {
                assert(v.contains_key(r1) && v[r1].contains(x));
                assert(v.contains_key(r2) && v[r2].contains(x));
            } else if r1 != r {
                assert(v[r1].contains(p));
            } else if r2 != r {
                assert(v[r2].contains(p));
            }
        }
    }
}

proof fn lemma_left_consistent(v: Map<Seq<char>, Set<u128>>, r: Seq<char>, p: u128)
    requires
        rooms_consistent(v),
    ensures
        rooms_consistent(left(v, r, p)),
{
    let w = left(v, r, p);
    assert forall|r1: Seq<char>, r2: Seq<char>, x: u128|
        w.contains_key(r1) && w.contains_key(r2) && #[trigger] w[r1].contains(x)
            && #[trigger] w[r2].contains(x) implies r1 == r2 by {
        assert(v.contains_key(r1) && v[r1].contains(x));
        assert(v.contains_key(r2) && v[r2].contains(x));
    }
}

/// Membership invariant: from the empty registry, after any sequence of joins
/// and leaves, a room is present exactly when it has at least one member, and
/// no peer is a member of two rooms.
pub proof fn lemma_membership_invariant(changes: Seq<MembershipChange>)
    ensures
        rooms_consistent(apply_changes(Map::empty(), changes)),
        forall|r: Seq<char>|
            #[trigger] apply_changes(Map::empty(), changes).contains_key(r) <==> !members_in(
                apply_changes(Map::empty(), changes),
                r,
            ).is_empty(),
    decreases changes.len(),
{
    let w = apply_changes(Map::empty(), changes);
    if changes.len() == 0 {
        assert(rooms_consistent(w));
    } else {
        lemma_membership_invariant(changes.drop_last());
        let before = apply_changes(Map::empty(), changes.drop_last());
        match changes.last() {
            MembershipChange::Join(r, p) => lemma_joined_consistent(before, r, p),
            MembershipChange::Leave(r, p) => lemma_left_consistent(before, r, p),
        }
    }
    assert forall|r: Seq<char>| #[trigger] w.contains_key(r) <==> !members_in(w, r).is_empty() by {
        if !w.contains_key(r) {
            assert(members_in(w, r) =~= Set::<u128>::empty());
        }
    }
}

/// Room lifecycle: when the last member of a room leaves, the room is gone;
/// a later join to it starts from that peer alone.
pub proof fn lemma_room_lifecycle(v: Map<Seq<char>, Set<u128>>, r: Seq<char>, p: u128, q: u128)
    requires
        rooms_consistent(v),
        members_in(v, r) == Set::<u128>::empty().insert(p),
    ensures
        !left(v, r, p).contains_key(r),
        !holds_peer(left(v, r, p), q) ==> members_in(joined(left(v, r, p), r, q), r)
            == Set::<u128>::empty().insert(q),
{
    assert(Set::<u128>::empty().insert(p).remove(p) =~= Set::<u128>::empty());
    let w = left(v, r, p);
    assert(members_in(w, r) =~= Set::<u128>::empty());
}

struct Room {
    id: String,
    members: Vec<u128>,
}

/// The rooms that have members, each with its members in order of joining.
pub struct Registry {
    rooms: Vec<Room>,
}

spec fn view_of(rooms: Seq<Room>) -> Map<Seq<char>, Set<u128>> {
    Map::new(
        |r: Seq<char>| exists|i: int| 0 <= i < rooms.len() && rooms[i].id@ == r,
        |r: Seq<char>|
            rooms[choose|i: int| 0 <= i < rooms.len() && rooms[i].id@ == r].members@.to_set(),
    )
}

spec fn ids_distinct(rooms: Seq<Room>) -> bool {
    forall|i: int, j: int|
        0 <= i < rooms.len() && 0 <= j < rooms.len() && i != j ==> #[trigger] rooms[i].id@
            != #[trigger] rooms[j].id@
}

spec fn members_valid(rooms: Seq<Room>) -> bool {
    forall|i: int|
        0 <= i < rooms.len() ==> (#[trigger] rooms[i]).members@.len() > 0
            && rooms[i].members@.no_duplicates()
}

spec fn peers_unique(rooms: Seq<Room>) -> bool {
    forall|i: int, j: int, a: int, b: int|
        0 <= i < rooms.len() && 0 <= j < rooms.len() && 0 <= a < rooms[i].members@.len() && 0
            <= b < rooms[j].members@.len() && #[trigger] rooms[i].members@[a]
            == #[trigger] rooms[j].members@[b] ==> i == j
}

spec fn rooms_wf(rooms: Seq<Room>) -> bool {
    ids_distinct(rooms) && members_valid(rooms) && peers_unique(rooms)
}

proof fn lemma_view_of(rooms: Seq<Room>)
    requires
        ids_distinct(rooms),
    ensures
        forall|i: int|
            0 <= i < rooms.len() ==> view_of(rooms).contains_key(#[trigger] rooms[i].id@)
                && view_of(rooms)[rooms[i].id@] == rooms[i].members@.to_set(),
        forall|r: Seq<char>|
            #[trigger] view_of(rooms).contains_key(r) ==> exists|i: int|
                0 <= i < rooms.len() && rooms[i].id@ == r,
{
    assert forall|i: int| 0 <= i < rooms.len() implies view_of(rooms).contains_key(
        #[trigger] rooms[i].id@,
    ) && view_of(rooms)[rooms[i].id@] == rooms[i].members@.to_set() by {
        let r = rooms[i].id@;
        let j = choose|j: int| 0 <= j < rooms.len() && rooms[j].id@ == r;
        assert(0 <= j < rooms.len() && rooms[j].id@ == r);
        assert(j == i);
    }
}

proof fn lemma_update_room(rooms: Seq<Room>, i: int, room: Room)
    requires
        ids_distinct(rooms),
        0 <= i < rooms.len(),
        room.id@ == rooms[i].id@,
    ensures
        ids_distinct(rooms.update(i, room)),
        view_of(rooms.update(i, room)) == view_of(rooms).insert(room.id@, room.members@.to_set()),
{
    let s = rooms.update(i, room);
    assert(ids_distinct(s)) by {
        assert forall|a: int, b: int|
            0 <= a < s.len() && 0 <= b < s.len() && a != b implies #[trigger] s[a].id@
            != #[trigger] s[b].id@ by {
            assert(s[a].id@ == rooms[a].id@);
            assert(s[b].id@ == rooms[b].id@);
        }
    }
    lemma_view_of(rooms);
    lemma_view_of(s);
    let expected = view_of(rooms).insert(room.id@, room.members@.to_set());
    assert(s[i] == room);
    assert(view_of(s).contains_key(s[i].id@));
    assert forall|r: Seq<char>| #[trigger] view_of(s).contains_key(r) <==> expected.contains_key(r) by {
        if view_of(s).contains_key(r) {
            let j = choose|j: int| 0 <= j < s.len() && s[j].id@ == r;
            if j != i {
                assert(rooms[j].id@ == r);
            }
        }
        if expected.contains_key(r) && r != room.id@ {
            let j = choose|j: int| 0 <= j < rooms.len() && rooms[j].id@ == r;
            assert(s[j].id@ == r);
        }
    }
    assert forall|r: Seq<char>| #[trigger] view_of(s).contains_key(r) implies view_of(s)[r]
        == expected[r] by {
        let j = choose|j: int| 0 <= j < s.len() && s[j].id@ == r;
        assert(s[j].id@ == r);
        if j != i {
            assert(rooms[j].id@ == r);
        }
    }
    assert(view_of(s) =~= expected);
}

proof fn lemma_push_room(rooms: Seq<Room>, room: Room)
    requires
        ids_distinct(rooms),
        forall|i: int| 0 <= i < rooms.len() ==> rooms[i].id@ != room.id@,
    ensures
        ids_distinct(rooms.push(room)),
        view_of(rooms.push(room)) == view_of(rooms).insert(room.id@, room.members@.to_set()),
{
    let s = rooms.push(room);
    assert(ids_distinct(s)) by {
        assert forall|a: int, b: int|
            0 <= a < s.len() && 0 <= b < s.len() && a != b implies #[trigger] s[a].id@
            != #[trigger] s[b].id@ by {
            if a < rooms.len() {
                assert(s[a].id@ == rooms[a].id@);
            }
            if b < rooms.len() {
                assert(s[b].id@ == rooms[b].id@);
            }
        }
    }
    lemma_view_of(rooms);
    lemma_view_of(s);
    let expected = view_of(rooms).insert(room.id@, room.members@.to_set());
    assert(s[rooms.len() as int] == room);
    assert forall|r: Seq<char>| #[trigger] view_of(s).contains_key(r) <==> expected.contains_key(r) by {
        if view_of(s).contains_key(r) {
            let j = choose|j: int| 0 <= j < s.len() && s[j].id@ == r;
            if j < rooms.len() {
                assert(rooms[j].id@ == r);
            }
        }
        if expected.contains_key(r) && r != room.id@ {
            let j = choose|j: int| 0 <= j < rooms.len() && rooms[j].id@ == r;
            assert(s[j].id@ == r);
        }
    }
    assert forall|r: Seq<char>| #[trigger] view_of(s).contains_key(r) implies view_of(s)[r]
        == expected[r] by {
        let j = choose|j: int| 0 <= j < s.len() && s[j].id@ == r;
        assert(s[j].id@ == r);
        if j < rooms.len() {
            assert(rooms[j].id@ == r);
        }
    }
    assert(view_of(s) =~= expected);
}

proof fn lemma_remove_room(rooms: Seq<Room>, i: int)
    requires
        ids_distinct(rooms),
        0 <= i < rooms.len(),
    ensures
        ids_distinct(rooms.remove(i)),
        view_of(rooms.remove(i)) == view_of(rooms).remove(rooms[i].id@),
{
    let s = rooms.remove(i);
    assert forall|k: int| 0 <= k < s.len() implies #[trigger] s[k] == rooms[if k < i {
        k
    } else {
        k + 1
    }] by {}
    assert(ids_distinct(s)) by {
        assert forall|a: int, b: int|
            0 <= a < s.len() && 0 <= b < s.len() && a != b implies #[trigger] s[a].id@
            != #[trigger] s[b].id@ by {
            let a2 = if a < i { a } else { a + 1 };
            let b2 = if b < i { b } else { b + 1 };
            assert(s[a] == rooms[a2]);
            assert(s[b] == rooms[b2]);
        }
    }
    lemma_view_of(rooms);
    lemma_view_of(s);
    let expected = view_of(rooms).remove(rooms[i].id@);
    assert forall|r: Seq<char>| #[trigger] view_of(s).contains_key(r) <==> expected.contains_key(r) by {
        if view_of(s).contains_key(r) {
            let j = choose|j: int| 0 <= j < s.len() && s[j].id@ == r;
            let j2 = if j < i { j } else { j + 1 };
            assert(s[j] == rooms[j2]);
        }
        if expected.contains_key(r) {
            let j = choose|j: int| 0 <= j < rooms.len() && rooms[j].id@ == r;
            assert(j != i);
            let k = if j < i { j } else { j - 1 };
            assert(s[k] == rooms[j]);
        }
    }
    assert forall|r: Seq<char>| #[trigger] view_of(s).contains_key(r) implies view_of(s)[r]
        == expected[r] by {
        let j = choose|j: int| 0 <= j < s.len() && s[j].id@ == r;
        let j2 = if j < i { j } else { j + 1 };
        assert(s[j] == rooms[j2]);
    }
    assert(view_of(s) =~= expected);
}

proof fn lemma_add_member(rooms: Seq<Room>, i: int, room: Room, peer: u128)
    requires
        rooms_wf(rooms),
        0 <= i < rooms.len(),
        room.id@ == rooms[i].id@,
        room.members@ == rooms[i].members@.push(peer),
        forall|k: int| 0 <= k < rooms.len() ==> !(#[trigger] rooms[k]).members@.contains(peer),
    ensures
        rooms_wf(rooms.update(i, room)),
{
    let s = rooms.update(i, room);
    lemma_update_room(rooms, i, room);
    let n = rooms[i].members@.len();
    assert(!rooms[i].members@.contains(peer));
    assert forall|k: int| 0 <= k < s.len() implies (#[trigger] s[k]).members@.len() > 0
        && s[k].members@.no_duplicates() by {
        if k == i {
            let m = s[k].members@;
            assert forall|a: int, b: int|
                0 <= a < m.len() && 0 <= b < m.len() && a != b implies m[a] != m[b] by {
                if a == n {
                    assert(m[b] == rooms[i].members@[b]);
                } else if b == n {
                    assert(m[a] == rooms[i].members@[a]);
                } else {
                    assert(m[a] == rooms[i].members@[a]);
                    assert(m[b] == rooms[i].members@[b]);
                }
            }
        }
    }
    assert forall|j1: int, j2: int, a: int, b: int|
        0 <= j1 < s.len() && 0 <= j2 < s.len() && 0 <= a < s[j1].members@.len() && 0 <= b
            < s[j2].members@.len() && #[trigger] s[j1].members@[a] == #[trigger] s[j2].members@[b]
        implies j1 == j2 by {
        let a_new = j1 == i && a == n;
        let b_new = j2 == i && b == n;
        if !a_new {
            assert(s[j1].members@[a] == rooms[j1].members@[a]);
        }
        if !b_new {
            assert(s[j2].members@[b] == rooms[j2].members@[b]);
        }
        if a_new && !b_new {
            assert(rooms[j2].members@.contains(peer));
        }
        if b_new && !a_new {
            assert(rooms[j1].members@.contains(peer));
        }
    }
}

proof fn lemma_new_room(rooms: Seq<Room>, room: Room, peer: u128)
    requires
        rooms_wf(rooms),
        room.members@ == seq![peer],
        forall|i: int| 0 <= i < rooms.len() ==> rooms[i].id@ != room.id@,
        forall|k: int| 0 <= k < rooms.len() ==> !(#[trigger] rooms[k]).members@.contains(peer),
    ensures
        rooms_wf(rooms.push(room)),
{
    let s = rooms.push(room);
    lemma_push_room(rooms, room);
    let n = rooms.len() as int;
    assert(s[n] == room);
    assert forall|k: int| 0 <= k < s.len() implies (#[trigger] s[k]).members@.len() > 0
        && s[k].members@.no_duplicates() by {
        if k < n {
            assert(s[k] == rooms[k]);
        }
    }
    assert forall|j1: int, j2: int, a: int, b: int|
        0 <= j1 < s.len() && 0 <= j2 < s.len() && 0 <= a < s[j1].members@.len() && 0 <= b
            < s[j2].members@.len() && #[trigger] s[j1].members@[a] == #[trigger] s[j2].members@[b]
        implies j1 == j2 by {
        if j1 < n {
            assert(s[j1] == rooms[j1]);
        }
        if j2 < n {
            assert(s[j2] == rooms[j2]);
        }
        if j1 == n && j2 < n {
            assert(rooms[j2].members@.contains(peer));
        }
        if j2 == n && j1 < n {
            assert(rooms[j1].members@.contains(peer));
        }
    }
}

proof fn lemma_drop_member(rooms: Seq<Room>, i: int, room: Room, a: int)
    requires
        rooms_wf(rooms),
        0 <= i < rooms.len(),
        0 <= a < rooms[i].members@.len(),
        room.id@ == rooms[i].id@,
        room.members@ == rooms[i].members@.remove(a),
        room.members@.len() > 0,
    ensures
        rooms_wf(rooms.update(i, room)),
        room.members@.to_set() == rooms[i].members@.to_set().remove(rooms[i].members@[a]),
{
    let s = rooms.update(i, room);
    let old_m = rooms[i].members@;
    let m = room.members@;
    lemma_update_room(rooms, i, room);
    assert forall|x: int| 0 <= x < m.len() implies #[trigger] m[x] == old_m[if x < a {
        x
    } else {
        x + 1
    }] by {}
    assert forall|k: int| 0 <= k < s.len() implies (#[trigger] s[k]).members@.len() > 0
        && s[k].members@.no_duplicates() by {
        if k == i {
            assert forall|x: int, y: int|
                0 <= x < m.len() && 0 <= y < m.len() && x != y implies m[x] != m[y] by {
                let x2 = if x < a { x } else { x + 1 };
                let y2 = if y < a { y } else { y + 1 };
                assert(m[x] == old_m[x2]);
                assert(m[y] == old_m[y2]);
            }
        }
    }
    assert forall|j1: int, j2: int, x: int, y: int|
        0 <= j1 < s.len() && 0 <= j2 < s.len() && 0 <= x < s[j1].members@.len() && 0 <= y
            < s[j2].members@.len() && #[trigger] s[j1].members@[x] == #[trigger] s[j2].members@[y]
        implies j1 == j2 by {
        let x2 = if j1 == i {
            if x < a {
                x
            } else {
                x + 1
            }
        } else {
            x
        };
        let y2 = if j2 == i {
            if y < a {
                y
            } else {
                y + 1
            }
        } else {
            y
        };
        assert(s[j1].members@[x] == rooms[j1].members@[x2]);
        assert(s[j2].members@[y] == rooms[j2].members@[y2]);
    }
    assert forall|v: u128| #[trigger] m.to_set().contains(v) <==> old_m.to_set().remove(
        old_m[a],
    ).contains(v) by {
        if m.contains(v) {
            let x = choose|x: int| 0 <= x < m.len() && m[x] == v;
            let x2 = if x < a { x } else { x + 1 };
            assert(m[x] == old_m[x2]);
        }
        if old_m.contains(v) && v != old_m[a] {
            let x = choose|x: int| 0 <= x < old_m.len() && old_m[x] == v;
            let x2 = if x < a { x } else { x - 1 };
            assert(m[x2] == old_m[x]);
        }
    }
    assert(m.to_set() =~= old_m.to_set().remove(old_m[a]));
}

proof fn lemma_drop_room(rooms: Seq<Room>, i: int)
    requires
        rooms_wf(rooms),
        0 <= i < rooms.len(),
    ensures
        rooms_wf(rooms.remove(i)),
{
    let s = rooms.remove(i);
    lemma_remove_room(rooms, i);
    assert forall|k: int| 0 <= k < s.len() implies #[trigger] s[k] == rooms[if k < i {
        k
    } else {
        k + 1
    }] by {}
    assert forall|k: int| 0 <= k < s.len() implies (#[trigger] s[k]).members@.len() > 0
        && s[k].members@.no_duplicates() by {
        let k2 = if k < i { k } else { k + 1 };
        assert(s[k] == rooms[k2]);
    }
    assert forall|j1: int, j2: int, x: int, y: int|
        0 <= j1 < s.len() && 0 <= j2 < s.len() && 0 <= x < s[j1].members@.len() && 0 <= y
            < s[j2].members@.len() && #[trigger] s[j1].members@[x] == #[trigger] s[j2].members@[y]
        implies j1 == j2 by {
        let a = if j1 < i { j1 } else { j1 + 1 };
        let b = if j2 < i { j2 } else { j2 + 1 };
        assert(s[j1] == rooms[a]);
        assert(s[j2] == rooms[b]);
    }
}

impl View for Registry {
    type V = Map<Seq<char>, Set<u128>>;

    closed spec fn view(&self) -> Map<Seq<char>, Set<u128>> {
        view_of(self.rooms@)
    }
}

impl Registry {
    /// Room names are distinct, every room has members, none twice, and no
    /// peer is a member of two rooms.
    pub closed spec fn wf(&self) -> bool {
        rooms_wf(self.rooms@)
    }

    /// The registry with no rooms.
    pub fn new() -> (r: Registry)
        ensures
            r.wf(),
            r@ == Map::<Seq<char>, Set<u128>>::empty(),
    {
        let r = Registry { rooms: Vec::new() };
        assert(r@ =~= Map::<Seq<char>, Set<u128>>::empty());
        r
    }

    /// A well-formed registry is consistent: no empty room, no peer in two rooms.
    pub proof fn lemma_consistent(&self)
        requires
            self.wf(),
        ensures
            rooms_consistent(self@),
    {
        let rooms = self.rooms@;
        lemma_view_of(rooms);
        assert forall|r: Seq<char>| self@.contains_key(r) implies !(#[trigger] self@[r]).is_empty() by {
            let i = choose|i: int| 0 <= i < rooms.len() && rooms[i].id@ == r;
            assert(rooms[i].members@.to_set().contains(rooms[i].members@[0]));
        }
        assert forall|r1: Seq<char>, r2: Seq<char>, p: u128|
            self@.contains_key(r1) && self@.contains_key(r2) && #[trigger] self@[r1].contains(p)
                && #[trigger] self@[r2].contains(p) implies r1 == r2 by {
            let i = choose|i: int| 0 <= i < rooms.len() && rooms[i].id@ == r1;
            let j = choose|j: int| 0 <= j < rooms.len() && rooms[j].id@ == r2;
            let a = choose|a: int| 0 <= a < rooms[i].members@.len() && rooms[i].members@[a] == p;
            let b = choose|b: int| 0 <= b < rooms[j].members@.len() && rooms[j].members@[b] == p;
            assert(rooms[i].members@[a] == rooms[j].members@[b]);
        }
    }

    /// Adds `peer` to `room`, creating the room if absent. Where the peer is
    /// already a member of a room, nothing changes and the result is false.
    pub fn join(&mut self, room: &String, peer: u128) -> (r: bool)
        requires
            old(self).wf(),
        ensures
            final(self).wf(),
            r == !holds_peer(old(self)@, peer),
            final(self)@ == joined(old(self)@, room@, peer),
    {
        let ghost rooms = self.rooms@;
        proof {
            lemma_view_of(rooms);
        }
        if self.locate(peer) {
            proof {
                let i = choose|i: int| 0 <= i < rooms.len() && rooms[i].members@.contains(peer);
                assert(view_of(rooms)[rooms[i].id@].contains(peer));
            }
            return false;
        }
        proof {
            if holds_peer(view_of(rooms), peer) {
                let r = choose|r: Seq<char>|
                    view_of(rooms).contains_key(r) && #[trigger] view_of(rooms)[r].contains(peer);
                let i = choose|i: int| 0 <= i < rooms.len() && rooms[i].id@ == r;
                assert(rooms[i].members@.contains(peer));
            }
        }
        match self.find_room(room) {
            Some(i) => {
                self.rooms[i].members.push(peer);
                proof {
                    let nr = self.rooms@[i as int];
                    assert(self.rooms@ == rooms.update(i as int, nr));
                    rooms[i as int].members@.lemma_push_to_set_commute(peer);
                    lemma_update_room(rooms, i as int, nr);
                    lemma_add_member(rooms, i as int, nr, peer);
                }
            },
            None => {
                let mut members: Vec<u128> = Vec::new();
                members.push(peer);
                let nr = Room { id: room.clone(), members };
                proof {
                    lemma_push_room(rooms, nr);
                    lemma_new_room(rooms, nr, peer);
                    assert(nr.members@ == Seq::<u128>::empty().push(peer));
                    Seq::<u128>::empty().lemma_push_to_set_commute(peer);
                    assert(Seq::<u128>::empty().to_set() =~= Set::<u128>::empty());
                    assert(!view_of(rooms).contains_key(room@));
                }
                self.rooms.push(nr);
            },
        }
        true
    }

    /// Removes `peer` from `room`; a room left without members is removed in
    /// the same step. Where the peer is not a member of the room, nothing changes.
    pub fn leave(&mut self, room: &String, peer: u128)
        requires
            old(self).wf(),
        ensures
            final(self).wf(),
            final(self)@ == left(old(self)@, room@, peer),
    {
        let ghost rooms = self.rooms@;
        let ghost v = view_of(rooms);
        proof {
            lemma_view_of(rooms);
            self.lemma_consistent();
        }
        match self.find_room(room) {
            None => {
                proof {
                    assert(!v.contains_key(room@));
                    assert(members_in(v, room@).remove(peer) =~= Set::<u128>::empty());
                    assert(v.remove(room@) =~= v);
                }
            },
            Some(i) => {
                match Self::position(&self.rooms[i].members, peer) {
                    None => {
                        proof {
                            let m = rooms[i as int].members@.to_set();
                            assert(m.remove(peer) =~= m);
                            assert(!v[room@].is_empty());
                            assert(v.insert(room@, m) =~= v);
                        }
                    },
                    Some(a) => {
                        if self.rooms[i].members.len() == 1 {
                            self.rooms.remove(i);
                            proof {
                                let m = rooms[i as int].members@;
                                lemma_remove_room(rooms, i as int);
                                lemma_drop_room(rooms, i as int);
                                assert(m.to_set().remove(peer) =~= Set::<u128>::empty()) by {
                                    assert forall|x: u128| m.contains(x) implies x == peer by {
                                        assert(a == 0);
                                    }
                                }
                            }
                        } else {
                            self.rooms[i].members.remove(a);
                            proof {
                                let nr = self.rooms@[i as int];
                                assert(self.rooms@ == rooms.update(i as int, nr));
                                lemma_update_room(rooms, i as int, nr);
                                lemma_drop_member(rooms, i as int, nr, a as int);
                                assert(nr.members@.to_set().contains(nr.members@[0]));
                            }
                        }
                    },
                }
            },
        }
    }

    /// The members of `room` other than `sender`, each once: the peers that a
    /// message from `sender` in that room is delivered to. None where the
    /// room is absent.
    pub fn broadcast(&self, room: &String, sender: u128) -> (r: Vec<u128>)
        requires
            self.wf(),
        ensures
            r@.to_set() == recipients(self@, room@, sender),
            r@.no_duplicates(),
            !r@.contains(sender),
            forall|q: u128|
                #[trigger] r@.contains(q) <==> (members_in(self@, room@).contains(q) && q != sender),
    {
        let ghost rooms = self.rooms@;
        proof {
            lemma_view_of(rooms);
        }
        let mut out: Vec<u128> = Vec::new();
        match self.find_room(room) {
            None => {
                proof {
                    assert(!view_of(rooms).contains_key(room@));
                    assert(out@.to_set() =~= recipients(self@, room@, sender));
                }
            },
            Some(i) => {
                let members = &self.rooms[i].members;
                let mut a: usize = 0;
                while a < members.len()
                    invariant
                        a <= members@.len(),
                        members@.no_duplicates(),
                        out@.no_duplicates(),
                        forall|x: u128|
                            #[trigger] out@.contains(x) <==> (members@.take(a as int).contains(x)
                                && x != sender),
                    decreases members@.len() - a,
                {
                    let ghost before = out@;
                    let x = members[a];
                    proof {
                        assert(members@.take(a + 1) == members@.take(a as int).push(x));
                        if members@.take(a as int).contains(x) {
                            let k = choose|k: int|
                                0 <= k < a && members@.take(a as int)[k] == x;
                            assert(members@[k] == x);
                        }
                        let t = members@.take(a as int);
                        assert forall|y: u128| #[trigger] t.push(x).contains(y) <==> (t.contains(y)
                            || y == x) by {
                            if t.push(x).contains(y) && y != x {
                                let k = choose|k: int| 0 <= k < t.push(x).len() && t.push(x)[k] == y;
                                assert(t[k] == y);
                            }
                            if t.contains(y) {
                                let k = choose|k: int| 0 <= k < t.len() && t[k] == y;
                                assert(t.push(x)[k] == y);
                            }
                            if y == x {
                                assert(t.push(x)[t.len() as int] == y);
                            }
                        }
                    }
                    if x != sender {
                        out.push(x);
                        proof {
                            assert forall|y: u128| #[trigger] out@.contains(y) <==> (before.contains(y)
                                || y == x) by {
                                if out@.contains(y) {
                                    let k = choose|k: int| 0 <= k < out@.len() && out@[k] == y;
                                    if k < before.len() {
                                        assert(before[k] == y);
                                    }
                                }
                                if before.contains(y) {
                                    let k = choose|k: int| 0 <= k < before.len() && before[k] == y;
                                    assert(out@[k] == y);
                                }
                                if y == x {
                                    assert(out@[before.len() as int] == y);
                                }
                            }
                            assert(!before.contains(x));
                        }
                    }
                    a = a + 1;
                }
                proof {
                    assert(members@.take(members@.len() as int) == members@);
                    assert(out@.to_set() =~= recipients(self@, room@, sender));
                    assert(forall|q: u128| #[trigger] out@.contains(q) ==> out@.to_set().contains(q));
                }
            },
        }
        out
    }

    /// Whether `room` is present, that is, has members.
    pub fn contains_room(&self, room: &String) -> (r: bool)
        requires
            self.wf(),
        ensures
            r == self@.contains_key(room@),
    {
        proof {
            lemma_view_of(self.rooms@);
        }
        self.find_room(room).is_some()
    }

    fn find_room(&self, room: &String) -> (r: Option<usize>)
        ensures
            match r {
                Some(i) => i < self.rooms@.len() && self.rooms@[i as int].id@ == room@,
                None => forall|i: int| 0 <= i < self.rooms@.len() ==> self.rooms@[i].id@ != room@,
            },
    {
        let mut i: usize = 0;
        while i < self.rooms.len()
            invariant
                i <= self.rooms@.len(),
                forall|k: int| 0 <= k < i ==> self.rooms@[k].id@ != room@,
            decreases self.rooms@.len() - i,
        {
            if self.rooms[i].id.eq(room) {
                return Some(i);
            }
            i = i + 1;
        }
        None
    }

    fn position(members: &Vec<u128>, peer: u128) -> (r: Option<usize>)
        ensures
            match r {
                Some(a) => a < members@.len() && members@[a as int] == peer,
                None => !members@.contains(peer),
            },
    {
        let mut a: usize = 0;
        while a < members.len()
            invariant
                a <= members@.len(),
                forall|k: int| 0 <= k < a ==> members@[k] != peer,
            decreases members@.len() - a,
        {
            if members[a] == peer {
                return Some(a);
            }
            a = a + 1;
        }
        None
    }

    fn locate(&self, peer: u128) -> (r: bool)
        ensures
            r == exists|i: int|
                0 <= i < self.rooms@.len() && #[trigger] self.rooms@[i].members@.contains(peer),
    {
        let mut i: usize = 0;
        while i < self.rooms.len()
            invariant
                i <= self.rooms@.len(),
                forall|k: int| 0 <= k < i ==> !(#[trigger] self.rooms@[k]).members@.contains(peer),
            decreases self.rooms@.len() - i,
        {
            match Self::position(&self.rooms[i].members, peer) {
                Some(a) => {
                    assert(self.rooms@[i as int].members@[a as int] == peer);
                    assert(self.rooms@[i as int].members@.contains(peer));
                    return true;
                },
                None => {},
            }
            i = i + 1;
        }
        false
    }
}

} // verus!
