//! Rooms: independent game instances, and the registry that creates,
//! lists and removes them.
use vstd::prelude::*;
use crate::game::GameState;
use crate::players::count_connected;
use crate::text::{append_decimal, decimal};

verus! {

/// What clients are told about a room.
#[derive(Clone, Debug)]
pub struct RoomInfo {
    pub id: String,
    pub name: String,
    pub players: usize,
    pub max_players: usize,
    pub created_at: i64,
}

/// The description of `r`.
pub open spec fn info_of(r: &Room) -> RoomInfo {
    RoomInfo {
        id: r.id,
        name: r.name,
        players: count_connected(r.game.players@, r.game.players@.len() as int) as usize,
        max_players: r.max_players,
        created_at: r.created_at,
    }
}

/// One room: a game instance with its identity and capacity.
pub struct Room {
    pub id: String,
    pub name: String,
    pub max_players: usize,
    pub created_at: i64,
    pub game: GameState,
}

/// Relies on `chrono::Utc::now` and `DateTime::timestamp`: the current time
/// in whole seconds since the Unix epoch.
#[verifier::external_body]
fn unix_now() -> i64 {
    chrono::Utc::now().timestamp()
}

impl Room {
    /// A fresh room, stamped with the current time.
    pub fn new(id: String, name: String, max_players: usize) -> (r: Room)
        ensures
            r.id@ == id@,
            r.name@ == name@,
            r.max_players == max_players,
            r.game.wf(),
            r.game.players@.len() == 0,
    {
        let created_at = unix_now();
        Room { id, name, max_players, created_at, game: GameState::new() }
    }

    /// Number of players connected to the room.
    pub fn player_count(&self) -> (r: usize)
        ensures
            r == count_connected(self.game.players@, self.game.players@.len() as int),
    {
        crate::players::connected_count(&self.game.players)
    }

    /// Whether the room holds as many connected players as it admits.
    pub fn is_full(&self) -> (r: bool)
        ensures
            r == (count_connected(self.game.players@, self.game.players@.len() as int)
                >= self.max_players),
    {
        self.player_count() >= self.max_players
    }

    /// The room's public description.
    pub fn info(&self) -> (r: RoomInfo)
        ensures
            r == info_of(self),
    {
        RoomInfo {
            id: self.id.clone(),
            name: self.name.clone(),
            players: self.player_count(),
            max_players: self.max_players,
            created_at: self.created_at,
        }
    }
}

/// The registry of rooms, and which room each endpoint is in.
pub struct RoomManager {
    pub rooms: Vec<Room>,
    pub player_rooms: Vec<(u64, String)>,
    pub next_room_id: u64,
}

/// Index of the first room at or after `i` with id `id`.
pub open spec fn find_room_from(rooms: Seq<Room>, id: Seq<char>, i: int) -> Option<int>
    decreases rooms.len() - i,
{
    if i < 0 || i >= rooms.len() {
        None
    } else if rooms[i].id@ == id {
        Some(i)
    } else {
        find_room_from(rooms, id, i + 1)
    }
}

/// The room that endpoint `addr` was last assigned to.
pub open spec fn room_of(pr: Seq<(u64, String)>, addr: u64) -> Option<Seq<char>>
    decreases pr.len(),
{
    if pr.len() == 0 {
        None
    } else if pr.last().0 == addr {
        Some(pr.last().1@)
    } else {
        room_of(pr.drop_last(), addr)
    }
}

/// The entries of `pr` for endpoints other than `addr`, in order.
pub open spec fn without_addr(pr: Seq<(u64, String)>, addr: u64) -> Seq<(u64, String)>
    decreases pr.len(),
{
    if pr.len() == 0 {
        pr
    } else {
        let rest = without_addr(pr.drop_last(), addr);
        if pr.last().0 == addr {
            rest
        } else {
            rest.push(pr.last())
        }
    }
}

proof fn lemma_without_addr(pr: Seq<(u64, String)>, addr: u64)
    ensures
        room_of(without_addr(pr, addr), addr) is None,
        forall|a: u64| a != addr ==> room_of(without_addr(pr, addr), a) == room_of(pr, a),
    decreases pr.len(),
{
    if pr.len() > 0 {
        lemma_without_addr(pr.drop_last(), addr);
        let rest = without_addr(pr.drop_last(), addr);
        if pr.last().0 != addr {
            assert(rest.push(pr.last()).drop_last() == rest);
        }
        assert forall|a: u64| a != addr implies room_of(without_addr(pr, addr), a) == room_of(pr, a) by {
            assert(room_of(rest, a) == room_of(pr.drop_last(), a));
            if pr.last().0 != addr {
                let w = rest.push(pr.last());
                assert(w.drop_last() == rest);
                assert(w.last() == pr.last());
                assert(without_addr(pr, addr) == w);
            } else {
                assert(without_addr(pr, addr) == rest);
            }
        }
    }
}

/// The rooms that have a connected player, in order.
pub open spec fn occupied(rooms: Seq<Room>) -> Seq<Room>
    decreases rooms.len(),
{
    if rooms.len() == 0 {
        rooms
    } else {
        let rest = occupied(rooms.drop_last());
        let r = rooms.last();
        if count_connected(r.game.players@, r.game.players@.len() as int) > 0 {
            rest.push(r)
        } else {
            rest
        }
    }
}

/// The descriptions of the rooms are in ascending order of creation time.
pub open spec fn sorted_by_created(infos: Seq<RoomInfo>) -> bool {
    forall|i: int, j: int| 0 <= i < j < infos.len() ==> infos[i].created_at <= infos[j].created_at
}

impl RoomManager {
    /// An empty registry; room numbers start at 1.
    pub fn new() -> (r: RoomManager)
        ensures
            r.wf(),
            r.rooms@.len() == 0,
            r.player_rooms@.len() == 0,
            r.next_room_id == 1,
    {
        RoomManager { rooms: Vec::new(), player_rooms: Vec::new(), next_room_id: 1 }
    }

    /// No two rooms share an id.
    pub open spec fn wf(&self) -> bool {
        ids_unique(self.rooms@)
    }

    /// Creates a room named `name` for up to `max_players` players and
    /// returns its id: `room-<n>` for the next room number `n`, with dashes
    /// appended in the unlikely case that this id is already taken.
    pub fn create_room(&mut self, name: String, max_players: usize) -> (id: String)
        requires
            old(self).wf(),
        ensures
            final(self).wf(),
            find_room_from(old(self).rooms@, id@, 0) is None,
            ({
                let base = "room-"@ + decimal(old(self).next_room_id as nat);
                &&& id@.len() >= base.len()
                &&& id@.subrange(0, base.len() as int) == base
                &&& find_room_from(old(self).rooms@, base, 0) is None ==> id@ == base
            }),
            final(self).rooms@.len() == old(self).rooms@.len() + 1,
            final(self).rooms@.take(old(self).rooms@.len() as int) == old(self).rooms@,
            final(self).rooms@.last().id@ == id@,
            final(self).rooms@.last().name@ == name@,
            final(self).rooms@.last().max_players == max_players,
            final(self).rooms@.last().game.wf(),
            final(self).rooms@.last().game.players@.len() == 0,
            final(self).next_room_id == old(self).next_room_id.wrapping_add(1),
            final(self).player_rooms@ == old(self).player_rooms@,
    {
        let n = self.next_room_id;
        proof {
            reveal_strlit("room-");
        }
        let mut base = String::from_str("room-");
        append_decimal(&mut base, n);
        let id = unused_room_id(&self.rooms, base);
        self.next_room_id = n.wrapping_add(1);
        let room = Room::new(id.clone(), name, max_players);
        let ghost before = self.rooms@;
        self.rooms.push(room);
        assert(self.rooms@.take(before.len() as int) == before);
        proof {
            lemma_find_room_found(before, id@, 0);
            assert forall|i: int, j: int| 0 <= i < j < self.rooms@.len() implies self.rooms@[i].id@
                != self.rooms@[j].id@ by {
                if j < before.len() {
                    assert(before[i].id@ != before[j].id@);
                }
            }
        }
        id
    }

    /// Finds the room with id `room_id`.
    pub fn find_room(&self, room_id: &str) -> (r: Option<usize>)
        ensures
            r is None <==> find_room_from(self.rooms@, room_id@, 0) is None,
            r matches Some(i) ==> find_room_from(self.rooms@, room_id@, 0) == Some(i as int),
    {
        find_room_in(&self.rooms, &String::from_str(room_id))
    }

    /// The room with id `room_id`, if there is one.
    pub fn get_room(&self, room_id: &str) -> (r: Option<&Room>)
        ensures
            r is None <==> find_room_from(self.rooms@, room_id@, 0) is None,
            r matches Some(room) ==> find_room_from(self.rooms@, room_id@, 0) matches Some(i) && *room
                == self.rooms@[i],
    {
        match self.find_room(room_id) {
            Some(i) => {
                proof {
                    lemma_find_room_found(self.rooms@, room_id@, 0);
                }
                Some(&self.rooms[i])
            },
            None => None,
        }
    }

    /// The descriptions of all rooms, oldest first (rooms created in the
    /// same second keep their order).
    pub fn list_rooms(&self) -> (r: Vec<RoomInfo>)
        ensures
            sorted_by_created(r@),
            r@.to_multiset() == Seq::new(self.rooms@.len(), |i: int| info_of(&self.rooms@[i])).to_multiset(),
    {
        broadcast use vstd::seq_lib::group_to_multiset_ensures;

        let ghost all = Seq::new(self.rooms@.len(), |i: int| info_of(&self.rooms@[i]));
        let mut out: Vec<RoomInfo> = Vec::new();
        let mut i: usize = 0;
        while i < self.rooms.len()
            invariant
                i <= self.rooms@.len(),
                all == Seq::new(self.rooms@.len(), |i: int| info_of(&self.rooms@[i])),
                sorted_by_created(out@),
                out@.to_multiset() == all.take(i as int).to_multiset(),
            decreases self.rooms@.len() - i,
        {
            let info = self.rooms[i].info();
            let mut p: usize = 0;
            while p < out.len() && out[p].created_at <= info.created_at
                invariant
                    p <= out@.len(),
                    forall|k: int| 0 <= k < p ==> #[trigger] out@[k].created_at <= info.created_at,
                decreases out@.len() - p,
            {
                p = p + 1;
            }
            let ghost before = out@;
            proof {
                assert forall|k: int| p <= k < before.len() implies #[trigger] before[k].created_at
                    > info.created_at by {
                    assert(before[p as int].created_at > info.created_at);
                    assert(before[p as int].created_at <= before[k].created_at);
                }
            }
            out.insert(p, info);
            proof {
                assert(all.take(i + 1) == all.take(i as int).push(all[i as int]));
                vstd::seq_lib::to_multiset_insert(before, p as int, all[i as int]);
                vstd::seq_lib::to_multiset_build(all.take(i as int), all[i as int]);
                assert forall|a: int, b: int| 0 <= a < b < out@.len() implies out@[a].created_at
                    <= out@[b].created_at by {
                    if a < p && b > p {
                        assert(before[a].created_at <= before[b - 1].created_at);
                    } else if b < p {
                    } else if a > p {
                        assert(before[a - 1].created_at <= before[b - 1].created_at);
                    } else if a == p {
                        assert(out@[b] == before[b - 1]);
                    } else {
                        assert(out@[a] == before[a]);
                    }
                }
            }
            i = i + 1;
        }
        assert(all.take(all.len() as int) == all);
        out
    }

    /// Records that endpoint `addr` is in room `room_id`, replacing any
    /// earlier record for it.
    pub fn assign_player_to_room(&mut self, addr: u64, room_id: String)
        ensures
            room_of(final(self).player_rooms@, addr) == Some(room_id@),
            forall|a: u64|
                a != addr ==> room_of(final(self).player_rooms@, a) == room_of(
                    old(self).player_rooms@,
                    a,
                ),
            final(self).rooms@ == old(self).rooms@,
    {
        self.remove_player(addr);
        let ghost before = self.player_rooms@;
        self.player_rooms.push((addr, room_id));
        assert(self.player_rooms@.drop_last() == before);
    }

    /// The room endpoint `addr` is in.
    pub fn get_player_room(&self, addr: u64) -> (r: Option<String>)
        ensures
            r is None <==> room_of(self.player_rooms@, addr) is None,
            r matches Some(s) ==> room_of(self.player_rooms@, addr) == Some(s@),
    {
        let mut i: usize = self.player_rooms.len();
        assert(self.player_rooms@.take(i as int) == self.player_rooms@);
        while i > 0
            invariant
                i <= self.player_rooms@.len(),
                room_of(self.player_rooms@, addr) == room_of(self.player_rooms@.take(i as int), addr),
            decreases i,
        {
            let ghost pre = self.player_rooms@.take(i as int);
            assert(pre.drop_last() == self.player_rooms@.take(i - 1));
            if self.player_rooms[i - 1].0 == addr {
                return Some(self.player_rooms[i - 1].1.clone());
            }
            i = i - 1;
        }
        None
    }

    /// Forgets which room endpoint `addr` is in.
    pub fn remove_player(&mut self, addr: u64)
        ensures
            room_of(final(self).player_rooms@, addr) is None,
            forall|a: u64|
                a != addr ==> room_of(final(self).player_rooms@, a) == room_of(
                    old(self).player_rooms@,
                    a,
                ),
            final(self).rooms@ == old(self).rooms@,
    {
        let ghost prior = self.player_rooms@;
        let mut kept: Vec<(u64, String)> = Vec::new();
        let mut i: usize = 0;
        while i < self.player_rooms.len()
            invariant
                self.player_rooms@ == prior,
                i <= prior.len(),
                kept@ == without_addr(prior.take(i as int), addr),
            decreases prior.len() - i,
        {
            assert(prior.take(i + 1).drop_last() == prior.take(i as int));
            if self.player_rooms[i].0 != addr {
                let entry = (self.player_rooms[i].0, self.player_rooms[i].1.clone());
                kept.push(entry);
            }
            i = i + 1;
        }
        assert(prior.take(prior.len() as int) == prior);
        proof {
            lemma_without_addr(prior, addr);
        }
        self.player_rooms = kept;
    }

    /// Removes every room that has no connected player.
    pub fn cleanup_empty_rooms(&mut self)
        requires
            old(self).wf(),
        ensures
            final(self).wf(),
            final(self).rooms@ == occupied(old(self).rooms@),
            final(self).player_rooms@ == old(self).player_rooms@,
            final(self).next_room_id == old(self).next_room_id,
    {
        let ghost r0 = self.rooms@;
        let n = self.rooms.len();
        let mut kept: Vec<Room> = Vec::new();
        let mut j: usize = 0;
        while self.rooms.len() > 0
            invariant
                n == r0.len(),
                j + self.rooms@.len() == n,
                self.rooms@ == r0.skip(j as int),
                kept@ == occupied(r0.take(j as int)),
                self.player_rooms@ == old(self).player_rooms@,
                self.next_room_id == old(self).next_room_id,
            decreases self.rooms@.len(),
        {
            let room = self.rooms.remove(0);
            assert(r0.take(j + 1).drop_last() == r0.take(j as int));
            assert(r0.take(j + 1).last() == room);
            assert(self.rooms@ == r0.skip(j + 1));
            if room.player_count() > 0 {
                kept.push(room);
            }
            j = j + 1;
        }
        assert(r0.take(r0.len() as int) == r0);
        proof {
            lemma_occupied_unique(r0);
        }
        self.rooms = kept;
    }

    /// Number of rooms.
    pub fn room_count(&self) -> (r: usize)
        ensures
            r == self.rooms@.len(),
    {
        self.rooms.len()
    }
}

impl Default for RoomManager {
    fn default() -> (r: RoomManager)
        ensures
            r.wf(),
            r.rooms@.len() == 0,
            r.player_rooms@.len() == 0,
            r.next_room_id == 1,
    {
        RoomManager::new()
    }
}

proof fn lemma_find_room_found(rooms: Seq<Room>, id: Seq<char>, i: int)
    requires
        0 <= i,
    ensures
        find_room_from(rooms, id, i) matches Some(j) ==> i <= j < rooms.len() && rooms[j].id@ == id,
        find_room_from(rooms, id, i) is None ==> forall|j: int| i <= j < rooms.len() ==> rooms[j].id@ != id,
    decreases rooms.len() - i,
{
    if i < rooms.len() && rooms[i].id@ != id {
        lemma_find_room_found(rooms, id, i + 1);
    }
}

/// No two rooms share an id.
pub open spec fn ids_unique(rooms: Seq<Room>) -> bool {
    forall|i: int, j: int| 0 <= i < j < rooms.len() ==> rooms[i].id@ != rooms[j].id@
}

/// Every room left by `occupied` is one of the rooms it was given.
proof fn lemma_occupied_from(rooms: Seq<Room>)
    ensures
        forall|k: int|
            0 <= k < occupied(rooms).len() ==> exists|w: int|
                0 <= w < rooms.len() && rooms[w] == #[trigger] occupied(rooms)[k],
        occupied(rooms).len() <= rooms.len(),
    decreases rooms.len(),
{
    if rooms.len() > 0 {
        let rest = rooms.drop_last();
        lemma_occupied_from(rest);
        assert forall|k: int| 0 <= k < occupied(rooms).len() implies exists|w: int|
            0 <= w < rooms.len() && rooms[w] == #[trigger] occupied(rooms)[k] by {
            if k < occupied(rest).len() {
                assert(occupied(rooms)[k] == occupied(rest)[k]);
                let w = choose|w: int| 0 <= w < rest.len() && rest[w] == #[trigger] occupied(rest)[k];
                assert(rooms[w] == rest[w]);
            } else {
                assert(occupied(rooms)[k] == rooms[rooms.len() - 1]);
            }
        }
    }
}

/// Dropping the empty rooms keeps the ids unique.
proof fn lemma_occupied_unique(rooms: Seq<Room>)
    requires
        ids_unique(rooms),
    ensures
        ids_unique(occupied(rooms)),
    decreases rooms.len(),
{
    if rooms.len() > 0 {
        let rest = rooms.drop_last();
        assert(ids_unique(rest));
        lemma_occupied_unique(rest);
        lemma_occupied_from(rest);
        let o = occupied(rooms);
        let orest = occupied(rest);
        assert forall|i: int, j: int| 0 <= i < j < o.len() implies o[i].id@ != o[j].id@ by {
            if j < orest.len() {
                assert(o[i] == orest[i] && o[j] == orest[j]);
            } else {
                assert(o[i] == orest[i]);
                let w = choose|w: int| 0 <= w < rest.len() && rest[w] == #[trigger] orest[i];
                assert(o[j] == rooms[rooms.len() - 1]);
                assert(rooms[w].id@ != rooms[rooms.len() - 1].id@);
            }
        }
    }
}

/// Finds the room with id `id` in `rooms`.
fn find_room_in(rooms: &Vec<Room>, id: &String) -> (r: Option<usize>)
    ensures
        r is None <==> find_room_from(rooms@, id@, 0) is None,
        r matches Some(i) ==> find_room_from(rooms@, id@, 0) == Some(i as int),
{
    let mut i: usize = 0;
    while i < rooms.len()
        invariant
            i <= rooms@.len(),
            find_room_from(rooms@, id@, 0) == find_room_from(rooms@, id@, i as int),
        decreases rooms@.len() - i,
    {
        if rooms[i].id == *id {
            return Some(i);
        }
        i = i + 1;
    }
    None
}

/// Makes `id` unused among `rooms`: it is kept when no room has it;
/// otherwise dashes are appended until it is longer than every room id.
fn unused_room_id(rooms: &Vec<Room>, id: String) -> (r: String)
    ensures
        find_room_from(rooms@, r@, 0) is None,
        find_room_from(rooms@, id@, 0) is None ==> r@ == id@,
        r@.len() >= id@.len(),
        r@.subrange(0, id@.len() as int) == id@,
{
    if find_room_in(rooms, &id).is_none() {
        assert(id@.subrange(0, id@.len() as int) =~= id@);
        return id;
    }
    let mut longest: usize = 0;
    let mut i: usize = 0;
    while i < rooms.len()
        invariant
            i <= rooms@.len(),
            forall|j: int| 0 <= j < i ==> rooms@[j].id@.len() <= longest,
        decreases rooms@.len() - i,
    {
        let n = rooms[i].id.as_str().unicode_len();
        if n > longest {
            longest = n;
        }
        i = i + 1;
    }
    let ghost id0 = id@;
    let mut r = id;
    let mut n: u128 = r.as_str().unicode_len() as u128;
    let limit: u128 = longest as u128;
    proof {
        reveal_strlit("-");
    }
    while n <= limit
        invariant
            n == r@.len(),
            limit == longest,
            r@.len() >= id0.len(),
            r@.subrange(0, id0.len() as int) == id0,
            forall|j: int| 0 <= j < rooms@.len() ==> rooms@[j].id@.len() <= longest,
            "-"@.len() == 1,
        decreases limit + 1 - n,
    {
        let ghost before = r@;
        r.append("-");
        assert(r@.subrange(0, id0.len() as int) =~= before.subrange(0, id0.len() as int));
        n = n + 1;
    }
    proof {
        lemma_find_room_found(rooms@, r@, 0);
        if find_room_from(rooms@, r@, 0) is Some {
            let j = find_room_from(rooms@, r@, 0)->Some_0;
            assert(rooms@[j].id@.len() <= longest);
        }
    }
    r
}

} // verus!
