//! Game rooms: which players have joined which room.

use vstd::prelude::*;

pub use crate::user_id::make_user_id;

verus! {

/// A player's role in a round. Roles are not handed out yet: every player
/// starts, and so far stays, without one.
pub enum Role {
    Werewolf,
    Villager,
    Seer,
    Witch,
    Hunter,
    Knight,
    Doctor,
}

/// A player in a game room.
pub struct Player {
    pub id: String,
    pub name: String,
    pub role: Option<Role>,
}

/// The name every player starts with.
pub open spec fn anonymous_name() -> Seq<char> {
    seq!['A', 'n', 'o', 'n']
}

/// What a player looks like in a room's model: the player's id, name and
/// role.
pub type PlayerView = (Seq<char>, Seq<char>, Option<Role>);

impl View for Player {
    type V = PlayerView;

    open spec fn view(&self) -> PlayerView {
        (self.id@, self.name@, self.role)
    }
}

impl Player {
    /// A fresh player with the given id, named "Anon" and without a role.
    pub fn new(id: String) -> (p: Player)
        ensures
            p.id@ == id@,
            p.name@ == anonymous_name(),
            p.role is None,
    {
        let name = String::from_str("Anon");
        proof {
            reveal_strlit("Anon");
            assert(name@ =~= anonymous_name());
        }
        Player { id, name, role: None }
    }
}

/// A room's players, in the order in which they joined.
pub struct GameRoom {
    pub players: Vec<Player>,
}

impl View for GameRoom {
    type V = Seq<PlayerView>;

    open spec fn view(&self) -> Seq<PlayerView> {
        self.players@.map_values(|p: Player| p@)
    }
}

/// The rooms of a room model, each name mapped to the room's players in the
/// order in which they joined.
pub type RoomsView = Map<Seq<char>, Seq<PlayerView>>;

/// Some player in `players` has the id `id`.
pub open spec fn has_player(players: Seq<PlayerView>, id: Seq<char>) -> bool {
    exists|i: int| 0 <= i < players.len() && #[trigger] players[i].0 == id
}

/// No two players in `players` share an id.
pub open spec fn ids_distinct(players: Seq<PlayerView>) -> bool {
    forall|i: int, j: int|
        0 <= i < j < players.len() ==> #[trigger] players[i].0 != #[trigger] players[j].0
}

/// No room holds the same player id twice.
pub open spec fn rooms_well_formed(rooms: RoomsView) -> bool {
    forall|name: Seq<char>| #[trigger] rooms.contains_key(name) ==> ids_distinct(rooms[name])
}

/// A player who has just joined: the given id, named "Anon", without a role.
pub open spec fn new_player(id: Seq<char>) -> PlayerView {
    (id, anonymous_name(), None)
}

/// No player in any room holds a role.
pub open spec fn rooms_without_roles(rooms: RoomsView) -> bool {
    forall|name: Seq<char>, i: int|
        #[trigger] rooms.contains_key(name) && 0 <= i < rooms[name].len() ==> #[trigger] rooms[name][i].2
            is None
}

/// The rooms after the player `id` asks to join the room `room`: a room that
/// does not exist yet is opened with the player as its only member; a player
/// who is not in the room yet joins it at the end, named "Anon" and without a
/// role; a player who is already in the room changes nothing, and keeps the
/// name and role they have.
pub open spec fn joined(rooms: RoomsView, room: Seq<char>, id: Seq<char>) -> RoomsView {
    if rooms.contains_key(room) {
        if has_player(rooms[room], id) {
            rooms
        } else {
            rooms.insert(room, rooms[room].push(new_player(id)))
        }
    } else {
        rooms.insert(room, seq![new_player(id)])
    }
}

/// One room under its name.
struct RoomEntry {
    name: String,
    room: GameRoom,
}

/// All open rooms, each under a name of its own: a list of named rooms in
/// the order in which they were opened, no two with the same name, seen as
/// a map from room name to players.
pub struct Games {
    rooms: Vec<RoomEntry>,
}

/// The map that a list of named rooms stands for.
spec fn entries_map(entries: Seq<(Seq<char>, Seq<PlayerView>)>) -> RoomsView
    decreases entries.len(),
{
    if entries.len() == 0 {
        Map::empty()
    } else {
        entries_map(entries.drop_last()).insert(entries.last().0, entries.last().1)
    }
}

spec fn names_distinct(entries: Seq<(Seq<char>, Seq<PlayerView>)>) -> bool {
    forall|i: int, j: int|
        0 <= i < j < entries.len() ==> #[trigger] entries[i].0 != #[trigger] entries[j].0
}

proof fn lemma_entries_map_domain(entries: Seq<(Seq<char>, Seq<PlayerView>)>, name: Seq<char>)
    ensures
        entries_map(entries).contains_key(name) <==> exists|i: int|
            0 <= i < entries.len() && #[trigger] entries[i].0 == name,
    decreases entries.len(),
{
    if entries.len() > 0 {
        let rest = entries.drop_last();
        lemma_entries_map_domain(rest, name);
        if entries_map(rest).contains_key(name) {
            let i = choose|i: int| 0 <= i < rest.len() && #[trigger] rest[i].0 == name;
            assert(entries[i].0 == name);
        }
        if exists|i: int| 0 <= i < entries.len() && #[trigger] entries[i].0 == name {
            let i = choose|i: int| 0 <= i < entries.len() && #[trigger] entries[i].0 == name;
            if i < entries.len() - 1 {
                assert(rest[i].0 == name);
            }
        }
    }
}

proof fn lemma_entries_map_value(entries: Seq<(Seq<char>, Seq<PlayerView>)>, i: int)
    requires
        names_distinct(entries),
        0 <= i < entries.len(),
    ensures
        entries_map(entries).contains_key(entries[i].0),
        entries_map(entries)[entries[i].0] == entries[i].1,
    decreases entries.len(),
{
    let rest = entries.drop_last();
    if i < entries.len() - 1 {
        assert(entries[i].0 != entries[entries.len() - 1].0);
        assert(rest[i] == entries[i]);
        lemma_entries_map_value(rest, i);
    }
}

proof fn lemma_entries_map_update(
    entries: Seq<(Seq<char>, Seq<PlayerView>)>,
    i: int,
    players: Seq<PlayerView>,
)
    requires
        names_distinct(entries),
        0 <= i < entries.len(),
    ensures
        names_distinct(entries.update(i, (entries[i].0, players))),
        entries_map(entries.update(i, (entries[i].0, players))) == entries_map(entries).insert(
            entries[i].0,
            players,
        ),
{
    let updated = entries.update(i, (entries[i].0, players));
    let before = entries_map(entries);
    let after = entries_map(updated);
    assert(names_distinct(updated)) by {
        assert forall|a: int, b: int| 0 <= a < b < updated.len() implies #[trigger] updated[a].0
            != #[trigger] updated[b].0 by {
            assert(updated[a].0 == entries[a].0);
            assert(updated[b].0 == entries[b].0);
        }
    }
    assert forall|name: Seq<char>| #[trigger] after.contains_key(name) <==> before.insert(
        entries[i].0,
        players,
    ).contains_key(name) by {
        lemma_entries_map_domain(entries, name);
        lemma_entries_map_domain(updated, name);
        if exists|j: int| 0 <= j < entries.len() && #[trigger] entries[j].0 == name {
            let j = choose|j: int| 0 <= j < entries.len() && #[trigger] entries[j].0 == name;
            assert(updated[j].0 == name);
        }
        if exists|j: int| 0 <= j < updated.len() && #[trigger] updated[j].0 == name {
            let j = choose|j: int| 0 <= j < updated.len() && #[trigger] updated[j].0 == name;
            assert(entries[j].0 == name);
        }
    }
    assert forall|name: Seq<char>| #[trigger] after.contains_key(name) implies after[name]
        == before.insert(entries[i].0, players)[name] by {
        lemma_entries_map_domain(updated, name);
        let j = choose|j: int| 0 <= j < updated.len() && #[trigger] updated[j].0 == name;
        lemma_entries_map_value(updated, j);
        lemma_entries_map_value(entries, j);
    }
    assert(after =~= before.insert(entries[i].0, players));
}

proof fn lemma_entries_map_push(
    entries: Seq<(Seq<char>, Seq<PlayerView>)>,
    entry: (Seq<char>, Seq<PlayerView>),
)
    ensures
        entries_map(entries.push(entry)) == entries_map(entries).insert(entry.0, entry.1),
{
    assert(entries.push(entry).drop_last() =~= entries);
}

/// A list of named rooms as (name, players) pairs.
spec fn room_entries(rooms: Seq<RoomEntry>) -> Seq<(Seq<char>, Seq<PlayerView>)> {
    rooms.map_values(|e: RoomEntry| (e.name@, e.room@))
}

/// No two rooms share a name, and no room holds a player id twice.
spec fn entries_wf(entries: Seq<(Seq<char>, Seq<PlayerView>)>) -> bool {
    &&& names_distinct(entries)
    &&& forall|i: int| 0 <= i < entries.len() ==> ids_distinct(#[trigger] entries[i].1)
}

impl Games {
    /// The rooms as (name, players) pairs, in the order in which they were opened.
    spec fn entries(&self) -> Seq<(Seq<char>, Seq<PlayerView>)> {
        room_entries(self.rooms@)
    }

    /// No two rooms share a name, and no room holds a player id twice.
    #[verifier::type_invariant]
    spec fn wf(&self) -> bool {
        entries_wf(self.entries())
    }

    proof fn lemma_wf_view(&self)
        requires
            self.wf(),
        ensures
            rooms_well_formed(self@),
    {
        assert forall|name: Seq<char>| #[trigger] self@.contains_key(name) implies ids_distinct(
            self@[name],
        ) by {
            lemma_entries_map_domain(self.entries(), name);
            let i = choose|i: int| 0 <= i < self.entries().len() && #[trigger] self.entries()[i].0 == name;
            lemma_entries_map_value(self.entries(), i);
        }
    }
}

impl View for Games {
    type V = RoomsView;

    closed spec fn view(&self) -> RoomsView {
        entries_map(self.entries())
    }
}

impl Games {
    /// The position of the room named `name`, if one is open.
    fn find_room(&self, name: &String) -> (found: Option<usize>)
        ensures
            match found {
                Some(i) => i < self.entries().len() && self.entries()[i as int].0 == name@,
                None => forall|i: int|
                    0 <= i < self.entries().len() ==> #[trigger] self.entries()[i].0 != name@,
            },
    {
        let mut i: usize = 0;
        while i < self.rooms.len()
            invariant
                i <= self.rooms.len(),
                forall|j: int| 0 <= j < i ==> #[trigger] self.entries()[j].0 != name@,
            decreases self.rooms.len() - i,
        {
            if self.rooms[i].name == *name {
                return Some(i);
            }
            i = i + 1;
        }
        None
    }
}

impl Games {
    /// The room named `name`, if it is open.
    pub fn room(&self, name: &str) -> (room: Option<&GameRoom>)
        ensures
            match room {
                Some(r) => self@.contains_key(name@) && r@ == self@[name@],
                None => !self@.contains_key(name@),
            },
    {
        proof {
            use_type_invariant(self);
        }
        let key = name.to_owned();
        match self.find_room(&key) {
            Some(i) => {
                proof {
                    lemma_entries_map_value(self.entries(), i as int);
                }
                Some(&self.rooms[i].room)
            },
            None => {
                proof {
                    lemma_entries_map_domain(self.entries(), name@);
                }
                None
            },
        }
    }

    /// The names of the open rooms, in the order in which they were opened.
    pub fn room_names(&self) -> (names: Vec<String>)
        ensures
            forall|name: Seq<char>|
                self@.contains_key(name) <==> exists|i: int|
                    0 <= i < names@.len() && #[trigger] names@[i]@ == name,
            forall|i: int, j: int|
                0 <= i < j < names@.len() ==> #[trigger] names@[i]@ != #[trigger] names@[j]@,
    {
        proof {
            use_type_invariant(self);
        }
        let mut names: Vec<String> = Vec::new();
        let mut i: usize = 0;
        while i < self.rooms.len()
            invariant
                i <= self.rooms.len(),
                names@.len() == i,
                forall|j: int| 0 <= j < i ==> #[trigger] names@[j]@ == self.entries()[j].0,
            decreases self.rooms.len() - i,
        {
            names.push(self.rooms[i].name.clone());
            i = i + 1;
        }
        assert forall|name: Seq<char>|
            self@.contains_key(name) <==> exists|k: int|
                0 <= k < names@.len() && #[trigger] names@[k]@ == name by {
            lemma_entries_map_domain(self.entries(), name);
            if exists|k: int| 0 <= k < names@.len() && #[trigger] names@[k]@ == name {
                let k = choose|k: int| 0 <= k < names@.len() && #[trigger] names@[k]@ == name;
                assert(self.entries()[k].0 == name);
            }
            if self@.contains_key(name) {
                let k = choose|k: int| 0 <= k < self.entries().len() && #[trigger] self.entries()[k].0 == name;
                assert(names@[k]@ == name);
            }
        }
        assert forall|a: int, b: int| 0 <= a < b < names@.len() implies #[trigger] names@[a]@
            != #[trigger] names@[b]@ by {
            assert(names@[a]@ == self.entries()[a].0);
            assert(names@[b]@ == self.entries()[b].0);
        }
        names
    }
}

/// Whether some player in `players` has the id `id`.
fn room_has_player(players: &Vec<Player>, id: &String) -> (found: bool)
    ensures
        found == has_player(players@.map_values(|p: Player| p@), id@),
{
    let ghost view = players@.map_values(|p: Player| p@);
    let mut i: usize = 0;
    while i < players.len()
        invariant
            i <= players.len(),
            view == players@.map_values(|p: Player| p@),
            forall|j: int| 0 <= j < i ==> #[trigger] view[j].0 != id@,
        decreases players.len() - i,
    {
        if players[i].id == *id {
            assert(view[i as int].0 == id@);
            return true;
        }
        i = i + 1;
    }
    false
}

/// Lets the player `id` join the room `room_name`, opening the room if it is
/// not open yet. A player who is already in the room stays where they are.
pub fn join_game(games: &mut Games, id: String, room_name: &str)
    ensures
        final(games)@ == joined(old(games)@, room_name@, id@),
        rooms_well_formed(final(games)@),
{
    proof {
        use_type_invariant(&*games);
    }
    let room_key = room_name.to_owned();
    let ghost before = games.entries();
    let found = games.find_room(&room_key);
    let mut rooms: Vec<RoomEntry> = Vec::new();
    std::mem::swap(&mut rooms, &mut games.rooms);
    assert(room_entries(rooms@) == before);
    match found {
        Some(i) => {
            proof {
                lemma_entries_map_value(before, i as int);
            }
            if !room_has_player(&rooms[i].room.players, &id) {
                let ghost old_players = before[i as int].1;
                let player = Player::new(id);
                rooms[i].room.players.push(player);
                proof {
                    let players = old_players.push(new_player(id@));
                    let after = room_entries(rooms@);
                    assert(after[i as int].1 =~= players);
                    assert(after =~= before.update(i as int, (before[i as int].0, players)));
                    lemma_entries_map_update(before, i as int, players);
                    assert(ids_distinct(players)) by {
                        assert forall|a: int, b: int| 0 <= a < b < players.len() implies #[trigger] players[a].0
                            != #[trigger] players[b].0 by {
                            if b == players.len() - 1 {
                                assert(old_players[a].0 == players[a].0);
                            }
                        }
                    }
                    assert forall|j: int| 0 <= j < after.len() implies ids_distinct(#[trigger] after[j].1) by {
                        if j != i {
                            assert(after[j] == before[j]);
                        }
                    }
                }
            }
        },
        None => {
            let mut players: Vec<Player> = Vec::with_capacity(20);
            players.push(Player::new(id));
            let entry = RoomEntry { name: room_key, room: GameRoom { players } };
            rooms.push(entry);
            proof {
                let added = (room_name@, seq![new_player(id@)]);
                let after = room_entries(rooms@);
                assert(entry.room@ =~= added.1);
                assert(after =~= before.push(added));
                lemma_entries_map_push(before, added);
                lemma_entries_map_domain(before, room_name@);
                assert forall|j: int| 0 <= j < after.len() implies ids_distinct(#[trigger] after[j].1) by {
                    if j < before.len() {
                        assert(after[j] == before[j]);
                    }
                }
            }
        },
    }
    games.rooms = rooms;
    proof {
        games.lemma_wf_view();
    }
}

/// An empty set of rooms.
pub fn new_game() -> (games: Games)
    ensures
        rooms_without_roles(games@),
        games@ == Map::<Seq<char>, Seq<PlayerView>>::empty(),
{
    let games = Games { rooms: Vec::new() };
    assert(games.entries() =~= Seq::empty());
    games
}

/// After a player joins a room, the room is open and the player is in it.
pub proof fn law_join_admits_player(rooms: RoomsView, room: Seq<char>, id: Seq<char>)
    ensures
        joined(rooms, room, id).contains_key(room),
        has_player(joined(rooms, room, id)[room], id),
{
    let after = joined(rooms, room, id)[room];
    if !(rooms.contains_key(room) && has_player(rooms[room], id)) {
        assert(after[after.len() - 1].0 == id);
    }
}

/// Joining the same room twice has the same effect as joining it once.
pub proof fn law_join_idempotent(rooms: RoomsView, room: Seq<char>, id: Seq<char>)
    ensures
        joined(joined(rooms, room, id), room, id) == joined(rooms, room, id),
{
    law_join_admits_player(rooms, room, id);
}

/// Joining a room leaves every other room as it was, and opens no room but
/// the one joined.
pub proof fn law_join_touches_one_room(
    rooms: RoomsView,
    room: Seq<char>,
    id: Seq<char>,
    other: Seq<char>,
)
    requires
        other != room,
    ensures
        joined(rooms, room, id).contains_key(other) == rooms.contains_key(other),
        rooms.contains_key(other) ==> joined(rooms, room, id)[other] == rooms[other],
{
}

/// Joining a room never removes or reorders its players: the players who
/// were there before come first, in their old order, and at most one player
/// is added, at the end.
pub proof fn law_join_keeps_players(rooms: RoomsView, room: Seq<char>, id: Seq<char>)
    requires
        rooms.contains_key(room),
    ensures
        rooms[room].len() <= joined(rooms, room, id)[room].len() <= rooms[room].len() + 1,
        joined(rooms, room, id)[room].subrange(0, rooms[room].len() as int) == rooms[room],
{
    let after = joined(rooms, room, id)[room];
    assert(after.subrange(0, rooms[room].len() as int) =~= rooms[room]);
}

/// Joining keeps every room free of repeated player ids.
pub proof fn law_join_keeps_ids_distinct(rooms: RoomsView, room: Seq<char>, id: Seq<char>)
    requires
        rooms_well_formed(rooms),
    ensures
        rooms_well_formed(joined(rooms, room, id)),
{
    let after = joined(rooms, room, id);
    assert forall|name: Seq<char>| #[trigger] after.contains_key(name) implies ids_distinct(
        after[name],
    ) by {
        if name == room && rooms.contains_key(room) && !has_player(rooms[room], id) {
            let players = after[name];
            let old_players = rooms[room];
            assert forall|a: int, b: int| 0 <= a < b < players.len() implies #[trigger] players[a].0
                != #[trigger] players[b].0 by {
                if b == players.len() - 1 {
                    assert(old_players[a].0 == players[a].0);
                } else {
                    assert(old_players[a] == players[a] && old_players[b] == players[b]);
                }
            }
        }
    }
}

/// Joins into two different rooms give the same rooms in either order.
pub proof fn law_joins_commute(
    rooms: RoomsView,
    room_a: Seq<char>,
    id_a: Seq<char>,
    room_b: Seq<char>,
    id_b: Seq<char>,
)
    requires
        room_a != room_b,
    ensures
        joined(joined(rooms, room_a, id_a), room_b, id_b) == joined(
            joined(rooms, room_b, id_b),
            room_a,
            id_a,
        ),
{
    let ab = joined(joined(rooms, room_a, id_a), room_b, id_b);
    let ba = joined(joined(rooms, room_b, id_b), room_a, id_a);
    law_join_touches_one_room(rooms, room_a, id_a, room_b);
    law_join_touches_one_room(rooms, room_b, id_b, room_a);
    assert(ab =~= ba);
}

/// Joining hands out no role: if no player held a role before, none holds
/// one after.
pub proof fn law_join_keeps_roles_unset(rooms: RoomsView, room: Seq<char>, id: Seq<char>)
    requires
        rooms_without_roles(rooms),
    ensures
        rooms_without_roles(joined(rooms, room, id)),
{
    let after = joined(rooms, room, id);
    assert forall|name: Seq<char>, i: int|
        #[trigger] after.contains_key(name) && 0 <= i < after[name].len() implies #[trigger] after[name][i].2
        is None by {
        if name == room && rooms.contains_key(room) && !has_player(rooms[room], id) && i < rooms[room].len() {
            assert(after[name][i] == rooms[room][i]);
        }
    }
}

} // verus!
