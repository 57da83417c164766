use duckception::game::{join_game, make_user_id, new_game, GameRoom, Games, Player};

fn ids(room: &GameRoom) -> Vec<String> {
    room.players.iter().map(|p| p.id.clone()).collect()
}

fn players_of(games: &Games, name: &str) -> Vec<String> {
    ids(games.room(name).expect("room is open"))
}

#[test]
fn new_player_is_anonymous_without_role() {
    let p = Player::new("abc".to_string());
    assert_eq!(p.id, "abc");
    assert_eq!(p.name, "Anon");
    assert!(p.role.is_none());
}

#[test]
fn new_game_has_no_rooms() {
    let games = new_game();
    assert!(games.room("lobby").is_none());
    assert!(games.room_names().is_empty());
}

#[test]
fn joining_opens_a_room() {
    let mut games = new_game();
    join_game(&mut games, "p1".to_string(), "lobby");
    assert_eq!(players_of(&games, "lobby"), vec!["p1".to_string()]);
    let room = games.room("lobby").unwrap();
    assert_eq!(room.players[0].name, "Anon");
    assert_eq!(games.room_names(), vec!["lobby".to_string()]);
}

#[test]
fn players_join_in_order() {
    let mut games = new_game();
    join_game(&mut games, "p1".to_string(), "lobby");
    join_game(&mut games, "p2".to_string(), "lobby");
    join_game(&mut games, "p3".to_string(), "lobby");
    assert_eq!(players_of(&games, "lobby"), vec!["p1", "p2", "p3"]);
}

#[test]
fn joining_twice_is_joining_once() {
    let mut games = new_game();
    join_game(&mut games, "p1".to_string(), "lobby");
    join_game(&mut games, "p2".to_string(), "lobby");
    join_game(&mut games, "p1".to_string(), "lobby");
    assert_eq!(players_of(&games, "lobby"), vec!["p1", "p2"]);
}

#[test]
fn rooms_are_kept_apart() {
    let mut games = new_game();
    join_game(&mut games, "p1".to_string(), "red");
    join_game(&mut games, "p2".to_string(), "blue");
    join_game(&mut games, "p1".to_string(), "blue");
    assert_eq!(players_of(&games, "red"), vec!["p1"]);
    assert_eq!(players_of(&games, "blue"), vec!["p2", "p1"]);
    assert!(games.room("green").is_none());
    let mut names = games.room_names();
    names.sort();
    assert_eq!(names, vec!["blue", "red"]);
}

#[test]
fn room_names_are_case_sensitive() {
    let mut games = new_game();
    join_game(&mut games, "p1".to_string(), "Lobby");
    join_game(&mut games, "p1".to_string(), "lobby");
    assert_eq!(games.room_names().len(), 2);
}

#[test]
fn made_user_ids_are_random_v4_uuids() {
    let a = make_user_id();
    let b = make_user_id();
    assert_eq!(a.len(), 36);
    assert_ne!(a, b);
    for (i, c) in a.chars().enumerate() {
        if i == 8 || i == 13 || i == 18 || i == 23 {
            assert_eq!(c, '-');
        } else {
            assert!(c.is_ascii_hexdigit() && !c.is_ascii_uppercase());
        }
    }
    assert_eq!(a.as_bytes()[14], b'4');
    assert!(matches!(a.as_bytes()[19], b'8' | b'9' | b'a' | b'b'));
}

#[test]
fn joined_players_hold_no_role() {
    let mut games = new_game();
    join_game(&mut games, "p1".to_string(), "lobby");
    join_game(&mut games, "p2".to_string(), "lobby");
    join_game(&mut games, "p1".to_string(), "lobby");
    let room = games.room("lobby").unwrap();
    assert!(room.players.iter().all(|p| p.role.is_none() && p.name == "Anon"));
}

#[test]
fn joins_into_different_rooms_commute() {
    let mut first = new_game();
    join_game(&mut first, "a".to_string(), "red");
    join_game(&mut first, "b".to_string(), "blue");
    let mut second = new_game();
    join_game(&mut second, "b".to_string(), "blue");
    join_game(&mut second, "a".to_string(), "red");
    for name in ["red", "blue"] {
        assert_eq!(players_of(&first, name), players_of(&second, name));
    }
    let (mut n1, mut n2) = (first.room_names(), second.room_names());
    n1.sort();
    n2.sort();
    assert_eq!(n1, n2);
}
