use duckception::game::new_game;
use duckception::room_routes::{
    enter_room, not_found_page, not_found_reply, room_method_not_allowed, room_page, room_route,
    thing_reply, try_enter_room, web_file_location, web_file_reply, RoomAction,
};

fn describe(a: RoomAction) -> String {
    match a {
        RoomAction::WebSocket => "ws".to_string(),
        RoomAction::JoinRoom(r) => format!("join {}", r),
        RoomAction::Nothing => "nothing".to_string(),
        RoomAction::WebFile(f) => format!("file {}", f),
        RoomAction::NotFound => "404".to_string(),
        RoomAction::Thing => "thing".to_string(),
        RoomAction::NotFoundPage => "404 page".to_string(),
        RoomAction::MethodNotAllowed => "405".to_string(),
    }
}

#[test]
fn room_routes() {
    assert_eq!(describe(room_route("GET", "/ws")), "ws");
    assert_eq!(describe(room_route("GET", "/room/lobby")), "join lobby");
    assert_eq!(describe(room_route("GET", "/room")), "nothing");
    assert_eq!(describe(room_route("GET", "/room/a/b")), "nothing");
    assert_eq!(describe(room_route("GET", "/web/app.js")), "file app.js");
    assert_eq!(describe(room_route("GET", "/web/index.html")), "404");
    assert_eq!(describe(room_route("GET", "/web/.html")), "404");
    assert_eq!(describe(room_route("GET", "/web/page.htm")), "file page.htm");
    assert_eq!(describe(room_route("GET", "/action/thing")), "thing");
    assert_eq!(describe(room_route("GET", "/action/thing/more")), "thing");
    assert_eq!(describe(room_route("GET", "/action/other")), "nothing");
    assert_eq!(describe(room_route("GET", "/")), "404 page");
    assert_eq!(describe(room_route("PUT", "/room/lobby")), "405");
}

#[test]
fn web_files_live_under_dist() {
    assert_eq!(web_file_location("app.js"), "dist/app.js");
}

#[test]
fn known_player_enters_without_cookie() {
    let mut games = new_game();
    let cookie = enter_room(&mut games, "lobby", Some("936DA01F9ABD4D9D80C702AF85C822A8".to_string()));
    assert!(cookie.is_none());
    assert_eq!(games.room("lobby").unwrap().players[0].id, "936da01f-9abd-4d9d-80c7-02af85c822a8");
}

#[test]
fn unreadable_known_id_is_refused() {
    let mut games = new_game();
    assert_eq!(try_enter_room(&mut games, "lobby", Some("p1".to_string())), None);
    assert!(games.room("lobby").is_none());
    let ok = try_enter_room(&mut games, "lobby", Some("67e55044-10b1-426f-9247-bb680e5fe0c8".to_string()));
    assert_eq!(ok, Some(None));
    assert_eq!(games.room("lobby").unwrap().players[0].id, "67e55044-10b1-426f-9247-bb680e5fe0c8");
}

#[test]
fn room_web_file_replies() {
    let found = web_file_reply("app.js", Some(b"x".to_vec()));
    assert_eq!(found.status, 200);
    assert_eq!(found.headers[0].0, "content-type");
    assert_ne!(found.headers[0].1, "app.js");
    assert_eq!(found.body, b"x".to_vec());
    let missing = web_file_reply("app.js", None);
    assert_eq!((missing.status, missing.headers.len(), missing.body.len()), (404, 0, 0));
    let html = not_found_reply();
    assert_eq!((html.status, html.headers.len(), html.body.len()), (404, 0, 0));
}

#[test]
fn new_player_gets_a_cookie() {
    let mut games = new_game();
    let cookie = enter_room(&mut games, "lobby", None).expect("cookie");
    let id = games.room("lobby").unwrap().players[0].id.clone();
    assert_eq!(cookie, format!("user_id={}; SameSite=Strict; HttpOnly=true; Path=/;", id));
    assert_eq!(id.len(), 36);
}

#[test]
fn room_page_reply() {
    let r = room_page(Some("c".to_string()), Some(b"page".to_vec()));
    assert_eq!(r.status, 200);
    assert_eq!(r.headers, vec![("set-cookie".to_string(), "c".to_string())]);
    assert_eq!(r.body, b"page".to_vec());
    let bare = room_page(None, None);
    assert!(bare.headers.is_empty() && bare.body.is_empty());
}

#[test]
fn fixed_replies() {
    assert_eq!(thing_reply().body, b"thing endpoint hit!".to_vec());
    let p = not_found_page(Some(b"gone".to_vec()));
    assert_eq!((p.status, p.body), (200, b"gone".to_vec()));
    let m = room_method_not_allowed();
    assert_eq!(m.status, 405);
    assert_eq!(m.headers, vec![("allow".to_string(), "GET, POST".to_string())]);
}

#[test]
fn room_needs_exactly_three_pieces() {
    for (path, joins) in [("/room/a", true), ("/room/", true), ("/room/a/", false), ("/room", false)] {
        let pieces: Vec<&str> = path.split('/').collect();
        assert_eq!(pieces.len() == 3, joins);
        assert_eq!(matches!(room_route("GET", path), RoomAction::JoinRoom(_)), joins);
    }
}
