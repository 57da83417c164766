//! The room-based front end of the game server: players enter a room under
//! `/room/<name>` and are remembered by a `user_id` cookie; static files are
//! served under `/web/`, with HTML pages kept out.

use vstd::prelude::*;
use crate::game::{joined, join_game, Games};
use crate::text::{
    chars_of, find_char, first_index, is_text, lemma_first_index, lemma_split_nonempty, split_on,
    string_of,
};
use crate::user_id::{
    hyphenated_uuid, is_random_uuid, make_user_id, parse_uuid, uuid_from_text, uuid_text,
};
use crate::web::{
    first_segment, guessed_media_type, has_tail, header_pairs, law_path_pieces, path_tail,
    resource_reply, split_path, Reply,
};

verus! {

/// What the room front end does with a request.
pub enum RoomAction {
    /// Open a WebSocket connection.
    WebSocket,
    /// Let the requester join the room with this name, then send the index page.
    JoinRoom(String),
    /// Reply with an empty page.
    Nothing,
    /// Send the static file with this name, or 404 if it cannot be read.
    WebFile(String),
    /// Reply 404 with an empty body.
    NotFound,
    /// Answer the `thing` action.
    Thing,
    /// Send the not-found page.
    NotFoundPage,
    /// Refuse the method.
    MethodNotAllowed,
}

/// `s` ends with `.html`.
pub open spec fn is_html_name(s: Seq<char>) -> bool {
    s.len() >= 5 && s.subrange(s.len() - 5, s.len() as int) == ".html"@
}

/// Every name made of anything followed by `.html` is an HTML page, `/`s
/// and all, and every HTML page is some name followed by `.html`.
pub proof fn law_html_names(stem: Seq<char>, name: Seq<char>)
    ensures
        is_html_name(stem + ".html"@),
        is_html_name(name) ==> name == name.subrange(0, name.len() - 5) + ".html"@,
{
    reveal_strlit(".html");
    let full = stem + ".html"@;
    assert(full.subrange(full.len() - 5, full.len() as int) =~= ".html"@);
    if is_html_name(name) {
        assert(name =~= name.subrange(0, name.len() - 5) + name.subrange(name.len() - 5, name.len() as int));
    }
}

/// The third segment of `path` (what follows the second `/`, up to the
/// next `/`).
pub open spec fn second_segment(path: Seq<char>) -> Seq<char> {
    let tail = path_tail(path);
    tail.subrange(0, first_index(tail, '/'))
}

/// In terms of the path's pieces (cut at every `/`): there are exactly
/// three pieces when the path has a second `/` and no third, and then the
/// third piece is the whole tail; and the third piece, where there is one,
/// is the second segment.
pub proof fn law_room_pieces(path: Seq<char>)
    requires
        first_index(path, '/') < path.len(),
    ensures
        (split_on(path, '/').len() == 3) == (has_tail(path) && first_index(path_tail(path), '/')
            == path_tail(path).len()),
        has_tail(path) ==> split_on(path, '/')[2] == second_segment(path),
{
    law_path_pieces(path);
    let pieces = split_on(path, '/');
    if has_tail(path) {
        let tail = path_tail(path);
        lemma_first_index(tail, '/');
        lemma_split_nonempty(tail, '/');
        assert(pieces[2] == pieces.subrange(2, pieces.len() as int)[0]);
        if first_index(tail, '/') < tail.len() {
            lemma_split_nonempty(tail.subrange(first_index(tail, '/') + 1, tail.len() as int), '/');
        } else {
            assert(tail.subrange(0, tail.len() as int) =~= tail);
        }
    }
}

/// Whether `s` ends with `.html`.
fn ends_with_html(s: &String) -> (r: bool)
    ensures
        r == is_html_name(s@),
{
    let chars = chars_of(s.as_str());
    let n = chars.len();
    if n < 5 {
        return false;
    }
    let last = string_of(&chars, n - 5, n);
    is_text(&last, ".html")
}

/// Routes a request: `GET /ws` opens a WebSocket; `GET /room/<name>` (with
/// nothing after the name) joins room `<name>`, and any other `/room` path
/// gets an empty page; `GET /web/<name>` serves the static file `<name>`
/// unless it is an HTML page, which gets 404; `GET /action/thing` answers
/// the `thing` action and any other action an empty page; every other
/// `GET` gets the not-found page; other methods are refused.
pub fn room_route(method: &str, path: &str) -> (action: RoomAction)
    requires
        method@ == "GET"@ ==> first_index(path@, '/') < path@.len(),
        method@ == "GET"@ && first_segment(path@) == "action"@ ==> has_tail(path@),
    ensures
        method@ != "GET"@ ==> action is MethodNotAllowed,
        method@ == "GET"@ ==> {
            let segment = first_segment(path@);
            let tail = path_tail(path@);
            if segment == "ws"@ {
                action is WebSocket
            } else if segment == "room"@ {
                if has_tail(path@) && first_index(tail, '/') == tail.len() {
                    action matches RoomAction::JoinRoom(room) && room@ == tail
                } else {
                    action is Nothing
                }
            } else if segment == "web"@ {
                if is_html_name(tail) {
                    action is NotFound
                } else {
                    action matches RoomAction::WebFile(name) && name@ == tail
                }
            } else if segment == "action"@ {
                if second_segment(path@) == "thing"@ {
                    action is Thing
                } else {
                    action is Nothing
                }
            } else {
                action is NotFoundPage
            }
        },
{
    if method.to_owned() != "GET".to_owned() {
        return RoomAction::MethodNotAllowed;
    }
    let parts = split_path(path);
    if is_text(&parts.segment, "ws") {
        RoomAction::WebSocket
    } else if is_text(&parts.segment, "room") {
        let tail_chars = chars_of(parts.tail.as_str());
        let n = tail_chars.len();
        assert(tail_chars@.subrange(0, n as int) =~= tail_chars@);
        if parts.has_tail && find_char(&tail_chars, 0, n, '/') == n {
            RoomAction::JoinRoom(parts.tail)
        } else {
            RoomAction::Nothing
        }
    } else if is_text(&parts.segment, "web") {
        if ends_with_html(&parts.tail) {
            RoomAction::NotFound
        } else {
            RoomAction::WebFile(parts.tail)
        }
    } else if is_text(&parts.segment, "action") {
        let tail_chars = chars_of(parts.tail.as_str());
        let n = tail_chars.len();
        assert(tail_chars@.subrange(0, n as int) =~= tail_chars@);
        let end = find_char(&tail_chars, 0, n, '/');
        let action = string_of(&tail_chars, 0, end);
        if is_text(&action, "thing") {
            RoomAction::Thing
        } else {
            RoomAction::Nothing
        }
    } else {
        RoomAction::NotFoundPage
    }
}

/// The file that holds the web file `name`: `dist/<name>`.
pub fn web_file_location(name: &str) -> (location: String)
    ensures
        location@ == "dist/"@ + name@,
{
    let mut location = "dist/".to_owned();
    location.append(name);
    location
}

/// The reply to `GET /web/<name>` for a file that is not an HTML page,
/// given the file's contents, or `None` when it could not be read: the
/// contents with the media type guessed from the requested name, or 404
/// with an empty body.
pub fn web_file_reply(name: &str, contents: Option<Vec<u8>>) -> (reply: Reply)
    ensures
        match contents {
            Some(file) => {
                &&& reply.status == 200
                &&& header_pairs(&reply) == seq![("content-type"@, guessed_media_type(name@))]
                &&& reply.body@ == file@
            },
            None => reply.status == 404 && reply.headers@.len() == 0 && reply.body@.len() == 0,
        },
{
    resource_reply(name, contents)
}

/// The reply to a request for an HTML page under `/web/`: 404 with no
/// headers and an empty body.
pub fn not_found_reply() -> (reply: Reply)
    ensures
        reply.status == 404,
        reply.headers@.len() == 0,
        reply.body@.len() == 0,
{
    Reply { status: 404, headers: Vec::new(), body: Vec::new() }
}

/// The cookie that remembers a player id:
/// `user_id=<id>; SameSite=Strict; HttpOnly=true; Path=/;`.
pub open spec fn user_id_cookie(id: Seq<char>) -> Seq<char> {
    "user_id="@ + id + "; SameSite=Strict; HttpOnly=true; Path=/;"@
}

/// Lets a requester enter room `room`. A requester whose player id is known
/// (as text that reads as a UUID) joins under that id in canonical form;
/// any other gets a fresh random id and the cookie to set for it.
pub fn enter_room(games: &mut Games, room: &str, known_id: Option<String>) -> (new_cookie: Option<String>)
    requires
        known_id matches Some(text) ==> uuid_from_text(text@) is Some,
    ensures
        match known_id {
            Some(text) => new_cookie is None && final(games)@ == joined(
                old(games)@,
                room@,
                hyphenated_uuid(uuid_from_text(text@).unwrap()),
            ),
            None => exists|value: u128| #[trigger] is_random_uuid(value) && {
                &&& new_cookie matches Some(c) && c@ == user_id_cookie(hyphenated_uuid(value))
                &&& final(games)@ == joined(old(games)@, room@, hyphenated_uuid(value))
            },
        },
{
    match known_id {
        Some(text) => {
            let value = parse_uuid(text.as_str()).unwrap();
            let id = uuid_text(value);
            join_game(games, id, room);
            None
        },
        None => {
            let id = make_user_id();
            let ghost value = choose|value: u128| #[trigger] is_random_uuid(value) && id@ == hyphenated_uuid(value);
            let mut cookie = "user_id=".to_owned();
            cookie.append(id.as_str());
            cookie.append("; SameSite=Strict; HttpOnly=true; Path=/;");
            join_game(games, id, room);
            assert(is_random_uuid(value) && cookie@ == user_id_cookie(hyphenated_uuid(value)));
            Some(cookie)
        },
    }
}

/// `enter_room`, for any known id text: `None`, with the rooms unchanged,
/// where the known id does not read as a UUID.
pub fn try_enter_room(games: &mut Games, room: &str, known_id: Option<String>) -> (outcome: Option<Option<String>>)
    ensures
        match known_id {
            Some(text) => match uuid_from_text(text@) {
                Some(value) => outcome == Some(None::<String>) && final(games)@ == joined(
                    old(games)@,
                    room@,
                    hyphenated_uuid(value),
                ),
                None => outcome is None && final(games)@ == old(games)@,
            },
            None => exists|value: u128| #[trigger] is_random_uuid(value) && {
                &&& outcome matches Some(Some(c)) && c@ == user_id_cookie(hyphenated_uuid(value))
                &&& final(games)@ == joined(old(games)@, room@, hyphenated_uuid(value))
            },
        },
{
    let readable = match &known_id {
        Some(text) => parse_uuid(text.as_str()).is_some(),
        None => true,
    };
    if readable {
        Some(enter_room(games, room, known_id))
    } else {
        None
    }
}

/// The page for a requester who entered a room: status 200, the cookie to
/// set if there is one, and the index page (empty if it could not be read).
pub fn room_page(new_cookie: Option<String>, index: Option<Vec<u8>>) -> (reply: Reply)
    ensures
        reply.status == 200,
        match new_cookie {
            Some(c) => header_pairs(&reply) == seq![("set-cookie"@, c@)],
            None => reply.headers@.len() == 0,
        },
        match index {
            Some(page) => reply.body@ == page@,
            None => reply.body@.len() == 0,
        },
{
    let mut headers = Vec::new();
    match new_cookie {
        Some(c) => {
            let ghost cv = c@;
            headers.push(("set-cookie".to_owned(), c));
            assert(headers@.map_values(|h: (String, String)| (h.0@, h.1@)) =~= seq![("set-cookie"@, cv)]);
        },
        None => {},
    }
    let body = match index {
        Some(page) => page,
        None => Vec::new(),
    };
    Reply { status: 200, headers, body }
}

/// The answer to the `thing` action: status 200 with a short text.
pub fn thing_reply() -> (reply: Reply)
    ensures
        reply.status == 200,
        reply.headers@.len() == 0,
        reply.body@ == vstd::utf8::encode_utf8("thing endpoint hit!"@),
{
    let text = "thing endpoint hit!";
    Reply { status: 200, headers: Vec::new(), body: text.as_bytes_vec() }
}

/// The reply to a request that names nothing: status 200 with the
/// not-found page, or an empty body if it could not be read.
pub fn not_found_page(page: Option<Vec<u8>>) -> (reply: Reply)
    ensures
        reply.status == 200,
        reply.headers@.len() == 0,
        match page {
            Some(p) => reply.body@ == p@,
            None => reply.body@.len() == 0,
        },
{
    match page {
        Some(p) => Reply { status: 200, headers: Vec::new(), body: p },
        None => Reply { status: 200, headers: Vec::new(), body: Vec::new() },
    }
}

/// The reply to a method other than `GET`: 405 with `allow: GET, POST`.
pub fn room_method_not_allowed() -> (reply: Reply)
    ensures
        reply.status == 405,
        header_pairs(&reply) == seq![("allow"@, "GET, POST"@)],
        reply.body@.len() == 0,
{
    let mut headers = Vec::new();
    headers.push(("allow".to_owned(), "GET, POST".to_owned()));
    let reply = Reply { status: 405, headers, body: Vec::new() };
    assert(header_pairs(&reply) =~= seq![("allow"@, "GET, POST"@)]);
    reply
}

} // verus!
