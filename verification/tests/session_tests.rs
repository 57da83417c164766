use duckception::game::make_user_id;
use duckception::session::{get_session, try_get_session};

#[test]
fn session_cookie_gives_room_and_canonical_id() {
    let (room, id) = get_session("session=lobby:936DA01F-9ABD-4D9D-80C7-02AF85C822A8");
    assert_eq!(room, "lobby");
    assert_eq!(id, "936da01f-9abd-4d9d-80c7-02af85c822a8");
}

#[test]
fn session_cookie_among_others() {
    let (room, id) =
        get_session("theme=dark; session=r1:67e55044-10b1-426f-9247-bb680e5fe0c8; lang=en");
    assert_eq!(room, "r1");
    assert_eq!(id, "67e55044-10b1-426f-9247-bb680e5fe0c8");
}

#[test]
fn simple_uuid_form_is_written_hyphenated() {
    let (room, id) = get_session("session=den:936DA01F9ABD4D9D80C702AF85C822A8");
    assert_eq!(room, "den");
    assert_eq!(id, "936da01f-9abd-4d9d-80c7-02af85c822a8");
}

#[test]
fn id_ends_at_the_next_colon() {
    let (room, id) = get_session("session=den:67e55044-10b1-426f-9247-bb680e5fe0c8:extra");
    assert_eq!(room, "den");
    assert_eq!(id, "67e55044-10b1-426f-9247-bb680e5fe0c8");
}

#[test]
fn empty_room_name() {
    let (room, id) = get_session("session=:67e55044-10b1-426f-9247-bb680e5fe0c8");
    assert_eq!(room, "");
    assert_eq!(id, "67e55044-10b1-426f-9247-bb680e5fe0c8");
}

#[test]
fn non_ascii_room_name() {
    let (room, _) = get_session("session=caf\u{e9}:67e55044-10b1-426f-9247-bb680e5fe0c8");
    assert_eq!(room, "caf\u{e9}");
}

#[test]
fn no_session_cookie_gives_empty_pair() {
    assert_eq!(get_session(""), ("", String::new()));
    assert_eq!(get_session("theme=dark"), ("", String::new()));
    assert_eq!(get_session("session=;"), ("", String::new()));
    assert_eq!(get_session("session="), ("", String::new()));
}

#[test]
fn first_session_cookie_wins() {
    let (room, _) = get_session(
        "session=;session=a:67e55044-10b1-426f-9247-bb680e5fe0c8; session=b:67e55044-10b1-426f-9247-bb680e5fe0c8",
    );
    assert_eq!(room, "a");
}

#[test]
fn cookie_without_separator_is_refused() {
    assert!(try_get_session("session=lobby").is_none());
}

#[test]
fn cookie_with_bad_id_is_refused() {
    assert!(try_get_session("session=lobby:not-a-uuid").is_none());
    assert!(try_get_session("session=lobby:").is_none());
}

#[test]
fn try_get_session_agrees_with_get_session() {
    let cookie = "session=lobby:936DA01F-9ABD-4D9D-80C7-02AF85C822A8";
    assert_eq!(try_get_session(cookie), Some(get_session(cookie)));
    assert_eq!(try_get_session("theme=dark"), Some(("", String::new())));
}

#[test]
fn made_user_id_survives_the_cookie() {
    let id = make_user_id();
    let cookie = format!("session=hall:{}", id);
    let (room, read) = get_session(&cookie);
    assert_eq!(room, "hall");
    assert_eq!(read, id);
}

#[test]
fn written_session_cookie_reads_back() {
    let id = make_user_id();
    let cookie = format!("session={}:{}; SameSite=Strict; HttpOnly=true; Path=/;", "den", id);
    assert_eq!(get_session(&cookie), ("den", id.clone()));
    assert_eq!(try_get_session(&cookie), Some(("den", id)));
}
