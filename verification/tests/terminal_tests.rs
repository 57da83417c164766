use duckception::terminal::{message_line, server_url, title_text, AppState, InputMode};

#[test]
fn app_state_starts_normal() {
    let s = AppState::default();
    assert_eq!(s.input, "Test");
    assert!(matches!(s.input_mode, InputMode::Normal));
    assert!(s.messages.is_empty());
}

#[test]
fn client_texts() {
    assert_eq!(server_url("localhost"), "ws://localhost:7878/ws");
    assert_eq!(title_text(0), " Duckception Terminal Client 0 ");
    assert_eq!(title_text(1234), " Duckception Terminal Client 1234 ");
    assert_eq!(message_line(3, "hi"), "3: hi");
    assert_eq!(message_line(10, ""), "10: ");
}
