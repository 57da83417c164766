//! The terminal client's state and the text it shows.

use vstd::prelude::*;
use crate::text::{decimal, push_decimal};

verus! {

/// Whether the client is reading commands or editing its input line.
pub enum InputMode {
    Normal,
    Editing,
}

/// What the terminal client shows: the input line, the input mode and the
/// messages received so far.
pub struct AppState {
    pub input: String,
    pub input_mode: InputMode,
    pub messages: Vec<String>,
}

impl Default for AppState {
    /// A client in normal mode, with the input line `Test` and no messages.
    fn default() -> (state: AppState)
        ensures
            state.input@ == "Test"@,
            state.input_mode is Normal,
            state.messages@.len() == 0,
    {
        AppState { input: "Test".to_owned(), input_mode: InputMode::Normal, messages: Vec::new() }
    }
}

/// The address of the game server's WebSocket on `host`:
/// `ws://<host>:7878/ws`.
pub fn server_url(host: &str) -> (url: String)
    ensures
        url@ == "ws://"@ + host@ + ":7878/ws"@,
{
    let mut url = "ws://".to_owned();
    url.append(host);
    url.append(":7878/ws");
    url
}

/// The title line of frame `frame`: ` Duckception Terminal Client <frame> `.
pub fn title_text(frame: u32) -> (title: String)
    ensures
        title@ == " Duckception Terminal Client "@ + decimal(frame as nat) + " "@,
{
    let mut title = " Duckception Terminal Client ".to_owned();
    push_decimal(&mut title, frame as u64);
    title.append(" ");
    title
}

/// The line that shows the `index`-th message: `<index>: <message>`.
pub fn message_line(index: usize, message: &str) -> (line: String)
    ensures
        line@ == decimal(index as nat) + ": "@ + message@,
{
    let mut line = String::new();
    push_decimal(&mut line, index as u64);
    line.append(": ");
    line.append(message);
    proof {
        assert(Seq::<char>::empty() + decimal(index as nat) =~= decimal(index as nat));
    }
    line
}

} // verus!
