# duckception

The server side of an online Mafia/Werewolf party game, with its logic
verified by Verus.

- `src/` is the verified library:
  - `game` — rooms and players; joining a room (`join_game`) and the laws it keeps.
  - `session` — reading the `session=<room>:<player id>` cookie.
  - `user_id` — player ids as canonical UUID text.
  - `headers` — request headers as plain values; `header_match`.
  - `web` — routing of the game server, its replies, the WebSocket
    handshake decision and the numbered echo of WebSocket text messages.
  - `room_routes` — the room-based front end (`/room/<name>`, `user_id` cookie).
  - `terminal` — the terminal client's state and texts.
  - `text` — searching text and writing numbers in decimal.
- `app/` is the program around it: the hyper server, file reads, the
  WebSocket connection and the `tui` terminal client (`app terminal`).
- `tests/` runs the library on concrete values.
