//! Room and player bookkeeping, request routing and message handling for
//! an online Mafia/Werewolf party game server.

pub mod game;
pub mod headers;
pub mod room_routes;
pub mod session;
pub mod terminal;
pub mod text;
pub mod user_id;
pub mod web;
