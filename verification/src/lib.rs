//! A session backend for real-time multiplayer games: clients join a queue,
//! are grouped into fixed-size lobbies, confirm, and then play in a session
//! whose state changes once per tick and is shown to each member as far as
//! that member may see it.
//!
//! The store (`store`, with its value in `model`) keeps participants and
//! sessions; `matchmaking`, `update` and `schedule` are the steps of a tick
//! and their fixed order, `hub` the queues of one server. `order` and
//! `grouping` are the matchmaker's arithmetic. `ws` decides for the
//! server's side of a connection, `client` and `url` for the client's.
//! `membership` and `consistency` hold what is proved of every tick.

pub mod account;
pub mod client;
pub mod consistency;
pub mod data;
pub mod entity;
pub mod grouping;
pub mod hidden;
pub mod hub;
pub mod info;
pub mod matchmaking;
pub mod membership;
pub mod model;
pub mod msg;
pub mod order;
pub mod places;
pub mod queue;
pub mod schedule;
pub mod send;
pub mod state;
pub mod store;
pub mod time;
pub mod token;
pub mod update;
pub mod url;
pub mod ws;
