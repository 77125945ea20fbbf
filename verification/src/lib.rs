use vstd::prelude::*;

pub mod protocol;
pub mod tracking;
pub mod connection;
pub mod endpoint;
pub mod event;
pub mod lobby;
pub mod simulation;
pub mod history;
pub mod server;
pub mod delay;
pub mod session;
pub mod menu;

verus! {
}
