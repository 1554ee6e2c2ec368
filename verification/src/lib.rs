//! Port forwarding between machines you own, decided without touching a network.
//!
//! The crate holds every decision the daemon makes: who is admitted, which port
//! is granted to whom, where a peer's ports are bound, how a name is answered,
//! and what a control request does. Each decision is a verified function over
//! in-memory state. The shell under `app/` performs the IO the decisions ask for.

pub mod text;
pub mod order;
pub mod key;
pub mod addr;
pub mod grants;
pub mod roster;
pub mod enroll;
pub mod protocol;
pub mod session;
pub mod history;
pub mod invite;
pub mod surface;
pub mod resolver;
pub mod netstack;
pub mod index;
pub mod effect;
pub mod table;
pub mod peer;
pub mod tunnel;
pub mod link;
pub mod daemon;
pub mod startup;
pub mod handshake;
pub mod client;
pub mod commands;
