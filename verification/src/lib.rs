//! A typed message dispatch loop for one peer connection.
//!
//! The loop pulls decoded messages from a connection and routes each to an
//! application-supplied [`Handler`]; failures to receive or decode go to the
//! handler's error hook, which decides whether the loop goes on.
//!
//! The decisions of the loop are a small state machine ([`machine`]). What
//! its runs look like is worked out in [`trace`], and what the loop
//! guarantees is proved of every run in [`guarantees`]. [`Listener`] binds a
//! [`Handler`] to the machine, and [`PeerSocket`] says how this side of the
//! connection is set up.

pub mod guarantees;
pub mod handler;
pub mod listener;
pub mod machine;
pub mod socket;
pub mod trace;

pub use handler::Handler;
pub use listener::Listener;
pub use machine::{step, Action, Event, Phase};
pub use socket::{connect_flag, listen_flag, PeerSocket};
