//! Coordination state for collaborative sessions: rooms and calls, shared
//! projects and their worktrees, and the contact graph between users.
//!
//! The state is a set of tables in a [`schema::Db`]. Each operation is one
//! method on it and runs as a unit: it either applies all of its changes and
//! returns the view that the affected connections must receive, or it is
//! refused with an [`error::Error`] and changes nothing. Every operation keeps
//! the invariants of [`schema::Db::wf`]: one participant row per user, unique
//! answering connections, unique replica ids per project with the host at 0,
//! unique worktree ids per project, and one ordered row per pair of contacts.
//!
//! [`retry`] decides when a unit of work that the store rejected with a
//! serialization conflict runs again; [`laws`] states properties that span
//! several operations.

pub mod ids;
pub mod schema;
pub mod error;
pub mod rooms;
pub mod projects;
pub mod cascade;
pub mod contacts;
pub mod retry;
pub mod position;
pub mod highlight;
pub mod laws;
pub mod users;
