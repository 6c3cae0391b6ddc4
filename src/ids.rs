//! Identifier domains. Each is its own type so that a value of one domain
//! cannot stand where another is expected.
use vstd::prelude::*;

verus! {

/// A registered user.
#[derive(Clone, Copy, Debug, Default, PartialEq, Eq, Structural, PartialOrd, Ord, Hash)]
pub struct UserId(pub i32);

/// A room: a live multi-user session.
#[derive(Clone, Copy, Debug, Default, PartialEq, Eq, Structural, PartialOrd, Ord, Hash)]
pub struct RoomId(pub i32);

/// A project shared into a room.
#[derive(Clone, Copy, Debug, Default, PartialEq, Eq, Structural, PartialOrd, Ord, Hash)]
pub struct ProjectId(pub i32);

/// A collaborator's editing replica within one project.
#[derive(Clone, Copy, Debug, Default, PartialEq, Eq, Structural, PartialOrd, Ord, Hash)]
pub struct ReplicaId(pub i32);

/// A worktree of a project.
#[derive(Clone, Copy, Debug, Default, PartialEq, Eq, Structural, PartialOrd, Ord, Hash)]
pub struct WorktreeId(pub i32);

/// A language server running for a project.
#[derive(Clone, Copy, Debug, Default, PartialEq, Eq, Structural, PartialOrd, Ord, Hash)]
pub struct LanguageServerId(pub i32);

/// One live network connection, supplied by the transport.
#[derive(Clone, Copy, Debug, Default, PartialEq, Eq, Structural, PartialOrd, Ord, Hash)]
pub struct ConnectionId(pub u32);

} // verus!
