//! Why an operation was refused. A refused operation changes nothing.
use vstd::prelude::*;

verus! {

/// The reasons an operation is rejected.
#[derive(Clone, Copy, Debug, PartialEq, Eq, Structural)]
pub enum Error {
    /// No room has the given id.
    NoSuchRoom,
    /// No project has the given id, or the caller cannot see it.
    NoSuchProject,
    /// The project has no worktree with the given id.
    NoSuchWorktree,
    /// No outstanding call matches.
    NoSuchPendingCall,
    /// No relationship exists between the two users.
    NoSuchContact,
    /// No contact request matches.
    NoSuchContactRequest,
    /// The user already holds a row in a room.
    AlreadyInRoom,
    /// The connection already answers for a participant.
    ConnectionInUse,
    /// The connection has not joined the room.
    NotInRoom,
    /// The operation names a room other than the one the caller is in.
    UnexpectedRoom,
    /// Only the host connection of the project may do this.
    NotHost,
    /// The connection does not take part in the project.
    NotACollaborator,
    /// The connection takes part in the project already.
    AlreadyCollaborator,
    /// The same entry id was given twice in one update.
    DuplicateEntry,
    /// The same worktree id was given twice.
    DuplicateWorktree,
    /// The contact was requested already, or is already accepted.
    ContactAlreadyRequested,
    /// A user cannot be their own contact.
    SameUser,
    /// No further identifier can be issued.
    IdsExhausted,
}

impl Error {
    /// Whether the error says that something was not found, as opposed to a
    /// failed precondition.
    pub fn is_not_found(&self) -> (r: bool)
        ensures
            r == (*self is NoSuchRoom || *self is NoSuchProject || *self is NoSuchWorktree
                || *self is NoSuchContact),
    {
        match self {
            Error::NoSuchRoom | Error::NoSuchProject | Error::NoSuchWorktree | Error::NoSuchContact => true,
            _ => false,
        }
    }
}

} // verus!
