//! Rooms and calls: pending and joined participation, the calls between
//! users, where each participant is, and the room view every change returns.
use vstd::prelude::*;
use crate::error::Error;
use crate::ids::{ConnectionId, ProjectId, RoomId, UserId};
use crate::schema::{
    lemma_filter_from, lemma_filter_pairwise, lemma_filter_step, lemma_push_pairwise,
    lemma_update_pairwise, participants_ok, rooms_ok, retain, room_exists, same_projects,
    same_rooms, Db, ParticipantRow, ProjectRow, Room, WorktreeRow,
};

verus! {

broadcast use vstd::seq_lib::group_filter_ensures;

/// Where a joined participant is.
#[derive(Clone, Copy, Debug, PartialEq, Eq, Structural)]
pub enum ParticipantLocation {
    /// Viewing a project shared into the room.
    SharedProject { project_id: ProjectId },
    /// Viewing a project that is not shared.
    UnsharedProject,
    /// Outside the editor.
    External,
}

/// A project hosted by a participant, with the root names of its worktrees.
#[derive(Clone, Debug, PartialEq)]
pub struct ParticipantProject {
    pub id: ProjectId,
    pub worktree_root_names: Vec<String>,
}

/// A participant who has joined.
#[derive(Clone, Debug, PartialEq)]
pub struct Participant {
    pub user_id: UserId,
    pub peer_id: ConnectionId,
    pub projects: Vec<ParticipantProject>,
    pub location: ParticipantLocation,
}

/// A user who was called and has not answered.
#[derive(Clone, Copy, Debug, PartialEq, Eq, Structural)]
pub struct PendingParticipant {
    pub user_id: UserId,
    pub calling_user_id: UserId,
    pub initial_project_id: Option<ProjectId>,
}

/// A room as its members see it.
#[derive(Clone, Debug, PartialEq)]
pub struct RoomView {
    pub id: RoomId,
    pub live_kit_room: String,
    pub participants: Vec<Participant>,
    pub pending_participants: Vec<PendingParticipant>,
}

/// Joined rows of the room.
pub open spec fn joined_in(room_id: RoomId) -> spec_fn(ParticipantRow) -> bool {
    |p: ParticipantRow| p.room_id == room_id && p.answering_connection_id is Some
}

/// Pending rows of the room.
pub open spec fn pending_in(room_id: RoomId) -> spec_fn(ParticipantRow) -> bool {
    |p: ParticipantRow| p.room_id == room_id && p.answering_connection_id is None
}

/// Projects of the room hosted by the connection.
pub open spec fn hosted_in(room_id: RoomId, conn: ConnectionId) -> spec_fn(ProjectRow) -> bool {
    |r: ProjectRow| r.room_id == room_id && r.host_connection_id == conn
}

/// Worktrees of the project.
pub open spec fn worktree_of(project_id: ProjectId) -> spec_fn(WorktreeRow) -> bool {
    |w: WorktreeRow| w.project_id == project_id
}

/// The location stored as a kind and an optional project id: kind 0 with a
/// project is a shared project, kind 1 an unshared one, anything else external.
pub open spec fn location_from(kind: Option<i32>, project_id: Option<ProjectId>) -> ParticipantLocation {
    match (kind, project_id) {
        (Some(k), Some(id)) if k == 0 => ParticipantLocation::SharedProject { project_id: id },
        (Some(k), _) if k == 1 => ParticipantLocation::UnsharedProject,
        _ => ParticipantLocation::External,
    }
}

pub open spec fn pending_view(p: ParticipantRow) -> PendingParticipant {
    PendingParticipant {
        user_id: p.user_id,
        calling_user_id: p.calling_user_id,
        initial_project_id: p.initial_project_id,
    }
}

/// `names` lists the root names of the project's worktrees, in table order.
pub open spec fn root_names_match(worktrees: Seq<WorktreeRow>, project_id: ProjectId, names: Seq<String>) -> bool {
    let ws = worktrees.filter(worktree_of(project_id));
    &&& names.len() == ws.len()
    &&& forall|k: int| 0 <= k < names.len() ==> #[trigger] names[k] == ws[k].root_name
}

/// `ps` describes the projects `rows`, one for one.
pub open spec fn projects_match(worktrees: Seq<WorktreeRow>, ps: Seq<ParticipantProject>, rows: Seq<ProjectRow>) -> bool {
    &&& ps.len() == rows.len()
    &&& forall|k: int| 0 <= k < ps.len() ==> #[trigger] ps[k].id == rows[k].id
        && root_names_match(worktrees, rows[k].id, ps[k].worktree_root_names@)
}

/// `v` describes the joined row `p` of the room.
pub open spec fn participant_matches(db: Db, room_id: RoomId, v: Participant, p: ParticipantRow) -> bool {
    &&& v.user_id == p.user_id
    &&& p.answering_connection_id == Some(v.peer_id)
    &&& v.location == location_from(p.location_kind, p.location_project_id)
    &&& projects_match(db.worktrees@, v.projects@, db.projects@.filter(hosted_in(room_id, v.peer_id)))
}

/// `ps` lists the pending rows `rows`, one for one.
pub open spec fn pending_match(ps: Seq<PendingParticipant>, rows: Seq<ParticipantRow>) -> bool {
    &&& ps.len() == rows.len()
    &&& forall|k: int| 0 <= k < ps.len() ==> #[trigger] ps[k] == pending_view(rows[k])
}

impl Db {
    /// The stored token of the room.
    pub open spec fn token_of(&self, room_id: RoomId) -> String {
        let i = choose|i: int| 0 <= i < self.rooms@.len() && #[trigger] self.rooms@[i].id == room_id;
        self.rooms@[i].live_kit_room
    }

    /// `v` is the room as the tables hold it: its joined participants with
    /// their locations and hosted projects, and its pending participants.
    pub open spec fn room_view_matches(&self, room_id: RoomId, v: RoomView) -> bool {
        let joined = self.participants@.filter(joined_in(room_id));
        &&& v.id == room_id
        &&& v.live_kit_room == self.token_of(room_id)
        &&& v.participants@.len() == joined.len()
        &&& forall|k: int| 0 <= k < joined.len() ==> participant_matches(*self, room_id, #[trigger] v.participants@[k], joined[k])
        &&& pending_match(v.pending_participants@, self.participants@.filter(pending_in(room_id)))
    }

    /// Position of the room with this id.
    pub fn find_room(&self, room_id: RoomId) -> (r: Option<usize>)
        requires
            self.wf(),
        ensures
            match r {
                Some(i) => i < self.rooms@.len() && self.rooms@[i as int].id == room_id,
                None => !room_exists(self.rooms@, room_id),
            },
    {
        let mut i: usize = 0;
        while i < self.rooms.len()
            invariant
                i <= self.rooms@.len(),
                forall|k: int| 0 <= k < i ==> self.rooms@[k].id != room_id,
            decreases self.rooms@.len() - i,
        {
            if self.rooms[i].id == room_id {
                return Some(i);
            }
            i = i + 1;
        }
        None
    }

    /// Root names of the project's worktrees.
    fn worktree_root_names(&self, project_id: ProjectId) -> (names: Vec<String>)
        ensures
            root_names_match(self.worktrees@, project_id, names@),
    {
        let ghost s = self.worktrees@;
        let ghost p = worktree_of(project_id);
        let mut names: Vec<String> = Vec::new();
        let mut j: usize = 0;
        while j < self.worktrees.len()
            invariant
                s == self.worktrees@,
                p == worktree_of(project_id),
                j <= s.len(),
                names@.len() == s.subrange(0, j as int).filter(p).len(),
                forall|k: int| 0 <= k < names@.len() ==> #[trigger] names@[k] == s.subrange(0, j as int).filter(p)[k].root_name,
            decreases s.len() - j,
        {
            proof {
                lemma_filter_step(s, p, j as int);
            }
            if self.worktrees[j].project_id == project_id {
                names.push(self.worktrees[j].root_name.clone());
            }
            j = j + 1;
        }
        assert(s.subrange(0, s.len() as int) =~= s);
        names
    }

    /// The projects of the room hosted by the connection.
    fn hosted_projects(&self, room_id: RoomId, conn: ConnectionId) -> (ps: Vec<ParticipantProject>)
        ensures
            projects_match(self.worktrees@, ps@, self.projects@.filter(hosted_in(room_id, conn))),
    {
        let ghost s = self.projects@;
        let ghost p = hosted_in(room_id, conn);
        let mut ps: Vec<ParticipantProject> = Vec::new();
        let mut j: usize = 0;
        while j < self.projects.len()
            invariant
                s == self.projects@,
                p == hosted_in(room_id, conn),
                j <= s.len(),
                projects_match(self.worktrees@, ps@, s.subrange(0, j as int).filter(p)),
            decreases s.len() - j,
        {
            proof {
                lemma_filter_step(s, p, j as int);
            }
            let row = self.projects[j];
            if row.room_id == room_id && row.host_connection_id == conn {
                let names = self.worktree_root_names(row.id);
                ps.push(ParticipantProject { id: row.id, worktree_root_names: names });
            }
            j = j + 1;
        }
        assert(s.subrange(0, s.len() as int) =~= s);
        ps
    }

    /// The room as its members see it.
    pub fn get_room(&self, room_id: RoomId) -> (v: RoomView)
        requires
            self.wf(),
            room_exists(self.rooms@, room_id),
        ensures
            self.room_view_matches(room_id, v),
    {
        let i = self.find_room(room_id);
        let i = match i {
            Some(i) => i,
            None => { proof { assert(false); } 0 },
        };
        let token = self.rooms[i].live_kit_room.clone();
        proof {
            let c = choose|c: int| 0 <= c < self.rooms@.len() && #[trigger] self.rooms@[c].id == room_id;
            if c != i {
                assert(crate::schema::rooms_ok()(self.rooms@[c], self.rooms@[i as int]));
            }
        }
        let ghost s = self.participants@;
        let ghost pj = joined_in(room_id);
        let ghost pp = pending_in(room_id);
        let mut participants: Vec<Participant> = Vec::new();
        let mut pending: Vec<PendingParticipant> = Vec::new();
        let mut j: usize = 0;
        while j < self.participants.len()
            invariant
                s == self.participants@,
                pj == joined_in(room_id),
                pp == pending_in(room_id),
                j <= s.len(),
                participants@.len() == s.subrange(0, j as int).filter(pj).len(),
                forall|k: int| 0 <= k < participants@.len() ==> participant_matches(*self, room_id, #[trigger] participants@[k], s.subrange(0, j as int).filter(pj)[k]),
                pending_match(pending@, s.subrange(0, j as int).filter(pp)),
            decreases s.len() - j,
        {
            proof {
                lemma_filter_step(s, pj, j as int);
                lemma_filter_step(s, pp, j as int);
            }
            let row = self.participants[j];
            if row.room_id == room_id {
                match row.answering_connection_id {
                    Some(conn) => {
                        let projects = self.hosted_projects(room_id, conn);
                        let location = resolve_location(row.location_kind, row.location_project_id);
                        participants.push(Participant { user_id: row.user_id, peer_id: conn, projects, location });
                    },
                    None => {
                        pending.push(PendingParticipant {
                            user_id: row.user_id,
                            calling_user_id: row.calling_user_id,
                            initial_project_id: row.initial_project_id,
                        });
                    },
                }
            }
            j = j + 1;
        }
        assert(s.subrange(0, s.len() as int) =~= s);
        RoomView { id: room_id, live_kit_room: token, participants, pending_participants: pending }
    }
}

/// Reads a stored location.
pub fn resolve_location(kind: Option<i32>, project_id: Option<ProjectId>) -> (l: ParticipantLocation)
    ensures
        l == location_from(kind, project_id),
{
    match (kind, project_id) {
        (Some(0), Some(id)) => ParticipantLocation::SharedProject { project_id: id },
        (Some(1), _) => ParticipantLocation::UnsharedProject,
        _ => ParticipantLocation::External,
    }
}

/// Length of the token of a new room's media room.
pub const ROOM_TOKEN_LEN: usize = 30;

/// A character of the URL-safe alphabet that room tokens are drawn from.
pub open spec fn is_token_char(c: char) -> bool {
    c == '_' || c == '-' || ('0' <= c && c <= '9') || ('a' <= c && c <= 'z') || ('A' <= c && c <= 'Z')
}

/// A token as a new room receives it.
pub open spec fn is_room_token(s: Seq<char>) -> bool {
    s.len() == ROOM_TOKEN_LEN && forall|i: int| 0 <= i < s.len() ==> is_token_char(#[trigger] s[i])
}

/// Relies on `nanoid::format` with `nanoid::rngs::default` and
/// `nanoid::alphabet::SAFE`: a random string of `size` characters of that
/// 64-character alphabet. It never returns for a size of 0, it computes
/// `8 * size`, and it panics only if the system's random source fails.
#[verifier::external_body]
fn random_token(size: usize) -> (r: String)
    requires
        0 < size <= usize::MAX / 8,
    ensures
        r@.len() == size,
        forall|i: int| 0 <= i < r@.len() ==> is_token_char(#[trigger] r@[i]),
{
    nanoid::format(nanoid::rngs::default, &nanoid::alphabet::SAFE, size)
}

/// The user holds a row in some room.
pub open spec fn has_row(rows: Seq<ParticipantRow>, user_id: UserId) -> bool {
    exists|i: int| 0 <= i < rows.len() && #[trigger] rows[i].user_id == user_id
}

/// The connection answers for a joined participant.
pub open spec fn answers(rows: Seq<ParticipantRow>, conn: ConnectionId) -> bool {
    exists|i: int| 0 <= i < rows.len() && #[trigger] rows[i].answering_connection_id == Some(conn)
}

/// The connection has joined the room as the user.
pub open spec fn joined_as(rows: Seq<ParticipantRow>, room_id: RoomId, user_id: UserId, conn: ConnectionId) -> bool {
    exists|i: int| 0 <= i < rows.len() && #[trigger] rows[i].answering_connection_id == Some(conn)
        && rows[i].room_id == room_id && rows[i].user_id == user_id
}

/// The user has an outstanding call into the room.
pub open spec fn pending_slot(rows: Seq<ParticipantRow>, room_id: RoomId, user_id: UserId) -> bool {
    exists|i: int| 0 <= i < rows.len() && #[trigger] rows[i].user_id == user_id
        && rows[i].room_id == room_id && rows[i].answering_connection_id is None
}

/// The row of a user who created a room and is in it.
pub open spec fn creator_row(room_id: RoomId, user_id: UserId, conn: ConnectionId) -> ParticipantRow {
    ParticipantRow {
        room_id,
        user_id,
        calling_user_id: user_id,
        calling_connection_id: conn,
        answering_connection_id: Some(conn),
        location_kind: None,
        location_project_id: None,
        initial_project_id: None,
    }
}

/// The row of an outstanding call.
pub open spec fn call_row(
    room_id: RoomId,
    calling_user_id: UserId,
    calling_connection_id: ConnectionId,
    called_user_id: UserId,
    initial_project_id: Option<ProjectId>,
) -> ParticipantRow {
    ParticipantRow {
        room_id,
        user_id: called_user_id,
        calling_user_id,
        calling_connection_id,
        answering_connection_id: None,
        location_kind: None,
        location_project_id: None,
        initial_project_id,
    }
}

/// A call offered to a user.
#[derive(Clone, Debug, PartialEq)]
pub struct IncomingCall {
    pub room_id: RoomId,
    pub calling_user_id: UserId,
    pub participant_user_ids: Vec<UserId>,
    pub initial_project: Option<ParticipantProject>,
}

/// Some joined participant of the room hosts the project.
pub open spec fn view_has_project(room: RoomView, project_id: ProjectId) -> bool {
    exists|a: int, b: int|
        0 <= a < room.participants@.len() && 0 <= b < room.participants@[a].projects@.len()
            && #[trigger] room.participants@[a].projects@[b].id == project_id
}

/// `c` is the call offered to `user_id` by the first pending entry for that
/// user in the room.
pub open spec fn incoming_call_of(room: RoomView, user_id: UserId, c: IncomingCall) -> bool {
    exists|k: int| {
        &&& 0 <= k < room.pending_participants@.len()
        &&& #[trigger] room.pending_participants@[k].user_id == user_id
        &&& forall|m: int| 0 <= m < k ==> room.pending_participants@[m].user_id != user_id
        &&& c.room_id == room.id
        &&& c.calling_user_id == room.pending_participants@[k].calling_user_id
        &&& c.participant_user_ids@.len() == room.participants@.len()
        &&& forall|m: int| 0 <= m < room.participants@.len() ==> #[trigger] c.participant_user_ids@[m] == room.participants@[m].user_id
        &&& match room.pending_participants@[k].initial_project_id {
            None => c.initial_project is None,
            Some(pid) => match c.initial_project {
                None => !view_has_project(room, pid),
                Some(pp) => pp.id == pid && exists|a: int, b: int|
                    0 <= a < room.participants@.len() && 0 <= b < room.participants@[a].projects@.len()
                        && #[trigger] room.participants@[a].projects@[b].id == pid
                        && pp.worktree_root_names@ == room.participants@[a].projects@[b].worktree_root_names@,
            },
        }
    }
}

/// A copy of a list of names.
fn copy_names(v: &Vec<String>) -> (r: Vec<String>)
    ensures
        r@ == v@,
{
    let mut r: Vec<String> = Vec::new();
    let mut i: usize = 0;
    while i < v.len()
        invariant
            i <= v@.len(),
            r@ == v@.subrange(0, i as int),
        decreases v@.len() - i,
    {
        r.push(v[i].clone());
        i = i + 1;
        assert(r@ =~= v@.subrange(0, i as int));
    }
    assert(v@.subrange(0, v@.len() as int) =~= v@);
    r
}

/// The project with this id among those the room's participants host.
fn find_view_project(room: &RoomView, project_id: ProjectId) -> (r: Option<ParticipantProject>)
    ensures
        match r {
            None => !view_has_project(*room, project_id),
            Some(pp) => pp.id == project_id && exists|a: int, b: int|
                0 <= a < room.participants@.len() && 0 <= b < room.participants@[a].projects@.len()
                    && #[trigger] room.participants@[a].projects@[b].id == project_id
                    && pp.worktree_root_names@ == room.participants@[a].projects@[b].worktree_root_names@,
        },
{
    let mut a: usize = 0;
    while a < room.participants.len()
        invariant
            a <= room.participants@.len(),
            forall|x: int, b: int|
                0 <= x < a && 0 <= b < room.participants@[x].projects@.len()
                    ==> #[trigger] room.participants@[x].projects@[b].id != project_id,
        decreases room.participants@.len() - a,
    {
        let projects = &room.participants[a].projects;
        let mut b: usize = 0;
        while b < projects.len()
            invariant
                a < room.participants@.len(),
                projects == &room.participants@[a as int].projects,
                b <= projects@.len(),
                forall|y: int| 0 <= y < b ==> #[trigger] projects@[y].id != project_id,
            decreases projects@.len() - b,
        {
            if projects[b].id == project_id {
                let names = copy_names(&projects[b].worktree_root_names);
                return Some(ParticipantProject { id: project_id, worktree_root_names: names });
            }
            b = b + 1;
        }
        a = a + 1;
    }
    None
}

/// The call offered to the user in this room, if the user is called into it.
pub fn build_incoming_call(room: &RoomView, called_user_id: UserId) -> (r: Option<IncomingCall>)
    ensures
        r is None <==> forall|k: int| 0 <= k < room.pending_participants@.len()
            ==> #[trigger] room.pending_participants@[k].user_id != called_user_id,
        match r {
            Some(c) => incoming_call_of(*room, called_user_id, c),
            None => true,
        },
{
    let mut k: usize = 0;
    while k < room.pending_participants.len()
        invariant
            k <= room.pending_participants@.len(),
            forall|m: int| 0 <= m < k ==> #[trigger] room.pending_participants@[m].user_id != called_user_id,
        decreases room.pending_participants@.len() - k,
    {
        let pending = room.pending_participants[k];
        if pending.user_id == called_user_id {
            let mut ids: Vec<UserId> = Vec::new();
            let mut m: usize = 0;
            while m < room.participants.len()
                invariant
                    m <= room.participants@.len(),
                    ids@.len() == m,
                    forall|x: int| 0 <= x < m ==> #[trigger] ids@[x] == room.participants@[x].user_id,
                decreases room.participants@.len() - m,
            {
                ids.push(room.participants[m].user_id);
                m = m + 1;
            }
            let initial_project = match pending.initial_project_id {
                Some(pid) => find_view_project(room, pid),
                None => None,
            };
            let c = IncomingCall {
                room_id: room.id,
                calling_user_id: pending.calling_user_id,
                participant_user_ids: ids,
                initial_project,
            };
            assert(incoming_call_of(*room, called_user_id, c)) by {
                assert(room.pending_participants@[k as int].user_id == called_user_id);
            }
            return Some(c);
        }
        k = k + 1;
    }
    None
}

/// Adding a room keeps every stored room id present.
proof fn lemma_room_exists_push(rooms: Seq<Room>, x: Room)
    ensures
        forall|id: RoomId| room_exists(rooms, id) ==> #[trigger] room_exists(rooms.push(x), id),
        room_exists(rooms.push(x), x.id),
{
    assert forall|id: RoomId| room_exists(rooms, id) implies #[trigger] room_exists(rooms.push(x), id) by {
        let j = choose|j: int| 0 <= j < rooms.len() && #[trigger] rooms[j].id == id;
        assert(rooms.push(x)[j] == rooms[j]);
    }
    assert(rooms.push(x)[rooms.len() as int] == x);
}

impl Db {
    /// Position of the row the user holds.
    pub fn find_user_row(&self, user_id: UserId) -> (r: Option<usize>)
        ensures
            match r {
                Some(i) => i < self.participants@.len() && self.participants@[i as int].user_id == user_id,
                None => !has_row(self.participants@, user_id),
            },
    {
        let mut i: usize = 0;
        while i < self.participants.len()
            invariant
                i <= self.participants@.len(),
                forall|k: int| 0 <= k < i ==> #[trigger] self.participants@[k].user_id != user_id,
            decreases self.participants@.len() - i,
        {
            if self.participants[i].user_id == user_id {
                return Some(i);
            }
            i = i + 1;
        }
        None
    }

    /// Position of the joined row the connection answers for.
    pub fn find_answering_row(&self, conn: ConnectionId) -> (r: Option<usize>)
        ensures
            match r {
                Some(i) => i < self.participants@.len() && self.participants@[i as int].answering_connection_id == Some(conn),
                None => !answers(self.participants@, conn),
            },
    {
        let mut i: usize = 0;
        while i < self.participants.len()
            invariant
                i <= self.participants@.len(),
                forall|k: int| 0 <= k < i ==> #[trigger] self.participants@[k].answering_connection_id != Some(conn),
            decreases self.participants@.len() - i,
        {
            if self.participants[i].answering_connection_id == Some(conn) {
                return Some(i);
            }
            i = i + 1;
        }
        None
    }

    /// Creates a room with the user in it, joined on the connection.
    pub fn create_room(&mut self, user_id: UserId, connection_id: ConnectionId) -> (r: Result<RoomView, Error>)
        requires
            old(self).wf(),
        ensures
            final(self).wf(),
            r is Ok <==> !has_row(old(self).participants@, user_id) && !answers(old(self).participants@, connection_id)
                && old(self).next_room_id < i32::MAX,
            match r {
                Ok(v) => {
                    let id = RoomId(old(self).next_room_id);
                    &&& final(self).rooms@.len() == old(self).rooms@.len() + 1
                    &&& final(self).rooms@.drop_last() == old(self).rooms@
                    &&& final(self).rooms@.last().id == id
                    &&& is_room_token(final(self).rooms@.last().live_kit_room@)
                    &&& final(self).next_room_id == old(self).next_room_id + 1
                    &&& final(self).participants@ == old(self).participants@.push(creator_row(id, user_id, connection_id))
                    &&& same_projects(*final(self), *old(self))
                    &&& final(self).contacts@ == old(self).contacts@
                    &&& final(self).room_view_matches(id, v)
                },
                Err(e) => {
                    &&& *final(self) == *old(self)
                    &&& e == if has_row(old(self).participants@, user_id) {
                        Error::AlreadyInRoom
                    } else if answers(old(self).participants@, connection_id) {
                        Error::ConnectionInUse
                    } else {
                        Error::IdsExhausted
                    }
                },
            },
    {
        if self.find_user_row(user_id).is_some() {
            return Err(Error::AlreadyInRoom);
        }
        if self.find_answering_row(connection_id).is_some() {
            return Err(Error::ConnectionInUse);
        }
        if self.next_room_id == i32::MAX {
            return Err(Error::IdsExhausted);
        }
        let id = RoomId(self.next_room_id);
        let token = random_token(ROOM_TOKEN_LEN);
        let ghost room = Room { id, live_kit_room: token };
        let row = ParticipantRow {
            room_id: id,
            user_id,
            calling_user_id: user_id,
            calling_connection_id: connection_id,
            answering_connection_id: Some(connection_id),
            location_kind: None,
            location_project_id: None,
            initial_project_id: None,
        };
        proof {
            let old_rooms = self.rooms@;
            assert forall|i: int| 0 <= i < old_rooms.len() implies #[trigger] rooms_ok()(old_rooms[i], room)
                && rooms_ok()(room, old_rooms[i]) by {
                assert(old_rooms[i].id.0 < self.next_room_id);
            }
            lemma_push_pairwise(old_rooms, room, rooms_ok());
            lemma_room_exists_push(old_rooms, room);
            let old_rows = self.participants@;
            assert forall|i: int| 0 <= i < old_rows.len() implies #[trigger] participants_ok()(old_rows[i], row)
                && participants_ok()(row, old_rows[i]) by {
                assert(old_rows[i].user_id != user_id);
                assert(old_rows[i].answering_connection_id != Some(connection_id));
            }
            lemma_push_pairwise(old_rows, row, participants_ok());
        }
        self.rooms.push(Room { id, live_kit_room: token });
        self.next_room_id = self.next_room_id + 1;
        self.participants.push(row);
        proof {
            assert(self.rooms@.drop_last() =~= old(self).rooms@);
            assert forall|i: int| 0 <= i < self.participants@.len() implies #[trigger] room_exists(self.rooms@, self.participants@[i].room_id) by {
                if i < old(self).participants@.len() {
                    assert(room_exists(old(self).rooms@, old(self).participants@[i].room_id));
                }
            }
            assert forall|i: int| 0 <= i < self.projects@.len() implies #[trigger] room_exists(self.rooms@, self.projects@[i].room_id) by {
                assert(room_exists(old(self).rooms@, old(self).projects@[i].room_id));
            }
        }
        Ok(self.get_room(id))
    }
}

/// Only the participant table differs between the two stores.
pub open spec fn same_except_participants(a: Db, b: Db) -> bool {
    same_rooms(a, b) && same_projects(a, b) && a.contacts@ == b.contacts@
}

/// Rows other than the user's pending row.
pub open spec fn not_pending_of(user_id: UserId) -> spec_fn(ParticipantRow) -> bool {
    |p: ParticipantRow| !(p.user_id == user_id && p.answering_connection_id is None)
}

/// Rows other than the user's pending row in the room.
pub open spec fn not_pending_in(room_id: RoomId, user_id: UserId) -> spec_fn(ParticipantRow) -> bool {
    |p: ParticipantRow| !(p.room_id == room_id && p.user_id == user_id && p.answering_connection_id is None)
}

/// The row after its user answered on the connection.
pub open spec fn answered(p: ParticipantRow, conn: ConnectionId) -> ParticipantRow {
    ParticipantRow { answering_connection_id: Some(conn), ..p }
}

/// How a location is stored: a kind (0 shared project, 1 unshared project,
/// 2 external) and, for a shared project, its id.
pub open spec fn stored_location(l: ParticipantLocation) -> (Option<i32>, Option<ProjectId>) {
    match l {
        ParticipantLocation::SharedProject { project_id } => (Some(0i32), Some(project_id)),
        ParticipantLocation::UnsharedProject => (Some(1i32), None),
        ParticipantLocation::External => (Some(2i32), None),
    }
}

/// The row after its participant moved to the location.
pub open spec fn located(p: ParticipantRow, l: ParticipantLocation) -> ParticipantRow {
    ParticipantRow { location_kind: stored_location(l).0, location_project_id: stored_location(l).1, ..p }
}

/// The user's row is pending, and in the expected room if one is named.
pub open spec fn pending_row_at(rows: Seq<ParticipantRow>, i: int, user_id: UserId) -> bool {
    0 <= i < rows.len() && rows[i].user_id == user_id && rows[i].answering_connection_id is None
}

pub open spec fn room_expected(expected: Option<RoomId>, room_id: RoomId) -> bool {
    match expected {
        Some(e) => e == room_id,
        None => true,
    }
}

/// A store whose participant table is a filter of a well-formed one is well-formed.
proof fn lemma_participants_filter_wf(a: Db, b: Db, p: spec_fn(ParticipantRow) -> bool)
    requires
        a.wf(),
        b.participants@ == a.participants@.filter(p),
        same_except_participants(a, b),
    ensures
        b.wf(),
{
    lemma_filter_pairwise(a.participants@, p, participants_ok());
    lemma_filter_from(a.participants@, p);
    assert forall|i: int| 0 <= i < b.participants@.len() implies #[trigger] room_exists(b.rooms@, b.participants@[i].room_id) by {
        assert(a.participants@.contains(b.participants@[i]));
        let j = choose|j: int| 0 <= j < a.participants@.len() && a.participants@[j] == b.participants@[i];
        assert(room_exists(a.rooms@, a.participants@[j].room_id));
    }
}

/// Replacing one participant row by one for the same user and room keeps the
/// store well-formed, as long as its answering connection stays unique.
proof fn lemma_participants_update_wf(a: Db, b: Db, k: int, x: ParticipantRow)
    requires
        a.wf(),
        0 <= k < a.participants@.len(),
        x.user_id == a.participants@[k].user_id,
        x.room_id == a.participants@[k].room_id,
        x.answering_connection_id is Some ==> forall|j: int| 0 <= j < a.participants@.len() && j != k
            ==> #[trigger] a.participants@[j].answering_connection_id != x.answering_connection_id,
        b.participants@ == a.participants@.update(k, x),
        same_except_participants(a, b),
    ensures
        b.wf(),
{
    let s = a.participants@;
    assert forall|i: int| 0 <= i < s.len() && i != k implies #[trigger] participants_ok()(s[i], x) && participants_ok()(x, s[i]) by {
        assert(participants_ok()(s[i], s[k]));
    }
    lemma_update_pairwise(s, k, x, participants_ok());
    assert forall|i: int| 0 <= i < b.participants@.len() implies #[trigger] room_exists(b.rooms@, b.participants@[i].room_id) by {
        assert(room_exists(a.rooms@, a.participants@[i].room_id));
    }
}

impl Db {
    /// Calls a user into the room. The caller must have joined the room as
    /// `calling_user_id` on `calling_connection_id`; the called user must hold
    /// no row in any room.
    pub fn call(
        &mut self,
        room_id: RoomId,
        calling_user_id: UserId,
        calling_connection_id: ConnectionId,
        called_user_id: UserId,
        initial_project_id: Option<ProjectId>,
    ) -> (r: Result<(RoomView, IncomingCall), Error>)
        requires
            old(self).wf(),
        ensures
            final(self).wf(),
            r is Ok <==> joined_as(old(self).participants@, room_id, calling_user_id, calling_connection_id)
                && !has_row(old(self).participants@, called_user_id),
            match r {
                Ok((v, c)) => {
                    &&& final(self).participants@ == old(self).participants@.push(
                        call_row(room_id, calling_user_id, calling_connection_id, called_user_id, initial_project_id))
                    &&& same_except_participants(*final(self), *old(self))
                    &&& final(self).room_view_matches(room_id, v)
                    &&& incoming_call_of(v, called_user_id, c)
                },
                Err(e) => {
                    &&& *final(self) == *old(self)
                    &&& e == if !joined_as(old(self).participants@, room_id, calling_user_id, calling_connection_id) {
                        Error::NotInRoom
                    } else {
                        Error::AlreadyInRoom
                    }
                },
            },
    {
        let ghost s = self.participants@;
        match self.find_answering_row(calling_connection_id) {
            Some(i) => {
                if !(self.participants[i].room_id == room_id && self.participants[i].user_id == calling_user_id) {
                    proof {
                        assert forall|j: int| 0 <= j < s.len() && #[trigger] s[j].answering_connection_id == Some(calling_connection_id)
                            implies j == i by {
                            if j != i {
                                assert(participants_ok()(s[i as int], s[j]));
                            }
                        }
                    }
                    return Err(Error::NotInRoom);
                }
            },
            None => {
                return Err(Error::NotInRoom);
            },
        }
        if self.find_user_row(called_user_id).is_some() {
            return Err(Error::AlreadyInRoom);
        }
        let row = ParticipantRow {
            room_id,
            user_id: called_user_id,
            calling_user_id,
            calling_connection_id,
            answering_connection_id: None,
            location_kind: None,
            location_project_id: None,
            initial_project_id,
        };
        proof {
            assert forall|i: int| 0 <= i < s.len() implies #[trigger] participants_ok()(s[i], row)
                && participants_ok()(row, s[i]) by {
                assert(s[i].user_id != called_user_id);
            }
            lemma_push_pairwise(s, row, participants_ok());
            let w = choose|w: int| 0 <= w < s.len() && #[trigger] s[w].answering_connection_id == Some(calling_connection_id)
                && s[w].room_id == room_id && s[w].user_id == calling_user_id;
            assert(room_exists(self.rooms@, s[w].room_id));
        }
        self.participants.push(row);
        proof {
            assert forall|i: int| 0 <= i < self.participants@.len() implies #[trigger] room_exists(self.rooms@, self.participants@[i].room_id) by {
                if i < s.len() {
                    assert(room_exists(self.rooms@, s[i].room_id));
                }
            }
        }
        let v = self.get_room(room_id);
        proof {
            let rows = self.participants@;
            let last = rows.len() - 1;
            assert(rows[last] == row);
            assert(pending_in(room_id)(rows[last]));
            assert(rows.filter(pending_in(room_id)).contains(rows[last]));
            let k = choose|k: int| 0 <= k < rows.filter(pending_in(room_id)).len() && rows.filter(pending_in(room_id))[k] == row;
            assert(v.pending_participants@[k].user_id == called_user_id);
        }
        match build_incoming_call(&v, called_user_id) {
            Some(c) => Ok((v, c)),
            None => {
                proof {
                    assert(false);
                }
                Err(Error::NoSuchPendingCall)
            },
        }
    }

    /// Answers the user's outstanding call into the room on the connection.
    pub fn join_room(&mut self, room_id: RoomId, user_id: UserId, connection_id: ConnectionId) -> (r: Result<RoomView, Error>)
        requires
            old(self).wf(),
        ensures
            final(self).wf(),
            r is Ok <==> pending_slot(old(self).participants@, room_id, user_id) && !answers(old(self).participants@, connection_id),
            match r {
                Ok(v) => {
                    &&& exists|i: int| pending_row_at(old(self).participants@, i, user_id)
                        && old(self).participants@[i].room_id == room_id
                        && final(self).participants@ == old(self).participants@.update(i, answered(old(self).participants@[i], connection_id))
                    &&& same_except_participants(*final(self), *old(self))
                    &&& final(self).room_view_matches(room_id, v)
                },
                Err(e) => {
                    &&& *final(self) == *old(self)
                    &&& e == if !pending_slot(old(self).participants@, room_id, user_id) {
                        Error::NoSuchPendingCall
                    } else {
                        Error::ConnectionInUse
                    }
                },
            },
    {
        let ghost s = self.participants@;
        let i = match self.find_user_row(user_id) {
            Some(i) => i,
            None => {
                return Err(Error::NoSuchPendingCall);
            },
        };
        proof {
            assert forall|j: int| 0 <= j < s.len() && #[trigger] s[j].user_id == user_id implies j == i by {
                if j != i {
                    assert(participants_ok()(s[i as int], s[j]));
                }
            }
        }
        let row = self.participants[i];
        if !(row.room_id == room_id && row.answering_connection_id.is_none()) {
            return Err(Error::NoSuchPendingCall);
        }
        if self.find_answering_row(connection_id).is_some() {
            return Err(Error::ConnectionInUse);
        }
        let new_row = ParticipantRow { answering_connection_id: Some(connection_id), ..row };
        self.participants.set(i, new_row);
        proof {
            lemma_participants_update_wf(*old(self), *self, i as int, new_row);
            assert(room_exists(self.rooms@, s[i as int].room_id));
            assert(pending_row_at(s, i as int, user_id));
            assert(new_row == answered(s[i as int], connection_id));
        }
        Ok(self.get_room(room_id))
    }

    /// Turns down the user's outstanding call, in the expected room if one is named.
    pub fn decline_call(&mut self, expected_room_id: Option<RoomId>, user_id: UserId) -> (r: Result<RoomView, Error>)
        requires
            old(self).wf(),
        ensures
            final(self).wf(),
            r is Ok <==> exists|i: int| pending_row_at(old(self).participants@, i, user_id)
                && room_expected(expected_room_id, old(self).participants@[i].room_id),
            match r {
                Ok(v) => {
                    &&& final(self).participants@ == old(self).participants@.filter(not_pending_of(user_id))
                    &&& same_except_participants(*final(self), *old(self))
                    &&& exists|i: int| pending_row_at(old(self).participants@, i, user_id)
                        && final(self).room_view_matches(old(self).participants@[i].room_id, v)
                },
                Err(e) => {
                    &&& *final(self) == *old(self)
                    &&& e == if !exists|i: int| pending_row_at(old(self).participants@, i, user_id) {
                        Error::NoSuchPendingCall
                    } else {
                        Error::UnexpectedRoom
                    }
                },
            },
    {
        self.remove_pending(expected_room_id, None, user_id)
    }

    /// Withdraws the call that the connection placed to the user, in the
    /// expected room if one is named.
    pub fn cancel_call(
        &mut self,
        expected_room_id: Option<RoomId>,
        calling_connection_id: ConnectionId,
        called_user_id: UserId,
    ) -> (r: Result<RoomView, Error>)
        requires
            old(self).wf(),
        ensures
            final(self).wf(),
            r is Ok <==> exists|i: int| pending_row_at(old(self).participants@, i, called_user_id)
                && old(self).participants@[i].calling_connection_id == calling_connection_id
                && room_expected(expected_room_id, old(self).participants@[i].room_id),
            match r {
                Ok(v) => {
                    &&& final(self).participants@ == old(self).participants@.filter(not_pending_of(called_user_id))
                    &&& same_except_participants(*final(self), *old(self))
                    &&& exists|i: int| pending_row_at(old(self).participants@, i, called_user_id)
                        && final(self).room_view_matches(old(self).participants@[i].room_id, v)
                },
                Err(e) => {
                    &&& *final(self) == *old(self)
                    &&& e == if !exists|i: int| pending_row_at(old(self).participants@, i, called_user_id)
                        && old(self).participants@[i].calling_connection_id == calling_connection_id {
                        Error::NoSuchPendingCall
                    } else {
                        Error::UnexpectedRoom
                    }
                },
            },
    {
        self.remove_pending(expected_room_id, Some(calling_connection_id), called_user_id)
    }

    /// Removes the user's pending row, placed by `caller` if one is named.
    fn remove_pending(&mut self, expected_room_id: Option<RoomId>, caller: Option<ConnectionId>, user_id: UserId) -> (r: Result<RoomView, Error>)
        requires
            old(self).wf(),
        ensures
            final(self).wf(),
            r is Ok <==> exists|i: int| pending_row_at(old(self).participants@, i, user_id)
                && (caller is Some ==> old(self).participants@[i].calling_connection_id == caller->0)
                && room_expected(expected_room_id, old(self).participants@[i].room_id),
            match r {
                Ok(v) => {
                    &&& final(self).participants@ == old(self).participants@.filter(not_pending_of(user_id))
                    &&& same_except_participants(*final(self), *old(self))
                    &&& exists|i: int| pending_row_at(old(self).participants@, i, user_id)
                        && final(self).room_view_matches(old(self).participants@[i].room_id, v)
                },
                Err(e) => {
                    &&& *final(self) == *old(self)
                    &&& e == if !exists|i: int| pending_row_at(old(self).participants@, i, user_id)
                        && (caller is Some ==> old(self).participants@[i].calling_connection_id == caller->0) {
                        Error::NoSuchPendingCall
                    } else {
                        Error::UnexpectedRoom
                    }
                },
            },
    {
        let ghost s = self.participants@;
        let i = match self.find_user_row(user_id) {
            Some(i) => i,
            None => {
                return Err(Error::NoSuchPendingCall);
            },
        };
        proof {
            assert forall|j: int| 0 <= j < s.len() && #[trigger] s[j].user_id == user_id implies j == i by {
                if j != i {
                    assert(participants_ok()(s[i as int], s[j]));
                }
            }
        }
        let row = self.participants[i];
        if row.answering_connection_id.is_some() {
            return Err(Error::NoSuchPendingCall);
        }
        match caller {
            Some(c) => {
                if row.calling_connection_id != c {
                    return Err(Error::NoSuchPendingCall);
                }
            },
            None => {},
        }
        proof {
            assert(pending_row_at(s, i as int, user_id));
        }
        match expected_room_id {
            Some(e) => {
                if e != row.room_id {
                    return Err(Error::UnexpectedRoom);
                }
            },
            None => {},
        }
        let keep = |p: &ParticipantRow| -> (b: bool)
            ensures
                b == !(p.user_id == user_id && p.answering_connection_id is None),
            { !(p.user_id == user_id && p.answering_connection_id.is_none()) };
        retain(&mut self.participants, keep, Ghost(not_pending_of(user_id)));
        proof {
            lemma_participants_filter_wf(*old(self), *self, not_pending_of(user_id));
            assert(room_exists(self.rooms@, row.room_id));
        }
        Ok(self.get_room(row.room_id))
    }

    /// Drops the user's outstanding call into the room after it could not be
    /// delivered.
    pub fn call_failed(&mut self, room_id: RoomId, called_user_id: UserId) -> (r: Result<RoomView, Error>)
        requires
            old(self).wf(),
        ensures
            final(self).wf(),
            r is Ok <==> room_exists(old(self).rooms@, room_id),
            match r {
                Ok(v) => {
                    &&& final(self).participants@ == old(self).participants@.filter(not_pending_in(room_id, called_user_id))
                    &&& same_except_participants(*final(self), *old(self))
                    &&& final(self).room_view_matches(room_id, v)
                },
                Err(e) => *final(self) == *old(self) && e == Error::NoSuchRoom,
            },
    {
        if self.find_room(room_id).is_none() {
            return Err(Error::NoSuchRoom);
        }
        let keep = |p: &ParticipantRow| -> (b: bool)
            ensures
                b == !(p.room_id == room_id && p.user_id == called_user_id && p.answering_connection_id is None),
            { !(p.room_id == room_id && p.user_id == called_user_id && p.answering_connection_id.is_none()) };
        retain(&mut self.participants, keep, Ghost(not_pending_in(room_id, called_user_id)));
        proof {
            lemma_participants_filter_wf(*old(self), *self, not_pending_in(room_id, called_user_id));
        }
        Ok(self.get_room(room_id))
    }

    /// Records where the participant joined on the connection now is.
    pub fn update_room_participant_location(
        &mut self,
        room_id: RoomId,
        connection_id: ConnectionId,
        location: ParticipantLocation,
    ) -> (r: Result<RoomView, Error>)
        requires
            old(self).wf(),
        ensures
            final(self).wf(),
            r is Ok <==> exists|i: int| 0 <= i < old(self).participants@.len()
                && #[trigger] old(self).participants@[i].answering_connection_id == Some(connection_id)
                && old(self).participants@[i].room_id == room_id,
            match r {
                Ok(v) => {
                    &&& exists|i: int| 0 <= i < old(self).participants@.len()
                        && #[trigger] old(self).participants@[i].answering_connection_id == Some(connection_id)
                        && final(self).participants@ == old(self).participants@.update(i, located(old(self).participants@[i], location))
                    &&& same_except_participants(*final(self), *old(self))
                    &&& final(self).room_view_matches(room_id, v)
                },
                Err(e) => *final(self) == *old(self) && e == Error::NotInRoom,
            },
    {
        let ghost s = self.participants@;
        let i = match self.find_answering_row(connection_id) {
            Some(i) => i,
            None => {
                return Err(Error::NotInRoom);
            },
        };
        proof {
            assert forall|j: int| 0 <= j < s.len() && #[trigger] s[j].answering_connection_id == Some(connection_id) implies j == i by {
                if j != i {
                    assert(participants_ok()(s[i as int], s[j]));
                }
            }
        }
        let row = self.participants[i];
        if row.room_id != room_id {
            return Err(Error::NotInRoom);
        }
        let (kind, project_id) = match location {
            ParticipantLocation::SharedProject { project_id } => (Some(0i32), Some(project_id)),
            ParticipantLocation::UnsharedProject => (Some(1i32), None),
            ParticipantLocation::External => (Some(2i32), None),
        };
        let new_row = ParticipantRow { location_kind: kind, location_project_id: project_id, ..row };
        self.participants.set(i, new_row);
        proof {
            assert forall|j: int| 0 <= j < s.len() && j != i implies #[trigger] s[j].answering_connection_id != new_row.answering_connection_id by {
                assert(participants_ok()(s[i as int], s[j]));
            }
            lemma_participants_update_wf(*old(self), *self, i as int, new_row);
            assert(room_exists(self.rooms@, s[i as int].room_id));
        }
        Ok(self.get_room(room_id))
    }

    /// The call currently offered to the user, if any.
    pub fn incoming_call_for_user(&self, user_id: UserId) -> (r: Option<IncomingCall>)
        requires
            self.wf(),
        ensures
            r is Some <==> exists|i: int| pending_row_at(self.participants@, i, user_id),
            match r {
                Some(c) => exists|i: int, v: RoomView| pending_row_at(self.participants@, i, user_id)
                    && self.room_view_matches(self.participants@[i].room_id, v) && incoming_call_of(v, user_id, c),
                None => true,
            },
    {
        let ghost s = self.participants@;
        let i = match self.find_user_row(user_id) {
            Some(i) => i,
            None => {
                return None;
            },
        };
        proof {
            assert forall|j: int| 0 <= j < s.len() && #[trigger] s[j].user_id == user_id implies j == i by {
                if j != i {
                    assert(participants_ok()(s[i as int], s[j]));
                }
            }
        }
        let row = self.participants[i];
        if row.answering_connection_id.is_some() {
            return None;
        }
        proof {
            assert(room_exists(self.rooms@, s[i as int].room_id));
        }
        let v = self.get_room(row.room_id);
        proof {
            assert(pending_in(row.room_id)(s[i as int]));
            assert(s.filter(pending_in(row.room_id)).contains(s[i as int]));
            let k = choose|k: int| 0 <= k < s.filter(pending_in(row.room_id)).len() && s.filter(pending_in(row.room_id))[k] == row;
            assert(v.pending_participants@[k].user_id == user_id);
            assert(pending_row_at(s, i as int, user_id));
        }
        build_incoming_call(&v, user_id)
    }
}

} // verus!
