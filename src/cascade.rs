//! The disconnect cascade: when a connection ends, everything it held goes
//! in one step.
use vstd::prelude::*;
use crate::ids::{ConnectionId, ProjectId, RoomId, UserId};
use crate::projects::{connections_of, LeftProject};
use crate::rooms::{answers, RoomView};
use crate::schema::{
    collaborators_ok, lemma_filter_all, lemma_filter_pairwise,
    lemma_filter_step, participants_ok, projects_ok, replica_fits_role, retain, room_exists,
    worktrees_ok, same_rooms, Db, EntryRow, LanguageServerRow, ParticipantRow, ProjectCollaborator,
    ProjectRow, SummaryRow, WorktreeRow,
};

verus! {

broadcast use vstd::seq_lib::group_filter_ensures;

/// What the transport must tell others after a connection left its room.
#[derive(Clone, Debug, PartialEq)]
pub struct LeftRoom {
    pub room: RoomView,
    pub left_projects: Vec<LeftProject>,
    pub canceled_calls_to_user_ids: Vec<UserId>,
}

/// Participant rows that outlive the connection: neither answered on it nor
/// calls it placed that are still pending.
pub open spec fn outlives(conn: ConnectionId) -> spec_fn(ParticipantRow) -> bool {
    |p: ParticipantRow| p.answering_connection_id != Some(conn)
        && !(p.calling_connection_id == conn && p.answering_connection_id is None)
}

/// Pending calls the connection placed.
pub open spec fn called_by(conn: ConnectionId) -> spec_fn(ParticipantRow) -> bool {
    |p: ParticipantRow| p.calling_connection_id == conn && p.answering_connection_id is None
}

/// The connection hosts the project in the room.
pub open spec fn hosted_by(projects: Seq<ProjectRow>, room_id: RoomId, conn: ConnectionId, project_id: ProjectId) -> bool {
    exists|k: int| 0 <= k < projects.len() && #[trigger] projects[k].id == project_id
        && projects[k].room_id == room_id && projects[k].host_connection_id == conn
}

pub open spec fn kept_project(room_id: RoomId, conn: ConnectionId) -> spec_fn(ProjectRow) -> bool {
    |r: ProjectRow| !(r.room_id == room_id && r.host_connection_id == conn)
}

pub open spec fn kept_collaborator(projects: Seq<ProjectRow>, room_id: RoomId, conn: ConnectionId) -> spec_fn(ProjectCollaborator) -> bool {
    |c: ProjectCollaborator| c.connection_id != conn && !hosted_by(projects, room_id, conn, c.project_id)
}

pub open spec fn kept_worktree(projects: Seq<ProjectRow>, room_id: RoomId, conn: ConnectionId) -> spec_fn(WorktreeRow) -> bool {
    |r: WorktreeRow| !hosted_by(projects, room_id, conn, r.project_id)
}

pub open spec fn kept_entry(projects: Seq<ProjectRow>, room_id: RoomId, conn: ConnectionId) -> spec_fn(EntryRow) -> bool {
    |r: EntryRow| !hosted_by(projects, room_id, conn, r.project_id)
}

pub open spec fn kept_summary(projects: Seq<ProjectRow>, room_id: RoomId, conn: ConnectionId) -> spec_fn(SummaryRow) -> bool {
    |r: SummaryRow| !hosted_by(projects, room_id, conn, r.project_id)
}

pub open spec fn kept_server(projects: Seq<ProjectRow>, room_id: RoomId, conn: ConnectionId) -> spec_fn(LanguageServerRow) -> bool {
    |r: LanguageServerRow| !hosted_by(projects, room_id, conn, r.project_id)
}

/// Collaborator rows of the connection.
pub open spec fn of_connection(conn: ConnectionId) -> spec_fn(ProjectCollaborator) -> bool {
    |c: ProjectCollaborator| c.connection_id == conn
}

/// The other collaborators of the project.
pub open spec fn peers_of(project_id: ProjectId, conn: ConnectionId) -> spec_fn(ProjectCollaborator) -> bool {
    |c: ProjectCollaborator| c.project_id == project_id && c.connection_id != conn
}

/// Row `h` is the host of the project.
pub open spec fn host_row(cs: Seq<ProjectCollaborator>, project_id: ProjectId, h: int) -> bool {
    0 <= h < cs.len() && cs[h].project_id == project_id && cs[h].is_host
}

/// `lp` tells the project's other collaborators that `conn` left it: their
/// connections, and the host (zero ids if it has none).
pub open spec fn left_project_matches(cs: Seq<ProjectCollaborator>, conn: ConnectionId, project_id: ProjectId, lp: LeftProject) -> bool {
    &&& lp.id == project_id
    &&& connections_of(cs.filter(peers_of(project_id, conn)), lp.connection_ids@)
    &&& if exists|h: int| #[trigger] host_row(cs, project_id, h) {
        exists|h: int| #[trigger] host_row(cs, project_id, h) && lp.host_user_id == cs[h].user_id
            && lp.host_connection_id == cs[h].connection_id
    } else {
        lp.host_user_id == UserId(0) && lp.host_connection_id == ConnectionId(0)
    }
}

/// `b` is `a` after the connection, joined in the room, went away; `left`
/// says what others must be told.
pub open spec fn room_left(a: Db, b: Db, conn: ConnectionId, room_id: RoomId, left: LeftRoom) -> bool {
    let mine = a.collaborators@.filter(of_connection(conn));
    let calls = a.participants@.filter(called_by(conn));
    &&& cascade_applied(a, b, conn, room_id)
    &&& left.canceled_calls_to_user_ids@.len() == calls.len()
    &&& forall|k: int| 0 <= k < calls.len() ==> #[trigger] left.canceled_calls_to_user_ids@[k] == calls[k].user_id
    &&& left.left_projects@.len() == mine.len()
    &&& forall|k: int| 0 <= k < mine.len() ==> left_project_matches(a.collaborators@, conn, mine[k].project_id, #[trigger] left.left_projects@[k])
    &&& b.room_view_matches(room_id, left.room)
}

/// The tables of `b` are those of `a` after the cascade for the connection,
/// joined in the room.
pub open spec fn cascade_applied(a: Db, b: Db, conn: ConnectionId, room_id: RoomId) -> bool {
    &&& b.participants@ == a.participants@.filter(outlives(conn))
    &&& b.projects@ == a.projects@.filter(kept_project(room_id, conn))
    &&& b.collaborators@ == a.collaborators@.filter(kept_collaborator(a.projects@, room_id, conn))
    &&& b.worktrees@ == a.worktrees@.filter(kept_worktree(a.projects@, room_id, conn))
    &&& b.entries@ == a.entries@.filter(kept_entry(a.projects@, room_id, conn))
    &&& b.summaries@ == a.summaries@.filter(kept_summary(a.projects@, room_id, conn))
    &&& b.language_servers@ == a.language_servers@.filter(kept_server(a.projects@, room_id, conn))
    &&& b.next_project_id == a.next_project_id
    &&& same_rooms(a, b)
    &&& b.contacts@ == a.contacts@
}

/// What `leave_room` did: nothing if the connection had joined no room,
/// otherwise the whole cascade.
pub open spec fn leave_room_outcome(a: Db, b: Db, conn: ConnectionId, r: Option<LeftRoom>) -> bool {
    match r {
        None => !answers(a.participants@, conn) && b == a,
        Some(left) => exists|i: int| 0 <= i < a.participants@.len()
            && #[trigger] a.participants@[i].answering_connection_id == Some(conn)
            && room_left(a, b, conn, a.participants@[i].room_id, left),
    }
}

/// The cascade keeps the store well-formed.
proof fn lemma_cascade_wf(a: Db, b: Db, conn: ConnectionId, room_id: RoomId)
    requires
        a.wf(),
        cascade_applied(a, b, conn, room_id),
    ensures
        b.wf(),
{
    let n = a.next_project_id;
    let po = outlives(conn);
    lemma_filter_pairwise(a.participants@, po, participants_ok());
    lemma_filter_all(a.participants@, po, |p: ParticipantRow| room_exists(a.rooms@, p.room_id));
    assert forall|i: int| 0 <= i < b.participants@.len() implies #[trigger] room_exists(b.rooms@, b.participants@[i].room_id) by {
        assert((|p: ParticipantRow| room_exists(a.rooms@, p.room_id))(b.participants@[i]));
    }
    let pp = kept_project(room_id, conn);
    lemma_filter_pairwise(a.projects@, pp, projects_ok());
    lemma_filter_all(a.projects@, pp, |r: ProjectRow| r.id.0 < n);
    lemma_filter_all(a.projects@, pp, |r: ProjectRow| room_exists(a.rooms@, r.room_id));
    assert forall|i: int| 0 <= i < b.projects@.len() implies #[trigger] b.projects@[i].id.0 < b.next_project_id by {
        assert((|r: ProjectRow| r.id.0 < n)(b.projects@[i]));
    }
    assert forall|i: int| 0 <= i < b.projects@.len() implies #[trigger] room_exists(b.rooms@, b.projects@[i].room_id) by {
        assert((|r: ProjectRow| room_exists(a.rooms@, r.room_id))(b.projects@[i]));
    }
    let pc = kept_collaborator(a.projects@, room_id, conn);
    lemma_filter_pairwise(a.collaborators@, pc, collaborators_ok());
    lemma_filter_all(a.collaborators@, pc, |c: ProjectCollaborator| c.project_id.0 < n);
    lemma_filter_all(a.collaborators@, pc, |c: ProjectCollaborator| replica_fits_role(c));
    assert forall|i: int| 0 <= i < b.collaborators@.len() implies #[trigger] b.collaborators@[i].project_id.0 < b.next_project_id by {
        assert((|c: ProjectCollaborator| c.project_id.0 < n)(b.collaborators@[i]));
    }
    assert forall|i: int| 0 <= i < b.collaborators@.len() implies replica_fits_role(#[trigger] b.collaborators@[i]) by {
        assert((|c: ProjectCollaborator| replica_fits_role(c))(b.collaborators@[i]));
    }
    let pw = kept_worktree(a.projects@, room_id, conn);
    lemma_filter_pairwise(a.worktrees@, pw, worktrees_ok());
    lemma_filter_all(a.worktrees@, pw, |w: WorktreeRow| w.project_id.0 < n);
    assert forall|i: int| 0 <= i < b.worktrees@.len() implies #[trigger] b.worktrees@[i].project_id.0 < b.next_project_id by {
        assert((|w: WorktreeRow| w.project_id.0 < n)(b.worktrees@[i]));
    }
}

/// Whether the list holds the project id.
fn ids_contain_project(ids: &Vec<ProjectId>, id: ProjectId) -> (r: bool)
    ensures
        r == ids@.contains(id),
{
    let mut k: usize = 0;
    while k < ids.len()
        invariant
            k <= ids@.len(),
            forall|x: int| 0 <= x < k ==> #[trigger] ids@[x] != id,
        decreases ids@.len() - k,
    {
        if ids[k] == id {
            return true;
        }
        k = k + 1;
    }
    false
}

impl Db {
    /// Ids of the projects the connection hosts in the room.
    fn hosted_project_ids(&self, room_id: RoomId, conn: ConnectionId) -> (ids: Vec<ProjectId>)
        ensures
            forall|id: ProjectId| #[trigger] ids@.contains(id) <==> hosted_by(self.projects@, room_id, conn, id),
    {
        let mut ids: Vec<ProjectId> = Vec::new();
        let mut j: usize = 0;
        while j < self.projects.len()
            invariant
                j <= self.projects@.len(),
                forall|id: ProjectId| #[trigger] ids@.contains(id) <==> exists|k: int| 0 <= k < j
                    && #[trigger] self.projects@[k].id == id && self.projects@[k].room_id == room_id
                    && self.projects@[k].host_connection_id == conn,
            decreases self.projects@.len() - j,
        {
            let r = self.projects[j];
            if r.room_id == room_id && r.host_connection_id == conn {
                proof {
                    let ids2 = ids@.push(r.id);
                    assert forall|id: ProjectId| #[trigger] ids2.contains(id) <==> exists|k: int| 0 <= k < j + 1
                        && #[trigger] self.projects@[k].id == id && self.projects@[k].room_id == room_id
                        && self.projects@[k].host_connection_id == conn by {
                        if ids2.contains(id) {
                            let x = choose|x: int| 0 <= x < ids2.len() && ids2[x] == id;
                            if x < ids@.len() {
                                assert(ids@[x] == id);
                                assert(ids@.contains(id));
                            } else {
                                assert(self.projects@[j as int].id == id);
                            }
                        }
                        if exists|k: int| 0 <= k < j + 1 && #[trigger] self.projects@[k].id == id
                            && self.projects@[k].room_id == room_id && self.projects@[k].host_connection_id == conn {
                            let k = choose|k: int| 0 <= k < j + 1 && #[trigger] self.projects@[k].id == id
                                && self.projects@[k].room_id == room_id && self.projects@[k].host_connection_id == conn;
                            if k < j {
                                assert(ids@.contains(id));
                                let x = choose|x: int| 0 <= x < ids@.len() && ids@[x] == id;
                                assert(ids2[x] == id);
                            } else {
                                assert(ids2[ids@.len() as int] == id);
                            }
                        }
                    }
                }
                ids.push(r.id);
            }
            j = j + 1;
        }
        ids
    }

    /// Position of the project's host collaborator.
    fn find_project_host(&self, project_id: ProjectId) -> (r: Option<usize>)
        ensures
            match r {
                Some(h) => host_row(self.collaborators@, project_id, h as int),
                None => !exists|h: int| #[trigger] host_row(self.collaborators@, project_id, h),
            },
    {
        let mut k: usize = 0;
        while k < self.collaborators.len()
            invariant
                k <= self.collaborators@.len(),
                forall|h: int| 0 <= h < k ==> !#[trigger] host_row(self.collaborators@, project_id, h),
            decreases self.collaborators@.len() - k,
        {
            let c = self.collaborators[k];
            if c.project_id == project_id && c.is_host {
                return Some(k);
            }
            k = k + 1;
        }
        None
    }

    /// Connections of the project's collaborators other than `conn`.
    fn peer_connection_ids(&self, project_id: ProjectId, conn: ConnectionId) -> (ids: Vec<ConnectionId>)
        ensures
            connections_of(self.collaborators@.filter(peers_of(project_id, conn)), ids@),
    {
        let ghost s = self.collaborators@;
        let ghost p = peers_of(project_id, conn);
        let mut ids: Vec<ConnectionId> = Vec::new();
        let mut j: usize = 0;
        while j < self.collaborators.len()
            invariant
                s == self.collaborators@,
                p == peers_of(project_id, conn),
                j <= s.len(),
                connections_of(s.subrange(0, j as int).filter(p), ids@),
            decreases s.len() - j,
        {
            proof {
                lemma_filter_step(s, p, j as int);
            }
            let c = self.collaborators[j];
            if c.project_id == project_id && c.connection_id != conn {
                ids.push(c.connection_id);
            }
            j = j + 1;
        }
        assert(s.subrange(0, s.len() as int) =~= s);
        ids
    }

    /// What each project the connection takes part in must be told.
    fn left_projects(&self, conn: ConnectionId) -> (lps: Vec<LeftProject>)
        ensures
            lps@.len() == self.collaborators@.filter(of_connection(conn)).len(),
            forall|k: int| 0 <= k < lps@.len() ==> left_project_matches(self.collaborators@, conn,
                self.collaborators@.filter(of_connection(conn))[k].project_id, #[trigger] lps@[k]),
    {
        let ghost s = self.collaborators@;
        let ghost p = of_connection(conn);
        let mut lps: Vec<LeftProject> = Vec::new();
        let mut j: usize = 0;
        while j < self.collaborators.len()
            invariant
                s == self.collaborators@,
                p == of_connection(conn),
                j <= s.len(),
                lps@.len() == s.subrange(0, j as int).filter(p).len(),
                forall|k: int| 0 <= k < lps@.len() ==> left_project_matches(s, conn,
                    s.subrange(0, j as int).filter(p)[k].project_id, #[trigger] lps@[k]),
            decreases s.len() - j,
        {
            proof {
                lemma_filter_step(s, p, j as int);
            }
            let c = self.collaborators[j];
            if c.connection_id == conn {
                let project_id = c.project_id;
                let connection_ids = self.peer_connection_ids(project_id, conn);
                let lp = match self.find_project_host(project_id) {
                    Some(h) => LeftProject {
                        id: project_id,
                        host_user_id: self.collaborators[h].user_id,
                        host_connection_id: self.collaborators[h].connection_id,
                        connection_ids,
                    },
                    None => LeftProject {
                        id: project_id,
                        host_user_id: UserId(0),
                        host_connection_id: ConnectionId(0),
                        connection_ids,
                    },
                };
                lps.push(lp);
            }
            j = j + 1;
        }
        assert(s.subrange(0, s.len() as int) =~= s);
        lps
    }

    /// User ids of the pending calls the connection placed.
    fn calls_placed_by(&self, conn: ConnectionId) -> (ids: Vec<UserId>)
        ensures
            ids@.len() == self.participants@.filter(called_by(conn)).len(),
            forall|k: int| 0 <= k < ids@.len() ==> #[trigger] ids@[k] == self.participants@.filter(called_by(conn))[k].user_id,
    {
        let ghost s = self.participants@;
        let ghost p = called_by(conn);
        let mut ids: Vec<UserId> = Vec::new();
        let mut j: usize = 0;
        while j < self.participants.len()
            invariant
                s == self.participants@,
                p == called_by(conn),
                j <= s.len(),
                ids@.len() == s.subrange(0, j as int).filter(p).len(),
                forall|k: int| 0 <= k < ids@.len() ==> #[trigger] ids@[k] == s.subrange(0, j as int).filter(p)[k].user_id,
            decreases s.len() - j,
        {
            proof {
                lemma_filter_step(s, p, j as int);
            }
            let row = self.participants[j];
            if row.calling_connection_id == conn && row.answering_connection_id.is_none() {
                ids.push(row.user_id);
            }
            j = j + 1;
        }
        assert(s.subrange(0, s.len() as int) =~= s);
        ids
    }

    /// Unwinds everything the connection held when it ends: its place in its
    /// room, the calls it placed that are still pending, its part in projects,
    /// and the projects it hosted in the room with all their rows. Returns
    /// nothing if the connection had joined no room.
    pub fn leave_room(&mut self, connection_id: ConnectionId) -> (r: Option<LeftRoom>)
        requires
            old(self).wf(),
        ensures
            final(self).wf(),
            r is None <==> !answers(old(self).participants@, connection_id),
            leave_room_outcome(*old(self), *final(self), connection_id, r),
    {
        let i = match self.find_answering_row(connection_id) {
            Some(i) => i,
            None => {
                return None;
            },
        };
        let room_id = self.participants[i].room_id;
        proof {
            assert(room_exists(self.rooms@, self.participants@[i as int].room_id));
        }
        let canceled = self.calls_placed_by(connection_id);
        let left_projects = self.left_projects(connection_id);
        let hosted = self.hosted_project_ids(room_id, connection_id);
        let projects: Ghost<Seq<ProjectRow>> = Ghost(self.projects@);

        let keep = |p: &ParticipantRow| -> (b: bool)
            ensures
                b == (p.answering_connection_id != Some(connection_id)
                    && !(p.calling_connection_id == connection_id && p.answering_connection_id is None)),
            {
                p.answering_connection_id != Some(connection_id)
                    && !(p.calling_connection_id == connection_id && p.answering_connection_id.is_none())
            };
        retain(&mut self.participants, keep, Ghost(outlives(connection_id)));
        let keep = |c: &ProjectCollaborator| -> (b: bool)
            ensures
                b == (c.connection_id != connection_id && !hosted_by(projects@, room_id, connection_id, c.project_id)),
            { c.connection_id != connection_id && !ids_contain_project(&hosted, c.project_id) };
        retain(&mut self.collaborators, keep, Ghost(kept_collaborator(projects@, room_id, connection_id)));
        let keep = |r: &ProjectRow| -> (b: bool)
            ensures
                b == !(r.room_id == room_id && r.host_connection_id == connection_id),
            { !(r.room_id == room_id && r.host_connection_id == connection_id) };
        retain(&mut self.projects, keep, Ghost(kept_project(room_id, connection_id)));
        let keep = |r: &WorktreeRow| -> (b: bool)
            ensures
                b == !hosted_by(projects@, room_id, connection_id, r.project_id),
            { !ids_contain_project(&hosted, r.project_id) };
        retain(&mut self.worktrees, keep, Ghost(kept_worktree(projects@, room_id, connection_id)));
        let keep = |r: &EntryRow| -> (b: bool)
            ensures
                b == !hosted_by(projects@, room_id, connection_id, r.project_id),
            { !ids_contain_project(&hosted, r.project_id) };
        retain(&mut self.entries, keep, Ghost(kept_entry(projects@, room_id, connection_id)));
        let keep = |r: &SummaryRow| -> (b: bool)
            ensures
                b == !hosted_by(projects@, room_id, connection_id, r.project_id),
            { !ids_contain_project(&hosted, r.project_id) };
        retain(&mut self.summaries, keep, Ghost(kept_summary(projects@, room_id, connection_id)));
        let keep = |r: &LanguageServerRow| -> (b: bool)
            ensures
                b == !hosted_by(projects@, room_id, connection_id, r.project_id),
            { !ids_contain_project(&hosted, r.project_id) };
        retain(&mut self.language_servers, keep, Ghost(kept_server(projects@, room_id, connection_id)));

        proof {
            assert(cascade_applied(*old(self), *self, connection_id, room_id));
            lemma_cascade_wf(*old(self), *self, connection_id, room_id);
        }
        let room = self.get_room(room_id);
        let left = LeftRoom { room, left_projects, canceled_calls_to_user_ids: canceled };
        proof {
            assert(room_left(*old(self), *self, connection_id, room_id, left));
        }
        Some(left)
    }
}

} // verus!
