//! Projects shared into rooms: their collaborators and replica ids, their
//! worktrees with entries and diagnostics, and their language servers.
use vstd::prelude::*;
use std::collections::HashSet;
use crate::error::Error;
use crate::ids::{ConnectionId, ProjectId, ReplicaId, RoomId, UserId, WorktreeId};
use crate::rooms::{RoomView, answers, worktree_of};
use crate::schema::{
    lemma_update_pairwise, DiagnosticSummary, Entry, LanguageServer, collaborators_ok, lemma_filter_all, lemma_filter_pairwise,
    lemma_filter_step, lemma_push_pairwise, projects_ok, replica_fits_role, retain, room_exists,
    worktrees_ok, pairwise, participants_ok, same_rooms, Db, EntryRow, LanguageServerRow,
    ProjectCollaborator, ProjectRow, SummaryRow, WorktreeRow,
};

verus! {

broadcast use vstd::seq_lib::group_filter_ensures, vstd::std_specs::hash::group_hash_axioms;

/// A worktree as the host announces it.
#[derive(Clone, Debug, PartialEq)]
pub struct WorktreeMetadata {
    pub id: WorktreeId,
    pub root_name: String,
    pub abs_path: String,
    pub visible: bool,
}

/// Collaborators of the project.
pub open spec fn collaborator_of(project_id: ProjectId) -> spec_fn(ProjectCollaborator) -> bool {
    |c: ProjectCollaborator| c.project_id == project_id
}

/// Guests of the project: its collaborators other than the host.
pub open spec fn guest_of(project_id: ProjectId) -> spec_fn(ProjectCollaborator) -> bool {
    |c: ProjectCollaborator| c.project_id == project_id && !c.is_host
}

/// `ids` are the connections of `cs`, one for one.
pub open spec fn connections_of(cs: Seq<ProjectCollaborator>, ids: Seq<ConnectionId>) -> bool {
    &&& ids.len() == cs.len()
    &&& forall|k: int| 0 <= k < ids.len() ==> #[trigger] ids[k] == cs[k].connection_id
}

/// A project with this id is stored.
pub open spec fn project_exists(projects: Seq<ProjectRow>, project_id: ProjectId) -> bool {
    exists|i: int| 0 <= i < projects.len() && #[trigger] projects[i].id == project_id
}

/// The connection hosts the project.
pub open spec fn hosts(projects: Seq<ProjectRow>, project_id: ProjectId, conn: ConnectionId) -> bool {
    exists|i: int| 0 <= i < projects.len() && #[trigger] projects[i].id == project_id
        && projects[i].host_connection_id == conn
}

/// The connection has joined the room.
pub open spec fn joined_room_on(db: Db, room_id: RoomId, conn: ConnectionId) -> bool {
    exists|i: int| 0 <= i < db.participants@.len()
        && #[trigger] db.participants@[i].answering_connection_id == Some(conn)
        && db.participants@[i].room_id == room_id
}

/// Two entries of the list name the same worktree.
pub open spec fn has_duplicate_ids(ms: Seq<WorktreeMetadata>) -> bool {
    exists|i: int, j: int| 0 <= i < ms.len() && 0 <= j < ms.len() && i != j && #[trigger] ms[i].id == #[trigger] ms[j].id
}

/// The row stored for a worktree when its project is shared.
pub open spec fn initial_worktree(project_id: ProjectId, m: WorktreeMetadata) -> WorktreeRow {
    WorktreeRow {
        project_id,
        id: m.id,
        root_name: m.root_name,
        abs_path: m.abs_path,
        visible: m.visible,
        scan_id: 0,
        is_complete: false,
    }
}

pub open spec fn initial_worktrees(project_id: ProjectId, ms: Seq<WorktreeMetadata>) -> Seq<WorktreeRow> {
    ms.map_values(|m: WorktreeMetadata| initial_worktree(project_id, m))
}

/// Rows of other projects.
pub open spec fn other_project(project_id: ProjectId) -> spec_fn(ProjectRow) -> bool {
    |r: ProjectRow| r.id != project_id
}

pub open spec fn other_collaborator(project_id: ProjectId) -> spec_fn(ProjectCollaborator) -> bool {
    |r: ProjectCollaborator| r.project_id != project_id
}

pub open spec fn other_worktree(project_id: ProjectId) -> spec_fn(WorktreeRow) -> bool {
    |r: WorktreeRow| r.project_id != project_id
}

pub open spec fn other_entry(project_id: ProjectId) -> spec_fn(EntryRow) -> bool {
    |r: EntryRow| r.project_id != project_id
}

pub open spec fn other_summary(project_id: ProjectId) -> spec_fn(SummaryRow) -> bool {
    |r: SummaryRow| r.project_id != project_id
}

pub open spec fn other_server(project_id: ProjectId) -> spec_fn(LanguageServerRow) -> bool {
    |r: LanguageServerRow| r.project_id != project_id
}

/// `b` is `a` without the project and every row that belongs to it.
pub open spec fn project_removed(a: Db, b: Db, project_id: ProjectId) -> bool {
    &&& b.projects@ == a.projects@.filter(other_project(project_id))
    &&& b.collaborators@ == a.collaborators@.filter(other_collaborator(project_id))
    &&& b.worktrees@ == a.worktrees@.filter(other_worktree(project_id))
    &&& b.entries@ == a.entries@.filter(other_entry(project_id))
    &&& b.summaries@ == a.summaries@.filter(other_summary(project_id))
    &&& b.language_servers@ == a.language_servers@.filter(other_server(project_id))
    &&& b.next_project_id == a.next_project_id
}

/// Only the project tables differ between the two stores.
pub open spec fn same_except_projects(a: Db, b: Db) -> bool {
    same_rooms(a, b) && a.participants@ == b.participants@ && a.contacts@ == b.contacts@
}

/// The host's collaborator row of a newly shared project.
pub open spec fn host_collaborator(project_id: ProjectId, conn: ConnectionId, user_id: UserId) -> ProjectCollaborator {
    ProjectCollaborator { project_id, connection_id: conn, user_id, replica_id: ReplicaId(0), is_host: true }
}

/// Whether two entries of the list name the same worktree.
pub fn duplicate_worktree_ids(ms: &Vec<WorktreeMetadata>) -> (r: bool)
    ensures
        r == has_duplicate_ids(ms@),
{
    let mut i: usize = 0;
    while i < ms.len()
        invariant
            i <= ms@.len(),
            forall|a: int, b: int| 0 <= a < i && 0 <= b < ms@.len() && a != b ==> #[trigger] ms@[a].id != #[trigger] ms@[b].id,
        decreases ms@.len() - i,
    {
        let mut j: usize = 0;
        while j < ms.len()
            invariant
                i < ms@.len(),
                j <= ms@.len(),
                forall|a: int, b: int| 0 <= a < i && 0 <= b < ms@.len() && a != b ==> #[trigger] ms@[a].id != #[trigger] ms@[b].id,
                forall|b: int| 0 <= b < j && b != i ==> ms@[i as int].id != #[trigger] ms@[b].id,
            decreases ms@.len() - j,
        {
            if j != i && ms[i].id == ms[j].id {
                assert(ms@[i as int].id == ms@[j as int].id);
                return true;
            }
            j = j + 1;
        }
        i = i + 1;
    }
    false
}

/// Removing a project and everything that belongs to it keeps the store well-formed.
proof fn lemma_project_removed_wf(a: Db, b: Db, project_id: ProjectId)
    requires
        a.wf(),
        project_removed(a, b, project_id),
        same_except_projects(a, b),
    ensures
        b.wf(),
{
    let n = a.next_project_id;
    lemma_filter_pairwise(a.projects@, other_project(project_id), projects_ok());
    lemma_filter_all(a.projects@, other_project(project_id), |r: ProjectRow| r.id.0 < n);
    lemma_filter_all(a.projects@, other_project(project_id), |r: ProjectRow| room_exists(a.rooms@, r.room_id));
    lemma_filter_pairwise(a.collaborators@, other_collaborator(project_id), collaborators_ok());
    lemma_filter_all(a.collaborators@, other_collaborator(project_id), |c: ProjectCollaborator| c.project_id.0 < n);
    lemma_filter_all(a.collaborators@, other_collaborator(project_id), |c: ProjectCollaborator| replica_fits_role(c));
    lemma_filter_pairwise(a.worktrees@, other_worktree(project_id), worktrees_ok());
    lemma_filter_all(a.worktrees@, other_worktree(project_id), |w: WorktreeRow| w.project_id.0 < n);
    assert forall|i: int| 0 <= i < b.projects@.len() implies #[trigger] b.projects@[i].id.0 < b.next_project_id by {
        assert((|r: ProjectRow| r.id.0 < n)(b.projects@[i]));
    }
    assert forall|i: int| 0 <= i < b.projects@.len() implies #[trigger] room_exists(b.rooms@, b.projects@[i].room_id) by {
        assert((|r: ProjectRow| room_exists(a.rooms@, r.room_id))(b.projects@[i]));
    }
    assert forall|i: int| 0 <= i < b.collaborators@.len() implies #[trigger] b.collaborators@[i].project_id.0 < b.next_project_id by {
        assert((|c: ProjectCollaborator| c.project_id.0 < n)(b.collaborators@[i]));
    }
    assert forall|i: int| 0 <= i < b.collaborators@.len() implies replica_fits_role(#[trigger] b.collaborators@[i]) by {
        assert((|c: ProjectCollaborator| replica_fits_role(c))(b.collaborators@[i]));
    }
    assert forall|i: int| 0 <= i < b.worktrees@.len() implies #[trigger] b.worktrees@[i].project_id.0 < b.next_project_id by {
        assert((|w: WorktreeRow| w.project_id.0 < n)(b.worktrees@[i]));
    }
}

impl Db {
    /// Position of the project with this id.
    pub fn find_project(&self, project_id: ProjectId) -> (r: Option<usize>)
        ensures
            match r {
                Some(i) => i < self.projects@.len() && self.projects@[i as int].id == project_id,
                None => !project_exists(self.projects@, project_id),
            },
    {
        let mut i: usize = 0;
        while i < self.projects.len()
            invariant
                i <= self.projects@.len(),
                forall|k: int| 0 <= k < i ==> #[trigger] self.projects@[k].id != project_id,
            decreases self.projects@.len() - i,
        {
            if self.projects[i].id == project_id {
                return Some(i);
            }
            i = i + 1;
        }
        None
    }

    /// Checks that the connection hosts the project, and returns the
    /// project's position.
    pub fn find_hosted_project(&self, project_id: ProjectId, conn: ConnectionId) -> (r: Result<usize, Error>)
        requires
            self.wf(),
        ensures
            r is Ok <==> hosts(self.projects@, project_id, conn),
            match r {
                Ok(i) => i < self.projects@.len() && self.projects@[i as int].id == project_id
                    && self.projects@[i as int].host_connection_id == conn,
                Err(e) => e == if !project_exists(self.projects@, project_id) {
                    Error::NoSuchProject
                } else {
                    Error::NotHost
                },
            },
    {
        match self.find_project(project_id) {
            None => Err(Error::NoSuchProject),
            Some(i) => {
                if self.projects[i].host_connection_id == conn {
                    Ok(i)
                } else {
                    proof {
                        assert forall|j: int| 0 <= j < self.projects@.len() && #[trigger] self.projects@[j].id == project_id
                            implies j == i by {
                            if j != i {
                                assert(projects_ok()(self.projects@[i as int], self.projects@[j]));
                            }
                        }
                    }
                    Err(Error::NotHost)
                }
            },
        }
    }

    /// Connections of the project's guests.
    pub fn get_guest_connection_ids(&self, project_id: ProjectId) -> (ids: Vec<ConnectionId>)
        ensures
            connections_of(self.collaborators@.filter(guest_of(project_id)), ids@),
    {
        self.connections_where(Ghost(guest_of(project_id)), project_id, true)
    }

    /// Connections of all the project's collaborators.
    pub fn collaborator_connection_ids(&self, project_id: ProjectId) -> (ids: Vec<ConnectionId>)
        ensures
            connections_of(self.collaborators@.filter(collaborator_of(project_id)), ids@),
    {
        self.connections_where(Ghost(collaborator_of(project_id)), project_id, false)
    }

    /// Connections of the project's collaborators, guests only if `guests_only`.
    fn connections_where(&self, p: Ghost<spec_fn(ProjectCollaborator) -> bool>, project_id: ProjectId, guests_only: bool) -> (ids: Vec<ConnectionId>)
        requires
            p@ == if guests_only { guest_of(project_id) } else { collaborator_of(project_id) },
        ensures
            connections_of(self.collaborators@.filter(p@), ids@),
    {
        let ghost s = self.collaborators@;
        let mut ids: Vec<ConnectionId> = Vec::new();
        let mut j: usize = 0;
        while j < self.collaborators.len()
            invariant
                s == self.collaborators@,
                p@ == if guests_only { guest_of(project_id) } else { collaborator_of(project_id) },
                j <= s.len(),
                connections_of(s.subrange(0, j as int).filter(p@), ids@),
            decreases s.len() - j,
        {
            proof {
                lemma_filter_step(s, p@, j as int);
            }
            let c = self.collaborators[j];
            if c.project_id == project_id && !(guests_only && c.is_host) {
                ids.push(c.connection_id);
            }
            j = j + 1;
        }
        assert(s.subrange(0, s.len() as int) =~= s);
        ids
    }

    /// Deletes the project and every row that belongs to it.
    fn delete_project_rows(&mut self, project_id: ProjectId)
        requires
            old(self).wf(),
        ensures
            final(self).wf(),
            project_removed(*old(self), *final(self), project_id),
            same_except_projects(*old(self), *final(self)),
    {
        let keep = |r: &ProjectRow| -> (b: bool)
            ensures
                b == (r.id != project_id),
            { r.id != project_id };
        retain(&mut self.projects, keep, Ghost(other_project(project_id)));
        let keep = |r: &ProjectCollaborator| -> (b: bool)
            ensures
                b == (r.project_id != project_id),
            { r.project_id != project_id };
        retain(&mut self.collaborators, keep, Ghost(other_collaborator(project_id)));
        let keep = |r: &WorktreeRow| -> (b: bool)
            ensures
                b == (r.project_id != project_id),
            { r.project_id != project_id };
        retain(&mut self.worktrees, keep, Ghost(other_worktree(project_id)));
        let keep = |r: &EntryRow| -> (b: bool)
            ensures
                b == (r.project_id != project_id),
            { r.project_id != project_id };
        retain(&mut self.entries, keep, Ghost(other_entry(project_id)));
        let keep = |r: &SummaryRow| -> (b: bool)
            ensures
                b == (r.project_id != project_id),
            { r.project_id != project_id };
        retain(&mut self.summaries, keep, Ghost(other_summary(project_id)));
        let keep = |r: &LanguageServerRow| -> (b: bool)
            ensures
                b == (r.project_id != project_id),
            { r.project_id != project_id };
        retain(&mut self.language_servers, keep, Ghost(other_server(project_id)));
        proof {
            lemma_project_removed_wf(*old(self), *self, project_id);
        }
    }

    /// Shares a new project, hosted by the connection, into the room it has
    /// joined, with the given worktrees.
    pub fn share_project(
        &mut self,
        expected_room_id: RoomId,
        connection_id: ConnectionId,
        worktrees: &Vec<WorktreeMetadata>,
    ) -> (r: Result<(ProjectId, RoomView), Error>)
        requires
            old(self).wf(),
        ensures
            final(self).wf(),
            r is Ok <==> joined_room_on(*old(self), expected_room_id, connection_id)
                && !has_duplicate_ids(worktrees@) && old(self).next_project_id < i32::MAX,
            match r {
                Ok((project_id, v)) => {
                    &&& project_id == ProjectId(old(self).next_project_id)
                    &&& final(self).next_project_id == old(self).next_project_id + 1
                    &&& exists|i: int| 0 <= i < old(self).participants@.len()
                        && #[trigger] old(self).participants@[i].answering_connection_id == Some(connection_id)
                        && final(self).projects@ == old(self).projects@.push(ProjectRow {
                            id: project_id,
                            room_id: expected_room_id,
                            host_user_id: old(self).participants@[i].user_id,
                            host_connection_id: connection_id,
                        })
                        && final(self).collaborators@ == old(self).collaborators@.push(
                            host_collaborator(project_id, connection_id, old(self).participants@[i].user_id))
                    &&& final(self).worktrees@ == old(self).worktrees@ + initial_worktrees(project_id, worktrees@)
                    &&& final(self).entries@ == old(self).entries@
                    &&& final(self).summaries@ == old(self).summaries@
                    &&& final(self).language_servers@ == old(self).language_servers@
                    &&& same_except_projects(*old(self), *final(self))
                    &&& final(self).room_view_matches(expected_room_id, v)
                },
                Err(e) => {
                    &&& *final(self) == *old(self)
                    &&& e == if !answers(old(self).participants@, connection_id) {
                        Error::NotInRoom
                    } else if !joined_room_on(*old(self), expected_room_id, connection_id) {
                        Error::UnexpectedRoom
                    } else if has_duplicate_ids(worktrees@) {
                        Error::DuplicateWorktree
                    } else {
                        Error::IdsExhausted
                    }
                },
            },
    {
        let ghost s = self.participants@;
        let i = match self.find_answering_row(connection_id) {
            Some(i) => i,
            None => {
                return Err(Error::NotInRoom);
            },
        };
        let row = self.participants[i];
        if row.room_id != expected_room_id {
            proof {
                assert forall|j: int| 0 <= j < s.len() && #[trigger] s[j].answering_connection_id == Some(connection_id)
                    implies j == i by {
                    if j != i {
                        assert(participants_ok()(s[i as int], s[j]));
                    }
                }
            }
            return Err(Error::UnexpectedRoom);
        }
        if duplicate_worktree_ids(worktrees) {
            return Err(Error::DuplicateWorktree);
        }
        if self.next_project_id == i32::MAX {
            return Err(Error::IdsExhausted);
        }
        let project_id = ProjectId(self.next_project_id);
        let project = ProjectRow {
            id: project_id,
            room_id: expected_room_id,
            host_user_id: row.user_id,
            host_connection_id: connection_id,
        };
        let host = ProjectCollaborator {
            project_id,
            connection_id,
            user_id: row.user_id,
            replica_id: ReplicaId(0),
            is_host: true,
        };
        proof {
            let ps = self.projects@;
            assert forall|k: int| 0 <= k < ps.len() implies #[trigger] projects_ok()(ps[k], project)
                && projects_ok()(project, ps[k]) by {
                assert(ps[k].id.0 < self.next_project_id);
            }
            lemma_push_pairwise(ps, project, projects_ok());
            let cs = self.collaborators@;
            assert forall|k: int| 0 <= k < cs.len() implies #[trigger] collaborators_ok()(cs[k], host)
                && collaborators_ok()(host, cs[k]) by {
                assert(cs[k].project_id.0 < self.next_project_id);
            }
            lemma_push_pairwise(cs, host, collaborators_ok());
            assert(room_exists(self.rooms@, s[i as int].room_id));
        }
        self.projects.push(project);
        self.collaborators.push(host);
        self.next_project_id = self.next_project_id + 1;
        let ghost base = self.worktrees@;
        let mut k: usize = 0;
        while k < worktrees.len()
            invariant
                k <= worktrees@.len(),
                base == old(self).worktrees@,
                self.worktrees@ == base + initial_worktrees(project_id, worktrees@.subrange(0, k as int)),
                pairwise(self.worktrees@, worktrees_ok()),
                forall|x: int| 0 <= x < self.worktrees@.len() ==> #[trigger] self.worktrees@[x].project_id.0 < self.next_project_id,
                forall|x: int| 0 <= x < base.len() ==> #[trigger] base[x].project_id.0 < project_id.0,
                project_id.0 + 1 == self.next_project_id,
                !has_duplicate_ids(worktrees@),
                self.projects@ == old(self).projects@.push(project),
                self.collaborators@ == old(self).collaborators@.push(host),
                self.rooms@ == old(self).rooms@,
                self.next_room_id == old(self).next_room_id,
                self.participants@ == old(self).participants@,
                self.entries@ == old(self).entries@,
                self.summaries@ == old(self).summaries@,
                self.language_servers@ == old(self).language_servers@,
                self.contacts@ == old(self).contacts@,
            decreases worktrees@.len() - k,
        {
            let m = &worktrees[k];
            let w = WorktreeRow {
                project_id,
                id: m.id,
                root_name: m.root_name.clone(),
                abs_path: m.abs_path.clone(),
                visible: m.visible,
                scan_id: 0,
                is_complete: false,
            };
            proof {
                let cur = self.worktrees@;
                assert(w == initial_worktree(project_id, worktrees@[k as int]));
                assert forall|x: int| 0 <= x < cur.len() implies #[trigger] worktrees_ok()(cur[x], w)
                    && worktrees_ok()(w, cur[x]) by {
                    if x < base.len() {
                        assert(base[x].project_id.0 < project_id.0);
                    } else {
                        let y = x - base.len();
                        assert(cur[x] == initial_worktree(project_id, worktrees@.subrange(0, k as int)[y]));
                        assert(worktrees@[y].id != worktrees@[k as int].id);
                    }
                }
                lemma_push_pairwise(cur, w, worktrees_ok());
            }
            self.worktrees.push(w);
            k = k + 1;
            assert(self.worktrees@ =~= base + initial_worktrees(project_id, worktrees@.subrange(0, k as int)));
        }
        assert(worktrees@.subrange(0, worktrees@.len() as int) =~= worktrees@);
        proof {
            assert forall|x: int| 0 <= x < self.projects@.len() implies #[trigger] room_exists(self.rooms@, self.projects@[x].room_id) by {
                if x < old(self).projects@.len() {
                    assert(room_exists(old(self).rooms@, old(self).projects@[x].room_id));
                }
            }
            assert forall|x: int| 0 <= x < self.collaborators@.len() implies replica_fits_role(#[trigger] self.collaborators@[x]) by {
                if x < old(self).collaborators@.len() {
                    assert(replica_fits_role(old(self).collaborators@[x]));
                }
            }
        }
        let v = self.get_room(expected_room_id);
        Ok((project_id, v))
    }

    /// Stops sharing the project. Only its host may; the project and every row
    /// that belongs to it go. Returns the room and the guests to tell.
    pub fn unshare_project(&mut self, project_id: ProjectId, connection_id: ConnectionId) -> (r: Result<(RoomView, Vec<ConnectionId>), Error>)
        requires
            old(self).wf(),
        ensures
            final(self).wf(),
            r is Ok <==> hosts(old(self).projects@, project_id, connection_id),
            match r {
                Ok((v, guests)) => {
                    &&& project_removed(*old(self), *final(self), project_id)
                    &&& same_except_projects(*old(self), *final(self))
                    &&& connections_of(old(self).collaborators@.filter(guest_of(project_id)), guests@)
                    &&& exists|i: int| 0 <= i < old(self).projects@.len() && #[trigger] old(self).projects@[i].id == project_id
                        && final(self).room_view_matches(old(self).projects@[i].room_id, v)
                },
                Err(e) => {
                    &&& *final(self) == *old(self)
                    &&& e == if !project_exists(old(self).projects@, project_id) {
                        Error::NoSuchProject
                    } else {
                        Error::NotHost
                    }
                },
            },
    {
        let i = match self.find_hosted_project(project_id, connection_id) {
            Ok(i) => i,
            Err(e) => {
                return Err(e);
            },
        };
        let room_id = self.projects[i].room_id;
        proof {
            assert(room_exists(self.rooms@, self.projects@[i as int].room_id));
        }
        let guests = self.get_guest_connection_ids(project_id);
        self.delete_project_rows(project_id);
        let v = self.get_room(room_id);
        Ok((v, guests))
    }
}

/// The row for the worktree after the host announced `m`: an existing row
/// takes the new root name, a new one starts fresh.
pub open spec fn upsert_worktree(rows: Seq<WorktreeRow>, project_id: ProjectId, m: WorktreeMetadata) -> Seq<WorktreeRow> {
    if exists|k: int| 0 <= k < rows.len() && #[trigger] rows[k].project_id == project_id && rows[k].id == m.id {
        let k = choose|k: int| 0 <= k < rows.len() && #[trigger] rows[k].project_id == project_id && rows[k].id == m.id;
        rows.update(k, WorktreeRow { root_name: m.root_name, ..rows[k] })
    } else {
        rows.push(initial_worktree(project_id, m))
    }
}

/// The worktree table after announcing each of `ms` in turn.
pub open spec fn upsert_worktrees(rows: Seq<WorktreeRow>, project_id: ProjectId, ms: Seq<WorktreeMetadata>) -> Seq<WorktreeRow>
    decreases ms.len(),
{
    if ms.len() == 0 {
        rows
    } else {
        upsert_worktree(upsert_worktrees(rows, project_id, ms.drop_last()), project_id, ms.last())
    }
}

/// The list names the worktree.
pub open spec fn lists(ms: Seq<WorktreeMetadata>, id: WorktreeId) -> bool {
    exists|k: int| 0 <= k < ms.len() && #[trigger] ms[k].id == id
}

/// Worktrees that stay: those of other projects and those the list names.
pub open spec fn kept_worktree(project_id: ProjectId, ms: Seq<WorktreeMetadata>) -> spec_fn(WorktreeRow) -> bool {
    |w: WorktreeRow| w.project_id != project_id || lists(ms, w.id)
}

pub open spec fn kept_entry(project_id: ProjectId, ms: Seq<WorktreeMetadata>) -> spec_fn(EntryRow) -> bool {
    |e: EntryRow| e.project_id != project_id || lists(ms, e.worktree_id)
}

pub open spec fn kept_summary(project_id: ProjectId, ms: Seq<WorktreeMetadata>) -> spec_fn(SummaryRow) -> bool {
    |s: SummaryRow| s.project_id != project_id || lists(ms, s.worktree_id)
}

/// `b` is `a` after the host replaced the project's worktree list by `ms`.
pub open spec fn project_updated(a: Db, b: Db, project_id: ProjectId, ms: Seq<WorktreeMetadata>) -> bool {
    &&& b.worktrees@ == upsert_worktrees(a.worktrees@, project_id, ms).filter(kept_worktree(project_id, ms))
    &&& b.entries@ == a.entries@.filter(kept_entry(project_id, ms))
    &&& b.summaries@ == a.summaries@.filter(kept_summary(project_id, ms))
    &&& b.projects@ == a.projects@
    &&& b.collaborators@ == a.collaborators@
    &&& b.language_servers@ == a.language_servers@
    &&& b.next_project_id == a.next_project_id
    &&& same_except_projects(a, b)
}

/// A change to one worktree, sent by the project's host.
#[derive(Clone, Debug, PartialEq)]
pub struct UpdateWorktree {
    pub project_id: ProjectId,
    pub worktree_id: WorktreeId,
    pub root_name: String,
    pub abs_path: String,
    pub scan_id: u64,
    pub is_last_update: bool,
    pub updated_entries: Vec<Entry>,
    pub removed_entries: Vec<u64>,
}

/// The ids of the entries.
pub open spec fn entry_ids(es: Seq<Entry>) -> Set<u64> {
    Set::new(|id: u64| exists|k: int| 0 <= k < es.len() && #[trigger] es[k].id == id)
}

/// No two of the entries share an id.
pub open spec fn distinct_entry_ids(es: Seq<Entry>) -> bool {
    forall|i: int, j: int| 0 <= i < es.len() && 0 <= j < es.len() && i != j ==> #[trigger] es[i].id != #[trigger] es[j].id
}

/// Entry rows other than those of the worktree whose id is in `ids`.
pub open spec fn entry_outside(project_id: ProjectId, worktree_id: WorktreeId, ids: Set<u64>) -> spec_fn(EntryRow) -> bool {
    |r: EntryRow| !(r.project_id == project_id && r.worktree_id == worktree_id && ids.contains(r.entry.id))
}

/// The rows that store the entries in the worktree.
pub open spec fn entry_rows(project_id: ProjectId, worktree_id: WorktreeId, es: Seq<Entry>) -> Seq<EntryRow> {
    es.map_values(|e: Entry| EntryRow { project_id, worktree_id, entry: e })
}

/// The worktree row after the update's metadata was applied.
pub open spec fn updated_worktree_row(w: WorktreeRow, u: UpdateWorktree) -> WorktreeRow {
    WorktreeRow { root_name: u.root_name, abs_path: u.abs_path, scan_id: u.scan_id, is_complete: u.is_last_update, ..w }
}

/// `b` is `a` after the worktree update `u`: new metadata, then the updated
/// entries stored in place of any with their ids, then the removed ones
/// deleted.
pub open spec fn worktree_updated(a: Db, b: Db, u: UpdateWorktree) -> bool {
    &&& exists|k: int| 0 <= k < a.worktrees@.len() && #[trigger] a.worktrees@[k].project_id == u.project_id
        && a.worktrees@[k].id == u.worktree_id
        && b.worktrees@ == a.worktrees@.update(k, updated_worktree_row(a.worktrees@[k], u))
    &&& b.entries@ == (a.entries@.filter(entry_outside(u.project_id, u.worktree_id, entry_ids(u.updated_entries@)))
        + entry_rows(u.project_id, u.worktree_id, u.updated_entries@)).filter(
        entry_outside(u.project_id, u.worktree_id, u.removed_entries@.to_set()))
    &&& b.projects@ == a.projects@
    &&& b.collaborators@ == a.collaborators@
    &&& b.summaries@ == a.summaries@
    &&& b.language_servers@ == a.language_servers@
    &&& b.next_project_id == a.next_project_id
    &&& same_except_projects(a, b)
}

/// The project has a worktree with this id.
pub open spec fn worktree_exists(rows: Seq<WorktreeRow>, project_id: ProjectId, worktree_id: WorktreeId) -> bool {
    exists|k: int| 0 <= k < rows.len() && #[trigger] rows[k].project_id == project_id && rows[k].id == worktree_id
}

/// New diagnostics for one path of a worktree, sent by the project's host.
#[derive(Clone, Debug, PartialEq)]
pub struct UpdateDiagnosticSummary {
    pub project_id: ProjectId,
    pub worktree_id: WorktreeId,
    pub summary: DiagnosticSummary,
}

pub open spec fn other_summary_key(project_id: ProjectId, worktree_id: WorktreeId, path: Seq<char>) -> spec_fn(SummaryRow) -> bool {
    |r: SummaryRow| !(r.project_id == project_id && r.worktree_id == worktree_id && r.summary.path@ == path)
}

/// A language server started by the project's host.
#[derive(Clone, Debug, PartialEq)]
pub struct StartLanguageServer {
    pub project_id: ProjectId,
    pub server: LanguageServer,
}

pub open spec fn other_server_key(project_id: ProjectId, id: u64) -> spec_fn(LanguageServerRow) -> bool {
    |r: LanguageServerRow| !(r.project_id == project_id && r.server.id == id)
}

/// Whether the list names the worktree.
fn metadata_lists(ms: &Vec<WorktreeMetadata>, id: WorktreeId) -> (r: bool)
    ensures
        r == lists(ms@, id),
{
    let mut k: usize = 0;
    while k < ms.len()
        invariant
            k <= ms@.len(),
            forall|x: int| 0 <= x < k ==> #[trigger] ms@[x].id != id,
        decreases ms@.len() - k,
    {
        if ms[k].id == id {
            return true;
        }
        k = k + 1;
    }
    false
}

/// A copy of an entry.
pub fn copy_entry(e: &Entry) -> (r: Entry)
    ensures
        r == *e,
{
    Entry {
        id: e.id,
        is_dir: e.is_dir,
        path: e.path.clone(),
        inode: e.inode,
        mtime: e.mtime,
        is_symlink: e.is_symlink,
        is_ignored: e.is_ignored,
    }
}

/// A copy of a diagnostic summary.
pub fn copy_summary(s: &DiagnosticSummary) -> (r: DiagnosticSummary)
    ensures
        r == *s,
{
    DiagnosticSummary {
        path: s.path.clone(),
        language_server_id: s.language_server_id,
        error_count: s.error_count,
        warning_count: s.warning_count,
    }
}

/// A copy of a language server.
pub fn copy_server(s: &LanguageServer) -> (r: LanguageServer)
    ensures
        r == *s,
{
    LanguageServer { id: s.id, name: s.name.clone() }
}

impl Db {
    /// Position of the project's worktree with this id.
    pub fn find_worktree(&self, project_id: ProjectId, worktree_id: WorktreeId) -> (r: Option<usize>)
        ensures
            match r {
                Some(k) => k < self.worktrees@.len() && self.worktrees@[k as int].project_id == project_id
                    && self.worktrees@[k as int].id == worktree_id,
                None => !worktree_exists(self.worktrees@, project_id, worktree_id),
            },
    {
        let mut k: usize = 0;
        while k < self.worktrees.len()
            invariant
                k <= self.worktrees@.len(),
                forall|x: int| 0 <= x < k ==> !(#[trigger] self.worktrees@[x].project_id == project_id
                    && self.worktrees@[x].id == worktree_id),
            decreases self.worktrees@.len() - k,
        {
            if self.worktrees[k].project_id == project_id && self.worktrees[k].id == worktree_id {
                return Some(k);
            }
            k = k + 1;
        }
        None
    }

    /// Replaces the project's worktree list. Listed worktrees that exist take
    /// the new root name, new ones are added, and unlisted ones go with their
    /// entries and diagnostics. Only the host may. Returns the room and the
    /// guests to tell.
    pub fn update_project(
        &mut self,
        project_id: ProjectId,
        connection_id: ConnectionId,
        worktrees: &Vec<WorktreeMetadata>,
    ) -> (r: Result<(RoomView, Vec<ConnectionId>), Error>)
        requires
            old(self).wf(),
        ensures
            final(self).wf(),
            r is Ok <==> hosts(old(self).projects@, project_id, connection_id) && !has_duplicate_ids(worktrees@),
            match r {
                Ok((v, guests)) => {
                    &&& project_updated(*old(self), *final(self), project_id, worktrees@)
                    &&& connections_of(old(self).collaborators@.filter(guest_of(project_id)), guests@)
                    &&& exists|i: int| 0 <= i < old(self).projects@.len() && #[trigger] old(self).projects@[i].id == project_id
                        && final(self).room_view_matches(old(self).projects@[i].room_id, v)
                },
                Err(e) => {
                    &&& *final(self) == *old(self)
                    &&& e == if !project_exists(old(self).projects@, project_id) {
                        Error::NoSuchProject
                    } else if !hosts(old(self).projects@, project_id, connection_id) {
                        Error::NotHost
                    } else {
                        Error::DuplicateWorktree
                    }
                },
            },
    {
        let i = match self.find_hosted_project(project_id, connection_id) {
            Ok(i) => i,
            Err(e) => {
                return Err(e);
            },
        };
        if duplicate_worktree_ids(worktrees) {
            return Err(Error::DuplicateWorktree);
        }
        let room_id = self.projects[i].room_id;
        proof {
            assert(room_exists(self.rooms@, self.projects@[i as int].room_id));
            assert(self.projects@[i as int].id.0 < self.next_project_id);
        }
        let ghost base = self.worktrees@;
        let mut k: usize = 0;
        while k < worktrees.len()
            invariant
                k <= worktrees@.len(),
                base == old(self).worktrees@,
                self.worktrees@ == upsert_worktrees(base, project_id, worktrees@.subrange(0, k as int)),
                pairwise(self.worktrees@, worktrees_ok()),
                forall|x: int| 0 <= x < self.worktrees@.len() ==> #[trigger] self.worktrees@[x].project_id.0 < self.next_project_id,
                project_id.0 < self.next_project_id,
                self.projects@ == old(self).projects@,
                self.collaborators@ == old(self).collaborators@,
                self.rooms@ == old(self).rooms@,
                self.next_room_id == old(self).next_room_id,
                self.next_project_id == old(self).next_project_id,
                self.participants@ == old(self).participants@,
                self.entries@ == old(self).entries@,
                self.summaries@ == old(self).summaries@,
                self.language_servers@ == old(self).language_servers@,
                self.contacts@ == old(self).contacts@,
            decreases worktrees@.len() - k,
        {
            let m = &worktrees[k];
            let ghost cur = self.worktrees@;
            proof {
                assert(worktrees@.subrange(0, k as int + 1).drop_last() =~= worktrees@.subrange(0, k as int));
                assert(worktrees@.subrange(0, k as int + 1).last() == worktrees@[k as int]);
            }
            match self.find_worktree(project_id, m.id) {
                Some(x) => {
                    let w = &self.worktrees[x];
                    let row = WorktreeRow {
                        project_id: w.project_id,
                        id: w.id,
                        root_name: m.root_name.clone(),
                        abs_path: w.abs_path.clone(),
                        visible: w.visible,
                        scan_id: w.scan_id,
                        is_complete: w.is_complete,
                    };
                    proof {
                        let c = choose|c: int| 0 <= c < cur.len() && #[trigger] cur[c].project_id == project_id && cur[c].id == m.id;
                        if c != x {
                            assert(worktrees_ok()(cur[c], cur[x as int]));
                        }
                        assert(row == WorktreeRow { root_name: m.root_name, ..cur[x as int] });
                        assert forall|y: int| 0 <= y < cur.len() && y != x implies #[trigger] worktrees_ok()(cur[y], row)
                            && worktrees_ok()(row, cur[y]) by {
                            assert(worktrees_ok()(cur[y], cur[x as int]));
                        }
                        lemma_update_pairwise(cur, x as int, row, worktrees_ok());
                    }
                    self.worktrees.set(x, row);
                },
                None => {
                    let row = WorktreeRow {
                        project_id,
                        id: m.id,
                        root_name: m.root_name.clone(),
                        abs_path: m.abs_path.clone(),
                        visible: m.visible,
                        scan_id: 0,
                        is_complete: false,
                    };
                    proof {
                        assert(row == initial_worktree(project_id, *m));
                        assert forall|y: int| 0 <= y < cur.len() implies #[trigger] worktrees_ok()(cur[y], row)
                            && worktrees_ok()(row, cur[y]) by {
                        }
                        lemma_push_pairwise(cur, row, worktrees_ok());
                    }
                    self.worktrees.push(row);
                },
            }
            k = k + 1;
        }
        assert(worktrees@.subrange(0, worktrees@.len() as int) =~= worktrees@);
        let ghost upserted = self.worktrees@;
        let keep = |w: &WorktreeRow| -> (b: bool)
            ensures
                b == (w.project_id != project_id || lists(worktrees@, w.id)),
            { w.project_id != project_id || metadata_lists(worktrees, w.id) };
        retain(&mut self.worktrees, keep, Ghost(kept_worktree(project_id, worktrees@)));
        let keep = |e: &EntryRow| -> (b: bool)
            ensures
                b == (e.project_id != project_id || lists(worktrees@, e.worktree_id)),
            { e.project_id != project_id || metadata_lists(worktrees, e.worktree_id) };
        retain(&mut self.entries, keep, Ghost(kept_entry(project_id, worktrees@)));
        let keep = |s: &SummaryRow| -> (b: bool)
            ensures
                b == (s.project_id != project_id || lists(worktrees@, s.worktree_id)),
            { s.project_id != project_id || metadata_lists(worktrees, s.worktree_id) };
        retain(&mut self.summaries, keep, Ghost(kept_summary(project_id, worktrees@)));
        proof {
            let n = self.next_project_id;
            lemma_filter_pairwise(upserted, kept_worktree(project_id, worktrees@), worktrees_ok());
            lemma_filter_all(upserted, kept_worktree(project_id, worktrees@), |w: WorktreeRow| w.project_id.0 < n);
            assert forall|x: int| 0 <= x < self.worktrees@.len() implies #[trigger] self.worktrees@[x].project_id.0 < self.next_project_id by {
                assert((|w: WorktreeRow| w.project_id.0 < n)(self.worktrees@[x]));
            }
        }
        let guests = self.get_guest_connection_ids(project_id);
        let v = self.get_room(room_id);
        Ok((v, guests))
    }

    /// Applies a worktree update from the project's host: new metadata, then
    /// the updated entries stored in place of any with their ids, then the
    /// removed ones deleted. Each step is one pass over the entry table.
    /// Returns the guests to tell.
    pub fn update_worktree(&mut self, update: &UpdateWorktree, connection_id: ConnectionId) -> (r: Result<Vec<ConnectionId>, Error>)
        requires
            old(self).wf(),
        ensures
            final(self).wf(),
            r is Ok <==> hosts(old(self).projects@, update.project_id, connection_id)
                && worktree_exists(old(self).worktrees@, update.project_id, update.worktree_id)
                && distinct_entry_ids(update.updated_entries@),
            match r {
                Ok(guests) => {
                    &&& worktree_updated(*old(self), *final(self), *update)
                    &&& connections_of(old(self).collaborators@.filter(guest_of(update.project_id)), guests@)
                },
                Err(e) => {
                    &&& *final(self) == *old(self)
                    &&& e == if !project_exists(old(self).projects@, update.project_id) {
                        Error::NoSuchProject
                    } else if !hosts(old(self).projects@, update.project_id, connection_id) {
                        Error::NotHost
                    } else if !worktree_exists(old(self).worktrees@, update.project_id, update.worktree_id) {
                        Error::NoSuchWorktree
                    } else {
                        Error::DuplicateEntry
                    }
                },
            },
    {
        let project_id = update.project_id;
        let worktree_id = update.worktree_id;
        match self.find_hosted_project(project_id, connection_id) {
            Ok(_) => {},
            Err(e) => {
                return Err(e);
            },
        }
        let x = match self.find_worktree(project_id, worktree_id) {
            Some(x) => x,
            None => {
                return Err(Error::NoSuchWorktree);
            },
        };
        proof {
            assert(worktree_exists(self.worktrees@, project_id, worktree_id));
        }
        let es = &update.updated_entries;
        let mut ids: HashSet<u64> = HashSet::new();
        let mut k: usize = 0;
        while k < es.len()
            invariant
                *self == *old(self),
                self.wf(),
                es == &update.updated_entries,
                project_id == update.project_id,
                worktree_id == update.worktree_id,
                hosts(self.projects@, project_id, connection_id),
                x < self.worktrees@.len(),
                self.worktrees@[x as int].project_id == project_id,
                self.worktrees@[x as int].id == worktree_id,
                k <= es@.len(),
                ids@ == entry_ids(es@.subrange(0, k as int)),
                distinct_entry_ids(es@.subrange(0, k as int)),
            decreases es@.len() - k,
        {
            let id = es[k].id;
            let fresh = ids.insert(id);
            if !fresh {
                proof {
                    let j = choose|j: int| 0 <= j < k && #[trigger] es@.subrange(0, k as int)[j].id == id;
                    assert(es@[j].id == es@[k as int].id);
                }
                return Err(Error::DuplicateEntry);
            }
            proof {
                let s = es@.subrange(0, k as int + 1);
                assert(ids@ =~= entry_ids(s)) by {
                    assert forall|v: u64| ids@.contains(v) <==> entry_ids(s).contains(v) by {
                        if ids@.contains(v) && v != id {
                            let j = choose|j: int| 0 <= j < k && #[trigger] es@.subrange(0, k as int)[j].id == v;
                            assert(s[j].id == v);
                        }
                        if v == id {
                            assert(s[k as int].id == v);
                        }
                        if entry_ids(s).contains(v) {
                            let j = choose|j: int| 0 <= j < s.len() && #[trigger] s[j].id == v;
                            if j < k {
                                assert(es@.subrange(0, k as int)[j].id == v);
                            }
                        }
                    }
                }
                assert forall|a: int, b: int| 0 <= a < s.len() && 0 <= b < s.len() && a != b implies #[trigger] s[a].id != #[trigger] s[b].id by {
                    if a < k && b < k {
                        assert(es@.subrange(0, k as int)[a].id != es@.subrange(0, k as int)[b].id);
                    } else if a < k {
                        assert(es@.subrange(0, k as int)[a].id == s[a].id);
                    } else {
                        assert(es@.subrange(0, k as int)[b].id == s[b].id);
                    }
                }
            }
            k = k + 1;
        }
        assert(es@.subrange(0, es@.len() as int) =~= es@);

        let ghost cur = self.worktrees@;
        let w = &self.worktrees[x];
        let row = WorktreeRow {
            project_id: w.project_id,
            id: w.id,
            root_name: update.root_name.clone(),
            abs_path: update.abs_path.clone(),
            visible: w.visible,
            scan_id: update.scan_id,
            is_complete: update.is_last_update,
        };
        proof {
            assert(row == updated_worktree_row(cur[x as int], *update));
            assert forall|y: int| 0 <= y < cur.len() && y != x implies #[trigger] worktrees_ok()(cur[y], row)
                && worktrees_ok()(row, cur[y]) by {
                assert(worktrees_ok()(cur[y], cur[x as int]));
            }
            lemma_update_pairwise(cur, x as int, row, worktrees_ok());
        }
        self.worktrees.set(x, row);

        let replaced = &ids;
        let keep = |r: &EntryRow| -> (b: bool)
            ensures
                b == !(r.project_id == project_id && r.worktree_id == worktree_id && replaced@.contains(r.entry.id)),
            { !(r.project_id == project_id && r.worktree_id == worktree_id && replaced.contains(&r.entry.id)) };
        retain(&mut self.entries, keep, Ghost(entry_outside(project_id, worktree_id, ids@)));
        let ghost kept = self.entries@;
        let mut k: usize = 0;
        while k < es.len()
            invariant
                k <= es@.len(),
                es == &update.updated_entries,
                project_id == update.project_id,
                worktree_id == update.worktree_id,
                self.entries@ == kept + entry_rows(project_id, worktree_id, es@.subrange(0, k as int)),
                x < cur.len(),
                self.worktrees@ == cur.update(x as int, row),
                self.projects@ == old(self).projects@,
                self.collaborators@ == old(self).collaborators@,
                self.rooms@ == old(self).rooms@,
                self.next_room_id == old(self).next_room_id,
                self.next_project_id == old(self).next_project_id,
                self.participants@ == old(self).participants@,
                self.summaries@ == old(self).summaries@,
                self.language_servers@ == old(self).language_servers@,
                self.contacts@ == old(self).contacts@,
            decreases es@.len() - k,
        {
            let entry = copy_entry(&es[k]);
            self.entries.push(EntryRow { project_id, worktree_id, entry });
            k = k + 1;
            assert(self.entries@ =~= kept + entry_rows(project_id, worktree_id, es@.subrange(0, k as int)));
        }
        assert(es@.subrange(0, es@.len() as int) =~= es@);

        let removed = &update.removed_entries;
        let mut gone: HashSet<u64> = HashSet::new();
        let mut k: usize = 0;
        while k < removed.len()
            invariant
                k <= removed@.len(),
                gone@ == removed@.subrange(0, k as int).to_set(),
            decreases removed@.len() - k,
        {
            gone.insert(removed[k]);
            k = k + 1;
            assert(gone@ =~= removed@.subrange(0, k as int).to_set()) by {
                let s = removed@.subrange(0, k as int);
                assert forall|v: u64| gone@.contains(v) <==> s.contains(v) by {
                    if s.contains(v) {
                        let j = choose|j: int| 0 <= j < s.len() && #[trigger] s[j] == v;
                        if j < k - 1 {
                            assert(removed@.subrange(0, k - 1)[j] == v);
                        }
                    }
                    if gone@.contains(v) && v != removed@[k - 1] {
                        let j = choose|j: int| 0 <= j < k - 1 && #[trigger] removed@.subrange(0, k - 1)[j] == v;
                        assert(s[j] == v);
                    }
                    if v == removed@[k - 1] {
                        assert(s[k - 1] == v);
                    }
                }
            }
        }
        assert(removed@.subrange(0, removed@.len() as int) =~= removed@);
        let gone_ref = &gone;
        let keep = |r: &EntryRow| -> (b: bool)
            ensures
                b == !(r.project_id == project_id && r.worktree_id == worktree_id && gone_ref@.contains(r.entry.id)),
            { !(r.project_id == project_id && r.worktree_id == worktree_id && gone_ref.contains(&r.entry.id)) };
        retain(&mut self.entries, keep, Ghost(entry_outside(project_id, worktree_id, gone@)));
        proof {
            assert forall|y: int| 0 <= y < self.worktrees@.len() implies #[trigger] self.worktrees@[y].project_id.0 < self.next_project_id by {
                assert(cur[y].project_id.0 < self.next_project_id);
            }
        }
        Ok(self.get_guest_connection_ids(project_id))
    }

    /// Stores the diagnostics for one path of a worktree, replacing earlier
    /// ones for that path. Only the host may. Returns the guests to tell.
    pub fn update_diagnostic_summary(&mut self, update: &UpdateDiagnosticSummary, connection_id: ConnectionId) -> (r: Result<Vec<ConnectionId>, Error>)
        requires
            old(self).wf(),
        ensures
            final(self).wf(),
            r is Ok <==> hosts(old(self).projects@, update.project_id, connection_id),
            match r {
                Ok(guests) => {
                    &&& final(self).summaries@ == old(self).summaries@.filter(
                        other_summary_key(update.project_id, update.worktree_id, update.summary.path@)).push(
                        SummaryRow { project_id: update.project_id, worktree_id: update.worktree_id, summary: update.summary })
                    &&& final(self).projects@ == old(self).projects@
                    &&& final(self).collaborators@ == old(self).collaborators@
                    &&& final(self).worktrees@ == old(self).worktrees@
                    &&& final(self).entries@ == old(self).entries@
                    &&& final(self).language_servers@ == old(self).language_servers@
                    &&& final(self).next_project_id == old(self).next_project_id
                    &&& same_except_projects(*old(self), *final(self))
                    &&& connections_of(old(self).collaborators@.filter(guest_of(update.project_id)), guests@)
                },
                Err(e) => {
                    &&& *final(self) == *old(self)
                    &&& e == if !project_exists(old(self).projects@, update.project_id) {
                        Error::NoSuchProject
                    } else {
                        Error::NotHost
                    }
                },
            },
    {
        match self.find_hosted_project(update.project_id, connection_id) {
            Ok(_) => {},
            Err(e) => {
                return Err(e);
            },
        }
        let project_id = update.project_id;
        let worktree_id = update.worktree_id;
        let path = &update.summary.path;
        let keep = |r: &SummaryRow| -> (b: bool)
            ensures
                b == !(r.project_id == project_id && r.worktree_id == worktree_id && r.summary.path@ == path@),
            { !(r.project_id == project_id && r.worktree_id == worktree_id && r.summary.path == *path) };
        retain(&mut self.summaries, keep, Ghost(other_summary_key(project_id, worktree_id, update.summary.path@)));
        let summary = copy_summary(&update.summary);
        self.summaries.push(SummaryRow { project_id, worktree_id, summary });
        Ok(self.get_guest_connection_ids(project_id))
    }

    /// Records a language server of the project, replacing one with the same
    /// id. Only the host may. Returns the guests to tell.
    pub fn start_language_server(&mut self, update: &StartLanguageServer, connection_id: ConnectionId) -> (r: Result<Vec<ConnectionId>, Error>)
        requires
            old(self).wf(),
        ensures
            final(self).wf(),
            r is Ok <==> hosts(old(self).projects@, update.project_id, connection_id),
            match r {
                Ok(guests) => {
                    &&& final(self).language_servers@ == old(self).language_servers@.filter(
                        other_server_key(update.project_id, update.server.id)).push(
                        LanguageServerRow { project_id: update.project_id, server: update.server })
                    &&& final(self).projects@ == old(self).projects@
                    &&& final(self).collaborators@ == old(self).collaborators@
                    &&& final(self).worktrees@ == old(self).worktrees@
                    &&& final(self).entries@ == old(self).entries@
                    &&& final(self).summaries@ == old(self).summaries@
                    &&& final(self).next_project_id == old(self).next_project_id
                    &&& same_except_projects(*old(self), *final(self))
                    &&& connections_of(old(self).collaborators@.filter(guest_of(update.project_id)), guests@)
                },
                Err(e) => {
                    &&& *final(self) == *old(self)
                    &&& e == if !project_exists(old(self).projects@, update.project_id) {
                        Error::NoSuchProject
                    } else {
                        Error::NotHost
                    }
                },
            },
    {
        match self.find_hosted_project(update.project_id, connection_id) {
            Ok(_) => {},
            Err(e) => {
                return Err(e);
            },
        }
        let project_id = update.project_id;
        let id = update.server.id;
        let keep = |r: &LanguageServerRow| -> (b: bool)
            ensures
                b == !(r.project_id == project_id && r.server.id == id),
            { !(r.project_id == project_id && r.server.id == id) };
        retain(&mut self.language_servers, keep, Ghost(other_server_key(project_id, id)));
        let server = copy_server(&update.server);
        self.language_servers.push(LanguageServerRow { project_id, server });
        Ok(self.get_guest_connection_ids(project_id))
    }
}

/// A worktree as a joining guest receives it.
#[derive(Clone, Debug, PartialEq)]
pub struct Worktree {
    pub id: WorktreeId,
    pub abs_path: String,
    pub root_name: String,
    pub visible: bool,
    pub entries: Vec<Entry>,
    pub diagnostic_summaries: Vec<DiagnosticSummary>,
    pub scan_id: u64,
    pub is_complete: bool,
}

/// Everything a joining guest receives about a project.
#[derive(Clone, Debug, PartialEq)]
pub struct Project {
    pub collaborators: Vec<ProjectCollaborator>,
    pub worktrees: Vec<Worktree>,
    pub language_servers: Vec<LanguageServer>,
}

/// What the remaining participants of a project need after one connection left it.
#[derive(Clone, Debug, PartialEq)]
pub struct LeftProject {
    pub id: ProjectId,
    pub host_user_id: UserId,
    pub host_connection_id: ConnectionId,
    pub connection_ids: Vec<ConnectionId>,
}

pub open spec fn entry_in(project_id: ProjectId, worktree_id: WorktreeId) -> spec_fn(EntryRow) -> bool {
    |r: EntryRow| r.project_id == project_id && r.worktree_id == worktree_id
}

pub open spec fn summary_in(project_id: ProjectId, worktree_id: WorktreeId) -> spec_fn(SummaryRow) -> bool {
    |r: SummaryRow| r.project_id == project_id && r.worktree_id == worktree_id
}

pub open spec fn server_of(project_id: ProjectId) -> spec_fn(LanguageServerRow) -> bool {
    |r: LanguageServerRow| r.project_id == project_id
}

/// `w` is the worktree row `row` with its entries and diagnostics.
pub open spec fn worktree_matches(db: Db, project_id: ProjectId, w: Worktree, row: WorktreeRow) -> bool {
    let es = db.entries@.filter(entry_in(project_id, row.id));
    let ss = db.summaries@.filter(summary_in(project_id, row.id));
    &&& w.id == row.id
    &&& w.abs_path == row.abs_path
    &&& w.root_name == row.root_name
    &&& w.visible == row.visible
    &&& w.scan_id == row.scan_id
    &&& w.is_complete == row.is_complete
    &&& w.entries@.len() == es.len()
    &&& forall|k: int| 0 <= k < es.len() ==> #[trigger] w.entries@[k] == es[k].entry
    &&& w.diagnostic_summaries@.len() == ss.len()
    &&& forall|k: int| 0 <= k < ss.len() ==> #[trigger] w.diagnostic_summaries@[k] == ss[k].summary
}

/// `p` is the project as the tables hold it.
pub open spec fn project_matches(db: Db, project_id: ProjectId, p: Project) -> bool {
    let ws = db.worktrees@.filter(worktree_of(project_id));
    let ls = db.language_servers@.filter(server_of(project_id));
    &&& p.collaborators@ == db.collaborators@.filter(collaborator_of(project_id))
    &&& p.worktrees@.len() == ws.len()
    &&& forall|k: int| 0 <= k < ws.len() ==> worktree_matches(db, project_id, #[trigger] p.worktrees@[k], ws[k])
    &&& p.language_servers@.len() == ls.len()
    &&& forall|k: int| 0 <= k < ls.len() ==> #[trigger] p.language_servers@[k] == ls[k].server
}

/// Some collaborator of the project holds the replica id.
pub open spec fn replica_used(cs: Seq<ProjectCollaborator>, project_id: ProjectId, r: int) -> bool {
    exists|k: int| 0 <= k < cs.len() && #[trigger] cs[k].project_id == project_id && cs[k].replica_id.0 == r
}

/// `r` is the smallest positive replica id that no collaborator of the project holds.
pub open spec fn least_free_replica(cs: Seq<ProjectCollaborator>, project_id: ProjectId, r: int) -> bool {
    &&& 0 < r
    &&& !replica_used(cs, project_id, r)
    &&& forall|q: int| 0 < q < r ==> #[trigger] replica_used(cs, project_id, q)
}

/// Every positive replica id is taken.
pub open spec fn replicas_exhausted(cs: Seq<ProjectCollaborator>, project_id: ProjectId) -> bool {
    forall|q: int| 0 < q <= i32::MAX ==> #[trigger] replica_used(cs, project_id, q)
}

/// The connection takes part in the project.
pub open spec fn collaborates(cs: Seq<ProjectCollaborator>, project_id: ProjectId, conn: ConnectionId) -> bool {
    exists|k: int| 0 <= k < cs.len() && #[trigger] cs[k].project_id == project_id && cs[k].connection_id == conn
}

/// The project is shared into the room.
pub open spec fn project_in_room(projects: Seq<ProjectRow>, project_id: ProjectId, room_id: RoomId) -> bool {
    exists|k: int| 0 <= k < projects.len() && #[trigger] projects[k].id == project_id && projects[k].room_id == room_id
}

/// The room the connection has joined.
pub open spec fn room_of(db: Db, conn: ConnectionId) -> RoomId {
    let i = choose|i: int| 0 <= i < db.participants@.len() && #[trigger] db.participants@[i].answering_connection_id == Some(conn);
    db.participants@[i].room_id
}

/// The user the connection answers for.
pub open spec fn user_of(db: Db, conn: ConnectionId) -> UserId {
    let i = choose|i: int| 0 <= i < db.participants@.len() && #[trigger] db.participants@[i].answering_connection_id == Some(conn);
    db.participants@[i].user_id
}

/// `b` is `a` after the connection joined the project with replica id `r`.
pub open spec fn project_joined(a: Db, b: Db, project_id: ProjectId, conn: ConnectionId, r: ReplicaId) -> bool {
    &&& least_free_replica(a.collaborators@, project_id, r.0 as int)
    &&& b.collaborators@ == a.collaborators@.push(ProjectCollaborator {
        project_id,
        connection_id: conn,
        user_id: user_of(a, conn),
        replica_id: r,
        is_host: false,
    })
    &&& b.projects@ == a.projects@
    &&& b.worktrees@ == a.worktrees@
    &&& b.entries@ == a.entries@
    &&& b.summaries@ == a.summaries@
    &&& b.language_servers@ == a.language_servers@
    &&& b.next_project_id == a.next_project_id
    &&& same_except_projects(a, b)
}

impl Db {
    /// Whether a collaborator of the project holds the replica id.
    fn replica_in_use(&self, project_id: ProjectId, r: i32) -> (b: bool)
        ensures
            b == replica_used(self.collaborators@, project_id, r as int),
    {
        let mut k: usize = 0;
        while k < self.collaborators.len()
            invariant
                k <= self.collaborators@.len(),
                forall|x: int| 0 <= x < k ==> !(#[trigger] self.collaborators@[x].project_id == project_id
                    && self.collaborators@[x].replica_id.0 == r),
            decreases self.collaborators@.len() - k,
        {
            let c = self.collaborators[k];
            if c.project_id == project_id && c.replica_id.0 == r {
                return true;
            }
            k = k + 1;
        }
        false
    }

    /// Whether the connection takes part in the project.
    fn is_collaborator(&self, project_id: ProjectId, conn: ConnectionId) -> (b: bool)
        ensures
            b == collaborates(self.collaborators@, project_id, conn),
    {
        let mut k: usize = 0;
        while k < self.collaborators.len()
            invariant
                k <= self.collaborators@.len(),
                forall|x: int| 0 <= x < k ==> !(#[trigger] self.collaborators@[x].project_id == project_id
                    && self.collaborators@[x].connection_id == conn),
            decreases self.collaborators@.len() - k,
        {
            let c = self.collaborators[k];
            if c.project_id == project_id && c.connection_id == conn {
                return true;
            }
            k = k + 1;
        }
        false
    }

    /// The entries of a worktree.
    fn worktree_entries(&self, project_id: ProjectId, worktree_id: WorktreeId) -> (es: Vec<Entry>)
        ensures
            es@.len() == self.entries@.filter(entry_in(project_id, worktree_id)).len(),
            forall|k: int| 0 <= k < es@.len() ==> #[trigger] es@[k] == self.entries@.filter(entry_in(project_id, worktree_id))[k].entry,
    {
        let ghost s = self.entries@;
        let ghost p = entry_in(project_id, worktree_id);
        let mut es: Vec<Entry> = Vec::new();
        let mut j: usize = 0;
        while j < self.entries.len()
            invariant
                s == self.entries@,
                p == entry_in(project_id, worktree_id),
                j <= s.len(),
                es@.len() == s.subrange(0, j as int).filter(p).len(),
                forall|k: int| 0 <= k < es@.len() ==> #[trigger] es@[k] == s.subrange(0, j as int).filter(p)[k].entry,
            decreases s.len() - j,
        {
            proof {
                lemma_filter_step(s, p, j as int);
            }
            let r = &self.entries[j];
            if r.project_id == project_id && r.worktree_id == worktree_id {
                es.push(copy_entry(&r.entry));
            }
            j = j + 1;
        }
        assert(s.subrange(0, s.len() as int) =~= s);
        es
    }

    /// The diagnostic summaries of a worktree.
    fn worktree_summaries(&self, project_id: ProjectId, worktree_id: WorktreeId) -> (ss: Vec<DiagnosticSummary>)
        ensures
            ss@.len() == self.summaries@.filter(summary_in(project_id, worktree_id)).len(),
            forall|k: int| 0 <= k < ss@.len() ==> #[trigger] ss@[k] == self.summaries@.filter(summary_in(project_id, worktree_id))[k].summary,
    {
        let ghost s = self.summaries@;
        let ghost p = summary_in(project_id, worktree_id);
        let mut ss: Vec<DiagnosticSummary> = Vec::new();
        let mut j: usize = 0;
        while j < self.summaries.len()
            invariant
                s == self.summaries@,
                p == summary_in(project_id, worktree_id),
                j <= s.len(),
                ss@.len() == s.subrange(0, j as int).filter(p).len(),
                forall|k: int| 0 <= k < ss@.len() ==> #[trigger] ss@[k] == s.subrange(0, j as int).filter(p)[k].summary,
            decreases s.len() - j,
        {
            proof {
                lemma_filter_step(s, p, j as int);
            }
            let r = &self.summaries[j];
            if r.project_id == project_id && r.worktree_id == worktree_id {
                ss.push(copy_summary(&r.summary));
            }
            j = j + 1;
        }
        assert(s.subrange(0, s.len() as int) =~= s);
        ss
    }

    /// The project as the tables hold it.
    pub fn project_snapshot(&self, project_id: ProjectId) -> (p: Project)
        ensures
            project_matches(*self, project_id, p),
    {
        let ghost s = self.collaborators@;
        let ghost pc = collaborator_of(project_id);
        let mut collaborators: Vec<ProjectCollaborator> = Vec::new();
        let mut j: usize = 0;
        while j < self.collaborators.len()
            invariant
                s == self.collaborators@,
                pc == collaborator_of(project_id),
                j <= s.len(),
                collaborators@ == s.subrange(0, j as int).filter(pc),
            decreases s.len() - j,
        {
            proof {
                lemma_filter_step(s, pc, j as int);
            }
            let c = self.collaborators[j];
            if c.project_id == project_id {
                collaborators.push(c);
            }
            j = j + 1;
        }
        assert(s.subrange(0, s.len() as int) =~= s);

        let ghost sw = self.worktrees@;
        let ghost pw = worktree_of(project_id);
        let mut worktrees: Vec<Worktree> = Vec::new();
        let mut j: usize = 0;
        while j < self.worktrees.len()
            invariant
                sw == self.worktrees@,
                pw == worktree_of(project_id),
                j <= sw.len(),
                worktrees@.len() == sw.subrange(0, j as int).filter(pw).len(),
                forall|k: int| 0 <= k < worktrees@.len() ==> worktree_matches(*self, project_id, #[trigger] worktrees@[k], sw.subrange(0, j as int).filter(pw)[k]),
            decreases sw.len() - j,
        {
            proof {
                lemma_filter_step(sw, pw, j as int);
            }
            let w = &self.worktrees[j];
            if w.project_id == project_id {
                let entries = self.worktree_entries(project_id, w.id);
                let diagnostic_summaries = self.worktree_summaries(project_id, w.id);
                worktrees.push(Worktree {
                    id: w.id,
                    abs_path: w.abs_path.clone(),
                    root_name: w.root_name.clone(),
                    visible: w.visible,
                    entries,
                    diagnostic_summaries,
                    scan_id: w.scan_id,
                    is_complete: w.is_complete,
                });
            }
            j = j + 1;
        }
        assert(sw.subrange(0, sw.len() as int) =~= sw);

        let ghost sl = self.language_servers@;
        let ghost pl = server_of(project_id);
        let mut servers: Vec<LanguageServer> = Vec::new();
        let mut j: usize = 0;
        while j < self.language_servers.len()
            invariant
                sl == self.language_servers@,
                pl == server_of(project_id),
                j <= sl.len(),
                servers@.len() == sl.subrange(0, j as int).filter(pl).len(),
                forall|k: int| 0 <= k < servers@.len() ==> #[trigger] servers@[k] == sl.subrange(0, j as int).filter(pl)[k].server,
            decreases sl.len() - j,
        {
            proof {
                lemma_filter_step(sl, pl, j as int);
            }
            let l = &self.language_servers[j];
            if l.project_id == project_id {
                servers.push(copy_server(&l.server));
            }
            j = j + 1;
        }
        assert(sl.subrange(0, sl.len() as int) =~= sl);
        Project { collaborators, worktrees, language_servers: servers }
    }

    /// Adds the connection to a project of the room it has joined, with the
    /// smallest free positive replica id. Returns the project and that id.
    pub fn join_project(&mut self, project_id: ProjectId, connection_id: ConnectionId) -> (r: Result<(Project, ReplicaId), Error>)
        requires
            old(self).wf(),
        ensures
            final(self).wf(),
            r is Ok <==> answers(old(self).participants@, connection_id)
                && project_in_room(old(self).projects@, project_id, room_of(*old(self), connection_id))
                && !collaborates(old(self).collaborators@, project_id, connection_id)
                && !replicas_exhausted(old(self).collaborators@, project_id),
            match r {
                Ok((p, replica_id)) => {
                    &&& project_joined(*old(self), *final(self), project_id, connection_id, replica_id)
                    &&& project_matches(*final(self), project_id, p)
                },
                Err(e) => {
                    &&& *final(self) == *old(self)
                    &&& e == if !answers(old(self).participants@, connection_id) {
                        Error::NotInRoom
                    } else if !project_in_room(old(self).projects@, project_id, room_of(*old(self), connection_id)) {
                        Error::NoSuchProject
                    } else if collaborates(old(self).collaborators@, project_id, connection_id) {
                        Error::AlreadyCollaborator
                    } else {
                        Error::IdsExhausted
                    }
                },
            },
    {
        let ghost s = self.participants@;
        let i = match self.find_answering_row(connection_id) {
            Some(i) => i,
            None => {
                return Err(Error::NotInRoom);
            },
        };
        proof {
            assert forall|j: int| 0 <= j < s.len() && #[trigger] s[j].answering_connection_id == Some(connection_id)
                implies j == i by {
                if j != i {
                    assert(participants_ok()(s[i as int], s[j]));
                }
            }
            assert(room_of(*self, connection_id) == s[i as int].room_id);
            assert(user_of(*self, connection_id) == s[i as int].user_id);
        }
        let row = self.participants[i];
        let x = match self.find_project(project_id) {
            Some(x) => x,
            None => {
                return Err(Error::NoSuchProject);
            },
        };
        if self.projects[x].room_id != row.room_id {
            proof {
                assert forall|j: int| 0 <= j < self.projects@.len() && #[trigger] self.projects@[j].id == project_id
                    implies j == x by {
                    if j != x {
                        assert(projects_ok()(self.projects@[x as int], self.projects@[j]));
                    }
                }
            }
            return Err(Error::NoSuchProject);
        }
        if self.is_collaborator(project_id, connection_id) {
            return Err(Error::AlreadyCollaborator);
        }
        proof {
            assert(project_in_room(self.projects@, project_id, room_of(*self, connection_id)));
        }
        let mut replica: i32 = 1;
        while self.replica_in_use(project_id, replica)
            invariant
                *self == *old(self),
                self.wf(),
                1 <= replica,
                forall|q: int| 0 < q < replica ==> #[trigger] replica_used(self.collaborators@, project_id, q),
                answers(self.participants@, connection_id),
                project_in_room(self.projects@, project_id, room_of(*self, connection_id)),
                !collaborates(self.collaborators@, project_id, connection_id),
            decreases i32::MAX - replica,
        {
            if replica == i32::MAX {
                return Err(Error::IdsExhausted);
            }
            replica = replica + 1;
        }
        let collaborator = ProjectCollaborator {
            project_id,
            connection_id,
            user_id: row.user_id,
            replica_id: ReplicaId(replica),
            is_host: false,
        };
        proof {
            let cs = self.collaborators@;
            assert forall|k: int| 0 <= k < cs.len() implies #[trigger] collaborators_ok()(cs[k], collaborator)
                && collaborators_ok()(collaborator, cs[k]) by {
                if cs[k].project_id == project_id {
                    assert(!(cs[k].project_id == project_id && cs[k].replica_id.0 == replica));
                    assert(!(cs[k].project_id == project_id && cs[k].connection_id == connection_id));
                }
            }
            lemma_push_pairwise(cs, collaborator, collaborators_ok());
            assert(self.projects@[x as int].id.0 < self.next_project_id);
        }
        self.collaborators.push(collaborator);
        let snapshot = self.project_snapshot(project_id);
        Ok((snapshot, ReplicaId(replica)))
    }

    /// Removes the connection from the project. Returns the project's host and
    /// the connections still in it.
    pub fn leave_project(&mut self, project_id: ProjectId, connection_id: ConnectionId) -> (r: Result<LeftProject, Error>)
        requires
            old(self).wf(),
        ensures
            final(self).wf(),
            r is Ok <==> collaborates(old(self).collaborators@, project_id, connection_id)
                && project_exists(old(self).projects@, project_id),
            match r {
                Ok(left) => {
                    &&& final(self).collaborators@ == old(self).collaborators@.filter(
                        |c: ProjectCollaborator| !(c.project_id == project_id && c.connection_id == connection_id))
                    &&& final(self).projects@ == old(self).projects@
                    &&& final(self).worktrees@ == old(self).worktrees@
                    &&& final(self).entries@ == old(self).entries@
                    &&& final(self).summaries@ == old(self).summaries@
                    &&& final(self).language_servers@ == old(self).language_servers@
                    &&& final(self).next_project_id == old(self).next_project_id
                    &&& same_except_projects(*old(self), *final(self))
                    &&& left.id == project_id
                    &&& connections_of(final(self).collaborators@.filter(collaborator_of(project_id)), left.connection_ids@)
                    &&& exists|i: int| 0 <= i < old(self).projects@.len() && #[trigger] old(self).projects@[i].id == project_id
                        && left.host_user_id == old(self).projects@[i].host_user_id
                        && left.host_connection_id == old(self).projects@[i].host_connection_id
                },
                Err(e) => {
                    &&& *final(self) == *old(self)
                    &&& e == if !collaborates(old(self).collaborators@, project_id, connection_id) {
                        Error::NotACollaborator
                    } else {
                        Error::NoSuchProject
                    }
                },
            },
    {
        if !self.is_collaborator(project_id, connection_id) {
            return Err(Error::NotACollaborator);
        }
        let x = match self.find_project(project_id) {
            Some(x) => x,
            None => {
                return Err(Error::NoSuchProject);
            },
        };
        let project = self.projects[x];
        let ghost p = |c: ProjectCollaborator| !(c.project_id == project_id && c.connection_id == connection_id);
        let keep = |c: &ProjectCollaborator| -> (b: bool)
            ensures
                b == !(c.project_id == project_id && c.connection_id == connection_id),
            { !(c.project_id == project_id && c.connection_id == connection_id) };
        retain(&mut self.collaborators, keep, Ghost(p));
        proof {
            let n = self.next_project_id;
            lemma_filter_pairwise(old(self).collaborators@, p, collaborators_ok());
            lemma_filter_all(old(self).collaborators@, p, |c: ProjectCollaborator| c.project_id.0 < n);
            lemma_filter_all(old(self).collaborators@, p, |c: ProjectCollaborator| replica_fits_role(c));
            assert forall|y: int| 0 <= y < self.collaborators@.len() implies #[trigger] self.collaborators@[y].project_id.0 < n by {
                assert((|c: ProjectCollaborator| c.project_id.0 < n)(self.collaborators@[y]));
            }
            assert forall|y: int| 0 <= y < self.collaborators@.len() implies replica_fits_role(#[trigger] self.collaborators@[y]) by {
                assert((|c: ProjectCollaborator| replica_fits_role(c))(self.collaborators@[y]));
            }
        }
        let connection_ids = self.collaborator_connection_ids(project_id);
        Ok(LeftProject {
            id: project_id,
            host_user_id: project.host_user_id,
            host_connection_id: project.host_connection_id,
            connection_ids,
        })
    }

    /// The project's collaborators, for a connection that takes part in it.
    pub fn project_collaborators(&self, project_id: ProjectId, connection_id: ConnectionId) -> (r: Result<Vec<ProjectCollaborator>, Error>)
        ensures
            r is Ok <==> collaborates(self.collaborators@, project_id, connection_id),
            match r {
                Ok(cs) => cs@ == self.collaborators@.filter(collaborator_of(project_id)),
                Err(e) => e == Error::NoSuchProject,
            },
    {
        if !self.is_collaborator(project_id, connection_id) {
            return Err(Error::NoSuchProject);
        }
        let ghost s = self.collaborators@;
        let ghost pc = collaborator_of(project_id);
        let mut cs: Vec<ProjectCollaborator> = Vec::new();
        let mut j: usize = 0;
        while j < self.collaborators.len()
            invariant
                s == self.collaborators@,
                pc == collaborator_of(project_id),
                j <= s.len(),
                cs@ == s.subrange(0, j as int).filter(pc),
            decreases s.len() - j,
        {
            proof {
                lemma_filter_step(s, pc, j as int);
            }
            let c = self.collaborators[j];
            if c.project_id == project_id {
                cs.push(c);
            }
            j = j + 1;
        }
        assert(s.subrange(0, s.len() as int) =~= s);
        Ok(cs)
    }

    /// Connections of the project's collaborators, for a connection that takes part in it.
    pub fn project_connection_ids(&self, project_id: ProjectId, connection_id: ConnectionId) -> (r: Result<Vec<ConnectionId>, Error>)
        ensures
            r is Ok <==> collaborates(self.collaborators@, project_id, connection_id),
            match r {
                Ok(ids) => connections_of(self.collaborators@.filter(collaborator_of(project_id)), ids@),
                Err(e) => e == Error::NoSuchProject,
            },
    {
        if !self.is_collaborator(project_id, connection_id) {
            return Err(Error::NoSuchProject);
        }
        Ok(self.collaborator_connection_ids(project_id))
    }
}

} // verus!
