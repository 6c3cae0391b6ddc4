//! The relational state: one table per kind of row, the invariants that hold
//! between rows, and the table-level operations the components share.
use vstd::prelude::*;
use crate::ids::{ConnectionId, ProjectId, ReplicaId, RoomId, UserId, WorktreeId};

verus! {

broadcast use vstd::seq_lib::group_filter_ensures;

/// A room row: its id and the token of its media room.
#[derive(Clone, Debug, Default, PartialEq)]
pub struct Room {
    pub id: RoomId,
    pub live_kit_room: String,
}

/// A user's membership record in a room. Without an answering connection the
/// row is a pending call; with one the user has joined.
#[derive(Clone, Copy, Debug, PartialEq, Eq, Structural)]
pub struct ParticipantRow {
    pub room_id: RoomId,
    pub user_id: UserId,
    pub calling_user_id: UserId,
    pub calling_connection_id: ConnectionId,
    pub answering_connection_id: Option<ConnectionId>,
    pub location_kind: Option<i32>,
    pub location_project_id: Option<ProjectId>,
    pub initial_project_id: Option<ProjectId>,
}

/// A project shared into a room by one host connection.
#[derive(Clone, Copy, Debug, PartialEq, Eq, Structural)]
pub struct ProjectRow {
    pub id: ProjectId,
    pub room_id: RoomId,
    pub host_user_id: UserId,
    pub host_connection_id: ConnectionId,
}

/// A connection taking part in a project, with its replica id.
#[derive(Clone, Copy, Debug, Default, PartialEq, Eq, Structural)]
pub struct ProjectCollaborator {
    pub project_id: ProjectId,
    pub connection_id: ConnectionId,
    pub user_id: UserId,
    pub replica_id: ReplicaId,
    pub is_host: bool,
}

/// A worktree of a project.
#[derive(Clone, Debug, PartialEq)]
pub struct WorktreeRow {
    pub project_id: ProjectId,
    pub id: WorktreeId,
    pub root_name: String,
    pub abs_path: String,
    pub visible: bool,
    pub scan_id: u64,
    pub is_complete: bool,
}

/// A modification time.
#[derive(Clone, Copy, Debug, Default, PartialEq, Eq, Structural)]
pub struct Timestamp {
    pub seconds: u64,
    pub nanos: u32,
}

/// One file or directory of a worktree.
#[derive(Clone, Debug, PartialEq)]
pub struct Entry {
    pub id: u64,
    pub is_dir: bool,
    pub path: String,
    pub inode: u64,
    pub mtime: Timestamp,
    pub is_symlink: bool,
    pub is_ignored: bool,
}

/// An entry stored under its project and worktree.
#[derive(Clone, Debug, PartialEq)]
pub struct EntryRow {
    pub project_id: ProjectId,
    pub worktree_id: WorktreeId,
    pub entry: Entry,
}

/// The diagnostics reported for one path.
#[derive(Clone, Debug, PartialEq)]
pub struct DiagnosticSummary {
    pub path: String,
    pub language_server_id: u64,
    pub error_count: u32,
    pub warning_count: u32,
}

/// A diagnostic summary stored under its project and worktree.
#[derive(Clone, Debug, PartialEq)]
pub struct SummaryRow {
    pub project_id: ProjectId,
    pub worktree_id: WorktreeId,
    pub summary: DiagnosticSummary,
}

/// A language server of a project.
#[derive(Clone, Debug, PartialEq)]
pub struct LanguageServer {
    pub id: u64,
    pub name: String,
}

/// A language server stored under its project.
#[derive(Clone, Debug, PartialEq)]
pub struct LanguageServerRow {
    pub project_id: ProjectId,
    pub server: LanguageServer,
}

/// One relationship between two users, stored once under the ordered pair
/// `user_id_a < user_id_b`; `a_to_b` says which of them asked.
#[derive(Clone, Copy, Debug, PartialEq, Eq, Structural)]
pub struct ContactRow {
    pub user_id_a: UserId,
    pub user_id_b: UserId,
    pub a_to_b: bool,
    pub accepted: bool,
    pub should_notify: bool,
}

/// The whole store. Every operation of the library reads and writes these
/// tables as one unit.
#[derive(Clone, Debug)]
pub struct Db {
    pub rooms: Vec<Room>,
    pub participants: Vec<ParticipantRow>,
    pub projects: Vec<ProjectRow>,
    pub collaborators: Vec<ProjectCollaborator>,
    pub worktrees: Vec<WorktreeRow>,
    pub entries: Vec<EntryRow>,
    pub summaries: Vec<SummaryRow>,
    pub language_servers: Vec<LanguageServerRow>,
    pub contacts: Vec<ContactRow>,
    pub next_room_id: i32,
    pub next_project_id: i32,
}

/// `ok` holds of every two rows at distinct positions of `s`.
pub open spec fn pairwise<A>(s: Seq<A>, ok: spec_fn(A, A) -> bool) -> bool {
    forall|i: int, j: int|
        0 <= i < s.len() && 0 <= j < s.len() && i != j ==> #[trigger] ok(s[i], s[j])
}

/// Two participant rows may stand together: they are for different users, and
/// joined rows answer on different connections.
pub open spec fn participants_ok() -> spec_fn(ParticipantRow, ParticipantRow) -> bool {
    |a: ParticipantRow, b: ParticipantRow| {
        &&& a.user_id != b.user_id
        &&& (a.answering_connection_id is Some ==> a.answering_connection_id
            != b.answering_connection_id)
    }
}

/// Two collaborators of one project differ in replica id and connection.
pub open spec fn collaborators_ok() -> spec_fn(ProjectCollaborator, ProjectCollaborator) -> bool {
    |a: ProjectCollaborator, b: ProjectCollaborator| {
        a.project_id == b.project_id ==> a.replica_id != b.replica_id && a.connection_id
            != b.connection_id
    }
}

pub open spec fn rooms_ok() -> spec_fn(Room, Room) -> bool {
    |a: Room, b: Room| {
        a.id != b.id
    }
}

pub open spec fn projects_ok() -> spec_fn(ProjectRow, ProjectRow) -> bool {
    |a: ProjectRow, b: ProjectRow| {
        a.id != b.id
    }
}

pub open spec fn worktrees_ok() -> spec_fn(WorktreeRow, WorktreeRow) -> bool {
    |a: WorktreeRow, b: WorktreeRow| {
        !(a.project_id == b.project_id && a.id == b.id)
    }
}

pub open spec fn contacts_ok() -> spec_fn(ContactRow, ContactRow) -> bool {
    |a: ContactRow, b: ContactRow| {
        !(a.user_id_a == b.user_id_a && a.user_id_b == b.user_id_b)
    }
}

/// A room with this id is stored.
pub open spec fn room_exists(rooms: Seq<Room>, room_id: RoomId) -> bool {
    exists|i: int| 0 <= i < rooms.len() && #[trigger] rooms[i].id == room_id
}

/// The replica id that a collaborator's role calls for: 0 for the host, a
/// positive id for a guest.
pub open spec fn replica_fits_role(c: ProjectCollaborator) -> bool {
    if c.is_host {
        c.replica_id.0 == 0
    } else {
        c.replica_id.0 > 0
    }
}

/// The two stores hold the same rooms.
pub open spec fn same_rooms(a: Db, b: Db) -> bool {
    a.rooms@ == b.rooms@ && a.next_room_id == b.next_room_id
}

/// The two stores hold the same projects and everything that belongs to them.
pub open spec fn same_projects(a: Db, b: Db) -> bool {
    &&& a.projects@ == b.projects@
    &&& a.collaborators@ == b.collaborators@
    &&& a.worktrees@ == b.worktrees@
    &&& a.entries@ == b.entries@
    &&& a.summaries@ == b.summaries@
    &&& a.language_servers@ == b.language_servers@
    &&& a.next_project_id == b.next_project_id
}

impl Db {
    /// The invariants that every operation preserves.
    pub open spec fn wf(&self) -> bool {
        &&& pairwise(self.rooms@, rooms_ok())
        &&& forall|i: int| 0 <= i < self.rooms@.len() ==> #[trigger] self.rooms@[i].id.0 < self.next_room_id
        &&& pairwise(self.participants@, participants_ok())
        &&& pairwise(self.projects@, projects_ok())
        &&& forall|i: int| 0 <= i < self.projects@.len() ==> #[trigger] self.projects@[i].id.0 < self.next_project_id
        &&& pairwise(self.collaborators@, collaborators_ok())
        &&& forall|i: int| 0 <= i < self.collaborators@.len() ==> #[trigger] self.collaborators@[i].project_id.0 < self.next_project_id
        &&& forall|i: int| 0 <= i < self.collaborators@.len() ==> replica_fits_role(#[trigger] self.collaborators@[i])
        &&& pairwise(self.worktrees@, worktrees_ok())
        &&& forall|i: int| 0 <= i < self.worktrees@.len() ==> #[trigger] self.worktrees@[i].project_id.0 < self.next_project_id
        &&& pairwise(self.contacts@, contacts_ok())
        &&& forall|i: int| 0 <= i < self.contacts@.len() ==> #[trigger] self.contacts@[i].user_id_a.0 < self.contacts@[i].user_id_b.0
        &&& forall|i: int| 0 <= i < self.participants@.len() ==> #[trigger] room_exists(self.rooms@, self.participants@[i].room_id)
        &&& forall|i: int| 0 <= i < self.projects@.len() ==> #[trigger] room_exists(self.rooms@, self.projects@[i].room_id)
        &&& self.next_room_id >= 1
        &&& self.next_project_id >= 1
    }

    /// An empty store.
    pub fn new() -> (db: Db)
        ensures
            db.wf(),
            db.rooms@.len() == 0,
            db.participants@.len() == 0,
            db.projects@.len() == 0,
            db.collaborators@.len() == 0,
            db.worktrees@.len() == 0,
            db.entries@.len() == 0,
            db.summaries@.len() == 0,
            db.language_servers@.len() == 0,
            db.contacts@.len() == 0,
            db.next_room_id == 1,
            db.next_project_id == 1,
    {
        Db {
            rooms: Vec::new(),
            participants: Vec::new(),
            projects: Vec::new(),
            collaborators: Vec::new(),
            worktrees: Vec::new(),
            entries: Vec::new(),
            summaries: Vec::new(),
            language_servers: Vec::new(),
            contacts: Vec::new(),
            next_room_id: 1,
            next_project_id: 1,
        }
    }
}

/// Filtering one more element of `s` extends the filtered prefix by that
/// element when it is kept.
pub proof fn lemma_filter_step<A>(s: Seq<A>, p: spec_fn(A) -> bool, i: int)
    requires
        0 <= i < s.len(),
    ensures
        s.subrange(0, i + 1).filter(p) == if p(s[i]) {
            s.subrange(0, i).filter(p).push(s[i])
        } else {
            s.subrange(0, i).filter(p)
        },
{
    reveal(Seq::filter);
    assert(s.subrange(0, i + 1).drop_last() =~= s.subrange(0, i));
}

/// Every element kept by a filter comes from the filtered sequence.
pub proof fn lemma_filter_from<A>(s: Seq<A>, p: spec_fn(A) -> bool)
    ensures
        forall|i: int| 0 <= i < s.filter(p).len() ==> s.contains(#[trigger] s.filter(p)[i]),
    decreases s.len(),
{
    reveal(Seq::filter);
    if s.len() > 0 {
        let d = s.drop_last();
        lemma_filter_from(d, p);
        assert forall|i: int| 0 <= i < s.filter(p).len() implies s.contains(#[trigger] s.filter(p)[i]) by {
            if i < d.filter(p).len() {
                let k = choose|k: int| 0 <= k < d.len() && d[k] == d.filter(p)[i];
                assert(s[k] == d[k]);
            } else {
                assert(s.filter(p)[i] == s[s.len() - 1]);
            }
        }
    }
}

/// A property of every element survives filtering.
pub proof fn lemma_filter_all<A>(s: Seq<A>, p: spec_fn(A) -> bool, q: spec_fn(A) -> bool)
    requires
        forall|i: int| 0 <= i < s.len() ==> #[trigger] q(s[i]),
    ensures
        forall|i: int| 0 <= i < s.filter(p).len() ==> #[trigger] q(s.filter(p)[i]),
{
    lemma_filter_from(s, p);
    assert forall|i: int| 0 <= i < s.filter(p).len() implies #[trigger] q(s.filter(p)[i]) by {
        assert(s.contains(s.filter(p)[i]));
    }
}

/// A pairwise property survives filtering.
pub proof fn lemma_filter_pairwise<A>(s: Seq<A>, p: spec_fn(A) -> bool, ok: spec_fn(A, A) -> bool)
    requires
        pairwise(s, ok),
    ensures
        pairwise(s.filter(p), ok),
    decreases s.len(),
{
    reveal(Seq::filter);
    if s.len() > 0 {
        let d = s.drop_last();
        assert(pairwise(d, ok)) by {
            assert forall|i: int, j: int|
                0 <= i < d.len() && 0 <= j < d.len() && i != j implies #[trigger] ok(d[i], d[j]) by {
                assert(d[i] == s[i] && d[j] == s[j]);
                assert(ok(s[i], s[j]));
            }
        }
        lemma_filter_pairwise(d, p, ok);
        lemma_filter_from(d, p);
        let f = d.filter(p);
        if p(s.last()) {
            let g = f.push(s.last());
            assert forall|i: int, j: int|
                0 <= i < g.len() && 0 <= j < g.len() && i != j implies #[trigger] ok(g[i], g[j]) by {
                if i < f.len() && j < f.len() {
                    assert(ok(f[i], f[j]));
                } else if i < f.len() {
                    assert(f.contains(f[i]));
                    let k = choose|k: int| 0 <= k < d.len() && d[k] == f[i];
                    assert(s[k] == d[k]);
                    assert(ok(s[k], s[s.len() - 1]));
                } else {
                    assert(f.contains(f[j]));
                    let k = choose|k: int| 0 <= k < d.len() && d[k] == f[j];
                    assert(s[k] == d[k]);
                    assert(ok(s[s.len() - 1], s[k]));
                }
            }
            assert(s.filter(p) == g);
        } else {
            assert(s.filter(p) == f);
        }
    }
}

/// Appending a row that fits every stored row keeps a pairwise property.
pub proof fn lemma_push_pairwise<A>(s: Seq<A>, x: A, ok: spec_fn(A, A) -> bool)
    requires
        pairwise(s, ok),
        forall|i: int| 0 <= i < s.len() ==> #[trigger] ok(s[i], x) && ok(x, s[i]),
    ensures
        pairwise(s.push(x), ok),
{
    let t = s.push(x);
    assert forall|i: int, j: int|
        0 <= i < t.len() && 0 <= j < t.len() && i != j implies #[trigger] ok(t[i], t[j]) by {
        if i < s.len() && j < s.len() {
            assert(ok(s[i], s[j]));
        } else if i < s.len() {
            assert(ok(s[i], x));
        } else {
            assert(ok(s[j], x));
        }
    }
}

/// Replacing a row by one that fits every other row keeps a pairwise property.
pub proof fn lemma_update_pairwise<A>(s: Seq<A>, k: int, x: A, ok: spec_fn(A, A) -> bool)
    requires
        pairwise(s, ok),
        0 <= k < s.len(),
        forall|i: int| 0 <= i < s.len() && i != k ==> #[trigger] ok(s[i], x) && ok(x, s[i]),
    ensures
        pairwise(s.update(k, x), ok),
{
    let t = s.update(k, x);
    assert forall|i: int, j: int|
        0 <= i < t.len() && 0 <= j < t.len() && i != j implies #[trigger] ok(t[i], t[j]) by {
        if i != k && j != k {
            assert(ok(s[i], s[j]));
        } else if i != k {
            assert(ok(s[i], x));
        } else {
            assert(ok(s[j], x));
        }
    }
}

/// Keeps the rows of `v` for which `keep` holds, in their order.
pub fn retain<T, F: Fn(&T) -> bool>(v: &mut Vec<T>, keep: F, Ghost(p): Ghost<spec_fn(T) -> bool>)
    requires
        forall|t: &T| #[trigger] keep.requires((t,)),
        forall|t: &T, b: bool| keep.ensures((t,), b) ==> b == p(*t),
    ensures
        final(v)@ == old(v)@.filter(p),
{
    let ghost s = v@;
    let mut i: usize = 0;
    let mut j: usize = 0;
    let n: usize = v.len();
    while j < n
        invariant
            s == old(v)@,
            n == s.len(),
            i <= j <= s.len(),
            v@ == s.subrange(0, j as int).filter(p) + s.subrange(j as int, s.len() as int),
            s.subrange(0, j as int).filter(p).len() == i,
            forall|t: &T| #[trigger] keep.requires((t,)),
            forall|t: &T, b: bool| keep.ensures((t,), b) ==> b == p(*t),
        decreases s.len() - j,
    {
        proof {
            lemma_filter_step(s, p, j as int);
        }
        assert(v@[i as int] == s[j as int]);
        let k = keep(&v[i]);
        if k {
            i = i + 1;
        } else {
            v.remove(i);
        }
        j = j + 1;
        assert(v@ =~= s.subrange(0, j as int).filter(p) + s.subrange(j as int, s.len() as int));
    }
    assert(s.subrange(0, s.len() as int) =~= s);
    assert(v@ =~= s.filter(p));
}

} // verus!
