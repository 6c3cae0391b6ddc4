//! Properties that hold across operations, proved from the operations'
//! contracts.
use vstd::prelude::*;
use crate::cascade::{leave_room_outcome, outlives};
use crate::contacts::{canonical, contact_requested, pair_row, pair_stored, request_applies};
use crate::ids::{ConnectionId, ProjectId, ReplicaId, UserId};
use crate::projects::{entry_ids, entry_outside, entry_rows, project_joined, replica_used, worktree_updated, UpdateWorktree};
use crate::schema::{
    collaborators_ok, contacts_ok, pairwise, participants_ok, ContactRow, Db, Entry, EntryRow,
};

verus! {

broadcast use vstd::seq_lib::group_filter_ensures;

/// Within a project no two collaborators share a replica id, the host holds
/// replica id 0, and every guest holds a positive one.
pub proof fn replica_ids_unique(db: Db)
    requires
        db.wf(),
    ensures
        forall|i: int, j: int|
            0 <= i < db.collaborators@.len() && 0 <= j < db.collaborators@.len() && i != j
                && db.collaborators@[i].project_id == db.collaborators@[j].project_id
                ==> #[trigger] db.collaborators@[i].replica_id != #[trigger] db.collaborators@[j].replica_id,
        forall|i: int| 0 <= i < db.collaborators@.len() && (#[trigger] db.collaborators@[i]).is_host
            ==> db.collaborators@[i].replica_id.0 == 0,
        forall|i: int| 0 <= i < db.collaborators@.len() && !(#[trigger] db.collaborators@[i]).is_host
            ==> db.collaborators@[i].replica_id.0 > 0,
{
    assert forall|i: int, j: int|
        0 <= i < db.collaborators@.len() && 0 <= j < db.collaborators@.len() && i != j
            && db.collaborators@[i].project_id == db.collaborators@[j].project_id
            implies #[trigger] db.collaborators@[i].replica_id != #[trigger] db.collaborators@[j].replica_id by {
        assert(collaborators_ok()(db.collaborators@[i], db.collaborators@[j]));
    }
}

/// A user holds at most one participant row, so in particular at most one
/// per room; a row is pending or joined according to its answering
/// connection.
pub proof fn one_row_per_room_and_user(db: Db)
    requires
        db.wf(),
    ensures
        forall|i: int, j: int|
            0 <= i < db.participants@.len() && 0 <= j < db.participants@.len() && i != j
                ==> !(#[trigger] db.participants@[i].room_id == #[trigger] db.participants@[j].room_id
                    && db.participants@[i].user_id == db.participants@[j].user_id),
{
    assert forall|i: int, j: int|
        0 <= i < db.participants@.len() && 0 <= j < db.participants@.len() && i != j
            implies !(#[trigger] db.participants@[i].room_id == #[trigger] db.participants@[j].room_id
                && db.participants@[i].user_id == db.participants@[j].user_id) by {
        assert(participants_ok()(db.participants@[i], db.participants@[j]));
    }
}

/// Leaving a room twice on the same connection: the second time finds
/// nothing, returns nothing and changes nothing.
pub proof fn leave_room_twice(a: Db, b: Db, c: Db, conn: ConnectionId, first: Option<crate::cascade::LeftRoom>, second: Option<crate::cascade::LeftRoom>)
    requires
        leave_room_outcome(a, b, conn, first),
        leave_room_outcome(b, c, conn, second),
    ensures
        second is None,
        c == b,
{
    match first {
        None => {},
        Some(left) => {
            let i = choose|i: int| 0 <= i < a.participants@.len()
                && #[trigger] a.participants@[i].answering_connection_id == Some(conn)
                && crate::cascade::room_left(a, b, conn, a.participants@[i].room_id, left);
            assert forall|k: int| 0 <= k < b.participants@.len() implies #[trigger] b.participants@[k].answering_connection_id != Some(conn) by {
                assert(outlives(conn)(b.participants@[k]));
            }
            if second is Some {
                let j = choose|j: int| 0 <= j < b.participants@.len()
                    && #[trigger] b.participants@[j].answering_connection_id == Some(conn)
                    && crate::cascade::room_left(b, c, conn, b.participants@[j].room_id, second->0);
            }
        },
    }
}

/// An entry stored by one worktree update and removed by id in the next is
/// present in between and gone afterwards.
pub proof fn stored_then_removed_entry(a: Db, b: Db, c: Db, first: UpdateWorktree, second: UpdateWorktree, e: Entry)
    requires
        worktree_updated(a, b, first),
        worktree_updated(b, c, second),
        first.updated_entries@ == seq![e],
        first.removed_entries@.len() == 0,
        second.project_id == first.project_id,
        second.worktree_id == first.worktree_id,
        second.removed_entries@.contains(e.id),
    ensures
        b.entries@.contains(EntryRow { project_id: first.project_id, worktree_id: first.worktree_id, entry: e }),
        forall|k: int| 0 <= k < c.entries@.len() ==> !(#[trigger] c.entries@[k].project_id == first.project_id
            && c.entries@[k].worktree_id == first.worktree_id && c.entries@[k].entry.id == e.id),
{
    let pid = first.project_id;
    let wid = first.worktree_id;
    let row = EntryRow { project_id: pid, worktree_id: wid, entry: e };
    let stored = a.entries@.filter(entry_outside(pid, wid, entry_ids(first.updated_entries@)))
        + entry_rows(pid, wid, first.updated_entries@);
    let n = stored.len() - 1;
    assert(stored[n] == row);
    assert(!first.removed_entries@.to_set().contains(e.id));
    assert(entry_outside(pid, wid, first.removed_entries@.to_set())(stored[n]));
    assert(b.entries@.contains(stored[n]));
    assert forall|k: int| 0 <= k < c.entries@.len() implies !(#[trigger] c.entries@[k].project_id == pid
        && c.entries@[k].worktree_id == wid && c.entries@[k].entry.id == e.id) by {
        assert(entry_outside(pid, wid, second.removed_entries@.to_set())(c.entries@[k]));
        assert(second.removed_entries@.to_set().contains(e.id));
    }
}

/// Two users who ask each other, in either order, end with one accepted
/// row for their pair.
pub proof fn mutual_requests_make_one_contact(r0: Seq<ContactRow>, r1: Seq<ContactRow>, r2: Seq<ContactRow>, x: UserId, y: UserId)
    requires
        pairwise(r0, contacts_ok()),
        x != y,
        !pair_stored(r0, canonical(x, y).0, canonical(x, y).1),
        contact_requested(r0, r1, x, y),
        contact_requested(r1, r2, y, x),
    ensures
        request_applies(r0, x, y),
        request_applies(r1, y, x),
        exists|k: int| #[trigger] pair_row(r2, canonical(x, y).0, canonical(x, y).1, k) && r2[k].accepted,
        forall|k: int, m: int| #[trigger] pair_row(r2, canonical(x, y).0, canonical(x, y).1, k)
            && #[trigger] pair_row(r2, canonical(x, y).0, canonical(x, y).1, m) ==> k == m,
{
    let (a, b, dir) = canonical(x, y);
    assert(canonical(y, x) == (a, b, !dir));
    let row = ContactRow { user_id_a: a, user_id_b: b, a_to_b: dir, accepted: false, should_notify: true };
    assert(r1 == r0.push(row));
    let n = r0.len() as int;
    assert(pair_row(r1, a, b, n));
    assert forall|k: int| #[trigger] pair_row(r1, a, b, k) implies k == n by {
        if k < n {
            assert(pair_row(r0, a, b, k));
        }
    }
    assert(pair_stored(r1, a, b));
    let k = choose|k: int| #[trigger] pair_row(r1, a, b, k)
        && r2 == r1.update(k, ContactRow { accepted: true, should_notify: false, ..r1[k] });
    assert(k == n);
    assert(pair_row(r2, a, b, n) && r2[n].accepted);
    assert forall|k: int, m: int| #[trigger] pair_row(r2, a, b, k) && #[trigger] pair_row(r2, a, b, m) implies k == m by {
        if k < n {
            assert(pair_row(r0, a, b, k));
        }
        if m < n {
            assert(pair_row(r0, a, b, m));
        }
    }
}

/// Two connections joining the same project one after the other receive
/// different replica ids, the second the smallest one still free; from a
/// project where only the host holds an id they receive 1 and 2.
pub proof fn joins_take_least_free_replicas(
    a: Db,
    b: Db,
    c: Db,
    project_id: ProjectId,
    first: ConnectionId,
    second: ConnectionId,
    r1: ReplicaId,
    r2: ReplicaId,
)
    requires
        project_joined(a, b, project_id, first, r1),
        project_joined(b, c, project_id, second, r2),
    ensures
        r1 != r2,
        forall|q: int| 0 < q < r2.0 ==> #[trigger] replica_used(b.collaborators@, project_id, q),
        (forall|q: int| q > 0 ==> !#[trigger] replica_used(a.collaborators@, project_id, q)) ==> r1.0 == 1 && r2.0 == 2,
{
    let n = a.collaborators@.len() as int;
    assert(b.collaborators@[n].project_id == project_id && b.collaborators@[n].replica_id == r1);
    assert(replica_used(b.collaborators@, project_id, r1.0 as int));
    if forall|q: int| q > 0 ==> !#[trigger] replica_used(a.collaborators@, project_id, q) {
        assert(!replica_used(a.collaborators@, project_id, 1));
        assert(r1.0 == 1);
        assert(!replica_used(b.collaborators@, project_id, 2)) by {
            if replica_used(b.collaborators@, project_id, 2) {
                let k = choose|k: int| 0 <= k < b.collaborators@.len() && #[trigger] b.collaborators@[k].project_id == project_id
                    && b.collaborators@[k].replica_id.0 == 2;
                if k < n {
                    assert(a.collaborators@[k] == b.collaborators@[k]);
                    assert(replica_used(a.collaborators@, project_id, 2));
                }
            }
        }
        assert(replica_used(b.collaborators@, project_id, 1));
        assert(r2.0 == 2);
    }
}

} // verus!
