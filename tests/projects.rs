use collab_db::error::Error;
use collab_db::ids::{ConnectionId, ProjectId, ReplicaId, RoomId, UserId, WorktreeId};
use collab_db::projects::{
    duplicate_worktree_ids, StartLanguageServer, UpdateDiagnosticSummary, UpdateWorktree,
    WorktreeMetadata,
};
use collab_db::schema::{Db, DiagnosticSummary, Entry, LanguageServer, Timestamp};

fn metadata(id: i32, root: &str) -> WorktreeMetadata {
    WorktreeMetadata {
        id: WorktreeId(id),
        root_name: root.to_string(),
        abs_path: format!("/home/{}", root),
        visible: true,
    }
}

fn entry(id: u64, path: &str) -> Entry {
    Entry {
        id,
        is_dir: false,
        path: path.to_string(),
        inode: id * 10,
        mtime: Timestamp { seconds: 5, nanos: 6 },
        is_symlink: false,
        is_ignored: false,
    }
}

/// A room with the host (user 1, connection 10) and a guest (user 2,
/// connection 20), and a project of the host with one worktree.
fn shared(db: &mut Db) -> (RoomId, ProjectId) {
    let room_id = db.create_room(UserId(1), ConnectionId(10)).unwrap().id;
    db.call(room_id, UserId(1), ConnectionId(10), UserId(2), None).unwrap();
    db.join_room(room_id, UserId(2), ConnectionId(20)).unwrap();
    let (project_id, _) = db.share_project(room_id, ConnectionId(10), &vec![metadata(1, "src")]).unwrap();
    (room_id, project_id)
}

fn update(project_id: ProjectId, updated: Vec<Entry>, removed: Vec<u64>) -> UpdateWorktree {
    UpdateWorktree {
        project_id,
        worktree_id: WorktreeId(1),
        root_name: "src".to_string(),
        abs_path: "/home/src".to_string(),
        scan_id: 3,
        is_last_update: true,
        updated_entries: updated,
        removed_entries: removed,
    }
}

#[test]
fn share_project_makes_host_replica_zero() {
    let mut db = Db::new();
    let room_id = db.create_room(UserId(1), ConnectionId(10)).unwrap().id;
    let (project_id, room) = db.share_project(room_id, ConnectionId(10), &vec![metadata(1, "src")]).unwrap();
    assert_eq!(project_id, ProjectId(1));
    assert_eq!(room.participants[0].projects.len(), 1);
    assert_eq!(room.participants[0].projects[0].id, project_id);
    assert_eq!(room.participants[0].projects[0].worktree_root_names, vec!["src".to_string()]);
    assert_eq!(db.collaborators.len(), 1);
    assert!(db.collaborators[0].is_host);
    assert_eq!(db.collaborators[0].replica_id, ReplicaId(0));
    assert_eq!(db.worktrees[0].scan_id, 0);
    assert!(!db.worktrees[0].is_complete);
}

#[test]
fn share_project_errors() {
    let mut db = Db::new();
    let room_id = db.create_room(UserId(1), ConnectionId(10)).unwrap().id;
    assert_eq!(db.share_project(room_id, ConnectionId(11), &vec![]).unwrap_err(), Error::NotInRoom);
    assert_eq!(db.share_project(RoomId(9), ConnectionId(10), &vec![]).unwrap_err(), Error::UnexpectedRoom);
    let twice = vec![metadata(1, "a"), metadata(1, "b")];
    assert!(duplicate_worktree_ids(&twice));
    assert_eq!(db.share_project(room_id, ConnectionId(10), &twice).unwrap_err(), Error::DuplicateWorktree);
    assert!(db.projects.is_empty());
}

#[test]
fn guests_get_smallest_free_replica_ids() {
    let mut db = Db::new();
    let (room_id, project_id) = shared(&mut db);
    db.call(room_id, UserId(1), ConnectionId(10), UserId(3), None).unwrap();
    db.join_room(room_id, UserId(3), ConnectionId(30)).unwrap();
    let (_, first) = db.join_project(project_id, ConnectionId(20)).unwrap();
    let (project, second) = db.join_project(project_id, ConnectionId(30)).unwrap();
    assert_eq!(first, ReplicaId(1));
    assert_eq!(second, ReplicaId(2));
    assert_eq!(project.collaborators.len(), 3);
    db.leave_project(project_id, ConnectionId(20)).unwrap();
    let (_, again) = db.join_project(project_id, ConnectionId(20)).unwrap();
    assert_eq!(again, ReplicaId(1));
}

#[test]
fn join_project_errors() {
    let mut db = Db::new();
    let (_, project_id) = shared(&mut db);
    assert_eq!(db.join_project(project_id, ConnectionId(99)).unwrap_err(), Error::NotInRoom);
    assert_eq!(db.join_project(ProjectId(42), ConnectionId(20)).unwrap_err(), Error::NoSuchProject);
    db.join_project(project_id, ConnectionId(20)).unwrap();
    assert_eq!(db.join_project(project_id, ConnectionId(20)).unwrap_err(), Error::AlreadyCollaborator);
}

#[test]
fn join_project_returns_snapshot() {
    let mut db = Db::new();
    let (_, project_id) = shared(&mut db);
    db.update_worktree(&update(project_id, vec![entry(7, "src/main.rs")], vec![]), ConnectionId(10)).unwrap();
    let summary = DiagnosticSummary {
        path: "src/main.rs".to_string(),
        language_server_id: 4,
        error_count: 2,
        warning_count: 1,
    };
    db.update_diagnostic_summary(
        &UpdateDiagnosticSummary { project_id, worktree_id: WorktreeId(1), summary: summary.clone() },
        ConnectionId(10),
    )
    .unwrap();
    let server = LanguageServer { id: 4, name: "rust-analyzer".to_string() };
    db.start_language_server(&StartLanguageServer { project_id, server: server.clone() }, ConnectionId(10)).unwrap();
    let (project, replica_id) = db.join_project(project_id, ConnectionId(20)).unwrap();
    assert_eq!(replica_id, ReplicaId(1));
    assert_eq!(project.worktrees.len(), 1);
    let worktree = &project.worktrees[0];
    assert_eq!(worktree.root_name, "src");
    assert_eq!(worktree.scan_id, 3);
    assert!(worktree.is_complete);
    assert_eq!(worktree.entries, vec![entry(7, "src/main.rs")]);
    assert_eq!(worktree.diagnostic_summaries, vec![summary]);
    assert_eq!(project.language_servers, vec![server]);
}

#[test]
fn update_project_keeps_guest_replica() {
    let mut db = Db::new();
    let (_, project_id) = shared(&mut db);
    let (_, replica_id) = db.join_project(project_id, ConnectionId(20)).unwrap();
    assert_eq!(replica_id, ReplicaId(1));
    let (room, guests) = db
        .update_project(project_id, ConnectionId(10), &vec![metadata(1, "src"), metadata(2, "docs")])
        .unwrap();
    assert_eq!(guests, vec![ConnectionId(20)]);
    assert_eq!(
        room.participants[0].projects[0].worktree_root_names,
        vec!["src".to_string(), "docs".to_string()]
    );
    let collaborators = db.project_collaborators(project_id, ConnectionId(20)).unwrap();
    let guest = collaborators.iter().find(|c| c.connection_id == ConnectionId(20)).unwrap();
    assert_eq!(guest.replica_id, ReplicaId(1));
    let (project, _) = {
        db.leave_project(project_id, ConnectionId(20)).unwrap();
        db.join_project(project_id, ConnectionId(20)).unwrap()
    };
    assert_eq!(project.worktrees.len(), 2);
}

#[test]
fn update_project_drops_unlisted_worktrees_and_renames() {
    let mut db = Db::new();
    let (_, project_id) = shared(&mut db);
    db.update_worktree(&update(project_id, vec![entry(1, "a")], vec![]), ConnectionId(10)).unwrap();
    db.update_project(project_id, ConnectionId(10), &vec![metadata(2, "docs")]).unwrap();
    assert_eq!(db.worktrees.len(), 1);
    assert_eq!(db.worktrees[0].id, WorktreeId(2));
    assert!(db.entries.is_empty());
    db.update_project(project_id, ConnectionId(10), &vec![metadata(2, "manual")]).unwrap();
    assert_eq!(db.worktrees[0].root_name, "manual");
    assert_eq!(db.update_project(project_id, ConnectionId(20), &vec![]).unwrap_err(), Error::NotHost);
    assert_eq!(db.update_project(ProjectId(8), ConnectionId(10), &vec![]).unwrap_err(), Error::NoSuchProject);
}

#[test]
fn updated_then_removed_entry_is_gone() {
    let mut db = Db::new();
    let (_, project_id) = shared(&mut db);
    db.join_project(project_id, ConnectionId(20)).unwrap();
    let guests = db.update_worktree(&update(project_id, vec![entry(9, "x.rs")], vec![]), ConnectionId(10)).unwrap();
    assert_eq!(guests, vec![ConnectionId(20)]);
    assert_eq!(db.entries.iter().filter(|e| e.entry.id == 9).count(), 1);
    db.update_worktree(&update(project_id, vec![], vec![9]), ConnectionId(10)).unwrap();
    assert_eq!(db.entries.iter().filter(|e| e.entry.id == 9).count(), 0);
}

#[test]
fn updated_entry_replaces_same_id() {
    let mut db = Db::new();
    let (_, project_id) = shared(&mut db);
    db.update_worktree(&update(project_id, vec![entry(9, "old.rs")], vec![]), ConnectionId(10)).unwrap();
    db.update_worktree(&update(project_id, vec![entry(9, "new.rs")], vec![]), ConnectionId(10)).unwrap();
    assert_eq!(db.entries.len(), 1);
    assert_eq!(db.entries[0].entry.path, "new.rs");
}

#[test]
fn update_worktree_errors() {
    let mut db = Db::new();
    let (_, project_id) = shared(&mut db);
    assert_eq!(db.update_worktree(&update(project_id, vec![], vec![]), ConnectionId(20)).unwrap_err(), Error::NotHost);
    assert_eq!(db.update_worktree(&update(ProjectId(5), vec![], vec![]), ConnectionId(10)).unwrap_err(), Error::NoSuchProject);
    let mut missing = update(project_id, vec![], vec![]);
    missing.worktree_id = WorktreeId(77);
    assert_eq!(db.update_worktree(&missing, ConnectionId(10)).unwrap_err(), Error::NoSuchWorktree);
}

#[test]
fn diagnostic_summary_overwrites_same_path() {
    let mut db = Db::new();
    let (_, project_id) = shared(&mut db);
    for errors in [1u32, 4u32] {
        let summary = DiagnosticSummary { path: "a.rs".to_string(), language_server_id: 1, error_count: errors, warning_count: 0 };
        db.update_diagnostic_summary(&UpdateDiagnosticSummary { project_id, worktree_id: WorktreeId(1), summary }, ConnectionId(10))
            .unwrap();
    }
    assert_eq!(db.summaries.len(), 1);
    assert_eq!(db.summaries[0].summary.error_count, 4);
    let summary = DiagnosticSummary { path: "a.rs".to_string(), language_server_id: 1, error_count: 0, warning_count: 0 };
    assert_eq!(
        db.update_diagnostic_summary(&UpdateDiagnosticSummary { project_id, worktree_id: WorktreeId(1), summary }, ConnectionId(20))
            .unwrap_err(),
        Error::NotHost
    );
}

#[test]
fn language_server_upserts_by_id() {
    let mut db = Db::new();
    let (_, project_id) = shared(&mut db);
    for name in ["first", "second"] {
        let server = LanguageServer { id: 3, name: name.to_string() };
        db.start_language_server(&StartLanguageServer { project_id, server }, ConnectionId(10)).unwrap();
    }
    assert_eq!(db.language_servers.len(), 1);
    assert_eq!(db.language_servers[0].server.name, "second");
}

#[test]
fn leave_project_reports_host_and_rest() {
    let mut db = Db::new();
    let (_, project_id) = shared(&mut db);
    db.join_project(project_id, ConnectionId(20)).unwrap();
    let left = db.leave_project(project_id, ConnectionId(20)).unwrap();
    assert_eq!(left.id, project_id);
    assert_eq!(left.host_user_id, UserId(1));
    assert_eq!(left.host_connection_id, ConnectionId(10));
    assert_eq!(left.connection_ids, vec![ConnectionId(10)]);
    assert_eq!(db.leave_project(project_id, ConnectionId(20)).unwrap_err(), Error::NotACollaborator);
}

#[test]
fn project_queries_need_membership() {
    let mut db = Db::new();
    let (_, project_id) = shared(&mut db);
    assert_eq!(db.project_collaborators(project_id, ConnectionId(20)).unwrap_err(), Error::NoSuchProject);
    assert_eq!(db.project_connection_ids(project_id, ConnectionId(20)).unwrap_err(), Error::NoSuchProject);
    db.join_project(project_id, ConnectionId(20)).unwrap();
    assert_eq!(db.project_connection_ids(project_id, ConnectionId(20)).unwrap(), vec![ConnectionId(10), ConnectionId(20)]);
    assert_eq!(db.get_guest_connection_ids(project_id), vec![ConnectionId(20)]);
}

#[test]
fn unshare_project_removes_everything() {
    let mut db = Db::new();
    let (_, project_id) = shared(&mut db);
    db.join_project(project_id, ConnectionId(20)).unwrap();
    db.update_worktree(&update(project_id, vec![entry(1, "a")], vec![]), ConnectionId(10)).unwrap();
    assert_eq!(db.unshare_project(project_id, ConnectionId(20)).unwrap_err(), Error::NotHost);
    let (room, guests) = db.unshare_project(project_id, ConnectionId(10)).unwrap();
    assert_eq!(guests, vec![ConnectionId(20)]);
    assert!(room.participants.iter().all(|p| p.projects.is_empty()));
    assert!(db.projects.is_empty() && db.collaborators.is_empty() && db.worktrees.is_empty() && db.entries.is_empty());
    assert_eq!(db.unshare_project(project_id, ConnectionId(10)).unwrap_err(), Error::NoSuchProject);
}

#[test]
fn replica_ids_stay_unique_per_project() {
    let mut db = Db::new();
    let (room_id, project_id) = shared(&mut db);
    for (user, conn) in [(3, 30), (4, 40), (5, 50)] {
        db.call(room_id, UserId(1), ConnectionId(10), UserId(user), None).unwrap();
        db.join_room(room_id, UserId(user), ConnectionId(conn)).unwrap();
    }
    for conn in [20, 30, 40, 50] {
        db.join_project(project_id, ConnectionId(conn)).unwrap();
    }
    db.leave_project(project_id, ConnectionId(30)).unwrap();
    db.join_project(project_id, ConnectionId(30)).unwrap();
    let mut ids: Vec<i32> = db.collaborators.iter().map(|c| c.replica_id.0).collect();
    ids.sort();
    assert_eq!(ids, vec![0, 1, 2, 3, 4]);
    let host = db.collaborators.iter().find(|c| c.is_host).unwrap();
    assert_eq!(host.replica_id, ReplicaId(0));
}

#[test]
fn duplicate_entry_ids_in_one_update_are_refused() {
    let mut db = Db::new();
    let (_, project_id) = shared(&mut db);
    let twice = update(project_id, vec![entry(1, "a"), entry(1, "b")], vec![]);
    assert_eq!(db.update_worktree(&twice, ConnectionId(10)).unwrap_err(), Error::DuplicateEntry);
    assert!(db.entries.is_empty());
    assert_eq!(db.worktrees[0].scan_id, 0);
}

#[test]
fn update_and_remove_in_one_update() {
    let mut db = Db::new();
    let (_, project_id) = shared(&mut db);
    db.update_worktree(&update(project_id, vec![entry(1, "a"), entry(2, "b")], vec![]), ConnectionId(10)).unwrap();
    db.update_worktree(&update(project_id, vec![entry(3, "c")], vec![1, 3]), ConnectionId(10)).unwrap();
    let ids: Vec<u64> = db.entries.iter().map(|e| e.entry.id).collect();
    assert_eq!(ids, vec![2]);
}
