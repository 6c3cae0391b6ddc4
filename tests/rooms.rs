use collab_db::error::Error;
use collab_db::ids::{ConnectionId, ProjectId, RoomId, UserId};
use collab_db::rooms::{build_incoming_call, resolve_location, ParticipantLocation, ROOM_TOKEN_LEN};
use collab_db::schema::Db;

fn room_with_creator(db: &mut Db, user: i32, conn: u32) -> RoomId {
    db.create_room(UserId(user), ConnectionId(conn)).unwrap().id
}

#[test]
fn create_room_joins_creator() {
    let mut db = Db::new();
    let room = db.create_room(UserId(1), ConnectionId(10)).unwrap();
    assert_eq!(room.id, RoomId(1));
    assert_eq!(room.participants.len(), 1);
    assert_eq!(room.participants[0].user_id, UserId(1));
    assert_eq!(room.participants[0].peer_id, ConnectionId(10));
    assert_eq!(room.participants[0].location, ParticipantLocation::External);
    assert!(room.pending_participants.is_empty());
}

#[test]
fn room_token_is_random_url_safe_text() {
    let mut db = Db::new();
    let first = db.create_room(UserId(1), ConnectionId(10)).unwrap();
    let second = db.create_room(UserId(2), ConnectionId(20)).unwrap();
    assert_eq!(first.live_kit_room.chars().count(), ROOM_TOKEN_LEN);
    assert!(first
        .live_kit_room
        .chars()
        .all(|c| c == '_' || c == '-' || c.is_ascii_alphanumeric()));
    assert_ne!(first.live_kit_room, second.live_kit_room);
    assert_eq!(second.id, RoomId(2));
}

#[test]
fn create_room_refuses_user_in_a_room() {
    let mut db = Db::new();
    room_with_creator(&mut db, 1, 10);
    assert_eq!(db.create_room(UserId(1), ConnectionId(11)).unwrap_err(), Error::AlreadyInRoom);
    assert_eq!(db.create_room(UserId(2), ConnectionId(10)).unwrap_err(), Error::ConnectionInUse);
}

#[test]
fn call_adds_pending_participant_and_offers_call() {
    let mut db = Db::new();
    let room_id = room_with_creator(&mut db, 1, 10);
    let (room, call) = db.call(room_id, UserId(1), ConnectionId(10), UserId(2), None).unwrap();
    assert_eq!(room.pending_participants.len(), 1);
    assert_eq!(room.pending_participants[0].user_id, UserId(2));
    assert_eq!(room.pending_participants[0].calling_user_id, UserId(1));
    assert_eq!(call.room_id, room_id);
    assert_eq!(call.calling_user_id, UserId(1));
    assert_eq!(call.participant_user_ids, vec![UserId(1)]);
    assert!(call.initial_project.is_none());
    let incoming = db.incoming_call_for_user(UserId(2)).unwrap();
    assert_eq!(incoming, call);
    assert!(db.incoming_call_for_user(UserId(1)).is_none());
}

#[test]
fn call_refuses_caller_outside_room_and_busy_callee() {
    let mut db = Db::new();
    let room_id = room_with_creator(&mut db, 1, 10);
    room_with_creator(&mut db, 3, 30);
    assert_eq!(
        db.call(room_id, UserId(1), ConnectionId(11), UserId(2), None).unwrap_err(),
        Error::NotInRoom
    );
    assert_eq!(
        db.call(room_id, UserId(1), ConnectionId(10), UserId(3), None).unwrap_err(),
        Error::AlreadyInRoom
    );
}

#[test]
fn incoming_call_names_initial_project() {
    let mut db = Db::new();
    let room_id = room_with_creator(&mut db, 1, 10);
    let (project_id, _) = db.share_project(room_id, ConnectionId(10), &vec![]).unwrap();
    let (_, call) = db
        .call(room_id, UserId(1), ConnectionId(10), UserId(2), Some(project_id))
        .unwrap();
    let project = call.initial_project.unwrap();
    assert_eq!(project.id, project_id);
    assert!(project.worktree_root_names.is_empty());
}

#[test]
fn build_incoming_call_without_pending_user_is_none() {
    let mut db = Db::new();
    let room = db.create_room(UserId(1), ConnectionId(10)).unwrap();
    assert!(build_incoming_call(&room, UserId(2)).is_none());
}

#[test]
fn join_room_answers_pending_call() {
    let mut db = Db::new();
    let room_id = room_with_creator(&mut db, 1, 10);
    db.call(room_id, UserId(1), ConnectionId(10), UserId(2), None).unwrap();
    let room = db.join_room(room_id, UserId(2), ConnectionId(20)).unwrap();
    assert_eq!(room.participants.len(), 2);
    assert!(room.pending_participants.is_empty());
    assert_eq!(room.participants[1].peer_id, ConnectionId(20));
}

#[test]
fn join_room_without_pending_call_fails() {
    let mut db = Db::new();
    let room_id = room_with_creator(&mut db, 1, 10);
    assert_eq!(db.join_room(room_id, UserId(2), ConnectionId(20)).unwrap_err(), Error::NoSuchPendingCall);
    db.call(room_id, UserId(1), ConnectionId(10), UserId(2), None).unwrap();
    assert_eq!(db.join_room(room_id, UserId(2), ConnectionId(10)).unwrap_err(), Error::ConnectionInUse);
    db.join_room(room_id, UserId(2), ConnectionId(20)).unwrap();
    assert_eq!(db.join_room(room_id, UserId(2), ConnectionId(21)).unwrap_err(), Error::NoSuchPendingCall);
}

#[test]
fn decline_call_removes_pending_row() {
    let mut db = Db::new();
    let room_id = room_with_creator(&mut db, 1, 10);
    db.call(room_id, UserId(1), ConnectionId(10), UserId(2), None).unwrap();
    assert_eq!(db.decline_call(Some(RoomId(99)), UserId(2)).unwrap_err(), Error::UnexpectedRoom);
    let room = db.decline_call(Some(room_id), UserId(2)).unwrap();
    assert!(room.pending_participants.is_empty());
    assert_eq!(db.decline_call(None, UserId(2)).unwrap_err(), Error::NoSuchPendingCall);
}

#[test]
fn cancel_call_only_by_calling_connection() {
    let mut db = Db::new();
    let room_id = room_with_creator(&mut db, 1, 10);
    db.call(room_id, UserId(1), ConnectionId(10), UserId(2), None).unwrap();
    assert_eq!(db.cancel_call(None, ConnectionId(11), UserId(2)).unwrap_err(), Error::NoSuchPendingCall);
    assert_eq!(
        db.cancel_call(Some(RoomId(42)), ConnectionId(10), UserId(2)).unwrap_err(),
        Error::UnexpectedRoom
    );
    let room = db.cancel_call(None, ConnectionId(10), UserId(2)).unwrap();
    assert!(room.pending_participants.is_empty());
}

#[test]
fn call_failed_drops_pending_row_only() {
    let mut db = Db::new();
    let room_id = room_with_creator(&mut db, 1, 10);
    db.call(room_id, UserId(1), ConnectionId(10), UserId(2), None).unwrap();
    let room = db.call_failed(room_id, UserId(2)).unwrap();
    assert!(room.pending_participants.is_empty());
    let room = db.call_failed(room_id, UserId(1)).unwrap();
    assert_eq!(room.participants.len(), 1);
    assert_eq!(db.call_failed(RoomId(7), UserId(2)).unwrap_err(), Error::NoSuchRoom);
}

#[test]
fn location_updates_show_in_room_view() {
    let mut db = Db::new();
    let room_id = room_with_creator(&mut db, 1, 10);
    let room = db
        .update_room_participant_location(room_id, ConnectionId(10), ParticipantLocation::SharedProject { project_id: ProjectId(5) })
        .unwrap();
    assert_eq!(room.participants[0].location, ParticipantLocation::SharedProject { project_id: ProjectId(5) });
    let room = db
        .update_room_participant_location(room_id, ConnectionId(10), ParticipantLocation::UnsharedProject)
        .unwrap();
    assert_eq!(room.participants[0].location, ParticipantLocation::UnsharedProject);
    assert_eq!(
        db.update_room_participant_location(room_id, ConnectionId(11), ParticipantLocation::External)
            .unwrap_err(),
        Error::NotInRoom
    );
}

#[test]
fn stored_location_kinds_resolve() {
    assert_eq!(resolve_location(Some(0), Some(ProjectId(3))), ParticipantLocation::SharedProject { project_id: ProjectId(3) });
    assert_eq!(resolve_location(Some(0), None), ParticipantLocation::External);
    assert_eq!(resolve_location(Some(1), None), ParticipantLocation::UnsharedProject);
    assert_eq!(resolve_location(Some(2), None), ParticipantLocation::External);
    assert_eq!(resolve_location(Some(7), Some(ProjectId(1))), ParticipantLocation::External);
    assert_eq!(resolve_location(None, None), ParticipantLocation::External);
}

#[test]
fn creator_disconnect_cancels_pending_call() {
    let mut db = Db::new();
    let room_id = room_with_creator(&mut db, 1, 10);
    db.call(room_id, UserId(1), ConnectionId(10), UserId(2), None).unwrap();
    let left = db.leave_room(ConnectionId(10)).unwrap();
    assert_eq!(left.room.id, room_id);
    assert!(left.room.participants.is_empty());
    assert!(left.room.pending_participants.is_empty());
    assert_eq!(left.canceled_calls_to_user_ids, vec![UserId(2)]);
    assert!(db.incoming_call_for_user(UserId(2)).is_none());
    assert!(!db.is_user_busy(UserId(2)));
}

#[test]
fn leave_room_twice_is_a_no_op() {
    let mut db = Db::new();
    room_with_creator(&mut db, 1, 10);
    assert!(db.leave_room(ConnectionId(10)).is_some());
    let participants = db.participants.clone();
    assert!(db.leave_room(ConnectionId(10)).is_none());
    assert_eq!(db.participants, participants);
    assert!(db.leave_room(ConnectionId(99)).is_none());
}

#[test]
fn host_disconnect_unshares_projects() {
    let mut db = Db::new();
    let room_id = room_with_creator(&mut db, 1, 10);
    db.call(room_id, UserId(1), ConnectionId(10), UserId(2), None).unwrap();
    db.join_room(room_id, UserId(2), ConnectionId(20)).unwrap();
    let (project_id, _) = db.share_project(room_id, ConnectionId(10), &vec![]).unwrap();
    db.join_project(project_id, ConnectionId(20)).unwrap();
    let left = db.leave_room(ConnectionId(10)).unwrap();
    assert_eq!(left.left_projects.len(), 1);
    assert_eq!(left.left_projects[0].id, project_id);
    assert_eq!(left.left_projects[0].host_user_id, UserId(1));
    assert_eq!(left.left_projects[0].host_connection_id, ConnectionId(10));
    assert_eq!(left.left_projects[0].connection_ids, vec![ConnectionId(20)]);
    assert!(db.projects.is_empty());
    assert!(db.collaborators.is_empty());
    assert_eq!(left.room.participants.len(), 1);
    assert_eq!(left.room.participants[0].user_id, UserId(2));
}

#[test]
fn one_row_per_user_across_rooms() {
    let mut db = Db::new();
    let r1 = room_with_creator(&mut db, 1, 10);
    let r2 = room_with_creator(&mut db, 3, 30);
    db.call(r1, UserId(1), ConnectionId(10), UserId(2), None).unwrap();
    assert_eq!(db.call(r2, UserId(3), ConnectionId(30), UserId(2), None).unwrap_err(), Error::AlreadyInRoom);
    assert_eq!(db.participants.iter().filter(|p| p.user_id == UserId(2)).count(), 1);
}
