use collab_db::contacts::{canonical_pair, Contact};
use collab_db::error::Error;
use collab_db::ids::{ConnectionId, UserId};
use collab_db::schema::Db;

#[test]
fn canonical_pair_orders_users() {
    assert_eq!(canonical_pair(UserId(5), UserId(2)), (UserId(2), UserId(5), false));
    assert_eq!(canonical_pair(UserId(2), UserId(5)), (UserId(2), UserId(5), true));
}

#[test]
fn request_then_accept() {
    let mut db = Db::new();
    db.send_contact_request(UserId(1), UserId(2)).unwrap();
    assert_eq!(db.get_contacts(UserId(1)), vec![Contact::Outgoing { user_id: UserId(2) }]);
    assert_eq!(db.get_contacts(UserId(2)), vec![Contact::Incoming { user_id: UserId(1), should_notify: true }]);
    assert!(!db.has_contact(UserId(1), UserId(2)));
    db.respond_to_contact_request(UserId(2), UserId(1), true).unwrap();
    assert!(db.has_contact(UserId(2), UserId(1)));
    assert_eq!(
        db.get_contacts(UserId(1)),
        vec![Contact::Accepted { user_id: UserId(2), should_notify: true, busy: false }]
    );
    assert_eq!(
        db.get_contacts(UserId(2)),
        vec![Contact::Accepted { user_id: UserId(1), should_notify: false, busy: false }]
    );
}

#[test]
fn mutual_requests_make_one_accepted_row() {
    for (x, y) in [(1, 2), (2, 1)] {
        let mut db = Db::new();
        db.send_contact_request(UserId(x), UserId(y)).unwrap();
        db.send_contact_request(UserId(y), UserId(x)).unwrap();
        assert_eq!(db.contacts.len(), 1);
        assert!(db.contacts[0].accepted);
        assert!(db.has_contact(UserId(1), UserId(2)));
    }
}

#[test]
fn repeated_request_is_refused() {
    let mut db = Db::new();
    db.send_contact_request(UserId(1), UserId(2)).unwrap();
    assert_eq!(db.send_contact_request(UserId(1), UserId(2)).unwrap_err(), Error::ContactAlreadyRequested);
    db.send_contact_request(UserId(2), UserId(1)).unwrap();
    assert_eq!(db.send_contact_request(UserId(2), UserId(1)).unwrap_err(), Error::ContactAlreadyRequested);
    assert_eq!(db.send_contact_request(UserId(3), UserId(3)).unwrap_err(), Error::SameUser);
}

#[test]
fn decline_deletes_request() {
    let mut db = Db::new();
    db.send_contact_request(UserId(1), UserId(2)).unwrap();
    assert_eq!(db.respond_to_contact_request(UserId(1), UserId(2), false).unwrap_err(), Error::NoSuchContactRequest);
    db.respond_to_contact_request(UserId(2), UserId(1), false).unwrap();
    assert!(db.contacts.is_empty());
    assert_eq!(db.respond_to_contact_request(UserId(2), UserId(1), true).unwrap_err(), Error::NoSuchContactRequest);
}

#[test]
fn remove_contact_deletes_pair() {
    let mut db = Db::new();
    db.send_contact_request(UserId(4), UserId(3)).unwrap();
    db.respond_to_contact_request(UserId(3), UserId(4), true).unwrap();
    db.remove_contact(UserId(3), UserId(4)).unwrap();
    assert!(db.get_contacts(UserId(3)).is_empty());
    assert_eq!(db.remove_contact(UserId(3), UserId(4)).unwrap_err(), Error::NoSuchContact);
}

#[test]
fn dismiss_notifications() {
    let mut db = Db::new();
    db.send_contact_request(UserId(1), UserId(2)).unwrap();
    assert_eq!(db.dismiss_contact_notification(UserId(1), UserId(2)).unwrap_err(), Error::NoSuchContactRequest);
    db.dismiss_contact_notification(UserId(2), UserId(1)).unwrap();
    assert_eq!(db.get_contacts(UserId(2)), vec![Contact::Incoming { user_id: UserId(1), should_notify: false }]);
    db.respond_to_contact_request(UserId(2), UserId(1), true).unwrap();
    db.dismiss_contact_notification(UserId(1), UserId(2)).unwrap();
    assert_eq!(
        db.get_contacts(UserId(1)),
        vec![Contact::Accepted { user_id: UserId(2), should_notify: false, busy: false }]
    );
}

#[test]
fn contacts_sorted_by_user_with_busy_flag() {
    let mut db = Db::new();
    db.send_contact_request(UserId(5), UserId(9)).unwrap();
    db.send_contact_request(UserId(5), UserId(2)).unwrap();
    db.send_contact_request(UserId(7), UserId(5)).unwrap();
    db.respond_to_contact_request(UserId(5), UserId(7), true).unwrap();
    db.create_room(UserId(7), ConnectionId(70)).unwrap();
    assert!(db.is_user_busy(UserId(7)));
    let contacts = db.get_contacts(UserId(5));
    let ids: Vec<UserId> = contacts.iter().map(|c| c.user_id()).collect();
    assert_eq!(ids, vec![UserId(2), UserId(7), UserId(9)]);
    assert_eq!(contacts[1], Contact::Accepted { user_id: UserId(7), should_notify: false, busy: true });
}
