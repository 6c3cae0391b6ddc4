//! The contact graph. Each pair of users has at most one row, stored under
//! the ordered pair with a flag for which of them asked.
use vstd::prelude::*;
use crate::error::Error;
use crate::ids::UserId;
use crate::rooms::has_row;
use crate::schema::{
    contacts_ok, lemma_filter_all, lemma_filter_pairwise, lemma_push_pairwise, lemma_update_pairwise,
    retain, same_projects, same_rooms, ContactRow, Db,
};

verus! {

broadcast use vstd::seq_lib::group_filter_ensures;

/// A relationship as one of its two users sees it.
#[derive(Clone, Copy, Debug, PartialEq, Eq, Structural)]
pub enum Contact {
    Accepted { user_id: UserId, should_notify: bool, busy: bool },
    Outgoing { user_id: UserId },
    Incoming { user_id: UserId, should_notify: bool },
}

/// A contact request as its receiver sees it.
#[derive(Clone, Copy, Debug, PartialEq, Eq, Structural)]
pub struct IncomingContactRequest {
    pub requester_id: UserId,
    pub should_notify: bool,
}

pub open spec fn contact_user_id(c: Contact) -> UserId {
    match c {
        Contact::Accepted { user_id, .. } => user_id,
        Contact::Outgoing { user_id } => user_id,
        Contact::Incoming { user_id, .. } => user_id,
    }
}

impl Contact {
    /// The other user of the relationship.
    pub fn user_id(&self) -> (r: UserId)
        ensures
            r == contact_user_id(*self),
    {
        match self {
            Contact::Accepted { user_id, .. } => *user_id,
            Contact::Outgoing { user_id } => *user_id,
            Contact::Incoming { user_id, .. } => *user_id,
        }
    }
}

/// The ordered pair of two distinct users, and whether the first one is the
/// one who asks.
pub open spec fn canonical(asker: UserId, other: UserId) -> (UserId, UserId, bool) {
    if asker.0 < other.0 {
        (asker, other, true)
    } else {
        (other, asker, false)
    }
}

/// The row stands for the pair of users.
pub open spec fn is_pair(row: ContactRow, a: UserId, b: UserId) -> bool {
    row.user_id_a == a && row.user_id_b == b
}

/// Position of the pair's row.
pub open spec fn pair_row(rows: Seq<ContactRow>, a: UserId, b: UserId, k: int) -> bool {
    0 <= k < rows.len() && is_pair(rows[k], a, b)
}

pub open spec fn pair_stored(rows: Seq<ContactRow>, a: UserId, b: UserId) -> bool {
    exists|k: int| #[trigger] pair_row(rows, a, b, k)
}

/// Only the contact table differs between the two stores.
pub open spec fn same_except_contacts(a: Db, b: Db) -> bool {
    same_rooms(a, b) && same_projects(a, b) && a.participants@ == b.participants@
}

/// The table after `sender` asked `receiver` to be a contact, when that succeeds:
/// a new request, or the acceptance of the receiver's own pending request.
pub open spec fn request_applies(rows: Seq<ContactRow>, sender: UserId, receiver: UserId) -> bool {
    let (a, b, a_to_b) = canonical(sender, receiver);
    &&& sender != receiver
    &&& forall|k: int| #[trigger] pair_row(rows, a, b, k) ==> !rows[k].accepted && rows[k].a_to_b != a_to_b
}

pub open spec fn contact_requested(rows: Seq<ContactRow>, after: Seq<ContactRow>, sender: UserId, receiver: UserId) -> bool {
    let (a, b, a_to_b) = canonical(sender, receiver);
    if pair_stored(rows, a, b) {
        exists|k: int| #[trigger] pair_row(rows, a, b, k)
            && after == rows.update(k, ContactRow { accepted: true, should_notify: false, ..rows[k] })
    } else {
        after == rows.push(ContactRow { user_id_a: a, user_id_b: b, a_to_b, accepted: false, should_notify: true })
    }
}

/// Rows of other pairs.
pub open spec fn other_pair(a: UserId, b: UserId) -> spec_fn(ContactRow) -> bool {
    |r: ContactRow| !is_pair(r, a, b)
}

/// The row involves the user.
pub open spec fn involves(row: ContactRow, user_id: UserId) -> bool {
    row.user_id_a == user_id || row.user_id_b == user_id
}

/// The other user of a row that involves `user_id`.
pub open spec fn peer(row: ContactRow, user_id: UserId) -> UserId {
    if row.user_id_a == user_id {
        row.user_id_b
    } else {
        row.user_id_a
    }
}

/// The relationship of a row as `user_id` sees it.
pub open spec fn contact_view(row: ContactRow, user_id: UserId, busy: bool) -> Contact {
    if row.user_id_a == user_id {
        if row.accepted {
            Contact::Accepted { user_id: row.user_id_b, should_notify: row.should_notify && row.a_to_b, busy }
        } else if row.a_to_b {
            Contact::Outgoing { user_id: row.user_id_b }
        } else {
            Contact::Incoming { user_id: row.user_id_b, should_notify: row.should_notify }
        }
    } else if row.accepted {
        Contact::Accepted { user_id: row.user_id_a, should_notify: row.should_notify && !row.a_to_b, busy }
    } else if row.a_to_b {
        Contact::Incoming { user_id: row.user_id_a, should_notify: row.should_notify }
    } else {
        Contact::Outgoing { user_id: row.user_id_a }
    }
}

/// The contact the user sees for row `k`, with the other user's presence in a room.
pub open spec fn contact_of(db: Db, user_id: UserId, k: int) -> Contact {
    contact_view(db.contacts@[k], user_id, has_row(db.participants@, peer(db.contacts@[k], user_id)))
}

/// `cs` lists the user's contacts, one for each row that involves the user,
/// ordered by the other user's id.
pub open spec fn contacts_listed(db: Db, user_id: UserId, cs: Seq<Contact>, upto: int) -> bool {
    &&& forall|i: int, j: int| 0 <= i < j < cs.len() ==> (#[trigger] contact_user_id(cs[i])).0 < (#[trigger] contact_user_id(cs[j])).0
    &&& forall|i: int| 0 <= i < cs.len() ==> exists|k: int| 0 <= k < upto && involves(db.contacts@[k], user_id)
        && #[trigger] cs[i] == contact_of(db, user_id, k)
    &&& forall|k: int| 0 <= k < upto && involves(#[trigger] db.contacts@[k], user_id) ==> cs.contains(contact_of(db, user_id, k))
}

/// The ordered pair of two users, and whether the first one is `asker`.
pub fn canonical_pair(asker: UserId, other: UserId) -> (r: (UserId, UserId, bool))
    ensures
        r == canonical(asker, other),
{
    if asker.0 < other.0 {
        (asker, other, true)
    } else {
        (other, asker, false)
    }
}

/// Every stored pair is ordered.
proof fn lemma_pairs_ordered(before: Seq<ContactRow>, after: Seq<ContactRow>, k: int, row: ContactRow)
    requires
        forall|i: int| 0 <= i < before.len() ==> #[trigger] before[i].user_id_a.0 < before[i].user_id_b.0,
        row.user_id_a.0 < row.user_id_b.0,
        (0 <= k < before.len() && after == before.update(k, row)) || after == before.push(row),
    ensures
        forall|i: int| 0 <= i < after.len() ==> #[trigger] after[i].user_id_a.0 < after[i].user_id_b.0,
{
    assert forall|i: int| 0 <= i < after.len() implies #[trigger] after[i].user_id_a.0 < after[i].user_id_b.0 by {
        if after == before.push(row) {
            if i < before.len() {
                assert(after[i] == before[i]);
            }
        } else if i != k {
            assert(after[i] == before[i]);
        }
    }
}

impl Db {
    /// Position of the pair's row.
    fn find_pair(&self, a: UserId, b: UserId) -> (r: Option<usize>)
        ensures
            match r {
                Some(k) => pair_row(self.contacts@, a, b, k as int),
                None => !pair_stored(self.contacts@, a, b),
            },
    {
        let mut k: usize = 0;
        while k < self.contacts.len()
            invariant
                k <= self.contacts@.len(),
                forall|x: int| 0 <= x < k ==> !#[trigger] pair_row(self.contacts@, a, b, x),
            decreases self.contacts@.len() - k,
        {
            if self.contacts[k].user_id_a == a && self.contacts[k].user_id_b == b {
                return Some(k);
            }
            k = k + 1;
        }
        None
    }

    /// Asks `receiver_id` to be a contact of `sender_id`. If the receiver had
    /// asked the sender already, the two become contacts.
    pub fn send_contact_request(&mut self, sender_id: UserId, receiver_id: UserId) -> (r: Result<(), Error>)
        requires
            old(self).wf(),
        ensures
            final(self).wf(),
            r is Ok <==> request_applies(old(self).contacts@, sender_id, receiver_id),
            match r {
                Ok(_) => contact_requested(old(self).contacts@, final(self).contacts@, sender_id, receiver_id)
                    && same_except_contacts(*old(self), *final(self)),
                Err(e) => *final(self) == *old(self) && e == if sender_id == receiver_id {
                    Error::SameUser
                } else {
                    Error::ContactAlreadyRequested
                },
            },
    {
        if sender_id == receiver_id {
            return Err(Error::SameUser);
        }
        let (a, b, a_to_b) = canonical_pair(sender_id, receiver_id);
        let ghost s = self.contacts@;
        match self.find_pair(a, b) {
            Some(k) => {
                proof {
                    assert forall|x: int| #[trigger] pair_row(s, a, b, x) implies x == k by {
                        if x != k {
                            assert(contacts_ok()(s[x], s[k as int]));
                        }
                    }
                }
                let row = self.contacts[k];
                if row.accepted || row.a_to_b == a_to_b {
                    assert(pair_row(s, a, b, k as int));
                    return Err(Error::ContactAlreadyRequested);
                }
                let new_row = ContactRow { accepted: true, should_notify: false, ..row };
                proof {
                    assert forall|x: int| 0 <= x < s.len() && x != k implies #[trigger] contacts_ok()(s[x], new_row)
                        && contacts_ok()(new_row, s[x]) by {
                        assert(contacts_ok()(s[x], s[k as int]));
                    }
                    lemma_update_pairwise(s, k as int, new_row, contacts_ok());
                }
                self.contacts.set(k, new_row);
                proof {
                    assert(s[k as int].user_id_a.0 < s[k as int].user_id_b.0);
                    lemma_pairs_ordered(s, self.contacts@, k as int, new_row);
                }
            },
            None => {
                let new_row = ContactRow { user_id_a: a, user_id_b: b, a_to_b, accepted: false, should_notify: true };
                proof {
                    assert forall|x: int| 0 <= x < s.len() implies #[trigger] contacts_ok()(s[x], new_row)
                        && contacts_ok()(new_row, s[x]) by {
                        assert(!pair_row(s, a, b, x));
                    }
                    lemma_push_pairwise(s, new_row, contacts_ok());
                }
                self.contacts.push(new_row);
                proof {
                    lemma_pairs_ordered(s, self.contacts@, 0, new_row);
                }
            },
        }
        Ok(())
    }

    /// Answers the request that `requester_id` sent to `responder_id`:
    /// accepting marks the pair as contacts, refusing deletes the request.
    pub fn respond_to_contact_request(&mut self, responder_id: UserId, requester_id: UserId, accept: bool) -> (r: Result<(), Error>)
        requires
            old(self).wf(),
        ensures
            final(self).wf(),
            ({
                let (a, b, a_to_b) = canonical(requester_id, responder_id);
                &&& r is Ok <==> exists|k: int| #[trigger] pair_row(old(self).contacts@, a, b, k)
                    && old(self).contacts@[k].a_to_b == a_to_b && (accept || !old(self).contacts@[k].accepted)
                &&& match r {
                    Ok(_) => same_except_contacts(*old(self), *final(self)) && if accept {
                        exists|k: int| #[trigger] pair_row(old(self).contacts@, a, b, k)
                            && final(self).contacts@ == old(self).contacts@.update(k,
                                ContactRow { accepted: true, should_notify: true, ..old(self).contacts@[k] })
                    } else {
                        final(self).contacts@ == old(self).contacts@.filter(other_pair(a, b))
                    },
                    Err(e) => *final(self) == *old(self) && e == Error::NoSuchContactRequest,
                }
            }),
    {
        let (a, b, a_to_b) = canonical_pair(requester_id, responder_id);
        let ghost s = self.contacts@;
        let k = match self.find_pair(a, b) {
            Some(k) => k,
            None => {
                return Err(Error::NoSuchContactRequest);
            },
        };
        proof {
            assert forall|x: int| #[trigger] pair_row(s, a, b, x) implies x == k by {
                if x != k {
                    assert(contacts_ok()(s[x], s[k as int]));
                }
            }
        }
        let row = self.contacts[k];
        if row.a_to_b != a_to_b || (!accept && row.accepted) {
            return Err(Error::NoSuchContactRequest);
        }
        assert(pair_row(s, a, b, k as int));
        if accept {
            let new_row = ContactRow { accepted: true, should_notify: true, ..row };
            proof {
                assert forall|x: int| 0 <= x < s.len() && x != k implies #[trigger] contacts_ok()(s[x], new_row)
                    && contacts_ok()(new_row, s[x]) by {
                    assert(contacts_ok()(s[x], s[k as int]));
                }
                lemma_update_pairwise(s, k as int, new_row, contacts_ok());
            }
            self.contacts.set(k, new_row);
            proof {
                assert(s[k as int].user_id_a.0 < s[k as int].user_id_b.0);
                lemma_pairs_ordered(s, self.contacts@, k as int, new_row);
            }
        } else {
            self.delete_pair(a, b);
        }
        Ok(())
    }

    /// Deletes the pair's row.
    fn delete_pair(&mut self, a: UserId, b: UserId)
        requires
            old(self).wf(),
        ensures
            final(self).wf(),
            final(self).contacts@ == old(self).contacts@.filter(other_pair(a, b)),
            same_except_contacts(*old(self), *final(self)),
    {
        let keep = |r: &ContactRow| -> (k: bool)
            ensures
                k == !(r.user_id_a == a && r.user_id_b == b),
            { !(r.user_id_a == a && r.user_id_b == b) };
        retain(&mut self.contacts, keep, Ghost(other_pair(a, b)));
        proof {
            lemma_filter_pairwise(old(self).contacts@, other_pair(a, b), contacts_ok());
            lemma_filter_all(old(self).contacts@, other_pair(a, b), |r: ContactRow| r.user_id_a.0 < r.user_id_b.0);
            assert forall|i: int| 0 <= i < self.contacts@.len() implies #[trigger] self.contacts@[i].user_id_a.0 < self.contacts@[i].user_id_b.0 by {
                assert((|r: ContactRow| r.user_id_a.0 < r.user_id_b.0)(self.contacts@[i]));
            }
        }
    }

    /// Ends the relationship between the two users, whatever its state.
    pub fn remove_contact(&mut self, requester_id: UserId, responder_id: UserId) -> (r: Result<(), Error>)
        requires
            old(self).wf(),
        ensures
            final(self).wf(),
            ({
                let (a, b, _) = canonical(requester_id, responder_id);
                &&& r is Ok <==> pair_stored(old(self).contacts@, a, b)
                &&& match r {
                    Ok(_) => final(self).contacts@ == old(self).contacts@.filter(other_pair(a, b))
                        && same_except_contacts(*old(self), *final(self)),
                    Err(e) => *final(self) == *old(self) && e == Error::NoSuchContact,
                }
            }),
    {
        let (a, b, _) = canonical_pair(requester_id, responder_id);
        if self.find_pair(a, b).is_none() {
            return Err(Error::NoSuchContact);
        }
        self.delete_pair(a, b);
        Ok(())
    }

    /// Clears the notification that `user_id` has about `contact_user_id`: an
    /// acceptance of the user's own request, or a request to the user.
    pub fn dismiss_contact_notification(&mut self, user_id: UserId, contact_user_id: UserId) -> (r: Result<(), Error>)
        requires
            old(self).wf(),
        ensures
            final(self).wf(),
            ({
                let (a, b, a_to_b) = canonical(user_id, contact_user_id);
                &&& r is Ok <==> exists|k: int| #[trigger] pair_row(old(self).contacts@, a, b, k)
                    && (old(self).contacts@[k].a_to_b == a_to_b) == old(self).contacts@[k].accepted
                &&& match r {
                    Ok(_) => same_except_contacts(*old(self), *final(self)) && exists|k: int| #[trigger] pair_row(old(self).contacts@, a, b, k)
                        && final(self).contacts@ == old(self).contacts@.update(k,
                            ContactRow { should_notify: false, ..old(self).contacts@[k] }),
                    Err(e) => *final(self) == *old(self) && e == Error::NoSuchContactRequest,
                }
            }),
    {
        let (a, b, a_to_b) = canonical_pair(user_id, contact_user_id);
        let ghost s = self.contacts@;
        let k = match self.find_pair(a, b) {
            Some(k) => k,
            None => {
                return Err(Error::NoSuchContactRequest);
            },
        };
        proof {
            assert forall|x: int| #[trigger] pair_row(s, a, b, x) implies x == k by {
                if x != k {
                    assert(contacts_ok()(s[x], s[k as int]));
                }
            }
        }
        let row = self.contacts[k];
        if (row.a_to_b == a_to_b) != row.accepted {
            return Err(Error::NoSuchContactRequest);
        }
        assert(pair_row(s, a, b, k as int));
        let new_row = ContactRow { should_notify: false, ..row };
        proof {
            assert forall|x: int| 0 <= x < s.len() && x != k implies #[trigger] contacts_ok()(s[x], new_row)
                && contacts_ok()(new_row, s[x]) by {
                assert(contacts_ok()(s[x], s[k as int]));
            }
            lemma_update_pairwise(s, k as int, new_row, contacts_ok());
        }
        self.contacts.set(k, new_row);
        proof {
            assert(s[k as int].user_id_a.0 < s[k as int].user_id_b.0);
            lemma_pairs_ordered(s, self.contacts@, k as int, new_row);
        }
        Ok(())
    }

    /// Whether the two users are accepted contacts.
    pub fn has_contact(&self, user_id_1: UserId, user_id_2: UserId) -> (r: bool)
        ensures
            ({
                let (a, b, _) = canonical(user_id_1, user_id_2);
                r == exists|k: int| #[trigger] pair_row(self.contacts@, a, b, k) && self.contacts@[k].accepted
            }),
    {
        let (a, b, _) = canonical_pair(user_id_1, user_id_2);
        let mut k: usize = 0;
        while k < self.contacts.len()
            invariant
                k <= self.contacts@.len(),
                a == canonical(user_id_1, user_id_2).0,
                b == canonical(user_id_1, user_id_2).1,
                forall|x: int| 0 <= x < k ==> !(#[trigger] pair_row(self.contacts@, a, b, x) && self.contacts@[x].accepted),
            decreases self.contacts@.len() - k,
        {
            let row = self.contacts[k];
            if row.user_id_a == a && row.user_id_b == b && row.accepted {
                assert(pair_row(self.contacts@, a, b, k as int) && self.contacts@[k as int].accepted);
                return true;
            }
            k = k + 1;
        }
        false
    }

    /// Whether the user holds a row in some room, joined or called.
    pub fn is_user_busy(&self, user_id: UserId) -> (r: bool)
        ensures
            r == has_row(self.participants@, user_id),
    {
        self.find_user_row(user_id).is_some()
    }

    /// The user's contacts, ordered by the other user's id.
    pub fn get_contacts(&self, user_id: UserId) -> (cs: Vec<Contact>)
        requires
            self.wf(),
        ensures
            contacts_listed(*self, user_id, cs@, self.contacts@.len() as int),
    {
        let mut cs: Vec<Contact> = Vec::new();
        let mut k: usize = 0;
        while k < self.contacts.len()
            invariant
                self.wf(),
                k <= self.contacts@.len(),
                contacts_listed(*self, user_id, cs@, k as int),
            decreases self.contacts@.len() - k,
        {
            let row = self.contacts[k];
            if row.user_id_a == user_id || row.user_id_b == user_id {
                let other = if row.user_id_a == user_id { row.user_id_b } else { row.user_id_a };
                let busy = self.is_user_busy(other);
                let c = if row.user_id_a == user_id {
                    if row.accepted {
                        Contact::Accepted { user_id: row.user_id_b, should_notify: row.should_notify && row.a_to_b, busy }
                    } else if row.a_to_b {
                        Contact::Outgoing { user_id: row.user_id_b }
                    } else {
                        Contact::Incoming { user_id: row.user_id_b, should_notify: row.should_notify }
                    }
                } else if row.accepted {
                    Contact::Accepted { user_id: row.user_id_a, should_notify: row.should_notify && !row.a_to_b, busy }
                } else if row.a_to_b {
                    Contact::Incoming { user_id: row.user_id_a, should_notify: row.should_notify }
                } else {
                    Contact::Outgoing { user_id: row.user_id_a }
                };
                assert(c == contact_of(*self, user_id, k as int));
                let mut pos: usize = 0;
                while pos < cs.len() && cs[pos].user_id().0 < other.0
                    invariant
                        pos <= cs@.len(),
                        forall|i: int| 0 <= i < pos ==> (#[trigger] contact_user_id(cs@[i])).0 < other.0,
                    decreases cs@.len() - pos,
                {
                    pos = pos + 1;
                }
                proof {
                    let s = self.contacts@;
                    assert(contact_user_id(c) == other);
                    // Earlier rows that involve the user have other peers.
                    assert forall|i: int| 0 <= i < cs@.len() implies (#[trigger] contact_user_id(cs@[i])) != other by {
                        let x = choose|x: int| 0 <= x < k && involves(s[x], user_id) && cs@[i] == contact_of(*self, user_id, x);
                        assert(contacts_ok()(s[x], s[k as int]));
                    }
                    if pos < cs@.len() {
                        assert(contact_user_id(cs@[pos as int]).0 >= other.0);
                    }
                }
                let ghost old_cs = cs@;
                cs.insert(pos, c);
                proof {
                    assert forall|i: int| 0 <= i < cs@.len() implies exists|x: int| 0 <= x < k + 1 && involves(self.contacts@[x], user_id)
                        && #[trigger] cs@[i] == contact_of(*self, user_id, x) by {
                        if i < pos {
                            assert(cs@[i] == old_cs[i]);
                        } else if i > pos {
                            assert(cs@[i] == old_cs[i - 1]);
                        }
                    }
                    assert forall|x: int| 0 <= x < k + 1 && involves(#[trigger] self.contacts@[x], user_id) implies cs@.contains(contact_of(*self, user_id, x)) by {
                        if x < k {
                            assert(old_cs.contains(contact_of(*self, user_id, x)));
                            let i = choose|i: int| 0 <= i < old_cs.len() && old_cs[i] == contact_of(*self, user_id, x);
                            if i < pos {
                                assert(cs@[i] == old_cs[i]);
                            } else {
                                assert(cs@[i + 1] == old_cs[i]);
                            }
                        } else {
                            assert(cs@[pos as int] == c);
                        }
                    }
                }
            } else {
                proof {
                    assert(!involves(self.contacts@[k as int], user_id));
                }
            }
            k = k + 1;
        }
        cs
    }
}

} // verus!
