//! Records about users, signups and invites that the store hands out.
use vstd::prelude::*;
use crate::ids::UserId;
use crate::schema::Db;

verus! {

/// A registered user.
#[derive(Clone, Debug, Default, PartialEq)]
pub struct User {
    pub id: UserId,
    pub github_login: String,
    pub github_user_id: Option<i32>,
    pub email_address: Option<String>,
    pub admin: bool,
    pub invite_code: Option<String>,
    pub invite_count: i32,
    pub connected_once: bool,
}

/// A request to join the waitlist.
#[derive(Clone, Debug, PartialEq)]
pub struct Signup {
    pub email_address: String,
    pub platform_mac: bool,
    pub platform_windows: bool,
    pub platform_linux: bool,
    pub editor_features: Vec<String>,
    pub programming_languages: Vec<String>,
    pub device_id: Option<String>,
}

/// Counts of waitlist signups, in all and by platform.
#[derive(Clone, Copy, Debug, Default, PartialEq, Eq, Structural)]
pub struct WaitlistSummary {
    pub count: i64,
    pub linux_count: i64,
    pub mac_count: i64,
    pub windows_count: i64,
    pub unknown_count: i64,
}

/// An invite sent to an email address.
#[derive(Clone, Debug, PartialEq)]
pub struct Invite {
    pub email_address: String,
    pub email_confirmation_code: String,
}

/// What is needed to create a user.
#[derive(Clone, Debug, PartialEq)]
pub struct NewUserParams {
    pub github_login: String,
    pub github_user_id: i32,
    pub invite_count: i32,
}

/// What creating a user produced.
#[derive(Clone, Debug, PartialEq)]
pub struct NewUserResult {
    pub user_id: UserId,
    pub metrics_id: String,
    pub inviting_user_id: Option<UserId>,
    pub signup_device_id: Option<String>,
}

/// Whether std counts the character as alphabetic or numeric.
pub uninterp spec fn alphanumeric(c: char) -> bool;

/// Relies on `char::is_alphanumeric`: whether the character has the Unicode
/// Alphabetic or Numeric property, which ASCII letters and digits have.
#[verifier::external_body]
fn is_alphanumeric(c: char) -> (r: bool)
    ensures
        r == alphanumeric(c),
        ('a' <= c && c <= 'z') || ('A' <= c && c <= 'Z') || ('0' <= c && c <= '9') ==> r,
{
    c.is_alphanumeric()
}

/// The pattern body for `s`: each alphanumeric character, preceded by a
/// wildcard; other characters are left out.
pub open spec fn like_body(s: Seq<char>) -> Seq<char>
    decreases s.len(),
{
    if s.len() == 0 {
        Seq::empty()
    } else if alphanumeric(s.last()) {
        like_body(s.drop_last()) + seq!['%', s.last()]
    } else {
        like_body(s.drop_last())
    }
}

impl Db {
    /// A LIKE pattern that matches any text holding the alphanumeric
    /// characters of `string` in order.
    pub fn fuzzy_like_string(string: &str) -> (r: String)
        ensures
            r@ == like_body(string@) + seq!['%'],
    {
        let n = string.unicode_len();
        let mut result = String::new();
        let mut i: usize = 0;
        proof {
            reveal_strlit("%");
        }
        while i < n
            invariant
                n == string@.len(),
                i <= n,
                result@ == like_body(string@.subrange(0, i as int)),
                "%"@ == seq!['%'],
            decreases n - i,
        {
            let c = string.get_char(i);
            proof {
                assert(string@.subrange(0, i as int + 1).drop_last() =~= string@.subrange(0, i as int));
                assert(string@.subrange(0, i as int + 1).last() == c);
            }
            if is_alphanumeric(c) {
                result.append("%");
                result.append(string.substring_char(i, i + 1));
                assert(string@.subrange(i as int, i as int + 1) =~= seq![c]);
                assert(result@ =~= like_body(string@.subrange(0, i as int + 1)));
            }
            i = i + 1;
        }
        result.append("%");
        assert(string@.subrange(0, n as int) =~= string@);
        result
    }
}

/// A store operation's count of the rows it changed.
pub trait RowsAffected {
    fn rows_affected(&self) -> u64;
}

} // verus!
