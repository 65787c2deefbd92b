//! The auth decisions: which stored user a login matches, what claims a
//! successful login issues, and when presented claims are still valid.
//! Token signing and decoding are serialization work and live outside the
//! library; they hand claims in and out as plain values.

use vstd::prelude::*;

use crate::entities::Claims;
use crate::entities::User;
use crate::error::CustomError;

verus! {

/// How many seconds past issuance a token stays valid.
pub const TOKEN_LIFETIME_SECS: i64 = 3_600_000;

/// Whether the user at index `i` matches the submitted credentials.
pub open spec fn matches_at(users: Seq<User>, i: int, username: Seq<char>, password: Seq<char>) -> bool {
    &&& 0 <= i < users.len()
    &&& users[i].username@ == username
    &&& users[i].password@ == password
}

/// The index of the first user whose username and password both equal the
/// submitted ones, the way a login query resolves.
pub fn find_user(users: &Vec<User>, username: &String, password: &String) -> (r: Option<usize>)
    ensures
        match r {
            Some(i) => matches_at(users@, i as int, username@, password@) && (forall|j: int|
                0 <= j < i ==> !matches_at(users@, j, username@, password@)),
            None => forall|j: int| !matches_at(users@, j, username@, password@),
        },
{
    let mut i: usize = 0;
    while i < users.len()
        invariant
            i <= users.len(),
            forall|j: int| 0 <= j < i ==> !matches_at(users@, j, username@, password@),
        decreases users.len() - i,
    {
        let u = &users[i];
        if u.username == *username && u.password == *password {
            return Some(i);
        }
        i = i + 1;
    }
    None
}

/// Decides a login: when some stored user carries exactly the submitted
/// username and password, issues the claims a token is signed over — the
/// user's id and name, expiring one lifetime after `now`. Otherwise fails
/// with the catch-all error and no claims.
pub fn login(users: &Vec<User>, username: &String, password: &String, now: i64) -> (r: Result<
    Claims,
    CustomError,
>)
    requires
        now + TOKEN_LIFETIME_SECS <= i64::MAX,
    ensures
        (r is Ok) <==> (exists|i: int| matches_at(users@, i, username@, password@)),
        match r {
            Ok(c) => exists|i: int|
                #[trigger] matches_at(users@, i, username@, password@) && (forall|j: int|
                    0 <= j < i ==> !matches_at(users@, j, username@, password@)) && c.user_id
                    == users@[i].id && c.name@ == users@[i].username@ && c.exp == now
                    + TOKEN_LIFETIME_SECS,
            Err(e) => e matches CustomError::Other(m) && m@ == "user not found"@,
        },
{
    match find_user(users, username, password) {
        Some(i) => {
            let u = &users[i];
            Ok(Claims { user_id: u.id, name: u.username.clone(), exp: now + TOKEN_LIFETIME_SECS })
        },
        None => Err(CustomError::Other("user not found".to_owned())),
    }
}

/// Whether claims are still valid at time `now`: only their expiry
/// decides, tokens being stateless.
pub fn claims_valid(claims: &Claims, now: i64) -> (r: bool)
    ensures
        r == (claims.exp > now),
{
    claims.exp > now
}

} // verus!
