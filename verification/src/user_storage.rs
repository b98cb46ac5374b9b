//! Account identity as the commit path sees it: who edited, under what
//! display name and email.  Checking credentials and keeping accounts is
//! a separate backend's concern, not the store's.

use vstd::prelude::*;

verus! {

/// A stored account's numeric identity.
#[derive(Debug, Clone, Copy, PartialEq, Eq, Structural)]
pub struct UserId(pub i32);

/// The identity a commit is signed with.
pub struct UserAccount {
    pub id: UserId,
    pub name: String,
    pub email: String,
}

/// A stored password hash: a fixed-width salt followed by a fixed-width
/// digest, forty bytes in all.
pub struct PasswordHash(pub Vec<u8>);

/// The stored byte width of a password hash.
pub const PASSWORD_HASH_LEN: usize = 40;

/// A blob of the wrong width cannot be a stored password hash.
#[derive(Debug, PartialEq, Eq, Structural)]
pub struct InvalidPasswordHash;

impl PasswordHash {
    /// Accept a stored blob as a password hash exactly when it has the
    /// stored width.
    pub fn from_vec(v: Vec<u8>) -> (r: Result<PasswordHash, InvalidPasswordHash>)
        ensures
            r is Ok <==> v@.len() == PASSWORD_HASH_LEN as int,
            r is Ok ==> r->Ok_0.0@ == v@,
    {
        if v.len() == PASSWORD_HASH_LEN {
            Ok(PasswordHash(v))
        } else {
            Err(InvalidPasswordHash)
        }
    }
}

} // verus!
