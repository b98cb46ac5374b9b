//! Stored password material, as the account backend keeps it.

use vstd::prelude::*;

verus! {

/// Raw password-hash bytes as stored by the account backend.
pub struct PasswordHash(pub Vec<u8>);

impl PasswordHash {
    /// The stored bytes for a password.
    pub fn from_password(s: &str) -> (r: PasswordHash)
        ensures
            r.0@ == vstd::utf8::encode_utf8(s@),
    {
        PasswordHash(crate::text::str_to_bytes(s))
    }

    /// Accept raw stored bytes.
    pub fn from_raw(hash: Vec<u8>) -> (r: Option<PasswordHash>)
        ensures
            r matches Some(h) && h.0@ == hash@,
    {
        Some(PasswordHash(hash))
    }
}

} // verus!
