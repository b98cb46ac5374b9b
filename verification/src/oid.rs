//! Object identifiers as they cross the process boundary: a digest is
//! rendered as exactly forty lowercase hexadecimal characters, and only
//! such a string parses back into an identifier.

use vstd::prelude::*;

verus! {

/// A lowercase hexadecimal digit.
pub open spec fn is_hex_char(c: char) -> bool {
    (('0' as u32) <= (c as u32) <= ('9' as u32)) || (('a' as u32) <= (c as u32) <= ('f' as u32))
}

/// Exactly forty lowercase hexadecimal characters.
pub open spec fn is_oid_str(s: Seq<char>) -> bool {
    s.len() == 40 && forall|i: int| 0 <= i < s.len() ==> is_hex_char(#[trigger] s[i])
}

/// A parsed object identifier.
pub struct Oid(pub String);

impl View for Oid {
    type V = Seq<char>;

    open spec fn view(&self) -> Seq<char> {
        self.0@
    }
}

/// The string offered as an identifier is not one.
#[derive(Debug, PartialEq, Eq, Structural)]
pub struct OidParseError;

impl Oid {
    /// A well-formed identifier.
    pub open spec fn wf(&self) -> bool {
        is_oid_str(self@)
    }

    /// Parse an identifier: accepted exactly when the string is forty
    /// lowercase hexadecimal characters.
    pub fn parse(s: &str) -> (r: Result<Oid, OidParseError>)
        ensures
            r is Ok <==> is_oid_str(s@),
            r is Ok ==> r->Ok_0@ == s@,
    {
        let n = s.unicode_len();
        if n != 40 {
            return Err(OidParseError);
        }
        let mut i: usize = 0;
        while i < n
            invariant
                i <= n,
                n == s@.len(),
                n == 40,
                forall|m: int| 0 <= m < i ==> is_hex_char(#[trigger] s@[m]),
            decreases n - i,
        {
            let c = s.get_char(i) as u32;
            let digit = 48 <= c && c <= 57;
            let lower = 97 <= c && c <= 102;
            if !digit && !lower {
                proof {
                    assert(('0' as u32) == 48 && ('9' as u32) == 57 && ('a' as u32) == 97 && ('f'
                        as u32) == 102);
                    assert(!is_hex_char(s@[i as int]));
                }
                return Err(OidParseError);
            }
            proof {
                assert(('0' as u32) == 48 && ('9' as u32) == 57 && ('a' as u32) == 97 && ('f'
                    as u32) == 102);
            }
            i += 1;
        }
        Ok(Oid(s.to_owned()))
    }

    /// The identifier's characters.
    pub fn as_str(&self) -> (r: &str)
        ensures
            r@ == self@,
    {
        self.0.as_str()
    }

}

} // verus!
