//! The push-notification channel: an out-of-process push hook sends one
//! framed message per updated reference over a local socket, and the
//! running server decodes it to trigger an index rebuild.  A message is a
//! four-byte big-endian length followed by an encoded body naming the
//! parent and the new revision.  A malformed message is dropped, never
//! fatal.

use vstd::prelude::*;

use crate::oid::{is_oid_str, Oid};
use crate::text::views_of;
use vstd::utf8::{decode_utf8, encode_utf8, valid_utf8};

verus! {

/// The well-known local socket path the listener binds.
pub const SOCK_PATH: &'static str = "/tmp/.kairowiki";

/// The reference the hook reports on: only pushes to the tracked branch
/// wake the server.
pub const TRACKED_REF: &'static str = "refs/heads/master";

/// One push notification: the revision the push moved the head from,
/// and the one it moved it to.
pub struct Update {
    pub parent_commit_id: Oid,
    pub new_commit_id: Oid,
}

/// A message that does not decode; it is logged and dropped, and the
/// listener goes on with the next connection.
#[derive(Debug, PartialEq, Eq, Structural)]
pub enum IpcError {
    Malformed,
}

/// The four big-endian bytes of a frame length.
pub open spec fn be32(n: u32) -> Seq<u8> {
    seq![((n >> 24) & 0xFF) as u8, ((n >> 16) & 0xFF) as u8, ((n >> 8) & 0xFF) as u8, (n
        & 0xFF) as u8]
}

/// A framed message: the body's length, then the body.
pub open spec fn frame_spec(body: Seq<u8>) -> Seq<u8> {
    be32(body.len() as u32) + body
}

/// What reading a frame from a buffer yields.
pub enum FrameResult {
    /// Not yet a whole frame: wait for more bytes.
    Incomplete,
    /// One whole body, and whatever bytes follow it.
    Frame(Vec<u8>, Vec<u8>),
}

/// The length a frame header announces.
pub open spec fn header_len(buf: Seq<u8>) -> int {
    (buf[0] as int) * 0x1000000 + (buf[1] as int) * 0x10000 + (buf[2] as int) * 0x100 + (
    buf[3] as int)
}

/// The frame a buffer starts with, if it holds a whole one: the body and
/// the remaining bytes.
pub open spec fn unframe_spec(buf: Seq<u8>) -> Option<(Seq<u8>, Seq<u8>)> {
    if buf.len() < 4 {
        None
    } else {
        let n = header_len(buf);
        if buf.len() < 4 + n {
            None
        } else {
            Some((buf.subrange(4, 4 + n), buf.subrange(4 + n, buf.len() as int)))
        }
    }
}

/// Frame one message body.
pub fn encode_frame(body: &Vec<u8>) -> (r: Vec<u8>)
    requires
        body@.len() <= 0xFFFF_FFFF,
    ensures
        r@ == frame_spec(body@),
{
    let n = body.len() as u32;
    let mut r: Vec<u8> = Vec::new();
    r.push(((n >> 24) & 0xFF) as u8);
    r.push(((n >> 16) & 0xFF) as u8);
    r.push(((n >> 8) & 0xFF) as u8);
    r.push((n & 0xFF) as u8);
    r.extend_from_slice(body.as_slice());
    assert(r@ =~= frame_spec(body@));
    r
}

/// Read one frame off the front of a buffer, if a whole one has arrived.
pub fn decode_frame(buf: &Vec<u8>) -> (r: FrameResult)
    ensures
        r is Frame <==> unframe_spec(buf@) is Some,
        r matches FrameResult::Frame(body, rest) ==> (body@, rest@) == unframe_spec(buf@)->0,
{
    if buf.len() < 4 {
        return FrameResult::Incomplete;
    }
    let blen = buf.len();
    let n: usize = (buf[0] as usize) * 0x1000000 + (buf[1] as usize) * 0x10000 + (
    buf[2] as usize) * 0x100 + (buf[3] as usize);
    proof {
        assert(n == header_len(buf@));
    }
    if blen - 4 < n {
        return FrameResult::Incomplete;
    }
    let end = 4 + n;
    let mut body: Vec<u8> = Vec::new();
    let mut i: usize = 4;
    while i < end
        invariant
            4 <= i <= end,
            end == 4 + n,
            end <= blen,
            blen == buf@.len(),
            body@ == buf@.subrange(4, i as int),
        decreases end - i,
    {
        body.push(buf[i]);
        assert(body@ =~= buf@.subrange(4, i + 1));
        i += 1;
    }
    let mut rest: Vec<u8> = Vec::new();
    let mut j: usize = end;
    while j < blen
        invariant
            end <= j <= blen,
            end == 4 + n,
            blen == buf@.len(),
            rest@ == buf@.subrange(4 + n, j as int),
        decreases blen - j,
    {
        rest.push(buf[j]);
        assert(rest@ =~= buf@.subrange(4 + n, j + 1));
        j += 1;
    }
    FrameResult::Frame(body, rest)
}

/// Framing a body and reading it back yields the body and no remainder.
pub proof fn lemma_frame_round_trip(body: Seq<u8>)
    requires
        body.len() <= 0xFFFF_FFFF,
    ensures
        unframe_spec(frame_spec(body)) == Some((body, Seq::<u8>::empty())),
{
    let f = frame_spec(body);
    let n = body.len() as u32;
    assert(f[0] == ((n >> 24) & 0xFF) as u8 && f[1] == ((n >> 16) & 0xFF) as u8 && f[2] == ((n
        >> 8) & 0xFF) as u8 && f[3] == (n & 0xFF) as u8);
    assert((((n >> 24) & 0xFF) as u8 as int) * 0x1000000 + (((n >> 16) & 0xFF) as u8 as int)
        * 0x10000 + (((n >> 8) & 0xFF) as u8 as int) * 0x100 + ((n & 0xFF) as u8 as int)
        == n as int) by (bit_vector);
    assert(header_len(f) == body.len());
    assert(f.subrange(4, 4 + body.len() as int) =~= body);
    assert(f.subrange(4 + body.len() as int, f.len() as int) =~= Seq::<u8>::empty());
}

/// The characters of a message body naming the two revisions.
pub open spec fn update_chars(p: Seq<char>, n: Seq<char>) -> Seq<char> {
    "{\"parent_revision\":\""@ + p + "\",\"new_revision\":\""@ + n + "\"}"@
}

/// The canonical encoded body naming the two revisions.
pub open spec fn update_bytes(p: Seq<char>, n: Seq<char>) -> Seq<u8> {
    encode_utf8(update_chars(p, n))
}

/// Encode one push notification.
pub fn encode_update(u: &Update) -> (r: Vec<u8>)
    ensures
        r@ == update_bytes(u.parent_commit_id@, u.new_commit_id@),
{
    let mut s = String::new();
    s.append("{\"parent_revision\":\"");
    s.append(u.parent_commit_id.as_str());
    s.append("\",\"new_revision\":\"");
    s.append(u.new_commit_id.as_str());
    s.append("\"}");
    let r = crate::text::str_to_bytes(s.as_str());
    proof {
        assert(s@ =~= update_chars(u.parent_commit_id@, u.new_commit_id@));
    }
    r
}

/// Decode one push notification: accepted exactly when the bytes are the
/// canonical encoding of two well-formed revision identifiers.
pub fn decode_update(bytes: &Vec<u8>) -> (r: Result<Update, IpcError>)
    ensures
        r is Ok <==> exists|p: Seq<char>, n: Seq<char>|
            is_oid_str(p) && is_oid_str(n) && bytes@ == #[trigger] update_bytes(p, n),
        r matches Ok(u) ==> {
            &&& bytes@ == update_bytes(u.parent_commit_id@, u.new_commit_id@)
            &&& u.parent_commit_id.wf()
            &&& u.new_commit_id.wf()
        },
{
    proof {
        reveal_strlit("{\"parent_revision\":\"");
        reveal_strlit("\",\"new_revision\":\"");
        reveal_strlit("\"}");
    }
    let text = match crate::text::try_utf8_to_string(crate::text::clone_bytes(bytes)) {
        Some(t) => t,
        None => {
            proof {
                lemma_not_canonical_if_invalid(bytes@);
            }
            return Err(IpcError::Malformed);
        },
    };
    let ghost tv = text@;
    let tl = text.as_str().unicode_len();
    if tl != 120 {
        proof {
            assert forall|p: Seq<char>, n: Seq<char>|
                is_oid_str(p) && is_oid_str(n) implies tv != update_chars(p, n) by {
                if tv == update_chars(p, n) {
                    lemma_canonical_shape(p, n);
                }
            }
            lemma_wrong_decode(bytes@, tv);
        }
        return Err(IpcError::Malformed);
    }
    let head = text.as_str().substring_char(0, 20).to_owned();
    if !crate::text::str_eq(head.as_str(), "{\"parent_revision\":\"") {
        proof {
            assert forall|p: Seq<char>, n: Seq<char>|
                is_oid_str(p) && is_oid_str(n) implies tv != update_chars(p, n) by {
                if tv == update_chars(p, n) {
                    lemma_canonical_shape(p, n);
                }
            }
            lemma_wrong_decode(bytes@, tv);
        }
        return Err(IpcError::Malformed);
    }
    let p_str = text.as_str().substring_char(20, 60).to_owned();
    let mid = text.as_str().substring_char(60, 78).to_owned();
    if !crate::text::str_eq(mid.as_str(), "\",\"new_revision\":\"") {
        proof {
            assert forall|p: Seq<char>, n: Seq<char>|
                is_oid_str(p) && is_oid_str(n) implies tv != update_chars(p, n) by {
                if tv == update_chars(p, n) {
                    lemma_canonical_shape(p, n);
                }
            }
            lemma_wrong_decode(bytes@, tv);
        }
        return Err(IpcError::Malformed);
    }
    let n_str = text.as_str().substring_char(78, 118).to_owned();
    let tail = text.as_str().substring_char(118, 120).to_owned();
    if !crate::text::str_eq(tail.as_str(), "\"}") {
        proof {
            assert forall|p: Seq<char>, n: Seq<char>|
                is_oid_str(p) && is_oid_str(n) implies tv != update_chars(p, n) by {
                if tv == update_chars(p, n) {
                    lemma_canonical_shape(p, n);
                }
            }
            lemma_wrong_decode(bytes@, tv);
        }
        return Err(IpcError::Malformed);
    }
    let p = match Oid::parse(p_str.as_str()) {
        Ok(o) => o,
        Err(_) => {
            proof {
                assert forall|p: Seq<char>, n: Seq<char>|
                    is_oid_str(p) && is_oid_str(n) implies tv != update_chars(p, n) by {
                    if tv == update_chars(p, n) {
                        lemma_canonical_shape(p, n);
                    }
                }
                lemma_wrong_decode(bytes@, tv);
            }
            return Err(IpcError::Malformed);
        },
    };
    let n = match Oid::parse(n_str.as_str()) {
        Ok(o) => o,
        Err(_) => {
            proof {
                assert forall|p: Seq<char>, n: Seq<char>|
                    is_oid_str(p) && is_oid_str(n) implies tv != update_chars(p, n) by {
                    if tv == update_chars(p, n) {
                        lemma_canonical_shape(p, n);
                    }
                }
                lemma_wrong_decode(bytes@, tv);
            }
            return Err(IpcError::Malformed);
        },
    };
    proof {
        reveal_strlit("{\"parent_revision\":\"");
        reveal_strlit("\",\"new_revision\":\"");
        reveal_strlit("\"}");
        assert(tv =~= update_chars(p@, n@));
        vstd::utf8::decode_utf8_encode_utf8(bytes@);
        assert(bytes@ == update_bytes(p@, n@));
    }
    Ok(Update { parent_commit_id: p, new_commit_id: n })
}

/// A whitespace character, as the hook's input uses it.
pub open spec fn ws(c: char) -> bool {
    c == ' ' || c == '\t' || c == '\r' || c == '\n'
}

/// The length of the leading run of non-whitespace characters.
pub open spec fn first_ws(s: Seq<char>) -> int
    decreases s.len(),
{
    if s.len() == 0 {
        0
    } else if ws(s[0]) {
        0
    } else {
        1 + first_ws(s.drop_first())
    }
}

pub proof fn lemma_first_ws(s: Seq<char>)
    ensures
        0 <= first_ws(s) <= s.len(),
        first_ws(s) < s.len() ==> ws(s[first_ws(s)]),
        forall|j: int| 0 <= j < first_ws(s) ==> !ws(#[trigger] s[j]),
    decreases s.len(),
{
    if s.len() > 0 && !ws(s[0]) {
        lemma_first_ws(s.drop_first());
        assert forall|j: int| 0 <= j < first_ws(s) implies !ws(#[trigger] s[j]) by {
            if j > 0 {
                assert(s.drop_first()[j - 1] == s[j]);
            }
        }
    }
}

/// The whitespace-separated fields of a line, in order.
pub open spec fn fields(s: Seq<char>) -> Seq<Seq<char>>
    decreases s.len(),
    via fields_decreases
{
    if s.len() == 0 {
        Seq::<Seq<char>>::empty()
    } else if ws(s[0]) {
        fields(s.drop_first())
    } else {
        let e = first_ws(s);
        seq![s.take(e)] + fields(s.skip(e))
    }
}

#[via_fn]
proof fn fields_decreases(s: Seq<char>) {
    lemma_first_ws(s);
    if s.len() > 0 && !ws(s[0]) {
        assert(first_ws(s) >= 1);
    }
}

/// The whitespace-separated fields of a line.
fn fields_exec(s: &str) -> (r: Vec<String>)
    ensures
        views_of(r@) == fields(s@),
{
    let chars = crate::text::to_chars(s);
    let n = chars.len();
    let mut r: Vec<String> = Vec::new();
    let mut pos: usize = 0;
    proof {
        assert(chars@.skip(0) =~= chars@);
        assert(views_of(r@) + fields(chars@.skip(0)) =~= fields(chars@));
    }
    while pos < n
        invariant
            pos <= n,
            n == chars@.len(),
            chars@ == s@,
            fields(s@) == views_of(r@) + fields(chars@.skip(pos as int)),
        decreases n - pos,
    {
        proof {
            assert(chars@.skip(pos as int)[0] == chars@[pos as int]);
        }
        let c = chars[pos];
        if c == ' ' || c == '\t' || c == '\r' || c == '\n' {
            proof {
                assert(chars@.skip(pos as int).drop_first() =~= chars@.skip(pos + 1));
            }
            pos += 1;
        } else {
            let ghost rem = chars@.skip(pos as int);
            let mut e: usize = pos;
            while e < n && !(chars[e] == ' ' || chars[e] == '\t' || chars[e] == '\r' || chars[e]
                == '\n')
                invariant
                    pos <= e <= n,
                    n == chars@.len(),
                    forall|k: int| pos <= k < e ==> !ws(#[trigger] chars@[k]),
                decreases n - e,
            {
                e += 1;
            }
            proof {
                assert(first_ws(rem) == e - pos) by {
                    lemma_first_ws(rem);
                    if first_ws(rem) < e - pos {
                        assert(rem[first_ws(rem)] == chars@[pos + first_ws(rem)]);
                    }
                    if first_ws(rem) > e - pos {
                        assert(e < n);
                        assert(rem[e - pos] == chars@[e as int]);
                    }
                }
            }
            let piece = s.substring_char(pos, e).to_owned();
            let ghost prevr = r@;
            r.push(piece);
            proof {
                assert(rem.take(e - pos) =~= chars@.subrange(pos as int, e as int));
                assert(rem.skip(e - pos) =~= chars@.skip(e as int));
                assert(views_of(r@) =~= views_of(prevr).push(
                    chars@.subrange(pos as int, e as int),
                ));
                assert(views_of(r@) + fields(chars@.skip(e as int)) =~= views_of(prevr) + (seq![
                    rem.take(e - pos),
                ] + fields(rem.skip(e - pos))));
            }
            pos = e;
        }
    }
    proof {
        assert(chars@.skip(n as int) =~= Seq::<char>::empty());
        assert(fields(chars@.skip(n as int)) =~= Seq::<Seq<char>>::empty());
        assert(views_of(r@) =~= fields(s@));
    }
    r
}

/// Read one line of the hook's input: exactly a parent revision, a new
/// revision, and the tracked reference, whitespace-separated, become a
/// push notification; any other line is not for us.
pub fn parse_ref_line(line: &str) -> (r: Option<Update>)
    ensures
        r is Some <==> {
            let fs = fields(line@);
            &&& fs.len() == 3
            &&& is_oid_str(fs[0])
            &&& is_oid_str(fs[1])
            &&& fs[2] == TRACKED_REF@
        },
        r matches Some(u) ==> {
            &&& u.parent_commit_id@ == fields(line@)[0]
            &&& u.new_commit_id@ == fields(line@)[1]
            &&& u.parent_commit_id.wf()
            &&& u.new_commit_id.wf()
        },
{
    let fs = fields_exec(line);
    if fs.len() != 3 {
        return None;
    }
    proof {
        assert(fields(line@)[0] == fs@[0]@);
        assert(fields(line@)[1] == fs@[1]@);
        assert(fields(line@)[2] == fs@[2]@);
    }
    if !crate::text::str_eq(fs[2].as_str(), TRACKED_REF) {
        return None;
    }
    let p = match Oid::parse(fs[0].as_str()) {
        Ok(o) => o,
        Err(_) => {
            return None;
        },
    };
    let n = match Oid::parse(fs[1].as_str()) {
        Ok(o) => o,
        Err(_) => {
            return None;
        },
    };
    Some(Update { parent_commit_id: p, new_commit_id: n })
}

/// Bytes that are not valid text are not a canonical body.
proof fn lemma_not_canonical_if_invalid(bytes: Seq<u8>)
    requires
        !valid_utf8(bytes),
    ensures
        forall|p: Seq<char>, n: Seq<char>| bytes != #[trigger] update_bytes(p, n),
{
    assert forall|p: Seq<char>, n: Seq<char>| bytes != #[trigger] update_bytes(p, n) by {
        vstd::utf8::encode_utf8_valid_utf8(update_chars(p, n));
    }
}

/// The canonical characters of a pair of identifiers, taken apart.
proof fn lemma_canonical_shape(p: Seq<char>, n: Seq<char>)
    requires
        is_oid_str(p),
        is_oid_str(n),
    ensures
        ({
            let uc = update_chars(p, n);
            &&& uc.len() == 120
            &&& uc.subrange(0, 20) == "{\"parent_revision\":\""@
            &&& uc.subrange(20, 60) == p
            &&& uc.subrange(60, 78) == "\",\"new_revision\":\""@
            &&& uc.subrange(78, 118) == n
            &&& uc.subrange(118, 120) == "\"}"@
        }),
{
    reveal_strlit("{\"parent_revision\":\"");
    reveal_strlit("\",\"new_revision\":\"");
    reveal_strlit("\"}");
    let uc = update_chars(p, n);
    assert(uc.subrange(0, 20) =~= "{\"parent_revision\":\""@);
    assert(uc.subrange(20, 60) =~= p);
    assert(uc.subrange(60, 78) =~= "\",\"new_revision\":\""@);
    assert(uc.subrange(78, 118) =~= n);
    assert(uc.subrange(118, 120) =~= "\"}"@);
}

/// Text that is not the canonical characters of any pair is not the
/// decoding of a canonical body.
proof fn lemma_wrong_decode(bytes: Seq<u8>, tv: Seq<char>)
    requires
        valid_utf8(bytes),
        decode_utf8(bytes) == tv,
        forall|p: Seq<char>, n: Seq<char>|
            is_oid_str(p) && is_oid_str(n) ==> tv != update_chars(p, n),
    ensures
        forall|p: Seq<char>, n: Seq<char>|
            !(is_oid_str(p) && is_oid_str(n) && bytes == #[trigger] update_bytes(p, n)),
{
    assert forall|p: Seq<char>, n: Seq<char>|
        !(is_oid_str(p) && is_oid_str(n) && bytes == #[trigger] update_bytes(p, n)) by {
        if is_oid_str(p) && is_oid_str(n) && bytes == update_bytes(p, n) {
            vstd::utf8::encode_utf8_decode_utf8(update_chars(p, n));
            assert(tv == update_chars(p, n));
            assert(false);
        }
    }
}

} // verus!
