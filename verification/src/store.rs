//! The append-only, content-addressed object store: blobs, trees and
//! commits are immutable values, each identified by the digest of its
//! byte encoding.  Objects are only ever added, never changed or removed,
//! and an object that no advanced head references is simply unreachable
//! garbage, never visible.

use vstd::prelude::*;

use crate::digest::{content_digest, digest_hex};
use crate::text::str_to_bytes;
use vstd::utf8::encode_utf8;

verus! {

/// One titled blob reference inside a tree: a document path and the
/// digest of its content blob.
pub struct TreeEntry {
    pub path: String,
    pub blob: String,
}

impl View for TreeEntry {
    type V = (Seq<char>, Seq<char>);

    open spec fn view(&self) -> (Seq<char>, Seq<char>) {
        (self.path@, self.blob@)
    }
}

/// A revision tree: a finite collection of titled blob references with
/// pairwise distinct paths.
pub struct Tree {
    pub entries: Vec<TreeEntry>,
}

impl View for Tree {
    type V = Seq<(Seq<char>, Seq<char>)>;

    open spec fn view(&self) -> Seq<(Seq<char>, Seq<char>)> {
        self.entries@.map_values(|e: TreeEntry| e@)
    }
}

/// The paths of a tree's entry sequence are pairwise distinct.
pub open spec fn distinct_paths(es: Seq<(Seq<char>, Seq<char>)>) -> bool {
    forall|i: int, j: int| 0 <= i < j < es.len() ==> es[i].0 != es[j].0
}

/// Whether some entry carries the given path.
pub open spec fn has_path(es: Seq<(Seq<char>, Seq<char>)>, p: Seq<char>) -> bool {
    exists|i: int| 0 <= i < es.len() && es[i].0 == p
}

/// The blob digest stored for the given path.
pub open spec fn blob_at(es: Seq<(Seq<char>, Seq<char>)>, p: Seq<char>) -> Seq<char> {
    es[choose|i: int| 0 <= i < es.len() && es[i].0 == p].1
}

/// A tree's entries as a map from path to blob digest.
pub open spec fn map_of_entries(es: Seq<(Seq<char>, Seq<char>)>) -> Map<Seq<char>, Seq<char>> {
    Map::new(|p: Seq<char>| has_path(es, p), |p: Seq<char>| blob_at(es, p))
}

/// The index of the entry carrying the given path.
pub open spec fn entry_index_of(es: Seq<(Seq<char>, Seq<char>)>, p: Seq<char>) -> int {
    choose|i: int| 0 <= i < es.len() && es[i].0 == p
}

/// The entry sequence after one path is set: the entry already carrying
/// the path is replaced in place, or a fresh entry is appended.
pub open spec fn set_entries(
    es: Seq<(Seq<char>, Seq<char>)>,
    p: Seq<char>,
    b: Seq<char>,
) -> Seq<(Seq<char>, Seq<char>)> {
    if has_path(es, p) {
        es.update(entry_index_of(es, p), (p, b))
    } else {
        es.push((p, b))
    }
}

impl Tree {
    /// The entry paths are pairwise distinct.
    pub open spec fn wf(&self) -> bool {
        distinct_paths(self@)
    }

    /// The tree as a map from path to blob digest.
    pub open spec fn as_map(&self) -> Map<Seq<char>, Seq<char>> {
        map_of_entries(self@)
    }

    /// The empty tree.
    pub fn new() -> (r: Tree)
        ensures
            r.wf(),
            r@ == Seq::<(Seq<char>, Seq<char>)>::empty(),
    {
        let r = Tree { entries: Vec::new() };
        assert(r@ =~= Seq::<(Seq<char>, Seq<char>)>::empty());
        r
    }

    /// The entries, in order.
    pub fn entries(&self) -> (r: &Vec<TreeEntry>)
        ensures
            r@.map_values(|e: TreeEntry| e@) == self@,
    {
        &self.entries
    }

    /// The number of entries.
    pub fn len(&self) -> (r: usize)
        ensures
            r == self@.len(),
    {
        self.entries.len()
    }

    /// The entry at an index.
    pub fn entry_at(&self, i: usize) -> (r: (String, String))
        requires
            i < self@.len(),
        ensures
            (r.0@, r.1@) == self@[i as int],
    {
        (self.entries[i].path.clone(), self.entries[i].blob.clone())
    }

    /// Look a path up.
    pub fn get(&self, path: &str) -> (r: Option<String>)
        requires
            self.wf(),
        ensures
            r is Some <==> self.as_map().contains_key(path@),
            r is Some ==> r->0@ == self.as_map()[path@],
    {
        let n = self.entries.len();
        let mut i: usize = 0;
        while i < n
            invariant
                i <= n,
                n == self@.len(),
                self.wf(),
                forall|k: int| 0 <= k < i ==> self@[k].0 != path@,
            decreases n - i,
        {
            if crate::text::str_eq(self.entries[i].path.as_str(), path) {
                proof {
                    assert(self@[i as int] == self.entries@[i as int]@);
                    assert(self@[i as int].0 == path@);
                    assert(has_path(self@, path@));
                    let w = choose|k: int| 0 <= k < self@.len() && self@[k].0 == path@;
                    assert(self@[w].0 == path@);
                    assert(w == i);
                    assert(blob_at(self@, path@) == self@[i as int].1);
                }
                return Some(self.entries[i].blob.clone());
            }
            proof {
                assert(self@[i as int] == self.entries@[i as int]@);
            }
            i += 1;
        }
        proof {
            assert(!has_path(self@, path@));
        }
        None
    }

    /// Set the blob for a path, replacing any entry the path already has.
    pub fn set(&mut self, path: String, blob: String)
        requires
            old(self).wf(),
        ensures
            final(self).wf(),
            final(self).as_map() == old(self).as_map().insert(path@, blob@),
            final(self)@ == set_entries(old(self)@, path@, blob@),
    {
        let ghost pathv = path@;
        let ghost blobv = blob@;
        let n = self.entries.len();
        let mut i: usize = 0;
        while i < n
            invariant
                i <= n,
                n == self@.len(),
                self.wf(),
                self == old(self),
                pathv == path@,
                blobv == blob@,
                forall|k: int| 0 <= k < i ==> self@[k].0 != path@,
            decreases n - i,
        {
            if crate::text::str_eq(self.entries[i].path.as_str(), path.as_str()) {
                proof {
                    assert(self@[i as int] == self.entries@[i as int]@);
                    assert(self@[i as int].0 == pathv);
                    assert(old(self)@[i as int].0 == pathv);
                }
                let ghost prev_entries = self.entries@;
                self.entries[i] = TreeEntry { path, blob };
                proof {
                    assert(self.entries@ == prev_entries.update(i as int, self.entries@[i as int]));
                    assert(self.entries@[i as int]@ == (pathv, blobv));
                    assert forall|k: int| 0 <= k < self@.len() implies self@[k] == old(
                        self,
                    )@.update(i as int, (pathv, blobv))[k] by {
                        assert(self@[k] == self.entries@[k]@);
                        if k != i {
                            assert(self.entries@[k] == prev_entries[k]);
                            assert(old(self)@[k] == prev_entries[k]@);
                        }
                    }
                    assert(self@ =~= old(self)@.update(i as int, (pathv, blobv)));
                    assert forall|a: int, b: int| 0 <= a < b < self@.len() implies self@[a].0
                        != self@[b].0 by {
                        assert(old(self)@[a].0 != old(self)@[b].0);
                    }
                    lemma_map_of_update(old(self)@, i as int, pathv, blobv);
                    assert(has_path(old(self)@, pathv));
                    let w = entry_index_of(old(self)@, pathv);
                    assert(old(self)@[w].0 == pathv);
                    assert(w == i);
                }
                return ;
            }
            proof {
                assert(self@[i as int] == self.entries@[i as int]@);
            }
            i += 1;
        }
        proof {
            assert(!has_path(self@, pathv)) by {
                if has_path(self@, pathv) {
                    let k = choose|k: int| 0 <= k < self@.len() && self@[k].0 == pathv;
                }
            }
        }
        self.entries.push(TreeEntry { path, blob });
        proof {
            assert forall|k: int| 0 <= k < self@.len() implies self@[k] == old(self)@.push(
                (pathv, blobv),
            )[k] by {
                assert(self@[k] == self.entries@[k]@);
                if k < self@.len() - 1 {
                    assert(self.entries@[k] == old(self).entries@[k]);
                    assert(old(self)@[k] == old(self).entries@[k]@);
                }
            }
            assert(self@ =~= old(self)@.push((pathv, blobv)));
            assert forall|a: int, b: int| 0 <= a < b < self@.len() implies self@[a].0
                != self@[b].0 by {
                if b < self@.len() - 1 {
                    assert(old(self)@[a].0 != old(self)@[b].0);
                }
            }
            lemma_map_of_push(old(self)@, pathv, blobv);
        }
    }
}

pub proof fn lemma_map_of_update(es: Seq<(Seq<char>, Seq<char>)>, i: int, p: Seq<char>, b: Seq<char>)
    requires
        distinct_paths(es),
        0 <= i < es.len(),
        es[i].0 == p,
    ensures
        map_of_entries(es.update(i, (p, b))) == map_of_entries(es).insert(p, b),
{
    let es2 = es.update(i, (p, b));
    assert forall|q: Seq<char>| #[trigger] has_path(es2, q) <==> has_path(es, q) || q == p by {
        if has_path(es2, q) {
            let k = choose|k: int| 0 <= k < es2.len() && es2[k].0 == q;
            if k != i {
                assert(es[k].0 == q);
            }
        }
        if has_path(es, q) {
            let k = choose|k: int| 0 <= k < es.len() && es[k].0 == q;
            if k != i {
                assert(es2[k].0 == q);
            } else {
                assert(es2[i].0 == p && q == p);
            }
        }
        if q == p {
            assert(es2[i].0 == q);
        }
    }
    assert forall|q: Seq<char>| has_path(es2, q) implies blob_at(es2, q) == (if q == p {
        b
    } else {
        blob_at(es, q)
    }) by {
        let k = choose|k: int| 0 <= k < es2.len() && es2[k].0 == q;
        if q == p {
            assert(es2[i].0 == p);
            if k != i {
                assert(es[k].0 == q && es[i].0 == q);
                assert(false);
            }
        } else {
            assert(k != i);
            assert(es[k].0 == q);
            let w = choose|w: int| 0 <= w < es.len() && es[w].0 == q;
            assert(es[w].0 == q);
            assert(w == k);
        }
    }
    assert(map_of_entries(es2) =~= map_of_entries(es).insert(p, b));
}

pub proof fn lemma_map_of_push(es: Seq<(Seq<char>, Seq<char>)>, p: Seq<char>, b: Seq<char>)
    requires
        distinct_paths(es),
        !has_path(es, p),
    ensures
        map_of_entries(es.push((p, b))) == map_of_entries(es).insert(p, b),
{
    let es2 = es.push((p, b));
    assert forall|q: Seq<char>| #[trigger] has_path(es2, q) <==> has_path(es, q) || q == p by {
        if has_path(es2, q) {
            let k = choose|k: int| 0 <= k < es2.len() && es2[k].0 == q;
            if k < es.len() {
                assert(es[k].0 == q);
            }
        }
        if has_path(es, q) {
            let k = choose|k: int| 0 <= k < es.len() && es[k].0 == q;
            assert(es2[k].0 == q);
        }
        if q == p {
            assert(es2[es.len() as int].0 == q);
        }
    }
    assert forall|q: Seq<char>| has_path(es2, q) implies blob_at(es2, q) == (if q == p {
        b
    } else {
        blob_at(es, q)
    }) by {
        let k = choose|k: int| 0 <= k < es2.len() && es2[k].0 == q;
        if q == p {
            if k < es.len() {
                assert(es[k].0 == p);
                assert(has_path(es, p));
                assert(false);
            }
        } else {
            assert(k < es.len());
            assert(es[k].0 == q);
            let w = choose|w: int| 0 <= w < es.len() && es[w].0 == q;
            assert(w == k);
        }
    }
    assert(map_of_entries(es2) =~= map_of_entries(es).insert(p, b));
}

/// A commit: one immutable snapshot of all documents, with authorship
/// metadata and at most one parent.  History is strictly linear; no true
/// merge commit is ever created.
pub struct CommitData {
    pub tree: String,
    pub parent: Option<String>,
    pub author_name: String,
    pub author_email: String,
    pub message: String,
    pub timestamp: i64,
}

/// The mathematical value of a commit.
pub struct CommitView {
    pub tree: Seq<char>,
    pub parent: Option<Seq<char>>,
    pub author_name: Seq<char>,
    pub author_email: Seq<char>,
    pub message: Seq<char>,
    pub timestamp: i64,
}

impl View for CommitData {
    type V = CommitView;

    open spec fn view(&self) -> CommitView {
        CommitView {
            tree: self.tree@,
            parent: match self.parent {
                Some(p) => Some(p@),
                None => None,
            },
            author_name: self.author_name@,
            author_email: self.author_email@,
            message: self.message@,
            timestamp: self.timestamp,
        }
    }
}

/// An object of the store.
pub enum Object {
    Blob(Vec<u8>),
    Tree(Tree),
    Commit(CommitData),
}

/// The mathematical value of an object.
pub enum ObjectView {
    Blob(Seq<u8>),
    Tree(Seq<(Seq<char>, Seq<char>)>),
    Commit(CommitView),
}

impl View for Object {
    type V = ObjectView;

    open spec fn view(&self) -> ObjectView {
        match self {
            Object::Blob(b) => ObjectView::Blob(b@),
            Object::Tree(t) => ObjectView::Tree(t@),
            Object::Commit(c) => ObjectView::Commit(c@),
        }
    }
}

/// Eight little-endian bytes of a 64-bit length or timestamp.
pub open spec fn le64(v: u64) -> Seq<u8> {
    seq![
        (v & 0xFF) as u8,
        ((v >> 8) & 0xFF) as u8,
        ((v >> 16) & 0xFF) as u8,
        ((v >> 24) & 0xFF) as u8,
        ((v >> 32) & 0xFF) as u8,
        ((v >> 40) & 0xFF) as u8,
        ((v >> 48) & 0xFF) as u8,
        ((v >> 56) & 0xFF) as u8,
    ]
}

/// A length-prefixed field of an object encoding.
pub open spec fn framed(b: Seq<u8>) -> Seq<u8> {
    le64(b.len() as u64) + b
}

/// The encoding of one tree entry.
pub open spec fn encode_entry(e: (Seq<char>, Seq<char>)) -> Seq<u8> {
    framed(encode_utf8(e.0)) + framed(encode_utf8(e.1))
}

/// The encoding of a tree's entries, in order.
pub open spec fn encode_entries(es: Seq<(Seq<char>, Seq<char>)>) -> Seq<u8>
    decreases es.len(),
{
    if es.len() == 0 {
        Seq::<u8>::empty()
    } else {
        encode_entry(es[0]) + encode_entries(es.drop_first())
    }
}

/// The byte encoding an object is digested over.  Each kind of object
/// starts with its own tag byte, and every variable-length field is
/// length-prefixed, so equal encodings only arise from equal values.
pub open spec fn encode_object(o: ObjectView) -> Seq<u8> {
    match o {
        ObjectView::Blob(b) => seq![0u8] + b,
        ObjectView::Tree(es) => seq![1u8] + encode_entries(es),
        ObjectView::Commit(c) => seq![2u8] + framed(encode_utf8(c.tree)) + (match c.parent {
            Some(p) => seq![1u8] + framed(encode_utf8(p)),
            None => seq![0u8],
        }) + framed(encode_utf8(c.author_name)) + framed(encode_utf8(c.author_email)) + framed(
            encode_utf8(c.message),
        ) + le64(c.timestamp as u64),
    }
}

/// The digest that identifies an object.
pub open spec fn object_digest(o: ObjectView) -> Seq<char> {
    content_digest(encode_object(o))
}

/// Append the eight little-endian bytes of a 64-bit value.
fn push_le64(r: &mut Vec<u8>, v: u64)
    ensures
        final(r)@ == old(r)@ + le64(v),
{
    r.push((v & 0xFF) as u8);
    r.push(((v >> 8) & 0xFF) as u8);
    r.push(((v >> 16) & 0xFF) as u8);
    r.push(((v >> 24) & 0xFF) as u8);
    r.push(((v >> 32) & 0xFF) as u8);
    r.push(((v >> 40) & 0xFF) as u8);
    r.push(((v >> 48) & 0xFF) as u8);
    r.push(((v >> 56) & 0xFF) as u8);
    assert(r@ =~= old(r)@ + le64(v));
}

/// Append a length-prefixed field.
fn push_framed(r: &mut Vec<u8>, b: &Vec<u8>)
    ensures
        final(r)@ == old(r)@ + framed(b@),
{
    push_le64(r, b.len() as u64);
    r.extend_from_slice(b.as_slice());
    assert(r@ =~= old(r)@ + framed(b@));
}

/// Append a length-prefixed string field.
fn push_framed_str(r: &mut Vec<u8>, s: &str)
    ensures
        final(r)@ == old(r)@ + framed(encode_utf8(s@)),
{
    let b = str_to_bytes(s);
    push_framed(r, &b);
}

proof fn lemma_encode_entries_snoc(es: Seq<(Seq<char>, Seq<char>)>, e: (Seq<char>, Seq<char>))
    ensures
        encode_entries(es.push(e)) == encode_entries(es) + encode_entry(e),
    decreases es.len(),
{
    if es.len() == 0 {
        assert(es.push(e).drop_first() =~= Seq::<(Seq<char>, Seq<char>)>::empty());
        assert(es.push(e)[0] == e);
        assert(encode_entries(es.push(e).drop_first()) == Seq::<u8>::empty());
        assert(encode_entries(es.push(e)) =~= encode_entry(e));
        assert(encode_entries(es) + encode_entry(e) =~= encode_entry(e));
    } else {
        assert(es.push(e).drop_first() =~= es.drop_first().push(e));
        lemma_encode_entries_snoc(es.drop_first(), e);
        assert(encode_entry(es[0]) + (encode_entries(es.drop_first()) + encode_entry(e))
            =~= (encode_entry(es[0]) + encode_entries(es.drop_first())) + encode_entry(e));
    }
}

/// The byte encoding of an object, as `encode_object` describes it.
fn encode_object_exec(o: &Object) -> (r: Vec<u8>)
    ensures
        r@ == encode_object(o@),
{
    let mut r: Vec<u8> = Vec::new();
    match o {
        Object::Blob(data) => {
            r.push(0u8);
            r.extend_from_slice(data.as_slice());
            assert(r@ =~= seq![0u8] + data@);
        },
        Object::Tree(t) => {
            r.push(1u8);
            assert(r@ =~= seq![1u8] + encode_entries(t@.take(0)));
            let n = t.entries.len();
            let mut i: usize = 0;
            while i < n
                invariant
                    i <= n,
                    n == t@.len(),
                    r@ == seq![1u8] + encode_entries(t@.take(i as int)),
                decreases n - i,
            {
                proof {
                    assert(t@[i as int] == t.entries@[i as int]@);
                }
                push_framed_str(&mut r, t.entries[i].path.as_str());
                push_framed_str(&mut r, t.entries[i].blob.as_str());
                proof {
                    lemma_encode_entries_snoc(t@.take(i as int), t@[i as int]);
                    assert(t@.take(i + 1) =~= t@.take(i as int).push(t@[i as int]));
                    assert(r@ =~= seq![1u8] + encode_entries(t@.take(i + 1)));
                }
                i += 1;
            }
            proof {
                assert(t@.take(n as int) =~= t@);
            }
        },
        Object::Commit(c) => {
            r.push(2u8);
            push_framed_str(&mut r, c.tree.as_str());
            match &c.parent {
                Some(p) => {
                    r.push(1u8);
                    push_framed_str(&mut r, p.as_str());
                },
                None => {
                    r.push(0u8);
                },
            }
            push_framed_str(&mut r, c.author_name.as_str());
            push_framed_str(&mut r, c.author_email.as_str());
            push_framed_str(&mut r, c.message.as_str());
            #[verifier::truncate]
            let ts_bits = c.timestamp as u64;
            push_le64(&mut r, ts_bits);
            assert(r@ =~= encode_object(o@));
        },
    }
    r
}

/// The digest a content blob of the given bytes is identified by.
pub fn blob_digest(bytes: Vec<u8>) -> (r: String)
    ensures
        r@ == object_digest(ObjectView::Blob(bytes@)),
        r@.len() == crate::digest::DIGEST_HEX_LEN as int,
{
    let o = Object::Blob(bytes);
    let enc = encode_object_exec(&o);
    digest_hex(&enc)
}

/// Whether two byte vectors hold the same bytes.
fn bytes_eq(a: &Vec<u8>, b: &Vec<u8>) -> (r: bool)
    ensures
        r == (a@ == b@),
{
    let r = a == b;
    proof {
        if r {
            assert(a@ =~= b@);
        } else if a@ == b@ {
            assert(a@ =~= b@);
            assert(false);
        }
    }
    r
}

/// Whether two trees hold the same entries in the same order.
fn tree_eq(a: &Tree, b: &Tree) -> (r: bool)
    ensures
        r == (a@ == b@),
{
    if a.entries.len() != b.entries.len() {
        proof {
            if a@ == b@ {
                assert(a@.len() == b@.len());
            }
        }
        return false;
    }
    let n = a.entries.len();
    let mut i: usize = 0;
    while i < n
        invariant
            i <= n,
            n == a@.len() == b@.len(),
            forall|k: int| 0 <= k < i ==> a@[k] == b@[k],
        decreases n - i,
    {
        proof {
            assert(a@[i as int] == a.entries@[i as int]@);
            assert(b@[i as int] == b.entries@[i as int]@);
        }
        if !crate::text::str_eq(a.entries[i].path.as_str(), b.entries[i].path.as_str()) {
            assert(a@[i as int].0 != b@[i as int].0);
            return false;
        }
        if !crate::text::str_eq(a.entries[i].blob.as_str(), b.entries[i].blob.as_str()) {
            assert(a@[i as int].1 != b@[i as int].1);
            return false;
        }
        proof {
            assert(a@[i as int] == b@[i as int]);
        }
        i += 1;
    }
    proof {
        assert(a@ =~= b@);
    }
    true
}

/// Whether two commits hold the same fields.
fn commit_eq(a: &CommitData, b: &CommitData) -> (r: bool)
    ensures
        r == (a@ == b@),
{
    if !crate::text::str_eq(a.tree.as_str(), b.tree.as_str()) {
        return false;
    }
    let parents_eq = match (&a.parent, &b.parent) {
        (Some(x), Some(y)) => crate::text::str_eq(x.as_str(), y.as_str()),
        (None, None) => true,
        _ => false,
    };
    if !parents_eq {
        return false;
    }
    if !crate::text::str_eq(a.author_name.as_str(), b.author_name.as_str()) {
        return false;
    }
    if !crate::text::str_eq(a.author_email.as_str(), b.author_email.as_str()) {
        return false;
    }
    if !crate::text::str_eq(a.message.as_str(), b.message.as_str()) {
        return false;
    }
    if a.timestamp != b.timestamp {
        return false;
    }
    proof {
        assert(a@ == b@);
    }
    true
}

/// Whether two objects hold the same value.
fn object_eq(a: &Object, b: &Object) -> (r: bool)
    ensures
        r == (a@ == b@),
{
    match (a, b) {
        (Object::Blob(x), Object::Blob(y)) => bytes_eq(x, y),
        (Object::Tree(x), Object::Tree(y)) => tree_eq(x, y),
        (Object::Commit(x), Object::Commit(y)) => commit_eq(x, y),
        _ => false,
    }
}

/// A failure of the object graph: two distinct objects whose encodings
/// share a digest cannot both be stored, since the digest is the sole key.
pub enum StoreError {
    DigestCollision,
}

/// Whether some stored pair carries the given digest.
pub open spec fn has_digest(os: Seq<(Seq<char>, ObjectView)>, d: Seq<char>) -> bool {
    exists|i: int| 0 <= i < os.len() && os[i].0 == d
}

/// The object stored under the given digest.
pub open spec fn object_at(os: Seq<(Seq<char>, ObjectView)>, d: Seq<char>) -> ObjectView {
    os[choose|i: int| 0 <= i < os.len() && os[i].0 == d].1
}

/// The stored pairs as a map from digest to object.
pub open spec fn map_of_objects(os: Seq<(Seq<char>, ObjectView)>) -> Map<Seq<char>, ObjectView> {
    Map::new(|d: Seq<char>| has_digest(os, d), |d: Seq<char>| object_at(os, d))
}

/// The append-only store itself: a finite map from digest to object,
/// to which objects are only ever added.
pub struct ObjectStore {
    pub objects: Vec<(String, Object)>,
}

/// The views of the stored pairs, in insertion order.
pub open spec fn store_entries(s: &ObjectStore) -> Seq<(Seq<char>, ObjectView)> {
    s.objects@.map_values(|p: (String, Object)| (p.0@, p.1@))
}

impl View for ObjectStore {
    type V = Map<Seq<char>, ObjectView>;

    open spec fn view(&self) -> Map<Seq<char>, ObjectView> {
        map_of_objects(store_entries(self))
    }
}

impl ObjectStore {
    /// Every stored digest is the digest of its object, and digests are
    /// pairwise distinct.
    pub open spec fn wf(&self) -> bool {
        &&& forall|i: int, j: int|
            0 <= i < j < store_entries(self).len() ==> store_entries(self)[i].0 != store_entries(
                self,
            )[j].0
        &&& forall|i: int|
            0 <= i < store_entries(self).len() ==> #[trigger] store_entries(self)[i].0
                == object_digest(store_entries(self)[i].1)
    }

    /// The empty store.
    pub fn new() -> (r: ObjectStore)
        ensures
            r.wf(),
            r@ == Map::<Seq<char>, ObjectView>::empty(),
    {
        let r = ObjectStore { objects: Vec::new() };
        proof {
            assert(store_entries(&r) =~= Seq::<(Seq<char>, ObjectView)>::empty());
            assert(r@ =~= Map::<Seq<char>, ObjectView>::empty());
        }
        r
    }

    /// Read an object by its digest.
    pub fn get(&self, d: &str) -> (r: Option<&Object>)
        requires
            self.wf(),
        ensures
            r is Some <==> self@.contains_key(d@),
            r is Some ==> r->0@ == self@[d@],
    {
        let ghost os = store_entries(self);
        let n = self.objects.len();
        let mut i: usize = 0;
        while i < n
            invariant
                i <= n,
                n == os.len(),
                os == store_entries(self),
                self.wf(),
                forall|k: int| 0 <= k < i ==> os[k].0 != d@,
            decreases n - i,
        {
            proof {
                assert(os[i as int] == (self.objects@[i as int].0@, self.objects@[i as int].1@));
            }
            if crate::text::str_eq(self.objects[i].0.as_str(), d) {
                proof {
                    assert(os[i as int].0 == d@);
                    assert(has_digest(os, d@));
                    let w = choose|k: int| 0 <= k < os.len() && os[k].0 == d@;
                    assert(os[w].0 == d@);
                    assert(w == i);
                    assert(object_at(os, d@) == os[i as int].1);
                }
                return Some(&self.objects[i].1);
            }
            i += 1;
        }
        proof {
            assert(!has_digest(os, d@));
        }
        None
    }

    /// Add an object.  The store is append-only: an object already present
    /// is simply found again, and nothing is ever overwritten.  Two distinct
    /// objects whose encodings share a digest cannot coexist; such an
    /// insertion is refused, and the store is unchanged.
    pub fn put(&mut self, o: Object) -> (r: Result<String, StoreError>)
        requires
            old(self).wf(),
        ensures
            final(self).wf(),
            match r {
                Ok(d) => {
                    &&& d@ == object_digest(o@)
                    &&& final(self)@ == old(self)@.insert(object_digest(o@), o@)
                    &&& final(self)@.contains_key(d@)
                    &&& final(self)@[d@] == o@
                },
                Err(_) => {
                    &&& final(self)@ == old(self)@
                    &&& old(self)@.contains_key(object_digest(o@))
                    &&& old(self)@[object_digest(o@)] != o@
                },
            },
            r is Ok <==> !(old(self)@.contains_key(object_digest(o@)) && old(self)@[object_digest(
                o@,
            )] != o@),
    {
        let enc = encode_object_exec(&o);
        let d = digest_hex(&enc);
        let ghost os = store_entries(self);
        let ghost dv = d@;
        let ghost ov = o@;
        let n = self.objects.len();
        let mut i: usize = 0;
        while i < n
            invariant
                i <= n,
                n == os.len(),
                os == store_entries(self),
                self == old(self),
                dv == d@,
                ov == o@,
                dv == object_digest(ov),
                old(self).wf(),
                forall|k: int| 0 <= k < i ==> os[k].0 != dv,
            decreases n - i,
        {
            proof {
                assert(os[i as int] == (self.objects@[i as int].0@, self.objects@[i as int].1@));
            }
            if crate::text::str_eq(self.objects[i].0.as_str(), d.as_str()) {
                proof {
                    assert(os[i as int].0 == dv);
                    assert(has_digest(os, dv));
                    let w = choose|k: int| 0 <= k < os.len() && os[k].0 == dv;
                    assert(os[w].0 == dv);
                    assert(w == i);
                    assert(self@.contains_key(dv));
                    assert(self@[dv] == os[i as int].1);
                }
                if object_eq(&self.objects[i].1, &o) {
                    proof {
                        assert(self@[dv] == ov);
                        assert(old(self)@.insert(dv, ov) =~= old(self)@);
                    }
                    return Ok(d);
                } else {
                    return Err(StoreError::DigestCollision);
                }
            }
            i += 1;
        }
        proof {
            assert(!has_digest(os, dv));
            assert(!self@.contains_key(dv));
        }
        let d_ret = d.clone();
        self.objects.push((d, o));
        proof {
            let os2 = store_entries(self);
            assert forall|k: int| 0 <= k < os2.len() implies os2[k] == os.push((dv, ov))[k] by {
                assert(os2[k] == (self.objects@[k].0@, self.objects@[k].1@));
                if k < os2.len() - 1 {
                    assert(self.objects@[k] == old(self).objects@[k]);
                }
            }
            assert(os2 =~= os.push((dv, ov)));
            assert forall|a: int, b: int| 0 <= a < b < os2.len() implies os2[a].0 != os2[b].0 by {
                if b < os2.len() - 1 {
                    assert(os[a].0 != os[b].0);
                } else {
                    assert(os2[b].0 == dv);
                    if os2[a].0 == dv {
                        assert(has_digest(os, dv));
                        assert(false);
                    }
                }
            }
            assert forall|q: Seq<char>| #[trigger] has_digest(os2, q) <==> has_digest(os, q) || q
                == dv by {
                if has_digest(os2, q) {
                    let k = choose|k: int| 0 <= k < os2.len() && os2[k].0 == q;
                    if k < os.len() {
                        assert(os[k].0 == q);
                    }
                }
                if has_digest(os, q) {
                    let k = choose|k: int| 0 <= k < os.len() && os[k].0 == q;
                    assert(os2[k].0 == q);
                }
                if q == dv {
                    assert(os2[os.len() as int].0 == q);
                }
            }
            assert forall|q: Seq<char>| has_digest(os2, q) implies object_at(os2, q) == (if q == dv {
                ov
            } else {
                object_at(os, q)
            }) by {
                let k = choose|k: int| 0 <= k < os2.len() && os2[k].0 == q;
                if q == dv {
                    if k < os.len() {
                        assert(os[k].0 == dv);
                        assert(has_digest(os, dv));
                        assert(false);
                    }
                } else {
                    assert(k < os.len());
                    assert(os[k].0 == q);
                    let w = choose|w: int| 0 <= w < os.len() && os[w].0 == q;
                    assert(os[w].0 == q);
                    assert(w == k);
                }
            }
            assert(self@ =~= old(self)@.insert(dv, ov));
        }
        Ok(d_ret)
    }
}

} // verus!
