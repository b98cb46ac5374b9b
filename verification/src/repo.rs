//! The repository: one object store holding a strictly linear line of
//! commits.  Reads go through a snapshot that later writes never touch;
//! writes happen through exclusive access and only ever append — a new
//! blob, a new tree, a new commit, and a head moved one step forward.

use vstd::prelude::*;

use crate::article::{md_ext, ArticlePath, ArticleTitle};
use crate::store::{
    distinct_paths, map_of_entries, object_digest, CommitData, CommitView, Object,
    ObjectStore, ObjectView, Tree, TreeEntry,
};
use crate::text::views_of;
use vstd::utf8::{decode_utf8, encode_utf8, valid_utf8};

verus! {

/// The commit stored under a digest, if any.
pub open spec fn commit_of(m: Map<Seq<char>, ObjectView>, d: Seq<char>) -> Option<CommitView> {
    if m.contains_key(d) && m[d] is Commit {
        Some(m[d]->Commit_0)
    } else {
        None
    }
}

/// The tree stored under a digest, if any.
pub open spec fn tree_of(m: Map<Seq<char>, ObjectView>, d: Seq<char>) -> Option<
    Seq<(Seq<char>, Seq<char>)>,
> {
    if m.contains_key(d) && m[d] is Tree {
        Some(m[d]->Tree_0)
    } else {
        None
    }
}

/// The blob stored under a digest, if any.
pub open spec fn blob_of(m: Map<Seq<char>, ObjectView>, d: Seq<char>) -> Option<Seq<u8>> {
    if m.contains_key(d) && m[d] is Blob {
        Some(m[d]->Blob_0)
    } else {
        None
    }
}

/// The entries of a revision's tree, if the revision and its tree exist.
pub open spec fn tree_entries_at(m: Map<Seq<char>, ObjectView>, rev: Seq<char>) -> Option<
    Seq<(Seq<char>, Seq<char>)>,
> {
    match commit_of(m, rev) {
        Some(c) => tree_of(m, c.tree),
        None => None,
    }
}

/// A revision's documents as a map from path to blob digest.
pub open spec fn tree_map_at(m: Map<Seq<char>, ObjectView>, rev: Seq<char>) -> Option<
    Map<Seq<char>, Seq<char>>,
> {
    match tree_entries_at(m, rev) {
        Some(es) => Some(map_of_entries(es)),
        None => None,
    }
}

/// The blob digest a revision's tree holds at a path, if any.
pub open spec fn blob_ref_at(
    m: Map<Seq<char>, ObjectView>,
    rev: Seq<char>,
    path: Seq<char>,
) -> Option<Seq<char>> {
    match tree_map_at(m, rev) {
        Some(tm) => if tm.contains_key(path) {
            Some(tm[path])
        } else {
            None
        },
        None => None,
    }
}

/// The document a revision holds at a path: its blob digest and its text.
/// Absent when the path is not in the revision's tree, when anything the
/// lookup walks through is missing, and when the stored bytes are not
/// valid text — reads are best-effort and total.
pub open spec fn doc_at(m: Map<Seq<char>, ObjectView>, rev: Seq<char>, path: Seq<char>) -> Option<
    (Seq<char>, Seq<char>),
> {
    match blob_ref_at(m, rev, path) {
        Some(bd) => match blob_of(m, bd) {
            Some(bytes) => if valid_utf8(bytes) {
                Some((bd, decode_utf8(bytes)))
            } else {
                None
            },
            None => None,
        },
        None => None,
    }
}

/// One store map extends another: every key of the smaller map is present
/// in the larger with the same object.  Writes only ever extend.
pub open spec fn extends(m2: Map<Seq<char>, ObjectView>, m: Map<Seq<char>, ObjectView>) -> bool {
    forall|d: Seq<char>|
        #[trigger] m.contains_key(d) ==> m2.contains_key(d) && m2[d] == m[d]
}

/// All blobs a document map points at are present.
pub open spec fn blobs_present(
    m: Map<Seq<char>, ObjectView>,
    tm: Map<Seq<char>, Seq<char>>,
) -> bool {
    forall|p: Seq<char>| #[trigger] tm.contains_key(p) ==> blob_of(m, tm[p]) is Some
}

/// The revision digests form the strictly linear history the store
/// describes: each exists, each points at its predecessor, each has its
/// tree, and every tree's blobs are present.
pub open spec fn wf_chain(m: Map<Seq<char>, ObjectView>, rv: Seq<Seq<char>>) -> bool {
    forall|i: int|
        0 <= i < rv.len() ==> {
            &&& commit_of(m, #[trigger] rv[i]) is Some
            &&& commit_of(m, rv[i])->0.parent == (if i == 0 {
                None
            } else {
                Some(rv[i - 1])
            })
            &&& tree_entries_at(m, rv[i]) is Some
            &&& distinct_paths(tree_entries_at(m, rv[i])->0)
            &&& blobs_present(m, map_of_entries(tree_entries_at(m, rv[i])->0))
        }
}

/// Extending the store never invalidates a lookup that succeeded.
pub proof fn lemma_extends_reads(
    m: Map<Seq<char>, ObjectView>,
    m2: Map<Seq<char>, ObjectView>,
    rv: Seq<Seq<char>>,
)
    requires
        extends(m2, m),
        wf_chain(m, rv),
    ensures
        wf_chain(m2, rv),
        forall|i: int|
            0 <= i < rv.len() ==> tree_entries_at(m2, #[trigger] rv[i]) == tree_entries_at(
                m,
                rv[i],
            ),
{
    assert forall|i: int| 0 <= i < rv.len() implies {
        &&& commit_of(m2, #[trigger] rv[i]) == commit_of(m, rv[i])
        &&& tree_entries_at(m2, rv[i]) == tree_entries_at(m, rv[i])
        &&& distinct_paths(tree_entries_at(m2, rv[i])->0)
        &&& blobs_present(m2, map_of_entries(tree_entries_at(m2, rv[i])->0))
    } by {
        assert(m.contains_key(rv[i]));
        let c = commit_of(m, rv[i])->0;
        assert(m.contains_key(c.tree));
        let tm = map_of_entries(tree_entries_at(m, rv[i])->0);
        assert forall|p: Seq<char>| #[trigger] tm.contains_key(p) implies blob_of(m2, tm[p])
            is Some by {
            assert(blob_of(m, tm[p]) is Some);
            assert(m.contains_key(tm[p]));
        }
    }
}

/// Who authored a revision.
pub struct Signature {
    pub name: String,
    pub email: String,
}

/// A moment in time, kept as seconds since the Unix epoch.
pub struct ISOUtcDate(pub i64);

impl ISOUtcDate {
    /// The moment the given Unix timestamp names.
    pub fn from_unix(time: i64) -> (r: ISOUtcDate)
        ensures
            r.0 == time,
    {
        ISOUtcDate(time)
    }

    /// The timestamp back.
    pub fn unix_seconds(&self) -> (r: i64)
        ensures
            r == self.0,
    {
        self.0
    }
}

/// One step of a document's history: who changed it, when, under which
/// commit message, and the revision that did.
pub struct HistoryEntry {
    pub user: Signature,
    pub date: ISOUtcDate,
    pub summary: String,
    pub rev: String,
}

/// What can go wrong inside the object graph while committing.
#[derive(Debug, PartialEq, Eq, Structural)]
pub enum Error {
    /// A revision or tree the operation must read is not in the store.
    ObjectMissing,
    /// Bytes that the operation must read as text are not valid text.
    Encoding,
    /// Two distinct objects would share a digest; nothing was committed.
    DigestCollision,
}

/// Relies on std::time::SystemTime::now and
/// std::time::SystemTime::duration_since: the seconds since the Unix
/// epoch.  Nothing is assumed of the clock's value.
#[verifier::external_body]
fn now_unix_seconds() -> i64 {
    match std::time::SystemTime::now().duration_since(std::time::UNIX_EPOCH) {
        Ok(d) => d.as_secs() as i64,
        Err(_) => 0,
    }
}

/// An entry-for-entry copy of a tree.
fn clone_tree(t: &Tree) -> (r: Tree)
    ensures
        r@ == t@,
{
    let mut entries: Vec<TreeEntry> = Vec::new();
    let mut i: usize = 0;
    while i < t.entries.len()
        invariant
            i <= t.entries@.len(),
            entries@.map_values(|e: TreeEntry| e@) == t@.take(i as int),
        decreases t.entries@.len() - i,
    {
        let ghost prev = entries@;
        entries.push(
            TreeEntry { path: t.entries[i].path.clone(), blob: t.entries[i].blob.clone() },
        );
        proof {
            assert(t@[i as int] == t.entries@[i as int]@);
            assert(entries@.map_values(|e: TreeEntry| e@) =~= prev.map_values(
                |e: TreeEntry| e@,
            ).push(t@[i as int]));
            assert(entries@.map_values(|e: TreeEntry| e@) =~= t@.take(i + 1));
        }
        i += 1;
    }
    proof {
        assert(t@.take(t.entries@.len() as int) =~= t@);
    }
    let r = Tree { entries };
    r
}

/// A field-for-field copy of a commit.
fn clone_commit(c: &CommitData) -> (r: CommitData)
    ensures
        r@ == c@,
{
    CommitData {
        tree: c.tree.clone(),
        parent: match &c.parent {
            Some(p) => Some(p.clone()),
            None => None,
        },
        author_name: c.author_name.clone(),
        author_email: c.author_email.clone(),
        message: c.message.clone(),
        timestamp: c.timestamp,
    }
}

/// A value copy of an object.
fn clone_object(o: &Object) -> (r: Object)
    ensures
        r@ == o@,
{
    match o {
        Object::Blob(b) => Object::Blob(crate::text::clone_bytes(b)),
        Object::Tree(t) => Object::Tree(clone_tree(t)),
        Object::Commit(c) => Object::Commit(clone_commit(c)),
    }
}

/// A copy of the store with the same map.
fn clone_store(s: &ObjectStore) -> (r: ObjectStore)
    ensures
        r@ == s@,
        r.wf() == s.wf(),
{
    let mut objects: Vec<(String, Object)> = Vec::new();
    let mut i: usize = 0;
    while i < s.objects.len()
        invariant
            i <= s.objects@.len(),
            objects@.map_values(|p: (String, Object)| (p.0@, p.1@)) == crate::store::store_entries(
                s,
            ).take(i as int),
        decreases s.objects@.len() - i,
    {
        let ghost prev = objects@;
        let d = s.objects[i].0.clone();
        let o = clone_object(&s.objects[i].1);
        objects.push((d, o));
        proof {
            assert(crate::store::store_entries(s)[i as int] == (
                s.objects@[i as int].0@,
                s.objects@[i as int].1@,
            ));
            assert(objects@.map_values(|p: (String, Object)| (p.0@, p.1@)) =~= prev.map_values(
                |p: (String, Object)| (p.0@, p.1@),
            ).push(crate::store::store_entries(s)[i as int]));
            assert(objects@.map_values(|p: (String, Object)| (p.0@, p.1@))
                =~= crate::store::store_entries(s).take(i + 1));
        }
        i += 1;
    }
    let r = ObjectStore { objects };
    proof {
        assert(crate::store::store_entries(s).take(s.objects@.len() as int)
            =~= crate::store::store_entries(s));
        assert(crate::store::store_entries(&r) == crate::store::store_entries(s));
        assert(r@ =~= s@);
    }
    r
}

/// Every tree in the store has pairwise distinct paths.  The write path
/// only ever stores trees it built that way.
pub open spec fn trees_distinct(m: Map<Seq<char>, ObjectView>) -> bool {
    forall|d: Seq<char>|
        #[trigger] m.contains_key(d) && m[d] is Tree ==> distinct_paths(m[d]->Tree_0)
}

/// The fixed placeholder text of the bootstrap home page.
pub const HOME_PAGE_CONTENT: &'static str =
    "This is the home page of your new wiki. Click on edit to put something here.";

/// The repository: the object store and the linear list of revisions,
/// oldest first.  The last revision is the head.
pub struct Repository {
    pub store: ObjectStore,
    pub revs: Vec<String>,
}

/// A consistent, point-in-time view of the object graph.  It is a copy:
/// a writer that advances the head later never changes what this snapshot
/// observes, and a new snapshot must be opened to see a later head.
pub struct ReadOnly {
    pub store: ObjectStore,
    pub revs: Vec<String>,
}

impl Repository {
    /// The digest of the head revision.
    pub open spec fn head_digest(&self) -> Seq<char> {
        views_of(self.revs@).last()
    }

    pub open spec fn wf(&self) -> bool {
        &&& self.store.wf()
        &&& self.revs@.len() >= 1
        &&& wf_chain(self.store@, views_of(self.revs@))
        &&& trees_distinct(self.store@)
    }

    /// Start a repository: an empty object graph is bootstrapped with one
    /// initial commit whose sole document is the fixed placeholder home
    /// page under the given title.
    pub fn open_or_init(home_page: &str) -> (r: Result<Repository, Error>)
        ensures
            match r {
                Ok(repo) => {
                    &&& repo.wf()
                    &&& repo.revs@.len() == 1
                    &&& ({
                        let m = repo.store@;
                        let hd = repo.head_digest();
                        let c = commit_of(m, hd);
                        &&& c is Some
                        &&& c->0.parent is None
                        &&& c->0.author_name == "system"@
                        &&& c->0.author_email == "system"@
                        &&& c->0.message == "Initial commit"@
                        &&& tree_map_at(m, hd) is Some
                        &&& tree_map_at(m, hd)->0.dom() =~= set![home_page@ + md_ext()]
                        &&& doc_at(m, hd, home_page@ + md_ext()) matches Some((_d, text))
                            && text == HOME_PAGE_CONTENT@
                    })
                },
                Err(e) => {
                    &&& e == Error::DigestCollision
                    &&& bootstrap_collision(home_page@)
                },
            },
    {
        let mut store = ObjectStore::new();
        let content = crate::text::str_to_bytes(HOME_PAGE_CONTENT);
        let ghost contentv = encode_utf8(HOME_PAGE_CONTENT@);
        proof {
            vstd::utf8::encode_utf8_valid_utf8(HOME_PAGE_CONTENT@);
            vstd::utf8::encode_utf8_decode_utf8(HOME_PAGE_CONTENT@);
        }
        let bd = match store.put(Object::Blob(content)) {
            Ok(d) => d,
            Err(_) => {
                proof {
                    // The store was empty: nothing can be under this digest.
                    assert(false);
                }
                return Err(Error::DigestCollision);
            },
        };
        let ghost m1 = store@;
        let mut tree = Tree::new();
        let title = ArticleTitle::new(home_page.to_owned());
        let path = ArticlePath::from_title(&title);
        tree.set(path.0, bd.clone());
        let ghost treev = tree@;
        proof {
            assert(treev =~= seq![(home_page@ + md_ext(), bd@)]);
        }
        let td = match store.put(Object::Tree(tree)) {
            Ok(d) => d,
            Err(_) => {
                proof {
                    // The only stored object is the blob, so the tree's
                    // digest equals the blob's: a witnessed collision.
                    let tdv = object_digest(ObjectView::Tree(treev));
                    assert(m1.contains_key(tdv));
                    assert(m1 == Map::<Seq<char>, ObjectView>::empty().insert(
                        bd@,
                        ObjectView::Blob(contentv),
                    ));
                    assert(tdv == bd@);
                    assert(bootstrap_collision(home_page@));
                }
                return Err(Error::DigestCollision);
            },
        };
        let ghost m2 = store@;
        let commit = CommitData {
            tree: td,
            parent: None,
            author_name: String::from_str("system"),
            author_email: String::from_str("system"),
            message: String::from_str("Initial commit"),
            timestamp: now_unix_seconds(),
        };
        let ghost commitv = commit@;
        let cd = match store.put(Object::Commit(commit)) {
            Ok(d) => d,
            Err(_) => {
                proof {
                    // The only stored objects are the blob and the tree,
                    // so the commit's digest equals one of theirs: a
                    // witnessed collision for its timestamp.
                    let cdv = object_digest(ObjectView::Commit(commitv));
                    assert(m2.contains_key(cdv));
                    assert(m2 == m1.insert(td@, ObjectView::Tree(treev)));
                    assert(m1 == Map::<Seq<char>, ObjectView>::empty().insert(
                        bd@,
                        ObjectView::Blob(contentv),
                    ));
                    assert(cdv == bd@ || cdv == td@);
                    assert(bootstrap_commit_collides(home_page@, commitv.timestamp));
                    assert(bootstrap_collision(home_page@));
                }
                return Err(Error::DigestCollision);
            },
        };
        let mut revs: Vec<String> = Vec::new();
        revs.push(cd);
        let repo = Repository { store, revs };
        proof {
            reveal_strlit("system");
            reveal_strlit("Initial commit");
            let m = repo.store@;
            let hd = repo.head_digest();
            assert(views_of(repo.revs@) =~= seq![hd]);
            assert(m.contains_key(hd) && m[hd] is Commit);
            assert(commit_of(m, hd) == Some(commitv));
            assert(m.contains_key(commitv.tree) && m[commitv.tree] is Tree);
            assert(tree_of(m, commitv.tree) == Some(treev));
            assert(map_of_entries(treev).dom() =~= set![home_page@ + md_ext()]);
            let tm = map_of_entries(treev);
            assert(tm.contains_key(home_page@ + md_ext()));
            assert(tm[home_page@ + md_ext()] == bd@);
            assert(m.contains_key(bd@) && m[bd@] is Blob);
            assert(blob_of(m, bd@) == Some(encode_utf8(HOME_PAGE_CONTENT@)));
            assert forall|p: Seq<char>| #[trigger] tm.contains_key(p) implies blob_of(m, tm[p])
                is Some by {
                assert(p == home_page@ + md_ext());
            }
            assert(wf_chain(m, views_of(repo.revs@)));
            assert forall|d: Seq<char>| #[trigger] m.contains_key(d) && m[d] is Tree
                implies distinct_paths(m[d]->Tree_0) by {
                assert(d == commitv.tree);
            }
        }
        Ok(repo)
    }

    /// Open a read snapshot: a copy of the graph as of now.  Cheap in
    /// spirit, never blocked by a writer, and never refreshed.
    pub fn read(&self) -> (r: ReadOnly)
        ensures
            r.store@ == self.store@,
            views_of(r.revs@) == views_of(self.revs@),
            self.wf() ==> r.wf(),
    {
        ReadOnly { store: clone_store(&self.store), revs: clone_revs(&self.revs) }
    }
}

/// The two edits are classified by blob digest equality alone: identical
/// content always yields an identical digest, so digest equality is a
/// correct stand-in for content equality.  A fast commit needs no merge:
/// either the claimed ancestor still matches the head's blob, or neither
/// side has the document.  Every mismatch — a changed blob, a document
/// created meanwhile, or one present on only one side — is a possible
/// concurrent write and goes to the three-way merge.
pub open spec fn classify_fast(cur: Option<Seq<char>>, anc: Option<Seq<char>>) -> bool {
    match (cur, anc) {
        (Some(c), Some(a)) => c == a,
        (None, None) => true,
        _ => false,
    }
}

/// The state after one committed edit: the old state extended by the new
/// content blob, a tree that differs from the head tree at the one path,
/// and a new head commit whose parent is the old head.
pub open spec fn committed_state(
    m: Map<Seq<char>, ObjectView>,
    rv: Seq<Seq<char>>,
    m2: Map<Seq<char>, ObjectView>,
    rv2: Seq<Seq<char>>,
    path: Seq<char>,
    text: Seq<char>,
    name: Seq<char>,
    email: Seq<char>,
    msg: Seq<char>,
) -> bool {
    let bd = object_digest(ObjectView::Blob(encode_utf8(text)));
    let hd = rv.last();
    let nh = rv2.last();
    &&& rv2 == rv.push(nh)
    &&& extends(m2, m)
    &&& commit_of(m2, nh) is Some
    &&& commit_of(m2, nh)->0.parent == Some(hd)
    &&& commit_of(m2, nh)->0.author_name == name
    &&& commit_of(m2, nh)->0.author_email == email
    &&& commit_of(m2, nh)->0.message == msg
    &&& tree_map_at(m2, nh) == Some(tree_map_at(m, hd)->0.insert(path, bd))
    &&& blob_of(m2, bd) == Some(encode_utf8(text))
}

/// The commit object an edit builds, with the given timestamp, collides:
/// its digest equals the fresh blob's or tree's, or a stored different
/// object already sits under it.
pub open spec fn commit_digest_collides(
    m: Map<Seq<char>, ObjectView>,
    es0: Seq<(Seq<char>, Seq<char>)>,
    path: Seq<char>,
    text: Seq<char>,
    hd: Seq<char>,
    name: Seq<char>,
    email: Seq<char>,
    msg: Seq<char>,
    ts: i64,
) -> bool {
    let bd = object_digest(ObjectView::Blob(encode_utf8(text)));
    let es = crate::store::set_entries(es0, path, bd);
    let td = object_digest(ObjectView::Tree(es));
    let cv = CommitView {
        tree: td,
        parent: Some(hd),
        author_name: name,
        author_email: email,
        message: msg,
        timestamp: ts,
    };
    let cd = object_digest(ObjectView::Commit(cv));
    cd == bd || cd == td || (m.contains_key(cd) && m[cd] != ObjectView::Commit(cv))
}

/// Two distinct objects share a digest among the blob, the tree and the
/// commit this edit builds over the head entries `es0`, or one of them
/// and a stored different object do.  Only such a witnessed collision
/// may make a commit fail.
pub open spec fn commit_collision(
    m: Map<Seq<char>, ObjectView>,
    es0: Seq<(Seq<char>, Seq<char>)>,
    path: Seq<char>,
    text: Seq<char>,
    hd: Seq<char>,
    name: Seq<char>,
    email: Seq<char>,
    msg: Seq<char>,
) -> bool {
    let enc = encode_utf8(text);
    let bd = object_digest(ObjectView::Blob(enc));
    let es = crate::store::set_entries(es0, path, bd);
    let td = object_digest(ObjectView::Tree(es));
    ||| (m.contains_key(bd) && m[bd] != ObjectView::Blob(enc))
    ||| td == bd
    ||| (m.contains_key(td) && m[td] != ObjectView::Tree(es))
    ||| exists|ts: i64| #[trigger] commit_digest_collides(m, es0, path, text, hd, name, email, msg, ts)
}

/// The bootstrap commit, with the given timestamp, collides with the
/// bootstrap blob or tree.
pub open spec fn bootstrap_commit_collides(home_page: Seq<char>, ts: i64) -> bool {
    let content = encode_utf8(HOME_PAGE_CONTENT@);
    let bd = object_digest(ObjectView::Blob(content));
    let es = seq![(home_page + md_ext(), bd)];
    let td = object_digest(ObjectView::Tree(es));
    let cv = CommitView {
        tree: td,
        parent: None,
        author_name: "system"@,
        author_email: "system"@,
        message: "Initial commit"@,
        timestamp: ts,
    };
    let cd = object_digest(ObjectView::Commit(cv));
    cd == bd || cd == td
}

/// Two of the three bootstrap objects share a digest.  Only such a
/// witnessed collision may make the bootstrap fail.
pub open spec fn bootstrap_collision(home_page: Seq<char>) -> bool {
    let content = encode_utf8(HOME_PAGE_CONTENT@);
    let bd = object_digest(ObjectView::Blob(content));
    let es = seq![(home_page + md_ext(), bd)];
    let td = object_digest(ObjectView::Tree(es));
    ||| td == bd
    ||| exists|ts: i64| #[trigger] bootstrap_commit_collides(home_page, ts)
}

/// Everything one submitted edit decides and changes, as a relation
/// between the prior state `(m, rv)`, the final state `(m2, rv2)`, the
/// submission, and the outcome `r`.
pub open spec fn commit_outcome(
    m: Map<Seq<char>, ObjectView>,
    rv: Seq<Seq<char>>,
    m2: Map<Seq<char>, ObjectView>,
    rv2: Seq<Seq<char>>,
    path: Seq<char>,
    anc: Option<Seq<char>>,
    base_rev: Seq<char>,
    markdown: Seq<char>,
    msg: Seq<char>,
    name: Seq<char>,
    email: Seq<char>,
    r: Result<crate::api::Commit, Error>,
) -> bool {
    let hd = rv.last();
    let es0 = tree_entries_at(m, hd)->0;
    let tm = tree_map_at(m, hd)->0;
    let cur = if tm.contains_key(path) {
        Some(tm[path])
    } else {
        None::<Seq<char>>
    };
    let fast = classify_fast(cur, anc);
    let ours_bytes = blob_of(m, cur->0)->0;
    let ours_text_opt = if cur is Some {
        Some(decode_utf8(ours_bytes))
    } else {
        None::<Seq<char>>
    };
    let ours_payload = if cur is Some {
        decode_utf8(ours_bytes)
    } else {
        Seq::<char>::empty()
    };
    let ours_ok = cur is None || valid_utf8(ours_bytes);
    let cur_oid = if cur is Some {
        cur->0
    } else {
        object_digest(ObjectView::Blob(encode_utf8(Seq::<char>::empty())))
    };
    let atm_opt = tree_map_at(m, base_rev);
    let anc_ref = match atm_opt {
        Some(atm) => if atm.contains_key(path) {
            Some(atm[path])
        } else {
            None::<Seq<char>>
        },
        None => None::<Seq<char>>,
    };
    let anc_bytes_opt = match anc_ref {
        Some(ad) => blob_of(m, ad),
        None => None::<Seq<u8>>,
    };
    let reads_present = atm_opt is Some && (anc_ref is None || anc_bytes_opt is Some);
    let anc_utf8_ok = anc_ref is None || (anc_bytes_opt is Some && valid_utf8(anc_bytes_opt->0));
    let anc_text_opt = if anc_ref is Some && anc_bytes_opt is Some && valid_utf8(
        anc_bytes_opt->0,
    ) {
        Some(decode_utf8(anc_bytes_opt->0))
    } else {
        None::<Seq<char>>
    };
    let mg = crate::merge::spec_merge_docs(anc_text_opt, ours_text_opt, markdown);
    let readable = !fast && ours_ok && reads_present && anc_utf8_ok;
    &&& match r {
        Ok(crate::api::Commit::NoConflict) => {
            &&& fast
            &&& committed_state(m, rv, m2, rv2, path, markdown, name, email, msg)
        },
        Ok(crate::api::Commit::Merged { merged, oid, rev }) => {
            &&& readable
            &&& mg == Some(merged@)
            &&& oid@ == cur_oid
            &&& rev@ == hd
            &&& committed_state(m, rv, m2, rv2, path, merged@, name, email, msg)
        },
        Ok(crate::api::Commit::Conflict { ancestor, ours, theirs, oid, rev }) => {
            &&& readable
            &&& mg is None
            &&& (match ancestor {
                Some(a) => anc_text_opt == Some(a@),
                None => anc_text_opt is None,
            })
            &&& ours@ == ours_payload
            &&& theirs@ == markdown
            &&& oid@ == cur_oid
            &&& rev@ == hd
            &&& m2 == m
            &&& rv2 == rv
        },
        Err(Error::ObjectMissing) => {
            &&& !fast
            &&& ours_ok
            &&& !reads_present
            &&& rv2 == rv
        },
        Err(Error::Encoding) => {
            &&& !fast
            &&& (!ours_ok || (reads_present && !anc_utf8_ok))
            &&& rv2 == rv
        },
        Err(Error::DigestCollision) => {
            &&& rv2 == rv
            &&& (fast ==> commit_collision(m, es0, path, markdown, hd, name, email, msg))
            &&& (!fast ==> readable && mg is Some && commit_collision(
                m,
                es0,
                path,
                mg->0,
                hd,
                name,
                email,
                msg,
            ))
        },
    }
    &&& (fast ==> (r matches Ok(crate::api::Commit::NoConflict) || r matches Err(
        Error::DigestCollision,
    )))
    &&& ((readable && mg is None) ==> r matches Ok(crate::api::Commit::Conflict { .. }))
    &&& ((readable && mg is Some) ==> (r matches Ok(crate::api::Commit::Merged { .. })
        || r matches Err(Error::DigestCollision)))
}

/// Inserting a key that is absent, or present with the same object,
/// extends the map.
proof fn lemma_extends_insert(
    m: Map<Seq<char>, ObjectView>,
    d: Seq<char>,
    o: ObjectView,
    m2: Map<Seq<char>, ObjectView>,
)
    requires
        m2 == m.insert(d, o),
        !m.contains_key(d) || m[d] == o,
    ensures
        extends(m2, m),
{
}

/// Such an insertion also keeps every tree in the map path-distinct,
/// provided the inserted object is.
proof fn lemma_trees_distinct_insert(
    m: Map<Seq<char>, ObjectView>,
    d: Seq<char>,
    o: ObjectView,
    m2: Map<Seq<char>, ObjectView>,
)
    requires
        trees_distinct(m),
        m2 == m.insert(d, o),
        o is Tree ==> distinct_paths(o->Tree_0),
    ensures
        trees_distinct(m2),
{
    assert forall|q: Seq<char>| #[trigger] m2.contains_key(q) && m2[q] is Tree
        implies distinct_paths(m2[q]->Tree_0) by {
        if q != d {
            assert(m.contains_key(q) && m[q] == m2[q]);
        }
    }
}

impl Repository {
    /// Write one content blob, the tree built on the head tree with the
    /// blob grafted in at the path, and a commit pointing at the old head;
    /// then advance the head.  A digest collision aborts with nothing
    /// referenced: whatever was written is unreachable garbage.
    fn commit_file(
        &mut self,
        tree: Tree,
        hd: &String,
        path: &ArticlePath,
        content: &str,
        account: &crate::user_storage::UserAccount,
        msg: &String,
    ) -> (r: Result<(), Error>)
        requires
            old(self).wf(),
            hd@ == old(self).head_digest(),
            tree.wf(),
            Some(tree@) == tree_entries_at(old(self).store@, hd@),
        ensures
            final(self).wf(),
            extends(final(self).store@, old(self).store@),
            match r {
                Ok(()) => committed_state(
                    old(self).store@,
                    views_of(old(self).revs@),
                    final(self).store@,
                    views_of(final(self).revs@),
                    path@,
                    content@,
                    account.name@,
                    account.email@,
                    msg@,
                ),
                Err(e) => {
                    &&& e == Error::DigestCollision
                    &&& views_of(final(self).revs@) == views_of(old(self).revs@)
                    &&& commit_collision(
                        old(self).store@,
                        tree_entries_at(old(self).store@, hd@)->0,
                        path@,
                        content@,
                        hd@,
                        account.name@,
                        account.email@,
                        msg@,
                    )
                },
            },
    {
        let ghost m = self.store@;
        let ghost rv = views_of(self.revs@);
        let ghost es0 = tree@;
        let ghost tm = crate::store::map_of_entries(tree@);
        proof {
            assert(rv.last() == rv[rv.len() - 1]);
            assert(extends(m, m));
        }
        let bytes = crate::text::str_to_bytes(content);
        let ghost enc = encode_utf8(content@);
        let bd = match self.store.put(Object::Blob(bytes)) {
            Ok(d) => d,
            Err(_) => {
                proof {
                    // The blob's digest carries a stored different object.
                    assert(m.contains_key(object_digest(ObjectView::Blob(enc))));
                    assert(commit_collision(m, es0, path@, content@, hd@, account.name@,
                        account.email@, msg@));
                }
                return Err(Error::DigestCollision);
            },
        };
        let ghost m1 = self.store@;
        proof {
            lemma_extends_insert(m, bd@, ObjectView::Blob(enc), m1);
            lemma_trees_distinct_insert(m, bd@, ObjectView::Blob(enc), m1);
            lemma_extends_reads(m, m1, rv);
        }
        let mut tree = tree;
        tree.set(path.0.clone(), bd.clone());
        let ghost treev = tree@;
        let ghost tm2 = crate::store::map_of_entries(treev);
        proof {
            assert(treev == crate::store::set_entries(es0, path@, bd@));
        }
        let td = match self.store.put(Object::Tree(tree)) {
            Ok(d) => d,
            Err(_) => {
                proof {
                    // The tree's digest equals the fresh blob's, or carries
                    // a stored different object.
                    let tdv = object_digest(ObjectView::Tree(treev));
                    assert(m1.contains_key(tdv) && m1[tdv] != ObjectView::Tree(treev));
                    assert(m1 == m.insert(bd@, ObjectView::Blob(enc)));
                    if tdv != bd@ {
                        assert(m.contains_key(tdv) && m[tdv] == m1[tdv]);
                    }
                    assert(commit_collision(m, es0, path@, content@, hd@, account.name@,
                        account.email@, msg@));
                }
                return Err(Error::DigestCollision);
            },
        };
        let ghost m2 = self.store@;
        proof {
            lemma_extends_insert(m1, td@, ObjectView::Tree(treev), m2);
            lemma_trees_distinct_insert(m1, td@, ObjectView::Tree(treev), m2);
            lemma_extends_reads(m1, m2, rv);
            assert(extends(m2, m));
        }
        let commit = CommitData {
            tree: td,
            parent: Some(hd.clone()),
            author_name: account.name.clone(),
            author_email: account.email.clone(),
            message: msg.clone(),
            timestamp: now_unix_seconds(),
        };
        let ghost commitv = commit@;
        let cd = match self.store.put(Object::Commit(commit)) {
            Ok(d) => d,
            Err(_) => {
                proof {
                    // The commit's digest, for this timestamp, equals the
                    // fresh blob's or tree's, or carries a stored
                    // different object: a witnessed collision.
                    let cdv = object_digest(ObjectView::Commit(commitv));
                    assert(m2.contains_key(cdv) && m2[cdv] != ObjectView::Commit(commitv));
                    assert(m2 == m1.insert(td@, ObjectView::Tree(treev)));
                    assert(m1 == m.insert(bd@, ObjectView::Blob(enc)));
                    if cdv != td@ && cdv != bd@ {
                        assert(m.contains_key(cdv) && m[cdv] == m2[cdv]);
                    }
                    assert(commit_digest_collides(m, es0, path@, content@, hd@, account.name@,
                        account.email@, msg@, commitv.timestamp));
                    assert(commit_collision(m, es0, path@, content@, hd@, account.name@,
                        account.email@, msg@));
                }
                return Err(Error::DigestCollision);
            },
        };
        let ghost m3 = self.store@;
        proof {
            lemma_extends_insert(m2, cd@, ObjectView::Commit(commitv), m3);
            lemma_trees_distinct_insert(m2, cd@, ObjectView::Commit(commitv), m3);
            lemma_extends_reads(m2, m3, rv);
            assert(extends(m3, m));
        }
        let ghost cdv = cd@;
        self.revs.push(cd);
        proof {
            let rv2 = views_of(self.revs@);
            assert forall|x: int| 0 <= x < rv2.len() implies rv2[x] == rv.push(cdv)[x] by {
                assert(rv2[x] == self.revs@[x]@);
                if x < rv2.len() - 1 {
                    assert(old(self).revs@[x] == self.revs@[x]);
                    assert(rv[x] == old(self).revs@[x]@);
                }
            }
            assert(rv2 =~= rv.push(cdv));
            assert(rv2.last() == cdv);

            // The three digests are pairwise distinct in the relevant ways:
            // each later insertion found either a fresh key or an equal object.
            assert(m1.contains_key(bd@) && m1[bd@] == ObjectView::Blob(enc));
            assert(m2.contains_key(td@) && m2[td@] == ObjectView::Tree(treev));
            assert(m3.contains_key(cdv) && m3[cdv] == ObjectView::Commit(commitv));
            assert(m2[bd@] == ObjectView::Blob(enc)) by {
                assert(m1.contains_key(bd@));
            }
            assert(m3[bd@] == ObjectView::Blob(enc)) by {
                assert(m2.contains_key(bd@));
            }
            assert(m3[td@] == ObjectView::Tree(treev)) by {
                assert(m2.contains_key(td@));
            }

            // The new head reads back as written.
            assert(commit_of(m3, cdv) == Some(commitv));
            assert(commitv.tree == td@);
            assert(tree_of(m3, td@) == Some(treev));
            assert(tree_entries_at(m3, cdv) == Some(treev));
            assert(tm2 == tm.insert(path@, bd@));
            assert(tree_map_at(m3, cdv) == Some(tm.insert(path@, bd@)));
            assert(blob_of(m3, bd@) == Some(enc));
            vstd::utf8::encode_utf8_valid_utf8(content@);
            vstd::utf8::encode_utf8_decode_utf8(content@);
            assert(tm2.contains_key(path@) && tm2[path@] == bd@);
            assert(doc_at(m3, cdv, path@) == Some((bd@, content@)));

            // The chain stays well-formed with the new head appended.
            let hd_tm = crate::store::map_of_entries(tree_entries_at(m, rv.last())->0);
            assert(hd_tm == tm);
            assert(blobs_present(m, tm)) by {
                assert(rv.last() == rv[rv.len() - 1]);
            }
            assert forall|p: Seq<char>| #[trigger] tm2.contains_key(p) implies blob_of(m3, tm2[p])
                is Some by {
                if p == path@ {
                    assert(blob_of(m3, bd@) is Some);
                } else {
                    assert(tm.contains_key(p) && tm2[p] == tm[p]);
                    assert(blob_of(m, tm[p]) is Some);
                    assert(m.contains_key(tm[p]));
                }
            }
            assert(wf_chain(m3, rv2)) by {
                assert(wf_chain(m3, rv));
                assert forall|x: int| 0 <= x < rv2.len() implies {
                    &&& commit_of(m3, #[trigger] rv2[x]) is Some
                    &&& commit_of(m3, rv2[x])->0.parent == (if x == 0 {
                        None
                    } else {
                        Some(rv2[x - 1])
                    })
                    &&& tree_entries_at(m3, rv2[x]) is Some
                    &&& distinct_paths(tree_entries_at(m3, rv2[x])->0)
                    &&& blobs_present(m3, crate::store::map_of_entries(tree_entries_at(m3, rv2[x])->0))
                } by {
                    if x < rv2.len() - 1 {
                        assert(rv2[x] == rv[x]);
                    } else {
                        assert(rv2[x] == cdv);
                        assert(commitv.parent == Some(hd@));
                        assert(rv2[x - 1] == rv[x - 1]);
                        assert(rv[x - 1] == rv.last());
                    }
                }
            }
        }
        Ok(())
    }
}

impl Repository {
    /// Submit one edit under the write session's exclusive access.
    ///
    /// The head tree is read and the edit is classified by digest
    /// equality: an edit whose claimed ancestor still matches the head's
    /// blob — or that creates a document neither side has — is committed
    /// as is (`NoConflict`).  Every other constellation is a possible
    /// concurrent write — a changed blob, a document created meanwhile,
    /// or a document the editor knew that head no longer holds — and
    /// goes to the three-way merge over the ancestor revision's text,
    /// with a document absent at head taking part with no lines at all:
    /// a clean merge is committed (`Merged`), a textual conflict commits
    /// nothing and surfaces all three texts (`Conflict`) for manual
    /// resolution and resubmission with the returned `oid` as the new
    /// ancestor.
    #[verifier::rlimit(100)]
    #[verifier::spinoff_prover]
    pub fn commit_article(
        &mut self,
        article_path: &ArticlePath,
        account: &crate::user_storage::UserAccount,
        edit: &crate::api::EditSubmit,
    ) -> (r: Result<crate::api::Commit, Error>)
        requires
            old(self).wf(),
        ensures
            final(self).wf(),
            extends(final(self).store@, old(self).store@),
            commit_outcome(
                old(self).store@,
                views_of(old(self).revs@),
                final(self).store@,
                views_of(final(self).revs@),
                article_path@,
                match edit.oid {
                    Some(o) => Some(o@),
                    None => None::<Seq<char>>,
                },
                edit.rev@,
                edit.markdown@,
                edit.commit_msg@,
                account.name@,
                account.email@,
                r,
            ),
    {
        let ghost m = self.store@;
        let ghost rv = views_of(self.revs@);
        proof {
            assert(rv.last() == rv[rv.len() - 1]);
            assert(rv[rv.len() - 1] == self.revs@[rv.len() - 1]@);
        }
        let hd: String = self.revs[self.revs.len() - 1].clone();
        let htd: String = match self.store.get(hd.as_str()) {
            Some(Object::Commit(c)) => c.tree.clone(),
            _ => {
                proof {
                    assert(commit_of(m, rv.last()) is Some);
                    assert(false);
                }
                return Err(Error::ObjectMissing);
            },
        };
        let head_tree: Tree = match self.store.get(htd.as_str()) {
            Some(Object::Tree(t)) => clone_tree(t),
            _ => {
                proof {
                    assert(tree_entries_at(m, rv.last()) is Some);
                    assert(false);
                }
                return Err(Error::ObjectMissing);
            },
        };
        proof {
            assert(Some(head_tree@) == tree_entries_at(m, hd@));
            assert(m.contains_key(htd@) && m[htd@] is Tree);
            assert(distinct_paths(head_tree@));
        }
        let ghost tm = crate::store::map_of_entries(head_tree@);
        let cur_opt = head_tree.get(article_path.as_str());
        let fast = match (&cur_opt, &edit.oid) {
            (Some(c), Some(a)) => crate::text::str_eq(c.as_str(), a.as_str()),
            (None, None) => true,
            _ => false,
        };
        if fast {
            match self.commit_file(
                head_tree,
                &hd,
                article_path,
                edit.markdown.as_str(),
                account,
                &edit.commit_msg,
            ) {
                Ok(()) => Ok(crate::api::Commit::NoConflict),
                Err(e) => Err(e),
            }
        } else {
            // The document as it stands at head takes part in the merge;
            // one absent at head takes part with no lines at all, and is
            // identified by the empty blob's digest.
            let (cur_d, ours_opt): (String, Option<String>) = match cur_opt {
                Some(d) => {
                    proof {
                        assert(tm.contains_key(article_path@) && tm[article_path@] == d@);
                        assert(blobs_present(m, tm)) by {
                            assert(rv.last() == rv[rv.len() - 1]);
                        }
                        assert(blob_of(m, d@) is Some);
                    }
                    let ours_bytes: Vec<u8> = match self.store.get(d.as_str()) {
                        Some(Object::Blob(b)) => crate::text::clone_bytes(b),
                        _ => {
                            proof {
                                assert(false);
                            }
                            return Err(Error::ObjectMissing);
                        },
                    };
                    match crate::text::try_utf8_to_string(ours_bytes) {
                        Some(t) => (d, Some(t)),
                        None => {
                            return Err(Error::Encoding);
                        },
                    }
                },
                None => {
                    let empty_bytes: Vec<u8> = Vec::new();
                    proof {
                        assert(encode_utf8(Seq::<char>::empty()) =~= Seq::<u8>::empty());
                        assert(empty_bytes@ =~= encode_utf8(Seq::<char>::empty()));
                    }
                    (crate::store::blob_digest(empty_bytes), None)
                },
            };
            let atd: String = match self.store.get(edit.rev.as_str()) {
                Some(Object::Commit(c)) => c.tree.clone(),
                _ => {
                    return Err(Error::ObjectMissing);
                },
            };
            let anc_tree: Tree = match self.store.get(atd.as_str()) {
                Some(Object::Tree(t)) => clone_tree(t),
                _ => {
                    return Err(Error::ObjectMissing);
                },
            };
            proof {
                assert(m.contains_key(atd@) && m[atd@] is Tree);
                assert(distinct_paths(anc_tree@));
            }
            let anc_text_opt: Option<String> = match anc_tree.get(article_path.as_str()) {
                Some(ad) => match self.store.get(ad.as_str()) {
                    Some(Object::Blob(b)) => match crate::text::try_utf8_to_string(
                        crate::text::clone_bytes(b),
                    ) {
                        Some(t) => Some(t),
                        None => {
                            return Err(Error::Encoding);
                        },
                    },
                    _ => {
                        return Err(Error::ObjectMissing);
                    },
                },
                None => None,
            };
            let outcome = crate::merge::merge_documents(
                anc_text_opt.as_ref(),
                ours_opt.as_ref(),
                edit.markdown.as_str(),
            );
            match outcome {
                crate::merge::MergeOutcome::Conflict => {
                    let ours_payload: String = match &ours_opt {
                        Some(t) => t.clone(),
                        None => String::new(),
                    };
                    Ok(
                        crate::api::Commit::Conflict {
                            ancestor: anc_text_opt,
                            ours: ours_payload,
                            theirs: edit.markdown.clone(),
                            oid: crate::oid::Oid(cur_d),
                            rev: crate::oid::Oid(hd),
                        },
                    )
                },
                crate::merge::MergeOutcome::Merged(mt) => {
                    match self.commit_file(
                        head_tree,
                        &hd,
                        article_path,
                        mt.as_str(),
                        account,
                        &edit.commit_msg,
                    ) {
                        Ok(()) => Ok(
                            crate::api::Commit::Merged {
                                merged: mt,
                                oid: crate::oid::Oid(cur_d),
                                rev: crate::oid::Oid(hd),
                            },
                        ),
                        Err(e) => Err(e),
                    }
                },
            }
        }
    }
}

impl ReadOnly {
    /// The digest of the head revision of this snapshot.
    pub open spec fn head_digest(&self) -> Seq<char> {
        views_of(self.revs@).last()
    }

    pub open spec fn wf(&self) -> bool {
        &&& self.store.wf()
        &&& self.revs@.len() >= 1
        &&& wf_chain(self.store@, views_of(self.revs@))
        &&& trees_distinct(self.store@)
    }

    /// The head revision, or nothing in a repository with no commit yet.
    pub fn head(&self) -> (r: Option<String>)
        ensures
            r is Some <==> self.revs@.len() > 0,
            r is Some ==> r->0@ == self.head_digest(),
    {
        if self.revs.len() == 0 {
            None
        } else {
            Some(self.revs[self.revs.len() - 1].clone())
        }
    }

    /// The document a revision holds at a path: its blob digest and its
    /// text.  Absent bytes that are not valid text are treated as an
    /// absent document, keeping reads total.
    pub fn article_at_rev(&self, rev: &crate::oid::Oid, path: &ArticlePath) -> (r: Option<
        (crate::oid::Oid, String),
    >)
        requires
            self.wf(),
        ensures
            r is Some <==> doc_at(self.store@, rev@, path@) is Some,
            r is Some ==> ((r->0).0@, (r->0).1@) == doc_at(self.store@, rev@, path@)->0,
    {
        let m = &self.store;
        let c = match m.get(rev.as_str()) {
            Some(Object::Commit(c)) => c,
            _ => {
                return None;
            },
        };
        let t = match m.get(c.tree.as_str()) {
            Some(Object::Tree(t)) => t,
            _ => {
                return None;
            },
        };
        let bd = match t.get(path.as_str()) {
            Some(bd) => bd,
            None => {
                return None;
            },
        };
        let bytes = match m.get(bd.as_str()) {
            Some(Object::Blob(b)) => crate::text::clone_bytes(b),
            _ => {
                return None;
            },
        };
        match crate::text::try_utf8_to_string(bytes) {
            Some(text) => Some((crate::oid::Oid(bd), text)),
            None => None,
        }
    }
}

/// The first line of a commit message: its summary.
pub open spec fn first_line(msg: Seq<char>) -> Seq<char> {
    crate::text::split_lines(msg)[0]
}

/// The revisions, oldest first, that changed a document: a revision is
/// kept when its tree holds the path with a blob digest different from
/// the one last seen, so consecutive revisions that left the content
/// unchanged appear once.  A revision without the path leaves the last
/// seen digest as it was.
pub open spec fn hist(
    m: Map<Seq<char>, ObjectView>,
    rvs: Seq<Seq<char>>,
    path: Seq<char>,
    last: Option<Seq<char>>,
) -> Seq<Seq<char>>
    decreases rvs.len(),
{
    if rvs.len() == 0 {
        Seq::<Seq<char>>::empty()
    } else {
        match blob_ref_at(m, rvs[0], path) {
            Some(bd) => if last != Some(bd) {
                seq![rvs[0]] + hist(m, rvs.drop_first(), path, Some(bd))
            } else {
                hist(m, rvs.drop_first(), path, Some(bd))
            },
            None => hist(m, rvs.drop_first(), path, last),
        }
    }
}

/// Every document of the head tree, in tree order: an entry is kept when
/// its path carries the markdown suffix and its blob holds valid text.
pub open spec fn docs_of_entries(
    m: Map<Seq<char>, ObjectView>,
    es: Seq<(Seq<char>, Seq<char>)>,
) -> Seq<(Seq<char>, Seq<char>)>
    decreases es.len(),
{
    if es.len() == 0 {
        Seq::<(Seq<char>, Seq<char>)>::empty()
    } else {
        let p = es[0].0;
        let bd = es[0].1;
        let keep = p.len() >= 3 && p.skip(p.len() - 3) == md_ext() && blob_of(m, bd) is Some
            && valid_utf8(blob_of(m, bd)->0);
        if keep {
            seq![(p.take(p.len() - 3), decode_utf8(blob_of(m, bd)->0))] + docs_of_entries(
                m,
                es.drop_first(),
            )
        } else {
            docs_of_entries(m, es.drop_first())
        }
    }
}

/// The (title, text) pairs of the head revision.
pub open spec fn head_docs(m: Map<Seq<char>, ObjectView>, rv: Seq<Seq<char>>) -> Seq<
    (Seq<char>, Seq<char>),
> {
    docs_of_entries(m, tree_entries_at(m, rv.last())->0)
}

impl ReadOnly {
    /// The blob digest a revision's tree holds at a path, if any.
    fn blob_ref_exec(&self, rev: &str, path: &str) -> (r: Option<String>)
        requires
            self.store.wf(),
            trees_distinct(self.store@),
        ensures
            r is Some <==> blob_ref_at(self.store@, rev@, path@) is Some,
            r is Some ==> r->0@ == blob_ref_at(self.store@, rev@, path@)->0,
    {
        let td: String = match self.store.get(rev) {
            Some(Object::Commit(c)) => c.tree.clone(),
            _ => {
                return None;
            },
        };
        let t: &Tree = match self.store.get(td.as_str()) {
            Some(Object::Tree(t)) => t,
            _ => {
                return None;
            },
        };
        proof {
            assert(self.store@.contains_key(td@) && self.store@[td@] is Tree);
            assert(distinct_paths(t@));
        }
        t.get(path)
    }

    /// One history entry, read from a revision's commit.
    fn make_entry(&self, rev: String) -> (r: Option<HistoryEntry>)
        requires
            self.store.wf(),
        ensures
            r is Some <==> commit_of(self.store@, rev@) is Some,
            r matches Some(e) ==> {
                let c = commit_of(self.store@, rev@)->0;
                &&& e.rev@ == rev@
                &&& e.user.name@ == c.author_name
                &&& e.user.email@ == c.author_email
                &&& e.summary@ == first_line(c.message)
                &&& e.date.0 == c.timestamp
            },
    {
        let c: &CommitData = match self.store.get(rev.as_str()) {
            Some(Object::Commit(c)) => c,
            _ => {
                return None;
            },
        };
        let summary_lines = crate::text::split_lines_exec(c.message.as_str());
        proof {
            crate::text::lemma_split_lines_len(c.message@);
            assert(views_of(summary_lines@)[0] == summary_lines@[0]@);
        }
        Some(
            HistoryEntry {
                user: Signature { name: c.author_name.clone(), email: c.author_email.clone() },
                date: ISOUtcDate::from_unix(c.timestamp),
                summary: summary_lines[0].clone(),
                rev,
            },
        )
    }

    /// The ordered history of one document: the revisions that changed
    /// its content, oldest first, each with its author, moment, and
    /// message summary.
    #[verifier::rlimit(100)]
    pub fn history(&self, article_path: &ArticlePath) -> (r: Vec<HistoryEntry>)
        requires
            self.wf(),
        ensures
            r@.map_values(|e: HistoryEntry| e.rev@) == hist(
                self.store@,
                views_of(self.revs@),
                article_path@,
                None,
            ),
            forall|x: int|
                0 <= x < r@.len() ==> {
                    let c = commit_of(self.store@, #[trigger] r@[x].rev@);
                    &&& c is Some
                    &&& r@[x].user.name@ == c->0.author_name
                    &&& r@[x].user.email@ == c->0.author_email
                    &&& r@[x].summary@ == first_line(c->0.message)
                    &&& r@[x].date.0 == c->0.timestamp
                },
    {
        let ghost m = self.store@;
        let ghost rvs = views_of(self.revs@);
        let ghost pathv = article_path@;
        let n = self.revs.len();
        let mut i: usize = 0;
        let mut last: Option<String> = None;
        let mut out: Vec<HistoryEntry> = Vec::new();
        proof {
            assert(rvs.skip(0) =~= rvs);
            assert(out@.map_values(|e: HistoryEntry| e.rev@) =~= Seq::<Seq<char>>::empty());
        }
        while i < n
            invariant
                i <= n,
                n == self.revs@.len(),
                self.store.wf(),
                trees_distinct(self.store@),
                m == self.store@,
                rvs == views_of(self.revs@),
                pathv == article_path@,
                hist(m, rvs, pathv, None) == out@.map_values(|e: HistoryEntry| e.rev@) + hist(
                    m,
                    rvs.skip(i as int),
                    pathv,
                    match last {
                        Some(ref l) => Some(l@),
                        None => None::<Seq<char>>,
                    },
                ),
                forall|x: int|
                    0 <= x < out@.len() ==> {
                        let c = commit_of(m, #[trigger] out@[x].rev@);
                        &&& c is Some
                        &&& out@[x].user.name@ == c->0.author_name
                        &&& out@[x].user.email@ == c->0.author_email
                        &&& out@[x].summary@ == first_line(c->0.message)
                        &&& out@[x].date.0 == c->0.timestamp
                    },
            decreases n - i,
        {
            proof {
                assert(rvs[i as int] == self.revs@[i as int]@);
                assert(rvs.skip(i as int)[0] == rvs[i as int]);
                assert(rvs.skip(i as int).drop_first() =~= rvs.skip(i + 1));
            }
            let rev_i: String = self.revs[i].clone();
            let bref = self.blob_ref_exec(rev_i.as_str(), article_path.as_str());
            match bref {
                Some(bd) => {
                    let changed = match &last {
                        Some(l) => !crate::text::str_eq(l.as_str(), bd.as_str()),
                        None => true,
                    };
                    if changed {
                        let entry = match self.make_entry(rev_i) {
                            Some(e) => e,
                            None => {
                                proof {
                                    assert(blob_ref_at(m, rvs[i as int], pathv) is Some);
                                    assert(commit_of(m, rvs[i as int]) is Some);
                                    assert(false);
                                }
                                return out;
                            },
                        };
                        let ghost prev = out@;
                        out.push(entry);
                        proof {
                            assert(out@.map_values(|e: HistoryEntry| e.rev@) =~= prev.map_values(
                                |e: HistoryEntry| e.rev@,
                            ).push(rvs[i as int]));
                        }
                    }
                    last = Some(bd);
                },
                None => {},
            }
            i += 1;
        }
        proof {
            assert(rvs.skip(n as int) =~= Seq::<Seq<char>>::empty());
            assert(hist(m, rvs.skip(n as int), pathv, match last {
                Some(ref l) => Some(l@),
                None => None::<Seq<char>>,
            }) =~= Seq::<Seq<char>>::empty());
            assert(hist(m, rvs, pathv, None) =~= out@.map_values(|e: HistoryEntry| e.rev@));
        }
        out
    }

    /// Every document of the head tree, in tree order: the title and the
    /// text of each entry that is a markdown document holding valid text.
    /// This read exists to rebuild the search index.
    pub fn traverse_head_tree(&self) -> (r: Vec<(ArticleTitle, String)>)
        requires
            self.wf(),
        ensures
            r@.map_values(|p: (ArticleTitle, String)| (p.0@, p.1@)) == head_docs(
                self.store@,
                views_of(self.revs@),
            ),
    {
        let ghost m = self.store@;
        let ghost rvs = views_of(self.revs@);
        proof {
            assert(rvs.last() == rvs[rvs.len() - 1]);
            assert(rvs[rvs.len() - 1] == self.revs@[rvs.len() - 1]@);
        }
        let hd: String = self.revs[self.revs.len() - 1].clone();
        let mut out: Vec<(ArticleTitle, String)> = Vec::new();
        let tree: Tree = match self.store.get(hd.as_str()) {
            Some(Object::Commit(c)) => {
                let td = c.tree.clone();
                match self.store.get(td.as_str()) {
                    Some(Object::Tree(t)) => clone_tree(t),
                    _ => {
                        proof {
                            assert(tree_entries_at(m, rvs.last()) is Some);
                            assert(false);
                        }
                        return out;
                    },
                }
            },
            _ => {
                proof {
                    assert(commit_of(m, rvs.last()) is Some);
                    assert(false);
                }
                return out;
            },
        };
        let ghost es = tree@;
        proof {
            assert(Some(es) == tree_entries_at(m, rvs.last()));
            assert(out@.map_values(|p: (ArticleTitle, String)| (p.0@, p.1@)) =~= Seq::<
                (Seq<char>, Seq<char>),
            >::empty());
            assert(es.skip(0) =~= es);
        }
        let n = tree.len();
        let mut i: usize = 0;
        while i < n
            invariant
                i <= n,
                n == es.len(),
                self.wf(),
                m == self.store@,
                es == tree@,
                docs_of_entries(m, es) == out@.map_values(|p: (ArticleTitle, String)| (p.0@, p.1@))
                    + docs_of_entries(m, es.skip(i as int)),
            decreases n - i,
        {
            proof {
                assert(es.skip(i as int)[0] == es[i as int]);
                assert(es.skip(i as int).drop_first() =~= es.skip(i + 1));
            }
            let (path, bd) = tree.entry_at(i);
            let keep: Option<(ArticleTitle, String)> = match ArticleTitle::from_path(
                path.as_str(),
            ) {
                Ok(title) => match self.store.get(bd.as_str()) {
                    Some(Object::Blob(b)) => match crate::text::try_utf8_to_string(
                        crate::text::clone_bytes(b),
                    ) {
                        Some(text) => Some((title, text)),
                        None => None,
                    },
                    _ => None,
                },
                Err(_) => None,
            };
            match keep {
                Some(pair) => {
                    let ghost prev = out@;
                    out.push(pair);
                    proof {
                        assert(out@.map_values(|p: (ArticleTitle, String)| (p.0@, p.1@))
                            =~= prev.map_values(|p: (ArticleTitle, String)| (p.0@, p.1@)).push(
                            (es[i as int].0.take(es[i as int].0.len() - 3), decode_utf8(
                                blob_of(m, es[i as int].1)->0,
                            )),
                        ));
                    }
                },
                None => {},
            }
            i += 1;
        }
        proof {
            assert(es.skip(n as int) =~= Seq::<(Seq<char>, Seq<char>)>::empty());
            assert(docs_of_entries(m, es.skip(n as int)) =~= Seq::<(Seq<char>, Seq<char>)>::empty());
            assert(docs_of_entries(m, es) =~= out@.map_values(
                |p: (ArticleTitle, String)| (p.0@, p.1@),
            ));
        }
        out
    }
}

/// A copy of a revision list.
fn clone_revs(v: &Vec<String>) -> (r: Vec<String>)
    ensures
        views_of(r@) == views_of(v@),
        r@.len() == v@.len(),
{
    let mut r: Vec<String> = Vec::new();
    let mut i: usize = 0;
    while i < v.len()
        invariant
            i <= v@.len(),
            views_of(r@) == views_of(v@).take(i as int),
        decreases v@.len() - i,
    {
        let ghost prev = r@;
        r.push(v[i].clone());
        proof {
            assert(views_of(r@) =~= views_of(prev).push(v@[i as int]@));
            assert(views_of(v@).take(i + 1) =~= views_of(v@).take(i as int).push(v@[i as int]@));
        }
        i += 1;
    }
    proof {
        assert(views_of(v@).take(v@.len() as int) =~= views_of(v@));
    }
    r
}

} // verus!
