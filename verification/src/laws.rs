//! The laws this library states of itself, each proved from the
//! contracts of the functions it speaks of.

use vstd::prelude::*;

use crate::repo::{
    blob_of, blob_ref_at, commit_of, committed_state, doc_at, extends, hist, tree_map_at,
    tree_of,
};
use crate::merge::{
    find_from, lemma_find_from, lemma_next_sync, merge_rec, next_sync, resolve_chunk, spec_merge,
};
use crate::store::{object_digest, ObjectView};
use crate::text::split_lines;
use vstd::utf8::encode_utf8;

verus! {

/// The blob digest the walk last saw for a path after passing the given
/// revisions.
pub open spec fn last_seen(
    m: Map<Seq<char>, ObjectView>,
    rvs: Seq<Seq<char>>,
    path: Seq<char>,
    last: Option<Seq<char>>,
) -> Option<Seq<char>>
    decreases rvs.len(),
{
    if rvs.len() == 0 {
        last
    } else {
        match blob_ref_at(m, rvs[0], path) {
            Some(bd) => last_seen(m, rvs.drop_first(), path, Some(bd)),
            None => last_seen(m, rvs.drop_first(), path, last),
        }
    }
}

/// A history walk splits over a split of the revisions.
pub proof fn lemma_hist_append(
    m: Map<Seq<char>, ObjectView>,
    a: Seq<Seq<char>>,
    b: Seq<Seq<char>>,
    path: Seq<char>,
    last: Option<Seq<char>>,
)
    ensures
        hist(m, a + b, path, last) == hist(m, a, path, last) + hist(
            m,
            b,
            path,
            last_seen(m, a, path, last),
        ),
    decreases a.len(),
{
    if a.len() == 0 {
        assert(a + b =~= b);
        assert(hist(m, a, path, last) =~= Seq::<Seq<char>>::empty());
        assert(hist(m, a, path, last) + hist(m, b, path, last) =~= hist(m, b, path, last));
    } else {
        assert((a + b).drop_first() =~= a.drop_first() + b);
        assert((a + b)[0] == a[0]);
        match blob_ref_at(m, a[0], path) {
            Some(bd) => {
                lemma_hist_append(m, a.drop_first(), b, path, Some(bd));
                if last != Some(bd) {
                    assert(seq![a[0]] + (hist(m, a.drop_first(), path, Some(bd)) + hist(
                        m,
                        b,
                        path,
                        last_seen(m, a.drop_first(), path, Some(bd)),
                    )) =~= (seq![a[0]] + hist(m, a.drop_first(), path, Some(bd))) + hist(
                        m,
                        b,
                        path,
                        last_seen(m, a, path, last),
                    ));
                }
            },
            None => {
                lemma_hist_append(m, a.drop_first(), b, path, last);
            },
        }
    }
}

/// A path no walked revision holds leaves the walk's memory empty.
pub proof fn lemma_hist_empty_last(
    m: Map<Seq<char>, ObjectView>,
    rvs: Seq<Seq<char>>,
    path: Seq<char>,
)
    requires
        hist(m, rvs, path, None) == Seq::<Seq<char>>::empty(),
    ensures
        last_seen(m, rvs, path, None) is None,
    decreases rvs.len(),
{
    if rvs.len() > 0 {
        match blob_ref_at(m, rvs[0], path) {
            Some(bd) => {
                assert(hist(m, rvs, path, None) == seq![rvs[0]] + hist(
                    m,
                    rvs.drop_first(),
                    path,
                    Some(bd),
                ));
                assert(hist(m, rvs, path, None).len() >= 1);
                assert(false);
            },
            None => {
                lemma_hist_empty_last(m, rvs.drop_first(), path);
            },
        }
    }
}

/// An extension of the store preserves a blob reference whose whole
/// lookup chain lies in the smaller store.
proof fn lemma_extends_blob_ref(
    m: Map<Seq<char>, ObjectView>,
    m2: Map<Seq<char>, ObjectView>,
    rev: Seq<char>,
    path: Seq<char>,
)
    requires
        extends(m2, m),
        commit_of(m, rev) is Some,
        tree_of(m, commit_of(m, rev)->0.tree) is Some,
    ensures
        blob_ref_at(m2, rev, path) == blob_ref_at(m, rev, path),
{
    assert(m.contains_key(rev));
    assert(m.contains_key(commit_of(m, rev)->0.tree));
}

/// Submitting an edit and immediately reading the article back at the
/// new head returns byte-identical content: the committed state holds
/// the submitted text under the path, and the read decodes exactly the
/// bytes the write encoded.
pub proof fn lemma_edit_round_trip(
    m: Map<Seq<char>, ObjectView>,
    rv: Seq<Seq<char>>,
    m2: Map<Seq<char>, ObjectView>,
    rv2: Seq<Seq<char>>,
    path: Seq<char>,
    text: Seq<char>,
    name: Seq<char>,
    email: Seq<char>,
    msg: Seq<char>,
)
    requires
        committed_state(m, rv, m2, rv2, path, text, name, email, msg),
    ensures
        ({
            let bd = object_digest(ObjectView::Blob(encode_utf8(text)));
            doc_at(m2, rv2.last(), path) == Some((bd, text))
        }),
{
    let bd = object_digest(ObjectView::Blob(encode_utf8(text)));
    let nh = rv2.last();
    let tm2 = tree_map_at(m2, nh)->0;
    assert(tm2 == tree_map_at(m, rv.last())->0.insert(path, bd));
    assert(tm2.contains_key(path) && tm2[path] == bd);
    assert(blob_ref_at(m2, nh, path) == Some(bd));
    assert(blob_of(m2, bd) == Some(encode_utf8(text)));
    vstd::utf8::encode_utf8_valid_utf8(text);
    vstd::utf8::encode_utf8_decode_utf8(text);
}

/// Two sequential, correctly ancestored edits to one title that was
/// never touched before produce exactly that title's two revisions as
/// its history, oldest first — provided the two contents differ in
/// digest, since a revision that leaves the content's digest unchanged
/// is deduplicated.
pub proof fn lemma_linear_history_growth(
    m0: Map<Seq<char>, ObjectView>,
    rv0: Seq<Seq<char>>,
    m1: Map<Seq<char>, ObjectView>,
    rv1: Seq<Seq<char>>,
    m2: Map<Seq<char>, ObjectView>,
    rv2: Seq<Seq<char>>,
    path: Seq<char>,
    t1: Seq<char>,
    t2: Seq<char>,
    name1: Seq<char>,
    email1: Seq<char>,
    msg1: Seq<char>,
    name2: Seq<char>,
    email2: Seq<char>,
    msg2: Seq<char>,
)
    requires
        committed_state(m0, rv0, m1, rv1, path, t1, name1, email1, msg1),
        committed_state(m1, rv1, m2, rv2, path, t2, name2, email2, msg2),
        hist(m2, rv0, path, None) == Seq::<Seq<char>>::empty(),
    ensures
        ({
            let bd1 = object_digest(ObjectView::Blob(encode_utf8(t1)));
            let bd2 = object_digest(ObjectView::Blob(encode_utf8(t2)));
            bd1 != bd2 ==> hist(m2, rv2, path, None) == seq![rv1.last(), rv2.last()]
        }),
{
    let bd1 = object_digest(ObjectView::Blob(encode_utf8(t1)));
    let bd2 = object_digest(ObjectView::Blob(encode_utf8(t2)));
    let c1 = rv1.last();
    let c2 = rv2.last();
    if bd1 != bd2 {
        assert(rv1 == rv0.push(c1));
        assert(rv2 == rv1.push(c2));
        assert(rv2 =~= rv0 + seq![c1, c2]);
        lemma_hist_append(m2, rv0, seq![c1, c2], path, None);
        lemma_hist_empty_last(m2, rv0, path);

        // The two new revisions read in the final store as they were written.
        assert(commit_of(m1, c1) is Some);
        assert(tree_of(m1, commit_of(m1, c1)->0.tree) is Some);
        lemma_extends_blob_ref(m1, m2, c1, path);
        let tm1 = tree_map_at(m1, c1)->0;
        assert(tm1.contains_key(path) && tm1[path] == bd1);
        assert(blob_ref_at(m2, c1, path) == Some(bd1));
        let tm2 = tree_map_at(m2, c2)->0;
        assert(tm2 == tree_map_at(m1, rv1.last())->0.insert(path, bd2));
        assert(blob_ref_at(m2, c2, path) == Some(bd2));

        let tail = seq![c1, c2];
        assert(tail[0] == c1);
        assert(tail.drop_first() =~= seq![c2]);
        assert(seq![c2][0] == c2);
        assert(seq![c2].drop_first() =~= Seq::<Seq<char>>::empty());
        assert(hist(m2, tail, path, None) == seq![c1] + hist(m2, seq![c2], path, Some(bd1)));
        assert(hist(m2, seq![c2], path, Some(bd1)) == seq![c2] + hist(
            m2,
            Seq::<Seq<char>>::empty(),
            path,
            Some(bd2),
        ));
        assert(hist(m2, rv2, path, None) =~= seq![c1, c2]);
    }
}


/// Rebuilding the index twice from the same head yields the same set of
/// (title, content) pairs both times: the rebuilt index is a function of
/// the snapshot alone.
pub proof fn lemma_rebuild_idempotent(
    m: Map<Seq<char>, ObjectView>,
    rv: Seq<Seq<char>>,
    first: Seq<(Seq<char>, Seq<char>)>,
    second: Seq<(Seq<char>, Seq<char>)>,
)
    requires
        first == crate::repo::head_docs(m, rv),
        second == crate::repo::head_docs(m, rv),
    ensures
        first == second,
{
}

/// Content present only in a non-head historical revision does not
/// appear in search results: an index rebuilt from the head holds the
/// head's documents alone, and every search result is the title of one
/// of them, with a snippet computed from that document's content.
pub proof fn lemma_index_reflects_head_only(
    m: Map<Seq<char>, ObjectView>,
    rv: Seq<Seq<char>>,
    q: Seq<char>,
    limit: int,
)
    ensures
        ({
            let docs = crate::repo::head_docs(m, rv);
            let results = crate::index::search_spec(docs, q, limit);
            forall|x: int|
                0 <= x < results.len() ==> exists|i: int|
                    0 <= i < docs.len() && docs[i].0 == #[trigger] results[x].0 && results[x].1
                        == crate::index::snippet_of(crate::index::tokens(q), docs[i].1)
        }),
{
    crate::index::lemma_search_reflects_index(crate::repo::head_docs(m, rv), q, limit);
}

/// Where the scan of `next_sync` stops: the alignment point is the first
/// ancestor position whose line has a first occurrence in both sides.
proof fn lemma_next_sync_scan(
    a: Seq<Seq<char>>,
    o: Seq<Seq<char>>,
    t: Seq<Seq<char>>,
    i: int,
    j: int,
    k: int,
)
    requires
        0 <= i <= a.len(),
    ensures
        ({
            let (i2, j2, k2) = next_sync(a, o, t, i, j, k);
            i2 < a.len() ==> {
                &&& j2 == find_from(o, j, a[i2])
                &&& k2 == find_from(t, k, a[i2])
                &&& forall|x: int|
                    i <= x < i2 ==> !(find_from(o, j, #[trigger] a[x]) < o.len() && find_from(
                        t,
                        k,
                        a[x],
                    ) < t.len())
            }
        }),
    decreases a.len() - i,
{
    if i < a.len() {
        let j2 = find_from(o, j, a[i]);
        let k2 = find_from(t, k, a[i]);
        if !(j2 < o.len() && k2 < t.len()) {
            lemma_next_sync_scan(a, o, t, i + 1, j, k);
        }
    }
}

/// A merge in which our side equals the ancestor yields the other side
/// unchanged, from the given positions on.
proof fn lemma_merge_rec_ours_unchanged(a: Seq<Seq<char>>, t: Seq<Seq<char>>, i: int, k: int)
    requires
        0 <= i <= a.len(),
        0 <= k <= t.len(),
    ensures
        merge_rec(a, a, t, i, i, k) == Some(t.skip(k)),
    decreases (a.len() - i) + (t.len() - k),
{
    let la = a.len() as int;
    let lt = t.len() as int;
    if i == la && k == lt {
        assert(t.skip(k) =~= Seq::<Seq<char>>::empty());
    } else if i < la && k < lt && a[i] == t[k] {
        lemma_merge_rec_ours_unchanged(a, t, i + 1, k + 1);
        assert(seq![t[k]] + t.skip(k + 1) =~= t.skip(k));
    } else {
        lemma_next_sync(a, a, t, i, i, k);
        lemma_next_sync_scan(a, a, t, i, i, k);
        let (i2, j2, k2) = next_sync(a, a, t, i, i, k);
        if i2 < la {
            lemma_find_from(a, i, a[i2]);
            lemma_find_from(t, k, a[i2]);
            assert(j2 <= i2) by {
                if j2 > i2 {
                    assert(a[i2] != a[i2]);
                }
            }
            if j2 < i2 {
                assert(a[j2] == a[i2]);
                assert(find_from(a, i, a[j2]) == j2);
                assert(find_from(t, k, a[j2]) == k2);
                assert(false);
            }
            assert(j2 == i2);
        }
        let ca = a.subrange(i, i2);
        let co = a.subrange(i, j2);
        let ct = t.subrange(k, k2);
        assert(co =~= ca);
        assert(resolve_chunk(ca, co, ct) == Some(ct));
        if i2 == la {
            assert(j2 == la && k2 == lt);
            assert(ct =~= t.skip(k));
        } else {
            lemma_merge_rec_ours_unchanged(a, t, i2 + 1, k2 + 1);
            assert(a[i2] == t[k2]);
            assert(ct + seq![t[k2]] + t.skip(k2 + 1) =~= t.skip(k));
        }
    }
}

/// A merge in which their side equals the ancestor keeps our side
/// unchanged, from the given positions on.
proof fn lemma_merge_rec_theirs_unchanged(a: Seq<Seq<char>>, o: Seq<Seq<char>>, i: int, j: int)
    requires
        0 <= i <= a.len(),
        0 <= j <= o.len(),
    ensures
        merge_rec(a, o, a, i, j, i) == Some(o.skip(j)),
    decreases (a.len() - i) + (o.len() - j),
{
    let la = a.len() as int;
    let lo = o.len() as int;
    if i == la && j == lo {
        assert(o.skip(j) =~= Seq::<Seq<char>>::empty());
    } else if i < la && j < lo && a[i] == o[j] {
        lemma_merge_rec_theirs_unchanged(a, o, i + 1, j + 1);
        assert(seq![o[j]] + o.skip(j + 1) =~= o.skip(j));
    } else {
        lemma_next_sync(a, o, a, i, j, i);
        lemma_next_sync_scan(a, o, a, i, j, i);
        let (i2, j2, k2) = next_sync(a, o, a, i, j, i);
        if i2 < la {
            lemma_find_from(o, j, a[i2]);
            lemma_find_from(a, i, a[i2]);
            assert(k2 <= i2) by {
                if k2 > i2 {
                    assert(a[i2] != a[i2]);
                }
            }
            if k2 < i2 {
                assert(a[k2] == a[i2]);
                assert(find_from(a, i, a[k2]) == k2);
                assert(find_from(o, j, a[k2]) == j2);
                assert(false);
            }
            assert(k2 == i2);
        }
        let ca = a.subrange(i, i2);
        let co = o.subrange(j, j2);
        let ct = a.subrange(i, k2);
        assert(ct =~= ca);
        assert(resolve_chunk(ca, co, ct) is Some);
        assert(resolve_chunk(ca, co, ct)->0 == co);
        if i2 == la {
            assert(j2 == lo && k2 == la);
            assert(co =~= o.skip(j));
        } else {
            lemma_merge_rec_theirs_unchanged(a, o, i2 + 1, j2 + 1);
            assert(a[i2] == o[j2]);
            assert(co + seq![o[j2]] + o.skip(j2 + 1) =~= o.skip(j));
        }
    }
}

/// An edit racing against no actual change merges to the edit: when the
/// text at head still equals the ancestor text, the three-way merge
/// yields the submitted text.
pub proof fn lemma_merge_of_unchanged_head(ancestor: Seq<char>, theirs: Seq<char>)
    ensures
        spec_merge(Some(ancestor), ancestor, theirs) == Some(theirs),
{
    lemma_merge_rec_ours_unchanged(split_lines(ancestor), split_lines(theirs), 0, 0);
    assert(split_lines(theirs).skip(0) =~= split_lines(theirs));
    crate::text::lemma_join_split_lines(theirs);
}

/// A no-op resubmission merges to the head: when the submitted text
/// still equals the ancestor text, the three-way merge keeps the text
/// now at head.
pub proof fn lemma_merge_of_unchanged_edit(ancestor: Seq<char>, ours: Seq<char>)
    ensures
        spec_merge(Some(ancestor), ours, ancestor) == Some(ours),
{
    lemma_merge_rec_theirs_unchanged(split_lines(ancestor), split_lines(ours), 0, 0);
    assert(split_lines(ours).skip(0) =~= split_lines(ours));
    crate::text::lemma_join_split_lines(ours);
}

} // verus!
