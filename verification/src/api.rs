//! What crosses between the HTTP layer and the revision engine: the edit
//! submission, the outcome of committing one, and the data an editor view
//! is rendered from.

use vstd::prelude::*;

use crate::article::WikiArticle;
use crate::index::{doc_map, Index};
use crate::oid::Oid;
use crate::repo::{doc_at, ReadOnly, Repository};
use crate::user_storage::UserAccount;

verus! {

/// The outcome of submitting an edit.
pub enum Commit {
    /// The submission raced a concurrent change, but the two touched
    /// disjoint runs of lines: the combined text was committed.
    Merged { merged: String, oid: Oid, rev: Oid },
    /// The submission raced a concurrent change and both touched the same
    /// lines: nothing was committed, and the caller is expected to present
    /// the three texts for manual resolution and resubmission with the
    /// returned `oid` as the new ancestor.
    Conflict { ancestor: Option<String>, ours: String, theirs: String, oid: Oid, rev: Oid },
    /// No concurrent change: the submitted text was committed as is.
    NoConflict,
}

/// What an editor submits: the text, the blob identifier it started from
/// (absent when the editor believed the document did not exist), and the
/// revision its view was rendered from.
pub struct EditSubmit {
    pub commit_msg: String,
    pub markdown: String,
    pub oid: Option<Oid>,
    pub rev: Oid,
}

/// What an editor view is rendered from: the current text, its blob
/// identifier (absent when the document does not exist yet), and the head
/// revision.
pub struct ArticleInfo {
    pub markdown: String,
    pub oid: Option<Oid>,
    pub rev: Oid,
}

/// A preview request: text to render, no store interaction.
pub struct PreviewMarkdown {
    pub markdown: String,
}

/// A rendered preview.
pub struct RenderedMarkdown {
    pub rendered: String,
}

/// Submit one edit: commit it under the write session's exclusive
/// access, and — when something was committed — bring the search index
/// up to date for that title before the outcome is returned, so that
/// search is fresh for the caller's own edit.  A conflict commits
/// nothing and leaves the index alone.  The outcome, the state change
/// and the exact conditions for each error are those of
/// `Repository::commit_article`, restated here by `commit_outcome`.
pub fn submit_edit(
    repo: &mut Repository,
    index: &mut Index,
    article: &WikiArticle,
    account: &UserAccount,
    edit: &EditSubmit,
) -> (r: Result<Commit, crate::repo::Error>)
    requires
        old(repo).wf(),
        old(index).wf(),
    ensures
        final(repo).wf(),
        final(index).wf(),
        crate::repo::extends(final(repo).store@, old(repo).store@),
        crate::repo::commit_outcome(
            old(repo).store@,
            crate::text::views_of(old(repo).revs@),
            final(repo).store@,
            crate::text::views_of(final(repo).revs@),
            article.path@,
            match edit.oid {
                Some(o) => Some(o@),
                None => None::<Seq<char>>,
            },
            edit.rev@,
            edit.markdown@,
            edit.commit_msg@,
            account.name@,
            account.email@,
            r,
        ),
        match r {
            Ok(Commit::NoConflict) => {
                &&& crate::repo::committed_state(
                    old(repo).store@,
                    crate::text::views_of(old(repo).revs@),
                    final(repo).store@,
                    crate::text::views_of(final(repo).revs@),
                    article.path@,
                    edit.markdown@,
                    account.name@,
                    account.email@,
                    edit.commit_msg@,
                )
                &&& doc_map(final(index)@) == doc_map(old(index)@).insert(
                    article.title@,
                    edit.markdown@,
                )
            },
            Ok(Commit::Merged { merged, .. }) => {
                &&& crate::repo::committed_state(
                    old(repo).store@,
                    crate::text::views_of(old(repo).revs@),
                    final(repo).store@,
                    crate::text::views_of(final(repo).revs@),
                    article.path@,
                    merged@,
                    account.name@,
                    account.email@,
                    edit.commit_msg@,
                )
                &&& doc_map(final(index)@) == doc_map(old(index)@).insert(article.title@, merged@)
            },
            Ok(Commit::Conflict { .. }) => {
                &&& final(repo).store@ == old(repo).store@
                &&& crate::text::views_of(final(repo).revs@) == crate::text::views_of(
                    old(repo).revs@,
                )
                &&& final(index)@ == old(index)@
            },
            Err(_) => final(index)@ == old(index)@,
        },
{
    let r = repo.commit_article(&article.path, account, edit);
    match &r {
        Ok(Commit::NoConflict) => {
            index.update_article(&article.title, edit.markdown.as_str());
        },
        Ok(Commit::Merged { merged, .. }) => {
            index.update_article(&article.title, merged.as_str());
        },
        _ => {},
    }
    r
}

/// What an editor view is rendered from: the document's current text and
/// blob identifier at head — or no text at all when the title does not
/// exist yet — together with the head revision the view is based on.
pub fn article_info(snapshot: &ReadOnly, article: &WikiArticle) -> (r: ArticleInfo)
    requires
        snapshot.wf(),
    ensures
        r.rev@ == snapshot.head_digest(),
        match doc_at(snapshot.store@, snapshot.head_digest(), article.path@) {
            Some((bd, text)) => r.oid matches Some(o) && o@ == bd && r.markdown@ == text,
            None => r.oid is None && r.markdown@ == Seq::<char>::empty(),
        },
{
    let hd = match snapshot.head() {
        Some(h) => h,
        None => {
            proof {
                assert(false);
            }
            String::new()
        },
    };
    let rev = Oid(hd);
    match snapshot.article_at_rev(&rev, &article.path) {
        Some((oid, markdown)) => ArticleInfo { markdown, oid: Some(oid), rev },
        None => ArticleInfo { markdown: String::new(), oid: None, rev },
    }
}

/// Read one document, at the given revision or — absent one — at the
/// snapshot's head.
pub fn read_article(snapshot: &ReadOnly, article: &WikiArticle, rev: Option<&Oid>) -> (r: Option<
    (Oid, String),
>)
    requires
        snapshot.wf(),
    ensures
        ({
            let at = match rev {
                Some(o) => o@,
                None => snapshot.head_digest(),
            };
            &&& r is Some <==> doc_at(snapshot.store@, at, article.path@) is Some
            &&& (r is Some ==> ((r->0).0@, (r->0).1@) == doc_at(
                snapshot.store@,
                at,
                article.path@,
            )->0)
        }),
{
    match rev {
        Some(o) => snapshot.article_at_rev(o, &article.path),
        None => {
            let hd = match snapshot.head() {
                Some(h) => h,
                None => {
                    proof {
                        assert(false);
                    }
                    String::new()
                },
            };
            snapshot.article_at_rev(&Oid(hd), &article.path)
        },
    }
}

} // verus!
