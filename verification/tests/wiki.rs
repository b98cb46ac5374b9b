use kairowiki::api::{article_info, read_article, submit_edit, Commit, EditSubmit};
use kairowiki::article::{ArticleTitle, WikiArticle};
use kairowiki::index::Index;
use kairowiki::oid::Oid;
use kairowiki::repo::{Repository, HOME_PAGE_CONTENT};
use kairowiki::user_storage::{UserAccount, UserId};

fn account() -> UserAccount {
    UserAccount { id: UserId(1), name: "alice".to_string(), email: "alice@example.org".to_string() }
}

fn article(title: &str) -> WikiArticle {
    WikiArticle::from_title(ArticleTitle::new(title.to_string()))
}

fn head_rev(repo: &Repository) -> Oid {
    let snapshot = repo.read();
    Oid(snapshot.head().unwrap())
}

/// Create or change one article with the correct ancestor taken from the
/// current head, as a well-behaved editor would.
fn edit(repo: &mut Repository, index: &mut Index, title: &str, content: &str) -> Commit {
    let art = article(title);
    let snapshot = repo.read();
    let info = article_info(&snapshot, &art);
    let submit = EditSubmit {
        commit_msg: format!("edit {}", title),
        markdown: content.to_string(),
        oid: info.oid,
        rev: info.rev,
    };
    submit_edit(repo, index, &art, &account(), &submit).unwrap()
}

#[test]
fn bootstrap_creates_exactly_one_commit_with_home_page() {
    let repo = Repository::open_or_init("kairowiki").unwrap();
    let snapshot = repo.read();
    assert!(snapshot.head().is_some());
    let docs = snapshot.traverse_head_tree();
    assert_eq!(docs.len(), 1);
    assert_eq!(docs[0].0.as_str(), "kairowiki");
    assert_eq!(docs[0].1, HOME_PAGE_CONTENT);
    let history = snapshot.history(&article("kairowiki").path);
    assert_eq!(history.len(), 1);
    assert_eq!(history[0].user.name, "system");
    assert_eq!(history[0].summary, "Initial commit");
}

#[test]
fn submit_then_read_round_trips() {
    let mut repo = Repository::open_or_init("home").unwrap();
    let mut index = Index::open(&repo.read());
    let outcome = edit(&mut repo, &mut index, "notes/day one", "hello\nworld\n");
    assert!(matches!(outcome, Commit::NoConflict));
    let snapshot = repo.read();
    let read = read_article(&snapshot, &article("notes/day one"), None).unwrap();
    assert_eq!(read.1, "hello\nworld\n");
    // The identifier returned with the read is the content blob's digest.
    assert_eq!(read.0.as_str().len(), 40);
}

#[test]
fn two_edits_grow_history_linearly() {
    let mut repo = Repository::open_or_init("home").unwrap();
    let mut index = Index::open(&repo.read());
    assert!(matches!(edit(&mut repo, &mut index, "page", "first\n"), Commit::NoConflict));
    assert!(matches!(edit(&mut repo, &mut index, "page", "second\n"), Commit::NoConflict));
    let snapshot = repo.read();
    let history = snapshot.history(&article("page").path);
    assert_eq!(history.len(), 2);
    // Oldest first: the two summaries are in submission order.
    let r0 = history[0].rev.clone();
    let r1 = history[1].rev.clone();
    let at0 = snapshot.article_at_rev(&Oid(r0), &article("page").path).unwrap();
    let at1 = snapshot.article_at_rev(&Oid(r1), &article("page").path).unwrap();
    assert_eq!(at0.1, "first\n");
    assert_eq!(at1.1, "second\n");
}

#[test]
fn unchanged_content_is_deduplicated_in_history() {
    let mut repo = Repository::open_or_init("home").unwrap();
    let mut index = Index::open(&repo.read());
    assert!(matches!(edit(&mut repo, &mut index, "page", "same\n"), Commit::NoConflict));
    assert!(matches!(edit(&mut repo, &mut index, "page", "same\n"), Commit::NoConflict));
    let snapshot = repo.read();
    let history = snapshot.history(&article("page").path);
    assert_eq!(history.len(), 1);
}

#[test]
fn disjoint_concurrent_edits_merge_cleanly() {
    let mut repo = Repository::open_or_init("home").unwrap();
    let mut index = Index::open(&repo.read());
    assert!(matches!(edit(&mut repo, &mut index, "page", "A\nB\nC\n"), Commit::NoConflict));

    // Both editors render their views from this state.
    let art = article("page");
    let base = article_info(&repo.read(), &art);

    // Editor one changes line A and wins the race.
    let first = EditSubmit {
        commit_msg: "change A".to_string(),
        markdown: "X\nB\nC\n".to_string(),
        oid: base.oid.as_ref().map(|o| Oid(o.as_str().to_string())),
        rev: Oid(base.rev.as_str().to_string()),
    };
    let outcome = submit_edit(&mut repo, &mut index, &art, &account(), &first).unwrap();
    assert!(matches!(outcome, Commit::NoConflict));

    // Editor two, still on the old ancestor, changes line C.
    let second = EditSubmit {
        commit_msg: "change C".to_string(),
        markdown: "A\nB\nY\n".to_string(),
        oid: base.oid.as_ref().map(|o| Oid(o.as_str().to_string())),
        rev: Oid(base.rev.as_str().to_string()),
    };
    let outcome = submit_edit(&mut repo, &mut index, &art, &account(), &second).unwrap();
    match outcome {
        Commit::Merged { merged, .. } => assert_eq!(merged, "X\nB\nY\n"),
        _ => panic!("expected a clean merge"),
    }
    let read = read_article(&repo.read(), &art, None).unwrap();
    assert_eq!(read.1, "X\nB\nY\n");
}

#[test]
fn overlapping_concurrent_edits_conflict() {
    let mut repo = Repository::open_or_init("home").unwrap();
    let mut index = Index::open(&repo.read());
    assert!(matches!(edit(&mut repo, &mut index, "page", "A\nB\nC\n"), Commit::NoConflict));

    let art = article("page");
    let base = article_info(&repo.read(), &art);

    let first = EditSubmit {
        commit_msg: "change B one way".to_string(),
        markdown: "A\nX\nC\n".to_string(),
        oid: base.oid.as_ref().map(|o| Oid(o.as_str().to_string())),
        rev: Oid(base.rev.as_str().to_string()),
    };
    assert!(matches!(
        submit_edit(&mut repo, &mut index, &art, &account(), &first).unwrap(),
        Commit::NoConflict
    ));

    let second = EditSubmit {
        commit_msg: "change B the other way".to_string(),
        markdown: "A\nY\nC\n".to_string(),
        oid: base.oid.as_ref().map(|o| Oid(o.as_str().to_string())),
        rev: Oid(base.rev.as_str().to_string()),
    };
    let outcome = submit_edit(&mut repo, &mut index, &art, &account(), &second).unwrap();
    match outcome {
        Commit::Conflict { ancestor, ours, theirs, .. } => {
            assert_eq!(ancestor.as_deref(), Some("A\nB\nC\n"));
            assert_eq!(ours, "A\nX\nC\n");
            assert_eq!(theirs, "A\nY\nC\n");
        }
        _ => panic!("expected a conflict"),
    }
    // Nothing was committed: head still holds the first editor's text.
    let read = read_article(&repo.read(), &art, None).unwrap();
    assert_eq!(read.1, "A\nX\nC\n");
}

#[test]
fn identical_content_always_yields_identical_digest() {
    let mut repo = Repository::open_or_init("home").unwrap();
    let mut index = Index::open(&repo.read());
    assert!(matches!(edit(&mut repo, &mut index, "one", "shared text\n"), Commit::NoConflict));
    assert!(matches!(edit(&mut repo, &mut index, "two", "shared text\n"), Commit::NoConflict));
    assert!(matches!(edit(&mut repo, &mut index, "three", "other text\n"), Commit::NoConflict));
    let snapshot = repo.read();
    let a = article_info(&snapshot, &article("one")).oid.unwrap();
    let b = article_info(&snapshot, &article("two")).oid.unwrap();
    let c = article_info(&snapshot, &article("three")).oid.unwrap();
    assert_eq!(a.as_str(), b.as_str());
    assert_ne!(a.as_str(), c.as_str());
    assert_eq!(a.as_str().len(), 40);
    assert!(a.as_str().chars().all(|ch| ch.is_ascii_hexdigit() && !ch.is_ascii_uppercase()));
}

#[test]
fn old_revision_still_readable_from_snapshot() {
    let mut repo = Repository::open_or_init("home").unwrap();
    let mut index = Index::open(&repo.read());
    assert!(matches!(edit(&mut repo, &mut index, "page", "old\n"), Commit::NoConflict));
    let old_head = head_rev(&repo);
    let before = repo.read();
    assert!(matches!(edit(&mut repo, &mut index, "page", "new\n"), Commit::NoConflict));
    // The snapshot opened before the write does not observe it.
    let read = read_article(&before, &article("page"), None).unwrap();
    assert_eq!(read.1, "old\n");
    // The old revision can still be addressed explicitly at the new head.
    let read = read_article(&repo.read(), &article("page"), Some(&old_head)).unwrap();
    assert_eq!(read.1, "old\n");
}

#[test]
fn history_summary_is_the_first_message_line() {
    let mut repo = Repository::open_or_init("home").unwrap();
    let art = article("page");
    let info = article_info(&repo.read(), &art);
    let submit = EditSubmit {
        commit_msg: "short summary\nand a longer body\n".to_string(),
        markdown: "text\n".to_string(),
        oid: info.oid,
        rev: info.rev,
    };
    let outcome = repo.commit_article(&art.path, &account(), &submit).unwrap();
    assert!(matches!(outcome, Commit::NoConflict));
    let history = repo.read().history(&art.path);
    assert_eq!(history.len(), 1);
    assert_eq!(history[0].summary, "short summary");
    assert_eq!(history[0].user.email, "alice@example.org");
}

#[test]
fn stale_ancestor_for_absent_document_goes_through_the_merge() {
    let mut repo = Repository::open_or_init("home").unwrap();
    let mut index = Index::open(&repo.read());
    // The editor claims an ancestor blob for a title that is absent at
    // head: a possible concurrent write, so the edit must not be
    // fast-committed.  Neither the head nor the ancestor revision holds
    // the document, so the merge takes the submitted text.
    let art = article("page");
    let snapshot = repo.read();
    let stale = article_info(&snapshot, &article("home")).oid.unwrap();
    let submit = EditSubmit {
        commit_msg: "edit with a stale ancestor".to_string(),
        markdown: "fresh text\n".to_string(),
        oid: Some(stale),
        rev: Oid(snapshot.head().unwrap()),
    };
    let outcome = submit_edit(&mut repo, &mut index, &art, &account(), &submit).unwrap();
    match outcome {
        Commit::Merged { merged, .. } => assert_eq!(merged, "fresh text\n"),
        _ => panic!("expected the merge path, not a silent overwrite"),
    }
    let read = read_article(&repo.read(), &art, None).unwrap();
    assert_eq!(read.1, "fresh text\n");
}
