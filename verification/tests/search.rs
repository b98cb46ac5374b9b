use kairowiki::api::{submit_edit, Commit, EditSubmit, article_info};
use kairowiki::article::{ArticleTitle, WikiArticle};
use kairowiki::index::{Index, TitleSegmentsTokenizer};
use kairowiki::repo::Repository;
use kairowiki::user_storage::{UserAccount, UserId};

fn account() -> UserAccount {
    UserAccount { id: UserId(1), name: "alice".to_string(), email: "alice@example.org".to_string() }
}

fn article(title: &str) -> WikiArticle {
    WikiArticle::from_title(ArticleTitle::new(title.to_string()))
}

fn edit(repo: &mut Repository, index: &mut Index, title: &str, content: &str) {
    let art = article(title);
    let info = article_info(&repo.read(), &art);
    let submit = EditSubmit {
        commit_msg: "edit".to_string(),
        markdown: content.to_string(),
        oid: info.oid,
        rev: info.rev,
    };
    assert!(matches!(
        submit_edit(repo, index, &art, &account(), &submit).unwrap(),
        Commit::NoConflict
    ));
}

#[test]
fn rebuild_is_idempotent() {
    let mut repo = Repository::open_or_init("home").unwrap();
    let mut index = Index::open(&repo.read());
    edit(&mut repo, &mut index, "alpha", "one two three\n");
    edit(&mut repo, &mut index, "beta", "four five six\n");
    let snapshot = repo.read();
    let mut first = Index::open(&snapshot);
    let mut second = Index::open(&snapshot);
    assert_eq!(first.titles(), second.titles());
    first.rebuild(&snapshot);
    second.rebuild(&snapshot);
    assert_eq!(first.titles(), second.titles());
    for title in first.titles() {
        let art = article(&title);
        assert_eq!(first.get_article(&art), second.get_article(&art));
    }
}

#[test]
fn search_is_fresh_for_own_edit() {
    let mut repo = Repository::open_or_init("home").unwrap();
    let mut index = Index::open(&repo.read());
    edit(&mut repo, &mut index, "journal", "the xylophone arrived\n");
    let results = index.search("xylophone", 10).unwrap();
    assert_eq!(results.len(), 1);
    assert_eq!(results[0].title, "journal");
    assert!(results[0].content_text.contains("xylophone"));
}

#[test]
fn index_reflects_head_only() {
    let mut repo = Repository::open_or_init("home").unwrap();
    let mut index = Index::open(&repo.read());
    edit(&mut repo, &mut index, "page", "the zanzibar chronicle\n");
    edit(&mut repo, &mut index, "page", "nothing to see\n");
    let mut rebuilt = Index::open(&repo.read());
    let results = rebuilt.search("zanzibar", 10).unwrap();
    assert!(results.is_empty());
    let results = rebuilt.search("nothing", 10).unwrap();
    assert_eq!(results.len(), 1);
    let _ = &mut rebuilt;
}

#[test]
fn title_segment_prefixes_match_titles() {
    let mut repo = Repository::open_or_init("home").unwrap();
    let mut index = Index::open(&repo.read());
    edit(&mut repo, &mut index, "projects/alpha", "about alpha\n");
    // A query token that is a prefix of a title segment hits the title.
    let results = index.search("alp", 10).unwrap();
    assert_eq!(results.len(), 1);
    assert_eq!(results[0].title, "projects/alpha");
}

#[test]
fn empty_query_is_a_user_error() {
    let mut repo = Repository::open_or_init("home").unwrap();
    let mut index = Index::open(&repo.read());
    edit(&mut repo, &mut index, "page", "text\n");
    assert!(index.search("", 10).is_err());
    assert!(index.search("  ... ", 10).is_err());
}

#[test]
fn ranking_prefers_more_hits_and_limit_caps_results() {
    let mut repo = Repository::open_or_init("home").unwrap();
    let mut index = Index::open(&repo.read());
    edit(&mut repo, &mut index, "both", "apple banana\n");
    edit(&mut repo, &mut index, "one", "apple only\n");
    edit(&mut repo, &mut index, "none", "pear\n");
    let results = index.search("apple banana", 10).unwrap();
    assert_eq!(results.len(), 2);
    assert_eq!(results[0].title, "both");
    assert_eq!(results[1].title, "one");
    let capped = index.search("apple banana", 1).unwrap();
    assert_eq!(capped.len(), 1);
    assert_eq!(capped[0].title, "both");
}

#[test]
fn snippet_falls_back_to_leading_text() {
    let mut repo = Repository::open_or_init("home").unwrap();
    let mut index = Index::open(&repo.read());
    // Match on the title alone: no hit lies in the body, so the snippet
    // is the body's lead.
    edit(&mut repo, &mut index, "quartz", "some body text\n");
    let results = index.search("qua", 10).unwrap();
    assert_eq!(results.len(), 1);
    assert_eq!(results[0].content_text, "some body text\n");
}

#[test]
fn get_article_reads_committed_state() {
    let mut repo = Repository::open_or_init("home").unwrap();
    let mut index = Index::open(&repo.read());
    edit(&mut repo, &mut index, "page", "indexed body\n");
    assert_eq!(index.get_article(&article("page")).as_deref(), Some("indexed body\n"));
    assert!(index.get_article(&article("missing")).is_none());
}

#[test]
fn tokenizer_splits_on_slashes() {
    assert_eq!(TitleSegmentsTokenizer::segments("a/b//c"), vec!["a", "b", "c"]);
    assert_eq!(TitleSegmentsTokenizer::segments("/lead/trail/"), vec!["lead", "trail"]);
    assert!(TitleSegmentsTokenizer::segments("").is_empty());
}
