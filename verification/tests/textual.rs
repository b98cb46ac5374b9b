use kairowiki::article::{ArticlePath, ArticleTitle, TitleError, WikiArticle};
use kairowiki::markdown::title_to_id;
use kairowiki::merge::{merge_texts, MergeOutcome};
use kairowiki::password::PasswordHash;
use kairowiki::templates::segment_title;
use kairowiki::repo_path::RepoPath;
use kairowiki::user_storage::{InvalidPasswordHash, PasswordHash as StoredPasswordHash};

#[test]
fn article_paths_carry_the_markdown_suffix() {
    let article = WikiArticle::from_title(ArticleTitle::new("projects/alpha".to_string()));
    assert_eq!(article.path.as_str(), "projects/alpha.md");
    let back = ArticleTitle::from_path("projects/alpha.md").unwrap();
    assert_eq!(back.as_str(), "projects/alpha");
    match ArticleTitle::from_path("picture.png") {
        Err(e) => assert_eq!(e, TitleError::InvalidExtension),
        Ok(_) => panic!("expected a rejected extension"),
    }
    match ArticleTitle::from_path("md") {
        Err(e) => assert_eq!(e, TitleError::InvalidExtension),
        Ok(_) => panic!("expected a rejected extension"),
    }
    let _ = ArticlePath::from_title(&ArticleTitle::new("x".to_string()));
}

#[test]
fn three_way_merge_outcomes() {
    let ancestor = "A\nB\nC\n".to_string();
    match merge_texts(Some(&ancestor), "X\nB\nC\n", "A\nB\nY\n") {
        MergeOutcome::Merged(m) => assert_eq!(m, "X\nB\nY\n"),
        MergeOutcome::Conflict => panic!("expected a merge"),
    }
    match merge_texts(Some(&ancestor), "A\nX\nC\n", "A\nY\nC\n") {
        MergeOutcome::Conflict => {}
        MergeOutcome::Merged(_) => panic!("expected a conflict"),
    }
    // A side that did not change loses to the side that did.
    match merge_texts(Some(&ancestor), "A\nB\nC\n", "A\nB\nY\n") {
        MergeOutcome::Merged(m) => assert_eq!(m, "A\nB\nY\n"),
        MergeOutcome::Conflict => panic!("expected a merge"),
    }
    match merge_texts(Some(&ancestor), "X\nB\nC\n", "A\nB\nC\n") {
        MergeOutcome::Merged(m) => assert_eq!(m, "X\nB\nC\n"),
        MergeOutcome::Conflict => panic!("expected a merge"),
    }
    // Identical additions over an absent ancestor merge; different ones
    // conflict.
    match merge_texts(None, "same\n", "same\n") {
        MergeOutcome::Merged(m) => assert_eq!(m, "same\n"),
        MergeOutcome::Conflict => panic!("expected a merge"),
    }
    assert!(matches!(merge_texts(None, "one\n", "two\n"), MergeOutcome::Conflict));
}

#[test]
fn heading_anchor_ids() {
    assert_eq!(title_to_id("a b"), "u-a-b");
    assert_eq!(title_to_id(""), "u-");
    assert_eq!(title_to_id("NoSpaces"), "u-NoSpaces");
}

#[test]
fn title_segments_accumulate_paths() {
    let segments = segment_title("a/b/c");
    assert_eq!(segments.len(), 3);
    assert_eq!(segments[0].segment_name, "a");
    assert_eq!(segments[0].relative_url, "a");
    assert_eq!(segments[1].segment_name, "b");
    assert_eq!(segments[1].relative_url, "a/b");
    assert_eq!(segments[2].segment_name, "c");
    assert_eq!(segments[2].relative_url, "a/b/c");
}

#[test]
fn password_hashes_keep_their_bytes() {
    let h = PasswordHash::from_password("secret");
    assert_eq!(h.0, b"secret".to_vec());
    let r = PasswordHash::from_raw(vec![1, 2, 3]).unwrap();
    assert_eq!(r.0, vec![1, 2, 3]);
    assert!(StoredPasswordHash::from_vec(vec![0; 40]).is_ok());
    match StoredPasswordHash::from_vec(vec![0; 39]) {
        Err(e) => assert_eq!(e, InvalidPasswordHash),
        Ok(_) => panic!("expected a rejected width"),
    }
}

#[test]
fn tree_paths_strip_the_repository_root() {
    let root = RepoPath::new("/data/repo".to_string());
    let tree = root.tree_path("/data/repo/projects/alpha.md");
    assert_eq!(tree.0, "projects/alpha.md");
}
