//! Article identity: a hierarchical, slash-delimited title, and the tree
//! path it maps to — the title with a fixed suffix marking a markdown
//! document.

use vstd::prelude::*;

verus! {

/// The fixed suffix a title's tree path carries.
pub open spec fn md_ext() -> Seq<char> {
    seq!['.', 'm', 'd']
}

/// A hierarchical, slash-delimited document title, e.g. `projects/alpha`.
pub struct ArticleTitle(pub String);

impl View for ArticleTitle {
    type V = Seq<char>;

    open spec fn view(&self) -> Seq<char> {
        self.0@
    }
}

/// What can go wrong when reading a title back from a tree path.
#[derive(Debug, PartialEq, Eq, Structural)]
pub enum TitleError {
    /// The path does not carry the markdown suffix.
    InvalidExtension,
    /// The path is not valid text.
    InvalidUTF8,
}

impl ArticleTitle {
    /// Wrap a title string.  Whether a title may escape the repository
    /// root is the caller's concern: the boundary that accepts titles
    /// enforces that, not the store.
    pub fn new(s: String) -> (r: ArticleTitle)
        ensures
            r@ == s@,
    {
        ArticleTitle(s)
    }

    /// The title as a string slice.
    pub fn as_str(&self) -> (r: &str)
        ensures
            r@ == self@,
    {
        self.0.as_str()
    }

    /// Read a title back from a tree path: the path must carry the
    /// markdown suffix, which is stripped.  Never yields
    /// `TitleError::InvalidUTF8` here, since a path is already text.
    pub fn from_path(path: &str) -> (r: Result<ArticleTitle, TitleError>)
        ensures
            r is Ok <==> path@.len() >= 3 && path@.skip(path@.len() - 3) == md_ext(),
            r is Ok ==> r->Ok_0@ == path@.take(path@.len() - 3),
            r is Err ==> r->Err_0 == TitleError::InvalidExtension,
    {
        let n = s_len(path);
        if n < 3 {
            return Err(TitleError::InvalidExtension);
        }
        let suffix_ok = path.get_char(n - 3) == '.' && path.get_char(n - 2) == 'm' && path.get_char(
            n - 1,
        ) == 'd';
        proof {
            assert(path@.skip(path@.len() - 3) =~= seq![
                path@[path@.len() - 3],
                path@[path@.len() - 2],
                path@[path@.len() - 1],
            ]);
        }
        if suffix_ok {
            let stem = path.substring_char(0, n - 3).to_owned();
            proof {
                assert(stem@ == path@.subrange(0, path@.len() - 3));
                assert(path@.take(path@.len() - 3) =~= path@.subrange(0, path@.len() - 3));
            }
            Ok(ArticleTitle(stem))
        } else {
            proof {
                if path@.skip(path@.len() - 3) == md_ext() {
                    assert(path@.skip(path@.len() - 3)[0] == '.');
                    assert(path@.skip(path@.len() - 3)[1] == 'm');
                    assert(path@.skip(path@.len() - 3)[2] == 'd');
                }
            }
            Err(TitleError::InvalidExtension)
        }
    }
}

/// The character length of a string.
fn s_len(s: &str) -> (r: usize)
    ensures
        r == s@.len(),
{
    s.unicode_len()
}

/// The tree path a title's document is stored at: the title with the
/// markdown suffix appended.
pub struct ArticlePath(pub String);

impl View for ArticlePath {
    type V = Seq<char>;

    open spec fn view(&self) -> Seq<char> {
        self.0@
    }
}

impl ArticlePath {
    /// The path for a title.
    pub fn from_title(title: &ArticleTitle) -> (r: ArticlePath)
        ensures
            r@ == title@ + md_ext(),
    {
        let p = title.0.clone().concat(".md");
        proof {
            reveal_strlit(".md");
            assert(".md"@ =~= md_ext());
        }
        ArticlePath(p)
    }

    /// The path as a string slice.
    pub fn as_str(&self) -> (r: &str)
        ensures
            r@ == self@,
    {
        self.0.as_str()
    }
}

/// A title together with its tree path.
pub struct WikiArticle {
    pub title: ArticleTitle,
    pub path: ArticlePath,
}

impl WikiArticle {
    /// The article a title names.
    pub fn from_title(title: ArticleTitle) -> (r: WikiArticle)
        ensures
            r.title@ == title@,
            r.path@ == title@ + md_ext(),
    {
        let path = ArticlePath::from_title(&title);
        WikiArticle { title, path }
    }
}

} // verus!
