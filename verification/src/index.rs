//! The full-text search index: derived data over the repository's head —
//! one entry per (title, content) pair — with exact title lookup,
//! tokenized body search, segment-prefix title search, relevance
//! ranking and snippets.  Always reconstructible from the repository,
//! never a source of truth.

mod title_segments_tokenizer;

use vstd::prelude::*;

use crate::article::{ArticleTitle, WikiArticle};
use crate::repo::{head_docs, ReadOnly};
use crate::text::views_of;

pub use title_segments_tokenizer::TitleSegmentsTokenizer;
pub use title_segments_tokenizer::segments as title_segments_tokenizer_segments;

verus! {

/// ASCII uppercase folded to lowercase; every other character kept.
pub open spec fn lower_char(c: char) -> char {
    if ('A' as u32) <= (c as u32) <= ('Z' as u32) {
        (((c as u32) + 32) as u8) as char
    } else {
        c
    }
}

/// Case-insensitive equality of two character sequences.
pub open spec fn ci_eq(a: Seq<char>, b: Seq<char>) -> bool {
    a.len() == b.len() && forall|i: int|
        0 <= i < a.len() ==> lower_char(#[trigger] a[i]) == lower_char(b[i])
}

/// A character that is part of a word: an ASCII letter or digit, or any
/// character beyond ASCII.
pub open spec fn word_char(c: char) -> bool {
    (('0' as u32) <= (c as u32) <= ('9' as u32)) || (('a' as u32) <= (c as u32) <= ('z' as u32))
        || (('A' as u32) <= (c as u32) <= ('Z' as u32)) || (c as u32) >= 128
}

/// The length of the leading run of word characters.
pub open spec fn first_nonword(s: Seq<char>) -> int
    decreases s.len(),
{
    if s.len() == 0 {
        0
    } else if !word_char(s[0]) {
        0
    } else {
        1 + first_nonword(s.drop_first())
    }
}

pub proof fn lemma_first_nonword(s: Seq<char>)
    ensures
        0 <= first_nonword(s) <= s.len(),
        first_nonword(s) < s.len() ==> !word_char(s[first_nonword(s)]),
        forall|j: int| 0 <= j < first_nonword(s) ==> word_char(#[trigger] s[j]),
    decreases s.len(),
{
    if s.len() > 0 && word_char(s[0]) {
        lemma_first_nonword(s.drop_first());
        assert forall|j: int| 0 <= j < first_nonword(s) implies word_char(#[trigger] s[j]) by {
            if j > 0 {
                assert(s.drop_first()[j - 1] == s[j]);
            }
        }
    }
}

/// All characters lowercased.
pub open spec fn lower_seq(s: Seq<char>) -> Seq<char> {
    s.map_values(|c: char| lower_char(c))
}

/// The search tokens of a text: its maximal runs of word characters,
/// lowercased, in order.
pub open spec fn tokens(s: Seq<char>) -> Seq<Seq<char>>
    decreases s.len(),
    via tokens_decreases
{
    if s.len() == 0 {
        Seq::<Seq<char>>::empty()
    } else if !word_char(s[0]) {
        tokens(s.drop_first())
    } else {
        let e = first_nonword(s);
        seq![lower_seq(s.take(e))] + tokens(s.skip(e))
    }
}

#[via_fn]
proof fn tokens_decreases(s: Seq<char>) {
    lemma_first_nonword(s);
    if s.len() > 0 && word_char(s[0]) {
        assert(first_nonword(s) >= 1);
    }
}

/// Fold one character to lowercase.
pub fn lower_char_exec(c: char) -> (r: char)
    ensures
        r == lower_char(c),
{
    let u = c as u32;
    if 65 <= u && u <= 90 {
        proof {
            assert(('A' as u32) == 65 && ('Z' as u32) == 90);
        }
        ((u + 32) as u8) as char
    } else {
        proof {
            assert(('A' as u32) == 65 && ('Z' as u32) == 90);
        }
        c
    }
}

/// Whether a character is part of a word.
pub fn word_char_exec(c: char) -> (r: bool)
    ensures
        r == word_char(c),
{
    let u = c as u32;
    let r = (48 <= u && u <= 57) || (97 <= u && u <= 122) || (65 <= u && u <= 90) || u >= 128;
    proof {
        assert(('0' as u32) == 48 && ('9' as u32) == 57 && ('a' as u32) == 97 && ('z' as u32)
            == 122 && ('A' as u32) == 65 && ('Z' as u32) == 90);
    }
    r
}

/// The search tokens of a text.
pub fn tokens_exec(s: &str) -> (r: Vec<String>)
    ensures
        views_of(r@) == tokens(s@),
{
    let chars = crate::text::to_chars(s);
    let n = chars.len();
    let mut r: Vec<String> = Vec::new();
    let mut pos: usize = 0;
    proof {
        assert(chars@.skip(0) =~= chars@);
        assert(views_of(r@) + tokens(chars@.skip(0)) =~= tokens(chars@));
    }
    while pos < n
        invariant
            pos <= n,
            n == chars@.len(),
            chars@ == s@,
            tokens(s@) == views_of(r@) + tokens(chars@.skip(pos as int)),
        decreases n - pos,
    {
        proof {
            assert(chars@.skip(pos as int)[0] == chars@[pos as int]);
        }
        if !word_char_exec(chars[pos]) {
            proof {
                assert(chars@.skip(pos as int).drop_first() =~= chars@.skip(pos + 1));
            }
            pos += 1;
        } else {
            let ghost rem = chars@.skip(pos as int);
            proof {
                lemma_first_nonword(rem);
            }
            let mut e: usize = pos;
            while e < n && word_char_exec(chars[e])
                invariant
                    pos <= e <= n,
                    n == chars@.len(),
                    forall|k: int| pos <= k < e ==> word_char(#[trigger] chars@[k]),
                decreases n - e,
            {
                e += 1;
            }
            proof {
                assert(first_nonword(rem) == e - pos) by {
                    lemma_first_nonword(rem);
                    if first_nonword(rem) < e - pos {
                        assert(rem[first_nonword(rem)] == chars@[pos + first_nonword(rem)]);
                    }
                    if first_nonword(rem) > e - pos {
                        assert(e < n);
                        assert(rem[e - pos] == chars@[e as int]);
                    }
                }
            }
            let mut tok: Vec<char> = Vec::new();
            let mut w: usize = pos;
            while w < e
                invariant
                    pos <= w <= e <= n,
                    n == chars@.len(),
                    tok@ == lower_seq(chars@.subrange(pos as int, w as int)),
                decreases e - w,
            {
                let ghost prev = tok@;
                tok.push(lower_char_exec(chars[w]));
                proof {
                    assert(tok@ =~= prev.push(lower_char(chars@[w as int])));
                    assert(lower_seq(chars@.subrange(pos as int, w + 1)) =~= lower_seq(
                        chars@.subrange(pos as int, w as int),
                    ).push(lower_char(chars@[w as int])));
                }
                w += 1;
            }
            let ghost prevr = r@;
            let tok_s = crate::text::chars_to_string(&tok);
            r.push(tok_s);
            proof {
                assert(rem.take(e - pos) =~= chars@.subrange(pos as int, e as int));
                assert(rem.skip(e - pos) =~= chars@.skip(e as int));
                assert(views_of(r@) =~= views_of(prevr).push(
                    lower_seq(chars@.subrange(pos as int, e as int)),
                ));
                assert(views_of(r@) + tokens(chars@.skip(e as int)) =~= views_of(prevr) + (seq![
                    lower_seq(rem.take(e - pos)),
                ] + tokens(rem.skip(e - pos))));
            }
            pos = e;
        }
    }
    proof {
        assert(chars@.skip(n as int) =~= Seq::<char>::empty());
        assert(tokens(chars@.skip(n as int)) =~= Seq::<Seq<char>>::empty());
        assert(views_of(r@) =~= tokens(s@));
    }
    r
}

/// A query token hits a title when it is a prefix, at least two
/// characters long, of one of the title's slash-delimited segments,
/// compared case-insensitively.
pub open spec fn title_match(q: Seq<char>, title: Seq<char>) -> bool {
    q.len() >= 2 && exists|i: int|
        0 <= i && i + q.len() <= title.len() && (i == 0 || title[i - 1] == '/') && ci_eq(
            q,
            #[trigger] title.subrange(i, i + q.len()),
        )
}

/// A query token occurs in a text at a position when it matches there
/// case-insensitively, with a word boundary on each side.
pub open spec fn match_at(q: Seq<char>, content: Seq<char>, i: int) -> bool {
    &&& 0 <= i
    &&& i + q.len() <= content.len()
    &&& ci_eq(q, content.subrange(i, i + q.len()))
    &&& (i == 0 || !word_char(content[i - 1]))
    &&& (i + q.len() == content.len() || !word_char(content[i + q.len()]))
}

/// A query token hits a text when it occurs somewhere in it as a whole
/// word.
pub open spec fn content_match(q: Seq<char>, content: Seq<char>) -> bool {
    q.len() >= 1 && exists|i: int| #[trigger] match_at(q, content, i)
}

/// One token's contribution to a document's relevance: a title hit
/// counts double a body hit.
pub open spec fn score_one(q: Seq<char>, title: Seq<char>, content: Seq<char>) -> int {
    (if title_match(q, title) {
        2int
    } else {
        0int
    }) + (if content_match(q, content) {
        1int
    } else {
        0int
    })
}

/// A document's relevance: the sum of its tokens' contributions.
pub open spec fn score(ts: Seq<Seq<char>>, title: Seq<char>, content: Seq<char>) -> int
    decreases ts.len(),
{
    if ts.len() == 0 {
        0
    } else {
        score_one(ts[0], title, content) + score(ts.drop_first(), title, content)
    }
}

pub proof fn lemma_score_bounds(ts: Seq<Seq<char>>, title: Seq<char>, content: Seq<char>)
    ensures
        0 <= score(ts, title, content) <= 3 * ts.len(),
    decreases ts.len(),
{
    if ts.len() > 0 {
        lemma_score_bounds(ts.drop_first(), title, content);
    }
}

/// Whether the token matches the text, case-insensitively, at an index.
fn ci_eq_at(q: &Vec<char>, text: &Vec<char>, i: usize) -> (r: bool)
    requires
        i + q@.len() <= text@.len(),
    ensures
        r == ci_eq(q@, text@.subrange(i as int, i + q@.len())),
{
    let ghost sub = text@.subrange(i as int, i + q@.len());
    let m = q.len();
    let tlen = text.len();
    let mut d: usize = 0;
    while d < m
        invariant
            d <= m,
            m == q@.len(),
            tlen == text@.len(),
            i + m <= tlen,
            sub == text@.subrange(i as int, i + m),
            forall|x: int| 0 <= x < d ==> lower_char(#[trigger] q@[x]) == lower_char(sub[x]),
        decreases m - d,
    {
        proof {
            assert(sub[d as int] == text@[i + d]);
        }
        if lower_char_exec(q[d]) != lower_char_exec(text[i + d]) {
            proof {
                assert(lower_char(q@[d as int]) != lower_char(sub[d as int]));
            }
            return false;
        }
        d += 1;
    }
    true
}

/// Whether a token hits a title.
fn title_match_exec(q: &Vec<char>, title: &Vec<char>) -> (r: bool)
    ensures
        r == title_match(q@, title@),
{
    let m = q.len();
    if m < 2 || m > title.len() {
        proof {
            if title_match(q@, title@) {
                let i = choose|i: int|
                    0 <= i && i + q@.len() <= title@.len() && (i == 0 || title@[i - 1] == '/')
                        && ci_eq(q@, #[trigger] title@.subrange(i, i + q@.len()));
                assert(i + q@.len() <= title@.len());
            }
        }
        return false;
    }
    let tlen = title.len();
    let last = tlen - m;
    let mut i: usize = 0;
    while i <= last
        invariant
            i <= last + 1,
            tlen == title@.len(),
            last == tlen - m,
            m == q@.len(),
            2 <= m <= tlen,
            forall|x: int|
                0 <= x < i ==> !((x == 0 || title@[x - 1] == '/') && ci_eq(
                    q@,
                    #[trigger] title@.subrange(x, x + q@.len()),
                )),
        decreases last + 1 - i,
    {
        let at_boundary = i == 0 || title[i - 1] == '/';
        if at_boundary && ci_eq_at(q, title, i) {
            proof {
                assert(ci_eq(q@, title@.subrange(i as int, i + q@.len())));
            }
            return true;
        }
        i += 1;
    }
    proof {
        if title_match(q@, title@) {
            let x = choose|x: int|
                0 <= x && x + q@.len() <= title@.len() && (x == 0 || title@[x - 1] == '/') && ci_eq(
                    q@,
                    #[trigger] title@.subrange(x, x + q@.len()),
                );
            assert(x <= last);
            assert(false);
        }
    }
    false
}

/// Whether the token occurs as a whole word at an index.
fn match_at_exec(q: &Vec<char>, content: &Vec<char>, i: usize) -> (r: bool)
    requires
        i + q@.len() <= content@.len(),
    ensures
        r == match_at(q@, content@, i as int),
{
    let clen = content.len();
    let left_ok = i == 0 || !word_char_exec(content[i - 1]);
    if !left_ok {
        return false;
    }
    let right = i + q.len();
    let right_ok = right == clen || !word_char_exec(content[right]);
    if !right_ok {
        return false;
    }
    ci_eq_at(q, content, i)
}

/// Whether a token hits a text.
fn content_match_exec(q: &Vec<char>, content: &Vec<char>) -> (r: bool)
    ensures
        r == content_match(q@, content@),
{
    let m = q.len();
    if m < 1 || m > content.len() {
        proof {
            if content_match(q@, content@) {
                let i = choose|i: int| #[trigger] match_at(q@, content@, i);
                assert(i + q@.len() <= content@.len());
            }
        }
        return false;
    }
    let clen = content.len();
    let last = clen - m;
    let mut i: usize = 0;
    while i <= last
        invariant
            i <= last + 1,
            clen == content@.len(),
            last == clen - m,
            m == q@.len(),
            1 <= m <= clen,
            forall|x: int| 0 <= x < i ==> !(#[trigger] match_at(q@, content@, x)),
        decreases last + 1 - i,
    {
        if match_at_exec(q, content, i) {
            return true;
        }
        i += 1;
    }
    proof {
        if content_match(q@, content@) {
            let x = choose|x: int| #[trigger] match_at(q@, content@, x);
            assert(x <= last);
            assert(false);
        }
    }
    false
}

/// A document's relevance for a token list.
fn score_exec(ts: &Vec<Vec<char>>, title: &Vec<char>, content: &Vec<char>) -> (r: u128)
    ensures
        r as int == score(views_of_chars(ts@), title@, content@),
{
    let ghost tsv = views_of_chars(ts@);
    let n = ts.len();
    let mut acc: u128 = 0;
    let mut i: usize = 0;
    proof {
        assert(tsv.take(0) =~= Seq::<Seq<char>>::empty());
    }
    while i < n
        invariant
            i <= n,
            n == ts@.len(),
            tsv == views_of_chars(ts@),
            acc as int == score(tsv.take(i as int), title@, content@),
            acc <= 3 * (i as u128),
        decreases n - i,
    {
        proof {
            assert(tsv[i as int] == ts@[i as int]@);
            lemma_score_snoc(tsv.take(i as int), tsv[i as int], title@, content@);
            assert(tsv.take(i + 1) =~= tsv.take(i as int).push(tsv[i as int]));
        }
        let tmatch = title_match_exec(&ts[i], title);
        let cmatch = content_match_exec(&ts[i], content);
        let add: u128 = (if tmatch {
            2
        } else {
            0
        }) + (if cmatch {
            1
        } else {
            0
        });
        acc = acc + add;
        i += 1;
    }
    proof {
        assert(tsv.take(n as int) =~= tsv);
    }
    acc
}

/// The views of a vector of character vectors.
pub open spec fn views_of_chars(ts: Seq<Vec<char>>) -> Seq<Seq<char>> {
    ts.map_values(|t: Vec<char>| t@)
}

/// The relevance of every document, in document order.
pub open spec fn scores_of(ts: Seq<Seq<char>>, docs: Seq<(Seq<char>, Seq<char>)>) -> Seq<int> {
    docs.map_values(|d: (Seq<char>, Seq<char>)| score(ts, d.0, d.1))
}

/// The index of the best remaining score at or after `i`: the highest
/// score, and of equal scores the earliest.
pub open spec fn pick_from(scores: Seq<int>, i: int) -> int
    decreases scores.len() - i,
{
    if i < 0 || i >= scores.len() - 1 {
        i
    } else {
        let b = pick_from(scores, i + 1);
        if scores[i] >= scores[b] {
            i
        } else {
            b
        }
    }
}

pub proof fn lemma_pick_from(scores: Seq<int>, i: int)
    requires
        0 <= i < scores.len(),
    ensures
        i <= pick_from(scores, i) < scores.len(),
        forall|j: int| i <= j < scores.len() ==> scores[pick_from(scores, i)] >= #[trigger] scores[j],
        forall|j: int| i <= j < pick_from(scores, i) ==> #[trigger] scores[j] < scores[pick_from(scores, i)],
    decreases scores.len() - i,
{
    if i < scores.len() - 1 {
        lemma_pick_from(scores, i + 1);
    }
}

/// The ranked results: up to `k` documents, by score downward, equal
/// scores in document order, documents that match nothing left out.
pub open spec fn topk(
    docs: Seq<(Seq<char>, Seq<char>)>,
    scores: Seq<int>,
    k: int,
) -> Seq<(Seq<char>, Seq<char>)>
    decreases k,
{
    if k <= 0 || docs.len() == 0 || scores.len() != docs.len() {
        Seq::<(Seq<char>, Seq<char>)>::empty()
    } else {
        let b = pick_from(scores, 0);
        if !(0 <= b < scores.len()) || scores[b] <= 0 {
            Seq::<(Seq<char>, Seq<char>)>::empty()
        } else {
            seq![docs[b]] + topk(docs, scores.update(b, 0), k - 1)
        }
    }
}

/// Everything the ranking returns is one of the documents.
pub proof fn lemma_topk_members(docs: Seq<(Seq<char>, Seq<char>)>, scores: Seq<int>, k: int)
    ensures
        forall|x: int|
            0 <= x < topk(docs, scores, k).len() ==> exists|i: int|
                0 <= i < docs.len() && docs[i] == #[trigger] topk(docs, scores, k)[x],
    decreases k,
{
    if k > 0 && docs.len() > 0 && scores.len() == docs.len() {
        let b = pick_from(scores, 0);
        if 0 <= b < scores.len() && scores[b] > 0 {
            lemma_topk_members(docs, scores.update(b, 0), k - 1);
            assert forall|x: int| 0 <= x < topk(docs, scores, k).len() implies exists|i: int|
                0 <= i < docs.len() && docs[i] == #[trigger] topk(docs, scores, k)[x] by {
                if x == 0 {
                    assert(docs[b] == topk(docs, scores, k)[x]);
                } else {
                    assert(topk(docs, scores, k)[x] == topk(docs, scores.update(b, 0), k - 1)[x
                        - 1]);
                }
            }
        }
    }
}

/// Whether any query token occurs at this position.
pub open spec fn any_match_at(ts: Seq<Seq<char>>, content: Seq<char>, i: int) -> bool {
    exists|x: int| 0 <= x < ts.len() && ts[x].len() >= 1 && match_at(#[trigger] ts[x], content, i)
}

/// The first position where any query token occurs, or the length.
pub open spec fn first_match_from(ts: Seq<Seq<char>>, content: Seq<char>, i: int) -> int
    decreases content.len() - i,
{
    if i < 0 || i >= content.len() {
        content.len() as int
    } else if any_match_at(ts, content, i) {
        i
    } else {
        first_match_from(ts, content, i + 1)
    }
}

/// How many characters a snippet shows from the first hit on.
pub const SNIPPET_SPAN: usize = 160;

/// How many leading characters the fallback snippet shows when no hit
/// can be placed in the text.
pub const SNIPPET_FALLBACK: usize = 200;

/// The snippet shown for one result: a window from the first token hit,
/// or, when no hit lies in the text itself, a fixed-length lead of it.
pub open spec fn snippet_of(ts: Seq<Seq<char>>, content: Seq<char>) -> Seq<char> {
    let i = first_match_from(ts, content, 0);
    if i < content.len() {
        content.subrange(
            i,
            if i + SNIPPET_SPAN as int <= content.len() {
                i + SNIPPET_SPAN as int
            } else {
                content.len() as int
            },
        )
    } else {
        content.take(
            if SNIPPET_FALLBACK as int <= content.len() {
                SNIPPET_FALLBACK as int
            } else {
                content.len() as int
            },
        )
    }
}

/// The whole search, as a function of the indexed documents, the query
/// and the limit: the ranked documents, each rendered as its title and
/// its snippet.
pub open spec fn search_spec(
    docs: Seq<(Seq<char>, Seq<char>)>,
    q: Seq<char>,
    limit: int,
) -> Seq<(Seq<char>, Seq<char>)> {
    let ts = tokens(q);
    topk(docs, scores_of(ts, docs), limit).map_values(
        |d: (Seq<char>, Seq<char>)| (d.0, snippet_of(ts, d.1)),
    )
}

/// Every search result carries the title of an indexed document and a
/// snippet computed from that document's content: nothing outside the
/// index — in particular no content of a revision the index was not
/// built from — ever appears in the results.
pub proof fn lemma_search_reflects_index(docs: Seq<(Seq<char>, Seq<char>)>, q: Seq<char>, limit: int)
    ensures
        forall|x: int|
            0 <= x < search_spec(docs, q, limit).len() ==> exists|i: int|
                0 <= i < docs.len() && docs[i].0 == #[trigger] search_spec(docs, q, limit)[x].0
                    && search_spec(docs, q, limit)[x].1 == snippet_of(tokens(q), docs[i].1),
{
    let ts = tokens(q);
    let picked = topk(docs, scores_of(ts, docs), limit);
    lemma_topk_members(docs, scores_of(ts, docs), limit);
    assert forall|x: int| 0 <= x < search_spec(docs, q, limit).len() implies exists|i: int|
        0 <= i < docs.len() && docs[i].0 == #[trigger] search_spec(docs, q, limit)[x].0
            && search_spec(docs, q, limit)[x].1 == snippet_of(tokens(q), docs[i].1) by {
        assert(search_spec(docs, q, limit)[x] == (picked[x].0, snippet_of(ts, picked[x].1)));
        let i = choose|i: int| 0 <= i < docs.len() && docs[i] == picked[x];
        assert(docs[i].0 == search_spec(docs, q, limit)[x].0);
    }
}

proof fn lemma_score_snoc(ts: Seq<Seq<char>>, q: Seq<char>, title: Seq<char>, content: Seq<char>)
    ensures
        score(ts.push(q), title, content) == score(ts, title, content) + score_one(
            q,
            title,
            content,
        ),
    decreases ts.len(),
{
    if ts.len() == 0 {
        assert(ts.push(q).drop_first() =~= Seq::<Seq<char>>::empty());
        assert(ts.push(q)[0] == q);
        assert(score(ts.push(q).drop_first(), title, content) == 0);
        assert(score(ts.push(q), title, content) == score_one(q, title, content));
        assert(score(ts, title, content) == 0);
    } else {
        assert(ts.push(q).drop_first() =~= ts.drop_first().push(q));
        lemma_score_snoc(ts.drop_first(), q, title, content);
        assert(ts.push(q)[0] == ts[0]);
        assert(score(ts.push(q), title, content) == score_one(ts[0], title, content) + score(
            ts.drop_first().push(q),
            title,
            content,
        ));
    }
}

/// An unparseable query: one with no search token at all.  A user
/// error, not an internal failure.
#[derive(Debug, PartialEq, Eq, Structural)]
pub struct QueryError;

/// One search hit: the document's title and a highlighted-region snippet
/// of its content.
pub struct SearchResult {
    pub title: String,
    pub content_text: String,
}

/// A search request as the HTTP layer hands it over.
pub struct SearchQuery {
    pub query: String,
}

/// The index itself: the committed documents, one per title.  Mutations
/// go through exclusive access and become visible atomically; readers
/// see the last committed state.
pub struct Index {
    pub docs: Vec<(String, String)>,
}

impl View for Index {
    type V = Seq<(Seq<char>, Seq<char>)>;

    open spec fn view(&self) -> Seq<(Seq<char>, Seq<char>)> {
        self.docs@.map_values(|p: (String, String)| (p.0@, p.1@))
    }
}

/// An entry list as a map from title to content.
pub open spec fn doc_map(es: Seq<(Seq<char>, Seq<char>)>) -> Map<Seq<char>, Seq<char>> {
    crate::store::map_of_entries(es)
}

/// Titles of the head documents are pairwise distinct, because tree
/// paths are and the markdown suffix is fixed.
pub proof fn lemma_head_docs_distinct(
    m: Map<Seq<char>, crate::store::ObjectView>,
    es: Seq<(Seq<char>, Seq<char>)>,
)
    requires
        crate::store::distinct_paths(es),
    ensures
        crate::store::distinct_paths(crate::repo::docs_of_entries(m, es)),
        forall|x: int|
            0 <= x < crate::repo::docs_of_entries(m, es).len() ==> exists|j: int|
                0 <= j < es.len() && es[j].0 == #[trigger] crate::repo::docs_of_entries(m, es)[x].0
                    + crate::article::md_ext(),
    decreases es.len(),
{
    let docs = crate::repo::docs_of_entries(m, es);
    if es.len() > 0 {
        assert forall|a: int, b: int| 0 <= a < b < es.drop_first().len() implies es.drop_first()[a].0
            != es.drop_first()[b].0 by {
            assert(es.drop_first()[a] == es[a + 1]);
            assert(es.drop_first()[b] == es[b + 1]);
        }
        lemma_head_docs_distinct(m, es.drop_first());
        let rest = crate::repo::docs_of_entries(m, es.drop_first());
        let p = es[0].0;
        let bd = es[0].1;
        let keep = p.len() >= 3 && p.skip(p.len() - 3) == crate::article::md_ext() && crate::repo::blob_of(
            m,
            bd,
        ) is Some && vstd::utf8::valid_utf8(crate::repo::blob_of(m, bd)->0);
        if keep {
            let t0 = p.take(p.len() - 3);
            assert(t0 + crate::article::md_ext() =~= p);
            assert forall|x: int| 0 <= x < docs.len() implies exists|j: int|
                0 <= j < es.len() && es[j].0 == #[trigger] docs[x].0
                    + crate::article::md_ext() by {
                if x == 0 {
                    assert(es[0].0 == docs[0].0 + crate::article::md_ext());
                } else {
                    assert(docs[x] == rest[x - 1]);
                    let j = choose|j: int|
                        0 <= j < es.drop_first().len() && es.drop_first()[j].0 == rest[x - 1].0
                            + crate::article::md_ext();
                    assert(es[j + 1].0 == docs[x].0 + crate::article::md_ext());
                }
            }
            assert forall|a: int, b: int| 0 <= a < b < docs.len() implies docs[a].0
                != docs[b].0 by {
                if a == 0 {
                    let j = choose|j: int|
                        0 <= j < es.drop_first().len() && es.drop_first()[j].0 == rest[b - 1].0
                            + crate::article::md_ext();
                    assert(docs[b] == rest[b - 1]);
                    assert(es[j + 1].0 == docs[b].0 + crate::article::md_ext());
                    if docs[0].0 == docs[b].0 {
                        assert(es[0].0 =~= es[j + 1].0);
                        assert(false);
                    }
                } else {
                    assert(docs[a] == rest[a - 1]);
                    assert(docs[b] == rest[b - 1]);
                }
            }
        } else {
            assert forall|x: int| 0 <= x < docs.len() implies exists|j: int|
                0 <= j < es.len() && es[j].0 == #[trigger] docs[x].0
                    + crate::article::md_ext() by {
                assert(docs[x] == rest[x]);
                let j = choose|j: int|
                    0 <= j < es.drop_first().len() && es.drop_first()[j].0 == rest[x].0
                        + crate::article::md_ext();
                assert(es[j + 1].0 == docs[x].0 + crate::article::md_ext());
            }
            assert forall|a: int, b: int| 0 <= a < b < docs.len() implies docs[a].0
                != docs[b].0 by {
                assert(docs[a] == rest[a]);
                assert(docs[b] == rest[b]);
            }
        }
    }
}

impl Index {
    /// Titles are pairwise distinct.
    pub open spec fn wf(&self) -> bool {
        crate::store::distinct_paths(self@)
    }

    /// Open the index and perform a full rebuild from the snapshot before
    /// it becomes ready.
    pub fn open(snapshot: &ReadOnly) -> (r: Index)
        requires
            snapshot.wf(),
        ensures
            r.wf(),
            r@ == head_docs(snapshot.store@, views_of(snapshot.revs@)),
    {
        let mut index = Index { docs: Vec::new() };
        index.rebuild(snapshot);
        index
    }

    /// Throw every indexed document away and re-add one per (title,
    /// content) pair of the snapshot's head tree, atomically.
    pub fn rebuild(&mut self, snapshot: &ReadOnly)
        requires
            snapshot.wf(),
        ensures
            final(self).wf(),
            final(self)@ == head_docs(snapshot.store@, views_of(snapshot.revs@)),
    {
        let pairs = snapshot.traverse_head_tree();
        let ghost target = head_docs(snapshot.store@, views_of(snapshot.revs@));
        let mut docs: Vec<(String, String)> = Vec::new();
        let mut i: usize = 0;
        proof {
            assert(docs@.map_values(|p: (String, String)| (p.0@, p.1@)) =~= target.take(0));
        }
        while i < pairs.len()
            invariant
                i <= pairs@.len(),
                pairs@.map_values(|p: (ArticleTitle, String)| (p.0@, p.1@)) == target,
                docs@.map_values(|p: (String, String)| (p.0@, p.1@)) == target.take(i as int),
            decreases pairs@.len() - i,
        {
            let ghost prev = docs@;
            let title = pairs[i].0.as_str().to_owned();
            let content = pairs[i].1.clone();
            docs.push((title, content));
            proof {
                assert(target[i as int] == (pairs@[i as int].0@, pairs@[i as int].1@));
                assert(docs@.map_values(|p: (String, String)| (p.0@, p.1@)) =~= prev.map_values(
                    |p: (String, String)| (p.0@, p.1@),
                ).push(target[i as int]));
                assert(docs@.map_values(|p: (String, String)| (p.0@, p.1@)) =~= target.take(
                    i + 1,
                ));
            }
            i += 1;
        }
        proof {
            assert(target.take(pairs@.len() as int) =~= target);
        }
        self.docs = docs;
        proof {
            let rvs = views_of(snapshot.revs@);
            assert(rvs.last() == rvs[rvs.len() - 1]);
            lemma_head_docs_distinct(
                snapshot.store@,
                crate::repo::tree_entries_at(snapshot.store@, rvs.last())->0,
            );
        }
    }

    /// Replace the indexed content for one title — or index the title
    /// fresh — and commit.
    pub fn update_article(&mut self, title: &ArticleTitle, content: &str)
        requires
            old(self).wf(),
        ensures
            final(self).wf(),
            doc_map(final(self)@) == doc_map(old(self)@).insert(title@, content@),
    {
        let ghost titlev = title@;
        let ghost contentv = content@;
        let n = self.docs.len();
        let mut i: usize = 0;
        while i < n
            invariant
                i <= n,
                n == self@.len(),
                self.wf(),
                self == old(self),
                titlev == title@,
                contentv == content@,
                forall|k: int| 0 <= k < i ==> self@[k].0 != title@,
            decreases n - i,
        {
            proof {
                assert(self@[i as int] == (self.docs@[i as int].0@, self.docs@[i as int].1@));
            }
            if crate::text::str_eq(self.docs[i].0.as_str(), title.as_str()) {
                let ghost prev_docs = self.docs@;
                self.docs[i] = (title.as_str().to_owned(), content.to_owned());
                proof {
                    assert(self.docs@ == prev_docs.update(i as int, self.docs@[i as int]));
                    assert((self.docs@[i as int].0@, self.docs@[i as int].1@) == (
                        titlev,
                        contentv,
                    ));
                    assert forall|k: int| 0 <= k < self@.len() implies self@[k] == old(
                        self,
                    )@.update(i as int, (titlev, contentv))[k] by {
                        assert(self@[k] == (self.docs@[k].0@, self.docs@[k].1@));
                        if k != i {
                            assert(self.docs@[k] == prev_docs[k]);
                            assert(old(self)@[k] == (prev_docs[k].0@, prev_docs[k].1@));
                        }
                    }
                    assert(self@ =~= old(self)@.update(i as int, (titlev, contentv)));
                    assert forall|a: int, b: int| 0 <= a < b < self@.len() implies self@[a].0
                        != self@[b].0 by {
                        assert(old(self)@[a].0 != old(self)@[b].0);
                    }
                    crate::store::lemma_map_of_update(old(self)@, i as int, titlev, contentv);
                }
                return ;
            }
            i += 1;
        }
        proof {
            assert(!crate::store::has_path(self@, titlev)) by {
                if crate::store::has_path(self@, titlev) {
                    let k = choose|k: int| 0 <= k < self@.len() && self@[k].0 == titlev;
                }
            }
        }
        self.docs.push((title.as_str().to_owned(), content.to_owned()));
        proof {
            assert forall|k: int| 0 <= k < self@.len() implies self@[k] == old(self)@.push(
                (titlev, contentv),
            )[k] by {
                assert(self@[k] == (self.docs@[k].0@, self.docs@[k].1@));
                if k < self@.len() - 1 {
                    assert(self.docs@[k] == old(self).docs@[k]);
                    assert(old(self)@[k] == (old(self).docs@[k].0@, old(self).docs@[k].1@));
                }
            }
            assert(self@ =~= old(self)@.push((titlev, contentv)));
            assert forall|a: int, b: int| 0 <= a < b < self@.len() implies self@[a].0
                != self@[b].0 by {
                if b < self@.len() - 1 {
                    assert(old(self)@[a].0 != old(self)@[b].0);
                }
            }
            crate::store::lemma_map_of_push(old(self)@, titlev, contentv);
        }
    }

    /// The indexed content for a title, for direct display.
    pub fn get_article(&self, article: &WikiArticle) -> (r: Option<String>)
        requires
            self.wf(),
        ensures
            r is Some <==> doc_map(self@).contains_key(article.title@),
            r is Some ==> r->0@ == doc_map(self@)[article.title@],
    {
        let n = self.docs.len();
        let mut i: usize = 0;
        while i < n
            invariant
                i <= n,
                n == self@.len(),
                self.wf(),
                forall|k: int| 0 <= k < i ==> self@[k].0 != article.title@,
            decreases n - i,
        {
            proof {
                assert(self@[i as int] == (self.docs@[i as int].0@, self.docs@[i as int].1@));
            }
            if crate::text::str_eq(self.docs[i].0.as_str(), article.title.as_str()) {
                proof {
                    assert(self@[i as int].0 == article.title@);
                    assert(crate::store::has_path(self@, article.title@));
                    let w = choose|k: int|
                        0 <= k < self@.len() && self@[k].0 == article.title@;
                    assert(self@[w].0 == article.title@);
                    assert(w == i);
                    assert(crate::store::blob_at(self@, article.title@) == self@[i as int].1);
                }
                return Some(self.docs[i].1.clone());
            }
            i += 1;
        }
        proof {
            assert(!crate::store::has_path(self@, article.title@));
        }
        None
    }

    /// Every indexed title, in index order.
    pub fn titles(&self) -> (r: Vec<String>)
        ensures
            views_of(r@) == self@.map_values(|d: (Seq<char>, Seq<char>)| d.0),
    {
        let ghost target = self@.map_values(|d: (Seq<char>, Seq<char>)| d.0);
        let mut r: Vec<String> = Vec::new();
        let mut i: usize = 0;
        proof {
            assert(views_of(r@) =~= target.take(0));
        }
        while i < self.docs.len()
            invariant
                i <= self.docs@.len(),
                target == self@.map_values(|d: (Seq<char>, Seq<char>)| d.0),
                target.len() == self.docs@.len(),
                views_of(r@) == target.take(i as int),
            decreases self.docs@.len() - i,
        {
            let ghost prev = r@;
            r.push(self.docs[i].0.clone());
            proof {
                assert(self@[i as int] == (self.docs@[i as int].0@, self.docs@[i as int].1@));
                assert(target[i as int] == self@[i as int].0);
                assert(views_of(r@) =~= views_of(prev).push(target[i as int]));
                assert(views_of(r@) =~= target.take(i + 1));
            }
            i += 1;
        }
        proof {
            assert(target.take(target.len() as int) =~= target);
        }
        r
    }
}

/// The integer values of a score vector.
pub open spec fn ints(s: Seq<u128>) -> Seq<int> {
    s.map_values(|x: u128| x as int)
}

/// The index of the best remaining score: the highest, earliest first.
fn pick_best(scores: &Vec<u128>) -> (r: usize)
    requires
        scores@.len() >= 1,
    ensures
        r as int == pick_from(ints(scores@), 0),
{
    let ghost sv = ints(scores@);
    let n = scores.len();
    let mut best: usize = 0;
    let mut j: usize = 1;
    proof {
        assert(sv[0] == scores@[0] as int);
    }
    while j < n
        invariant
            1 <= j <= n,
            best < j,
            n == scores@.len(),
            sv == ints(scores@),
            forall|x: int| 0 <= x < j ==> sv[best as int] >= #[trigger] sv[x],
            forall|x: int| 0 <= x < best ==> #[trigger] sv[x] < sv[best as int],
        decreases n - j,
    {
        proof {
            assert(sv[j as int] == scores@[j as int] as int);
            assert(sv[best as int] == scores@[best as int] as int);
        }
        if scores[j] > scores[best] {
            best = j;
        }
        j += 1;
    }
    proof {
        lemma_pick_from(sv, 0);
        let p = pick_from(sv, 0);
        if (best as int) < p {
            assert(sv[best as int] < sv[p]);
            assert(sv[best as int] >= sv[p]);
            assert(false);
        }
        if p < (best as int) {
            assert(sv[p] < sv[best as int]);
            assert(sv[p] >= sv[best as int]);
            assert(false);
        }
    }
    best
}

/// The snippet for one result.
fn snippet_exec(ts: &Vec<Vec<char>>, content: &str) -> (r: String)
    ensures
        r@ == snippet_of(views_of_chars(ts@), content@),
{
    let ghost tsv = views_of_chars(ts@);
    let chars = crate::text::to_chars(content);
    let clen = chars.len();
    let mut i: usize = 0;
    while i < clen
        invariant
            i <= clen,
            clen == content@.len(),
            chars@ == content@,
            tsv == views_of_chars(ts@),
            first_match_from(tsv, content@, 0) == first_match_from(tsv, content@, i as int),
            forall|x: int| 0 <= x < i ==> !any_match_at(tsv, content@, x),
        decreases clen - i,
    {
        let mut x: usize = 0;
        let mut hit = false;
        while x < ts.len() && !hit
            invariant
                x <= ts@.len(),
                i < clen,
                clen == content@.len(),
                chars@ == content@,
                tsv == views_of_chars(ts@),
                hit ==> any_match_at(tsv, content@, i as int),
                !hit ==> forall|y: int|
                    0 <= y < x ==> !(tsv[y].len() >= 1 && match_at(#[trigger] tsv[y], content@, i as int)),
            decreases ts@.len() - x,
        {
            proof {
                assert(tsv[x as int] == ts@[x as int]@);
            }
            let q = &ts[x];
            if q.len() >= 1 && q.len() <= clen - i {
                if match_at_exec(q, &chars, i) {
                    hit = true;
                }
            } else {
                proof {
                    if tsv[x as int].len() >= 1 && match_at(tsv[x as int], content@, i as int) {
                        assert(i + tsv[x as int].len() <= content@.len());
                    }
                }
            }
            x += 1;
        }
        if hit {
            proof {
                assert(first_match_from(tsv, content@, i as int) == i);
            }
            let end = if clen - i >= SNIPPET_SPAN {
                i + SNIPPET_SPAN
            } else {
                clen
            };
            let r = content.substring_char(i, end).to_owned();
            proof {
                assert(r@ == content@.subrange(i as int, end as int));
            }
            return r;
        }
        proof {
            assert(!any_match_at(tsv, content@, i as int));
        }
        i += 1;
    }
    proof {
        assert(first_match_from(tsv, content@, clen as int) == content@.len());
        assert(first_match_from(tsv, content@, 0) == content@.len());
    }
    let end = if clen >= SNIPPET_FALLBACK {
        SNIPPET_FALLBACK
    } else {
        clen
    };
    let r = content.substring_char(0, end).to_owned();
    proof {
        assert(content@.take(end as int) =~= content@.subrange(0, end as int));
    }
    r
}

impl Index {
    /// Search the index: the query's tokens are matched against title
    /// segments and body words, the documents are ranked by how many
    /// tokens hit — a title hit counting double — and up to `limit`
    /// results come back, each with a snippet from the first hit, or a
    /// fixed-length lead of the body when no hit lies in the text.  A
    /// query with no token at all is a user error.
    pub fn search(&self, query: &str, limit: usize) -> (r: Result<Vec<SearchResult>, QueryError>)
        ensures
            r is Ok <==> tokens(query@).len() > 0,
            r is Ok ==> r->Ok_0@.map_values(|sr: SearchResult| (sr.title@, sr.content_text@))
                == search_spec(self@, query@, limit as int),
    {
        let ghost docsv = self@;
        let ghost ts = tokens(query@);
        let toks = tokens_exec(query);
        if toks.len() == 0 {
            return Err(QueryError);
        }
        let mut tsc: Vec<Vec<char>> = Vec::new();
        let mut x: usize = 0;
        while x < toks.len()
            invariant
                x <= toks@.len(),
                views_of(toks@) == ts,
                views_of_chars(tsc@) == ts.take(x as int),
            decreases toks@.len() - x,
        {
            let ghost prev = tsc@;
            tsc.push(crate::text::to_chars(toks[x].as_str()));
            proof {
                assert(views_of_chars(tsc@) =~= views_of_chars(prev).push(toks@[x as int]@));
                assert(views_of(toks@)[x as int] == toks@[x as int]@);
                assert(views_of_chars(tsc@) =~= ts.take(x + 1));
            }
            x += 1;
        }
        proof {
            assert(ts.take(toks@.len() as int) =~= ts);
        }
        let mut scores: Vec<u128> = Vec::new();
        let mut i: usize = 0;
        proof {
            assert(ints(scores@) =~= scores_of(ts, docsv).take(0));
        }
        while i < self.docs.len()
            invariant
                i <= self.docs@.len(),
                docsv == self@,
                docsv.len() == self.docs@.len(),
                views_of_chars(tsc@) == ts,
                ints(scores@) == scores_of(ts, docsv).take(i as int),
                scores@.len() == i,
            decreases self.docs@.len() - i,
        {
            let title_chars = crate::text::to_chars(self.docs[i].0.as_str());
            let content_chars = crate::text::to_chars(self.docs[i].1.as_str());
            let sc = score_exec(&tsc, &title_chars, &content_chars);
            let ghost prev = scores@;
            scores.push(sc);
            proof {
                assert(docsv[i as int] == (self.docs@[i as int].0@, self.docs@[i as int].1@));
                assert(scores_of(ts, docsv)[i as int] == score(ts, docsv[i as int].0, docsv[i as int].1));
                assert(ints(scores@) =~= ints(prev).push(sc as int));
                assert(ints(scores@) =~= scores_of(ts, docsv).take(i + 1));
            }
            i += 1;
        }
        proof {
            assert(scores_of(ts, docsv).take(docsv.len() as int) =~= scores_of(ts, docsv));
        }
        let ghost s0 = scores_of(ts, docsv);
        let ghost full = topk(docsv, s0, limit as int);
        let mut out: Vec<SearchResult> = Vec::new();
        let mut picked: usize = 0;
        let ghost mut picked_docs = Seq::<(Seq<char>, Seq<char>)>::empty();
        proof {
            assert(picked_docs + topk(docsv, ints(scores@), limit as int) =~= full);
            assert(out@.map_values(|sr: SearchResult| (sr.title@, sr.content_text@))
                =~= picked_docs.map_values(|d: (Seq<char>, Seq<char>)| (d.0, snippet_of(ts, d.1))));
        }
        loop
            invariant
                picked <= limit,
                docsv == self@,
                docsv.len() == self.docs@.len(),
                scores@.len() == docsv.len(),
                views_of_chars(tsc@) == ts,
                ts == tokens(query@),
                ts.len() >= 1,
                full == topk(docsv, scores_of(ts, docsv), limit as int),
                full == picked_docs + topk(docsv, ints(scores@), limit as int - picked as int),
                out@.map_values(|sr: SearchResult| (sr.title@, sr.content_text@))
                    == picked_docs.map_values(
                    |d: (Seq<char>, Seq<char>)| (d.0, snippet_of(ts, d.1)),
                ),
            decreases limit - picked,
        {
            if picked == limit || self.docs.len() == 0 {
                proof {
                    assert(topk(docsv, ints(scores@), limit as int - picked as int)
                        =~= Seq::<(Seq<char>, Seq<char>)>::empty());
                    assert(full =~= picked_docs);
                    assert(search_spec(docsv, query@, limit as int) == full.map_values(
                        |d: (Seq<char>, Seq<char>)| (d.0, snippet_of(ts, d.1)),
                    ));
                }
                return Ok(out);
            }
            let b = pick_best(&scores);
            proof {
                lemma_pick_from(ints(scores@), 0);
            }
            if scores[b] == 0 {
                proof {
                    assert(ints(scores@)[b as int] == scores@[b as int] as int);
                    assert(topk(docsv, ints(scores@), limit as int - picked as int)
                        =~= Seq::<(Seq<char>, Seq<char>)>::empty());
                    assert(full =~= picked_docs);
                    assert(search_spec(docsv, query@, limit as int) == full.map_values(
                        |d: (Seq<char>, Seq<char>)| (d.0, snippet_of(ts, d.1)),
                    ));
                }
                return Ok(out);
            }
            let ghost cur = ints(scores@);
            proof {
                assert(cur[b as int] == scores@[b as int] as int);
                assert(cur[b as int] > 0);
                assert(topk(docsv, cur, limit as int - picked as int) =~= seq![
                    docsv[b as int],
                ] + topk(docsv, cur.update(b as int, 0), limit as int - picked as int - 1));
            }
            let ghost prev_out = out@;
            let snippet = snippet_exec(&tsc, self.docs[b].1.as_str());
            out.push(SearchResult { title: self.docs[b].0.clone(), content_text: snippet });
            let ghost prev_scores = scores@;
            scores[b] = 0;
            picked += 1;
            proof {
                assert(docsv[b as int] == (self.docs@[b as int].0@, self.docs@[b as int].1@));
                picked_docs = picked_docs.push(docsv[b as int]);
                assert(scores@ == prev_scores.update(b as int, 0u128));
                assert(ints(scores@) =~= cur.update(b as int, 0));
                assert(picked_docs + topk(docsv, ints(scores@), limit as int - picked as int)
                    =~= (picked_docs.drop_last() + (seq![docsv[b as int]] + topk(
                    docsv,
                    cur.update(b as int, 0),
                    limit as int - picked as int,
                ))));
                assert(picked_docs.drop_last() =~= picked_docs.drop_last());
                assert(full == picked_docs + topk(docsv, ints(scores@), limit as int - picked as int));
                assert(out@.map_values(|sr: SearchResult| (sr.title@, sr.content_text@))
                    =~= prev_out.map_values(|sr: SearchResult| (sr.title@, sr.content_text@)).push(
                    (docsv[b as int].0, snippet_of(ts, docsv[b as int].1)),
                ));
                assert(picked_docs.map_values(|d: (Seq<char>, Seq<char>)| (d.0, snippet_of(ts, d.1)))
                    =~= picked_docs.drop_last().map_values(
                    |d: (Seq<char>, Seq<char>)| (d.0, snippet_of(ts, d.1)),
                ).push((docsv[b as int].0, snippet_of(ts, docsv[b as int].1))));
            }
        }
    }
}

} // verus!
