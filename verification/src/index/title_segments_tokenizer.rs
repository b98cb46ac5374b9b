//! The title tokenizer: a hierarchical title is cut at its slashes into
//! segments, empty segments dropped, so that a query can address one
//! path segment independent of its depth.

use vstd::prelude::*;

use crate::text::views_of;

verus! {

/// The length of the leading run of non-slash characters.
pub open spec fn first_slash(s: Seq<char>) -> int
    decreases s.len(),
{
    if s.len() == 0 {
        0
    } else if s[0] == '/' {
        0
    } else {
        1 + first_slash(s.drop_first())
    }
}

pub proof fn lemma_first_slash(s: Seq<char>)
    ensures
        0 <= first_slash(s) <= s.len(),
        first_slash(s) < s.len() ==> s[first_slash(s)] == '/',
        forall|j: int| 0 <= j < first_slash(s) ==> s[j] != '/',
    decreases s.len(),
{
    if s.len() > 0 && s[0] != '/' {
        lemma_first_slash(s.drop_first());
        assert forall|j: int| 0 <= j < first_slash(s) implies s[j] != '/' by {
            if j > 0 {
                assert(s.drop_first()[j - 1] == s[j]);
            }
        }
    }
}

/// The non-empty segments of a slash-delimited title, in order.
pub open spec fn segments(s: Seq<char>) -> Seq<Seq<char>>
    decreases s.len(),
    via segments_decreases
{
    if s.len() == 0 {
        Seq::<Seq<char>>::empty()
    } else if s[0] == '/' {
        segments(s.drop_first())
    } else {
        let e = first_slash(s);
        seq![s.take(e)] + segments(s.skip(e))
    }
}

#[via_fn]
proof fn segments_decreases(s: Seq<char>) {
    lemma_first_slash(s);
    if s.len() > 0 && s[0] != '/' {
        assert(first_slash(s) >= 1);
    }
}

/// The tokenizer over hierarchical titles.
pub struct TitleSegmentsTokenizer;

impl TitleSegmentsTokenizer {
    /// The segments of a title, in order, empty ones dropped.
    pub fn segments(text: &str) -> (r: Vec<String>)
        ensures
            views_of(r@) == segments(text@),
    {
        let chars = crate::text::to_chars(text);
        let n = chars.len();
        let mut r: Vec<String> = Vec::new();
        let mut pos: usize = 0;
        proof {
            assert(chars@.skip(0) =~= chars@);
            assert(views_of(r@) + segments(chars@.skip(0)) =~= segments(chars@));
        }
        while pos < n
            invariant
                pos <= n,
                n == chars@.len(),
                chars@ == text@,
                segments(text@) == views_of(r@) + segments(chars@.skip(pos as int)),
            decreases n - pos,
        {
            proof {
                assert(chars@.skip(pos as int)[0] == chars@[pos as int]);
            }
            if chars[pos] == '/' {
                proof {
                    assert(chars@.skip(pos as int).drop_first() =~= chars@.skip(pos + 1));
                }
                pos += 1;
            } else {
                let ghost rem = chars@.skip(pos as int);
                let mut e: usize = pos;
                while e < n && chars[e] != '/'
                    invariant
                        pos <= e <= n,
                        n == chars@.len(),
                        forall|k: int| pos <= k < e ==> chars@[k] != '/',
                    decreases n - e,
                {
                    e += 1;
                }
                proof {
                    assert(first_slash(rem) == e - pos) by {
                        lemma_first_slash(rem);
                        if first_slash(rem) < e - pos {
                            assert(rem[first_slash(rem)] == chars@[pos + first_slash(rem)]);
                        }
                        if first_slash(rem) > e - pos {
                            assert(e < n);
                            assert(rem[e - pos] == chars@[e as int]);
                        }
                    }
                }
                let piece = text.substring_char(pos, e).to_owned();
                let ghost prevr = r@;
                r.push(piece);
                proof {
                    assert(rem.take(e - pos) =~= chars@.subrange(pos as int, e as int));
                    assert(rem.skip(e - pos) =~= chars@.skip(e as int));
                    assert(views_of(r@) =~= views_of(prevr).push(
                        chars@.subrange(pos as int, e as int),
                    ));
                    assert(views_of(r@) + segments(chars@.skip(e as int)) =~= views_of(prevr) + (
                    seq![rem.take(e - pos)] + segments(rem.skip(e - pos))));
                }
                pos = e;
            }
        }
        proof {
            assert(chars@.skip(n as int) =~= Seq::<char>::empty());
            assert(segments(chars@.skip(n as int)) =~= Seq::<Seq<char>>::empty());
            assert(views_of(r@) =~= segments(text@));
        }
        r
    }
}

} // verus!
