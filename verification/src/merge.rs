//! The three-way, line-based text merge: a pure function of the ancestor,
//! ours and theirs texts, independent of the storage layer.  The texts are
//! split into lines; runs of lines are aligned on lines common to all
//! three, and between two aligned points a run changed on one side only is
//! taken from that side, while a run changed differently on both sides is
//! a conflict.

use vstd::prelude::*;

use crate::text::{join_lines, split_lines, views_of};

verus! {

/// The first index at or after `from` whose line equals `line`, or the
/// length if there is none.
pub open spec fn find_from(xs: Seq<Seq<char>>, from: int, line: Seq<char>) -> int
    decreases xs.len() - from,
{
    if from < 0 || from >= xs.len() {
        xs.len() as int
    } else if xs[from] == line {
        from
    } else {
        find_from(xs, from + 1, line)
    }
}

pub proof fn lemma_find_from(xs: Seq<Seq<char>>, from: int, line: Seq<char>)
    requires
        0 <= from <= xs.len(),
    ensures
        from <= find_from(xs, from, line) <= xs.len(),
        find_from(xs, from, line) < xs.len() ==> xs[find_from(xs, from, line)] == line,
        forall|m: int| from <= m < find_from(xs, from, line) ==> xs[m] != line,
    decreases xs.len() - from,
{
    if from < xs.len() && xs[from] != line {
        lemma_find_from(xs, from + 1, line);
    }
}

/// The next alignment point at or after `(i, j, k)`: the first ancestor
/// index whose line also occurs, at its first position, in both remaining
/// sides; or the three ends if no ancestor line does.
pub open spec fn next_sync(
    a: Seq<Seq<char>>,
    o: Seq<Seq<char>>,
    t: Seq<Seq<char>>,
    i: int,
    j: int,
    k: int,
) -> (int, int, int)
    decreases a.len() - i,
{
    if i < 0 || i >= a.len() {
        (a.len() as int, o.len() as int, t.len() as int)
    } else {
        let j2 = find_from(o, j, a[i]);
        let k2 = find_from(t, k, a[i]);
        if j2 < o.len() && k2 < t.len() {
            (i, j2, k2)
        } else {
            next_sync(a, o, t, i + 1, j, k)
        }
    }
}

pub proof fn lemma_next_sync(
    a: Seq<Seq<char>>,
    o: Seq<Seq<char>>,
    t: Seq<Seq<char>>,
    i: int,
    j: int,
    k: int,
)
    requires
        0 <= i <= a.len(),
        0 <= j <= o.len(),
        0 <= k <= t.len(),
    ensures
        ({
            let (i2, j2, k2) = next_sync(a, o, t, i, j, k);
            &&& i <= i2 <= a.len()
            &&& j <= j2 <= o.len()
            &&& k <= k2 <= t.len()
            &&& (i2 < a.len() ==> j2 < o.len() && k2 < t.len() && o[j2] == a[i2] && t[k2] == a[i2])
            &&& (i2 == a.len() ==> j2 == o.len() && k2 == t.len())
        }),
    decreases a.len() - i,
{
    if 0 <= i < a.len() {
        lemma_find_from(o, j, a[i]);
        lemma_find_from(t, k, a[i]);
        let j2 = find_from(o, j, a[i]);
        let k2 = find_from(t, k, a[i]);
        if !(j2 < o.len() && k2 < t.len()) {
            lemma_next_sync(a, o, t, i + 1, j, k);
        }
    }
}

/// One aligned run: kept when at most one side changed it, or when both
/// sides changed it the same way; a conflict otherwise.
pub open spec fn resolve_chunk(
    ca: Seq<Seq<char>>,
    co: Seq<Seq<char>>,
    ct: Seq<Seq<char>>,
) -> Option<Seq<Seq<char>>> {
    if co == ca {
        Some(ct)
    } else if ct == ca {
        Some(co)
    } else if co == ct {
        Some(co)
    } else {
        None
    }
}

/// The merged lines from `(i, j, k)` on, or `None` on a conflict.
pub open spec fn merge_rec(
    a: Seq<Seq<char>>,
    o: Seq<Seq<char>>,
    t: Seq<Seq<char>>,
    i: int,
    j: int,
    k: int,
) -> Option<Seq<Seq<char>>>
    decreases (a.len() - i) + (o.len() - j) + (t.len() - k),
    via merge_rec_decreases
{
    if !(0 <= i <= a.len() && 0 <= j <= o.len() && 0 <= k <= t.len()) {
        None
    } else if i == a.len() && j == o.len() && k == t.len() {
        Some(Seq::<Seq<char>>::empty())
    } else if i < a.len() && j < o.len() && k < t.len() && a[i] == o[j] && o[j] == t[k] {
        match merge_rec(a, o, t, i + 1, j + 1, k + 1) {
            Some(rest) => Some(seq![o[j]] + rest),
            None => None,
        }
    } else {
        let (i2, j2, k2) = next_sync(a, o, t, i, j, k);
        match resolve_chunk(a.subrange(i, i2), o.subrange(j, j2), t.subrange(k, k2)) {
            None => None,
            Some(ch) => {
                if i2 == a.len() {
                    Some(ch)
                } else {
                    match merge_rec(a, o, t, i2 + 1, j2 + 1, k2 + 1) {
                        Some(rest) => Some(ch + seq![a[i2]] + rest),
                        None => None,
                    }
                }
            },
        }
    }
}

#[via_fn]
proof fn merge_rec_decreases(
    a: Seq<Seq<char>>,
    o: Seq<Seq<char>>,
    t: Seq<Seq<char>>,
    i: int,
    j: int,
    k: int,
) {
    if 0 <= i <= a.len() && 0 <= j <= o.len() && 0 <= k <= t.len() {
        lemma_next_sync(a, o, t, i, j, k);
    }
}

/// The merged text of a three-way line merge, or `None` on a conflict.
/// An absent ancestor merges as an ancestor with no lines at all.
pub open spec fn spec_merge(a: Option<Seq<char>>, o: Seq<char>, t: Seq<char>) -> Option<Seq<char>> {
    spec_merge_docs(a, Some(o), t)
}

/// The merge over possibly absent documents: a side that has no document
/// takes part with no lines at all, as in a structural tree merge — a
/// document absent on both the ancestor and our side is simply taken
/// from theirs, and one deleted on our side but changed on theirs is a
/// conflict.
pub open spec fn spec_merge_docs(
    a: Option<Seq<char>>,
    o: Option<Seq<char>>,
    t: Seq<char>,
) -> Option<Seq<char>> {
    let al = match a {
        Some(x) => split_lines(x),
        None => Seq::<Seq<char>>::empty(),
    };
    let ol = match o {
        Some(x) => split_lines(x),
        None => Seq::<Seq<char>>::empty(),
    };
    match merge_rec(al, ol, split_lines(t), 0, 0, 0) {
        None => None,
        Some(ls) => Some(join_lines(ls)),
    }
}

/// The first index at or after `from` whose line equals `line`.
fn find_from_exec(xs: &Vec<String>, from: usize, line: &str) -> (r: usize)
    requires
        from <= xs@.len(),
    ensures
        r == find_from(views_of(xs@), from as int, line@),
        r <= xs@.len(),
{
    let ghost vs = views_of(xs@);
    let n = xs.len();
    let mut cur = from;
    while cur < n
        invariant
            from <= cur <= n,
            n == xs@.len(),
            vs == views_of(xs@),
            find_from(vs, from as int, line@) == find_from(vs, cur as int, line@),
        decreases n - cur,
    {
        proof {
            assert(vs[cur as int] == xs@[cur as int]@);
        }
        if crate::text::str_eq(xs[cur].as_str(), line) {
            return cur;
        }
        cur += 1;
    }
    n
}

/// The next alignment point at or after `(i, j, k)`.
fn next_sync_exec(a: &Vec<String>, o: &Vec<String>, t: &Vec<String>, i: usize, j: usize, k: usize) -> (r: (
    usize,
    usize,
    usize,
))
    requires
        i <= a@.len(),
        j <= o@.len(),
        k <= t@.len(),
    ensures
        (r.0 as int, r.1 as int, r.2 as int) == next_sync(
            views_of(a@),
            views_of(o@),
            views_of(t@),
            i as int,
            j as int,
            k as int,
        ),
{
    let ghost av = views_of(a@);
    let ghost ov = views_of(o@);
    let ghost tv = views_of(t@);
    let la = a.len();
    let mut cur = i;
    while cur < la
        invariant
            i <= cur <= la,
            la == a@.len(),
            j <= o@.len(),
            k <= t@.len(),
            av == views_of(a@),
            ov == views_of(o@),
            tv == views_of(t@),
            next_sync(av, ov, tv, i as int, j as int, k as int) == next_sync(
                av,
                ov,
                tv,
                cur as int,
                j as int,
                k as int,
            ),
        decreases la - cur,
    {
        proof {
            assert(av[cur as int] == a@[cur as int]@);
        }
        let j2 = find_from_exec(o, j, a[cur].as_str());
        let k2 = find_from_exec(t, k, a[cur].as_str());
        if j2 < o.len() && k2 < t.len() {
            return (cur, j2, k2);
        }
        cur += 1;
    }
    (la, o.len(), t.len())
}

/// Whether two index ranges of two line vectors hold the same lines.
fn ranges_eq(xs: &Vec<String>, f1: usize, t1: usize, ys: &Vec<String>, f2: usize, t2: usize) -> (r:
    bool)
    requires
        f1 <= t1 <= xs@.len(),
        f2 <= t2 <= ys@.len(),
    ensures
        r == (views_of(xs@).subrange(f1 as int, t1 as int) == views_of(ys@).subrange(
            f2 as int,
            t2 as int,
        )),
{
    let ghost sx = views_of(xs@).subrange(f1 as int, t1 as int);
    let ghost sy = views_of(ys@).subrange(f2 as int, t2 as int);
    if t1 - f1 != t2 - f2 {
        proof {
            assert(sx.len() != sy.len());
        }
        return false;
    }
    let n = t1 - f1;
    let mut d: usize = 0;
    while d < n
        invariant
            d <= n,
            n == t1 - f1 == t2 - f2,
            f1 <= t1 <= xs@.len(),
            f2 <= t2 <= ys@.len(),
            sx == views_of(xs@).subrange(f1 as int, t1 as int),
            sy == views_of(ys@).subrange(f2 as int, t2 as int),
            forall|m: int| 0 <= m < d ==> sx[m] == sy[m],
        decreases n - d,
    {
        proof {
            assert(sx[d as int] == xs@[f1 + d]@);
            assert(sy[d as int] == ys@[f2 + d]@);
        }
        if !crate::text::str_eq(xs[f1 + d].as_str(), ys[f2 + d].as_str()) {
            proof {
                assert(sx[d as int] != sy[d as int]);
            }
            return false;
        }
        d += 1;
    }
    proof {
        assert(sx =~= sy);
    }
    true
}

/// Append clones of an index range of lines.
fn copy_range(out: &mut Vec<String>, xs: &Vec<String>, from: usize, to: usize)
    requires
        from <= to <= xs@.len(),
    ensures
        views_of(final(out)@) == views_of(old(out)@) + views_of(xs@).subrange(
            from as int,
            to as int,
        ),
{
    let mut d: usize = 0;
    let n = to - from;
    while d < n
        invariant
            d <= n,
            n == to - from,
            from <= to <= xs@.len(),
            views_of(out@) == views_of(old(out)@) + views_of(xs@).subrange(
                from as int,
                from + d,
            ),
        decreases n - d,
    {
        let ghost prev = out@;
        out.push(xs[from + d].clone());
        proof {
            assert(views_of(out@) =~= views_of(prev).push(xs@[from + d]@));
            assert(views_of(xs@).subrange(from as int, from + d + 1) =~= views_of(xs@).subrange(
                from as int,
                from + d,
            ).push(xs@[from + d]@));
            assert(views_of(out@) =~= views_of(old(out)@) + views_of(xs@).subrange(
                from as int,
                from + d + 1,
            ));
        }
        d += 1;
    }
    proof {
        assert(views_of(out@) =~= views_of(old(out)@) + views_of(xs@).subrange(
            from as int,
            to as int,
        ));
    }
}

/// Merge three line vectors; `None` on a conflict.
pub fn merge_lines(a: &Vec<String>, o: &Vec<String>, t: &Vec<String>) -> (r: Option<Vec<String>>)
    ensures
        r is Some <==> merge_rec(views_of(a@), views_of(o@), views_of(t@), 0, 0, 0) is Some,
        r is Some ==> views_of(r->0@) == merge_rec(views_of(a@), views_of(o@), views_of(t@), 0, 0, 0)->0,
{
    let ghost av = views_of(a@);
    let ghost ov = views_of(o@);
    let ghost tv = views_of(t@);
    let la = a.len();
    let lo = o.len();
    let lt = t.len();
    let mut i: usize = 0;
    let mut j: usize = 0;
    let mut k: usize = 0;
    let mut out: Vec<String> = Vec::new();
    proof {
        assert(views_of(out@) =~= Seq::<Seq<char>>::empty());
    }
    loop
        invariant
            i <= la,
            j <= lo,
            k <= lt,
            la == a@.len(),
            lo == o@.len(),
            lt == t@.len(),
            av == views_of(a@),
            ov == views_of(o@),
            tv == views_of(t@),
            merge_rec(av, ov, tv, 0, 0, 0) == (match merge_rec(av, ov, tv, i as int, j as int, k as int) {
                Some(rest) => Some(views_of(out@) + rest),
                None => None::<Seq<Seq<char>>>,
            }),
        decreases (la - i) + (lo - j) + (lt - k),
    {
        if i == la && j == lo && k == lt {
            proof {
                assert(merge_rec(av, ov, tv, i as int, j as int, k as int) == Some(
                    Seq::<Seq<char>>::empty(),
                ));
                assert(views_of(out@) + Seq::<Seq<char>>::empty() =~= views_of(out@));
            }
            return Some(out);
        }
        let heads_equal = if i < la && j < lo && k < lt {
            crate::text::str_eq(a[i].as_str(), o[j].as_str()) && crate::text::str_eq(
                o[j].as_str(),
                t[k].as_str(),
            )
        } else {
            false
        };
        proof {
            if i < la && j < lo && k < lt {
                assert(av[i as int] == a@[i as int]@);
                assert(ov[j as int] == o@[j as int]@);
                assert(tv[k as int] == t@[k as int]@);
            }
        }
        if heads_equal {
            let ghost prev = out@;
            out.push(o[j].clone());
            proof {
                assert(views_of(out@) =~= views_of(prev).push(ov[j as int]));
                let rest_opt = merge_rec(av, ov, tv, i + 1, j + 1, k + 1);
                if rest_opt is Some {
                    assert(views_of(prev) + (seq![ov[j as int]] + rest_opt->0) =~= views_of(out@)
                        + rest_opt->0);
                }
            }
            i += 1;
            j += 1;
            k += 1;
        } else {
            proof {
                lemma_next_sync(av, ov, tv, i as int, j as int, k as int);
            }
            let (i2, j2, k2) = next_sync_exec(a, o, t, i, j, k);
            let ghost ca = av.subrange(i as int, i2 as int);
            let ghost co = ov.subrange(j as int, j2 as int);
            let ghost ct = tv.subrange(k as int, k2 as int);
            let ghost prevv = views_of(out@);
            if ranges_eq(o, j, j2, a, i, i2) {
                copy_range(&mut out, t, k, k2);
                proof {
                    assert(resolve_chunk(ca, co, ct) == Some(ct));
                }
            } else if ranges_eq(t, k, k2, a, i, i2) {
                copy_range(&mut out, o, j, j2);
                proof {
                    assert(resolve_chunk(ca, co, ct) == Some(co));
                }
            } else if ranges_eq(o, j, j2, t, k, k2) {
                copy_range(&mut out, o, j, j2);
                proof {
                    assert(resolve_chunk(ca, co, ct) == Some(co));
                }
            } else {
                proof {
                    assert(resolve_chunk(ca, co, ct) is None);
                    assert(merge_rec(av, ov, tv, i as int, j as int, k as int) is None);
                }
                return None;
            }
            let ghost ch = resolve_chunk(ca, co, ct)->0;
            proof {
                assert(views_of(out@) =~= prevv + ch);
            }
            if i2 == la {
                proof {
                    assert(merge_rec(av, ov, tv, i as int, j as int, k as int) == Some(ch));
                }
                return Some(out);
            }
            let ghost prev2 = out@;
            out.push(a[i2].clone());
            proof {
                assert(av[i2 as int] == a@[i2 as int]@);
                assert(views_of(out@) =~= views_of(prev2).push(av[i2 as int]));
                let rest_opt = merge_rec(av, ov, tv, i2 + 1, j2 + 1, k2 + 1);
                if rest_opt is Some {
                    assert(prevv + (ch + seq![av[i2 as int]] + rest_opt->0) =~= views_of(out@)
                        + rest_opt->0);
                }
            }
            i = i2 + 1;
            j = j2 + 1;
            k = k2 + 1;
        }
    }
}

/// The outcome of the three-way merge of one document.
pub enum MergeOutcome {
    /// The sides changed disjoint runs of lines: the combined text.
    Merged(String),
    /// Both sides changed the same run differently.
    Conflict,
}

/// Merge the submitted text (`theirs`) with the document now at head
/// (`ours`) over the document both started from (`ancestor`); either of
/// those two may be absent.
pub fn merge_documents(ancestor: Option<&String>, ours: Option<&String>, theirs: &str) -> (r:
    MergeOutcome)
    ensures
        r is Merged <==> spec_merge_docs(
            match ancestor {
                Some(x) => Some(x@),
                None => None,
            },
            match ours {
                Some(x) => Some(x@),
                None => None,
            },
            theirs@,
        ) is Some,
        r is Merged ==> r->Merged_0@ == spec_merge_docs(
            match ancestor {
                Some(x) => Some(x@),
                None => None,
            },
            match ours {
                Some(x) => Some(x@),
                None => None,
            },
            theirs@,
        )->0,
{
    let al: Vec<String> = match ancestor {
        Some(x) => crate::text::split_lines_exec(x.as_str()),
        None => Vec::new(),
    };
    proof {
        match ancestor {
            Some(x) => {
                assert(views_of(al@) == split_lines(x@));
            },
            None => {
                assert(views_of(al@) =~= Seq::<Seq<char>>::empty());
            },
        }
    }
    let ol: Vec<String> = match ours {
        Some(x) => crate::text::split_lines_exec(x.as_str()),
        None => Vec::new(),
    };
    proof {
        match ours {
            Some(x) => {
                assert(views_of(ol@) == split_lines(x@));
            },
            None => {
                assert(views_of(ol@) =~= Seq::<Seq<char>>::empty());
            },
        }
    }
    let tl = crate::text::split_lines_exec(theirs);
    match merge_lines(&al, &ol, &tl) {
        Some(ls) => MergeOutcome::Merged(crate::text::join_lines_exec(&ls)),
        None => MergeOutcome::Conflict,
    }
}

/// Merge the submitted text (`theirs`) with the text now at head (`ours`)
/// over the text both started from (`ancestor`, absent when the document
/// did not exist there).
pub fn merge_texts(ancestor: Option<&String>, ours: &str, theirs: &str) -> (r: MergeOutcome)
    ensures
        r is Merged <==> spec_merge(
            match ancestor {
                Some(x) => Some(x@),
                None => None,
            },
            ours@,
            theirs@,
        ) is Some,
        r is Merged ==> r->Merged_0@ == spec_merge(
            match ancestor {
                Some(x) => Some(x@),
                None => None,
            },
            ours@,
            theirs@,
        )->0,
{
    let ours_owned = ours.to_owned();
    merge_documents(ancestor, Some(&ours_owned), theirs)
}

} // verus!
