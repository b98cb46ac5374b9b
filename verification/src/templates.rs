//! Data the page templates are rendered from, as far as the engine
//! computes it: the clickable segments of a hierarchical title.

use vstd::prelude::*;

use crate::index::title_segments_tokenizer_segments as segments_spec;

verus! {

/// One clickable segment of a title: the path up to and including the
/// segment, and the segment's own name.
pub struct TitleSegment {
    pub relative_url: String,
    pub segment_name: String,
}

/// The path addressing the segments up to index `k`, slash-joined.
pub open spec fn joined_prefix(ss: Seq<Seq<char>>, k: int) -> Seq<char>
    decreases k,
{
    if k <= 0 {
        ss[0]
    } else {
        joined_prefix(ss, k - 1) + seq!['/'] + ss[k]
    }
}

/// The clickable segments of a title, in order: each carries its own
/// name and the slash-joined path up to it.
pub fn segment_title(title: &str) -> (r: Vec<TitleSegment>)
    ensures
        r@.map_values(|t: TitleSegment| t.segment_name@) == segments_spec(title@),
        forall|k: int|
            0 <= k < r@.len() ==> (#[trigger] r@[k]).relative_url@ == joined_prefix(
                segments_spec(title@),
                k,
            ),
{
    let ghost ss = segments_spec(title@);
    let segs = crate::index::TitleSegmentsTokenizer::segments(title);
    let mut r: Vec<TitleSegment> = Vec::new();
    let mut acc = String::new();
    let mut i: usize = 0;
    proof {
        assert(r@.map_values(|t: TitleSegment| t.segment_name@) =~= ss.take(0));
    }
    while i < segs.len()
        invariant
            i <= segs@.len(),
            crate::text::views_of(segs@) == ss,
            r@.map_values(|t: TitleSegment| t.segment_name@) == ss.take(i as int),
            r@.len() == i,
            i > 0 ==> acc@ == joined_prefix(ss, i - 1),
            forall|k: int|
                0 <= k < i ==> (#[trigger] r@[k]).relative_url@ == joined_prefix(ss, k),
        decreases segs@.len() - i,
    {
        proof {
            assert(ss[i as int] == segs@[i as int]@);
        }
        if i == 0 {
            acc = segs[0].clone();
        } else {
            acc.append("/");
            acc.append(segs[i].as_str());
            proof {
                reveal_strlit("/");
                assert("/"@ =~= seq!['/']);
            }
        }
        proof {
            assert(acc@ == joined_prefix(ss, i as int));
        }
        let ghost prev = r@;
        r.push(TitleSegment { relative_url: acc.clone(), segment_name: segs[i].clone() });
        proof {
            assert(r@.map_values(|t: TitleSegment| t.segment_name@) =~= prev.map_values(
                |t: TitleSegment| t.segment_name@,
            ).push(ss[i as int]));
            assert(r@.map_values(|t: TitleSegment| t.segment_name@) =~= ss.take(i + 1));
        }
        i += 1;
    }
    proof {
        assert(ss.take(ss.len() as int) =~= ss);
    }
    r
}

} // verus!
