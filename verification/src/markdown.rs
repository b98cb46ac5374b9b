//! What the markdown renderer needs from the engine: the anchor
//! identifier a heading is addressed by.

use vstd::prelude::*;

verus! {

/// The anchor identifier of a heading: a fixed prefix, then the heading
/// with spaces turned into dashes.
pub open spec fn spec_title_to_id(title: Seq<char>) -> Seq<char> {
    "u-"@ + title.map_values(
        |c: char|
            if c == ' ' {
                '-'
            } else {
                c
            },
    )
}

/// The anchor identifier of a heading.
pub fn title_to_id(title: &str) -> (r: String)
    ensures
        r@ == spec_title_to_id(title@),
{
    proof {
        reveal_strlit("u-");
    }
    let chars = crate::text::to_chars(title);
    let mut out: Vec<char> = Vec::new();
    out.push('u');
    out.push('-');
    let ghost prefix = out@;
    proof {
        assert(prefix =~= "u-"@);
    }
    let mut i: usize = 0;
    while i < chars.len()
        invariant
            i <= chars@.len(),
            chars@ == title@,
            prefix == "u-"@,
            out@ == prefix + title@.take(i as int).map_values(
                |c: char|
                    if c == ' ' {
                        '-'
                    } else {
                        c
                    },
            ),
        decreases chars@.len() - i,
    {
        let c = chars[i];
        let ghost prev = out@;
        if c == ' ' {
            out.push('-');
        } else {
            out.push(c);
        }
        proof {
            assert(title@.take(i + 1).map_values(
                |c: char|
                    if c == ' ' {
                        '-'
                    } else {
                        c
                    },
            ) =~= title@.take(i as int).map_values(
                |c: char|
                    if c == ' ' {
                        '-'
                    } else {
                        c
                    },
            ).push(
                if title@[i as int] == ' ' {
                    '-'
                } else {
                    title@[i as int]
                },
            ));
            assert(out@ =~= prev.push(
                if title@[i as int] == ' ' {
                    '-'
                } else {
                    title@[i as int]
                },
            ));
        }
        i += 1;
    }
    proof {
        assert(title@.take(title@.len() as int) =~= title@);
        assert(out@ =~= spec_title_to_id(title@));
    }
    crate::text::chars_to_string(&out)
}

} // verus!
