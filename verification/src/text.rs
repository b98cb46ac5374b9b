//! Small text utilities shared by the store, the merger and the index:
//! UTF-8 decoding and encoding of stored bytes, character extraction,
//! string equality, and line splitting and joining.

use vstd::prelude::*;

verus! {

/// Relies on String::from_utf8: `Some` exactly when the bytes are valid
/// UTF-8, and then the decoded characters, unchanged.
#[verifier::external_body]
pub fn try_utf8_to_string(v: Vec<u8>) -> (r: Option<String>)
    ensures
        r is Some <==> vstd::utf8::valid_utf8(v@),
        r is Some ==> r->0@ == vstd::utf8::decode_utf8(v@),
{
    String::from_utf8(v).ok()
}

/// The characters of a string, as a vector.
pub fn to_chars(s: &str) -> (r: Vec<char>)
    ensures
        r@ == s@,
{
    let n = s.unicode_len();
    let mut r: Vec<char> = Vec::new();
    let mut i: usize = 0;
    while i < n
        invariant
            i <= n,
            n == s@.len(),
            r@ == s@.take(i as int),
        decreases n - i,
    {
        r.push(s.get_char(i));
        assert(r@ =~= s@.take(i + 1));
        i += 1;
    }
    assert(r@ =~= s@);
    r
}

/// A byte-for-byte copy.
pub fn clone_bytes(v: &Vec<u8>) -> (r: Vec<u8>)
    ensures
        r@ == v@,
{
    let mut r: Vec<u8> = Vec::new();
    let mut i: usize = 0;
    while i < v.len()
        invariant
            i <= v@.len(),
            r@ == v@.take(i as int),
        decreases v@.len() - i,
    {
        r.push(v[i]);
        assert(r@ =~= v@.take(i + 1));
        i += 1;
    }
    assert(r@ =~= v@);
    r
}

/// Whether two strings hold the same characters.
pub fn str_eq(a: &str, b: &str) -> (r: bool)
    ensures
        r == (a@ == b@),
{
    let ab = a.as_bytes_vec();
    let bb = b.as_bytes_vec();
    let r = ab == bb;
    proof {
        vstd::utf8::encode_utf8_decode_utf8(a@);
        vstd::utf8::encode_utf8_decode_utf8(b@);
        if r {
            assert(ab@ =~= bb@);
            assert(a@ == b@);
        } else if a@ == b@ {
            assert(ab@ =~= bb@);
            assert(false);
        }
    }
    r
}

/// The UTF-8 bytes of a string.
pub fn str_to_bytes(s: &str) -> (r: Vec<u8>)
    ensures
        r@ == vstd::utf8::encode_utf8(s@),
{
    s.as_bytes_vec()
}

/// A string with exactly the given characters.
pub fn chars_to_string(v: &Vec<char>) -> (r: String)
    ensures
        r@ == v@,
{
    let bytes = encode_chars(v);
    proof {
        vstd::utf8::encode_utf8_valid_utf8(v@);
        vstd::utf8::encode_utf8_decode_utf8(v@);
    }
    let r = try_utf8_to_string(bytes);
    match r {
        Some(s) => s,
        None => {
            proof {
                assert(false);
            }
            String::new()
        },
    }
}

/// The UTF-8 encoding of a character sequence, built scalar by scalar.
fn encode_chars(v: &Vec<char>) -> (r: Vec<u8>)
    ensures
        r@ == vstd::utf8::encode_utf8(v@),
{
    let mut r: Vec<u8> = Vec::new();
    let mut i: usize = 0;
    while i < v.len()
        invariant
            i <= v@.len(),
            r@ == vstd::utf8::encode_utf8(v@.take(i as int)),
        decreases v@.len() - i,
    {
        let c = v[i];
        push_scalar(&mut r, c);
        proof {
            lemma_encode_utf8_snoc(v@.take(i as int), c);
            assert(v@.take(i + 1) =~= v@.take(i as int).push(c));
        }
        i += 1;
    }
    proof {
        assert(v@.take(v@.len() as int) =~= v@);
    }
    r
}

proof fn lemma_encode_utf8_snoc(s: Seq<char>, c: char)
    ensures
        vstd::utf8::encode_utf8(s.push(c)) == vstd::utf8::encode_utf8(s)
            + vstd::utf8::encode_scalar(c as u32),
    decreases s.len(),
{
    if s.len() == 0 {
        assert(s.push(c).drop_first() =~= Seq::<char>::empty());
        assert(vstd::utf8::encode_utf8(s.push(c).drop_first()) =~= Seq::<u8>::empty());
        assert(vstd::utf8::encode_utf8(s.push(c)) =~= vstd::utf8::encode_scalar(c as u32));
        assert(vstd::utf8::encode_utf8(s) =~= Seq::<u8>::empty());
        assert(vstd::utf8::encode_utf8(s) + vstd::utf8::encode_scalar(c as u32)
            =~= vstd::utf8::encode_scalar(c as u32));
    } else {
        assert(s.push(c).drop_first() =~= s.drop_first().push(c));
        lemma_encode_utf8_snoc(s.drop_first(), c);
        assert(vstd::utf8::encode_utf8(s.push(c)) == vstd::utf8::encode_scalar(s[0] as u32)
            + (vstd::utf8::encode_utf8(s.drop_first()) + vstd::utf8::encode_scalar(c as u32)));
        assert(vstd::utf8::encode_scalar(s[0] as u32) + (vstd::utf8::encode_utf8(s.drop_first())
            + vstd::utf8::encode_scalar(c as u32)) =~= (vstd::utf8::encode_scalar(s[0] as u32)
            + vstd::utf8::encode_utf8(s.drop_first())) + vstd::utf8::encode_scalar(c as u32));
    }
}

/// The index of the first newline in `s`, or `s.len()` if there is none.
pub open spec fn first_nl(s: Seq<char>) -> int
    decreases s.len(),
{
    if s.len() == 0 {
        0
    } else if s[0] == '\n' {
        0
    } else {
        1 + first_nl(s.drop_first())
    }
}

pub proof fn lemma_first_nl(s: Seq<char>)
    ensures
        0 <= first_nl(s) <= s.len(),
        first_nl(s) < s.len() ==> s[first_nl(s)] == '\n',
        forall|j: int| 0 <= j < first_nl(s) ==> s[j] != '\n',
    decreases s.len(),
{
    if s.len() > 0 && s[0] != '\n' {
        lemma_first_nl(s.drop_first());
        assert forall|j: int| 0 <= j < first_nl(s) implies s[j] != '\n' by {
            if j > 0 {
                assert(s.drop_first()[j - 1] == s[j]);
            }
        }
    }
}

/// The lines of a text: the chunks between newline characters.  A text is
/// always at least one line; a trailing newline yields a final empty line,
/// so that `join_lines` restores the text exactly.
pub open spec fn split_lines(s: Seq<char>) -> Seq<Seq<char>>
    decreases s.len(),
    via split_lines_decreases
{
    let i = first_nl(s);
    if i == s.len() {
        seq![s]
    } else {
        seq![s.take(i)] + split_lines(s.skip(i + 1))
    }
}

#[via_fn]
proof fn split_lines_decreases(s: Seq<char>) {
    lemma_first_nl(s);
}

/// The text with the given lines, a newline between each two.
pub open spec fn join_lines(ls: Seq<Seq<char>>) -> Seq<char>
    decreases ls.len(),
{
    if ls.len() == 0 {
        Seq::<char>::empty()
    } else if ls.len() == 1 {
        ls[0]
    } else {
        ls[0] + seq!['\n'] + join_lines(ls.drop_first())
    }
}

pub proof fn lemma_split_lines_len(s: Seq<char>)
    ensures
        split_lines(s).len() >= 1,
    decreases s.len(),
{
    lemma_first_nl(s);
    let i = first_nl(s);
    if i != s.len() {
        lemma_split_lines_len(s.skip(i + 1));
    }
}

/// Splitting a text into lines and joining them again restores the text.
pub proof fn lemma_join_split_lines(s: Seq<char>)
    ensures
        join_lines(split_lines(s)) == s,
    decreases s.len(),
{
    lemma_first_nl(s);
    let i = first_nl(s);
    if i == s.len() {
        assert(join_lines(split_lines(s)) =~= s);
    } else {
        lemma_split_lines_len(s.skip(i + 1));
        lemma_join_split_lines(s.skip(i + 1));
        assert((seq![s.take(i)] + split_lines(s.skip(i + 1))).drop_first() =~= split_lines(
            s.skip(i + 1),
        ));
        assert(s.take(i) + seq!['\n'] + s.skip(i + 1) =~= s);
    }
}

/// The views of a vector of strings.
pub open spec fn views_of(ls: Seq<String>) -> Seq<Seq<char>> {
    ls.map_values(|l: String| l@)
}

/// Split a text into its lines.
pub fn split_lines_exec(s: &str) -> (r: Vec<String>)
    ensures
        views_of(r@) == split_lines(s@),
{
    let n = s.unicode_len();
    let mut r: Vec<String> = Vec::new();
    let mut start: usize = 0;
    proof {
        assert(s@.skip(0) =~= s@);
        assert(views_of(r@) + split_lines(s@.skip(0)) =~= split_lines(s@));
    }
    loop
        invariant
            start <= n,
            n == s@.len(),
            split_lines(s@) == views_of(r@) + split_lines(s@.skip(start as int)),
        decreases n - start,
    {
        proof {
            lemma_first_nl(s@.skip(start as int));
        }
        let mut j: usize = start;
        while j < n && s.get_char(j) != '\n'
            invariant
                start <= j <= n,
                n == s@.len(),
                forall|k: int| start <= k < j ==> s@[k] != '\n',
            decreases n - j,
        {
            j += 1;
        }
        proof {
            assert(s@.skip(start as int).take(j - start) =~= s@.subrange(start as int, j as int));
            if j < n {
                assert(s@.skip(start as int)[j - start] == s@[j as int]);
            }
            assert(first_nl(s@.skip(start as int)) == j - start) by {
                let rem = s@.skip(start as int);
                lemma_first_nl(rem);
                if first_nl(rem) < j - start {
                    assert(s@[start + first_nl(rem)] == rem[first_nl(rem)]);
                }
                if first_nl(rem) > j - start {
                    assert(rem[j - start] == s@[j as int]);
                }
            }
        }
        let ghost prev = r@;
        let piece = s.substring_char(start, j).to_owned();
        r.push(piece);
        proof {
            assert(views_of(r@) =~= views_of(prev).push(s@.subrange(start as int, j as int)));
        }
        if j == n {
            proof {
                assert(s@.skip(start as int).take(j - start) =~= s@.skip(start as int));
                assert(split_lines(s@.skip(start as int)) =~= seq![s@.skip(start as int)]);
                assert(s@.subrange(start as int, j as int) =~= s@.skip(start as int));
                assert(views_of(prev) + split_lines(s@.skip(start as int)) =~= views_of(r@));
                assert(split_lines(s@) =~= views_of(r@));
            }
            return r;
        }
        proof {
            let rem = s@.skip(start as int);
            assert(split_lines(rem) =~= seq![rem.take(j - start)] + split_lines(
                rem.skip(j - start + 1),
            ));
            assert(rem.skip(j - start + 1) =~= s@.skip(j + 1));
            assert(views_of(r@) + split_lines(s@.skip(j + 1)) =~= views_of(prev) + (seq![
                rem.take(j - start),
            ] + split_lines(rem.skip(j - start + 1))));
        }
        start = j + 1;
    }
}

/// Join lines into a text, a newline between each two.
pub fn join_lines_exec(ls: &Vec<String>) -> (r: String)
    ensures
        r@ == join_lines(views_of(ls@)),
{
    let mut r = String::new();
    if ls.len() == 0 {
        return r;
    }
    let mut i: usize = 0;
    while i < ls.len()
        invariant
            i <= ls@.len(),
            ls@.len() > 0,
            r@ == join_lines(views_of(ls@.take(i as int))) + if i == 0 || i == ls@.len() {
                Seq::<char>::empty()
            } else {
                seq!['\n']
            },
            i > 0 && i < ls@.len() ==> r@ == join_lines(views_of(ls@.take(i as int)))
                + seq!['\n'],
        decreases ls@.len() - i,
    {
        r.append(ls[i].as_str());
        proof {
            lemma_join_snoc(views_of(ls@.take(i as int)), ls@[i as int]@);
            assert(views_of(ls@.take(i + 1)) =~= views_of(ls@.take(i as int)).push(
                ls@[i as int]@,
            ));
        }
        if i + 1 < ls.len() {
            r.append("\n");
            proof {
                reveal_strlit("\n");
                assert("\n"@ =~= seq!['\n']);
            }
        }
        i += 1;
    }
    proof {
        assert(ls@.take(ls@.len() as int) =~= ls@);
    }
    r
}

proof fn lemma_join_snoc(ls: Seq<Seq<char>>, l: Seq<char>)
    ensures
        ls.len() == 0 ==> join_lines(ls.push(l)) == l,
        ls.len() > 0 ==> join_lines(ls.push(l)) == join_lines(ls) + seq!['\n'] + l,
    decreases ls.len(),
{
    if ls.len() == 0 {
        assert(join_lines(ls.push(l)) =~= l);
    } else if ls.len() == 1 {
        assert(ls.push(l).drop_first() =~= seq![l]);
        assert(ls.push(l)[0] == ls[0]);
        assert(join_lines(seq![l]) == l);
        assert(join_lines(ls.push(l)) =~= ls[0] + seq!['\n'] + l);
        assert(join_lines(ls) =~= ls[0]);
    } else {
        assert(ls.push(l).drop_first() =~= ls.drop_first().push(l));
        lemma_join_snoc(ls.drop_first(), l);
        assert(join_lines(ls.push(l)) =~= ls[0] + seq!['\n'] + join_lines(
            ls.drop_first().push(l),
        ));
        assert(ls[0] + seq!['\n'] + (join_lines(ls.drop_first()) + seq!['\n'] + l) =~= (ls[0]
            + seq!['\n'] + join_lines(ls.drop_first())) + seq!['\n'] + l);
    }
}

/// Append the UTF-8 encoding of one character, byte for byte as
/// `encode_scalar` describes it.
fn push_scalar(r: &mut Vec<u8>, c: char)
    ensures
        final(r)@ == old(r)@ + vstd::utf8::encode_scalar(c as u32),
{
    proof {
        vstd::utf8::char_is_scalar(c);
    }
    let u = c as u32;
    if u <= 0x7F {
        r.push((u & 0x7F) as u8);
        assert(r@ =~= old(r)@ + vstd::utf8::encode_scalar(c as u32));
    } else if u <= 0x7FF {
        r.push(0xC0 | ((u >> 6) & 0x1F) as u8);
        r.push(0x80 | (u & 0x3F) as u8);
        assert(r@ =~= old(r)@ + vstd::utf8::encode_scalar(c as u32));
    } else if u <= 0xFFFF {
        r.push(0xE0 | ((u >> 12) & 0x0F) as u8);
        r.push(0x80 | ((u >> 6) & 0x3F) as u8);
        r.push(0x80 | (u & 0x3F) as u8);
        assert(r@ =~= old(r)@ + vstd::utf8::encode_scalar(c as u32));
    } else {
        r.push(0xF0 | ((u >> 18) & 0x7) as u8);
        r.push(0x80 | ((u >> 12) & 0x3F) as u8);
        r.push(0x80 | ((u >> 6) & 0x3F) as u8);
        r.push(0x80 | (u & 0x3F) as u8);
        assert(r@ =~= old(r)@ + vstd::utf8::encode_scalar(c as u32));
    }
}

} // verus!
