//! Site-relative URLs: a path is normalized and percent-encoded so that
//! every byte outside the unreserved set comes out as a percent escape,
//! a leading slash is kept, trailing slashes are dropped, and empty path
//! elements vanish.

use vstd::prelude::*;

use vstd::utf8::{decode_utf8, encode_utf8, valid_utf8};

verus! {

/// A byte that must be percent-escaped: everything but ASCII letters,
/// digits, `-`, `.`, `_` and `~`.
pub open spec fn spec_needs_escaping(b: u8) -> bool {
    !((48 <= b <= 57) || (65 <= b <= 90) || (97 <= b <= 122) || b == 45 || b == 46 || b == 95
        || b == 126)
}

/// The uppercase hexadecimal digit of a value below 16.
pub open spec fn spec_hex_digit(d: u8) -> u8
    recommends
        d < 16,
{
    if d < 10 {
        (48 + d) as u8
    } else {
        (55 + d) as u8
    }
}

/// The percent-encoding of a byte sequence.
pub open spec fn escape_bytes(data: Seq<u8>) -> Seq<u8>
    decreases data.len(),
{
    if data.len() == 0 {
        Seq::<u8>::empty()
    } else {
        (if spec_needs_escaping(data[0]) {
            seq![37u8, spec_hex_digit(data[0] / 16), spec_hex_digit(data[0] % 16)]
        } else {
            seq![data[0]]
        }) + escape_bytes(data.drop_first())
    }
}

/// Every byte is a slash or needs no escaping.
pub open spec fn all_plain(data: Seq<u8>) -> bool {
    forall|i: int| 0 <= i < data.len() ==> (data[i] == 47 || !spec_needs_escaping(#[trigger] data[i]))
}

/// The sequence with its trailing slashes dropped.
pub open spec fn trim_slashes(s: Seq<u8>) -> Seq<u8>
    decreases s.len(),
{
    if s.len() > 0 && s.last() == 47 {
        trim_slashes(s.drop_last())
    } else {
        s
    }
}

/// The index of the first slash, or the length.
pub open spec fn first_slash_b(s: Seq<u8>) -> int
    decreases s.len(),
{
    if s.len() == 0 {
        0
    } else if s[0] == 47 {
        0
    } else {
        1 + first_slash_b(s.drop_first())
    }
}

pub proof fn lemma_first_slash_b(s: Seq<u8>)
    ensures
        0 <= first_slash_b(s) <= s.len(),
        first_slash_b(s) < s.len() ==> s[first_slash_b(s)] == 47,
        forall|j: int| 0 <= j < first_slash_b(s) ==> s[j] != 47,
    decreases s.len(),
{
    if s.len() > 0 && s[0] != 47 {
        lemma_first_slash_b(s.drop_first());
        assert forall|j: int| 0 <= j < first_slash_b(s) implies s[j] != 47 by {
            if j > 0 {
                assert(s.drop_first()[j - 1] == s[j]);
            }
        }
    }
}

/// The slash-delimited elements of a path, empty ones kept.
pub open spec fn path_elements(s: Seq<u8>) -> Seq<Seq<u8>>
    decreases s.len(),
    via path_elements_decreases
{
    let i = first_slash_b(s);
    if i == s.len() {
        seq![s]
    } else {
        seq![s.take(i)] + path_elements(s.skip(i + 1))
    }
}

#[via_fn]
proof fn path_elements_decreases(s: Seq<u8>) {
    lemma_first_slash_b(s);
}

pub proof fn lemma_path_elements_len(s: Seq<u8>)
    ensures
        path_elements(s).len() >= 1,
    decreases s.len(),
{
    lemma_first_slash_b(s);
    if first_slash_b(s) != s.len() {
        lemma_path_elements_len(s.skip(first_slash_b(s) + 1));
    }
}

/// The encoded elements joined: an empty element vanishes, a non-empty
/// one is escaped, and a slash follows it whenever further elements
/// remain.
pub open spec fn encode_elements(ss: Seq<Seq<u8>>) -> Seq<u8>
    decreases ss.len(),
{
    if ss.len() == 0 {
        Seq::<u8>::empty()
    } else {
        (if ss[0].len() == 0 {
            Seq::<u8>::empty()
        } else {
            escape_bytes(ss[0]) + (if ss.len() > 1 {
                seq![47u8]
            } else {
                Seq::<u8>::empty()
            })
        }) + encode_elements(ss.drop_first())
    }
}

/// The normalized, percent-encoded form of a path: a path of only plain
/// bytes is kept as it is; otherwise a leading slash is kept, trailing
/// slashes are dropped, and each element is escaped.
pub open spec fn relative_url_spec(url: Seq<u8>) -> Seq<u8> {
    if all_plain(url) {
        url
    } else {
        let lead: Seq<u8> = if url[0] == 47 {
            seq![47u8]
        } else {
            Seq::<u8>::empty()
        };
        lead + encode_elements(path_elements(trim_slashes(url.skip(lead.len() as int))))
    }
}

/// A normalized site-relative URL.
#[derive(Debug)]
pub struct RelativeUrl(pub String);

impl View for RelativeUrl {
    type V = Seq<char>;

    open spec fn view(&self) -> Seq<char> {
        self.0@
    }
}

/// The one rejected input: an empty URL.
#[derive(Debug, PartialEq, Eq, Structural)]
pub struct Error;

/// Whether a byte must be percent-escaped.
pub fn byte_needs_escaping(b: u8) -> (r: bool)
    ensures
        r == spec_needs_escaping(b),
{
    !((48 <= b && b <= 57) || (65 <= b && b <= 90) || (97 <= b && b <= 122) || b == 45 || b == 46
        || b == 95 || b == 126)
}

/// The uppercase hexadecimal digit of a value below 16.
pub fn to_hex_digit(digit: u8) -> (r: u8)
    requires
        digit < 16,
    ensures
        r == spec_hex_digit(digit),
{
    if digit < 10 {
        48 + digit
    } else {
        55 + digit
    }
}

/// Percent-encode bytes onto the end of a buffer.
pub fn encode_into(data: &Vec<u8>, escaped: &mut Vec<u8>)
    ensures
        final(escaped)@ == old(escaped)@ + escape_bytes(data@),
{
    let mut i: usize = 0;
    while i < data.len()
        invariant
            i <= data@.len(),
            escaped@ == old(escaped)@ + escape_bytes(data@.take(i as int)),
        decreases data@.len() - i,
    {
        let b = data[i];
        let ghost prev = escaped@;
        if byte_needs_escaping(b) {
            proof {
                assert((b >> 4) < 16) by (bit_vector);
                assert((b & 15) < 16) by (bit_vector);
            }
            escaped.push(37);
            escaped.push(to_hex_digit(b >> 4));
            escaped.push(to_hex_digit(b & 15));
            proof {
                assert(b >> 4 == b / 16) by (bit_vector);
                assert(b & 15 == b % 16) by (bit_vector);
                assert(escaped@ =~= prev + seq![37u8, spec_hex_digit(b / 16), spec_hex_digit(
                    b % 16,
                )]);
            }
        } else {
            escaped.push(b);
            proof {
                assert(escaped@ =~= prev + seq![b]);
            }
        }
        proof {
            lemma_escape_snoc(data@.take(i as int), b);
            assert(data@.take(i + 1) =~= data@.take(i as int).push(b));
        }
        i += 1;
    }
    proof {
        assert(data@.take(data@.len() as int) =~= data@);
    }
}

proof fn lemma_escape_snoc(s: Seq<u8>, b: u8)
    ensures
        escape_bytes(s.push(b)) == escape_bytes(s) + (if spec_needs_escaping(b) {
            seq![37u8, spec_hex_digit(b / 16), spec_hex_digit(b % 16)]
        } else {
            seq![b]
        }),
    decreases s.len(),
{
    let enc_b: Seq<u8> = if spec_needs_escaping(b) {
        seq![37u8, spec_hex_digit(b / 16), spec_hex_digit(b % 16)]
    } else {
        seq![b]
    };
    if s.len() == 0 {
        assert(s.push(b).drop_first() =~= Seq::<u8>::empty());
        assert(s.push(b)[0] == b);
        assert(escape_bytes(s.push(b).drop_first()) == Seq::<u8>::empty());
        assert(escape_bytes(s.push(b)) =~= enc_b);
        assert(escape_bytes(s) + enc_b =~= enc_b);
    } else {
        assert(s.push(b).drop_first() =~= s.drop_first().push(b));
        lemma_escape_snoc(s.drop_first(), b);
        assert(s.push(b)[0] == s[0]);
        let enc_0: Seq<u8> = if spec_needs_escaping(s[0]) {
            seq![37u8, spec_hex_digit(s[0] / 16), spec_hex_digit(s[0] % 16)]
        } else {
            seq![s[0]]
        };
        assert(enc_0 + (escape_bytes(s.drop_first()) + enc_b) =~= (enc_0 + escape_bytes(
            s.drop_first(),
        )) + enc_b);
    }
}

impl RelativeUrl {
    /// Normalize a URL.  Only the empty URL is rejected; any other input
    /// comes back normalized and percent-encoded per `relative_url_spec`.
    pub fn new(url: &str) -> (r: Result<RelativeUrl, Error>)
        ensures
            r is Ok <==> url@.len() > 0,
            r is Ok ==> encode_utf8(r->Ok_0@) == relative_url_spec(encode_utf8(url@)),
    {
        if url.unicode_len() == 0 {
            return Err(Error);
        }
        let bytes = crate::text::str_to_bytes(url);
        let ghost ub = encode_utf8(url@);
        proof {
            vstd::utf8::char_is_scalar(url@[0]);
            assert(ub.len() > 0);
        }
        let mut plain = true;
        let mut i: usize = 0;
        while i < bytes.len()
            invariant
                i <= bytes@.len(),
                bytes@ == ub,
                plain ==> forall|k: int|
                    0 <= k < i ==> (ub[k] == 47 || !spec_needs_escaping(#[trigger] ub[k])),
                !plain ==> !all_plain(ub),
            decreases bytes@.len() - i,
        {
            let b = bytes[i];
            if !(b == 47) && byte_needs_escaping(b) {
                proof {
                    assert(ub[i as int] != 47 && spec_needs_escaping(ub[i as int]));
                }
                plain = false;
            }
            i += 1;
        }
        if plain {
            proof {
                assert(all_plain(ub));
            }
            return Ok(RelativeUrl(url.to_owned()));
        }
        proof {
            assert(!all_plain(ub));
        }
        let mut out: Vec<u8> = Vec::new();
        let start: usize = if bytes[0] == 47 {
            out.push(47);
            1
        } else {
            0
        };
        let ghost lead = out@;
        proof {
            assert(ub.skip(start as int) =~= ub.subrange(start as int, ub.len() as int));
        }
        let mut end: usize = bytes.len();
        while end > start && bytes[end - 1] == 47
            invariant
                start <= end <= bytes@.len(),
                start <= 1,
                bytes@ == ub,
                trim_slashes(ub.skip(start as int)) == trim_slashes(
                    ub.subrange(start as int, end as int),
                ),
            decreases end,
        {
            proof {
                let cur = ub.subrange(start as int, end as int);
                assert(cur.last() == ub[end - 1]);
                assert(cur.drop_last() =~= ub.subrange(start as int, end - 1));
            }
            end -= 1;
        }
        let ghost rest0 = ub.subrange(start as int, end as int);
        proof {
            if end > start {
                assert(rest0.last() == ub[end - 1]);
                assert(rest0.last() != 47);
            }
            assert(trim_slashes(rest0) == rest0);
            assert(trim_slashes(ub.skip(start as int)) == rest0);
        }
        let mut rest: Vec<u8> = Vec::new();
        let mut c: usize = start;
        while c < end
            invariant
                start <= c <= end <= bytes@.len(),
                bytes@ == ub,
                rest@ == ub.subrange(start as int, c as int),
            decreases end - c,
        {
            rest.push(bytes[c]);
            proof {
                assert(rest@ =~= ub.subrange(start as int, c + 1));
            }
            c += 1;
        }
        proof {
            assert(rest@ == rest0);
        }
        let rlen = rest.len();
        let mut pos: usize = 0;
        proof {
            assert(rest0.skip(0) =~= rest0);
        }
        loop
            invariant_except_break
                lead + encode_elements(path_elements(rest0)) == out@ + encode_elements(
                    path_elements(rest0.skip(pos as int)),
                ),
            invariant
                pos <= rlen,
                rlen == rest@.len(),
                rest@ == rest0,
            ensures
                out@ == lead + encode_elements(path_elements(rest0)),
            decreases rlen - pos + 1,
        {
            proof {
                lemma_first_slash_b(rest0.skip(pos as int));
            }
            let mut j: usize = pos;
            while j < rlen && rest[j] != 47
                invariant
                    pos <= j <= rlen,
                    rlen == rest@.len(),
                    rest@ == rest0,
                    forall|k: int| pos <= k < j ==> rest0[k] != 47,
                decreases rlen - j,
            {
                j += 1;
            }
            proof {
                let rem = rest0.skip(pos as int);
                assert(first_slash_b(rem) == j - pos) by {
                    lemma_first_slash_b(rem);
                    if first_slash_b(rem) < j - pos {
                        assert(rem[first_slash_b(rem)] == rest0[pos + first_slash_b(rem)]);
                    }
                    if first_slash_b(rem) > j - pos {
                        assert(j < rlen);
                        assert(rem[j - pos] == rest0[j as int]);
                    }
                }
            }
            let mut piece: Vec<u8> = Vec::new();
            let mut w: usize = pos;
            while w < j
                invariant
                    pos <= w <= j <= rlen,
                    rlen == rest@.len(),
                    rest@ == rest0,
                    piece@ == rest0.subrange(pos as int, w as int),
                decreases j - w,
            {
                piece.push(rest[w]);
                proof {
                    assert(piece@ =~= rest0.subrange(pos as int, w + 1));
                }
                w += 1;
            }
            let ghost rem = rest0.skip(pos as int);
            let ghost prev_out = out@;
            if piece.len() > 0 {
                encode_into(&piece, &mut out);
                if j < rlen {
                    out.push(47);
                }
            }
            proof {
                assert(rem.take(j - pos) =~= rest0.subrange(pos as int, j as int));
                if j == rlen {
                    assert(path_elements(rem) =~= seq![rem]);
                    assert(rem =~= piece@);
                    lemma_encode_singleton(rem);
                    if piece@.len() > 0 {
                        assert(out@ =~= prev_out + escape_bytes(piece@));
                        assert(encode_elements(path_elements(rem)) =~= escape_bytes(piece@));
                    } else {
                        assert(encode_elements(path_elements(rem)) =~= Seq::<u8>::empty());
                        assert(out@ =~= prev_out);
                    }
                    assert(rest0.skip(rlen as int) =~= Seq::<u8>::empty());
                } else {
                    assert(path_elements(rem) =~= seq![rem.take(j - pos)] + path_elements(
                        rem.skip(j - pos + 1),
                    ));
                    assert(rem.skip(j - pos + 1) =~= rest0.skip(j + 1));
                    lemma_path_elements_len(rest0.skip(j + 1));
                    assert(path_elements(rem).len() > 1);
                    assert(path_elements(rem)[0] == piece@);
                    assert(path_elements(rem).drop_first() =~= path_elements(rest0.skip(j + 1)));
                    if piece@.len() > 0 {
                        assert(out@ =~= prev_out + (escape_bytes(piece@) + seq![47u8]));
                        assert(encode_elements(path_elements(rem)) =~= (escape_bytes(piece@)
                            + seq![47u8]) + encode_elements(path_elements(rest0.skip(j + 1))));
                    } else {
                        assert(out@ =~= prev_out);
                        assert(encode_elements(path_elements(rem)) =~= encode_elements(
                            path_elements(rest0.skip(j + 1)),
                        ));
                    }
                }
            }
            if j == rlen {
                proof {
                    let final_rem = rest0.skip(rlen as int);
                    assert(final_rem.len() == 0);
                    assert(path_elements(final_rem) =~= seq![final_rem]);
                    lemma_encode_singleton(final_rem);
                    assert(encode_elements(path_elements(final_rem)) =~= Seq::<u8>::empty());
                    assert(lead + encode_elements(path_elements(rest0)) =~= out@);
                }
                break ;
            }
            pos = j + 1;
        }
        proof {
            lemma_encode_elements_ascii(path_elements(rest0));
            assert forall|x: int| 0 <= x < out@.len() implies #[trigger] out@[x] < 128 by {
                if x >= lead.len() {
                    assert(out@[x] == encode_elements(path_elements(rest0))[x - lead.len()]);
                }
            }
            lemma_escaped_ascii(out@);
        }
        let s = match crate::text::try_utf8_to_string(out) {
            Some(s) => s,
            None => {
                proof {
                    assert(false);
                }
                return Err(Error);
            },
        };
        proof {
            vstd::utf8::decode_utf8_encode_utf8(lead + encode_elements(path_elements(rest0)));
        }
        Ok(RelativeUrl(s))
    }

    /// The URL's characters.
    pub fn as_str(&self) -> (r: &str)
        ensures
            r@ == self@,
    {
        self.0.as_str()
    }
}

proof fn lemma_encode_singleton(e: Seq<u8>)
    ensures
        encode_elements(seq![e]) == (if e.len() == 0 {
            Seq::<u8>::empty()
        } else {
            escape_bytes(e)
        }),
{
    assert(seq![e].drop_first() =~= Seq::<Seq<u8>>::empty());
    assert(encode_elements(Seq::<Seq<u8>>::empty()) == Seq::<u8>::empty());
    assert(seq![e][0] == e);
    if e.len() == 0 {
        assert(encode_elements(seq![e]) =~= Seq::<u8>::empty());
    } else {
        assert(encode_elements(seq![e]) =~= escape_bytes(e));
    }
}

proof fn lemma_escape_bytes_ascii(s: Seq<u8>)
    ensures
        forall|i: int| 0 <= i < escape_bytes(s).len() ==> #[trigger] escape_bytes(s)[i] < 128,
    decreases s.len(),
{
    if s.len() > 0 {
        lemma_escape_bytes_ascii(s.drop_first());
        let enc_0: Seq<u8> = if spec_needs_escaping(s[0]) {
            seq![37u8, spec_hex_digit(s[0] / 16), spec_hex_digit(s[0] % 16)]
        } else {
            seq![s[0]]
        };
        assert forall|i: int| 0 <= i < escape_bytes(s).len() implies #[trigger] escape_bytes(s)[i]
            < 128 by {
            if i >= enc_0.len() {
                assert(escape_bytes(s)[i] == escape_bytes(s.drop_first())[i - enc_0.len()]);
            }
        }
    }
}

proof fn lemma_encode_elements_ascii(ss: Seq<Seq<u8>>)
    ensures
        forall|i: int|
            0 <= i < encode_elements(ss).len() ==> #[trigger] encode_elements(ss)[i] < 128,
    decreases ss.len(),
{
    if ss.len() > 0 {
        lemma_encode_elements_ascii(ss.drop_first());
        lemma_escape_bytes_ascii(ss[0]);
        let head: Seq<u8> = if ss[0].len() == 0 {
            Seq::<u8>::empty()
        } else {
            escape_bytes(ss[0]) + (if ss.len() > 1 {
                seq![47u8]
            } else {
                Seq::<u8>::empty()
            })
        };
        assert forall|i: int| 0 <= i < encode_elements(ss).len() implies #[trigger] encode_elements(
            ss,
        )[i] < 128 by {
            if i >= head.len() {
                assert(encode_elements(ss)[i] == encode_elements(ss.drop_first())[i - head.len()]);
            }
        }
    }
}

/// The output of the encoder is ASCII, hence valid text.
proof fn lemma_escaped_ascii(s: Seq<u8>)
    ensures
        (forall|i: int| 0 <= i < s.len() ==> #[trigger] s[i] < 128) ==> valid_utf8(s),
    decreases s.len(),
{
    if forall|i: int| 0 <= i < s.len() ==> #[trigger] s[i] < 128 {
        if s.len() > 0 {
            assert forall|i: int| 0 <= i < s.drop_first().len() implies #[trigger] s.drop_first()[i]
                < 128 by {
                assert(s.drop_first()[i] == s[i + 1]);
            }
            lemma_escaped_ascii(s.drop_first());
            assert(vstd::utf8::pop_first_scalar(s) =~= s.drop_first());
        }
    }
}

} // verus!
