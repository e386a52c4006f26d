//! SCGI response parsing: splitting raw reply bytes into header fields
//! and a body. Malformed input yields no result rather than an error or
//! a partial value.
use vstd::prelude::*;
use vstd::slice::slice_subrange;
use crate::chars::byte_value_string;
use crate::chars::chars_of;
use crate::search::find_pattern;
use crate::search::lemma_find_none;
use crate::search::lemma_find_shift;
use crate::search::lemma_find_some;
use crate::search::match_at;
use crate::search::spec_find;

verus! {

/// One response header field: a name and a value.
#[derive(Debug)]
pub struct Header {
    pub name: String,
    pub value: String,
}

/// A parsed response: the header fields in block order, and the body.
#[derive(Debug)]
pub struct Response {
    pub headers: Vec<Header>,
    pub body: String,
}

/// The `\r\n\r\n` separator between the header block and the body.
pub open spec fn double_crlf() -> Seq<u8> {
    seq![13u8, 10u8, 13u8, 10u8]
}

/// The `\r\n` separator between header lines.
pub open spec fn crlf() -> Seq<u8> {
    seq![13u8, 10u8]
}

/// A colon, separating a header name from its value.
pub open spec fn colon() -> Seq<u8> {
    seq![58u8]
}

/// Splits a header block into its lines at each `\r\n`, leftmost first.
pub open spec fn split_lines(h: Seq<u8>) -> Seq<Seq<u8>>
    decreases h.len(),
    via split_lines_decreases
{
    match spec_find(h, crlf(), 0) {
        None => seq![h],
        Some(i) => seq![h.subrange(0, i)] + split_lines(h.subrange(i + 2, h.len() as int)),
    }
}

#[via_fn]
proof fn split_lines_decreases(h: Seq<u8>) {
    if let Some(i) = spec_find(h, crlf(), 0) {
        lemma_find_some(h, crlf(), 0, i);
    }
}

/// Splits a line at its colon: exactly one colon yields the name and
/// the value; zero colons, or more than one, is a malformed line.
pub open spec fn parse_line(l: Seq<u8>) -> Option<(Seq<u8>, Seq<u8>)> {
    match spec_find(l, colon(), 0) {
        None => None,
        Some(j) => if spec_find(l, colon(), j + 1) is Some {
            None
        } else {
            Some((l.subrange(0, j), l.subrange(j + 1, l.len() as int)))
        },
    }
}

/// Parses every line of a header block into a name/value pair; a single
/// malformed line fails the whole block.
pub open spec fn parse_lines(ls: Seq<Seq<u8>>) -> Option<Seq<(Seq<u8>, Seq<u8>)>>
    decreases ls.len(),
{
    if ls.len() == 0 {
        Some(Seq::empty())
    } else {
        match (parse_line(ls[0]), parse_lines(ls.drop_first())) {
            (Some(f), Some(r)) => Some(seq![f] + r),
            _ => None,
        }
    }
}

/// The structured form of a raw response: the header fields as
/// name/value byte pairs in block order, plus the body bytes. `None`
/// when the response does not contain exactly one header/body
/// separator, or some header line does not split into exactly a name
/// and a value.
pub open spec fn spec_parse(s: Seq<u8>) -> Option<(Seq<(Seq<u8>, Seq<u8>)>, Seq<u8>)> {
    match spec_find(s, double_crlf(), 0) {
        None => None,
        Some(i) => if spec_find(s, double_crlf(), i + 4) is Some {
            None
        } else {
            match parse_lines(split_lines(s.subrange(0, i))) {
                None => None,
                Some(fields) => Some((fields, s.subrange(i + 4, s.len() as int))),
            }
        },
    }
}

/// Decoding yields no result when the header/body separator count is
/// not exactly one: when `\r\n\r\n` occurs nowhere in the response, and
/// when it occurs again beyond the end of its first occurrence.
pub proof fn lemma_parse_separator_count(s: Seq<u8>)
    ensures
        (forall|k: int| !match_at(s, double_crlf(), k)) ==> spec_parse(s) is None,
        forall|i: int, k: int|
            spec_find(s, double_crlf(), 0) == Some(i) && i + 4 <= k && match_at(
                s,
                double_crlf(),
                k,
            ) ==> spec_parse(s) is None,
{
    if forall|k: int| !match_at(s, double_crlf(), k) {
        if let Some(j) = spec_find(s, double_crlf(), 0) {
            lemma_find_some(s, double_crlf(), 0, j);
        }
    }
    assert forall|i: int, k: int|
        spec_find(s, double_crlf(), 0) == Some(i) && i + 4 <= k && match_at(
            s,
            double_crlf(),
            k,
        ) implies spec_parse(s) is None by {
        lemma_find_some(s, double_crlf(), 0, i);
        if spec_find(s, double_crlf(), i + 4) is None {
            lemma_find_none(s, double_crlf(), i + 4);
        }
    }
}

proof fn lemma_parse_lines_element_none(ls: Seq<Seq<u8>>, k: int)
    requires
        0 <= k < ls.len(),
        parse_line(ls[k]) is None,
    ensures
        parse_lines(ls) is None,
    decreases ls.len(),
{
    if k == 0 {
    } else {
        lemma_parse_lines_element_none(ls.drop_first(), k - 1);
    }
}

/// One malformed header line, such as a line with no colon, fails the
/// decode of the whole response.
pub proof fn lemma_parse_malformed_line(s: Seq<u8>, i: int, k: int)
    requires
        spec_find(s, double_crlf(), 0) == Some(i),
        0 <= k < split_lines(s.subrange(0, i)).len(),
        parse_line(split_lines(s.subrange(0, i))[k]) is None,
    ensures
        spec_parse(s) is None,
{
    lemma_parse_lines_element_none(split_lines(s.subrange(0, i)), k);
}

/// Splits one header line at its colon, byte values preserved in the
/// resulting name and value.
fn parse_one_line(l: &[u8]) -> (r: Option<Header>)
    ensures
        match r {
            Some(h) => {
                &&& parse_line(l@) is Some
                &&& h.name@ == chars_of(parse_line(l@).unwrap().0)
                &&& h.value@ == chars_of(parse_line(l@).unwrap().1)
            },
            None => parse_line(l@) is None,
        },
{
    let ln = l.len();
    let mut col: Vec<u8> = Vec::new();
    col.push(58);
    proof {
        assert(col@ =~= colon());
    }
    let j = match find_pattern(l, col.as_slice(), 0) {
        None => {
            return None;
        },
        Some(j) => j,
    };
    if let Some(_) = find_pattern(l, col.as_slice(), j + 1) {
        return None;
    }
    let name = byte_value_string(slice_subrange(l, 0, j));
    let value = byte_value_string(slice_subrange(l, j + 1, ln));
    Some(Header { name, value })
}

/// Parses a raw SCGI response. Returns the header fields, in order,
/// and the body, every byte of both kept at its numeric value; or
/// `None` when the input does not split at exactly one `\r\n\r\n`, or
/// some header line does not hold exactly one colon.
#[verifier::loop_isolation(false)]
pub fn parse_response(raw_response: &[u8]) -> (r: Option<Response>)
    ensures
        match r {
            Some(resp) => {
                &&& spec_parse(raw_response@) is Some
                &&& resp.body@ == chars_of(spec_parse(raw_response@).unwrap().1)
                &&& resp.headers@.len() == spec_parse(raw_response@).unwrap().0.len()
                &&& forall|k: int|
                    0 <= k < resp.headers@.len() ==> {
                        &&& (#[trigger] resp.headers@[k]).name@ == chars_of(
                            spec_parse(raw_response@).unwrap().0[k].0,
                        )
                        &&& resp.headers@[k].value@ == chars_of(
                            spec_parse(raw_response@).unwrap().0[k].1,
                        )
                    }
            },
            None => spec_parse(raw_response@) is None,
        },
{
    let n = raw_response.len();
    let mut sep4: Vec<u8> = Vec::new();
    sep4.push(13);
    sep4.push(10);
    sep4.push(13);
    sep4.push(10);
    proof {
        assert(sep4@ =~= double_crlf());
    }
    let sep_pos = match find_pattern(raw_response, sep4.as_slice(), 0) {
        None => {
            return None;
        },
        Some(i) => i,
    };
    if let Some(_) = find_pattern(raw_response, sep4.as_slice(), sep_pos + 4) {
        return None;
    }
    let header_bytes = slice_subrange(raw_response, 0, sep_pos);
    let hlen = header_bytes.len();
    let mut sep2: Vec<u8> = Vec::new();
    sep2.push(13);
    sep2.push(10);
    proof {
        assert(sep2@ =~= crlf());
    }
    let ghost hview = header_bytes@;
    let mut headers_vec: Vec<Header> = Vec::new();
    let ghost mut acc: Seq<(Seq<u8>, Seq<u8>)> = Seq::empty();
    let mut pos: usize = 0;
    proof {
        assert(hview.subrange(0, hlen as int) =~= hview);
        if let Some(t) = parse_lines(split_lines(hview)) {
            assert(acc + t =~= t);
        }
    }
    let mut more: bool = true;
    while more
        invariant
            pos <= hlen,
            headers_vec@.len() == acc.len(),
            forall|k: int|
                0 <= k < acc.len() ==> {
                    &&& (#[trigger] headers_vec@[k]).name@ == chars_of(acc[k].0)
                    &&& headers_vec@[k].value@ == chars_of(acc[k].1)
                },
            more ==> match parse_lines(split_lines(hview.subrange(pos as int, hlen as int))) {
                Some(t) => parse_lines(split_lines(hview)) == Some(acc + t),
                None => parse_lines(split_lines(hview)) is None,
            },
            !more ==> parse_lines(split_lines(hview)) == Some(acc),
        decreases hlen - pos, (if more { 1int } else { 0int }),
    {
        let ghost rem = hview.subrange(pos as int, hlen as int);
        match find_pattern(header_bytes, sep2.as_slice(), pos) {
            Some(j) => {
                proof {
                    lemma_find_shift(hview, crlf(), pos as int, pos as int);
                    assert(spec_find(rem, crlf(), 0) == Some(j - pos));
                    assert(rem.subrange(0, j - pos) =~= hview.subrange(pos as int, j as int));
                    assert(rem.subrange(j - pos + 2, rem.len() as int) =~= hview.subrange(
                        j + 2,
                        hlen as int,
                    ));
                    assert(split_lines(rem) == seq![hview.subrange(pos as int, j as int)]
                        + split_lines(hview.subrange(j + 2, hlen as int)));
                }
                let line = slice_subrange(header_bytes, pos, j);
                let ghost tail_lines = split_lines(hview.subrange(j + 2, hlen as int));
                proof {
                    assert(split_lines(rem)[0] == line@);
                    assert(split_lines(rem).drop_first() =~= tail_lines);
                }
                match parse_one_line(line) {
                    None => {
                        proof {
                            assert(parse_lines(split_lines(rem)) is None);
                        }
                        return None;
                    },
                    Some(h) => {
                        let ghost f = parse_line(line@).unwrap();
                        headers_vec.push(h);
                        proof {
                            let acc0 = acc;
                            acc = acc.push(f);
                            assert(match parse_lines(tail_lines) {
                                Some(t2) => parse_lines(split_lines(rem)) == Some(seq![f] + t2),
                                None => parse_lines(split_lines(rem)) is None,
                            });
                            if let Some(t2) = parse_lines(tail_lines) {
                                assert(acc0 + (seq![f] + t2) =~= acc + t2);
                            }
                        }
                        pos = j + 2;
                    },
                }
            },
            None => {
                proof {
                    lemma_find_shift(hview, crlf(), pos as int, pos as int);
                    assert(spec_find(rem, crlf(), 0) is None);
                    assert(split_lines(rem) == seq![rem]);
                }
                let line = slice_subrange(header_bytes, pos, hlen);
                proof {
                    assert(line@ =~= rem);
                }
                match parse_one_line(line) {
                    None => {
                        proof {
                            assert(parse_lines(split_lines(rem)) is None);
                        }
                        return None;
                    },
                    Some(h) => {
                        let ghost f = parse_line(line@).unwrap();
                        headers_vec.push(h);
                        proof {
                            let acc0 = acc;
                            acc = acc.push(f);
                            assert(split_lines(rem).drop_first() =~= Seq::<Seq<u8>>::empty());
                            assert(parse_lines(Seq::<Seq<u8>>::empty()) == Some(
                                Seq::<(Seq<u8>, Seq<u8>)>::empty(),
                            ));
                            assert(split_lines(rem)[0] == rem);
                            assert(parse_line(rem) == Some(f));
                            assert(seq![f] + Seq::<(Seq<u8>, Seq<u8>)>::empty() =~= seq![f]);
                            assert(parse_lines(split_lines(rem)) == Some(seq![f]));
                            assert(acc0 + seq![f] =~= acc);
                        }
                        more = false;
                    },
                }
            },
        }
    }
    let body_slice = slice_subrange(raw_response, sep_pos + 4, n);
    let body = byte_value_string(body_slice);
    let resp = Response { headers: headers_vec, body };
    proof {
        assert(spec_parse(raw_response@) == Some(
            (acc, raw_response@.subrange(sep_pos + 4, n as int)),
        ));
    }
    Some(resp)
}

} // verus!
