//! SCGI request framing: a decimal byte length, a colon, the two
//! mandatory NUL-delimited header fields, then the payload itself.
use vstd::prelude::*;
use vstd::string::StringExecFns;
use vstd::string::StringSliceAdditionalSpecFns;
use vstd::string::StrSliceExecFns;
use vstd::utf8::encode_utf8;
use vstd::utf8::is_ascii_chars;
use vstd::utf8::is_ascii_chars_concat;
use vstd::utf8::is_ascii_chars_encode_utf8;
use crate::chars::lemma_encode_utf8_concat;
use crate::decimal::dec_chars;
use crate::decimal::lemma_dec_chars_digits;
use crate::decimal::lemma_dec_chars_len_usize;
use crate::decimal::usize_to_decimal;

verus! {

/// The `CONTENT_LENGTH` header field for a payload of `n` bytes: the
/// name, a NUL, the length in decimal, a NUL.
pub open spec fn content_length_field(n: nat) -> Seq<char> {
    "CONTENT_LENGTH"@ + seq!['\u{0}'] + dec_chars(n) + seq!['\u{0}']
}

/// The `SCGI` header field: the name, a NUL, the value `1`, a NUL.
pub open spec fn scgi_field() -> Seq<char> {
    "SCGI"@ + seq!['\u{0}', '1', '\u{0}']
}

/// The SCGI header block for a payload of `n` bytes: the two mandatory
/// fields, `CONTENT_LENGTH` first, concatenated with no separator.
pub open spec fn header_block(n: nat) -> Seq<char> {
    content_length_field(n) + scgi_field()
}

/// The full request for a payload: the byte length of the header block
/// in decimal, a colon, the header block, then the payload, with no
/// trailing separator.
pub open spec fn spec_request(payload: Seq<char>) -> Seq<char> {
    let n = encode_utf8(payload).len();
    dec_chars(encode_utf8(header_block(n)).len()) + seq![':'] + header_block(n) + payload
}

/// The header fields are ASCII, so each occupies exactly one byte per
/// character on the wire.
pub proof fn lemma_fields_ascii(n: nat)
    ensures
        is_ascii_chars(content_length_field(n)),
        is_ascii_chars(scgi_field()),
        is_ascii_chars(header_block(n)),
        content_length_field(n).len() == 16 + dec_chars(n).len(),
        scgi_field().len() == 7,
        encode_utf8(content_length_field(n)).len() == content_length_field(n).len(),
        encode_utf8(scgi_field()).len() == scgi_field().len(),
        encode_utf8(header_block(n)).len() == header_block(n).len(),
{
    reveal_strlit("CONTENT_LENGTH");
    reveal_strlit("SCGI");
    lemma_dec_chars_digits(n);
    assert(is_ascii_chars(content_length_field(n)));
    assert(is_ascii_chars(scgi_field()));
    assert(is_ascii_chars(header_block(n)));
    is_ascii_chars_encode_utf8(content_length_field(n));
    is_ascii_chars_encode_utf8(scgi_field());
    is_ascii_chars_encode_utf8(header_block(n));
}

/// Builds the two SCGI header fields for `xml`, in their mandatory
/// order: `CONTENT_LENGTH` holding the payload's byte length, then
/// `SCGI` holding `1`.
pub fn generate_headers(xml: &str) -> (r: Vec<String>)
    requires
        encode_utf8(xml@).len() <= usize::MAX,
    ensures
        r@.len() == 2,
        r@[0]@ == content_length_field(encode_utf8(xml@).len()),
        r@[1]@ == scgi_field(),
{
    let xml_length = xml.len();
    let mut content_length = String::from_str("CONTENT_LENGTH\u{0}");
    let num = usize_to_decimal(xml_length);
    content_length.append(num.as_str());
    content_length.append("\u{0}");
    proof {
        reveal_strlit("CONTENT_LENGTH\u{0}");
        reveal_strlit("CONTENT_LENGTH");
        reveal_strlit("\u{0}");
        assert(content_length@ =~= content_length_field(encode_utf8(xml@).len()));
    }
    let scgi = String::from_str("SCGI\u{0}1\u{0}");
    proof {
        reveal_strlit("SCGI\u{0}1\u{0}");
        reveal_strlit("SCGI");
        assert(scgi@ =~= scgi_field());
    }
    let mut r: Vec<String> = Vec::new();
    r.push(content_length);
    r.push(scgi);
    r
}

/// Sum of the byte lengths of the given header fields.
pub open spec fn total_byte_len(hs: Seq<String>) -> nat
    decreases hs.len(),
{
    if hs.len() == 0 {
        0
    } else {
        total_byte_len(hs.drop_last()) + encode_utf8(hs.last()@).len()
    }
}

proof fn lemma_total_byte_len_prefix(hs: Seq<String>, i: int)
    requires
        0 <= i <= hs.len(),
    ensures
        total_byte_len(hs.take(i)) <= total_byte_len(hs),
    decreases hs.len() - i,
{
    if i == hs.len() {
        assert(hs.take(i) =~= hs);
    } else {
        lemma_total_byte_len_prefix(hs, i + 1);
        assert(hs.take(i + 1).drop_last() =~= hs.take(i));
        assert(hs.take(i + 1).last() == hs[i]);
    }
}

/// Sums the byte lengths of the given header fields.
pub fn generate_header_length(headers: &[String]) -> (r: usize)
    requires
        total_byte_len(headers@) <= usize::MAX,
    ensures
        r as nat == total_byte_len(headers@),
{
    let n = headers.len();
    let mut length: usize = 0;
    let mut i: usize = 0;
    while i < n
        invariant
            n == headers@.len(),
            i <= n,
            total_byte_len(headers@) <= usize::MAX,
            length as nat == total_byte_len(headers@.take(i as int)),
        decreases n - i,
    {
        proof {
            lemma_total_byte_len_prefix(headers@, i + 1);
            assert(headers@.take(i + 1).drop_last() =~= headers@.take(i as int));
            assert(headers@.take(i + 1).last() == headers@[i as int]);
        }
        length = length + headers[i].as_str().len();
        i += 1;
    }
    proof {
        assert(headers@.take(n as int) =~= headers@);
    }
    length
}

/// Concatenation of the given header fields, in order, with no
/// separator between them: each is self-delimited by its NUL bytes.
pub open spec fn concat_fields(hs: Seq<String>) -> Seq<char>
    decreases hs.len(),
{
    if hs.len() == 0 {
        Seq::empty()
    } else {
        concat_fields(hs.drop_last()) + hs.last()@
    }
}

/// Renders the request text: the header length in decimal, a colon, the
/// header fields run together, then the payload.
pub fn generate_request(header_length: usize, headers: &[String], xml: &str) -> (r: String)
    ensures
        r@ == dec_chars(header_length as nat) + seq![':'] + concat_fields(headers@) + xml@,
{
    let mut r = usize_to_decimal(header_length);
    proof {
        reveal_strlit(":");
    }
    r.append(":");
    let n = headers.len();
    let mut i: usize = 0;
    proof {
        assert(r@ =~= dec_chars(header_length as nat) + seq![':'] + concat_fields(
            headers@.take(0),
        ));
    }
    while i < n
        invariant
            n == headers@.len(),
            i <= n,
            r@ == dec_chars(header_length as nat) + seq![':'] + concat_fields(
                headers@.take(i as int),
            ),
        decreases n - i,
    {
        r.append(headers[i].as_str());
        i += 1;
        proof {
            assert(headers@.take(i as int).drop_last() =~= headers@.take(i - 1));
            assert(headers@.take(i as int).last() == headers@[i - 1]);
            assert(r@ =~= dec_chars(header_length as nat) + seq![':'] + concat_fields(
                headers@.take(i as int),
            ));
        }
    }
    r.append(xml);
    proof {
        assert(headers@.take(n as int) =~= headers@);
        assert(r@ =~= dec_chars(header_length as nat) + seq![':'] + concat_fields(headers@)
            + xml@);
    }
    r
}

/// Builds the exact byte sequence to write to the stream for `xml`.
/// Framing over arbitrary payload content always succeeds; the length
/// carried in `CONTENT_LENGTH` is the payload's byte length, not its
/// character count.
pub fn encode(xml: &str) -> (r: Vec<u8>)
    requires
        encode_utf8(xml@).len() <= usize::MAX,
    ensures
        r@ == encode_utf8(spec_request(xml@)),
{
    let ghost n = encode_utf8(xml@).len();
    let headers = generate_headers(xml);
    let ghost hs = headers@;
    proof {
        lemma_fields_ascii(n);
        lemma_dec_chars_len_usize(n);
        assert(total_byte_len(hs) == total_byte_len(hs.drop_last()) + encode_utf8(
            hs.last()@,
        ).len());
        assert(hs.drop_last().len() == 1);
        assert(total_byte_len(hs.drop_last()) == total_byte_len(hs.drop_last().drop_last())
            + encode_utf8(hs.drop_last().last()@).len());
        assert(hs.drop_last().drop_last().len() == 0);
        assert(total_byte_len(hs.drop_last().drop_last()) == 0);
        assert(hs.drop_last().last() == hs[0]);
        assert(hs.last() == hs[1]);
        assert(total_byte_len(hs) == encode_utf8(content_length_field(n)).len() + encode_utf8(
            scgi_field(),
        ).len());
    }
    let header_length = generate_header_length(headers.as_slice());
    let request = generate_request(header_length, headers.as_slice(), xml);
    proof {
        assert(concat_fields(hs) == concat_fields(hs.drop_last()) + hs.last()@);
        assert(concat_fields(hs.drop_last()) == concat_fields(hs.drop_last().drop_last())
            + hs.drop_last().last()@);
        assert(concat_fields(hs.drop_last().drop_last()) == Seq::<char>::empty());
        assert(concat_fields(hs) =~= content_length_field(n) + scgi_field());
        assert(header_block(n) == concat_fields(hs));
        assert(header_length as nat == encode_utf8(header_block(n)).len()) by {
            assert(header_block(n).len() == content_length_field(n).len() + scgi_field().len());
        }
        assert(request@ =~= spec_request(xml@));
    }
    let r = request.as_str().as_bytes_vec();
    r
}

/// The framing of every encoded request: its prefix up to the first
/// colon is the decimal ASCII rendering of the header block's byte
/// length, and it ends with exactly the payload's bytes.
pub proof fn lemma_request_framing(payload: Seq<char>)
    ensures
        ({
            let r = encode_utf8(spec_request(payload));
            let n = encode_utf8(payload).len();
            let d = dec_chars(encode_utf8(header_block(n)).len());
            &&& r.len() == d.len() + 1 + header_block(n).len() + encode_utf8(payload).len()
            &&& forall|i: int| 0 <= i < d.len() ==> #[trigger] r[i] == d[i] as u8
            &&& forall|i: int| 0 <= i < d.len() ==> #[trigger] r[i] != 58
            &&& r[d.len() as int] == 58
            &&& r.subrange(r.len() - encode_utf8(payload).len(), r.len() as int) == encode_utf8(
                payload,
            )
        }),
{
    let n = encode_utf8(payload).len();
    let hb = header_block(n);
    let m = encode_utf8(hb).len();
    let d = dec_chars(m);
    let prefix = d + seq![':'] + hb;
    lemma_fields_ascii(n);
    lemma_dec_chars_digits(m);
    assert(is_ascii_chars(prefix));
    is_ascii_chars_encode_utf8(prefix);
    lemma_encode_utf8_concat(prefix, payload);
    assert(spec_request(payload) =~= prefix + payload);
    let r = encode_utf8(spec_request(payload));
    assert(r =~= encode_utf8(prefix) + encode_utf8(payload));
    assert(prefix[d.len() as int] == ':');
    assert forall|i: int| 0 <= i < d.len() implies #[trigger] r[i] == d[i] as u8 && r[i] != 58 by {
        assert(prefix[i] == d[i]);
        assert(r[i] == encode_utf8(prefix)[i]);
        assert('0' <= d[i] <= '9');
    }
    assert(r.subrange(r.len() - encode_utf8(payload).len(), r.len() as int) =~= encode_utf8(
        payload,
    ));
}

/// Encoding is deterministic and side-effect-free: identical payloads
/// yield byte-identical requests, the encoding being a function of the
/// payload alone.
pub proof fn lemma_encode_deterministic(p1: Seq<char>, p2: Seq<char>)
    requires
        p1 == p2,
    ensures
        encode_utf8(spec_request(p1)) == encode_utf8(spec_request(p2)),
{
}

} // verus!
