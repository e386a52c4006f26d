//! Byte-preserving text: every response byte becomes the character with
//! the same numeric value, so bodies that are not valid UTF-8 round-trip
//! without substitution.
use vstd::prelude::*;
use vstd::string::StringExecFns;
use vstd::utf8::encode_utf8;

verus! {

/// The character sequence whose entries are the bytes of `b`, value for
/// value.
pub open spec fn chars_of(b: Seq<u8>) -> Seq<char> {
    Seq::new(b.len(), |i: int| b[i] as char)
}

/// Decoding a byte keeps its numeric value: no substitution or
/// replacement character, whatever the byte, bytes at or above 0x80
/// included.
pub proof fn lemma_chars_of_preserves_values(b: Seq<u8>, i: int)
    requires
        0 <= i < b.len(),
    ensures
        chars_of(b)[i] as u8 == b[i],
        chars_of(b)[i] as u32 == b[i] as u32,
{
}

/// UTF-8 encoding distributes over concatenation of character sequences.
pub proof fn lemma_encode_utf8_concat(a: Seq<char>, b: Seq<char>)
    ensures
        encode_utf8(a + b) == encode_utf8(a) + encode_utf8(b),
    decreases a.len(),
{
    if a.len() == 0 {
        assert(a + b =~= b);
        assert(encode_utf8(a) + encode_utf8(b) =~= encode_utf8(b));
    } else {
        assert((a + b).drop_first() =~= a.drop_first() + b);
        lemma_encode_utf8_concat(a.drop_first(), b);
        assert(encode_utf8(a + b) =~= encode_utf8(a) + encode_utf8(b));
    }
}

/// Relies on String::push: appends the given character to the end of the
/// string.
#[verifier::external_body]
pub(crate) fn push_char(s: &mut String, c: char)
    ensures
        final(s)@ == old(s)@.push(c),
{
    s.push(c);
}

/// Builds the string whose characters are the bytes of `s`, value for
/// value.
pub fn byte_value_string(s: &[u8]) -> (r: String)
    ensures
        r@ == chars_of(s@),
{
    let n = s.len();
    let mut r = String::new();
    let mut i: usize = 0;
    while i < n
        invariant
            n == s@.len(),
            i <= n,
            r@ == chars_of(s@).take(i as int),
        decreases n - i,
    {
        let b: u8 = s[i];
        push_char(&mut r, b as char);
        i += 1;
        proof {
            assert(r@ =~= chars_of(s@).take(i as int));
        }
    }
    proof {
        assert(chars_of(s@).take(n as int) =~= chars_of(s@));
    }
    r
}

} // verus!
