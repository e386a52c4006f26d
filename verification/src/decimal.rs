//! ASCII decimal rendering of the lengths that SCGI framing carries.
use vstd::prelude::*;
use vstd::utf8::is_ascii_chars;
use crate::chars::push_char;

verus! {

/// The decimal digit character for `d`.
pub open spec fn digit_char(d: int) -> char
    recommends
        0 <= d <= 9,
{
    ((48 + d) as u8) as char
}

/// The ASCII decimal rendering of `n`, most significant digit first,
/// with no sign and no leading zero except for `n == 0` itself.
pub open spec fn dec_chars(n: nat) -> Seq<char>
    decreases n,
{
    if n < 10 {
        seq![digit_char(n as int)]
    } else {
        dec_chars(n / 10) + seq![digit_char((n % 10) as int)]
    }
}

/// Decimal renderings consist of digit characters only: ASCII, and never
/// a colon.
pub proof fn lemma_dec_chars_digits(n: nat)
    ensures
        dec_chars(n).len() >= 1,
        forall|i: int| 0 <= i < dec_chars(n).len() ==> '0' <= #[trigger] dec_chars(n)[i] <= '9',
        is_ascii_chars(dec_chars(n)),
    decreases n,
{
    if n < 10 {
    } else {
        lemma_dec_chars_digits(n / 10);
    }
}

/// Powers of ten, to bound the length of a decimal rendering.
pub open spec fn pow10(k: nat) -> nat
    decreases k,
{
    if k == 0 {
        1
    } else {
        10 * pow10((k - 1) as nat)
    }
}

/// A number below the `k`-th power of ten needs at most `k` digits.
pub proof fn lemma_dec_chars_len(n: nat, k: nat)
    requires
        1 <= k,
        n < pow10(k),
    ensures
        dec_chars(n).len() <= k,
    decreases k,
{
    if n < 10 {
    } else {
        assert(pow10(k) == 10 * pow10((k - 1) as nat));
        assert(n / 10 < pow10((k - 1) as nat)) by (nonlinear_arith)
            requires
                n < 10 * pow10((k - 1) as nat),
        ;
        assert(1 <= (k - 1) as nat) by {
            if k == 1 {
                reveal_with_fuel(pow10, 2);
            }
        }
        lemma_dec_chars_len(n / 10, (k - 1) as nat);
    }
}

/// A value that fits in a machine word never needs more than 20 digits.
pub proof fn lemma_dec_chars_len_usize(n: nat)
    requires
        n <= usize::MAX,
    ensures
        dec_chars(n).len() <= 20,
{
    assert(pow10(20) == 100000000000000000000) by {
        reveal_with_fuel(pow10, 21);
    }
    lemma_dec_chars_len(n, 20);
}

/// Renders `n` in decimal as a string of ASCII digits.
pub fn usize_to_decimal(n: usize) -> (r: String)
    ensures
        r@ == dec_chars(n as nat),
{
    let mut digits: Vec<char> = Vec::new();
    let mut m: usize = n;
    while m >= 10
        invariant
            dec_chars(n as nat) == dec_chars(m as nat) + digits@.reverse(),
        decreases m,
    {
        let d: u8 = (m % 10) as u8;
        digits.push((48 + d) as char);
        m = m / 10;
        proof {
            assert(dec_chars(n as nat) =~= dec_chars(m as nat) + digits@.reverse());
        }
    }
    digits.push((48 + (m as u8)) as char);
    proof {
        assert(dec_chars(n as nat) =~= digits@.reverse());
    }
    let len = digits.len();
    let mut r = String::new();
    let mut i: usize = 0;
    while i < len
        invariant
            len == digits@.len(),
            i <= len,
            r@ == digits@.reverse().take(i as int),
        decreases len - i,
    {
        push_char(&mut r, digits[len - 1 - i]);
        i += 1;
        proof {
            assert(r@ =~= digits@.reverse().take(i as int));
        }
    }
    proof {
        assert(digits@.reverse().take(len as int) =~= digits@.reverse());
    }
    r
}

} // verus!
