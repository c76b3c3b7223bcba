//! Rendering a count as decimal text, for error messages.
use vstd::prelude::*;
use vstd::string::*;

use crate::hexcodec::ascii_string;

verus! {

/// The character for one decimal digit value.
pub open spec fn digit_char(d: int) -> char {
    ((48 + d) as u8) as char
}

/// The digits of a positive number, most significant first; zero has none.
pub open spec fn dec_digits(n: int) -> Seq<char>
    decreases n,
{
    if n <= 0 {
        Seq::empty()
    } else {
        dec_digits(n / 10).push(digit_char(n % 10))
    }
}

/// A number spelled in decimal: its digits, or `0` for zero.
pub open spec fn dec_chars(n: int) -> Seq<char> {
    if n == 0 {
        seq!['0']
    } else {
        dec_digits(n)
    }
}

/// The ASCII codes of a digit stack, read from the top: the digits were
/// pushed least significant first, so this is most significant first.
spec fn stack_chars(ds: Seq<u8>) -> Seq<char> {
    Seq::new(ds.len(), |i: int| (ds[ds.len() - 1 - i] as char))
}

/// Renders a count as decimal text.
pub fn usize_to_string(n: usize) -> (r: String)
    ensures
        r@ == dec_chars(n as int),
{
    if n == 0 {
        proof {
            reveal_strlit("0");
            assert("0"@ =~= dec_chars(0));
        }
        return String::from_str("0");
    }
    let mut digits: Vec<u8> = Vec::new();
    let mut m = n;
    while m > 0
        invariant
            m <= n,
            m == 0 ==> digits@.len() > 0,
            forall|i: int| 0 <= i < digits@.len() ==> 48 <= #[trigger] digits@[i] <= 57,
            dec_digits(n as int) =~= dec_digits(m as int) + stack_chars(digits@),
        decreases m,
    {
        let d = (m % 10) as u8 + 48;
        let ghost ds0 = digits@;
        digits.push(d);
        proof {
            assert(stack_chars(digits@) =~= seq![digit_char(m as int % 10)] + stack_chars(ds0));
            assert(dec_digits(m as int) =~= dec_digits(m as int / 10).push(
                digit_char(m as int % 10),
            ));
            assert(dec_digits(m as int / 10) + stack_chars(digits@) =~= dec_digits(m as int)
                + stack_chars(ds0));
        }
        m = m / 10;
    }
    let mut out: Vec<u8> = Vec::new();
    let len = digits.len();
    let mut i: usize = 0;
    while i < len
        invariant
            i <= len,
            len == digits@.len(),
            forall|k: int| 0 <= k < digits@.len() ==> 48 <= #[trigger] digits@[k] <= 57,
            out@.len() == i,
            forall|k: int| 0 <= k < i ==> #[trigger] out@[k] == digits@[len - 1 - k],
        decreases len - i,
    {
        out.push(digits[len - 1 - i]);
        i = i + 1;
    }
    let r = ascii_string(out);
    proof {
        assert(r@ =~= stack_chars(digits@));
        assert(dec_digits(n as int) =~= Seq::empty() + stack_chars(digits@));
        assert(r@ =~= dec_chars(n as int));
    }
    r
}

} // verus!
