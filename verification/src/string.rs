//! Strings as sequences of characters.
use vstd::prelude::*;
use vstd::string::StrSliceExecFns;

verus! {

/// Whether the string reads the same from both ends, character by character.
pub fn is_palindrome(s: &str) -> (r: bool)
    ensures
        r <==> s@ == s@.reverse(),
{
    let len = s.unicode_len();
    let mut i: usize = 0;
    while i < len / 2
        invariant
            len == s@.len(),
            i <= len / 2,
            forall|k: int| 0 <= k < i ==> #[trigger] s@[k] == s@[len - 1 - k],
        decreases len / 2 - i,
    {
        if s.get_char(i) != s.get_char(len - 1 - i) {
            assert(s@.reverse()[i as int] == s@[len - 1 - i]);
            return false;
        }
        i = i + 1;
    }
    proof {
        let t = s@;
        assert forall|k: int| 0 <= k < t.len() implies t[k] == t.reverse()[k] by {
            let m = t.len() - 1 - k;
            if k < i {
            } else if m < i {
                assert(t[m] == t[t.len() - 1 - m]);
            } else {
                assert(m == k);
            }
        }
        assert(t =~= t.reverse());
    }
    true
}

/// The character of a decimal digit.
pub open spec fn digit_char(d: nat) -> char {
    seq!['0', '1', '2', '3', '4', '5', '6', '7', '8', '9'][d as int]
}

/// The decimal digits of `n`, the most significant first, without leading
/// zeros; the single digit `0` for zero.
pub open spec fn decimal(n: nat) -> Seq<char>
    decreases n,
{
    if n < 10 {
        seq![digit_char(n)]
    } else {
        decimal(n / 10).push(digit_char(n % 10))
    }
}

/// `u32::to_string`, which the standard library defines through `Display`:
/// the number written in decimal digits, without sign, padding or leading
/// zeros, and `0` written as the one digit.
#[verifier::external_body]
pub(crate) fn decimal_string(x: u32) -> (s: String)
    ensures
        s@ == decimal(x as nat),
{
    x.to_string()
}

} // verus!
