//! Parsing of user-typed actor ids: decimal text to `u8`.

use vstd::prelude::*;
use vstd::string::StringSliceAdditionalSpecFns;

use crate::errors::Reason;

verus! {

/// Whether the byte is an ASCII decimal digit.
pub open spec fn is_digit(b: u8) -> bool {
    48 <= b <= 57
}

/// Whether every byte is an ASCII decimal digit.
pub open spec fn all_digits(s: Seq<u8>) -> bool {
    forall|i: int| 0 <= i < s.len() ==> is_digit(#[trigger] s[i])
}

/// The number the digit string denotes, most significant digit first.
pub open spec fn digits_value(s: Seq<u8>) -> int
    decreases s.len(),
{
    if s.len() == 0 {
        0
    } else {
        digits_value(s.drop_last()) * 10 + (s.last() - 48)
    }
}

/// What parsing an actor id from bytes yields: the denoted number, provided
/// the input is nonempty, all digits, and within `u8` range. Leading zeros
/// are accepted.
pub open spec fn spec_parse_u8(s: Seq<u8>) -> Option<u8> {
    if s.len() == 0 || !all_digits(s) || digits_value(s) > 255 {
        None
    } else {
        Some(digits_value(s) as u8)
    }
}

/// A nonempty digit string denotes a number at least zero.
proof fn lemma_digits_value_nonneg(s: Seq<u8>)
    requires
        all_digits(s),
    ensures
        digits_value(s) >= 0,
    decreases s.len(),
{
    if s.len() > 0 {
        let t = s.drop_last();
        assert(forall|i: int| 0 <= i < t.len() ==> is_digit(#[trigger] t[i]) && t[i] == s[i]);
        lemma_digits_value_nonneg(t);
        assert(is_digit(s.last()));
    }
}

/// Parse a textual actor id. Accepts exactly the nonempty all-digit strings
/// denoting a value below 256; anything else is a `ParseError`.
pub fn parse_actor_id(s: &str) -> (r: Result<u8, Reason>)
    ensures
        match spec_parse_u8(s.spec_bytes()) {
            Some(v) => r == Ok::<u8, Reason>(v),
            None => r == Err::<u8, Reason>(Reason::ParseError),
        },
{
    let bytes = s.as_bytes();
    let n = bytes.len();
    if n == 0 {
        return Err(Reason::ParseError);
    }
    let mut acc: u32 = 0;
    let mut i: usize = 0;
    while i < n
        invariant
            i <= n,
            n == bytes@.len(),
            bytes@ == s.spec_bytes(),
            all_digits(bytes@.subrange(0, i as int)),
            acc <= 256,
            digits_value(bytes@.subrange(0, i as int)) <= 255 ==> acc == digits_value(
                bytes@.subrange(0, i as int),
            ),
            digits_value(bytes@.subrange(0, i as int)) > 255 ==> acc == 256,
        decreases n - i,
    {
        let b = bytes[i];
        if b < 48 || b > 57 {
            proof {
                assert(!is_digit(bytes@[i as int]));
                assert(!all_digits(bytes@));
            }
            return Err(Reason::ParseError);
        }
        let d = (b - 48) as u32;
        proof {
            let pre = bytes@.subrange(0, i as int);
            let ext = bytes@.subrange(0, i as int + 1);
            assert(ext.drop_last() =~= pre);
            assert(ext.last() == bytes@[i as int]);
            assert(digits_value(ext) == digits_value(pre) * 10 + (b - 48));
            lemma_digits_value_nonneg(pre);
        }
        let next = acc * 10 + d;
        if next > 255 {
            acc = 256;
        } else {
            acc = next;
        }
        i = i + 1;
    }
    proof {
        assert(bytes@.subrange(0, n as int) =~= bytes@);
    }
    if acc > 255 {
        return Err(Reason::ParseError);
    }
    Ok(acc as u8)
}

} // verus!
