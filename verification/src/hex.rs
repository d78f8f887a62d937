//! Hexadecimal decoding of certificate digests handed to the
//! transport setup (a WebTransport server certificate hash arrives as
//! a hex string).
use vstd::prelude::*;

verus! {

/// The value of an ASCII hex digit, or -1.
pub open spec fn hex_val(c: u8) -> int {
    if 48 <= c <= 57 {
        c - 48
    } else if 97 <= c <= 102 {
        c - 87
    } else if 65 <= c <= 70 {
        c - 55
    } else {
        -1
    }
}

pub open spec fn is_hex_digit(c: u8) -> bool {
    hex_val(c) >= 0
}

fn digit_val(c: u8) -> (r: i8)
    ensures
        r == hex_val(c),
{
    if 48 <= c && c <= 57 {
        (c - 48) as i8
    } else if 97 <= c && c <= 102 {
        (c - 87) as i8
    } else if 65 <= c && c <= 70 {
        (c - 55) as i8
    } else {
        -1
    }
}

/// Decode an ASCII hex string into bytes: two digits per byte, high
/// digit first. Fails exactly on an odd length or a non-digit.
pub fn decode_hex(s: &Vec<u8>) -> (r: Option<Vec<u8>>)
    ensures
        r is Some <==> (s@.len() % 2 == 0 && forall|i: int|
            0 <= i < s@.len() ==> is_hex_digit(#[trigger] s@[i])),
        r matches Some(v) ==> {
            &&& v@.len() * 2 == s@.len()
            &&& forall|i: int|
                0 <= i < v@.len() ==> #[trigger] v@[i] == 16 * hex_val(s@[2 * i]) + hex_val(
                    s@[2 * i + 1],
                )
        },
{
    if s.len() % 2 != 0 {
        return None;
    }
    let mut out: Vec<u8> = Vec::new();
    let mut i: usize = 0;
    while i < s.len()
        invariant
            i <= s@.len(),
            i % 2 == 0,
            s@.len() % 2 == 0,
            out@.len() * 2 == i,
            forall|j: int| 0 <= j < i ==> is_hex_digit(#[trigger] s@[j]),
            forall|j: int|
                0 <= j < out@.len() ==> #[trigger] out@[j] == 16 * hex_val(s@[2 * j]) + hex_val(
                    s@[2 * j + 1],
                ),
        decreases s@.len() - i,
    {
        let hi = digit_val(s[i]);
        if hi < 0 {
            proof {
                assert(!is_hex_digit(s@[i as int]));
            }
            return None;
        }
        let lo = digit_val(s[i + 1]);
        if lo < 0 {
            proof {
                assert(!is_hex_digit(s@[i + 1]));
            }
            return None;
        }
        let b: u8 = (hi as u8) * 16 + (lo as u8);
        proof {
            assert(2 * (out@.len() as int) == i);
            assert(b == 16 * hex_val(s@[2 * (out@.len() as int)]) + hex_val(
                s@[2 * (out@.len() as int) + 1],
            ));
        }
        out.push(b);
        i = i + 2;
    }
    Some(out)
}

} // verus!
