//! Decoding single keystrokes: classifying a UTF-8 lead byte and
//! turning the gathered bytes of one scalar into a character.

use vstd::prelude::*;
use vstd::utf8::{decode_utf8, is_continuation_byte, valid_utf8};

use crate::codec::bytes_to_string;

verus! {

broadcast use vstd::std_specs::vec::group_vec_axioms, vstd::seq::group_seq_axioms;

/// The byte count a lead byte announces: 1 for an ASCII byte, 0 for a
/// stray continuation byte, otherwise the number of leading one bits
/// in the byte's top five bits.
pub open spec fn utf8_len_spec(val: u8) -> int {
    if val < 0x80 {
        1
    } else if val < 0xc0 {
        0
    } else if val < 0xe0 {
        2
    } else if val < 0xf0 {
        3
    } else if val < 0xf8 {
        4
    } else {
        5
    }
}

/// Whether a byte may start a UTF-8 scalar: anything but a
/// continuation byte.
pub fn utf8_start(val: u8) -> (r: bool)
    ensures
        r == !is_continuation_byte(val),
{
    proof {
        vstd::utf8::utf8_byte_ranges_bitwise(val);
    }
    (val & 0x80 == 0) || (val & 0xc0 != 0x80)
}

/// The length that a lead byte announces for its scalar's encoding;
/// 0 for a stray continuation byte.
pub fn utf8_len(val: u8) -> (r: usize)
    ensures
        r == utf8_len_spec(val),
{
    if val < 0x80 {
        1
    } else if val < 0xc0 {
        0
    } else if val < 0xe0 {
        2
    } else if val < 0xf0 {
        3
    } else if val < 0xf8 {
        4
    } else {
        5
    }
}

/// The first scalar value encoded in `bytes`, once the reader has
/// gathered the lead byte and its continuation bytes; nothing when the
/// bytes are not a well-formed encoding, which the reader treats as a
/// condition it cannot safely interpret.
pub fn decode_codepoint(bytes: &[u8]) -> (r: Option<char>)
    ensures
        r is Some <==> (bytes@.len() > 0 && valid_utf8(bytes@)),
        r matches Some(c) ==> c == decode_utf8(bytes@)[0],
{
    let n = bytes.len();
    if n == 0 {
        return None;
    }
    let mut gathered: Vec<u8> = Vec::new();
    let mut k: usize = 0;
    while k < n
        invariant
            k <= n,
            n == bytes@.len(),
            gathered@ =~= bytes@.subrange(0, k as int),
        decreases n - k,
    {
        gathered.push(bytes[k]);
        proof {
            assert(gathered@ =~= bytes@.subrange(0, k + 1));
        }
        k += 1;
    }
    proof {
        assert(gathered@ =~= bytes@);
    }
    match bytes_to_string(gathered) {
        Some(s) => {
            proof {
                assert(s@ =~= decode_utf8(bytes@));
                assert(decode_utf8(bytes@).len() > 0);
            }
            let c = s.as_str().get_char(0);
            Some(c)
        },
        None => None,
    }
}

} // verus!
