//! Token identifiers: 32 raw bytes, written as hexadecimal text at the edge.
use vstd::prelude::*;

verus! {

/// Number of bytes in a token identifier.
pub const TOKEN_ID_LEN: usize = 32;

pub open spec fn is_hex_digit(c: char) -> bool {
    ('0' <= c && c <= '9') || ('a' <= c && c <= 'f') || ('A' <= c && c <= 'F')
}

pub open spec fn hex_value(c: char) -> int {
    if '0' <= c && c <= '9' {
        c as int - '0' as int
    } else if 'a' <= c && c <= 'f' {
        c as int - 'a' as int + 10
    } else {
        c as int - 'A' as int + 10
    }
}

/// The bytes that hexadecimal text stands for, two digits per byte, high digit
/// first, either case; `None` for an odd length or a character that is no digit.
pub open spec fn hex_decoded(s: Seq<char>) -> Option<Seq<u8>> {
    if s.len() % 2 == 0 && forall|k: int| 0 <= k < s.len() ==> is_hex_digit(#[trigger] s[k]) {
        Some(
            Seq::new(
                (s.len() / 2) as nat,
                |k: int| (hex_value(s[2 * k]) * 16 + hex_value(s[2 * k + 1])) as u8,
            ),
        )
    } else {
        None
    }
}

/// The identifier that the text stands for: exactly 32 bytes.
pub open spec fn token_id_of(s: Seq<char>) -> Option<Seq<u8>> {
    match hex_decoded(s) {
        Some(b) => if b.len() == TOKEN_ID_LEN {
            Some(b)
        } else {
            None
        },
        None => None,
    }
}

/// Relies on hex::decode: an even number of hexadecimal digits, of either case,
/// decodes two digits to a byte, high digit first; anything else is an error.
#[verifier::external_body]
fn decode_hex(s: &str) -> (r: Option<Vec<u8>>)
    ensures
        match r {
            Some(v) => hex_decoded(s@) == Some(v@),
            None => hex_decoded(s@) is None,
        },
{
    hex::decode(s).ok()
}

/// Decodes a token identifier from its 64-digit hexadecimal form.
pub fn parse_token_id(s: &str) -> (r: Option<Vec<u8>>)
    ensures
        match r {
            Some(v) => token_id_of(s@) == Some(v@),
            None => token_id_of(s@) is None,
        },
{
    match decode_hex(s) {
        Some(v) => if v.len() == TOKEN_ID_LEN {
            Some(v)
        } else {
            None
        },
        None => None,
    }
}

/// Whether two byte strings are equal.
pub fn bytes_eq(a: &Vec<u8>, b: &Vec<u8>) -> (r: bool)
    ensures
        r == (a@ == b@),
{
    if a.len() != b.len() {
        return false;
    }
    let mut k: usize = 0;
    while k < a.len()
        invariant
            k <= a.len(),
            a.len() == b.len(),
            forall|t: int| 0 <= t < k ==> a@[t] == b@[t],
        decreases a.len() - k,
    {
        if a[k] != b[k] {
            return false;
        }
        k = k + 1;
    }
    assert(a@ =~= b@);
    true
}

} // verus!
