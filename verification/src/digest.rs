use sha1::Digest;
use vstd::prelude::*;

verus! {

/// The SHA-1 digest of a byte sequence. The function itself is left
/// uninterpreted: the wrapper below ties it to the outside implementation,
/// and all reasoning uses only that the digest is 20 bytes and depends on the
/// input alone.
pub uninterp spec fn sha1_of(bytes: Seq<u8>) -> Seq<u8>;

/// Relies on sha1::Sha1 through the Digest interface: the digest is a
/// function of the input bytes alone, 20 bytes long.
#[verifier::external_body]
pub(crate) fn sha1_digest(bytes: &[u8]) -> (r: [u8; 20])
    ensures
        r@ == sha1_of(bytes@),
{
    let mut hasher = sha1::Sha1::new();
    hasher.update(bytes);
    let out = hasher.finalize();
    out.into()
}

/// The lowercase hex digit for a nibble, as a byte.
pub open spec fn hex_digit8(n: int) -> u8 {
    if n < 10 {
        (48 + if 0 <= n { n } else { 0 }) as u8
    } else {
        (87 + if n <= 15 { n } else { 15 }) as u8
    }
}

/// The lowercase hex digit for a nibble, as a character.
pub open spec fn hex_digit(n: int) -> char {
    hex_digit8(n) as char
}

/// The lowercase hex rendering of a byte sequence: two digits per byte, high
/// nibble first.
pub open spec fn hex_str_of(b: Seq<u8>) -> Seq<char> {
    Seq::new(2 * b.len(), |i: int| if i % 2 == 0 {
        hex_digit(b[i / 2] as int / 16)
    } else {
        hex_digit(b[i / 2] as int % 16)
    })
}

/// Relies on hex::encode: two lowercase hex digits per input byte, high
/// nibble first.
#[verifier::external_body]
pub(crate) fn hex_encode(b: &[u8]) -> (r: String)
    ensures
        r@ == hex_str_of(b@),
{
    hex::encode(b)
}

pub open spec fn is_hex_digit_char(c: char) -> bool {
    ('0' <= c && c <= '9') || ('a' <= c && c <= 'f') || ('A' <= c && c <= 'F')
}

pub open spec fn hex_char_val(c: char) -> int {
    if '0' <= c && c <= '9' {
        c as int - 48
    } else if 'a' <= c && c <= 'f' {
        c as int - 87
    } else {
        c as int - 55
    }
}

/// Relies on hex::decode: it succeeds exactly on an even count of hex digits,
/// upper or lower case, and pairs each two digits into one byte.
#[verifier::external_body]
pub(crate) fn hex_decode(s: &str) -> (r: Option<Vec<u8>>)
    ensures
        match r {
            Some(v) => {
                &&& s@.len() % 2 == 0
                &&& forall|i: int| 0 <= i < s@.len() ==> is_hex_digit_char(#[trigger] s@[i])
                &&& v@.len() == s@.len() / 2
                &&& forall|i: int|
                    0 <= i < v@.len() ==> #[trigger] v@[i] == hex_char_val(s@[2 * i]) * 16
                        + hex_char_val(s@[2 * i + 1])
            },
            None => s@.len() % 2 != 0 || exists|i: int|
                0 <= i < s@.len() && !is_hex_digit_char(#[trigger] s@[i]),
        },
{
    match hex::decode(s) {
        Ok(v) => Some(v),
        Err(_) => None,
    }
}

/// The lowercase hex digit of a nibble.
pub(crate) fn hex_nibble(n: u8) -> (r: u8)
    requires
        n < 16,
    ensures
        r == hex_digit8(n as int),
{
    if n < 10 {
        48 + n
    } else {
        87 + n
    }
}

} // verus!
