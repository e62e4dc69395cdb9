use vstd::prelude::*;

use crate::errors::TrieError;

verus! {

/// The minimal big-endian byte string of `n`: empty for zero, otherwise
/// without leading zeroes.
pub open spec fn be_bytes(n: nat) -> Seq<u8>
    decreases n,
{
    if n == 0 {
        Seq::empty()
    } else {
        be_bytes(n / 256).push((n % 256) as u8)
    }
}

/// The header of the canonical recursive length-prefixed serialization:
/// one tag byte carrying the payload length below 56, otherwise a tag
/// carrying the length of the big-endian length, then that length.
pub open spec fn rlp_header_bytes(list: bool, n: int) -> Seq<u8> {
    if n < 56 {
        seq![((if list { 192int } else { 128int }) + n) as u8]
    } else {
        seq![((if list { 247int } else { 183int }) + be_bytes(n as nat).len()) as u8] + be_bytes(
            n as nat,
        )
    }
}

/// The canonical serialization of a byte string: a single byte below 0x80
/// stands alone, otherwise a string header precedes the bytes.
pub open spec fn rlp_str(b: Seq<u8>) -> Seq<u8> {
    if b.len() == 1 && b[0] < 128 {
        b
    } else {
        rlp_header_bytes(false, b.len() as int) + b
    }
}

/// Relies on alloy_rlp's byte-string encoder: it emits exactly the
/// canonical string serialization of the input bytes.
#[verifier::external_body]
pub(crate) fn rlp_encode_bytes(b: &[u8]) -> (r: Vec<u8>)
    ensures
        r@ == rlp_str(b@),
{
    let mut out: Vec<u8> = Vec::new();
    alloy_rlp::Encodable::encode(b, &mut out);
    out
}

/// Relies on alloy_rlp's header encoder: it emits exactly the canonical
/// header for the given kind and payload length.
#[verifier::external_body]
pub(crate) fn rlp_header_encode(list: bool, payload_length: usize) -> (r: Vec<u8>)
    ensures
        r@ == rlp_header_bytes(list, payload_length as int),
{
    let mut out: Vec<u8> = Vec::new();
    alloy_rlp::Header { list, payload_length }.encode(&mut out);
    out
}

/// The big-endian value of a byte string.
pub open spec fn be_value(s: Seq<u8>) -> int
    decreases s.len(),
{
    if s.len() == 0 {
        0
    } else {
        be_value(s.drop_last()) * 256 + s.last()
    }
}

/// Parsing one canonical header at the front of `b`: the item kind, the
/// header length and the payload length, or `None` when the bytes do not
/// begin with a well-formed header whose payload fits in the remainder
/// (short input, a non-canonical single byte, a padded or short long
/// length). A single byte below 0x80 is its own payload.
pub open spec fn parse_header(b: Seq<u8>) -> Option<(bool, int, int)> {
    if b.len() == 0 {
        None
    } else {
        let b0 = b[0] as int;
        if b0 <= 127 {
            Some((false, 0, 1))
        } else if b0 <= 183 {
            let n = b0 - 128;
            if n == 1 && (b.len() < 2 || b[1] < 128) {
                None
            } else if b.len() - 1 < n {
                None
            } else {
                Some((false, 1, n))
            }
        } else if b0 <= 191 {
            let ll = b0 - 183;
            if b.len() - 1 < ll {
                None
            } else if b[1] == 0 {
                None
            } else {
                let n = be_value(b.subrange(1, 1 + ll));
                if n < 56 {
                    None
                } else if b.len() - 1 - ll < n {
                    None
                } else {
                    Some((false, 1 + ll, n))
                }
            }
        } else if b0 <= 247 {
            let n = b0 - 192;
            if b.len() - 1 < n {
                None
            } else {
                Some((true, 1, n))
            }
        } else {
            let ll = b0 - 247;
            if b.len() - 1 < ll {
                None
            } else if b[1] == 0 {
                None
            } else {
                let n = be_value(b.subrange(1, 1 + ll));
                if n < 56 {
                    None
                } else if b.len() - 1 - ll < n {
                    None
                } else {
                    Some((true, 1 + ll, n))
                }
            }
        }
    }
}

/// Relies on alloy_rlp's header decoder: it accepts exactly the
/// well-formed canonical headers (checking single-byte and long-length
/// canonicality and that the payload fits), returning the item kind and
/// the payload length; the header length is what it consumed.
#[verifier::external_body]
pub(crate) fn rlp_parse_header(b: &[u8]) -> (r: Result<(bool, usize, usize), TrieError>)
    ensures
        match r {
            Ok(h) => parse_header(b@) == Some((h.0, h.1 as int, h.2 as int)),
            Err(e) => parse_header(b@) is None && e == TrieError::Decoder,
        },
{
    let mut buf = b;
    match alloy_rlp::Header::decode(&mut buf) {
        Ok(h) => Ok((h.list, b.len() - buf.len(), h.payload_length)),
        Err(_) => Err(TrieError::Decoder),
    }
}

} // verus!
