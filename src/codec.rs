//! Calls into the base-58, hexadecimal and public-key crates, and into `str::trim`.
use solana_program::pubkey::Pubkey;
use std::str::FromStr;
use vstd::prelude::*;

use crate::text::{all_b58, all_hex};

verus! {

/// What base-58 decoding gives for a text: its bytes, or nothing when the text is not base-58.
pub uninterp spec fn base58_decoded(s: Seq<char>) -> Option<Seq<u8>>;

/// The text by which a 32-byte public key is displayed.
pub uninterp spec fn pubkey_string(b: Seq<u8>) -> Seq<char>;

/// A text with its leading and trailing whitespace removed.
pub uninterp spec fn trimmed(s: Seq<char>) -> Seq<char>;

pub open spec fn bytes_view(r: Option<Vec<u8>>) -> Option<Seq<u8>> {
    match r {
        Some(v) => Some(v@),
        None => None,
    }
}

pub open spec fn hex_value(c: char) -> nat {
    if '0' <= c && c <= '9' {
        (c as u32 - '0' as u32) as nat
    } else if 'a' <= c && c <= 'f' {
        (c as u32 - 'a' as u32 + 10) as nat
    } else {
        (c as u32 - 'A' as u32 + 10) as nat
    }
}

/// The bytes written by an even-length string of hexadecimal digits, high digit first.
pub open spec fn hex_bytes(s: Seq<char>) -> Seq<u8> {
    Seq::new(s.len() / 2, |i: int| (hex_value(s[2 * i]) * 16 + hex_value(s[2 * i + 1])) as u8)
}

/// The 32 bytes of a public key written in base-58, as `Pubkey::from_str` accepts it:
/// at most 44 characters that decode to exactly 32 bytes.
pub open spec fn pubkey_decoded(s: Seq<char>) -> Option<Seq<u8>> {
    match base58_decoded(s) {
        Some(b) => if s.len() <= 44 && b.len() == 32 {
            Some(b)
        } else {
            None
        },
        None => None,
    }
}

/// Relies on `bs58::decode(..).into_vec()`: the decoded bytes, or an error for text
/// that is not base-58.
#[verifier::external_body]
pub(crate) fn decode_base58(s: &Vec<char>) -> (r: Option<Vec<u8>>)
    ensures
        bytes_view(r) == base58_decoded(s@),
{
    let t: String = s.iter().collect();
    bs58::decode(t).into_vec().ok()
}

/// Relies on `hex::decode`: an error for an odd number of digits, else one byte for
/// each pair of digits, the first digit the high one.
#[verifier::external_body]
pub(crate) fn decode_hex(s: &Vec<char>) -> (r: Option<Vec<u8>>)
    requires
        all_hex(s@),
    ensures
        r is Some <==> s@.len() % 2 == 0,
        r is Some ==> r->0@ == hex_bytes(s@),
{
    let t: String = s.iter().collect();
    hex::decode(t).ok()
}

/// Relies on `Pubkey::from_str`: text longer than 44 bytes is refused, the rest is
/// base-58 decoded (with `bs58::decode`) and accepted when that gives 32 bytes.
/// Base-58 characters are one byte each, so bytes and characters count alike.
#[verifier::external_body]
pub(crate) fn parse_pubkey(s: &Vec<char>) -> (r: Option<Vec<u8>>)
    requires
        all_b58(s@),
    ensures
        bytes_view(r) == pubkey_decoded(s@),
{
    let t: String = s.iter().collect();
    match Pubkey::from_str(&t) {
        Ok(k) => Some(k.to_bytes().to_vec()),
        Err(_) => None,
    }
}

/// Relies on `Pubkey`'s `Display`: the text of a public key, a function of its bytes.
#[verifier::external_body]
pub(crate) fn pubkey_text(k: &Vec<u8>) -> (r: String)
    requires
        k@.len() == 32,
    ensures
        r@ == pubkey_string(k@),
{
    let mut a = [0u8; 32];
    a.copy_from_slice(k.as_slice());
    Pubkey::new_from_array(a).to_string()
}

/// Relies on `str::trim`: the text without leading and trailing whitespace.
#[verifier::external_body]
pub(crate) fn trim_text(s: &str) -> (r: String)
    ensures
        r@ == trimmed(s@),
{
    s.trim().to_string()
}

} // verus!
