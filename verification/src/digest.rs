//! The Blot (Objecthash with Multihash hints) hashes the library computes,
//! all with SHA3-256, through the `blot` library.
use vstd::prelude::*;

use blot::multihash::Sha3256;
use blot::{Blot, Multihash};
use blot::tag::Tag;
use std::collections::HashSet;

use crate::text::views;

verus! {

/// The Blot hash (SHA3-256) of a text: `<str as Blot>::blot`.
pub uninterp spec fn unicode_blot(text: Seq<char>) -> Seq<u8>;

/// The Blot hash (SHA3-256) of a set of texts: `<HashSet<&str> as Blot>::blot`.
pub uninterp spec fn set_blot(items: Set<Seq<char>>) -> Seq<u8>;

/// The Blot hash (SHA3-256) of a list of texts: `<Vec<String> as Blot>::blot`.
pub uninterp spec fn list_blot(items: Seq<Seq<char>>) -> Seq<u8>;

/// `Sha3256::digest_collection(Tag::Dict, list)`: the dictionary digest of
/// already ordered entry hashes.
pub uninterp spec fn dict_digest(list: Seq<Seq<u8>>) -> Seq<u8>;

/// The lower-case hexadecimal digit of `d`, which is below 16.
pub open spec fn hex_digit(d: int) -> char {
    if d < 10 {
        (48 + d) as char
    } else {
        (87 + d) as char
    }
}

/// The lower-case hexadecimal text of `bytes`, two digits a byte.
pub open spec fn hex_lower(bytes: Seq<u8>) -> Seq<char>
    decreases bytes.len(),
{
    if bytes.len() == 0 {
        Seq::empty()
    } else {
        hex_lower(bytes.drop_last()) + seq![
            hex_digit(bytes.last() as int / 16),
            hex_digit(bytes.last() as int % 16),
        ]
    }
}

/// How a SHA3-256 multihash is written: the code `16`, the length `20`
/// (both in hexadecimal) and the digest in hexadecimal.
pub open spec fn multihash_text(digest: Seq<u8>) -> Seq<char> {
    seq!['1', '6', '2', '0'] + hex_lower(digest)
}

pub open spec fn byte_views(v: Seq<Vec<u8>>) -> Seq<Seq<u8>> {
    Seq::new(v.len(), |i: int| v[i]@)
}

/// `<str as Blot>::blot` with `Sha3256`: by blot's source, the SHA3-256 digest
/// of the Unicode tag and the text's UTF-8 bytes, 32 bytes long. The digest
/// itself is named, not stated.
#[verifier::external_body]
pub(crate) fn blot_text(text: &str) -> (r: Vec<u8>)
    ensures
        r@ == unicode_blot(text@),
        r@.len() == 32,
{
    text.blot(&Sha3256).as_ref().to_vec()
}

/// `<HashSet<&str> as Blot>::blot` with `Sha3256`, on the set of the given
/// texts. By blot's source it sorts the members' hashes before digesting
/// them, so the result is a function of the set; it is 32 bytes long.
#[verifier::external_body]
pub(crate) fn blot_text_set(items: &Vec<String>) -> (r: Vec<u8>)
    ensures
        r@ == set_blot(views(items@).to_set()),
        r@.len() == 32,
{
    let set: HashSet<&str> = items.iter().map(|item| item.as_str()).collect();
    set.blot(&Sha3256).as_ref().to_vec()
}

/// `Sha3256::digest_collection(Tag::Dict, list)`: digests the entry hashes in
/// the order given; 32 bytes long.
#[verifier::external_body]
pub(crate) fn digest_dict(list: Vec<Vec<u8>>) -> (r: Vec<u8>)
    ensures
        r@ == dict_digest(byte_views(list@)),
        r@.len() == 32,
{
    Sha3256.digest_collection(Tag::Dict, list).as_ref().to_vec()
}

/// `format!("{}", blot::multihash::Hash::new(Sha3256, digest))`: by blot's source the `Display`
/// of a multihash writes the code and the length of SHA3-256, then each byte
/// of the digest, all as two lower-case hexadecimal digits.
#[verifier::external_body]
pub(crate) fn render_multihash(digest: Vec<u8>) -> (r: String)
    ensures
        r@ == multihash_text(digest@),
{
    format!("{}", blot::multihash::Hash::new(Sha3256, digest))
}

/// `format!("{}", items.digest(Sha3256))` for a list of texts: by blot's
/// source, `digest` is the multihash of the list's `blot`, written as
/// `render_multihash` writes it.
#[verifier::external_body]
pub(crate) fn render_list_digest(items: &Vec<String>) -> (r: String)
    ensures
        r@ == multihash_text(list_blot(views(items@))),
{
    format!("{}", items.digest(Sha3256))
}

} // verus!
