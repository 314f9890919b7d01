//! Well-known keys of the reserved family.
//!
//! - `[0,0,0,0] || "next_id"` holds the next id to hand out;
//! - `[0,0,0,0] || "name:" || <name>` holds the id of the family of that name.

use super::prefixed;
use super::META_CF_ID;
use crate::bytes::append_bytes;
use crate::bytes::bytes_eq;
use crate::bytes::has_prefix;
use crate::bytes::lemma_prefix_range;
use crate::bytes::lex_le;
use crate::bytes::lex_lt;
use crate::bytes::put_be32;
use vstd::prelude::*;
use vstd::slice::slice_subrange;
use vstd::string::StringSliceAdditionalSpecFns;

verus! {

pub const NEXT_ID: &'static str = "next_id";

pub const NAME_PREFIX: &'static str = "name:";

pub const NAME_UPPER: &'static str = "name;";

fn meta_key(text: &str) -> (r: Vec<u8>)
    ensures
        r@ == prefixed(META_CF_ID, text.spec_bytes()),
{
    let mut k: Vec<u8> = Vec::new();
    put_be32(&mut k, META_CF_ID);
    append_bytes(&mut k, text.as_bytes());
    assert(k@ =~= prefixed(META_CF_ID, text.spec_bytes()));
    k
}

/// The key of the id counter.
pub fn next_id_key() -> (r: Vec<u8>)
    ensures
        r@ == prefixed(META_CF_ID, NEXT_ID.spec_bytes()),
{
    meta_key(NEXT_ID)
}

/// The start of the keys of all names.
pub open spec fn name_prefix() -> Seq<u8> {
    prefixed(META_CF_ID, NAME_PREFIX.spec_bytes())
}

/// The key of a family's name.
pub fn name_key(name: &str) -> (r: Vec<u8>)
    ensures
        r@ == name_prefix() + name.spec_bytes(),
{
    let mut k = meta_key(NAME_PREFIX);
    append_bytes(&mut k, name.as_bytes());
    k
}

/// Inclusive lower bound of the keys of names.
pub fn name_scan_prefix() -> (r: Vec<u8>)
    ensures
        r@ == name_prefix(),
{
    meta_key(NAME_PREFIX)
}

/// Exclusive upper bound of the keys of names: the prefix with its last
/// character, `:`, incremented to `;`.
pub fn name_scan_upper() -> (r: Vec<u8>)
    ensures
        r@ == prefixed(META_CF_ID, NAME_UPPER.spec_bytes()),
{
    meta_key(NAME_UPPER)
}

/// `std::str::from_utf8`: the text that the bytes encode, where they are valid
/// UTF-8.
#[verifier::external_body]
fn text_of(bytes: &[u8]) -> (r: Option<&str>)
    ensures
        r is Some <==> vstd::utf8::valid_utf8(bytes@),
        r matches Some(s) ==> s.spec_bytes() == bytes@,
{
    std::str::from_utf8(bytes).ok()
}

/// The name in the key of a name; `None` for any other key, and for a name
/// that is not text.
pub fn name_from_key(key: &[u8]) -> (r: Option<&str>)
    ensures
        r is Some <==> has_prefix(key@, name_prefix()) && vstd::utf8::valid_utf8(
            key@.skip(name_prefix().len() as int),
        ),
        r matches Some(s) ==> key@ == name_prefix() + s.spec_bytes(),
{
    let prefix = name_scan_prefix();
    let n: usize = prefix.len();
    if key.len() < n {
        return None;
    }
    let head = slice_subrange(key, 0, n);
    assert(head@ =~= key@.take(n as int));
    if !bytes_eq(head, prefix.as_slice()) {
        return None;
    }
    let tail = slice_subrange(key, n, key.len());
    assert(tail@ =~= key@.skip(n as int));
    assert(key@ =~= name_prefix() + tail@);
    text_of(tail)
}

/// The scan range of names holds exactly the keys that start as the key of a
/// name does.
pub proof fn lemma_name_scan_is_tight(key: Seq<u8>)
    ensures
        has_prefix(key, name_prefix()) <==> lex_le(name_prefix(), key) && lex_lt(
            key,
            prefixed(META_CF_ID, NAME_UPPER.spec_bytes()),
        ),
{
    reveal_strlit("name:");
    reveal_strlit("name;");
    vstd::string::is_ascii_spec_bytes(NAME_PREFIX);
    vstd::string::is_ascii_spec_bytes(NAME_UPPER);
    let p = name_prefix();
    let u = prefixed(META_CF_ID, NAME_UPPER.spec_bytes());
    let lo = NAME_PREFIX.spec_bytes();
    let hi = NAME_UPPER.spec_bytes();
    assert(lo.len() == 5);
    assert(hi.len() == 5);
    assert(lo[4] == 58u8 && hi[4] == 59u8);
    assert(p.last() == 58u8);
    assert(p.drop_last().push(59u8) =~= u);
    lemma_prefix_range(p, key);
}

} // verus!
