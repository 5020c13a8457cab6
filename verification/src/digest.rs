//! The position-key hash: a label's digest read as one ring position.
//!
//! Ring positions are 128-bit integers. The digest bytes are read big-endian,
//! so two positions compare exactly as the fixed-width lowercase hex renderings
//! of the same digests would compare lexicographically.

use vstd::prelude::*;

verus! {

/// The ring position of a label: its 128-bit digest value. The digest is a
/// fixed function of the label's characters alone, so equal labels always
/// land on equal positions.
pub uninterp spec fn position_of(label: Seq<char>) -> u128;

/// Relies on md5::compute: a 16-byte digest that depends only on the input
/// bytes; the bytes are read here as one big-endian integer.
#[verifier::external_body]
pub(crate) fn hash_position(label: &str) -> (r: u128)
    ensures
        r == position_of(label@),
{
    let digest = md5::compute(label.as_bytes());
    u128::from_be_bytes(digest.0)
}

} // verus!
