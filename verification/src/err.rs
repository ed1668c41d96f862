//! Error kinds of the decoding pipeline.

use vstd::prelude::*;

verus! {

/// Why a buffer failed to decode.
///
/// `Signature` covers a boot sector or record without its expected magic,
/// `Fixup` an update-sequence-number mismatch, `Attribute` a structurally
/// malformed field or attribute, and `NotInUse` a well-formed record whose
/// in-use flag is clear (such records contribute nothing to an inventory).
#[derive(Clone, Copy, Debug, PartialEq, Eq, Structural)]
pub enum DecodeError {
    Signature,
    Fixup,
    Attribute,
    NotInUse,
}

} // verus!
