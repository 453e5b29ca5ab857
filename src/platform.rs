//! Types and facts taken from the platform crates.
use vstd::prelude::*;
use target_lexicon::{Architecture, PointerWidth};

verus! {

/// The error that the registry bindings report for a failed operation.
#[verifier::external_type_specification]
#[verifier::external_body]
pub struct ExStoreError(windows_result::Error);

/// An architecture family, as named by target-lexicon.
#[verifier::external_type_specification]
#[verifier::external_body]
pub struct ExArchitecture(Architecture);

/// The pointer width in bits of an architecture family, `None` where
/// target-lexicon knows none.
pub uninterp spec fn pointer_bits_of(family: Architecture) -> Option<u8>;

/// Relies on target_lexicon's `Architecture::pointer_width`: an error for an
/// unknown family, otherwise a width of 16, 32 or 64 bits (`PointerWidth::bits`);
/// the result depends on the family alone.
#[verifier::external_body]
pub(crate) fn family_pointer_width(family: Architecture) -> (r: Option<u8>)
    ensures
        r == pointer_bits_of(family),
        r matches Some(bits) ==> bits == 16 || bits == 32 || bits == 64,
{
    match family.pointer_width() {
        Ok(PointerWidth::U16) => Some(16),
        Ok(PointerWidth::U32) => Some(32),
        Ok(PointerWidth::U64) => Some(64),
        Err(()) => None,
    }
}

} // verus!
