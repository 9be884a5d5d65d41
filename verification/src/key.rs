//! Physical keys, as the keyboard listener reports them.

use device_query::Keycode;
use vstd::prelude::*;

verus! {

/// The listener's key identifier. Nothing of its inside is visible here: two
/// keys are told apart by equality alone.
#[verifier::external_type_specification]
#[verifier::external_body]
pub struct ExKeycode(Keycode);

/// `<device_query::Keycode as PartialEq>::eq`, which that crate derives for
/// its enum. The enum has no fields, so the derived test returns `true`
/// exactly when both values are the same variant: the same key.
pub assume_specification[ <Keycode as PartialEq>::eq ](a: &Keycode, b: &Keycode) -> (r: bool)
    ensures
        r == (*a == *b),
;

} // verus!
