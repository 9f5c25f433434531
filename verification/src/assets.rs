//! The asset-derivative policy.
//!
//! The core performs no image work, but it owns the two rules that whoever
//! does must follow: the thumbnail target width is chosen by a two-bucket
//! aspect-ratio rule, and a derivative is generated only if its output
//! does not already exist, so regeneration over existing outputs is a
//! no-op.

use vstd::prelude::*;

verus! {

/// The thumbnail width bucket: narrow below an aspect ratio of three
/// (width under three times the height), wide at or above it.
pub open spec fn spec_thumbnail_width(width: u32, height: u32) -> u32 {
    if (width as int) < 3 * (height as int) {
        500
    } else {
        900
    }
}

/// Picks the thumbnail target width for an image's pixel dimensions.
pub fn thumbnail_width(width: u32, height: u32) -> (w: u32)
    ensures
        w == spec_thumbnail_width(width, height),
{
    if (width as u64) < 3 * (height as u64) {
        500
    } else {
        900
    }
}

/// Which derivatives an image still needs: exactly the missing ones.
/// Once both outputs exist, a rerun generates nothing.
pub fn derivative_actions(thumbnail_exists: bool, blur_exists: bool) -> (r: (bool, bool))
    ensures
        r.0 == !thumbnail_exists,
        r.1 == !blur_exists,
{
    (!thumbnail_exists, !blur_exists)
}

} // verus!
