//! The one decision the raster-export path makes of its own: which pixel
//! dimension a rendering target gets. The rendering itself is an external
//! collaborator's work and carries no invariants of this library.

use vstd::prelude::*;

verus! {

/// The dimension the export uses: the caller's request when it is
/// positive, else the drawing's natural size.
pub fn effective_dimension(requested: u32, natural: u32) -> (r: u32)
    ensures
        r == (if requested > 0 {
            requested
        } else {
            natural
        }),
{
    if requested > 0 {
        requested
    } else {
        natural
    }
}

} // verus!
