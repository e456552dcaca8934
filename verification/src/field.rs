//! Validation of a generation request: the dimensions and the iteration
//! budget of a run. A zero width or height is rejected before any
//! allocation, since the recurrence reduces coordinates modulo the
//! dimensions and a zero modulus has no meaning.

use vstd::prelude::*;

verus! {

/// Rejection of a generation request before any allocation.
#[derive(Clone, Copy, Debug, PartialEq, Eq, Structural)]
pub enum FieldError {
    /// The width or height is zero, or so large that the iteration budget
    /// does not fit in `u64`.
    InvalidDimensions,
}

/// The iteration budget of a run: 64 recurrence steps per pixel, so the
/// coverage grows with the image area.
pub open spec fn spec_iteration_count(width: int, height: int) -> int {
    width * height * 64
}

/// The number of recurrence steps for a `width x height` field.
pub fn iteration_count(width: u32, height: u32) -> (r: Result<u64, FieldError>)
    ensures
        width > 0 && height > 0 && spec_iteration_count(width as int, height as int)
            <= u64::MAX ==> r == Ok::<u64, FieldError>(
            spec_iteration_count(width as int, height as int) as u64,
        ),
        width == 0 || height == 0 || spec_iteration_count(width as int, height as int)
            > u64::MAX ==> r == Err::<u64, FieldError>(FieldError::InvalidDimensions),
{
    if width == 0 || height == 0 {
        return Err(FieldError::InvalidDimensions);
    }
    assert((width as int) * (height as int) <= u64::MAX) by (nonlinear_arith)
        requires
            width <= u32::MAX,
            height <= u32::MAX,
    ;
    let wh: u64 = (width as u64) * (height as u64);
    match wh.checked_mul(64) {
        Some(n) => Ok(n),
        None => Err(FieldError::InvalidDimensions),
    }
}

} // verus!
