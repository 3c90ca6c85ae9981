use vstd::prelude::*;
use crate::geometry::{AU_PER_PX, MAX_LEN};

verus! {

/// The used size of replaced content (an image): both given sizes are taken as
/// they are; one given size is paired with the other scaled by the intrinsic
/// aspect ratio (rounded down to an app unit); none takes the intrinsic pixel
/// size. A missing intrinsic side (a resource that failed to decode) makes the
/// scaled side zero. A scaled side is capped at `MAX_LEN`.
pub open spec fn replaced_size_spec(
    specified_width: Option<i64>,
    specified_height: Option<i64>,
    intrinsic_width_px: i64,
    intrinsic_height_px: i64,
) -> (int, int) {
    match (specified_width, specified_height) {
        (Some(w), Some(h)) => (w as int, h as int),
        (Some(w), None) => (
            w as int,
            if intrinsic_width_px > 0 {
                cap(w * intrinsic_height_px / (intrinsic_width_px as int))
            } else {
                0
            },
        ),
        (None, Some(h)) => (
            if intrinsic_height_px > 0 {
                cap(h * intrinsic_width_px / (intrinsic_height_px as int))
            } else {
                0
            },
            h as int,
        ),
        (None, None) => (
            intrinsic_width_px * AU_PER_PX,
            intrinsic_height_px * AU_PER_PX,
        ),
    }
}

pub open spec fn cap(v: int) -> int {
    if v > MAX_LEN {
        MAX_LEN as int
    } else {
        v
    }
}

pub open spec fn opt_len_ok(v: Option<i64>) -> bool {
    match v {
        Some(x) => 0 <= x <= MAX_LEN,
        None => true,
    }
}

/// Resolves the width and height (app units) of replaced content from the
/// sizes given for it, if any, and its intrinsic size in pixels.
pub fn resolve_replaced_size(
    specified_width: Option<i64>,
    specified_height: Option<i64>,
    intrinsic_width_px: i64,
    intrinsic_height_px: i64,
) -> (r: (i64, i64))
    requires
        opt_len_ok(specified_width),
        opt_len_ok(specified_height),
        0 <= intrinsic_width_px <= MAX_LEN / AU_PER_PX,
        0 <= intrinsic_height_px <= MAX_LEN / AU_PER_PX,
    ensures
        (r.0 as int, r.1 as int) == replaced_size_spec(
            specified_width,
            specified_height,
            intrinsic_width_px,
            intrinsic_height_px,
        ),
        0 <= r.0 <= MAX_LEN,
        0 <= r.1 <= MAX_LEN,
{
    match (specified_width, specified_height) {
        (Some(w), Some(h)) => (w, h),
        (Some(w), None) => {
            if intrinsic_width_px > 0 {
                proof {
                    assert(0 <= w * intrinsic_height_px <= MAX_LEN * MAX_LEN) by (nonlinear_arith)
                        requires
                            0 <= w <= MAX_LEN,
                            0 <= intrinsic_height_px <= MAX_LEN,
                    ;
                    assert(0 <= w * intrinsic_height_px / (intrinsic_width_px as int) <= w
                        * intrinsic_height_px) by (nonlinear_arith)
                        requires
                            0 <= w * intrinsic_height_px,
                            intrinsic_width_px >= 1,
                    ;
                }
                let h = w * intrinsic_height_px / intrinsic_width_px;
                (w, if h > MAX_LEN { MAX_LEN } else { h })
            } else {
                (w, 0)
            }
        },
        (None, Some(h)) => {
            if intrinsic_height_px > 0 {
                proof {
                    assert(0 <= h * intrinsic_width_px <= MAX_LEN * MAX_LEN) by (nonlinear_arith)
                        requires
                            0 <= h <= MAX_LEN,
                            0 <= intrinsic_width_px <= MAX_LEN,
                    ;
                    assert(0 <= h * intrinsic_width_px / (intrinsic_height_px as int) <= h
                        * intrinsic_width_px) by (nonlinear_arith)
                        requires
                            0 <= h * intrinsic_width_px,
                            intrinsic_height_px >= 1,
                    ;
                }
                let w = h * intrinsic_width_px / intrinsic_height_px;
                (if w > MAX_LEN { MAX_LEN } else { w }, h)
            } else {
                (0, h)
            }
        },
        (None, None) => (intrinsic_width_px * AU_PER_PX, intrinsic_height_px * AU_PER_PX),
    }
}

} // verus!
