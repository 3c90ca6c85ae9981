use vstd::prelude::*;
use crate::geometry::{len_ok, MAX_LEN};
use crate::text::MAX_TOTAL;

verus! {

/// Between `top` (inclusive) and `bottom` (exclusive) floats take `left` from
/// the left edge of the containing block and `right` from its right edge.
#[derive(Clone, Copy, Debug, PartialEq, Eq, Structural)]
pub struct FloatBand {
    pub top: i64,
    pub bottom: i64,
    pub left: i64,
    pub right: i64,
}

/// The horizontal band free of floats at some height: it starts at `x`, is
/// `width` wide, and holds up to `ceiling`, where it must be asked for again.
/// A negative `width` means that the band is unconstrained.
#[derive(Clone, Copy, Debug, PartialEq, Eq, Structural)]
pub struct Zone {
    pub x: i64,
    pub width: i64,
    pub ceiling: i64,
}

/// The float context that inline layout consults: the bands that floats
/// placed earlier occupy.
#[derive(Debug)]
pub struct Floats {
    pub bands: Vec<FloatBand>,
}

impl FloatBand {
    pub open spec fn wf(self) -> bool {
        0 <= self.top < self.bottom <= MAX_TOTAL && len_ok(self.left) && len_ok(self.right)
    }

    pub open spec fn holds(self, y: int) -> bool {
        self.top <= y < self.bottom
    }
}

/// The first of the first `n` bands that holds height `y`, if any.
pub open spec fn first_holding(b: Seq<FloatBand>, y: int, n: int) -> Option<int>
    decreases n,
{
    if n <= 0 {
        None
    } else {
        match first_holding(b, y, n - 1) {
            Some(k) => Some(k),
            None => if b[n - 1].holds(y) {
                Some(n - 1)
            } else {
                None
            },
        }
    }
}

/// The nearest top edge below `y` (the smallest `top > y`) among the
/// first `n` bands, or `MAX_TOTAL` where there is none.
pub open spec fn next_top(b: Seq<FloatBand>, y: int, n: int) -> int
    decreases n,
{
    if n <= 0 {
        MAX_TOTAL as int
    } else {
        let t = next_top(b, y, n - 1);
        if b[n - 1].top > y && b[n - 1].top < t {
            b[n - 1].top as int
        } else {
            t
        }
    }
}

pub open spec fn narrowed(max_width: int, left: int, right: int) -> int {
    if max_width - left - right > 0 {
        max_width - left - right
    } else {
        0
    }
}

/// The band free of floats at height `y` in a containing block `max_width`
/// wide.
pub open spec fn zone_at(b: Seq<FloatBand>, max_width: int, y: int) -> Zone {
    match first_holding(b, y, b.len() as int) {
        Some(k) => Zone {
            x: b[k].left,
            width: narrowed(max_width, b[k].left as int, b[k].right as int) as i64,
            ceiling: b[k].bottom,
        },
        None => Zone { x: 0, width: max_width as i64, ceiling: next_top(b, y, b.len() as int) as i64 },
    }
}

impl Floats {
    pub open spec fn wf(&self) -> bool {
        forall|i: int| 0 <= i < self.bands@.len() ==> (#[trigger] self.bands@[i]).wf()
    }

    pub fn new(bands: Vec<FloatBand>) -> (r: Floats)
        ensures
            r.bands@ == bands@,
    {
        Floats { bands }
    }

    /// The band free of floats at height `y`, for a containing block
    /// `max_width` wide.
    pub fn available_area(&self, max_width: i64, y: i64) -> (z: Zone)
        requires
            self.wf(),
            len_ok(max_width),
        ensures
            z == zone_at(self.bands@, max_width as int, y as int),
            0 <= z.width <= max_width,
            0 <= z.x <= MAX_LEN,
    {
        let n = self.bands.len();
        let mut i: usize = 0;
        let mut found: Option<usize> = None;
        let mut top: i64 = MAX_TOTAL;
        while i < n
            invariant
                self.wf(),
                n == self.bands@.len(),
                i <= n,
                found matches Some(k) ==> k < i && first_holding(self.bands@, y as int, i as int)
                    == Some(k as int),
                found is None ==> first_holding(self.bands@, y as int, i as int) is None,
                top == next_top(self.bands@, y as int, i as int),
                top <= MAX_TOTAL,
            decreases n - i,
        {
            let b = self.bands[i];
            if found.is_none() && b.top <= y && y < b.bottom {
                found = Some(i);
            }
            if b.top > y && b.top < top {
                top = b.top;
            }
            i = i + 1;
        }
        match found {
            Some(k) => {
                let b = self.bands[k];
                let w = if max_width - b.left - b.right > 0 {
                    max_width - b.left - b.right
                } else {
                    0
                };
                Zone { x: b.left, width: w, ceiling: b.bottom }
            },
            None => Zone { x: 0, width: max_width, ceiling: top },
        }
    }
}

} // verus!
