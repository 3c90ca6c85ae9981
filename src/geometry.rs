use vstd::prelude::*;

verus! {

/// Lengths are app units: sixty to a CSS pixel.
pub const AU_PER_PX: i64 = 60;

/// The largest length that a single box edge, content size, advance or font
/// metric may take.
pub const MAX_LEN: i64 = 1073741824;

pub open spec fn len_ok(v: i64) -> bool {
    0 <= v <= MAX_LEN
}

#[derive(Clone, Copy, Debug, PartialEq, Eq, Structural)]
pub struct Rect {
    pub x: i64,
    pub y: i64,
    pub width: i64,
    pub height: i64,
}

#[derive(Clone, Copy, Debug, PartialEq, Eq, Structural)]
pub struct EdgeSizes {
    pub top: i64,
    pub right: i64,
    pub bottom: i64,
    pub left: i64,
}

#[derive(Clone, Copy, Debug, PartialEq, Eq, Structural)]
pub struct Dimensions {
    pub content: Rect,
    pub padding: EdgeSizes,
    pub border: EdgeSizes,
    pub margin: EdgeSizes,
}

impl EdgeSizes {
    pub fn zero() -> (r: EdgeSizes)
        ensures
            r == (EdgeSizes { top: 0, right: 0, bottom: 0, left: 0 }),
    {
        EdgeSizes { top: 0, right: 0, bottom: 0, left: 0 }
    }

    pub open spec fn wf(self) -> bool {
        len_ok(self.top) && len_ok(self.right) && len_ok(self.bottom) && len_ok(self.left)
    }
}

impl Dimensions {
    /// Sizes and edges are lengths in range; the position is free.
    pub open spec fn wf(self) -> bool {
        len_ok(self.content.width) && len_ok(self.content.height) && self.padding.wf()
            && self.border.wf() && self.margin.wf()
    }

    pub open spec fn left_offset_spec(self) -> int {
        self.padding.left + self.border.left + self.margin.left
    }

    pub open spec fn right_offset_spec(self) -> int {
        self.padding.right + self.border.right + self.margin.right
    }

    pub open spec fn margin_box_width_spec(self) -> int {
        self.content.width + self.left_offset_spec() + self.right_offset_spec()
    }

    pub open spec fn margin_box_height_spec(self) -> int {
        self.content.height + self.padding.top + self.padding.bottom + self.border.top
            + self.border.bottom + self.margin.top + self.margin.bottom
    }

    /// Width of padding, border and margin on the left side.
    pub fn left_offset(&self) -> (r: i64)
        requires
            self.wf(),
        ensures
            r == self.left_offset_spec(),
    {
        self.padding.left + self.border.left + self.margin.left
    }

    /// Width of padding, border and margin on the right side.
    pub fn right_offset(&self) -> (r: i64)
        requires
            self.wf(),
        ensures
            r == self.right_offset_spec(),
    {
        self.padding.right + self.border.right + self.margin.right
    }

    pub fn margin_box_width(&self) -> (r: i64)
        requires
            self.wf(),
        ensures
            r == self.margin_box_width_spec(),
    {
        self.content.width + self.left_offset() + self.right_offset()
    }

    pub fn margin_box_height(&self) -> (r: i64)
        requires
            self.wf(),
        ensures
            r == self.margin_box_height_spec(),
    {
        self.content.height + self.padding.top + self.padding.bottom + self.border.top
            + self.border.bottom + self.margin.top + self.margin.bottom
    }

}

} // verus!
