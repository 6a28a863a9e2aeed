//! Axis-aligned boxes in the pixels of the recognized image.

use vstd::prelude::*;

verus! {

/// A box in the pixel coordinates of the image, with the origin at its top left corner.
#[derive(Debug, Clone, Copy, PartialEq, Eq, Structural)]
pub struct BoundingBox {
    pub left: i32,
    pub top: i32,
    pub right: i32,
    pub bottom: i32,
}

/// The length of the interval from `from` to `to`: zero where it runs backwards.
pub open spec fn extent(from: i32, to: i32) -> int {
    if from < to {
        to - from
    } else {
        0
    }
}

/// The extent from `from` to `to` can be computed with a subtraction of pixels.
pub open spec fn measurable(from: i32, to: i32) -> bool {
    i32::MIN <= to - from <= i32::MAX
}

impl BoundingBox {
    /// The box that stands for a missing one: all its edges are at the origin.
    pub open spec fn origin() -> BoundingBox {
        BoundingBox { left: 0, top: 0, right: 0, bottom: 0 }
    }

    /// The width in pixels.
    pub open spec fn spec_width(self) -> int {
        extent(self.left, self.right)
    }

    /// The height in pixels.
    pub open spec fn spec_height(self) -> int {
        extent(self.top, self.bottom)
    }

    /// The box with the given edges.
    pub fn from_lrtb(left: i32, top: i32, right: i32, bottom: i32) -> (b: Self)
        ensures
            b.left == left,
            b.top == top,
            b.right == right,
            b.bottom == bottom,
    {
        Self { left, top, right, bottom }
    }

    /// The width in pixels, zero where the right edge is not beyond the left one.
    pub fn width(&self) -> (w: i32)
        requires
            measurable(self.left, self.right),
        ensures
            w == self.spec_width(),
            self.left <= self.right ==> w == self.right - self.left,
            self.right <= self.left ==> w == 0,
    {
        (self.right - self.left).max(0)
    }

    /// The height in pixels, zero where the bottom edge is not below the top one.
    pub fn height(&self) -> (h: i32)
        requires
            measurable(self.top, self.bottom),
        ensures
            h == self.spec_height(),
            self.top <= self.bottom ==> h == self.bottom - self.top,
            self.bottom <= self.top ==> h == 0,
    {
        (self.bottom - self.top).max(0)
    }

    /// Whether the box has neither width nor height. A box with only one of the
    /// two, such as a horizontal rule, is not empty.
    pub fn is_empty(&self) -> (e: bool)
        requires
            measurable(self.left, self.right),
            self.spec_width() == 0 ==> measurable(self.top, self.bottom),
        ensures
            e == (self.spec_width() == 0 && self.spec_height() == 0),
            e <==> self.right <= self.left && self.bottom <= self.top,
    {
        self.width() == 0 && self.height() == 0
    }
}

/// Every extent between edges that lie in an image can be computed.
pub proof fn edges_in_an_image_are_measurable(from: i32, to: i32)
    requires
        0 <= from,
        0 <= to,
    ensures
        measurable(from, to),
{
}

/// Where a box lies does not matter to its extents: moved by `dx` and `dy`, it has the
/// same width and height.
pub proof fn moving_keeps_extents(b: BoundingBox, moved: BoundingBox, dx: int, dy: int)
    requires
        moved.left == b.left + dx,
        moved.right == b.right + dx,
        moved.top == b.top + dy,
        moved.bottom == b.bottom + dy,
    ensures
        moved.spec_width() == b.spec_width(),
        moved.spec_height() == b.spec_height(),
{
}

/// A box cut in two by an upright line has the widths of its parts together; and so
/// for its height and a level line.
pub proof fn extents_of_parts_add_up(
    b: BoundingBox,
    first: BoundingBox,
    second: BoundingBox,
    across: BoundingBox,
    below: BoundingBox,
)
    requires
        first.left == b.left,
        first.right == second.left,
        second.right == b.right,
        b.left <= first.right <= b.right,
        across.top == b.top,
        across.bottom == below.top,
        below.bottom == b.bottom,
        b.top <= across.bottom <= b.bottom,
    ensures
        b.spec_width() == first.spec_width() + second.spec_width(),
        b.spec_height() == across.spec_height() + below.spec_height(),
        b.spec_width() == b.right - b.left,
        b.spec_height() == b.bottom - b.top,
{
}

impl Default for BoundingBox {
    fn default() -> (b: Self)
        ensures
            b == Self::origin(),
            b.left == 0,
            b.top == 0,
            b.right == 0,
            b.bottom == 0,
    {
        Self { left: 0, top: 0, right: 0, bottom: 0 }
    }
}

} // verus!
