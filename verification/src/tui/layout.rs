//! Where things stand on the screen.
use vstd::prelude::*;

verus! {

/// A rectangle of the screen.
#[derive(Debug, Clone, Copy, PartialEq, Eq, Structural)]
pub struct Area {
    pub x: u16,
    pub y: u16,
    pub width: u16,
    pub height: u16,
}

impl Area {
    /// Whether every cell has coordinates.
    pub open spec fn wf(&self) -> bool {
        self.x + self.width <= u16::MAX && self.y + self.height <= u16::MAX
    }

    /// Whether another rectangle lies in this one.
    pub open spec fn encloses(&self, a: Area) -> bool {
        &&& self.x <= a.x && a.x + a.width <= self.x + self.width
        &&& self.y <= a.y && a.y + a.height <= self.y + self.height
    }
}

/// The smaller of two numbers.
pub open spec fn least(a: u16, b: u16) -> u16 {
    if a < b {
        a
    } else {
        b
    }
}

fn smaller(a: u16, b: u16) -> (r: u16)
    ensures
        r == least(a, b),
{
    if a < b {
        a
    } else {
        b
    }
}

/// The lowest rows of a rectangle, over its whole width.
pub fn bottom_rect(area: Area, height: u16) -> (r: Area)
    requires
        area.wf(),
    ensures
        r.x == area.x,
        r.width == area.width,
        r.height == least(height, area.height),
        r.y + r.height == area.y + area.height,
        area.encloses(r),
{
    let h = smaller(height, area.height);
    Area { x: area.x, y: area.y + (area.height - h), width: area.width, height: h }
}

/// A rectangle in the middle of another, cut to its size.
pub fn centered_rect(area: Area, width: u16, height: u16) -> (r: Area)
    requires
        area.wf(),
    ensures
        r.width == least(width, area.width),
        r.height == least(height, area.height),
        r.x == area.x + (area.width - r.width) / 2,
        r.y == area.y + (area.height - r.height) / 2,
        area.encloses(r),
{
    let w = smaller(width, area.width);
    let h = smaller(height, area.height);
    Area {
        x: area.x + (area.width - w) / 2,
        y: area.y + (area.height - h) / 2,
        width: w,
        height: h,
    }
}

/// What a border leaves of a height or a width.
pub fn inner(outer: u16) -> (r: usize)
    ensures
        r == (if outer < 2 {
            0
        } else {
            outer - 2
        }),
{
    if outer < 2 {
        0
    } else {
        (outer - 2) as usize
    }
}

/// The widths of the two halves of a split row, with one cell between them.
pub fn halves(width: usize) -> (r: (usize, usize))
    ensures
        width == 0 ==> r == (0usize, 0usize),
        width > 0 ==> r.0 + 1 + r.1 == width && r.0 == (width - 1) / 2,
{
    if width == 0 {
        (0, 0)
    } else {
        let left = (width - 1) / 2;
        (left, width - 1 - left)
    }
}

/// The places of a list that a pane shows: from its scroll on, as many as it is
/// high.
pub fn visible(scroll: usize, height: usize, len: usize) -> (r: (usize, usize))
    ensures
        r.0 == (if scroll < len {
            scroll
        } else {
            len
        }),
        r.1 == (if scroll + height < len {
            scroll + height
        } else {
            len as int
        }),
{
    if scroll >= len {
        (len, len)
    } else if height >= len - scroll {
        (scroll, len)
    } else {
        (scroll, scroll + height)
    }
}

} // verus!
