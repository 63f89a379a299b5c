use vstd::prelude::*;

verus! {

/// An axis-aligned rectangle in destination pixel space: the placement of one
/// sprite within a spritesheet.
#[derive(Clone, Copy, PartialEq, Eq, Structural, Debug)]
pub struct Rect {
    pub x: u32,
    pub y: u32,
    pub w: u32,
    pub h: u32,
}

impl Rect {
    /// The exclusive right edge of the rectangle.
    pub open spec fn right(self) -> int {
        self.x + self.w
    }

    /// The exclusive bottom edge of the rectangle.
    pub open spec fn bottom(self) -> int {
        self.y + self.h
    }

    /// True when the two rectangles share no pixel.
    pub open spec fn disjoint(self, other: Rect) -> bool {
        ||| self.right() <= other.x
        ||| other.right() <= self.x
        ||| self.bottom() <= other.y
        ||| other.bottom() <= self.y
    }

    /// True when the rectangle lies wholly inside a bin of the given size.
    pub open spec fn inside(self, w: int, h: int) -> bool {
        self.right() <= w && self.bottom() <= h
    }

    /// True when the pixel at (px, py) lies within the rectangle.
    pub open spec fn covers(self, px: int, py: int) -> bool {
        self.x <= px < self.right() && self.y <= py < self.bottom()
    }

    /// Exec mirror of `disjoint`.
    pub fn check_disjoint(&self, other: &Rect) -> (r: bool)
        requires
            self.right() <= u64::MAX,
            other.right() <= u64::MAX,
            self.bottom() <= u64::MAX,
            other.bottom() <= u64::MAX,
        ensures
            r == self.disjoint(*other),
    {
        let sr: u64 = self.x as u64 + self.w as u64;
        let sb: u64 = self.y as u64 + self.h as u64;
        let or: u64 = other.x as u64 + other.w as u64;
        let ob: u64 = other.y as u64 + other.h as u64;
        sr <= other.x as u64 || or <= self.x as u64 || sb <= other.y as u64 || ob <= self.y as u64
    }
}

} // verus!
