use vstd::prelude::*;

verus! {

/// Lengths are whole logical pixels. The largest `u32` stands for an unbounded
/// length: an axis whose maximum is `UNBOUNDED` may grow without limit.
pub const UNBOUNDED: u32 = 0xffff_ffff;

/// Clamps `v` into `[lo, hi]`, checking the lower bound first.
pub open spec fn clamp(v: int, lo: int, hi: int) -> int {
    if v < lo {
        lo
    } else if v > hi {
        hi
    } else {
        v
    }
}

/// The difference of two lengths, never below zero.
pub open spec fn sat_sub(a: int, b: int) -> int {
    if a > b {
        a - b
    } else {
        0
    }
}

#[derive(Clone, Copy, Debug, PartialEq, Eq, Structural)]
pub enum Axis {
    Horizontal,
    Vertical,
}

impl Axis {
    pub open spec fn flipped(self) -> Axis {
        match self {
            Axis::Horizontal => Axis::Vertical,
            Axis::Vertical => Axis::Horizontal,
        }
    }

    /// The other axis.
    pub fn flip(&self) -> (r: Axis)
        ensures
            r == self.flipped(),
            r != *self,
    {
        match self {
            Axis::Horizontal => Axis::Vertical,
            Axis::Vertical => Axis::Horizontal,
        }
    }

    pub open spec fn of_direction(dir: AxisDirection) -> Axis {
        match dir {
            AxisDirection::Up | AxisDirection::Down => Axis::Vertical,
            AxisDirection::Left | AxisDirection::Right => Axis::Horizontal,
        }
    }

    /// The axis along which `dir` points.
    pub fn from_direction(dir: AxisDirection) -> (r: Axis)
        ensures
            r == Axis::of_direction(dir),
    {
        match dir {
            AxisDirection::Up | AxisDirection::Down => Axis::Vertical,
            AxisDirection::Left | AxisDirection::Right => Axis::Horizontal,
        }
    }
}

#[derive(Clone, Copy, Debug, PartialEq, Eq, Structural)]
pub enum VerticalDirection {
    Down,
    Up,
}

#[derive(Clone, Copy, Debug, PartialEq, Eq, Structural)]
pub enum AxisDirection {
    Up,
    Right,
    Down,
    Left,
}

#[derive(Clone, Copy, Debug, PartialEq, Eq, Structural)]
pub enum ScrollDirection {
    Idle,
    Forward,
    Reverse,
}

#[derive(Clone, Copy, Debug, PartialEq, Eq, Structural)]
pub enum TextBaseline {
    Alphabetic,
    Ideographic,
}

#[derive(Clone, Copy, Debug, PartialEq, Eq, Structural)]
pub enum TextDirection {
    /// The text flows from right to left (e.g. Arabic, Hebrew).
    RTL,
    /// The text flows from left to right (e.g. English, French).
    LTR,
}

#[derive(Clone, Copy, Debug, PartialEq, Eq, Structural)]
pub enum Clip {
    Disabled,
    HardEdge,
    AntiAlias,
    AntiAliasWithSaveLayer,
}

#[derive(Clone, Copy, Debug, PartialEq, Eq, Structural)]
pub struct Size {
    pub width: u32,
    pub height: u32,
}

impl Size {
    pub fn new(width: u32, height: u32) -> (r: Size)
        ensures
            r.width == width,
            r.height == height,
    {
        Size { width, height }
    }

    pub fn zero() -> (r: Size)
        ensures
            r.width == 0,
            r.height == 0,
    {
        Size { width: 0, height: 0 }
    }

    /// True when either side has no extent.
    pub fn is_empty(&self) -> (r: bool)
        ensures
            r == (self.width == 0 || self.height == 0),
    {
        self.width == 0 || self.height == 0
    }

    pub open spec fn main_of(self, axis: Axis) -> u32 {
        match axis {
            Axis::Horizontal => self.width,
            Axis::Vertical => self.height,
        }
    }

    pub open spec fn cross_of(self, axis: Axis) -> u32 {
        match axis {
            Axis::Horizontal => self.height,
            Axis::Vertical => self.width,
        }
    }

    /// The extent along `axis`.
    pub fn main_size(&self, axis: Axis) -> (r: u32)
        ensures
            r == self.main_of(axis),
    {
        match axis {
            Axis::Horizontal => self.width,
            Axis::Vertical => self.height,
        }
    }

    /// The extent across `axis`.
    pub fn cross_size(&self, axis: Axis) -> (r: u32)
        ensures
            r == self.cross_of(axis),
    {
        match axis {
            Axis::Horizontal => self.height,
            Axis::Vertical => self.width,
        }
    }

    pub open spec fn from_main_cross(axis: Axis, main: u32, cross: u32) -> Size {
        match axis {
            Axis::Horizontal => Size { width: main, height: cross },
            Axis::Vertical => Size { width: cross, height: main },
        }
    }

    /// The size that has extent `main` along `axis` and `cross` across it.
    pub fn with_main_cross(axis: Axis, main: u32, cross: u32) -> (r: Size)
        ensures
            r == Size::from_main_cross(axis, main, cross),
            r.main_of(axis) == main,
            r.cross_of(axis) == cross,
    {
        match axis {
            Axis::Horizontal => Size { width: main, height: cross },
            Axis::Vertical => Size { width: cross, height: main },
        }
    }
}

/// A position relative to a parent's origin; it may lie left of or above it.
#[derive(Clone, Copy, Debug, PartialEq, Eq, Structural)]
pub struct Offset {
    pub x: i64,
    pub y: i64,
}

impl Offset {
    pub fn new(x: i64, y: i64) -> (r: Offset)
        ensures
            r.x == x,
            r.y == y,
    {
        Offset { x, y }
    }

    pub fn zero() -> (r: Offset)
        ensures
            r.x == 0,
            r.y == 0,
    {
        Offset { x: 0, y: 0 }
    }

    /// The offset `self` moved by `rhs`.
    pub fn add(self, rhs: Offset) -> (r: Offset)
        requires
            i64::MIN <= self.x + rhs.x <= i64::MAX,
            i64::MIN <= self.y + rhs.y <= i64::MAX,
        ensures
            r.x == self.x + rhs.x,
            r.y == self.y + rhs.y,
    {
        Offset { x: self.x + rhs.x, y: self.y + rhs.y }
    }
}

} // verus!
