use vstd::prelude::*;

use crate::geometry::{clamp, Size, UNBOUNDED};

verus! {

/// `v * num / den` rounded down, held at `UNBOUNDED` when it exceeds it.
pub open spec fn scale(v: int, num: int, den: int) -> int {
    if v * num / den > UNBOUNDED as int {
        UNBOUNDED as int
    } else {
        v * num / den
    }
}

/// Computes `scale(v, num, den)`.
pub fn scale_length(v: u32, num: u32, den: u32) -> (r: u32)
    requires
        den > 0,
    ensures
        r == scale(v as int, num as int, den as int),
{
    proof {
        assert((v as int) * (num as int) <= 0xffff_ffff * 0xffff_ffff) by (nonlinear_arith)
            requires
                v <= 0xffff_ffff,
                num <= 0xffff_ffff,
        ;
    }
    let p: u64 = (v as u64) * (num as u64);
    let q: u64 = p / (den as u64);
    if q > UNBOUNDED as u64 {
        UNBOUNDED
    } else {
        q as u32
    }
}

/// The admissible sizes of a box: each axis ranges over `[min, max]`.
#[derive(Clone, Copy, Debug, PartialEq, Eq, Structural)]
pub struct BoxConstraints {
    pub min_width: u32,
    pub max_width: u32,
    pub min_height: u32,
    pub max_height: u32,
}

impl Default for BoxConstraints {
    /// No lower bound and no upper bound on either axis.
    fn default() -> (r: BoxConstraints)
        ensures
            r == BoxConstraints::unconstrained(),
    {
        BoxConstraints { min_width: 0, max_width: UNBOUNDED, min_height: 0, max_height: UNBOUNDED }
    }
}

impl BoxConstraints {
    pub open spec fn unconstrained() -> BoxConstraints {
        BoxConstraints { min_width: 0, max_width: UNBOUNDED, min_height: 0, max_height: UNBOUNDED }
    }

    /// Each axis has its minimum at or below its maximum.
    pub open spec fn wf(self) -> bool {
        self.min_width <= self.max_width && self.min_height <= self.max_height
    }

    /// `size` lies in the admissible range on both axes.
    pub open spec fn admits(self, size: Size) -> bool {
        self.min_width <= size.width <= self.max_width && self.min_height <= size.height
            <= self.max_height
    }

    /// `self` lies inside `outer` on both axes.
    pub open spec fn within(self, outer: BoxConstraints) -> bool {
        outer.min_width <= self.min_width && self.max_width <= outer.max_width && outer.min_height
            <= self.min_height && self.max_height <= outer.max_height
    }

    pub open spec fn tight_spec(size: Size) -> BoxConstraints {
        BoxConstraints {
            min_width: size.width,
            max_width: size.width,
            min_height: size.height,
            max_height: size.height,
        }
    }

    pub open spec fn tight_for_spec(width: Option<u32>, height: Option<u32>) -> BoxConstraints {
        BoxConstraints {
            min_width: match width { Some(w) => w, None => 0 },
            max_width: match width { Some(w) => w, None => UNBOUNDED },
            min_height: match height { Some(h) => h, None => 0 },
            max_height: match height { Some(h) => h, None => UNBOUNDED },
        }
    }

    pub open spec fn expand_spec(width: Option<u32>, height: Option<u32>) -> BoxConstraints {
        BoxConstraints {
            min_width: match width { Some(w) => w, None => UNBOUNDED },
            max_width: match width { Some(w) => w, None => UNBOUNDED },
            min_height: match height { Some(h) => h, None => UNBOUNDED },
            max_height: match height { Some(h) => h, None => UNBOUNDED },
        }
    }

    pub open spec fn enforce_spec(self, other: BoxConstraints) -> BoxConstraints {
        BoxConstraints {
            min_width: clamp(
                self.min_width as int,
                other.min_width as int,
                other.max_width as int,
            ) as u32,
            max_width: clamp(
                self.max_width as int,
                other.min_width as int,
                other.max_width as int,
            ) as u32,
            min_height: clamp(
                self.min_height as int,
                other.min_height as int,
                other.max_height as int,
            ) as u32,
            max_height: clamp(
                self.max_height as int,
                other.min_height as int,
                other.max_height as int,
            ) as u32,
        }
    }

    pub open spec fn tight_width(self) -> bool {
        self.min_width >= self.max_width
    }

    pub open spec fn tight_height(self) -> bool {
        self.min_height >= self.max_height
    }

    pub open spec fn tight_both(self) -> bool {
        self.tight_width() && self.tight_height()
    }

    pub open spec fn constrain_spec(self, size: Size) -> Size {
        Size {
            width: clamp(size.width as int, self.min_width as int, self.max_width as int) as u32,
            height: clamp(
                size.height as int,
                self.min_height as int,
                self.max_height as int,
            ) as u32,
        }
    }

    pub open spec fn smallest_spec(self) -> Size {
        self.constrain_spec(Size { width: 0, height: 0 })
    }

    pub open spec fn biggest_spec(self) -> Size {
        self.constrain_spec(Size { width: UNBOUNDED, height: UNBOUNDED })
    }

    /// Fits `size` into `self` keeping its width-to-height ratio where the bounds
    /// allow: the maximum width, then the maximum height, then the minimum width,
    /// then the minimum height are applied in turn, each recomputing the other side
    /// from the ratio, and the result is clamped into the bounds. Tight bounds give
    /// their single size; a size with a zero side has no ratio and is clamped.
    pub open spec fn aspect_fit(self, size: Size) -> Size {
        if self.tight_both() {
            self.smallest_spec()
        } else if size.width == 0 || size.height == 0 {
            self.constrain_spec(size)
        } else {
            let w0 = size.width as int;
            let h0 = size.height as int;
            let (w1, h1) = if w0 > self.max_width {
                (self.max_width as int, scale(self.max_width as int, h0, w0))
            } else {
                (w0, h0)
            };
            let (w2, h2) = if h1 > self.max_height {
                (scale(self.max_height as int, w0, h0), self.max_height as int)
            } else {
                (w1, h1)
            };
            let (w3, h3) = if w2 < self.min_width {
                (self.min_width as int, scale(self.min_width as int, h0, w0))
            } else {
                (w2, h2)
            };
            let (w4, h4) = if h3 < self.min_height {
                (scale(self.min_height as int, w0, h0), self.min_height as int)
            } else {
                (w3, h3)
            };
            self.constrain_spec(Size { width: w4 as u32, height: h4 as u32 })
        }
    }

    pub fn with_min_width(self, min_width: u32) -> (r: BoxConstraints)
        ensures
            r == (BoxConstraints { min_width, ..self }),
    {
        BoxConstraints { min_width, ..self }
    }

    pub fn with_max_width(self, max_width: u32) -> (r: BoxConstraints)
        ensures
            r == (BoxConstraints { max_width, ..self }),
    {
        BoxConstraints { max_width, ..self }
    }

    pub fn with_max_height(self, max_height: u32) -> (r: BoxConstraints)
        ensures
            r == (BoxConstraints { max_height, ..self }),
    {
        BoxConstraints { max_height, ..self }
    }

    pub fn with_min_height(self, min_height: u32) -> (r: BoxConstraints)
        ensures
            r == (BoxConstraints { min_height, ..self }),
    {
        BoxConstraints { min_height, ..self }
    }

    /// Admits `size` and nothing else.
    pub fn tight(size: Size) -> (r: BoxConstraints)
        ensures
            r == BoxConstraints::tight_spec(size),
            r.wf(),
    {
        BoxConstraints {
            min_width: size.width,
            max_width: size.width,
            min_height: size.height,
            max_height: size.height,
        }
    }

    /// Tight on each axis whose extent is given, unconstrained on the others.
    pub fn tight_for(width: Option<u32>, height: Option<u32>) -> (r: BoxConstraints)
        ensures
            r == BoxConstraints::tight_for_spec(width, height),
            r.wf(),
    {
        let (min_width, max_width) = match width {
            Some(w) => (w, w),
            None => (0, UNBOUNDED),
        };
        let (min_height, max_height) = match height {
            Some(h) => (h, h),
            None => (0, UNBOUNDED),
        };
        BoxConstraints { min_width, max_width, min_height, max_height }
    }

    /// Tight on each axis whose extent is given, tight to `UNBOUNDED` on the others.
    pub fn expand(width: Option<u32>, height: Option<u32>) -> (r: BoxConstraints)
        ensures
            r == BoxConstraints::expand_spec(width, height),
            r.wf(),
    {
        let (min_width, max_width) = match width {
            Some(w) => (w, w),
            None => (UNBOUNDED, UNBOUNDED),
        };
        let (min_height, max_height) = match height {
            Some(h) => (h, h),
            None => (UNBOUNDED, UNBOUNDED),
        };
        BoxConstraints { min_width, max_width, min_height, max_height }
    }

    /// Clamps each of `self`'s bounds into `other`'s range on the same axis.
    pub fn enforce(&self, other: &BoxConstraints) -> (r: BoxConstraints)
        requires
            other.wf(),
        ensures
            r == self.enforce_spec(*other),
            r.within(*other),
            self.wf() ==> r.wf(),
    {
        BoxConstraints {
            min_width: clamp_length(self.min_width, other.min_width, other.max_width),
            max_width: clamp_length(self.max_width, other.min_width, other.max_width),
            min_height: clamp_length(self.min_height, other.min_height, other.max_height),
            max_height: clamp_length(self.max_height, other.min_height, other.max_height),
        }
    }

    pub fn has_tight_width(&self) -> (r: bool)
        ensures
            r == self.tight_width(),
    {
        self.min_width >= self.max_width
    }

    pub fn has_tight_height(&self) -> (r: bool)
        ensures
            r == self.tight_height(),
    {
        self.min_height >= self.max_height
    }

    /// Tight on both axes.
    pub fn is_tight(&self) -> (r: bool)
        ensures
            r == self.tight_both(),
    {
        self.has_tight_width() && self.has_tight_height()
    }

    pub fn constrain_width(&self, width: u32) -> (r: u32)
        requires
            self.min_width <= self.max_width,
        ensures
            r == clamp(width as int, self.min_width as int, self.max_width as int),
    {
        clamp_length(width, self.min_width, self.max_width)
    }

    pub fn constrain_height(&self, height: u32) -> (r: u32)
        requires
            self.min_height <= self.max_height,
        ensures
            r == clamp(height as int, self.min_height as int, self.max_height as int),
    {
        clamp_length(height, self.min_height, self.max_height)
    }

    /// The largest admissible size.
    pub fn biggest(&self) -> (r: Size)
        requires
            self.wf(),
        ensures
            r == self.biggest_spec(),
            r.width == self.max_width,
            r.height == self.max_height,
    {
        Size { width: self.constrain_width(UNBOUNDED), height: self.constrain_height(UNBOUNDED) }
    }

    /// The smallest admissible size.
    pub fn smallest(&self) -> (r: Size)
        requires
            self.wf(),
        ensures
            r == self.smallest_spec(),
            r.width == self.min_width,
            r.height == self.min_height,
    {
        Size { width: self.constrain_width(0), height: self.constrain_height(0) }
    }

    /// The admissible size nearest to `size`, axis by axis.
    pub fn constrain(&self, size: Size) -> (r: Size)
        requires
            self.wf(),
        ensures
            r == self.constrain_spec(size),
            self.admits(r),
    {
        Size { width: self.constrain_width(size.width), height: self.constrain_height(size.height) }
    }

    /// See `aspect_fit`.
    pub fn constrain_with_aspect_ratio(&self, size: Size) -> (r: Size)
        requires
            self.wf(),
        ensures
            r == self.aspect_fit(size),
            self.admits(r),
    {
        if self.is_tight() {
            self.smallest()
        } else if size.width == 0 || size.height == 0 {
            self.constrain(size)
        } else {
            let w0 = size.width;
            let h0 = size.height;
            let mut width = w0;
            let mut height = h0;
            if width > self.max_width {
                width = self.max_width;
                height = scale_length(width, h0, w0);
            }
            if height > self.max_height {
                height = self.max_height;
                width = scale_length(height, w0, h0);
            }
            if width < self.min_width {
                width = self.min_width;
                height = scale_length(width, h0, w0);
            }
            if height < self.min_height {
                height = self.min_height;
                width = scale_length(height, w0, h0);
            }
            self.constrain(Size { width, height })
        }
    }
}

/// Constraining a size always gives one that the constraints admit.
pub proof fn lemma_constrain_admits(c: BoxConstraints, size: Size)
    requires
        c.wf(),
    ensures
        c.admits(c.constrain_spec(size)),
{
}

/// Enforcing the same outer constraints twice changes nothing the second time.
pub proof fn lemma_enforce_idempotent(c: BoxConstraints, other: BoxConstraints)
    requires
        other.wf(),
    ensures
        c.enforce_spec(other).enforce_spec(other) == c.enforce_spec(other),
{
}

/// Tight constraints admit exactly one size, the one they were made from, and
/// every size is constrained to it.
pub proof fn lemma_tight_admits_only(size: Size, other: Size)
    ensures
        BoxConstraints::tight_spec(size).admits(other) <==> other == size,
        BoxConstraints::tight_spec(size).constrain_spec(other) == size,
        BoxConstraints::tight_spec(size).aspect_fit(other) == size,
{
}

/// Clamps `v` into `[lo, hi]`.
pub fn clamp_length(v: u32, lo: u32, hi: u32) -> (r: u32)
    requires
        lo <= hi,
    ensures
        r == clamp(v as int, lo as int, hi as int),
        lo <= r <= hi,
{
    if v < lo {
        lo
    } else if v > hi {
        hi
    } else {
        v
    }
}

} // verus!
