use vstd::prelude::*;

use crate::constraints::BoxConstraints;
use crate::geometry::{Axis, TextDirection, VerticalDirection};

verus! {

/// Whether a flexible child must fill its share of the free space (`Tight`) or
/// may be smaller (`Loose`).
#[derive(Clone, Copy, Debug, PartialEq, Eq, Structural)]
pub enum FlexFit {
    Tight,
    Loose,
}

#[derive(Clone, Copy, Debug, PartialEq, Eq, Structural)]
pub enum CrossAxisAlignment {
    Start,
    End,
    Center,
    Stretch,
    /// Not supported: a container that asks for it fails to lay out.
    Baseline,
}

#[derive(Clone, Copy, Debug, PartialEq, Eq, Structural)]
pub enum MainAxisAlignment {
    Start,
    End,
    Center,
    SpaceBetween,
    SpaceAround,
    SpaceEvenly,
}

#[derive(Clone, Copy, Debug, PartialEq, Eq, Structural)]
pub enum MainAxisSize {
    Min,
    Max,
}

pub open spec fn start_is_top_left_spec(
    direction: Axis,
    text_direction: Option<TextDirection>,
    vertical_direction: Option<VerticalDirection>,
) -> Option<bool> {
    match direction {
        Axis::Horizontal => match text_direction {
            Some(TextDirection::LTR) => Some(true),
            Some(TextDirection::RTL) => Some(false),
            None => None,
        },
        Axis::Vertical => match vertical_direction {
            Some(VerticalDirection::Down) => Some(true),
            Some(VerticalDirection::Up) => Some(false),
            None => None,
        },
    }
}

/// Whether the start of `direction` is its top or left end: decided by the text
/// direction for the horizontal axis and by the vertical direction for the
/// vertical one; `None` when that direction is not given.
pub fn start_is_top_left(
    direction: Axis,
    text_direction: Option<TextDirection>,
    vertical_direction: Option<VerticalDirection>,
) -> (r: Option<bool>)
    ensures
        r == start_is_top_left_spec(direction, text_direction, vertical_direction),
{
    match direction {
        Axis::Horizontal => match text_direction {
            Some(TextDirection::LTR) => Some(true),
            Some(TextDirection::RTL) => Some(false),
            None => None,
        },
        Axis::Vertical => match vertical_direction {
            Some(VerticalDirection::Down) => Some(true),
            Some(VerticalDirection::Up) => Some(false),
            None => None,
        },
    }
}

pub open spec fn inflexible_constraints_spec(
    direction: Axis,
    cross: CrossAxisAlignment,
    c: BoxConstraints,
) -> BoxConstraints {
    if cross == CrossAxisAlignment::Stretch {
        match direction {
            Axis::Horizontal => BoxConstraints::tight_for_spec(None, Some(c.max_height)),
            Axis::Vertical => BoxConstraints::tight_for_spec(Some(c.max_width), None),
        }
    } else {
        match direction {
            Axis::Horizontal => BoxConstraints {
                max_height: c.max_height,
                ..BoxConstraints::unconstrained()
            },
            Axis::Vertical => BoxConstraints {
                max_width: c.max_width,
                ..BoxConstraints::unconstrained()
            },
        }
    }
}

/// The constraints for a child of weight zero: unbounded along the main axis;
/// across it tight to the container's maximum when stretching, else bounded by it.
pub fn inflexible_constraints(direction: Axis, cross: CrossAxisAlignment, c: &BoxConstraints) -> (r:
    BoxConstraints)
    ensures
        r == inflexible_constraints_spec(direction, cross, *c),
        r.wf(),
{
    match cross {
        CrossAxisAlignment::Stretch => match direction {
            Axis::Horizontal => BoxConstraints::tight_for(None, Some(c.max_height)),
            Axis::Vertical => BoxConstraints::tight_for(Some(c.max_width), None),
        },
        _ => match direction {
            Axis::Horizontal => BoxConstraints::default().with_max_height(c.max_height),
            Axis::Vertical => BoxConstraints::default().with_max_width(c.max_width),
        },
    }
}

pub open spec fn flexible_constraints_spec(
    direction: Axis,
    cross: CrossAxisAlignment,
    c: BoxConstraints,
    min_extent: u32,
    max_extent: u32,
) -> BoxConstraints {
    let cross_min: u32 = if cross == CrossAxisAlignment::Stretch {
        match direction {
            Axis::Horizontal => c.max_height,
            Axis::Vertical => c.max_width,
        }
    } else {
        0
    };
    match direction {
        Axis::Horizontal => BoxConstraints {
            min_width: min_extent,
            max_width: max_extent,
            min_height: cross_min,
            max_height: c.max_height,
        },
        Axis::Vertical => BoxConstraints {
            min_width: cross_min,
            max_width: c.max_width,
            min_height: min_extent,
            max_height: max_extent,
        },
    }
}

/// The constraints for a flexible child given `[min_extent, max_extent]` along the
/// main axis; across it as for a child of weight zero.
pub fn flexible_constraints(
    direction: Axis,
    cross: CrossAxisAlignment,
    c: &BoxConstraints,
    min_extent: u32,
    max_extent: u32,
) -> (r: BoxConstraints)
    requires
        min_extent <= max_extent,
    ensures
        r == flexible_constraints_spec(direction, cross, *c, min_extent, max_extent),
        r.wf(),
{
    let cross_min: u32 = match cross {
        CrossAxisAlignment::Stretch => match direction {
            Axis::Horizontal => c.max_height,
            Axis::Vertical => c.max_width,
        },
        _ => 0,
    };
    match direction {
        Axis::Horizontal => BoxConstraints {
            min_width: min_extent,
            max_width: max_extent,
            min_height: cross_min,
            max_height: c.max_height,
        },
        Axis::Vertical => BoxConstraints {
            min_width: cross_min,
            max_width: c.max_width,
            min_height: min_extent,
            max_height: max_extent,
        },
    }
}

/// The main-axis maximum of a container under `c`: finite when it can flex.
pub open spec fn main_bound(direction: Axis, c: BoxConstraints) -> u32 {
    match direction {
        Axis::Horizontal => c.max_width,
        Axis::Vertical => c.max_height,
    }
}

pub open spec fn space_spec(
    alignment: MainAxisAlignment,
    remaining: u32,
    count: nat,
) -> (u32, u32) {
    let r = remaining as int;
    match alignment {
        MainAxisAlignment::Start => (0, 0),
        MainAxisAlignment::End => (remaining, 0),
        MainAxisAlignment::Center => ((r / 2) as u32, 0),
        MainAxisAlignment::SpaceBetween => (
            0,
            if count > 1 {
                (r / (count as int - 1)) as u32
            } else {
                0
            },
        ),
        MainAxisAlignment::SpaceAround => {
            let between: int = if count > 0 {
                r / (count as int)
            } else {
                0
            };
            ((between / 2) as u32, between as u32)
        },
        MainAxisAlignment::SpaceEvenly => {
            let between: int = r / (count as int + 1);
            (between as u32, between as u32)
        },
    }
}

/// The space before the first child and between two neighbours for `count`
/// children and `remaining` space: `End` leads with all of it, `Center` with half;
/// `SpaceBetween` splits it into `count - 1` gaps, `SpaceAround` into `count` gaps
/// with half a gap leading, `SpaceEvenly` into `count + 1` gaps, one leading.
pub fn main_axis_spacing(alignment: MainAxisAlignment, remaining: u32, count: usize) -> (r: (
    u32,
    u32,
))
    ensures
        r == space_spec(alignment, remaining, count as nat),
{
    proof {
        assert forall|k: int| k >= 1 implies #[trigger] ((remaining as int) / k) <= remaining as int by {
            lemma_div_le(remaining as int, k);
        }
        assert((remaining as int) / 0xffff_ffff_ffff_ffff == 0);
        assert((remaining as int) / 0x1_0000_0000_0000_0000 == 0);
    }
    match alignment {
        MainAxisAlignment::Start => (0, 0),
        MainAxisAlignment::End => (remaining, 0),
        MainAxisAlignment::Center => (remaining / 2, 0),
        MainAxisAlignment::SpaceBetween => {
            if count > 1 {
                let gaps: u64 = (count - 1) as u64;
                (0, ((remaining as u64) / gaps) as u32)
            } else {
                (0, 0)
            }
        },
        MainAxisAlignment::SpaceAround => {
            let between: u32 = if count > 0 {
                ((remaining as u64) / (count as u64)) as u32
            } else {
                0
            };
            (between / 2, between)
        },
        MainAxisAlignment::SpaceEvenly => {
            let gaps: u64 = if count as u64 == 0xffff_ffff_ffff_ffff {
                0xffff_ffff_ffff_ffff
            } else {
                count as u64 + 1
            };
            let between: u32 = ((remaining as u64) / gaps) as u32;
            (between, between)
        },
    }
}

/// Dividing a non-negative number by a positive one does not make it larger.
pub proof fn lemma_div_le(v: int, k: int)
    requires
        v >= 0,
        k >= 1,
    ensures
        0 <= v / k <= v,
{
    assert(v / k <= v) by (nonlinear_arith)
        requires
            v >= 0,
            k >= 1,
    ;
}

pub open spec fn cross_position_spec(
    direction: Axis,
    alignment: CrossAxisAlignment,
    text_direction: Option<TextDirection>,
    vertical_direction: VerticalDirection,
    cross_size: u32,
    child_cross: u32,
) -> int {
    match alignment {
        CrossAxisAlignment::Start | CrossAxisAlignment::End => {
            let top_left = match start_is_top_left_spec(
                direction.flipped(),
                text_direction,
                Some(vertical_direction),
            ) {
                Some(b) => b,
                None => true,
            };
            if top_left == (alignment == CrossAxisAlignment::Start) {
                0
            } else {
                cross_size - child_cross
            }
        },
        CrossAxisAlignment::Center => half_toward_zero(cross_size - child_cross),
        _ => 0,
    }
}

/// Half of `d`, rounded toward zero.
pub open spec fn half_toward_zero(d: int) -> int {
    if d >= 0 {
        d / 2
    } else {
        -((-d) / 2)
    }
}

/// Where a child of cross extent `child_cross` starts across a container of cross
/// extent `cross_size`.
pub fn cross_position(
    direction: Axis,
    alignment: CrossAxisAlignment,
    text_direction: Option<TextDirection>,
    vertical_direction: VerticalDirection,
    cross_size: u32,
    child_cross: u32,
) -> (r: i64)
    ensures
        r == cross_position_spec(
            direction,
            alignment,
            text_direction,
            vertical_direction,
            cross_size,
            child_cross,
        ),
{
    match alignment {
        CrossAxisAlignment::Start | CrossAxisAlignment::End => {
            let top_left = match start_is_top_left(
                direction.flip(),
                text_direction,
                Some(vertical_direction),
            ) {
                Some(b) => b,
                None => true,
            };
            let is_start = match alignment {
                CrossAxisAlignment::Start => true,
                _ => false,
            };
            if top_left == is_start {
                0
            } else {
                cross_size as i64 - child_cross as i64
            }
        },
        CrossAxisAlignment::Center => {
            let d: i64 = cross_size as i64 - child_cross as i64;
            if d >= 0 {
                d / 2
            } else {
                -((-d) / 2)
            }
        },
        _ => 0,
    }
}

} // verus!
