use vstd::prelude::*;

use crate::constraints::BoxConstraints;
use crate::flex::{
    cross_position, cross_position_spec, flexible_constraints_spec, inflexible_constraints_spec,
    main_axis_spacing, main_bound, space_spec, start_is_top_left, start_is_top_left_spec, FlexFit,
    MainAxisSize,
};
use crate::geometry::{clamp, sat_sub, Axis, Offset, Size, UNBOUNDED};
use crate::node::{RenderFlex, RenderFlexible};

verus! {

/// `v`, held at `UNBOUNDED`.
pub open spec fn cap(v: int) -> int {
    if v > UNBOUNDED as int {
        UNBOUNDED as int
    } else {
        v
    }
}

/// `v`, held inside the range of `i64`.
pub open spec fn sat_i64(v: int) -> int {
    clamp(v, i64::MIN as int, i64::MAX as int)
}

/// The main-axis extents of the first `k` children that are flexible (`flexible`)
/// or of weight zero (`!flexible`), added up.
pub open spec fn main_sum(s: Seq<RenderFlexible>, dir: Axis, k: int, flexible: bool) -> int
    decreases k,
{
    if k <= 0 {
        0
    } else {
        main_sum(s, dir, k - 1, flexible) + if (s[k - 1].flex > 0) == flexible {
            s[k - 1].size.main_of(dir) as int
        } else {
            0
        }
    }
}

/// The largest cross-axis extent among the first `k` children that are flexible
/// (`flexible`) or of weight zero (`!flexible`), or zero.
pub open spec fn cross_max(s: Seq<RenderFlexible>, dir: Axis, k: int, flexible: bool) -> int
    decreases k,
{
    if k <= 0 {
        0
    } else {
        let prev = cross_max(s, dir, k - 1, flexible);
        let c = s[k - 1].size.cross_of(dir) as int;
        if (s[k - 1].flex > 0) == flexible && c > prev {
            c
        } else {
            prev
        }
    }
}

/// The largest cross-axis extent among all children, or zero.
pub open spec fn cross_extent(dir: Axis, s: Seq<RenderFlexible>) -> int {
    let a = cross_max(s, dir, s.len() as int, false);
    let b = cross_max(s, dir, s.len() as int, true);
    if a >= b {
        a
    } else {
        b
    }
}

/// The weights of the first `k` children, added up.
pub open spec fn flex_sum(s: Seq<RenderFlexible>, k: int) -> int
    decreases k,
{
    if k <= 0 {
        0
    } else {
        flex_sum(s, k - 1) + s[k - 1].flex
    }
}

/// The index of the last flexible child among the first `k`, or zero.
pub open spec fn last_flex(s: Seq<RenderFlexible>, k: int) -> int
    decreases k,
{
    if k <= 0 {
        0
    } else if s[k - 1].flex > 0 {
        k - 1
    } else {
        last_flex(s, k - 1)
    }
}

/// Whether the container's main axis is bounded under `c`.
pub open spec fn can_flex(f: RenderFlex, c: BoxConstraints) -> bool {
    main_bound(f.direction, c) < UNBOUNDED
}

/// The main-axis space left once the children of weight zero are placed.
pub open spec fn free_space(f: RenderFlex, c: BoxConstraints, s: Seq<RenderFlexible>) -> int {
    if can_flex(f, c) {
        sat_sub(main_bound(f.direction, c) as int, cap(main_sum(s, f.direction, s.len() as int, false)))
    } else {
        0
    }
}

/// The total weight, held at `UNBOUNDED`.
pub open spec fn total_flex(s: Seq<RenderFlexible>) -> int {
    cap(flex_sum(s, s.len() as int))
}

/// The free space that one unit of weight receives.
pub open spec fn space_per_flex(f: RenderFlex, c: BoxConstraints, s: Seq<RenderFlexible>) -> int {
    if total_flex(s) > 0 {
        free_space(f, c, s) / total_flex(s)
    } else {
        0
    }
}

/// The main-axis maximum of flexible child `i`: its weight's share of the free
/// space, except that the last flexible child gets what the others left; unbounded
/// when the container's main axis is.
pub open spec fn max_extent(f: RenderFlex, c: BoxConstraints, s: Seq<RenderFlexible>, i: int) -> int {
    if can_flex(f, c) {
        if i == last_flex(s, s.len() as int) {
            sat_sub(free_space(f, c, s), cap(main_sum(s, f.direction, i, true)))
        } else {
            space_per_flex(f, c, s) * s[i].flex
        }
    } else {
        UNBOUNDED as int
    }
}

/// The main-axis minimum of flexible child `i`: its maximum when it must fill it.
pub open spec fn min_extent(f: RenderFlex, c: BoxConstraints, s: Seq<RenderFlexible>, i: int) -> int {
    if s[i].fit == FlexFit::Tight {
        max_extent(f, c, s, i)
    } else {
        0
    }
}

/// The constraints child `i` is laid out under.
pub open spec fn child_constraints(
    f: RenderFlex,
    c: BoxConstraints,
    s: Seq<RenderFlexible>,
    i: int,
) -> BoxConstraints {
    if s[i].flex == 0 {
        inflexible_constraints_spec(f.direction, f.cross_axis_alignment, c)
    } else {
        flexible_constraints_spec(
            f.direction,
            f.cross_axis_alignment,
            c,
            min_extent(f, c, s, i) as u32,
            max_extent(f, c, s, i) as u32,
        )
    }
}

/// The main-axis extent of all children, held at `UNBOUNDED`.
pub open spec fn allocated(dir: Axis, s: Seq<RenderFlexible>) -> int {
    cap(main_sum(s, dir, s.len() as int, false) + main_sum(s, dir, s.len() as int, true))
}

/// The main-axis extent the container would take: all of a bounded main axis
/// when it is to take the most, else what its children take.
pub open spec fn ideal_main(f: RenderFlex, c: BoxConstraints, s: Seq<RenderFlexible>) -> int {
    if can_flex(f, c) && f.main_axis_size == MainAxisSize::Max {
        main_bound(f.direction, c) as int
    } else {
        allocated(f.direction, s)
    }
}

/// The container's size: its ideal main extent and its children's largest cross
/// extent, brought into `c`.
pub open spec fn flex_size(f: RenderFlex, c: BoxConstraints, s: Seq<RenderFlexible>) -> Size {
    c.constrain_spec(
        Size::from_main_cross(
            f.direction,
            ideal_main(f, c, s) as u32,
            cross_extent(f.direction, s) as u32,
        ),
    )
}

/// Whether the children are placed from the bottom or right end.
pub open spec fn flips_main_axis(f: RenderFlex) -> bool {
    match start_is_top_left_spec(f.direction, f.text_direction, Some(f.vertical_direction)) {
        Some(b) => !b,
        None => false,
    }
}

/// The main-axis position reached before placing child `i`.
pub open spec fn cursor(f: RenderFlex, actual: Size, s: Seq<RenderFlexible>, i: int) -> int
    decreases i,
{
    let main = actual.main_of(f.direction);
    let (leading, between) = space_spec(f.main_axis_alignment, main, s.len());
    if i <= 0 {
        if flips_main_axis(f) {
            main - leading
        } else {
            leading as int
        }
    } else {
        let prev = cursor(f, actual, s, i - 1);
        let m = s[i - 1].size.main_of(f.direction) as int;
        if flips_main_axis(f) {
            sat_i64(sat_i64(prev - m) - between)
        } else {
            sat_i64(prev + (m + between))
        }
    }
}

/// Where child `i` is placed relative to the container's origin.
pub open spec fn child_offset(f: RenderFlex, actual: Size, s: Seq<RenderFlexible>, i: int) -> Offset {
    let m = s[i].size.main_of(f.direction) as int;
    let main_pos = if flips_main_axis(f) {
        sat_i64(cursor(f, actual, s, i) - m)
    } else {
        cursor(f, actual, s, i)
    };
    let cross_pos = cross_position_spec(
        f.direction,
        f.cross_axis_alignment,
        f.text_direction,
        f.vertical_direction,
        actual.cross_of(f.direction),
        s[i].size.cross_of(f.direction),
    );
    match f.direction {
        Axis::Horizontal => Offset { x: main_pos as i64, y: cross_pos as i64 },
        Axis::Vertical => Offset { x: cross_pos as i64, y: main_pos as i64 },
    }
}

/// What the container records after a layout under `c`: its size and overflow,
/// and for each child the constraints it was given, a size they admit, and its
/// place.
pub open spec fn flex_laid_out(f: RenderFlex, c: BoxConstraints) -> bool {
    let s = f.children@;
    let size = flex_size(f, c, s);
    &&& f.size == Some(size)
    &&& f.overflow == sat_sub(allocated(f.direction, s), size.main_of(f.direction) as int)
    &&& forall|i: int|
        0 <= i < s.len() ==> {
            &&& (#[trigger] s[i]).constraints == child_constraints(f, c, s, i)
            &&& s[i].constraints.admits(s[i].size)
            &&& s[i].offset == child_offset(f, size, s, i)
        }
}

/// Two child lists that agree on weights and sizes before `k`.
pub open spec fn agree_before(s1: Seq<RenderFlexible>, s2: Seq<RenderFlexible>, k: int) -> bool {
    forall|j: int|
        0 <= j < k ==> (#[trigger] s1[j]).flex == s2[j].flex && s1[j].size == s2[j].size
}

/// Two child lists that agree on weights before `k`, and on sizes of the children
/// of weight zero.
pub open spec fn agree_inflexible(s1: Seq<RenderFlexible>, s2: Seq<RenderFlexible>, k: int) -> bool {
    forall|j: int|
        0 <= j < k ==> (#[trigger] s1[j]).flex == s2[j].flex && (s1[j].flex == 0 ==> s1[j].size
            == s2[j].size)
}

pub proof fn lemma_prefix_agree(s1: Seq<RenderFlexible>, s2: Seq<RenderFlexible>, dir: Axis, k: int)
    requires
        0 <= k <= s1.len(),
        k <= s2.len(),
        agree_before(s1, s2, k),
    ensures
        main_sum(s1, dir, k, true) == main_sum(s2, dir, k, true),
        main_sum(s1, dir, k, false) == main_sum(s2, dir, k, false),
        cross_max(s1, dir, k, true) == cross_max(s2, dir, k, true),
        cross_max(s1, dir, k, false) == cross_max(s2, dir, k, false),
        flex_sum(s1, k) == flex_sum(s2, k),
        last_flex(s1, k) == last_flex(s2, k),
    decreases k,
{
    if k > 0 {
        lemma_prefix_agree(s1, s2, dir, k - 1);
        assert(s1[k - 1].flex == s2[k - 1].flex && s1[k - 1].size == s2[k - 1].size);
    }
}

pub proof fn lemma_inflexible_agree(
    s1: Seq<RenderFlexible>,
    s2: Seq<RenderFlexible>,
    dir: Axis,
    k: int,
)
    requires
        0 <= k <= s1.len(),
        k <= s2.len(),
        agree_inflexible(s1, s2, k),
    ensures
        main_sum(s1, dir, k, false) == main_sum(s2, dir, k, false),
        cross_max(s1, dir, k, false) == cross_max(s2, dir, k, false),
        flex_sum(s1, k) == flex_sum(s2, k),
        last_flex(s1, k) == last_flex(s2, k),
    decreases k,
{
    if k > 0 {
        lemma_inflexible_agree(s1, s2, dir, k - 1);
        assert(s1[k - 1].flex == s2[k - 1].flex);
    }
}

pub proof fn lemma_cursor_agree(
    f1: RenderFlex,
    f2: RenderFlex,
    actual: Size,
    s1: Seq<RenderFlexible>,
    s2: Seq<RenderFlexible>,
    i: int,
)
    requires
        f1.same_settings(f2),
        s1.len() == s2.len(),
        0 <= i <= s1.len(),
        agree_before(s1, s2, i),
    ensures
        cursor(f1, actual, s1, i) == cursor(f2, actual, s2, i),
    decreases i,
{
    if i > 0 {
        lemma_cursor_agree(f1, f2, actual, s1, s2, i - 1);
        assert(s1[i - 1].size == s2[i - 1].size);
    }
}

/// The constraints a child is given depend on the container's settings, the
/// weights and fits, the sizes of the children of weight zero, and the sizes of
/// the flexible children before it.
pub proof fn lemma_child_constraints_agree(
    f1: RenderFlex,
    f2: RenderFlex,
    c: BoxConstraints,
    s1: Seq<RenderFlexible>,
    s2: Seq<RenderFlexible>,
    i: int,
)
    requires
        f1.same_settings(f2),
        s1.len() == s2.len(),
        0 <= i < s1.len(),
        agree_inflexible(s1, s2, s1.len() as int),
        agree_before(s1, s2, i),
        s1[i].flex == s2[i].flex,
        s1[i].fit == s2[i].fit,
    ensures
        child_constraints(f1, c, s1, i) == child_constraints(f2, c, s2, i),
{
    lemma_inflexible_agree(s1, s2, f1.direction, s1.len() as int);
    lemma_prefix_agree(s1, s2, f1.direction, i);
}

/// Everything the container records depends on the settings, the weights and fits,
/// and the sizes of its children.
pub proof fn lemma_measures_agree(
    f1: RenderFlex,
    f2: RenderFlex,
    c: BoxConstraints,
    s1: Seq<RenderFlexible>,
    s2: Seq<RenderFlexible>,
)
    requires
        f1.same_settings(f2),
        s1.len() == s2.len(),
        forall|j: int|
            0 <= j < s1.len() ==> (#[trigger] s1[j]).flex == s2[j].flex && s1[j].fit == s2[j].fit
                && s1[j].size == s2[j].size,
    ensures
        flex_size(f1, c, s1) == flex_size(f2, c, s2),
        allocated(f1.direction, s1) == allocated(f2.direction, s2),
        forall|i: int|
            0 <= i < s1.len() ==> #[trigger] child_constraints(f1, c, s1, i) == child_constraints(
                f2,
                c,
                s2,
                i,
            ),
        forall|i: int, actual: Size|
            0 <= i < s1.len() ==> #[trigger] child_offset(f1, actual, s1, i) == child_offset(
                f2,
                actual,
                s2,
                i,
            ),
{
    let n = s1.len() as int;
    assert(agree_before(s1, s2, n));
    lemma_prefix_agree(s1, s2, f1.direction, n);
    assert forall|i: int| 0 <= i < s1.len() implies #[trigger] child_constraints(f1, c, s1, i)
        == child_constraints(f2, c, s2, i) by {
        assert(agree_before(s1, s2, i));
        lemma_child_constraints_agree(f1, f2, c, s1, s2, i);
    }
    assert forall|i: int, actual: Size| 0 <= i < s1.len() implies #[trigger] child_offset(
        f1,
        actual,
        s1,
        i,
    ) == child_offset(f2, actual, s2, i) by {
        assert(agree_before(s1, s2, i));
        lemma_cursor_agree(f1, f2, actual, s1, s2, i);
    }
}

/// A child's weight is at most the total weight.
pub proof fn lemma_flex_le_sum(s: Seq<RenderFlexible>, k: int, i: int)
    requires
        0 <= i < k <= s.len(),
    ensures
        s[i].flex <= flex_sum(s, k),
        flex_sum(s, k) >= 0,
    decreases k,
{
    if i < k - 1 {
        lemma_flex_le_sum(s, k - 1, i);
    } else {
        lemma_flex_sum_nonneg(s, k - 1);
    }
}

pub proof fn lemma_flex_sum_nonneg(s: Seq<RenderFlexible>, k: int)
    requires
        k <= s.len(),
    ensures
        flex_sum(s, k) >= 0,
    decreases k,
{
    if k > 0 {
        lemma_flex_sum_nonneg(s, k - 1);
    }
}

/// `pos + delta`, held inside the range of `i64`.
pub fn shift(pos: i64, delta: i64) -> (r: i64)
    ensures
        r == sat_i64(pos + delta),
{
    if delta >= 0 {
        if pos > i64::MAX - delta {
            i64::MAX
        } else {
            pos + delta
        }
    } else {
        if pos < i64::MIN - delta {
            i64::MIN
        } else {
            pos + delta
        }
    }
}

/// Sizes a flex container from its children's sizes, already found under the
/// constraints `child_constraints` describes, and places the children: returns the
/// container's size and overflow, and sets each child's offset.
pub fn arrange(
    f: &RenderFlex,
    c: &BoxConstraints,
    slots: &mut Vec<RenderFlexible>,
    allocated_size: u32,
    cross_size: u32,
) -> (r: (Size, u32))
    requires
        c.wf(),
        allocated_size == allocated(f.direction, old(slots)@),
        cross_size == cross_extent(f.direction, old(slots)@),
    ensures
        r.0 == flex_size(*f, *c, old(slots)@),
        c.admits(r.0),
        r.1 == sat_sub(allocated(f.direction, old(slots)@), r.0.main_of(f.direction) as int),
        final(slots)@.len() == old(slots)@.len(),
        forall|i: int|
            0 <= i < old(slots)@.len() ==> #[trigger] final(slots)@[i] == (RenderFlexible {
                offset: child_offset(*f, r.0, old(slots)@, i),
                ..old(slots)@[i]
            }),
{
    let ghost s0 = slots@;
    let dir = f.direction;
    let bound: u32 = match dir {
        Axis::Horizontal => c.max_width,
        Axis::Vertical => c.max_height,
    };
    let ideal: u32 = if bound < UNBOUNDED && f.main_axis_size == MainAxisSize::Max {
        bound
    } else {
        allocated_size
    };
    let size = c.constrain(Size::with_main_cross(dir, ideal, cross_size));
    let actual_main = size.main_size(dir);
    let actual_cross = size.cross_size(dir);
    let overflow: u32 = if allocated_size > actual_main {
        allocated_size - actual_main
    } else {
        0
    };
    let n = slots.len();
    let (leading, between) = main_axis_spacing(f.main_axis_alignment, actual_main, n);
    let flip = match start_is_top_left(dir, f.text_direction, Some(f.vertical_direction)) {
        Some(b) => !b,
        None => false,
    };
    proof {
        assert(leading <= actual_main) by {
            assert((actual_main as int) / 2 <= actual_main as int);
            assert forall|k: int| k >= 1 implies #[trigger] ((actual_main as int) / k)
                <= actual_main as int by {
                crate::flex::lemma_div_le(actual_main as int, k);
            }
        }
    }
    let mut pos: i64 = if flip {
        actual_main as i64 - leading as i64
    } else {
        leading as i64
    };
    let mut i: usize = 0;
    while i < n
        invariant
            0 <= i <= n,
            n == s0.len(),
            slots@.len() == n,
            size == flex_size(*f, *c, s0),
            actual_main == size.main_of(dir),
            actual_cross == size.cross_of(dir),
            dir == f.direction,
            (leading, between) == space_spec(f.main_axis_alignment, actual_main, n as nat),
            flip == flips_main_axis(*f),
            pos == cursor(*f, size, s0, i as int),
            forall|j: int|
                0 <= j < i ==> #[trigger] slots@[j] == (RenderFlexible {
                    offset: child_offset(*f, size, s0, j),
                    ..s0[j]
                }),
            forall|j: int| i <= j < n ==> #[trigger] slots@[j] == s0[j],
        decreases n - i,
    {
        let slot = slots[i];
        let m = slot.size.main_size(dir);
        let main_pos = if flip {
            shift(pos, -(m as i64))
        } else {
            pos
        };
        let cross_pos = cross_position(
            dir,
            f.cross_axis_alignment,
            f.text_direction,
            f.vertical_direction,
            actual_cross,
            slot.size.cross_size(dir),
        );
        let offset = match dir {
            Axis::Horizontal => Offset::new(main_pos, cross_pos),
            Axis::Vertical => Offset::new(cross_pos, main_pos),
        };
        slots.set(i, RenderFlexible { offset, ..slot });
        pos =
        if flip {
            shift(main_pos, -(between as i64))
        } else {
            shift(pos, m as i64 + between as i64)
        };
        i = i + 1;
    }
    (size, overflow)
}

} // verus!
