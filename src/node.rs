use vstd::prelude::*;

use crate::constraints::BoxConstraints;
use crate::flex::{CrossAxisAlignment, FlexFit, MainAxisAlignment, MainAxisSize};
use crate::geometry::{
    Axis, Clip, Offset, Size, TextBaseline, TextDirection, VerticalDirection,
};
use crate::registry::NodeKind;

verus! {

/// The index of a render node in its tree.
pub type NodeId = usize;

/// A bitmap's dimensions in pixels: all that layout reads of an image.
#[derive(Clone, Copy, Debug, PartialEq, Eq, Structural)]
pub struct Image {
    pub width: u32,
    pub height: u32,
}

impl Image {
    pub fn new(width: u32, height: u32) -> (r: Image)
        ensures
            r.width == width,
            r.height == height,
    {
        Image { width, height }
    }

    pub fn width(&self) -> (r: u32)
        ensures
            r == self.width,
    {
        self.width
    }

    pub fn height(&self) -> (r: u32)
        ensures
            r == self.height,
    {
        self.height
    }
}

/// The root of a render tree: it takes the size of its child, or the smallest
/// admissible size when it has none.
#[derive(Clone, Copy, Debug, PartialEq, Eq, Structural)]
pub struct RenderView {
    pub size: Option<Size>,
    pub child: Option<NodeId>,
}

impl RenderView {
    pub fn new() -> (r: RenderView)
        ensures
            r.size.is_none(),
            r.child.is_none(),
    {
        RenderView { size: None, child: None }
    }
}

/// A box that narrows its parent's constraints by its own before sizing.
#[derive(Clone, Copy, Debug, PartialEq, Eq, Structural)]
pub struct RenderConstrainedBox {
    pub size: Option<Size>,
    pub additional_constraints: BoxConstraints,
    pub child: Option<NodeId>,
}

impl RenderConstrainedBox {
    pub fn new(constraints: BoxConstraints) -> (r: RenderConstrainedBox)
        ensures
            r.size.is_none(),
            r.additional_constraints == constraints,
            r.child.is_none(),
    {
        RenderConstrainedBox { size: None, additional_constraints: constraints, child: None }
    }

    pub fn with_child(self, child: NodeId) -> (r: RenderConstrainedBox)
        ensures
            r == (RenderConstrainedBox { child: Some(child), ..self }),
    {
        RenderConstrainedBox { child: Some(child), ..self }
    }

    /// The size of a box without a child under `c`.
    pub open spec fn childless_size(self, c: BoxConstraints) -> Size {
        self.additional_constraints.enforce_spec(c).smallest_spec()
    }

    /// The constraints the box's child is laid out under: the box's own, brought
    /// into `c`.
    pub open spec fn child_constraints_spec(self, c: BoxConstraints) -> BoxConstraints {
        self.additional_constraints.enforce_spec(c)
    }

    /// See `child_constraints_spec`.
    pub fn child_constraints(&self, c: &BoxConstraints) -> (r: BoxConstraints)
        requires
            c.wf(),
            self.additional_constraints.wf(),
        ensures
            r == self.child_constraints_spec(*c),
            r.wf(),
            r.within(*c),
    {
        self.additional_constraints.enforce(c)
    }

    /// The box's size under `c`: its child's size when it has a child, which was laid
    /// out under `child_constraints`, else the smallest size that its own
    /// constraints, brought into `c`, admit.
    pub open spec fn size_for(self, c: BoxConstraints, child_size: Option<Size>) -> Size {
        match child_size {
            Some(s) => s,
            None => self.childless_size(c),
        }
    }

    /// Records the box's size under `c`; `child_size` is the size its child took
    /// when laid out under `child_constraints(c)`, and is given exactly when the box
    /// has a child.
    pub fn perform_layout(&mut self, c: &BoxConstraints, child_size: Option<Size>)
        requires
            c.wf(),
            old(self).additional_constraints.wf(),
            child_size.is_some() == old(self).child.is_some(),
            child_size matches Some(s) ==> old(self).child_constraints_spec(*c).admits(s),
        ensures
            *final(self) == (RenderConstrainedBox {
                size: Some(old(self).size_for(*c, child_size)),
                ..*old(self)
            }),
            c.admits(old(self).size_for(*c, child_size)),
    {
        match child_size {
            Some(s) => {
                self.size = Some(s);
            },
            None => {
                let merged = self.additional_constraints.enforce(c);
                self.size = Some(merged.smallest());
            },
        }
    }
}

/// A box that shows a bitmap, sized to the bitmap's proportions where the
/// constraints allow, or to explicit dimensions where those are given.
#[derive(Clone, Copy, Debug, PartialEq, Eq, Structural)]
pub struct RenderImage {
    pub size: Option<Size>,
    pub image: Option<Image>,
    pub width: Option<u32>,
    pub height: Option<u32>,
}

impl Default for RenderImage {
    /// An image box without a bitmap and without explicit dimensions.
    fn default() -> (r: RenderImage)
        ensures
            r == (RenderImage { size: None, image: None, width: None, height: None }),
    {
        RenderImage { size: None, image: None, width: None, height: None }
    }
}

impl RenderImage {
    /// An image box without a bitmap and with the given explicit dimensions.
    pub fn new(width: Option<u32>, height: Option<u32>) -> (r: RenderImage)
        ensures
            r == (RenderImage { size: None, image: None, width, height }),
    {
        RenderImage { size: None, image: None, width, height }
    }

    /// An image box that shows `image`, without explicit dimensions.
    pub fn from_image(image: Image) -> (r: RenderImage)
        ensures
            r == (RenderImage { size: None, image: Some(image), width: None, height: None }),
    {
        RenderImage { size: None, image: Some(image), width: None, height: None }
    }

    /// The constraints the image box resolves under `c`: tight on each explicit
    /// dimension, brought into `c`.
    pub open spec fn inner_constraints(self, c: BoxConstraints) -> BoxConstraints {
        BoxConstraints::tight_for_spec(self.width, self.height).enforce_spec(c)
    }

    pub open spec fn layout_size(self, c: BoxConstraints) -> Size {
        match self.image {
            Some(img) => self.inner_constraints(c).aspect_fit(
                Size { width: img.width, height: img.height },
            ),
            None => self.inner_constraints(c).smallest_spec(),
        }
    }

    /// Sizes the box under `c`: to the bitmap's proportions when there is one,
    /// else to the smallest admissible size.
    pub fn perform_layout(&mut self, c: &BoxConstraints)
        requires
            c.wf(),
        ensures
            *final(self) == (RenderImage { size: Some(old(self).layout_size(*c)), ..*old(self) }),
            c.admits(old(self).layout_size(*c)),
    {
        let inner = BoxConstraints::tight_for(self.width, self.height).enforce(c);
        let size = match self.image {
            Some(img) => inner.constrain_with_aspect_ratio(Size::new(img.width, img.height)),
            None => inner.smallest(),
        };
        self.size = Some(size);
    }

    /// The last computed size, if it was laid out.
    pub fn size(&self) -> (r: Option<Size>)
        ensures
            r == self.size,
    {
        self.size
    }
}

/// A flex container's record of one child: its weight and fit, and what the last
/// layout gave it and found.
#[derive(Clone, Copy, Debug, PartialEq, Eq, Structural)]
pub struct RenderFlexible {
    pub offset: Offset,
    pub flex: u32,
    pub fit: FlexFit,
    pub inner: NodeId,
    /// The constraints the child was last laid out under.
    pub constraints: BoxConstraints,
    /// The child's size as that layout found it.
    pub size: Size,
}

impl RenderFlexible {
    pub fn new(inner: NodeId, flex: u32, fit: FlexFit) -> (r: RenderFlexible)
        ensures
            r.inner == inner,
            r.flex == flex,
            r.fit == fit,
            r.offset == (Offset { x: 0, y: 0 }),
    {
        RenderFlexible {
            offset: Offset::zero(),
            flex,
            fit,
            inner,
            constraints: BoxConstraints::default(),
            size: Size::zero(),
        }
    }

    /// A child of weight zero.
    pub fn inflexible(inner: NodeId) -> (r: RenderFlexible)
        ensures
            r.inner == inner,
            r.flex == 0,
            r.fit == FlexFit::Tight,
            r.offset == (Offset { x: 0, y: 0 }),
    {
        RenderFlexible::new(inner, 0, FlexFit::Tight)
    }
}

/// A container that lines its children up along one axis and shares the free
/// space among those with a positive weight.
#[derive(Clone, Debug)]
pub struct RenderFlex {
    pub size: Option<Size>,
    pub children: Vec<RenderFlexible>,
    pub direction: Axis,
    pub main_axis_size: MainAxisSize,
    pub main_axis_alignment: MainAxisAlignment,
    pub cross_axis_alignment: CrossAxisAlignment,
    pub vertical_direction: VerticalDirection,
    pub text_direction: Option<TextDirection>,
    pub text_baseline: Option<TextBaseline>,
    pub clip_behavior: Clip,
    /// By how much the children overran the main axis at the last layout.
    pub overflow: u32,
}

impl Default for RenderFlex {
    /// A horizontal container that takes the whole main axis, packs its children
    /// at the start and centres them across.
    fn default() -> (r: RenderFlex)
        ensures
            r.size.is_none(),
            r.children@.len() == 0,
            r.direction == Axis::Horizontal,
            r.main_axis_size == MainAxisSize::Max,
            r.main_axis_alignment == MainAxisAlignment::Start,
            r.cross_axis_alignment == CrossAxisAlignment::Center,
            r.vertical_direction == VerticalDirection::Down,
            r.text_direction.is_none(),
            r.text_baseline.is_none(),
            r.clip_behavior == Clip::Disabled,
            r.overflow == 0,
    {
        RenderFlex {
            size: None,
            children: Vec::new(),
            direction: Axis::Horizontal,
            main_axis_size: MainAxisSize::Max,
            main_axis_alignment: MainAxisAlignment::Start,
            cross_axis_alignment: CrossAxisAlignment::Center,
            vertical_direction: VerticalDirection::Down,
            text_direction: None,
            text_baseline: None,
            clip_behavior: Clip::Disabled,
            overflow: 0,
        }
    }
}

impl RenderFlex {
    /// Everything but the children, the size and the overflow.
    pub open spec fn same_settings(self, other: RenderFlex) -> bool {
        self.direction == other.direction && self.main_axis_size == other.main_axis_size
            && self.main_axis_alignment == other.main_axis_alignment && self.cross_axis_alignment
            == other.cross_axis_alignment && self.vertical_direction == other.vertical_direction
            && self.text_direction == other.text_direction && self.text_baseline
            == other.text_baseline && self.clip_behavior == other.clip_behavior
    }

    pub fn with_direction(self, direction: Axis) -> (r: RenderFlex)
        ensures
            r.direction == direction,
            r.children@ == self.children@,
            r.size == self.size,
            r.overflow == self.overflow,
            r.same_settings(RenderFlex { direction, ..self }),
    {
        RenderFlex { direction, ..self }
    }

    pub fn with_text_direction(self, text_direction: Option<TextDirection>) -> (r: RenderFlex)
        ensures
            r.text_direction == text_direction,
            r.children@ == self.children@,
            r.size == self.size,
            r.overflow == self.overflow,
            r.same_settings(RenderFlex { text_direction, ..self }),
    {
        RenderFlex { text_direction, ..self }
    }

    pub fn with_vertical_direction(self, vertical_direction: VerticalDirection) -> (r: RenderFlex)
        ensures
            r.vertical_direction == vertical_direction,
            r.children@ == self.children@,
            r.size == self.size,
            r.overflow == self.overflow,
            r.same_settings(RenderFlex { vertical_direction, ..self }),
    {
        RenderFlex { vertical_direction, ..self }
    }

    pub fn with_main_axis_size(self, main_axis_size: MainAxisSize) -> (r: RenderFlex)
        ensures
            r.main_axis_size == main_axis_size,
            r.children@ == self.children@,
            r.size == self.size,
            r.overflow == self.overflow,
            r.same_settings(RenderFlex { main_axis_size, ..self }),
    {
        RenderFlex { main_axis_size, ..self }
    }

    pub fn with_main_axis_alignment(self, main_axis_alignment: MainAxisAlignment) -> (r:
        RenderFlex)
        ensures
            r.main_axis_alignment == main_axis_alignment,
            r.children@ == self.children@,
            r.size == self.size,
            r.overflow == self.overflow,
            r.same_settings(RenderFlex { main_axis_alignment, ..self }),
    {
        RenderFlex { main_axis_alignment, ..self }
    }

    pub fn with_cross_axis_alignment(self, cross_axis_alignment: CrossAxisAlignment) -> (r:
        RenderFlex)
        ensures
            r.cross_axis_alignment == cross_axis_alignment,
            r.children@ == self.children@,
            r.size == self.size,
            r.overflow == self.overflow,
            r.same_settings(RenderFlex { cross_axis_alignment, ..self }),
    {
        RenderFlex { cross_axis_alignment, ..self }
    }

    /// Appends `child` after the existing children.
    pub fn with_child(self, child: RenderFlexible) -> (r: RenderFlex)
        ensures
            r.children@ == self.children@.push(child),
            r.size == self.size,
            r.overflow == self.overflow,
            r.same_settings(self),
    {
        let mut s = self;
        s.children.push(child);
        s
    }
}

/// A node of a render tree.
#[derive(Clone, Debug)]
pub enum RenderNode {
    View(RenderView),
    ConstrainedBox(RenderConstrainedBox),
    Image(RenderImage),
    Flex(RenderFlex),
}

impl RenderNode {
    pub open spec fn kind_of(self) -> NodeKind {
        match self {
            RenderNode::View(_) => NodeKind::View,
            RenderNode::ConstrainedBox(_) => NodeKind::ConstrainedBox,
            RenderNode::Image(_) => NodeKind::Image,
            RenderNode::Flex(_) => NodeKind::Flex,
        }
    }

    pub open spec fn size_of(self) -> Option<Size> {
        match self {
            RenderNode::View(n) => n.size,
            RenderNode::ConstrainedBox(n) => n.size,
            RenderNode::Image(n) => n.size,
            RenderNode::Flex(n) => n.size,
        }
    }

    /// The node's stable kind identity.
    pub fn ty_id(&self) -> (r: NodeKind)
        ensures
            r == self.kind_of(),
    {
        match self {
            RenderNode::View(_) => NodeKind::View,
            RenderNode::ConstrainedBox(_) => NodeKind::ConstrainedBox,
            RenderNode::Image(_) => NodeKind::Image,
            RenderNode::Flex(_) => NodeKind::Flex,
        }
    }

    /// The node kind's name, for diagnostics.
    pub fn ty_name(&self) -> (r: &'static str) {
        match self {
            RenderNode::View(_) => "RenderView",
            RenderNode::ConstrainedBox(_) => "RenderConstrainedBox",
            RenderNode::Image(_) => "RenderImage",
            RenderNode::Flex(_) => "RenderFlex",
        }
    }

    /// The last computed size; `None` before the first layout.
    pub fn size(&self) -> (r: Option<Size>)
        ensures
            r == self.size_of(),
    {
        match self {
            RenderNode::View(n) => n.size,
            RenderNode::ConstrainedBox(n) => n.size,
            RenderNode::Image(n) => n.size,
            RenderNode::Flex(n) => n.size,
        }
    }

    /// The ids this node refers to as children, in order.
    pub open spec fn child_ids(self) -> Seq<NodeId> {
        match self {
            RenderNode::View(n) => match n.child {
                Some(c) => seq![c],
                None => seq![],
            },
            RenderNode::ConstrainedBox(n) => match n.child {
                Some(c) => seq![c],
                None => seq![],
            },
            RenderNode::Image(_) => seq![],
            RenderNode::Flex(n) => n.children@.map_values(|f: RenderFlexible| f.inner),
        }
    }

    /// Holds of a node whose children are all among the first `len` nodes and whose
    /// own constraints, if any, are well formed.
    pub open spec fn wf_in(self, len: nat) -> bool {
        &&& forall|i: int| 0 <= i < self.child_ids().len() ==> #[trigger] self.child_ids()[i] < len
        &&& match self {
            RenderNode::ConstrainedBox(n) => n.additional_constraints.wf(),
            _ => true,
        }
    }

    /// Same kind and same configuration; only what layout records may differ.
    pub open spec fn same_shape(self, other: RenderNode) -> bool {
        match (self, other) {
            (RenderNode::View(a), RenderNode::View(b)) => a.child == b.child,
            (RenderNode::ConstrainedBox(a), RenderNode::ConstrainedBox(b)) => a.child == b.child
                && a.additional_constraints == b.additional_constraints,
            (RenderNode::Image(a), RenderNode::Image(b)) => a.image == b.image && a.width
                == b.width && a.height == b.height,
            (RenderNode::Flex(a), RenderNode::Flex(b)) => a.same_settings(b) && a.children@.len()
                == b.children@.len() && forall|i: int|
                0 <= i < a.children@.len() ==> (#[trigger] a.children@[i]).inner
                    == b.children@[i].inner && a.children@[i].flex == b.children@[i].flex
                    && a.children@[i].fit == b.children@[i].fit,
            _ => false,
        }
    }
}

} // verus!
