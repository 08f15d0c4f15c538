use flexlayout::constraints::BoxConstraints;
use flexlayout::flex::{
    cross_position, main_axis_spacing, start_is_top_left, CrossAxisAlignment, FlexFit,
    MainAxisAlignment, MainAxisSize,
};
use flexlayout::flex_layout::shift;
use flexlayout::geometry::{Axis, Offset, Size, TextDirection, VerticalDirection, UNBOUNDED};
use flexlayout::node::{RenderConstrainedBox, RenderFlex, RenderFlexible, RenderNode};
use flexlayout::registry::initialize_registry;
use flexlayout::tree::{LayoutError, RenderTree};

fn fixed(tree: &mut RenderTree, w: u32, h: u32) -> usize {
    tree.add(RenderNode::ConstrainedBox(RenderConstrainedBox::new(BoxConstraints::tight(
        Size::new(w, h),
    ))))
}

fn filler(tree: &mut RenderTree) -> usize {
    tree.add(RenderNode::ConstrainedBox(RenderConstrainedBox::new(BoxConstraints::expand(
        None, None,
    ))))
}

fn slots(tree: &RenderTree, id: usize) -> Vec<RenderFlexible> {
    match tree.node(id) {
        RenderNode::Flex(f) => f.children.clone(),
        _ => panic!("not a flex container"),
    }
}

fn tight(w: u32, h: u32) -> BoxConstraints {
    BoxConstraints::tight(Size::new(w, h))
}

#[test]
fn flexible_children_share_the_free_space_by_weight() {
    let mut tree = RenderTree::new();
    let a = fixed(&mut tree, 40, 10);
    let b = filler(&mut tree);
    let c = filler(&mut tree);
    let flex = RenderFlex::default()
        .with_child(RenderFlexible::inflexible(a))
        .with_child(RenderFlexible::new(b, 1, FlexFit::Tight))
        .with_child(RenderFlexible::new(c, 2, FlexFit::Tight));
    let f = tree.add(RenderNode::Flex(flex));
    let reg = initialize_registry();
    tree.layout(&reg, f, &BoxConstraints::default().with_max_width(200).with_max_height(50))
        .unwrap();
    // 160 free, 53 per unit of weight; the last flexible child takes the rest.
    assert_eq!(tree.size(b), Some(Size::new(53, 50)));
    assert_eq!(tree.size(c), Some(Size::new(107, 50)));
    assert_eq!(tree.size(f), Some(Size::new(200, 50)));
    let s = slots(&tree, f);
    assert_eq!(s[0].offset, Offset::new(0, 20));
    assert_eq!(s[1].offset, Offset::new(40, 0));
    assert_eq!(s[2].offset, Offset::new(93, 0));
    assert_eq!(s[1].constraints, BoxConstraints { min_width: 53, max_width: 53, min_height: 0, max_height: 50 });
}

#[test]
fn loose_children_may_stay_small() {
    let mut tree = RenderTree::new();
    let a = fixed(&mut tree, 30, 30);
    let flex = RenderFlex::default().with_child(RenderFlexible::new(a, 1, FlexFit::Loose));
    let f = tree.add(RenderNode::Flex(flex));
    let reg = initialize_registry();
    tree.layout(&reg, f, &BoxConstraints::default().with_max_width(100).with_max_height(100))
        .unwrap();
    assert_eq!(tree.size(a), Some(Size::new(30, 30)));
    assert_eq!(tree.size(f), Some(Size::new(100, 30)));
}

#[test]
fn min_main_axis_size_wraps_the_children() {
    let mut tree = RenderTree::new();
    let a = fixed(&mut tree, 30, 10);
    let b = fixed(&mut tree, 20, 40);
    let flex = RenderFlex::default()
        .with_main_axis_size(MainAxisSize::Min)
        .with_child(RenderFlexible::inflexible(a))
        .with_child(RenderFlexible::inflexible(b));
    let f = tree.add(RenderNode::Flex(flex));
    let reg = initialize_registry();
    tree.layout(&reg, f, &BoxConstraints::default().with_max_width(300).with_max_height(300))
        .unwrap();
    assert_eq!(tree.size(f), Some(Size::new(50, 40)));
    match tree.node(f) {
        RenderNode::Flex(flex) => assert_eq!(flex.overflow, 0),
        _ => panic!("not a flex container"),
    }
}

#[test]
fn overflow_is_recorded() {
    let mut tree = RenderTree::new();
    let a = fixed(&mut tree, 80, 10);
    let b = fixed(&mut tree, 70, 10);
    let flex = RenderFlex::default()
        .with_child(RenderFlexible::inflexible(a))
        .with_child(RenderFlexible::inflexible(b));
    let f = tree.add(RenderNode::Flex(flex));
    let reg = initialize_registry();
    tree.layout(&reg, f, &tight(100, 20)).unwrap();
    match tree.node(f) {
        RenderNode::Flex(flex) => assert_eq!(flex.overflow, 50),
        _ => panic!("not a flex container"),
    }
}

#[test]
fn right_to_left_places_children_from_the_right() {
    let mut tree = RenderTree::new();
    let a = fixed(&mut tree, 30, 10);
    let b = fixed(&mut tree, 20, 10);
    let flex = RenderFlex::default()
        .with_text_direction(Some(TextDirection::RTL))
        .with_cross_axis_alignment(CrossAxisAlignment::Start)
        .with_child(RenderFlexible::inflexible(a))
        .with_child(RenderFlexible::inflexible(b));
    let f = tree.add(RenderNode::Flex(flex));
    let reg = initialize_registry();
    tree.layout(&reg, f, &tight(100, 10)).unwrap();
    let s = slots(&tree, f);
    assert_eq!(s[0].offset, Offset::new(70, 0));
    assert_eq!(s[1].offset, Offset::new(50, 0));
}

#[test]
fn stretch_makes_children_fill_the_cross_axis() {
    let mut tree = RenderTree::new();
    let a = tree.add(RenderNode::ConstrainedBox(RenderConstrainedBox::new(
        BoxConstraints::tight_for(Some(10), None),
    )));
    let flex = RenderFlex::default()
        .with_cross_axis_alignment(CrossAxisAlignment::Stretch)
        .with_child(RenderFlexible::inflexible(a));
    let f = tree.add(RenderNode::Flex(flex));
    let reg = initialize_registry();
    tree.layout(&reg, f, &BoxConstraints::default().with_max_width(100).with_max_height(60))
        .unwrap();
    assert_eq!(tree.size(a), Some(Size::new(10, 60)));
}

#[test]
fn baseline_alignment_is_refused() {
    let mut tree = RenderTree::new();
    let flex = RenderFlex::default().with_cross_axis_alignment(CrossAxisAlignment::Baseline);
    let f = tree.add(RenderNode::Flex(flex));
    let reg = initialize_registry();
    assert_eq!(tree.layout(&reg, f, &tight(10, 10)), Err(LayoutError::UnsupportedAlignment));
}

#[test]
fn unbounded_main_axis_gives_flexible_children_no_limit() {
    let mut tree = RenderTree::new();
    let a = fixed(&mut tree, 30, 10);
    let flex = RenderFlex::default().with_child(RenderFlexible::new(a, 1, FlexFit::Loose));
    let f = tree.add(RenderNode::Flex(flex));
    let reg = initialize_registry();
    tree.layout(&reg, f, &BoxConstraints::default().with_max_height(50)).unwrap();
    assert_eq!(slots(&tree, f)[0].constraints.max_width, UNBOUNDED);
    assert_eq!(tree.size(f), Some(Size::new(30, 10)));
}

#[test]
fn spacing_per_alignment() {
    assert_eq!(main_axis_spacing(MainAxisAlignment::Start, 90, 3), (0, 0));
    assert_eq!(main_axis_spacing(MainAxisAlignment::End, 90, 3), (90, 0));
    assert_eq!(main_axis_spacing(MainAxisAlignment::Center, 90, 3), (45, 0));
    assert_eq!(main_axis_spacing(MainAxisAlignment::SpaceBetween, 90, 3), (0, 45));
    assert_eq!(main_axis_spacing(MainAxisAlignment::SpaceBetween, 90, 1), (0, 0));
    assert_eq!(main_axis_spacing(MainAxisAlignment::SpaceAround, 90, 3), (15, 30));
    assert_eq!(main_axis_spacing(MainAxisAlignment::SpaceEvenly, 90, 2), (30, 30));
    assert_eq!(main_axis_spacing(MainAxisAlignment::SpaceEvenly, 90, 0), (90, 90));
}

#[test]
fn directions_resolve_the_start() {
    assert_eq!(start_is_top_left(Axis::Horizontal, Some(TextDirection::LTR), None), Some(true));
    assert_eq!(start_is_top_left(Axis::Horizontal, Some(TextDirection::RTL), None), Some(false));
    assert_eq!(start_is_top_left(Axis::Horizontal, None, Some(VerticalDirection::Down)), None);
    assert_eq!(start_is_top_left(Axis::Vertical, None, Some(VerticalDirection::Up)), Some(false));
    assert_eq!(Axis::Horizontal.flip(), Axis::Vertical);
}

#[test]
fn cross_positions() {
    let ltr = Some(TextDirection::LTR);
    let down = VerticalDirection::Down;
    assert_eq!(cross_position(Axis::Horizontal, CrossAxisAlignment::Start, ltr, down, 50, 20), 0);
    assert_eq!(cross_position(Axis::Horizontal, CrossAxisAlignment::End, ltr, down, 50, 20), 30);
    assert_eq!(cross_position(Axis::Horizontal, CrossAxisAlignment::Center, ltr, down, 50, 20), 15);
    assert_eq!(cross_position(Axis::Horizontal, CrossAxisAlignment::Center, ltr, down, 10, 15), -2);
    assert_eq!(cross_position(Axis::Horizontal, CrossAxisAlignment::Stretch, ltr, down, 50, 20), 0);
    assert_eq!(cross_position(Axis::Vertical, CrossAxisAlignment::Start, None, down, 50, 20), 0);
}

#[test]
fn shift_saturates() {
    assert_eq!(shift(5, -7), -2);
    assert_eq!(shift(i64::MAX, 1), i64::MAX);
    assert_eq!(shift(i64::MIN, -1), i64::MIN);
}

#[test]
fn laying_out_twice_gives_the_same_sizes() {
    let mut tree = RenderTree::new();
    let a = fixed(&mut tree, 40, 10);
    let b = filler(&mut tree);
    let flex = RenderFlex::default()
        .with_child(RenderFlexible::inflexible(a))
        .with_child(RenderFlexible::new(b, 2, FlexFit::Loose));
    let f = tree.add(RenderNode::Flex(flex));
    let reg = initialize_registry();
    let c = BoxConstraints::default().with_max_width(120).with_max_height(30);
    tree.layout(&reg, f, &c).unwrap();
    let first = (tree.size(f), tree.size(a), tree.size(b), slots(&tree, f));
    tree.layout(&reg, f, &c).unwrap();
    let second = (tree.size(f), tree.size(a), tree.size(b), slots(&tree, f));
    assert_eq!(first, second);
    assert_eq!(tree.size(b), Some(Size::new(80, 30)));
}

#[test]
fn inflexible_child_keeps_its_size_and_nothing_overflows() {
    let mut tree = RenderTree::new();
    let b = fixed(&mut tree, 10, 10);
    let flex = RenderFlex::default()
        .with_text_direction(Some(TextDirection::LTR))
        .with_child(RenderFlexible::inflexible(b));
    let f = tree.add(RenderNode::Flex(flex));
    let reg = initialize_registry();
    tree.layout(&reg, f, &tight(200, 200)).unwrap();
    assert_eq!(tree.size(b), Some(Size::new(10, 10)));
    match tree.node(f) {
        RenderNode::Flex(flex) => assert_eq!(flex.overflow, 0),
        _ => panic!("not a flex container"),
    }
}

#[test]
fn a_node_in_two_slots_is_refused() {
    let mut tree = RenderTree::new();
    let a = fixed(&mut tree, 10, 10);
    let flex = RenderFlex::default()
        .with_child(RenderFlexible::inflexible(a))
        .with_child(RenderFlexible::inflexible(a));
    let f = tree.add(RenderNode::Flex(flex));
    let reg = initialize_registry();
    assert_eq!(tree.layout(&reg, f, &tight(100, 100)), Err(LayoutError::SharedNode));
}
