use flexlayout::constraints::BoxConstraints;
use flexlayout::flex::FlexFit;
use flexlayout::geometry::{Offset, Size};
use flexlayout::node::{RenderConstrainedBox, RenderNode, RenderView};
use flexlayout::pipeline::{DrawRect, FrameError, PipelineOwner};
use flexlayout::registry::{
    initialize_registry, ConstraintKind, LayoutHandler, NodeKind, Registry,
};
use flexlayout::tape::BuildContext;
use flexlayout::tree::{LayoutError, RenderTree};
use flexlayout::widgets::{ConstrainedBox, Flex, Widget};

fn boxed(w: u32, h: u32) -> Widget {
    Widget::ConstrainedBox(ConstrainedBox { constraints: BoxConstraints::tight(Size::new(w, h)) })
}

fn frame(w: &Widget, cx: &mut BuildContext, tree: &mut RenderTree) -> usize {
    cx.reset();
    let id = w.create(cx, tree);
    cx.finish();
    id
}

fn flex_children(tree: &RenderTree, id: usize) -> Vec<usize> {
    match tree.node(id) {
        RenderNode::Flex(f) => f.children.iter().map(|c| c.inner).collect(),
        _ => panic!("not a flex container"),
    }
}

#[test]
fn same_kind_at_same_position_keeps_the_node() {
    let mut cx = BuildContext::new();
    let mut tree = RenderTree::new();
    let first = frame(&boxed(10, 10), &mut cx, &mut tree);
    let second = frame(&boxed(20, 30), &mut cx, &mut tree);
    assert_eq!(first, second);
    assert_eq!(tree.len(), 1);
    match tree.node(second) {
        RenderNode::ConstrainedBox(b) => {
            assert_eq!(b.additional_constraints, BoxConstraints::tight(Size::new(20, 30)))
        },
        _ => panic!("kind changed"),
    }
}

#[test]
fn reused_node_keeps_its_laid_out_size() {
    let mut cx = BuildContext::new();
    let mut tree = RenderTree::new();
    let reg = initialize_registry();
    let id = frame(&boxed(10, 10), &mut cx, &mut tree);
    tree.layout(&reg, id, &BoxConstraints::default()).unwrap();
    let again = frame(&boxed(10, 10), &mut cx, &mut tree);
    assert_eq!(again, id);
    assert_eq!(tree.size(id), Some(Size::new(10, 10)));
}

#[test]
fn kind_change_rebuilds_that_position_and_later_siblings() {
    let mut cx = BuildContext::new();
    let mut tree = RenderTree::new();
    let before = Widget::Flex(Flex::new(vec![
        boxed(1, 1).into_flexible(0, FlexFit::Tight),
        boxed(2, 2).into_flexible(0, FlexFit::Tight),
    ]));
    let root = frame(&before, &mut cx, &mut tree);
    let old_children = flex_children(&tree, root);

    let after = Widget::Flex(Flex::new(vec![
        Widget::Flex(Flex::new(vec![])).into_flexible(0, FlexFit::Tight),
        boxed(2, 2).into_flexible(0, FlexFit::Tight),
    ]));
    let root2 = frame(&after, &mut cx, &mut tree);
    let new_children = flex_children(&tree, root2);

    assert_eq!(root, root2);
    assert_ne!(new_children[0], old_children[0]);
    assert_ne!(new_children[1], old_children[1]);
    assert!(matches!(tree.node(new_children[0]), RenderNode::Flex(_)));
    assert_eq!(cx.entries.len(), 3);
}

#[test]
fn unchanged_tree_is_reused_whole() {
    let mut cx = BuildContext::new();
    let mut tree = RenderTree::new();
    let w = Widget::Flex(Flex::new(vec![
        boxed(1, 1).into_flexible(0, FlexFit::Tight),
        boxed(2, 2).into_flexible(1, FlexFit::Loose),
    ]));
    let root = frame(&w, &mut cx, &mut tree);
    let children = flex_children(&tree, root);
    let nodes = tree.len();
    let root2 = frame(&w, &mut cx, &mut tree);
    assert_eq!(root, root2);
    assert_eq!(flex_children(&tree, root2), children);
    assert_eq!(tree.len(), nodes);
}

#[test]
fn fewer_children_drop_the_rest_of_the_scope() {
    let mut cx = BuildContext::new();
    let mut tree = RenderTree::new();
    let three = Widget::Flex(Flex::new(vec![
        boxed(1, 1).into_flexible(0, FlexFit::Tight),
        boxed(2, 2).into_flexible(0, FlexFit::Tight),
        boxed(3, 3).into_flexible(0, FlexFit::Tight),
    ]));
    frame(&three, &mut cx, &mut tree);
    assert_eq!(cx.entries.len(), 4);
    let one = Widget::Flex(Flex::new(vec![boxed(1, 1).into_flexible(0, FlexFit::Tight)]));
    frame(&one, &mut cx, &mut tree);
    assert_eq!(cx.entries.len(), 2);
}

#[test]
fn state_survives_by_key() {
    let mut cx = BuildContext::new();
    assert_eq!(cx.state_slot(7, 1, 42), 42);
    assert_eq!(cx.state_slot(7, 1, 0), 42);
    assert_eq!(cx.state(7, 5), 5);
    cx.set_state(7, 1, 9);
    cx.reset();
    assert_eq!(cx.get_state(7, 1), Some(9));
    assert_eq!(cx.get_state(8, 1), None);
}

#[test]
fn unregistered_pairing_aborts_layout() {
    let mut tree = RenderTree::new();
    let id = tree.add(RenderNode::View(RenderView::new()));
    let reg = Registry::new();
    assert_eq!(
        tree.layout(&reg, id, &BoxConstraints::default()),
        Err(LayoutError::Unregistered {
            constraint_kind: ConstraintKind::Box,
            node_kind: NodeKind::View,
        })
    );
    assert_eq!(tree.size(id), None);
}

#[test]
fn mismatched_handler_aborts_layout() {
    let mut tree = RenderTree::new();
    let id = tree.add(RenderNode::View(RenderView::new()));
    let mut reg = Registry::new();
    reg.register(ConstraintKind::Box, NodeKind::View, LayoutHandler::BoxImage);
    assert_eq!(
        tree.layout(&reg, id, &BoxConstraints::default()),
        Err(LayoutError::HandlerMismatch {
            node_kind: NodeKind::View,
            handler: LayoutHandler::BoxImage,
        })
    );
}

#[test]
fn registration_replaces_the_earlier_one() {
    let mut reg = Registry::new();
    assert_eq!(reg.lookup(ConstraintKind::Box, NodeKind::Flex), None);
    reg.register(ConstraintKind::Box, NodeKind::Flex, LayoutHandler::BoxImage);
    reg.register(ConstraintKind::Box, NodeKind::Flex, LayoutHandler::BoxFlex);
    assert_eq!(reg.lookup(ConstraintKind::Box, NodeKind::Flex), Some(LayoutHandler::BoxFlex));
    assert_eq!(reg.lookup(ConstraintKind::Sliver, NodeKind::Flex), None);
    let all = initialize_registry();
    assert_eq!(all.lookup(ConstraintKind::Box, NodeKind::Image), Some(LayoutHandler::BoxImage));
}

#[test]
fn cycle_is_too_deep() {
    let mut tree = RenderTree::new();
    let a = tree.add(RenderNode::View(RenderView::new()));
    tree.set_node(a, RenderNode::View(RenderView { size: None, child: Some(a) }));
    let reg = initialize_registry();
    assert_eq!(tree.layout(&reg, a, &BoxConstraints::default()), Err(LayoutError::TooDeep));
}

#[test]
fn constrained_box_passes_merged_constraints_to_its_child() {
    let mut tree = RenderTree::new();
    let inner = tree.add(RenderNode::ConstrainedBox(RenderConstrainedBox::new(
        BoxConstraints::expand(None, None),
    )));
    let outer = tree.add(RenderNode::ConstrainedBox(
        RenderConstrainedBox::new(BoxConstraints::default().with_max_width(30)).with_child(inner),
    ));
    let reg = initialize_registry();
    tree.layout(&reg, outer, &BoxConstraints::default().with_max_width(100).with_max_height(40))
        .unwrap();
    assert_eq!(tree.size(outer), Some(Size::new(30, 40)));
}

#[test]
fn frame_fills_the_viewport_and_paints() {
    let root = Widget::Flex(Flex::new(vec![
        boxed(10, 10).into_flexible(0, FlexFit::Tight),
        boxed(20, 20).into_flexible(0, FlexFit::Tight),
    ]));
    let mut owner = PipelineOwner::new(Size::new(100, 50), root, initialize_registry());
    let rects = owner.draw_frame().unwrap();
    let view = owner.render_view.unwrap();
    assert_eq!(owner.tree.size(view), Some(Size::new(100, 50)));
    assert_eq!(
        rects,
        vec![
            DrawRect { offset: Offset::new(0, 0), size: Size::new(100, 50) },
            DrawRect { offset: Offset::new(0, 20), size: Size::new(10, 10) },
            DrawRect { offset: Offset::new(10, 15), size: Size::new(20, 20) },
        ]
    );
    let again = owner.draw_frame().unwrap();
    assert_eq!(again, rects);
    assert_eq!(owner.render_view, Some(view));
}

#[test]
fn frame_with_missing_registration_fails() {
    let mut owner = PipelineOwner::new(Size::new(10, 10), boxed(1, 1), Registry::new());
    assert!(matches!(owner.draw_frame(), Err(FrameError::Layout(LayoutError::Unregistered { .. }))));
    assert_eq!(owner.flush_paint(), Err(FrameError::NotLaidOut));
}

#[test]
fn events_reach_the_nodes_under_the_position() {
    let root = Widget::Flex(Flex::new(vec![
        boxed(10, 10).into_flexible(0, FlexFit::Tight),
        boxed(20, 20).into_flexible(0, FlexFit::Tight),
    ]));
    let mut owner = PipelineOwner::new(Size::new(100, 50), root, initialize_registry());
    owner.draw_frame().unwrap();
    let view = owner.render_view.unwrap();
    let flex = match owner.tree.node(view) {
        RenderNode::View(v) => v.child.unwrap(),
        _ => panic!("root is not a view"),
    };
    let first = flex_children(&owner.tree, flex)[0];
    assert_eq!(owner.handle_event(Offset::new(5, 25)), vec![first, flex, view]);
    assert_eq!(owner.handle_event(Offset::new(50, 5)), vec![flex, view]);
    assert_eq!(owner.handle_event(Offset::new(150, 5)), Vec::<usize>::new());
    assert_eq!(owner.tree.unwrap_size(first), Size::new(10, 10));
}

#[test]
fn a_plain_flexible_has_weight_one_and_loose_fit() {
    let f = flexlayout::widgets::Flexible::from_widget(boxed(1, 1));
    assert_eq!(f.flex, 1);
    assert_eq!(f.fit, FlexFit::Loose);
    assert!(Widget::Flex(Flex::new(vec![f])).is_valid());
    let bad = Widget::ConstrainedBox(ConstrainedBox {
        constraints: BoxConstraints { min_width: 5, max_width: 1, min_height: 0, max_height: 0 },
    });
    assert!(!bad.is_valid());
}
