use flexlayout::constraints::BoxConstraints;
use flexlayout::flex::FlexFit;
use flexlayout::geometry::{Axis, Size, TextDirection};
use flexlayout::node::{
    Image, RenderConstrainedBox, RenderFlex, RenderFlexible, RenderImage, RenderNode,
};
use flexlayout::registry::initialize_registry;
use flexlayout::tree::RenderTree;

fn create_image(width: u32, height: u32) -> RenderImage {
    RenderImage::from_image(Image::new(width, height))
}

fn bounds(min_width: u32, min_height: u32, max_width: u32, max_height: u32) -> BoxConstraints {
    BoxConstraints { min_width, max_width, min_height, max_height }
}

fn flex_child(tree: &RenderTree, flex: usize, i: usize) -> usize {
    match tree.node(flex) {
        RenderNode::Flex(f) => f.children[i].inner,
        _ => panic!("not a flex container"),
    }
}

#[test]
fn test_over_constrained() {
    let mut tree = RenderTree::new();
    let b = tree.add(RenderNode::ConstrainedBox(RenderConstrainedBox::new(
        BoxConstraints::tight(Size::new(10, 10)),
    )));
    let flex = RenderFlex::default()
        .with_text_direction(Some(TextDirection::LTR))
        .with_child(RenderFlexible::inflexible(b));
    let f = tree.add(RenderNode::Flex(flex));
    let reg = initialize_registry();
    tree.layout(
        &reg,
        f,
        &BoxConstraints { min_width: 200, max_width: 200, min_height: 200, max_height: 200 },
    )
    .unwrap();
    assert_eq!(tree.size(f), Some(Size::new(200, 200)));
}

#[test]
fn test_vertical_overflow() {
    let mut tree = RenderTree::new();
    let first = tree.add(RenderNode::ConstrainedBox(RenderConstrainedBox::new(
        BoxConstraints::tight_for(None, Some(200)),
    )));
    let second = tree.add(RenderNode::ConstrainedBox(RenderConstrainedBox::new(
        BoxConstraints::expand(None, None),
    )));
    let flex = RenderFlex::default()
        .with_direction(Axis::Vertical)
        .with_child(RenderFlexible::inflexible(first))
        .with_child(RenderFlexible::new(second, 1, FlexFit::Loose));
    let f = tree.add(RenderNode::Flex(flex));

    let viewport = BoxConstraints::default().with_max_height(100).with_max_width(100);
    let reg = initialize_registry();
    tree.layout(&reg, f, &viewport).unwrap();

    assert_eq!(tree.size(f), Some(Size::new(100, 100)));
    assert_eq!(tree.size(flex_child(&tree, f, 1)), Some(Size::new(100, 0)));
}

#[test]
fn test_square_image() {
    let mut image = create_image(10, 10);

    image.perform_layout(&bounds(25, 25, 100, 100));
    assert_eq!(image.size(), Some(Size::new(25, 25)));

    image.perform_layout(&bounds(4, 4, 8, 8));
    assert_eq!(image.size(), Some(Size::new(8, 8)));
}

#[test]
fn test_wide_image() {
    let mut image = create_image(20, 10);

    image.perform_layout(&bounds(5, 30, 100, 100));
    assert_eq!(image.size(), Some(Size::new(60, 30)));

    image.perform_layout(&bounds(5, 5, 100, 100));
    assert_eq!(image.size(), Some(Size::new(20, 10)));

    image.perform_layout(&bounds(20, 20, 30, 30));
    assert_eq!(image.size(), Some(Size::new(30, 20)));
}

#[test]
fn test_tall_image() {
    let mut image = create_image(10, 20);

    image.perform_layout(&bounds(50, 5, 75, 75));
    assert_eq!(image.size(), Some(Size::new(50, 75)));

    image.perform_layout(&bounds(5, 5, 16, 16));
    assert_eq!(image.size(), Some(Size::new(8, 16)));

    image.perform_layout(&bounds(20, 20, 30, 30));
    assert_eq!(image.size(), Some(Size::new(20, 30)));
}

#[test]
fn test_none_image() {
    let mut image = RenderImage::default();
    image.perform_layout(&bounds(25, 25, 100, 100));
    assert_eq!(image.size(), Some(Size::new(25, 25)));

    let mut image = RenderImage::new(Some(50), None);
    image.perform_layout(&bounds(25, 25, 100, 100));
    assert_eq!(image.size(), Some(Size::new(50, 25)));

    let mut image = RenderImage::new(None, Some(50));
    image.perform_layout(&bounds(25, 25, 100, 100));
    assert_eq!(image.size(), Some(Size::new(25, 50)));

    let mut image = RenderImage::new(Some(100), Some(100));
    image.perform_layout(&bounds(25, 25, 75, 75));
    assert_eq!(image.size(), Some(Size::new(75, 75)));
}

#[test]
fn test_render_object() {
    let mut tree = RenderTree::new();
    let id = tree.add(RenderNode::Image(RenderImage::new(Some(100), Some(100))));
    let reg = initialize_registry();
    tree.layout(&reg, id, &bounds(25, 25, 75, 75)).unwrap();
    assert_eq!(tree.size(id), Some(Size::new(75, 75)));
}
