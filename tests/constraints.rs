use flexlayout::constraints::{clamp_length, scale_length, BoxConstraints};
use flexlayout::geometry::{Size, UNBOUNDED};

fn bounds(min_width: u32, min_height: u32, max_width: u32, max_height: u32) -> BoxConstraints {
    BoxConstraints { min_width, max_width, min_height, max_height }
}

#[test]
fn constrain_lands_inside_the_bounds() {
    let c = bounds(10, 20, 50, 60);
    for (w, h) in [(0, 0), (5, 100), (30, 40), (70, 10), (UNBOUNDED, UNBOUNDED)] {
        let s = c.constrain(Size::new(w, h));
        assert!(c.min_width <= s.width && s.width <= c.max_width);
        assert!(c.min_height <= s.height && s.height <= c.max_height);
    }
    assert_eq!(c.constrain(Size::new(5, 100)), Size::new(10, 60));
    assert_eq!(c.constrain(Size::new(30, 40)), Size::new(30, 40));
}

#[test]
fn enforce_twice_equals_enforce_once() {
    let outer = bounds(10, 10, 40, 40);
    for c in [bounds(0, 0, 100, 100), bounds(20, 5, 30, 50), bounds(50, 50, 60, 60)] {
        let once = c.enforce(&outer);
        assert_eq!(once.enforce(&outer), once);
    }
    assert_eq!(bounds(0, 0, 100, 100).enforce(&outer), bounds(10, 10, 40, 40));
    assert_eq!(bounds(20, 5, 30, 50).enforce(&outer), bounds(20, 10, 30, 40));
}

#[test]
fn tight_constraints_admit_one_size() {
    let c = BoxConstraints::tight(Size::new(30, 40));
    assert!(c.is_tight());
    assert_eq!(c.constrain(Size::new(0, 0)), Size::new(30, 40));
    assert_eq!(c.constrain(Size::new(99, 99)), Size::new(30, 40));
    assert_eq!(c.constrain_with_aspect_ratio(Size::new(10, 20)), Size::new(30, 40));
    assert_eq!(c.biggest(), c.smallest());
}

#[test]
fn tight_for_and_expand() {
    assert_eq!(BoxConstraints::tight_for(Some(5), None), bounds(5, 0, 5, UNBOUNDED));
    assert_eq!(BoxConstraints::expand(None, Some(7)), bounds(UNBOUNDED, 7, UNBOUNDED, 7));
    assert_eq!(BoxConstraints::default(), bounds(0, 0, UNBOUNDED, UNBOUNDED));
    assert!(BoxConstraints::tight_for(Some(5), None).has_tight_width());
    assert!(!BoxConstraints::tight_for(Some(5), None).has_tight_height());
}

#[test]
fn biggest_and_smallest() {
    let c = bounds(1, 2, 30, 40);
    assert_eq!(c.biggest(), Size::new(30, 40));
    assert_eq!(c.smallest(), Size::new(1, 2));
    assert_eq!(c.constrain_width(100), 30);
    assert_eq!(c.constrain_height(0), 2);
}

#[test]
fn aspect_ratio_examples() {
    let c = bounds(25, 25, 100, 100);
    assert_eq!(c.constrain_with_aspect_ratio(Size::new(10, 10)), Size::new(25, 25));
    let c = bounds(5, 30, 100, 100);
    assert_eq!(c.constrain_with_aspect_ratio(Size::new(20, 10)), Size::new(60, 30));
    let c = bounds(50, 5, 75, 75);
    assert_eq!(c.constrain_with_aspect_ratio(Size::new(10, 20)), Size::new(50, 75));
}

#[test]
fn aspect_ratio_of_a_size_without_area_is_clamped() {
    let c = bounds(5, 5, 50, 50);
    assert_eq!(c.constrain_with_aspect_ratio(Size::new(0, 80)), Size::new(5, 50));
}

#[test]
fn scale_and_clamp() {
    assert_eq!(scale_length(16, 10, 20), 8);
    assert_eq!(scale_length(7, 1, 2), 3);
    assert_eq!(scale_length(UNBOUNDED, 3, 1), UNBOUNDED);
    assert_eq!(clamp_length(5, 10, 20), 10);
    assert_eq!(clamp_length(25, 10, 20), 20);
    assert_eq!(clamp_length(15, 10, 20), 15);
}
