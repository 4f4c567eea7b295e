use aftershock::math::{signi, sign3i, mapi, point_in_triangle};
use aftershock::line::LineSide;
use aftershock::gui::FitRule;
use aftershock::partitioned_buffer::BoundingParallelThreshold;

#[test]
fn signi_values() {
    assert_eq!(signi(42), 1);
    assert_eq!(signi(-7), -1);
    assert_eq!(signi(0), 0);
    assert_eq!(signi(i32::MIN), -1);
}

#[test]
fn sign3i_orientation() {
    assert_eq!(sign3i(0, 0, 1, 0, 0, 1), 1);
    assert_eq!(sign3i(0, 0, 0, 1, 1, 0), -1);
    assert_eq!(sign3i(0, 0, 1, 1, 2, 2), 0);
    assert_eq!(sign3i(5, 2, -3, 4, 1, 1), (5 - 1) * (4 - 1) - (-3 - 1) * (2 - 1));
}

#[test]
fn mapi_truncates_toward_zero() {
    assert_eq!(mapi(5, 0, 10, 0, 100), 50);
    assert_eq!(mapi(3, 0, 7, 0, 10), 4);
    assert_eq!(mapi(-3, 0, 7, 0, 10), -4);
    assert_eq!(mapi(0, 0, 10, 100, 0), 100);
}

#[test]
fn point_in_triangle_inside_edge_outside() {
    assert!(point_in_triangle(1, 1, 0, 0, 4, 0, 0, 4));
    assert!(point_in_triangle(2, 2, 0, 0, 4, 0, 0, 4));
    assert!(!point_in_triangle(3, 3, 0, 0, 4, 0, 0, 4));
    assert!(!point_in_triangle(-1, 0, 0, 0, 4, 0, 0, 4));
}

#[test]
fn point_in_triangle_corner_order_and_corners() {
    let pts = [(1, 1), (3, 3), (0, 0), (2, 1), (5, -1)];
    for (px, py) in pts {
        let a = point_in_triangle(px, py, 0, 0, 4, 0, 0, 4);
        assert_eq!(a, point_in_triangle(px, py, 4, 0, 0, 4, 0, 0));
        assert_eq!(a, point_in_triangle(px, py, 0, 0, 0, 4, 4, 0));
    }
    assert!(point_in_triangle(0, 0, 0, 0, 4, 0, 0, 4));
    assert!(point_in_triangle(4, 0, 0, 0, 4, 0, 0, 4));
    assert!(point_in_triangle(0, 4, 0, 0, 4, 0, 0, 4));
}

#[test]
fn line_side_from_sign() {
    assert_eq!(LineSide::from_sign(3), LineSide::Right);
    assert_eq!(LineSide::from_sign(-3), LineSide::Left);
    assert_eq!(LineSide::from_sign(0), LineSide::Overlap);
}

#[test]
fn bounding_threshold_pixels() {
    assert_eq!(BoundingParallelThreshold::Always.pixels(), 0);
    assert_eq!(BoundingParallelThreshold::High.pixels(), 8192);
    assert_eq!(BoundingParallelThreshold::Medium.pixels(), 16384);
    assert_eq!(BoundingParallelThreshold::Low.pixels(), 32768);
    assert_eq!(BoundingParallelThreshold::VeryLow.pixels(), 65536);
}

#[test]
fn fit_rule_variants_differ() {
    assert_ne!(FitRule::Keep, FitRule::Stretch);
}
