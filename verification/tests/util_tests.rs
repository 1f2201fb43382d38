use collision2d::util::{Angle, FX_ONE, Point, Rotation, fx_mul};

#[test]
fn point_accessors_and_mutators() {
    let mut p: Point<u32> = Point::new(3, 7);
    assert_eq!(p.x(), 3);
    assert_eq!(p.width(), 3);
    assert_eq!(p.y(), 7);
    assert_eq!(p.height(), 7);
    *p.mut_x() = 10;
    *p.mut_y() = 20;
    assert_eq!((p.x(), p.y()), (10, 20));
    *p.mut_width() = 11;
    *p.mut_height() = 21;
    assert_eq!((p.width(), p.height()), (11, 21));
}

#[test]
fn point_conversions_roundtrip() {
    let p: Point<u32> = Point::new(5, 9);
    let q = p.as_i32();
    assert_eq!((q.x(), q.y()), (5, 9));
    let r = q.as_u32();
    assert_eq!((r.x(), r.y()), (5, 9));
}

#[test]
fn point_arithmetic_is_componentwise() {
    let a: Point<i32> = Point::new(3, -4);
    let b: Point<i32> = Point::new(10, 6);
    let s = a.add(b);
    assert_eq!((s.x(), s.y()), (13, 2));
    let d = b.sub(a);
    assert_eq!((d.x(), d.y()), (7, 10));

    let a64: Point<i64> = Point::new(1_000_000, -2_000_000);
    let b64: Point<i64> = Point::new(500_000, 500_000);
    assert_eq!(a64.add(b64).x(), 1_500_000);
    assert_eq!(a64.sub(b64).y(), -2_500_000);
}

#[test]
fn fixed_point_products_are_exact() {
    // 2.5 * 0.4 == 1.0
    assert_eq!(fx_mul(2_500_000, 400_000), 1_000_000);
    // -1.5 * 1.0 == -1.5
    assert_eq!(fx_mul(-1_500_000, FX_ONE), -1_500_000);
    // Tiny products truncate toward zero, on both sides of it.
    assert_eq!(fx_mul(1, 1), 0);
    assert_eq!(fx_mul(-1, 999_999), 0);
    assert_eq!(fx_mul(1_499_999, 1_000), 1_499);
}

#[test]
fn angles_wrap_by_whole_turns() {
    assert_eq!(Angle::from_deg(400_000_000).as_deg(), 40_000_000);
    assert_eq!(Angle::from_deg(-90_000_000).as_deg(), -90_000_000);
    assert_eq!(Angle::from_deg(-370_000_000).as_deg(), -10_000_000);
    assert_eq!(Angle::from_deg(360_000_000).as_deg(), 0);
}

#[test]
fn extreme_angles_still_wrap() {
    // The most negative representable accumulated angle still reduces
    // to less than a turn.
    let extreme = Angle::from_deg(i64::MIN);
    assert_eq!(extreme.as_deg(), -54_775_808);
}

#[test]
fn angle_addition_re_wraps_degrees() {
    let a = Angle::from_deg(350_000_000);
    assert_eq!(a.add_deg(20_000_000).as_deg(), 10_000_000);
    let b = Angle::from_deg(0);
    assert_eq!(b.add_deg(-90_000_000).as_deg(), -90_000_000);
}

#[test]
fn rotations_carry_their_components() {
    let r = Rotation::identity();
    assert_eq!((r.cos_fx, r.sin_fx), (FX_ONE, 0));
    let q = Rotation::new(0, -FX_ONE);
    assert_eq!((q.cos_fx, q.sin_fx), (0, -FX_ONE));
}
