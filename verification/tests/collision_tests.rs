use collision2d::collision::{CollisionData, CollisionDetector, Hitbox, SegmentsIterator,
    segment_no, segments_of};
use collision2d::scene::{ObjectType, SceneObject};
use collision2d::sprites_data::SpriteData;
use collision2d::util::{Angle, FX_ONE, Point, Rotation};

fn sprite_with_hull(hull: Vec<(i64, i64)>) -> SpriteData {
    SpriteData {
        image_offset: Point::new(0, 0),
        image_size: Point::new(0, 0),
        virtual_size: Point::new(100_000, 100_000),
        frames_count: 1,
        convex: hull.into_iter().map(|(x, y)| Point::new(x, y)).collect(),
    }
}

/// A square of side 0.1 world units, centered on the origin.
fn square_sprite() -> SpriteData {
    sprite_with_hull(vec![
        (50_000, -50_000),
        (50_000, 50_000),
        (-50_000, 50_000),
        (-50_000, -50_000),
    ])
}

/// A diamond with corners 0.07 world units from the origin.
fn diamond_sprite() -> SpriteData {
    sprite_with_hull(vec![(0, -70_000), (70_000, 0), (0, 70_000), (-70_000, 0)])
}

fn entity_with(sprite: &SpriteData, x: i64, y: i64) -> SceneObject {
    SceneObject {
        object_type: ObjectType::PlayerBullet(0),
        pos: Point::new(x, y),
        direction_angle: Angle::from_deg(0),
        to_delete: false,
        sprite_angle: Angle::from_deg(0),
        collision_data: CollisionData::new(
            sprite,
            Rotation::identity(),
            Point::new(FX_ONE, FX_ONE),
        ),
    }
}

fn detect_dedup(
    allowance: i64,
    a: &Vec<SceneObject>,
    b: &Vec<SceneObject>,
) -> Vec<(usize, usize)> {
    let detector = CollisionDetector::with_allowance(allowance);
    let mut seen: Vec<(usize, usize)> = Vec::new();
    for pair in detector.detect_collisions(a, b) {
        if !seen.contains(&pair) {
            seen.push(pair);
        }
    }
    seen
}

#[test]
fn rotation_identity_keeps_the_raw_bounding_box() {
    let sprite = square_sprite();
    let cd = CollisionData::new(&sprite, Rotation::identity(), Point::new(FX_ONE, FX_ONE));
    assert_eq!(cd.hitbox.left, 50_000);
    assert_eq!(cd.hitbox.top, 50_000);
    assert_eq!(cd.hitbox.right, 50_000);
    assert_eq!(cd.hitbox.bottom, 50_000);
    assert_eq!(cd.convex.len(), 4);
    assert_eq!(cd.convex[0].x(), 50_000);
    assert_eq!(cd.convex[0].y(), -50_000);
    assert_eq!(cd.range.x(), 50_000);
    assert_eq!(cd.range.y(), 50_000);
    assert_eq!(cd.normals.len(), 4);
}

#[test]
fn quarter_turn_rotates_every_vertex() {
    let sprite = square_sprite();
    let quarter = Rotation::new(0, FX_ONE);
    let cd = CollisionData::new(&sprite, quarter, Point::new(FX_ONE, FX_ONE));
    // (x, y) becomes (-y, x).
    assert_eq!((cd.convex[0].x(), cd.convex[0].y()), (50_000, 50_000));
    assert_eq!((cd.convex[1].x(), cd.convex[1].y()), (-50_000, 50_000));
    assert_eq!(cd.hitbox.left, 50_000);
    assert_eq!(cd.hitbox.right, 50_000);
}

#[test]
fn componentwise_scale_stretches_the_hitbox() {
    let sprite = square_sprite();
    let cd = CollisionData::new(
        &sprite,
        Rotation::identity(),
        Point::new(2 * FX_ONE, FX_ONE / 2),
    );
    assert_eq!(cd.hitbox.left, 100_000);
    assert_eq!(cd.hitbox.right, 100_000);
    assert_eq!(cd.hitbox.top, 25_000);
    assert_eq!(cd.hitbox.bottom, 25_000);
}

#[test]
fn degenerate_hulls_have_no_normals() {
    let single = sprite_with_hull(vec![(0, 0)]);
    let cd = CollisionData::new(&single, Rotation::identity(), Point::new(FX_ONE, FX_ONE));
    assert_eq!(cd.convex.len(), 1);
    assert!(cd.normals.is_empty());

    let empty = sprite_with_hull(vec![]);
    let cd = CollisionData::new(&empty, Rotation::identity(), Point::new(FX_ONE, FX_ONE));
    assert!(cd.convex.is_empty());
    assert!(cd.normals.is_empty());
    assert_eq!(cd.hitbox.left, 0);
    assert_eq!(cd.hitbox.right, 0);
}

#[test]
fn fully_overlapping_squares_collide_once() {
    let sprite = square_sprite();
    let a = vec![entity_with(&sprite, 500_000, 500_000)];
    let b = vec![entity_with(&sprite, 500_000, 500_000)];
    assert_eq!(detect_dedup(0, &a, &b), vec![(0, 0)]);
}

#[test]
fn distant_squares_do_not_collide() {
    let sprite = square_sprite();
    let a = vec![entity_with(&sprite, 500_000, 500_000)];
    let b = vec![entity_with(&sprite, 900_000, 500_000)];
    assert!(detect_dedup(0, &a, &b).is_empty());
}

#[test]
fn allowance_absorbs_an_exact_touch() {
    let sprite = square_sprite();
    // Edges exactly touching: gap zero, allowance 0.01 registers the hit.
    let a = vec![entity_with(&sprite, 500_000, 500_000)];
    let b = vec![entity_with(&sprite, 600_000, 500_000)];
    assert_eq!(detect_dedup(10_000, &a, &b), vec![(0, 0)]);

    // A one-millionth world-unit gap with zero allowance does not.
    let c = vec![entity_with(&sprite, 600_001, 500_000)];
    assert!(detect_dedup(0, &a, &c).is_empty());
}

#[test]
fn separating_axis_rejects_a_diagonal_near_miss() {
    // The diamond's diagonal edge separates the shapes even though
    // their axis-aligned hitboxes overlap.
    let diamond = diamond_sprite();
    let square = square_sprite();
    let a = vec![entity_with(&diamond, 500_000, 500_000)];
    let miss = vec![entity_with(&square, 586_000, 586_000)];
    assert!(detect_dedup(0, &a, &miss).is_empty());

    // One step closer the corner touches the edge: contact, no gap.
    let touch = vec![entity_with(&square, 585_000, 585_000)];
    assert_eq!(detect_dedup(0, &a, &touch), vec![(0, 0)]);
}

#[test]
fn outcome_is_symmetric_in_the_two_sets() {
    let diamond = diamond_sprite();
    let square = square_sprite();
    for (x, y) in [(586_000i64, 586_000i64), (585_000, 585_000), (540_000, 500_000)] {
        let a = vec![entity_with(&diamond, 500_000, 500_000)];
        let b = vec![entity_with(&square, x, y)];
        let ab = detect_dedup(0, &a, &b);
        let ba = detect_dedup(0, &b, &a);
        assert_eq!(ab.is_empty(), ba.is_empty(), "asymmetric at ({}, {})", x, y);
    }
}

#[test]
fn empty_hull_never_collides() {
    let sprite = square_sprite();
    let ghostly = sprite_with_hull(vec![]);
    let a = vec![entity_with(&ghostly, 500_000, 500_000)];
    let b = vec![entity_with(&sprite, 500_000, 500_000)];
    assert!(detect_dedup(10_000, &a, &b).is_empty());
}

#[test]
fn every_pair_of_many_bullets_is_found() {
    // Several entities per set, some colliding, some not; indices must
    // match up exactly.
    let sprite = square_sprite();
    let a = vec![
        entity_with(&sprite, 100_000, 100_000),
        entity_with(&sprite, 900_000, 900_000),
    ];
    let b = vec![
        entity_with(&sprite, 120_000, 100_000),
        entity_with(&sprite, 880_000, 900_000),
        entity_with(&sprite, 500_000, 500_000),
    ];
    let pairs = detect_dedup(0, &a, &b);
    assert_eq!(pairs.len(), 2);
    assert!(pairs.contains(&(0, 0)));
    assert!(pairs.contains(&(1, 1)));
}

#[test]
fn detector_allowance_follows_the_virtual_dimensions() {
    let detector = CollisionDetector::new(Point::new(200, 200));
    assert_eq!(detector.allowance, 1250);
}

#[test]
fn grid_registers_every_spanned_cell() {
    // A hitbox spanning cells (2,3) through (4,5) covers all nine.
    let so = SceneObject {
        object_type: ObjectType::EnemyBullet(0),
        pos: Point::new(350_000, 450_000),
        direction_angle: Angle::from_deg(0),
        to_delete: false,
        sprite_angle: Angle::from_deg(0),
        collision_data: CollisionData {
            hitbox: Hitbox { left: 100_000, top: 100_000, right: 100_000, bottom: 100_000 },
            convex: Vec::new(),
            normals: Vec::new(),
            range: Point::new(100_000, 100_000),
        },
    };
    let cells = segments_of(&so);
    assert_eq!(cells.len(), 9);
    for cy in 3u32..=5 {
        for cx in 2u32..=4 {
            assert!(cells.contains(&(cy * 10 + cx)), "missing cell ({}, {})", cx, cy);
        }
    }
    assert!(!cells.contains(&(3 * 10 + 1)));
    assert!(!cells.contains(&(3 * 10 + 5)));
    assert!(!cells.contains(&(2 * 10 + 2)));
    assert!(!cells.contains(&(6 * 10 + 2)));

    let mut it = SegmentsIterator::new(&so);
    assert_eq!(it.next(), Some(32));
    assert_eq!(it.next(), Some(33));
    assert_eq!(it.next(), Some(34));
    assert_eq!(it.next(), Some(42));
}

#[test]
fn segment_no_is_row_major() {
    assert_eq!(segment_no(Point::new(3, 4)), 43);
    assert_eq!(segment_no(Point::new(0, 0)), 0);
    assert_eq!(segment_no(Point::new(9, 9)), 99);
}
