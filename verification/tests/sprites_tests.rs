use collision2d::pixels::PixelBuffer;
use collision2d::scene::{ObjectType, PlayerState, SceneObject, SpriteDataCache};
use collision2d::sprites_data::{SpriteObject, SpritesData};
use collision2d::util::{Angle, FX_ONE, Point, Rotation};

/// A fully opaque sprite sheet.
fn solid_sheet(width: u32, height: u32) -> PixelBuffer {
    let mut data = Vec::new();
    for _ in 0..(width * height) {
        data.extend_from_slice(&[255, 255, 255, 255]);
    }
    PixelBuffer::new(data, width, height).expect("consistent dimensions")
}

fn load(descr: &str) -> Option<SpritesData> {
    SpritesData::from_image_buffer(solid_sheet(8, 8), &descr.as_bytes().to_vec(), Point::new(4, 4))
}

#[test]
fn description_table_parses_and_builds_hulls() {
    let table = load(
        "PLAYER 0 0 4 4 1\nENEMY_BULLET 4 0 2 2 3\nPLAYER_BULLET 0 4 2 2 1\n\nBACKGROUND 0 0 8 8 1\n",
    )
        .expect("well-formed description");
    let player = table.sprite_data(SpriteObject::Player).expect("declared");
    assert_eq!(player.frames_count(), 1);
    // A 4x4 sprite on a 4x4 virtual screen is one world unit across.
    assert_eq!(player.virtual_size().x(), FX_ONE);
    assert_eq!(player.virtual_size().y(), FX_ONE);
    // The filled square's hull: four corners, centered, in quarter
    // world units (pixel corners at +-2 of a 4-pixel sprite).
    let hull = player.convex();
    assert_eq!(hull.len(), 4);
    assert_eq!((hull[0].x(), hull[0].y()), (500_000, 500_000));
    assert_eq!((hull[1].x(), hull[1].y()), (500_000, -500_000));
    assert_eq!((hull[2].x(), hull[2].y()), (-500_000, -500_000));
    assert_eq!((hull[3].x(), hull[3].y()), (-500_000, 500_000));

    let bullet = table.sprite_data(SpriteObject::EnemyBullet).expect("declared");
    assert_eq!(bullet.frames_count(), 3);
    assert_eq!(bullet.virtual_size().x(), FX_ONE / 2);

    let objects = table.sprite_objects();
    assert_eq!(objects.len(), 4);
    assert!(objects.contains(&SpriteObject::Background));

    assert_eq!(table.image_size().x(), 8);
    assert_eq!(table.image_size().y(), 8);
}

#[test]
fn image_offsets_are_fractions_from_the_bottom() {
    let table = load("PLAYER 4 2 2 2 1\n").expect("well-formed description");
    let player = table.sprite_data(SpriteObject::Player).expect("declared");
    // x offset 4 of 8; y flipped: (8 - 2 - 2) of 8.
    assert_eq!(player.image_offset().x(), FX_ONE / 2);
    assert_eq!(player.image_offset().y(), FX_ONE / 2);
    assert_eq!(player.image_size().x(), FX_ONE / 4);
}

#[test]
fn last_declaration_of_a_kind_wins() {
    let table = load("PLAYER 0 0 4 4 1\nPLAYER 0 0 2 2 7\n").expect("well-formed description");
    let player = table.sprite_data(SpriteObject::Player).expect("declared");
    assert_eq!(player.frames_count(), 7);
}

#[test]
fn undeclared_kinds_are_absent() {
    let table = load("PLAYER 0 0 4 4 1\n").expect("well-formed description");
    assert!(table.sprite_data(SpriteObject::Background).is_none());
    assert!(table.sprite_data(SpriteObject::EnemyBullet).is_none());
}

#[test]
fn malformed_descriptions_are_fatal() {
    // Wrong field count.
    assert!(load("PLAYER 0 0 4 4\n").is_none());
    // Unknown sprite name.
    assert!(load("MOTHERSHIP 0 0 4 4 1\n").is_none());
    // Unparsable integer.
    assert!(load("PLAYER 0 x 4 4 1\n").is_none());
    // Integer overflow.
    assert!(load("PLAYER 0 0 4 4 4294967296\n").is_none());
    // Sprite sticking out of the image.
    assert!(load("PLAYER 6 0 4 4 1\n").is_none());
    // Degenerate sprite sizes.
    assert!(load("PLAYER 0 0 1 4 1\n").is_none());
    assert!(load("PLAYER 0 0 4 0 1\n").is_none());
    // Double space makes an empty field.
    assert!(load("PLAYER  0 0 4 4 1\n").is_none());
}

#[test]
fn plus_signs_and_leading_zeros_parse() {
    let table = load("PLAYER 0 +0 04 4 002\n").expect("well-formed description");
    let player = table.sprite_data(SpriteObject::Player).expect("declared");
    assert_eq!(player.frames_count(), 2);
}

#[test]
fn cache_requires_all_three_entity_sprites() {
    let full = load("PLAYER 0 0 4 4 1\nPLAYER_BULLET 4 0 2 2 1\nENEMY_BULLET 0 4 2 2 1\n")
        .expect("well-formed description");
    assert!(SpriteDataCache::new(&full).is_some());

    let partial = load("PLAYER 0 0 4 4 1\nPLAYER_BULLET 4 0 2 2 1\n")
        .expect("well-formed description");
    assert!(SpriteDataCache::new(&partial).is_none());
}

#[test]
fn scene_objects_derive_their_direction_from_the_sprite_angle() {
    let table = load("PLAYER 0 0 4 4 1\nPLAYER_BULLET 4 0 2 2 1\nENEMY_BULLET 0 4 2 2 1\n")
        .expect("well-formed description");
    let cache = SpriteDataCache::new(&table).expect("all sprites declared");
    let so = SceneObject::new(
        &cache,
        ObjectType::Player(PlayerState::Normal),
        Point::new(500_000, 800_000),
        Angle::from_deg(0),
        Rotation::identity(),
        Point::new(FX_ONE, FX_ONE),
    );
    assert_eq!(so.pos.x(), 500_000);
    assert_eq!(so.direction_angle.as_deg(), -90_000_000);
    assert!(!so.to_delete);
    assert_eq!(so.sprite_angle().as_deg(), 0);
    // The player sprite fills its 4x4 frame, so the hull reaches half a
    // world unit from the origin on each side.
    assert_eq!(so.collision_data().hitbox.left, 500_000);
    assert_eq!(so.collision_data().hitbox.bottom, 500_000);
}

#[test]
fn set_sprite_angle_rebuilds_the_geometry() {
    let table = load("PLAYER 0 0 4 2 1\nPLAYER_BULLET 4 0 2 2 1\nENEMY_BULLET 0 4 2 2 1\n")
        .expect("well-formed description");
    let cache = SpriteDataCache::new(&table).expect("all sprites declared");
    let mut so = SceneObject::new(
        &cache,
        ObjectType::Player(PlayerState::Normal),
        Point::new(500_000, 500_000),
        Angle::from_deg(0),
        Rotation::identity(),
        Point::new(FX_ONE, FX_ONE),
    );
    // A 4x2 sprite: wider than tall. With so flat a sprite the
    // boundary scan's direction markers only stretch the top edge, so
    // the hull spans a quarter world unit above the origin and none
    // below.
    assert_eq!(so.collision_data().hitbox.right, 500_000);
    assert_eq!(so.collision_data().hitbox.top, 0);
    assert_eq!(so.collision_data().hitbox.bottom, 250_000);
    // After a quarter turn, (x, y) becomes (-y, x): the hull is now
    // taller than wide, with its width on the left of the origin.
    so.set_sprite_angle(
        &cache,
        Angle::from_deg(90_000_000),
        Rotation::new(0, FX_ONE),
        Point::new(FX_ONE, FX_ONE),
    );
    assert_eq!(so.sprite_angle().as_deg(), 90_000_000);
    assert_eq!(so.collision_data().hitbox.left, 250_000);
    assert_eq!(so.collision_data().hitbox.right, 0);
    assert_eq!(so.collision_data().hitbox.top, 500_000);
    assert_eq!(so.collision_data().hitbox.bottom, 500_000);
}
