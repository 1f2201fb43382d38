//! The entity model: what the collision core knows about one live game
//! object, and the small cache that maps an object kind to its sprite
//! data.
//!
//! The game-rule layer that moves entities, spawns bullets and reacts to
//! hits lives outside this library; it reads and writes these fields and
//! hands entity collections to the detector once per frame.

use vstd::prelude::*;

use crate::collision::{CollisionData, cd_matches, hull64};
use crate::sprites_data::{SpriteData, SpriteObject, SpritesData};
use crate::util::{Angle, COORD_LIMIT, DEG_FULL, FxPoint, Rotation, SCALE_LIMIT, trunc_mod};

verus! {

/// The player's visible banking state.
#[derive(Debug, Clone, Copy, PartialEq, Eq, Structural)]
pub enum PlayerState {
    Normal,
    TiltedLeft,
    TiltedRight,
}

/// The closed set of entity kinds, each with the data its kind needs
/// (the bullets carry their flicker frame).
#[derive(Debug, Clone, Copy, PartialEq, Eq, Structural)]
pub enum ObjectType {
    Player(PlayerState),
    PlayerBullet(u32),
    EnemyBullet(u32),
}

/// One live entity: its kind, world position, orientation, deletion
/// flag, and derived collision geometry.
#[derive(Debug, Clone)]
pub struct SceneObject {
    pub object_type: ObjectType,
    pub pos: FxPoint,
    pub direction_angle: Angle,
    pub to_delete: bool,
    pub sprite_angle: Angle,
    pub collision_data: CollisionData,
}

/// One sprite data record per entity kind, cloned out of the load-time
/// table so that entities can be built without holding the table.
#[derive(Debug)]
pub struct SpriteDataCache {
    player_sprite_data: SpriteData,
    player_bullet_sprite_data: SpriteData,
    enemy_bullet_sprite_data: SpriteData,
}

impl SpriteDataCache {
    pub closed spec fn spec_sprite_data(&self, object_type: ObjectType) -> SpriteData {
        match object_type {
            ObjectType::Player(..) => self.player_sprite_data,
            ObjectType::PlayerBullet(..) => self.player_bullet_sprite_data,
            ObjectType::EnemyBullet(..) => self.enemy_bullet_sprite_data,
        }
    }

    pub closed spec fn wf(&self) -> bool {
        &&& self.player_sprite_data.wf()
        &&& self.player_bullet_sprite_data.wf()
        &&& self.enemy_bullet_sprite_data.wf()
    }

    /// Clones the three entity sprites out of the table; reports failure
    /// when the description text did not declare one of them.
    pub fn new(sprites_data: &SpritesData) -> (r: Option<SpriteDataCache>)
        requires
            sprites_data.wf(),
        ensures
            (match r {
                Option::Some(cache) => {
                    &&& cache.wf()
                    &&& (match sprites_data.spec_sprite_data(SpriteObject::Player) {
                        Option::Some(sd) => forall|ps: PlayerState|
                            cache.spec_sprite_data(ObjectType::Player(ps)).convex@ == sd.convex@,
                        Option::None => false,
                    })
                    &&& (match sprites_data.spec_sprite_data(SpriteObject::PlayerBullet) {
                        Option::Some(sd) => forall|fr: u32|
                            cache.spec_sprite_data(ObjectType::PlayerBullet(fr)).convex@
                                == sd.convex@,
                        Option::None => false,
                    })
                    &&& (match sprites_data.spec_sprite_data(SpriteObject::EnemyBullet) {
                        Option::Some(sd) => forall|fr: u32|
                            cache.spec_sprite_data(ObjectType::EnemyBullet(fr)).convex@
                                == sd.convex@,
                        Option::None => false,
                    })
                },
                Option::None => sprites_data.spec_sprite_data(SpriteObject::Player) is None
                    || sprites_data.spec_sprite_data(SpriteObject::PlayerBullet) is None
                    || sprites_data.spec_sprite_data(SpriteObject::EnemyBullet) is None,
            }),
    {
        let player = sprites_data.sprite_data(SpriteObject::Player);
        let player_bullet = sprites_data.sprite_data(SpriteObject::PlayerBullet);
        let enemy_bullet = sprites_data.sprite_data(SpriteObject::EnemyBullet);
        match (player, player_bullet, enemy_bullet) {
            (Some(p), Some(pb), Some(eb)) => Some(
                SpriteDataCache {
                    player_sprite_data: p.clone(),
                    player_bullet_sprite_data: pb.clone(),
                    enemy_bullet_sprite_data: eb.clone(),
                },
            ),
            _ => None,
        }
    }

    /// The sprite data of one entity kind.
    pub fn sprite_data(&self, object_type: &ObjectType) -> (r: &SpriteData)
        ensures
            r == &self.spec_sprite_data(*object_type),
    {
        match *object_type {
            ObjectType::Player(..) => &self.player_sprite_data,
            ObjectType::EnemyBullet(..) => &self.enemy_bullet_sprite_data,
            ObjectType::PlayerBullet(..) => &self.player_bullet_sprite_data,
        }
    }
}

impl SceneObject {
    /// The position is on or near the unit square and the derived
    /// geometry is bounded.
    pub open spec fn wf(&self) -> bool {
        &&& -COORD_LIMIT <= self.pos.spec_x() <= COORD_LIMIT
        &&& -COORD_LIMIT <= self.pos.spec_y() <= COORD_LIMIT
        &&& self.collision_data.wf()
    }

    /// Builds an entity of the given kind at `pos`, facing `sprite_angle`
    /// (whose cosine and sine `sprite_rotation` carries in fixed point),
    /// with the given componentwise scale. The movement direction is the
    /// sprite angle turned a quarter turn backwards.
    pub fn new(
        sprites_data_cache: &SpriteDataCache,
        object_type: ObjectType,
        pos: FxPoint,
        sprite_angle: Angle,
        sprite_rotation: Rotation,
        sprite_scale: FxPoint,
    ) -> (r: SceneObject)
        requires
            sprites_data_cache.wf(),
            sprite_rotation.wf(),
            -COORD_LIMIT <= pos.spec_x() <= COORD_LIMIT,
            -COORD_LIMIT <= pos.spec_y() <= COORD_LIMIT,
            -SCALE_LIMIT <= sprite_scale.spec_x() <= SCALE_LIMIT,
            -SCALE_LIMIT <= sprite_scale.spec_y() <= SCALE_LIMIT,
        ensures
            r.wf(),
            r.object_type == object_type,
            r.pos == pos,
            r.to_delete == false,
            r.sprite_angle == sprite_angle,
            r.direction_angle.spec_raw_deg() == trunc_mod(
                sprite_angle.spec_raw_deg(),
                DEG_FULL as int,
            ) - 90_000_000,
            cd_matches(
                r.collision_data,
                hull64(sprites_data_cache.spec_sprite_data(object_type).convex@),
                sprite_rotation,
                sprite_scale.spec_x() as int,
                sprite_scale.spec_y() as int,
            ),
    {
        SceneObject {
            object_type,
            pos,
            direction_angle: sprite_angle.add_deg(-90_000_000),
            to_delete: false,
            sprite_angle,
            collision_data: CollisionData::new(
                sprites_data_cache.sprite_data(&object_type),
                sprite_rotation,
                sprite_scale,
            ),
        }
    }

    pub fn sprite_angle(&self) -> (r: Angle)
        ensures
            r == self.sprite_angle,
    {
        self.sprite_angle
    }

    pub fn collision_data(&self) -> (r: &CollisionData)
        ensures
            r == &self.collision_data,
    {
        &self.collision_data
    }

    /// Re-aims the entity: stores the new sprite angle and rebuilds the
    /// collision geometry for the new orientation.
    pub fn set_sprite_angle(
        &mut self,
        sprites_data_cache: &SpriteDataCache,
        sprite_angle: Angle,
        sprite_rotation: Rotation,
        sprite_scale: FxPoint,
    )
        requires
            old(self).wf(),
            sprites_data_cache.wf(),
            sprite_rotation.wf(),
            -SCALE_LIMIT <= sprite_scale.spec_x() <= SCALE_LIMIT,
            -SCALE_LIMIT <= sprite_scale.spec_y() <= SCALE_LIMIT,
        ensures
            final(self).wf(),
            final(self).object_type == old(self).object_type,
            final(self).pos == old(self).pos,
            final(self).direction_angle == old(self).direction_angle,
            final(self).to_delete == old(self).to_delete,
            final(self).sprite_angle == sprite_angle,
            cd_matches(
                final(self).collision_data,
                hull64(sprites_data_cache.spec_sprite_data(old(self).object_type).convex@),
                sprite_rotation,
                sprite_scale.spec_x() as int,
                sprite_scale.spec_y() as int,
            ),
    {
        self.collision_data = CollisionData::new(
            sprites_data_cache.sprite_data(&self.object_type),
            sprite_rotation,
            sprite_scale,
        );
        self.sprite_angle = sprite_angle;
    }
}

} // verus!
