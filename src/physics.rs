//! Collision layers of the game's physics bodies.
use vstd::prelude::*;

verus! {

/// The collision layers of the game: level geometry, the player and enemies.
#[derive(Clone, Copy, Debug, PartialEq, Eq, Structural, Hash)]
pub enum GamePhysicsLayers {
    LevelGeometry,
    Player,
    Enemy,
}

/// Which layers a body belongs to and which layers it collides with, one bit per layer.
#[derive(Clone, Copy, Debug, PartialEq, Eq, Structural)]
pub struct CollisionMasks {
    pub memberships: u32,
    pub filters: u32,
}

impl GamePhysicsLayers {
    /// The layer's bit: level geometry 1, player 2, enemy 4.
    pub open spec fn spec_bits(self) -> u32 {
        match self {
            GamePhysicsLayers::LevelGeometry => 1,
            GamePhysicsLayers::Player => 2,
            GamePhysicsLayers::Enemy => 4,
        }
    }

    /// The layer's bit.
    pub fn to_bits(self) -> (r: u32)
        ensures
            r == self.spec_bits(),
    {
        match self {
            GamePhysicsLayers::LevelGeometry => 1,
            GamePhysicsLayers::Player => 2,
            GamePhysicsLayers::Enemy => 4,
        }
    }
}

impl core::ops::BitOr for GamePhysicsLayers {
    type Output = u32;

    /// The mask holding both layers.
    fn bitor(self, rhs: Self) -> (r: u32)
        ensures
            r == self.spec_bits() | rhs.spec_bits(),
    {
        self.to_bits() | rhs.to_bits()
    }
}

impl vstd::std_specs::ops::BitOrSpecImpl for GamePhysicsLayers {
    open spec fn obeys_bitor_spec() -> bool {
        true
    }

    open spec fn bitor_req(self, rhs: Self) -> bool {
        true
    }

    open spec fn bitor_spec(self, rhs: Self) -> u32 {
        self.spec_bits() | rhs.spec_bits()
    }
}

/// The collision masks of the game's kinds of bodies.
pub trait GamePhysicsLayersExt: Sized {
    /// Level geometry, which collides with the player and enemies.
    fn level_geometry() -> Self;

    /// The player, who collides with level geometry and enemies.
    fn player() -> Self;

    /// An enemy, which collides with level geometry and the player.
    fn enemy() -> Self;
}

impl GamePhysicsLayersExt for CollisionMasks {
    fn level_geometry() -> (r: Self)
        ensures
            r == (CollisionMasks { memberships: 1, filters: 6 }),
    {
        let filters = GamePhysicsLayers::Player | GamePhysicsLayers::Enemy;
        assert(2u32 | 4u32 == 6u32) by (bit_vector);
        CollisionMasks { memberships: GamePhysicsLayers::LevelGeometry.to_bits(), filters }
    }

    fn player() -> (r: Self)
        ensures
            r == (CollisionMasks { memberships: 2, filters: 5 }),
    {
        let filters = GamePhysicsLayers::LevelGeometry | GamePhysicsLayers::Enemy;
        assert(1u32 | 4u32 == 5u32) by (bit_vector);
        CollisionMasks { memberships: GamePhysicsLayers::Player.to_bits(), filters }
    }

    fn enemy() -> (r: Self)
        ensures
            r == (CollisionMasks { memberships: 4, filters: 3 }),
    {
        let filters = GamePhysicsLayers::LevelGeometry | GamePhysicsLayers::Player;
        assert(1u32 | 2u32 == 3u32) by (bit_vector);
        CollisionMasks { memberships: GamePhysicsLayers::Enemy.to_bits(), filters }
    }
}

} // verus!
