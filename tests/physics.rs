use ducky_core::physics::{CollisionMasks, GamePhysicsLayers, GamePhysicsLayersExt};

#[test]
fn each_layer_has_its_own_bit() {
    assert_eq!(GamePhysicsLayers::LevelGeometry.to_bits(), 1);
    assert_eq!(GamePhysicsLayers::Player.to_bits(), 2);
    assert_eq!(GamePhysicsLayers::Enemy.to_bits(), 4);
    assert_eq!(GamePhysicsLayers::Player | GamePhysicsLayers::Enemy, 6);
    assert_eq!(GamePhysicsLayers::Enemy | GamePhysicsLayers::Enemy, 4);
}

#[test]
fn bodies_collide_with_the_other_kinds() {
    assert_eq!(CollisionMasks::level_geometry(), CollisionMasks { memberships: 1, filters: 6 });
    assert_eq!(CollisionMasks::player(), CollisionMasks { memberships: 2, filters: 5 });
    assert_eq!(CollisionMasks::enemy(), CollisionMasks { memberships: 4, filters: 3 });
}
