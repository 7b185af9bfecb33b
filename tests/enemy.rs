use bevy::platform::collections::HashMap;
use ducky_core::enemy::{load_animation, load_enemy_animations, EnemyAnimation};

#[test]
fn named_animation_becomes_frames() {
    let mut anims = HashMap::new();
    anims.insert("walk".to_string(), EnemyAnimation { start: 2, end: 5, frame_millis: 80 });
    anims.insert("idle".to_string(), EnemyAnimation { start: 0, end: 1, frame_millis: 500 });
    let walk = load_animation(&anims, "walk").unwrap();
    let indices: Vec<usize> = walk.frames.iter().map(|f| f.index).collect();
    assert_eq!(indices, vec![2, 3, 4]);
    assert!(walk.frames.iter().all(|f| f.duration == 80_000_000));
    let idle = load_animation(&anims, "idle").unwrap();
    assert_eq!(idle.frames.len(), 1);
    assert_eq!(idle.frames[0].duration, 500_000_000);
    assert!(load_animation(&anims, "fall").is_none());
}

#[test]
fn all_five_animations_are_required() {
    let mut anims = HashMap::new();
    for (i, name) in ["idle", "walk", "jump", "peak", "fall"].iter().enumerate() {
        anims.insert(name.to_string(), EnemyAnimation { start: i, end: i + 1, frame_millis: 100 });
    }
    let set = load_enemy_animations(&anims).unwrap();
    assert_eq!(set.peak.frames[0].index, 3);
    assert_eq!(set.fall.frames[0].index, 4);
    anims.remove("jump");
    anims.remove("fall");
    assert_eq!(load_enemy_animations(&anims).err(), Some("jump".to_string()));
    anims.clear();
    assert_eq!(load_enemy_animations(&anims).err(), Some("idle".to_string()));
}
